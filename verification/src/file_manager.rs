//! Notes that carry their identity in their front matter: a block of
//! `key: value` lines with the note's id, title and times.

use crate::database::Pair;
use crate::numbers::{parse_i64, parsed_i64};
use crate::sorting::{first_outranked, stable_sort};
use crate::text::{
    copy_range, lines, matches_at, occurs_at, split_lines, string_from, string_push, to_chars, trim,
    trim_bounds,
};
use crate::vault::{
    body_start, fence, find_body_start, find_frontmatter_close, frontmatter_close, Vault,
};
use vstd::prelude::*;
use vstd::string::StringExecFns;

verus! {

/// A note with the metadata of its front matter.
#[derive(Debug)]
pub struct Note {
    pub id: String,
    pub title: String,
    pub file_path: String,
    pub created_at: i64,
    pub modified_at: i64,
}

/// The mathematical value of a [`Note`].
pub struct NoteView {
    pub id: Seq<char>,
    pub title: Seq<char>,
    pub file_path: Seq<char>,
    pub created_at: i64,
    pub modified_at: i64,
}

impl View for Note {
    type V = NoteView;

    open spec fn view(&self) -> NoteView {
        NoteView {
            id: self.id@,
            title: self.title@,
            file_path: self.file_path@,
            created_at: self.created_at,
            modified_at: self.modified_at,
        }
    }
}

impl DeepView for Note {
    type V = NoteView;

    open spec fn deep_view(&self) -> NoteView {
        self@
    }
}

impl Clone for Note {
    fn clone(&self) -> (r: Self)
        ensures
            r@ == self@,
    {
        Note {
            id: self.id.clone(),
            title: self.title.clone(),
            file_path: self.file_path.clone(),
            created_at: self.created_at,
            modified_at: self.modified_at,
        }
    }
}

/// Why the front matter of a note gives no note.
#[derive(Debug, Clone, Copy, PartialEq, Eq, Structural)]
pub enum NoteError {
    /// The front matter is opened and never closed.
    Malformed,
    MissingId,
    MissingTitle,
    MissingCreated,
    /// The creation time is no number.
    InvalidCreated,
    MissingModified,
    /// The modification time is no number.
    InvalidModified,
}

/// The key of the note's id.
pub open spec fn key_id() -> Seq<char> {
    seq!['i', 'd']
}

/// The key of the note's title.
pub open spec fn key_title() -> Seq<char> {
    seq!['t', 'i', 't', 'l', 'e']
}

/// The key of the note's creation time.
pub open spec fn key_created() -> Seq<char> {
    seq!['c', 'r', 'e', 'a', 't', 'e', 'd']
}

/// The key of the note's modification time.
pub open spec fn key_modified() -> Seq<char> {
    seq!['m', 'o', 'd', 'i', 'f', 'i', 'e', 'd']
}

/// The position of the first colon of `s`, or its length.
pub open spec fn colon_index(s: Seq<char>) -> int
    decreases s.len(),
{
    if s.len() == 0 || s[0] == ':' {
        0
    } else {
        1 + colon_index(s.drop_first())
    }
}

/// The field that a line of front matter sets: the trimmed texts before
/// and behind its first colon; none for a line without a colon.
pub open spec fn field_of(line: Seq<char>) -> Option<Pair> {
    let t = trim(line);
    let c = colon_index(t);
    if 0 <= c < t.len() {
        Some((trim(t.take(c)), trim(t.skip(c + 1))))
    } else {
        None
    }
}

/// The condition that a field has the key `key`.
pub open spec fn is_field(key: Seq<char>) -> spec_fn(Pair) -> bool {
    |f: Pair| f.0 == key
}

/// The fields with `key` set to `value`: in place of the value that it
/// had, or behind the others.
pub open spec fn with_field(fields: Seq<Pair>, key: Seq<char>, value: Seq<char>) -> Seq<Pair> {
    if exists|i: int| 0 <= i < fields.len() && (#[trigger] fields[i]).0 == key {
        fields.map_values(
            |f: Pair|
                if f.0 == key {
                    (key, value)
                } else {
                    f
                },
        )
    } else {
        fields.push((key, value))
    }
}

/// The fields that the first `n` lines set, a later line overruling an
/// earlier one with the same key.
pub open spec fn fields_upto(all: Seq<Seq<char>>, n: int) -> Seq<Pair>
    decreases n,
{
    if n <= 0 {
        Seq::empty()
    } else {
        match field_of(all[n - 1]) {
            Some(f) => with_field(fields_upto(all, n - 1), f.0, f.1),
            None => fields_upto(all, n - 1),
        }
    }
}

/// The value of the first field with the key `key`.
pub open spec fn field_value(fields: Seq<Pair>, key: Seq<char>) -> Option<Seq<char>>
    decreases fields.len(),
{
    if fields.len() == 0 {
        None
    } else if fields[0].0 == key {
        Some(fields[0].1)
    } else {
        field_value(fields.drop_first(), key)
    }
}

/// The fields and the body of a note. A text that does not begin with a
/// fence has no fields and is all body; one whose front matter is not
/// closed is malformed.
pub open spec fn parsed_frontmatter(raw: Seq<char>) -> Result<(Seq<Pair>, Seq<char>), NoteError> {
    if !occurs_at(raw, fence(), 0) {
        Ok((Seq::empty(), raw))
    } else {
        match frontmatter_close(raw) {
            Some(i) => {
                let block = lines(raw.subrange(3, 3 + i));
                Ok((fields_upto(block, block.len() as int), raw.skip(body_start(raw))))
            },
            None => Err(NoteError::Malformed),
        }
    }
}

/// The line that writes the field `key`, if it is set.
pub open spec fn field_line(fields: Seq<Pair>, key: Seq<char>) -> Seq<char> {
    match field_value(fields, key) {
        Some(v) => key + seq![':', ' '] + v + seq!['\n'],
        None => Seq::empty(),
    }
}

/// The text of a note with the given fields and body: between two fences
/// the id, the title and the two times, as far as they are set, and behind
/// them the body.
pub open spec fn rebuilt(fields: Seq<Pair>, body: Seq<char>) -> Seq<char> {
    seq!['-', '-', '-', '\n'] + field_line(fields, key_id()) + field_line(fields, key_title())
        + field_line(fields, key_created()) + field_line(fields, key_modified()) + seq![
        '-',
        '-',
        '-',
        '\n',
    ] + body
}

/// The note that the fields give: the id and the title as they stand, the
/// two times as numbers. The first field that is missing or no number
/// decides the error.
pub open spec fn note_from(fields: Seq<Pair>, file_path: Seq<char>) -> Result<NoteView, NoteError> {
    if field_value(fields, key_id()) is None {
        Err(NoteError::MissingId)
    } else if field_value(fields, key_title()) is None {
        Err(NoteError::MissingTitle)
    } else if field_value(fields, key_created()) is None {
        Err(NoteError::MissingCreated)
    } else if parsed_i64(field_value(fields, key_created())->0) is None {
        Err(NoteError::InvalidCreated)
    } else if field_value(fields, key_modified()) is None {
        Err(NoteError::MissingModified)
    } else if parsed_i64(field_value(fields, key_modified())->0) is None {
        Err(NoteError::InvalidModified)
    } else {
        Ok(
            NoteView {
                id: field_value(fields, key_id())->0,
                title: field_value(fields, key_title())->0,
                file_path,
                created_at: parsed_i64(field_value(fields, key_created())->0)->0,
                modified_at: parsed_i64(field_value(fields, key_modified())->0)->0,
            },
        )
    }
}

/// The note that a text gives, read from the file `file_path`.
pub open spec fn note_of(raw: Seq<char>, file_path: Seq<char>) -> Result<NoteView, NoteError> {
    match parsed_frontmatter(raw) {
        Err(e) => Err(e),
        Ok(parsed) => note_from(parsed.0, file_path),
    }
}

/// The field that a line sets.
fn field_on(line: &Vec<char>) -> (r: Option<(String, String)>)
    ensures
        r.deep_view() == field_of(line@),
{
    let (a, b) = trim_bounds(line, 0, line.len());
    assert(line@.subrange(0, line.len() as int) =~= line@);
    let ghost t = trim(line@);
    let mut c: usize = a;
    assert(t.skip(0) =~= t);
    while c < b && line[c] != ':'
        invariant
            a <= c <= b <= line.len(),
            t == line@.subrange(a as int, b as int),
            colon_index(t) == (c - a) + colon_index(t.skip(c - a)),
        decreases b - c,
    {
        assert(t.skip(c - a).drop_first() =~= t.skip(c - a + 1));
        c += 1;
    }
    if c == b {
        assert(t.skip(c - a).len() == 0);
        return None;
    }
    let (ka, kb) = trim_bounds(line, a, c);
    let (va, vb) = trim_bounds(line, c + 1, b);
    assert(line@.subrange(a as int, c as int) =~= t.take(c - a));
    assert(line@.subrange(c as int + 1, b as int) =~= t.skip(c - a + 1));
    Some((string_from(line, ka, kb), string_from(line, va, vb)))
}

/// Sets `key` to `value` in `fields`.
pub fn set_field(fields: &mut Vec<(String, String)>, key: &String, value: &String)
    ensures
        final(fields).deep_view() == with_field(old(fields).deep_view(), key@, value@),
{
    let ghost before = fields.deep_view();
    let mut found = false;
    let mut i: usize = 0;
    while i < fields.len()
        invariant
            i <= fields.len(),
            fields.len() == before.len(),
            forall|j: int|
                0 <= j < i ==> #[trigger] fields.deep_view()[j] == (if before[j].0 == key@ {
                    (key@, value@)
                } else {
                    before[j]
                }),
            forall|j: int| i <= j < before.len() ==> #[trigger] fields.deep_view()[j] == before[j],
            found == (exists|j: int| 0 <= j < i && (#[trigger] before[j]).0 == key@),
        decreases fields.len() - i,
    {
        let ghost so_far = fields.deep_view();
        assert(so_far[i as int] == before[i as int]);
        if fields[i].0 == *key {
            fields[i] = (key.clone(), value.clone());
            found = true;
            assert(before[i as int].0 == key@);
            assert(fields.deep_view()[i as int] == (key@, value@));
            assert forall|j: int| 0 <= j < before.len() && j != i implies #[trigger] fields.deep_view()[j]
                == so_far[j] by {}
        } else {
            proof {
                assert(before[i as int].0 != key@);
                if exists|j: int| 0 <= j < i + 1 && (#[trigger] before[j]).0 == key@ {
                    let j = choose|j: int| 0 <= j < i + 1 && (#[trigger] before[j]).0 == key@;
                    assert(j < i);
                }
            }
        }
        i += 1;
    }
    if found {
        assert(fields.deep_view() =~= before.map_values(
            |f: Pair|
                if f.0 == key@ {
                    (key@, value@)
                } else {
                    f
                },
        ));
    } else {
        proof {
            assert forall|j: int| 0 <= j < before.len() implies fields.deep_view()[j]
                == before[j] by {
                assert(before[j].0 != key@);
            }
            assert(fields.deep_view() =~= before);
        }
        fields.push((key.clone(), value.clone()));
        assert(fields.deep_view() =~= before.push((key@, value@)));
    }
}

/// The value of the first field with the key `key`.
pub fn get_field(fields: &Vec<(String, String)>, key: &String) -> (r: Option<String>)
    ensures
        r.deep_view() == field_value(fields.deep_view(), key@),
{
    let ghost all = fields.deep_view();
    let mut i: usize = 0;
    assert(all.skip(0) =~= all);
    while i < fields.len()
        invariant
            i <= fields.len(),
            all == fields.deep_view(),
            field_value(all, key@) == field_value(all.skip(i as int), key@),
        decreases fields.len() - i,
    {
        assert(all.skip(i as int)[0] == all[i as int]);
        if fields[i].0 == *key {
            return Some(fields[i].1.clone());
        }
        assert(all.skip(i as int).drop_first() =~= all.skip(i as int + 1));
        i += 1;
    }
    None
}

/// Parses the front matter of a note into its fields and the body.
pub fn parse_frontmatter_raw(raw: &str) -> (r: Result<(Vec<(String, String)>, String), NoteError>)
    ensures
        match r {
            Ok(p) => parsed_frontmatter(raw@) == Ok::<(Seq<Pair>, Seq<char>), NoteError>(
                (p.0.deep_view(), p.1@),
            ),
            Err(e) => parsed_frontmatter(raw@) == Err::<(Seq<Pair>, Seq<char>), NoteError>(e),
        },
{
    let text = to_chars(raw);
    let mut fields: Vec<(String, String)> = Vec::new();
    assert(fields.deep_view() =~= Seq::<Pair>::empty());
    let open = vec!['-', '-', '-'];
    assert(open@ =~= fence());
    assert(text@.subrange(0, text.len() as int) =~= text@);
    if !matches_at(&text, 0, text.len(), &open, 0) {
        return Ok((fields, string_from(&text, 0, text.len())));
    }
    match find_frontmatter_close(&text) {
        None => Err(NoteError::Malformed),
        Some(i) => {
            let block = copy_range(&text, 3, 3 + i);
            let all = split_lines(&block);
            let ghost wanted = lines(block@);
            let mut k: usize = 0;
            while k < all.len()
                invariant
                    k <= all.len(),
                    all.len() == wanted.len(),
                    forall|j: int| 0 <= j < all.len() ==> (#[trigger] all[j])@ == wanted[j],
                    fields.deep_view() == fields_upto(wanted, k as int),
                decreases all.len() - k,
            {
                assert(all[k as int]@ == wanted[k as int]);
                match field_on(&all[k]) {
                    Some(f) => {
                        set_field(&mut fields, &f.0, &f.1);
                    },
                    None => {},
                }
                k += 1;
            }
            let start = find_body_start(&text);
            assert(text@.subrange(start as int, text.len() as int) =~= text@.skip(start as int));
            Ok((fields, string_from(&text, start, text.len())))
        },
    }
}

/// Strips the front matter from the text of a note and returns the body.
pub fn strip_frontmatter(raw: &str) -> (body: String)
    ensures
        body@ == crate::vault::strip_frontmatter(raw@),
{
    Vault::strip_frontmatter(raw)
}

/// Appends the line of the field `key` to `out`, if the field is set.
fn push_field_line(out: &mut String, fields: &Vec<(String, String)>, key: &Vec<char>)
    ensures
        final(out)@ == old(out)@ + field_line(fields.deep_view(), key@),
{
    let name = string_from(key, 0, key.len());
    assert(key@.subrange(0, key.len() as int) =~= key@);
    match get_field(fields, &name) {
        Some(v) => {
            out.append(name.as_str());
            string_push(out, ':');
            string_push(out, ' ');
            out.append(v.as_str());
            string_push(out, '\n');
            assert(out@ =~= old(out)@ + (key@ + seq![':', ' '] + v@ + seq!['\n']));
        },
        None => {
            assert(out@ =~= old(out)@ + Seq::<char>::empty());
        },
    }
}

/// Rebuilds the text of a note from its fields and its body.
pub fn rebuild_file(fields: &Vec<(String, String)>, body: &str) -> (text: String)
    ensures
        text@ == rebuilt(fields.deep_view(), body@),
{
    let mut out = String::new();
    string_push(&mut out, '-');
    string_push(&mut out, '-');
    string_push(&mut out, '-');
    string_push(&mut out, '\n');
    assert(out@ =~= seq!['-', '-', '-', '\n']);
    let id = vec!['i', 'd'];
    let title = vec!['t', 'i', 't', 'l', 'e'];
    let created = vec!['c', 'r', 'e', 'a', 't', 'e', 'd'];
    let modified = vec!['m', 'o', 'd', 'i', 'f', 'i', 'e', 'd'];
    assert(id@ =~= key_id());
    assert(title@ =~= key_title());
    assert(created@ =~= key_created());
    assert(modified@ =~= key_modified());
    push_field_line(&mut out, fields, &id);
    push_field_line(&mut out, fields, &title);
    push_field_line(&mut out, fields, &created);
    push_field_line(&mut out, fields, &modified);
    let ghost head = out@;
    string_push(&mut out, '-');
    string_push(&mut out, '-');
    string_push(&mut out, '-');
    string_push(&mut out, '\n');
    out.append(body);
    assert(out@ =~= head + seq!['-', '-', '-', '\n'] + body@);
    out
}

/// The key of the id, as a string.
fn name_id() -> (r: String)
    ensures
        r@ == key_id(),
{
    let v = vec!['i', 'd'];
    assert(v@.subrange(0, 2) =~= key_id());
    string_from(&v, 0, 2)
}

/// The key of the title, as a string.
fn name_title() -> (r: String)
    ensures
        r@ == key_title(),
{
    let v = vec!['t', 'i', 't', 'l', 'e'];
    assert(v@.subrange(0, 5) =~= key_title());
    string_from(&v, 0, 5)
}

/// The key of the creation time, as a string.
fn name_created() -> (r: String)
    ensures
        r@ == key_created(),
{
    let v = vec!['c', 'r', 'e', 'a', 't', 'e', 'd'];
    assert(v@.subrange(0, 7) =~= key_created());
    string_from(&v, 0, 7)
}

/// The key of the modification time, as a string.
fn name_modified() -> (r: String)
    ensures
        r@ == key_modified(),
{
    let v = vec!['m', 'o', 'd', 'i', 'f', 'i', 'e', 'd'];
    assert(v@.subrange(0, 8) =~= key_modified());
    string_from(&v, 0, 8)
}

/// The number that the field `key` holds.
fn number_field(fields: &Vec<(String, String)>, key: &String) -> (r: Option<Option<i64>>)
    ensures
        r == match field_value(fields.deep_view(), key@) {
            Some(v) => Some(parsed_i64(v)),
            None => None,
        },
{
    match get_field(fields, key) {
        Some(v) => Some(parse_i64(v.as_str())),
        None => None,
    }
}

/// Builds a note from the fields of its front matter; `file_path` is where
/// the note was read.
pub fn note_from_fields(fields: &Vec<(String, String)>, file_path: &str) -> (r: Result<
    Note,
    NoteError,
>)
    ensures
        match r {
            Ok(n) => note_from(fields.deep_view(), file_path@) == Ok::<NoteView, NoteError>(n@),
            Err(e) => note_from(fields.deep_view(), file_path@) == Err::<NoteView, NoteError>(e),
        },
{
    let id = get_field(fields, &name_id());
    let title = get_field(fields, &name_title());
    let created = number_field(fields, &name_created());
    let modified = number_field(fields, &name_modified());
    match (id, title, created, modified) {
        (None, _, _, _) => Err(NoteError::MissingId),
        (Some(_), None, _, _) => Err(NoteError::MissingTitle),
        (Some(_), Some(_), None, _) => Err(NoteError::MissingCreated),
        (Some(_), Some(_), Some(None), _) => Err(NoteError::InvalidCreated),
        (Some(_), Some(_), Some(Some(_)), None) => Err(NoteError::MissingModified),
        (Some(_), Some(_), Some(Some(_)), Some(None)) => Err(NoteError::InvalidModified),
        (Some(id), Some(title), Some(Some(created_at)), Some(Some(modified_at))) => Ok(
            Note { id, title, file_path: String::from_str(file_path), created_at, modified_at },
        ),
    }
}

/// Reads a note from its text; `file_path` is where the text was read.
pub fn parse_note(raw: &str, file_path: &str) -> (r: Result<Note, NoteError>)
    ensures
        match r {
            Ok(n) => note_of(raw@, file_path@) == Ok::<NoteView, NoteError>(n@),
            Err(e) => note_of(raw@, file_path@) == Err::<NoteView, NoteError>(e),
        },
{
    match parse_frontmatter_raw(raw) {
        Ok(p) => note_from_fields(&p.0, file_path),
        Err(e) => Err(e),
    }
}

/// The ranking of notes by their modification time, the latest first.
pub open spec fn modified_later() -> spec_fn(NoteView, NoteView) -> bool {
    |a: NoteView, b: NoteView| a.modified_at > b.modified_at
}

/// The notes that the first `n` of `files` give, in their order; a file is
/// a path with the text read from it, and a text that gives no note is
/// passed over.
pub open spec fn notes_upto(files: Seq<Pair>, n: int) -> Seq<NoteView>
    decreases n,
{
    if n <= 0 {
        Seq::empty()
    } else {
        match note_of(files[n - 1].1, files[n - 1].0) {
            Ok(note) => notes_upto(files, n - 1).push(note),
            Err(_) => notes_upto(files, n - 1),
        }
    }
}

/// The notes of `rows`, the most recently modified first.
fn sort_by_modified(rows: &Vec<Note>) -> (out: Vec<Note>)
    ensures
        out.deep_view() == stable_sort(rows.deep_view(), modified_later()),
{
    let mut out: Vec<Note> = Vec::new();
    let mut i: usize = 0;
    let ghost all = rows.deep_view();
    proof {
        assert(all.take(0) =~= Seq::<NoteView>::empty());
        assert(out.deep_view() =~= Seq::<NoteView>::empty());
    }
    while i < rows.len()
        invariant
            i <= rows.len(),
            all == rows.deep_view(),
            out.deep_view() == stable_sort(all.take(i as int), modified_later()),
        decreases rows.len() - i,
    {
        let x = rows[i].clone();
        let ghost sorted = out.deep_view();
        let mut p: usize = 0;
        assert(sorted.skip(0) =~= sorted);
        while p < out.len() && !(x.modified_at > out[p].modified_at)
            invariant
                p <= out.len(),
                sorted == out.deep_view(),
                first_outranked(sorted, x@, modified_later()) == p + first_outranked(
                    sorted.skip(p as int),
                    x@,
                    modified_later(),
                ),
            decreases out.len() - p,
        {
            assert(sorted.skip(p as int).drop_first() =~= sorted.skip(p as int + 1));
            assert(sorted.skip(p as int)[0] == sorted[p as int]);
            p += 1;
        }
        proof {
            if p < out.len() {
                assert(sorted.skip(p as int)[0] == sorted[p as int]);
            }
        }
        out.insert(p, x);
        proof {
            assert(out.deep_view() =~= sorted.insert(p as int, all[i as int]));
            assert(all.take(i as int + 1).drop_last() =~= all.take(i as int));
            assert(all.take(i as int + 1).last() == all[i as int]);
        }
        i += 1;
    }
    assert(all.take(i as int) =~= all);
    out
}

/// Reads all notes from the texts of the files of the notes directory,
/// each given with its path: the notes that the texts give, the most
/// recently modified first. A text that gives no note is passed over.
pub fn get_all_notes(files: &Vec<(String, String)>) -> (notes: Vec<Note>)
    ensures
        notes.deep_view() == stable_sort(
            notes_upto(files.deep_view(), files.len() as int),
            modified_later(),
        ),
{
    let mut found: Vec<Note> = Vec::new();
    let mut i: usize = 0;
    assert(found.deep_view() =~= Seq::<NoteView>::empty());
    while i < files.len()
        invariant
            i <= files.len(),
            found.deep_view() == notes_upto(files.deep_view(), i as int),
        decreases files.len() - i,
    {
        let ghost so_far = found.deep_view();
        assert(files.deep_view()[i as int] == (files[i as int].0@, files[i as int].1@));
        match parse_note(files[i].1.as_str(), files[i].0.as_str()) {
            Ok(note) => {
                let ghost nv = note@;
                found.push(note);
                assert(found.deep_view() =~= so_far.push(nv));
            },
            Err(_) => {},
        }
        i += 1;
    }
    sort_by_modified(&found)
}

/// The fields of a new note: its id, its title, and `now` as both times.
pub open spec fn new_fields(id: Seq<char>, title: Seq<char>, now: Seq<char>) -> Seq<Pair> {
    seq![(key_id(), id), (key_title(), title), (key_created(), now), (key_modified(), now)]
}

/// The text of a new note without a body; `now` is the time in decimal
/// notation.
pub fn new_note_text(id: &str, title: &str, now: &str) -> (text: String)
    ensures
        text@ == rebuilt(new_fields(id@, title@, now@), Seq::empty()),
{
    let mut fields: Vec<(String, String)> = Vec::new();
    fields.push((name_id(), String::from_str(id)));
    fields.push((name_title(), String::from_str(title)));
    fields.push((name_created(), String::from_str(now)));
    fields.push((name_modified(), String::from_str(now)));
    assert(fields.deep_view() =~= new_fields(id@, title@, now@));
    let empty = String::new();
    rebuild_file(&fields, empty.as_str())
}

/// The text of a note after it was saved with a new body: the fields of
/// `raw` with the modification time set to `now`, and `content` as body.
pub fn save_note_text(raw: &str, content: &str, now: &str) -> (r: Result<String, NoteError>)
    ensures
        match r {
            Ok(text) => parsed_frontmatter(raw@) is Ok && text@ == rebuilt(
                with_field(parsed_frontmatter(raw@)->Ok_0.0, key_modified(), now@),
                content@,
            ),
            Err(e) => parsed_frontmatter(raw@) == Err::<(Seq<Pair>, Seq<char>), NoteError>(e),
        },
{
    match parse_frontmatter_raw(raw) {
        Ok(p) => {
            let mut fields = p.0;
            set_field(&mut fields, &name_modified(), &String::from_str(now));
            Ok(rebuild_file(&fields, content))
        },
        Err(e) => Err(e),
    }
}

/// The text of a note after it was renamed: the fields of `raw` with the
/// title set to `new_title` and the modification time to `now`, and the body
/// of `raw`.
pub fn rename_note_text(raw: &str, new_title: &str, now: &str) -> (r: Result<String, NoteError>)
    ensures
        match r {
            Ok(text) => parsed_frontmatter(raw@) is Ok && text@ == rebuilt(
                with_field(
                    with_field(parsed_frontmatter(raw@)->Ok_0.0, key_title(), new_title@),
                    key_modified(),
                    now@,
                ),
                parsed_frontmatter(raw@)->Ok_0.1,
            ),
            Err(e) => parsed_frontmatter(raw@) == Err::<(Seq<Pair>, Seq<char>), NoteError>(e),
        },
{
    match parse_frontmatter_raw(raw) {
        Ok(p) => {
            let mut fields = p.0;
            set_field(&mut fields, &name_title(), &String::from_str(new_title));
            set_field(&mut fields, &name_modified(), &String::from_str(now));
            Ok(rebuild_file(&fields, p.1.as_str()))
        },
        Err(e) => Err(e),
    }
}

} // verus!
