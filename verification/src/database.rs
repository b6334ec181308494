//! The cache that mirrors the vault: notes, links, tags, headings and
//! settings as tables, the operations that keep them consistent, and the
//! projections read from them.

use crate::indexer::{Heading, HeadingView};
use crate::sorting::{
    first_outranked, is_strict_order, lemma_lex_less_irreflexive, lemma_lex_less_transitive,
    lex_less, stable_sort, text_less,
};
use crate::text::{distinct, to_chars};
use vstd::prelude::*;
use vstd::string::StringExecFns;

verus! {

/// The metadata of a note as the cache stores it.
#[derive(Debug, PartialEq, Eq)]
pub struct CachedNote {
    pub path: String,
    pub title: String,
    pub created_at: Option<String>,
    pub modified_at: Option<String>,
    pub word_count: i64,
    pub starred: bool,
}

/// The mathematical value of a [`CachedNote`].
pub struct CachedNoteView {
    pub path: Seq<char>,
    pub title: Seq<char>,
    pub created_at: Option<Seq<char>>,
    pub modified_at: Option<Seq<char>>,
    pub word_count: i64,
    pub starred: bool,
}

impl View for CachedNote {
    type V = CachedNoteView;

    open spec fn view(&self) -> CachedNoteView {
        CachedNoteView {
            path: self.path@,
            title: self.title@,
            created_at: self.created_at.deep_view(),
            modified_at: self.modified_at.deep_view(),
            word_count: self.word_count,
            starred: self.starred,
        }
    }
}

impl DeepView for CachedNote {
    type V = CachedNoteView;

    open spec fn deep_view(&self) -> CachedNoteView {
        self@
    }
}

/// A copy of an optional text.
pub fn copy_text(t: &Option<String>) -> (r: Option<String>)
    ensures
        r.deep_view() == t.deep_view(),
{
    match t {
        Some(s) => Some(s.clone()),
        None => None,
    }
}

impl Clone for CachedNote {
    fn clone(&self) -> (r: Self)
        ensures
            r@ == self@,
    {
        CachedNote {
            path: self.path.clone(),
            title: self.title.clone(),
            created_at: copy_text(&self.created_at),
            modified_at: copy_text(&self.modified_at),
            word_count: self.word_count,
            starred: self.starred,
        }
    }
}

/// Why an operation on the cache did nothing.
#[derive(Debug, Clone, Copy, PartialEq, Eq, Structural)]
pub enum IndexError {
    /// The cache holds no note with the given path.
    NotFound,
    /// The file of the note could not be read.
    IoError,
}

/// A row of two texts: a link with its source and target, a tag with its
/// note and name, a setting with its key and value.
pub type Pair = (Seq<char>, Seq<char>);

/// The row that an upsert leaves where the cache already held `old`: title,
/// modification time and word count are taken over, the star and the
/// creation time stay.
pub open spec fn merged(old: CachedNoteView, new: CachedNoteView) -> CachedNoteView {
    CachedNoteView {
        path: old.path,
        title: new.title,
        created_at: old.created_at,
        modified_at: new.modified_at,
        word_count: new.word_count,
        starred: old.starred,
    }
}

/// `row` with its star switched.
pub open spec fn toggled(row: CachedNoteView) -> CachedNoteView {
    CachedNoteView {
        path: row.path,
        title: row.title,
        created_at: row.created_at,
        modified_at: row.modified_at,
        word_count: row.word_count,
        starred: !row.starred,
    }
}

/// Whether one of `rows` has the given path.
pub open spec fn holds_path(rows: Seq<CachedNoteView>, path: Seq<char>) -> bool {
    exists|i: int| 0 <= i < rows.len() && #[trigger] rows[i].path == path
}

/// Whether no two of `rows` have the same path.
pub open spec fn unique_paths(rows: Seq<CachedNoteView>) -> bool {
    forall|i: int, j: int|
        0 <= i < j < rows.len() ==> (#[trigger] rows[i]).path != (#[trigger] rows[j]).path
}

/// Whether no two of `rows` have the same first member.
pub open spec fn unique_keys(rows: Seq<Pair>) -> bool {
    forall|i: int, j: int| 0 <= i < j < rows.len() ==> (#[trigger] rows[i]).0 != (#[trigger] rows[j]).0
}

/// A row of the headings table: a heading with the path of its note.
pub type HeadingRow = (Seq<char>, HeadingView);

/// The condition that a note has another path than `path`.
pub open spec fn is_other_note(path: Seq<char>) -> spec_fn(CachedNoteView) -> bool {
    |r: CachedNoteView| r.path != path
}

/// The condition that the first member of a row is not `key`.
pub open spec fn has_other_key(key: Seq<char>) -> spec_fn(Pair) -> bool {
    |r: Pair| r.0 != key
}

/// The condition that the first member of a row is `key`.
pub open spec fn has_key(key: Seq<char>) -> spec_fn(Pair) -> bool {
    |r: Pair| r.0 == key
}

/// The condition that the second member of a row is `value`.
pub open spec fn has_value(value: Seq<char>) -> spec_fn(Pair) -> bool {
    |r: Pair| r.1 == value
}

/// The condition that a heading belongs to another note than `path`.
pub open spec fn is_other_heading(path: Seq<char>) -> spec_fn(HeadingRow) -> bool {
    |r: HeadingRow| r.0 != path
}

/// The condition that a heading belongs to the note `path`.
pub open spec fn is_heading_of(path: Seq<char>) -> spec_fn(HeadingRow) -> bool {
    |r: HeadingRow| r.0 == path
}

/// The condition that the path of a note is among `keep`.
pub open spec fn is_listed_note(keep: Seq<Seq<char>>) -> spec_fn(CachedNoteView) -> bool {
    |r: CachedNoteView| keep.contains(r.path)
}

/// The condition that the first member of a row is among `keep`.
pub open spec fn has_listed_key(keep: Seq<Seq<char>>) -> spec_fn(Pair) -> bool {
    |r: Pair| keep.contains(r.0)
}

/// The condition that a heading belongs to a note among `keep`.
pub open spec fn is_listed_heading(keep: Seq<Seq<char>>) -> spec_fn(HeadingRow) -> bool {
    |r: HeadingRow| keep.contains(r.0)
}

/// The notes other than the note `path`.
pub open spec fn notes_without(rows: Seq<CachedNoteView>, path: Seq<char>) -> Seq<CachedNoteView> {
    rows.filter(is_other_note(path))
}

/// The rows that do not belong to the note `path`.
pub open spec fn pairs_without(rows: Seq<Pair>, path: Seq<char>) -> Seq<Pair> {
    rows.filter(has_other_key(path))
}

/// The second members of the rows that belong to `key`, in order.
pub open spec fn values_of(rows: Seq<Pair>, key: Seq<char>) -> Seq<Seq<char>> {
    rows.filter(has_key(key)).map_values(|r: Pair| r.1)
}

/// The first members of the rows whose second member is `value`, in order.
pub open spec fn keys_of(rows: Seq<Pair>, value: Seq<char>) -> Seq<Seq<char>> {
    rows.filter(has_value(value)).map_values(|r: Pair| r.0)
}

/// `values`, each paired with `key`.
pub open spec fn paired(key: Seq<char>, values: Seq<Seq<char>>) -> Seq<Pair> {
    values.map_values(|v: Seq<char>| (key, v))
}

/// The headings that do not belong to the note `path`.
pub open spec fn headings_without(rows: Seq<HeadingRow>, path: Seq<char>) -> Seq<HeadingRow> {
    rows.filter(is_other_heading(path))
}

/// The headings that belong to the note `path`, in the order of the table.
pub open spec fn headings_of_note(rows: Seq<HeadingRow>, path: Seq<char>) -> Seq<HeadingView> {
    rows.filter(is_heading_of(path)).map_values(|r: HeadingRow| r.1)
}

/// Whether the modification time `a` is later than `b`. Times are compared
/// as texts; a note that has one is later than a note that has none.
pub open spec fn later(a: Option<Seq<char>>, b: Option<Seq<char>>) -> bool {
    match (a, b) {
        (Some(x), Some(y)) => lex_less(y, x),
        (Some(_), None) => true,
        (None, _) => false,
    }
}

/// The ranking of notes by recency.
pub open spec fn more_recent() -> spec_fn(CachedNoteView, CachedNoteView) -> bool {
    |a: CachedNoteView, b: CachedNoteView| later(a.modified_at, b.modified_at)
}

/// The ranking of headings by line.
pub open spec fn higher_up() -> spec_fn(HeadingView, HeadingView) -> bool {
    |a: HeadingView, b: HeadingView| a.line < b.line
}

/// A tag with the number of notes that carry it.
pub type TagCount = (Seq<char>, usize);

/// The ranking of tags by use.
pub open spec fn more_used() -> spec_fn(TagCount, TagCount) -> bool {
    |a: TagCount, b: TagCount| a.1 > b.1
}

/// The tags of a table, each once, in the order of first occurrence.
pub open spec fn tag_names(rows: Seq<Pair>) -> Seq<Seq<char>> {
    distinct(rows.map_values(|r: Pair| r.1))
}

/// The number of rows with the given tag.
pub open spec fn tag_count(rows: Seq<Pair>, tag: Seq<char>) -> nat {
    rows.filter(has_value(tag)).len()
}

/// The tags of a table with their counts, in the order of first
/// occurrence.
pub open spec fn counted_tags(rows: Seq<Pair>) -> Seq<TagCount> {
    tag_names(rows).map_values(|t: Seq<char>| (t, tag_count(rows, t) as usize))
}

/// Recency is a strict order.
pub proof fn lemma_more_recent_is_strict_order()
    ensures
        is_strict_order(more_recent()),
{
    let r = more_recent();
    assert forall|a: CachedNoteView| !#[trigger] r(a, a) by {
        if a.modified_at is Some {
            lemma_lex_less_irreflexive(a.modified_at->0);
        }
    }
    assert forall|a: CachedNoteView, b: CachedNoteView, c: CachedNoteView| #[trigger]
        r(a, b) && #[trigger] r(b, c) implies r(a, c) by {
        if c.modified_at is Some {
            lemma_lex_less_transitive(c.modified_at->0, b.modified_at->0, a.modified_at->0);
        }
    }
}

/// The mathematical value of a [`Database`]: its five tables, each in the
/// order in which its rows arrived.
pub struct DatabaseView {
    pub notes: Seq<CachedNoteView>,
    /// Links as pairs of source path and target name.
    pub links: Seq<Pair>,
    /// Tags as pairs of note path and tag.
    pub tags: Seq<Pair>,
    /// Headings with the path of their note.
    pub headings: Seq<HeadingRow>,
    /// Settings as pairs of key and value.
    pub settings: Seq<Pair>,
}

impl DatabaseView {
    /// Whether the cache holds a note with the given path.
    pub open spec fn has_note(self, path: Seq<char>) -> bool {
        holds_path(self.notes, path)
    }

    /// The consistency of the cache: no two notes share a path, no link and
    /// no tag stands twice, no two settings share a key, and every link, tag
    /// and heading belongs to a note that the cache holds.
    pub open spec fn wf(self) -> bool {
        &&& unique_paths(self.notes)
        &&& self.links.no_duplicates()
        &&& self.tags.no_duplicates()
        &&& unique_keys(self.settings)
        &&& forall|i: int| 0 <= i < self.links.len() ==> self.has_note((#[trigger] self.links[i]).0)
        &&& forall|i: int| 0 <= i < self.tags.len() ==> self.has_note((#[trigger] self.tags[i]).0)
        &&& forall|i: int|
            0 <= i < self.headings.len() ==> self.has_note((#[trigger] self.headings[i]).0)
    }

    /// The cache without any row.
    pub open spec fn empty() -> DatabaseView {
        DatabaseView {
            notes: Seq::empty(),
            links: Seq::empty(),
            tags: Seq::empty(),
            headings: Seq::empty(),
            settings: Seq::empty(),
        }
    }

    /// The note with the given path, if the cache holds one.
    pub open spec fn note(self, path: Seq<char>) -> Option<CachedNoteView> {
        if self.has_note(path) {
            Some(self.notes[choose|i: int| 0 <= i < self.notes.len() && self.notes[i].path == path])
        } else {
            None
        }
    }

    /// The cache after `note` was written: a note with a new path is added
    /// as it is; for a path that the cache holds, title, modification time
    /// and word count are replaced, the star and the creation time stay.
    pub open spec fn upsert_note(self, note: CachedNoteView) -> DatabaseView {
        DatabaseView {
            notes: if self.has_note(note.path) {
                self.notes.map_values(
                    |r: CachedNoteView|
                        if r.path == note.path {
                            merged(r, note)
                        } else {
                            r
                        },
                )
            } else {
                self.notes.push(note)
            },
            ..self
        }
    }

    /// The cache after the star of the note `path` was switched.
    pub open spec fn toggle_star(self, path: Seq<char>) -> DatabaseView {
        DatabaseView {
            notes: self.notes.map_values(
                |r: CachedNoteView|
                    if r.path == path {
                        toggled(r)
                    } else {
                        r
                    },
            ),
            ..self
        }
    }

    /// The cache without the note `path` and without the links, tags and
    /// headings that belong to it.
    pub open spec fn delete_note(self, path: Seq<char>) -> DatabaseView {
        DatabaseView {
            notes: notes_without(self.notes, path),
            links: pairs_without(self.links, path),
            tags: pairs_without(self.tags, path),
            headings: headings_without(self.headings, path),
            settings: self.settings,
        }
    }

    /// The cache without the notes whose path is not among `keep`, and
    /// without their links, tags and headings.
    pub open spec fn retain_notes(self, keep: Seq<Seq<char>>) -> DatabaseView {
        DatabaseView {
            notes: self.notes.filter(is_listed_note(keep)),
            links: self.links.filter(has_listed_key(keep)),
            tags: self.tags.filter(has_listed_key(keep)),
            headings: self.headings.filter(is_listed_heading(keep)),
            settings: self.settings,
        }
    }

    /// The cache after the links of the note `path` were replaced by
    /// `targets`: each target once, in the order of first occurrence.
    pub open spec fn replace_links(self, path: Seq<char>, targets: Seq<Seq<char>>) -> DatabaseView {
        DatabaseView {
            links: pairs_without(self.links, path) + paired(path, distinct(targets)),
            ..self
        }
    }

    /// The cache after the tags of the note `path` were replaced by `tags`:
    /// each tag once, in the order of first occurrence.
    pub open spec fn replace_tags(self, path: Seq<char>, tags: Seq<Seq<char>>) -> DatabaseView {
        DatabaseView { tags: pairs_without(self.tags, path) + paired(path, distinct(tags)), ..self }
    }

    /// The cache after the headings of the note `path` were replaced.
    pub open spec fn replace_headings(
        self,
        path: Seq<char>,
        headings: Seq<HeadingView>,
    ) -> DatabaseView {
        DatabaseView {
            headings: headings_without(self.headings, path) + headings.map_values(
                |h: HeadingView| (path, h),
            ),
            ..self
        }
    }

    /// The cache after `key` was set to `value`.
    pub open spec fn set_setting(self, key: Seq<char>, value: Seq<char>) -> DatabaseView {
        DatabaseView {
            settings: if exists|i: int|
                0 <= i < self.settings.len() && (#[trigger] self.settings[i]).0 == key {
                self.settings.map_values(
                    |r: Pair|
                        if r.0 == key {
                            (key, value)
                        } else {
                            r
                        },
                )
            } else {
                self.settings.push((key, value))
            },
            ..self
        }
    }

    /// The notes of the cache, the most recently modified first; notes of
    /// the same modification time in the order in which they arrived.
    pub open spec fn all_notes(self) -> Seq<CachedNoteView> {
        stable_sort(self.notes, more_recent())
    }

    /// The paths of the notes that link to `title`, each once.
    pub open spec fn backlinks(self, title: Seq<char>) -> Seq<Seq<char>> {
        distinct(keys_of(self.links, title))
    }

    /// The headings of the note `path` in the order of their lines.
    pub open spec fn headings_of(self, path: Seq<char>) -> Seq<HeadingView> {
        stable_sort(headings_of_note(self.headings, path), higher_up())
    }

    /// The targets of the links of the note `path`.
    pub open spec fn outgoing_links(self, path: Seq<char>) -> Seq<Seq<char>> {
        values_of(self.links, path)
    }

    /// The tags of the cache with the number of notes that carry each,
    /// the most used first; tags of the same count in the order in which
    /// they first arrived.
    pub open spec fn tags_with_counts(self) -> Seq<TagCount> {
        stable_sort(counted_tags(self.tags), more_used())
    }

    /// The paths of the notes that carry `tag`.
    pub open spec fn notes_by_tag(self, tag: Seq<char>) -> Seq<Seq<char>> {
        keys_of(self.tags, tag)
    }
}

/// The cache of a vault.
pub struct Database {
    notes: Vec<CachedNote>,
    links: Vec<(String, String)>,
    tags: Vec<(String, String)>,
    headings: Vec<(String, Heading)>,
    settings: Vec<(String, String)>,
}

impl View for Database {
    type V = DatabaseView;

    closed spec fn view(&self) -> DatabaseView {
        DatabaseView {
            notes: self.notes.deep_view(),
            links: self.links.deep_view(),
            tags: self.tags.deep_view(),
            headings: self.headings.deep_view(),
            settings: self.settings.deep_view(),
        }
    }
}

/// The rows of the five tables, as they are stored outside the cache.
#[derive(Debug)]
pub struct CacheRows {
    pub notes: Vec<CachedNote>,
    /// Links as pairs of source path and target name.
    pub links: Vec<(String, String)>,
    /// Tags as pairs of note path and tag.
    pub tags: Vec<(String, String)>,
    /// Headings with the path of their note.
    pub headings: Vec<(String, Heading)>,
    /// Settings as pairs of key and value.
    pub settings: Vec<(String, String)>,
}

impl View for CacheRows {
    type V = DatabaseView;

    open spec fn view(&self) -> DatabaseView {
        DatabaseView {
            notes: self.notes.deep_view(),
            links: self.links.deep_view(),
            tags: self.tags.deep_view(),
            headings: self.headings.deep_view(),
            settings: self.settings.deep_view(),
        }
    }
}

/// The position of the row with the given path, if there is one.
fn find_note(rows: &Vec<CachedNote>, path: &String) -> (r: Option<usize>)
    ensures
        match r {
            Some(i) => i < rows.len() && rows.deep_view()[i as int].path == path@,
            None => !holds_path(rows.deep_view(), path@),
        },
{
    let mut i: usize = 0;
    while i < rows.len()
        invariant
            i <= rows.len(),
            forall|j: int| 0 <= j < i ==> (#[trigger] rows.deep_view()[j]).path != path@,
        decreases rows.len() - i,
    {
        if rows[i].path == *path {
            return Some(i);
        }
        i += 1;
    }
    None
}

impl Database {
    /// Whether the cache is consistent.
    pub open spec fn wf(&self) -> bool {
        self@.wf()
    }

    /// A cache without any row.
    pub fn new() -> (db: Database)
        ensures
            db.wf(),
            db@ == DatabaseView::empty(),
    {
        let db = Database {
            notes: Vec::new(),
            links: Vec::new(),
            tags: Vec::new(),
            headings: Vec::new(),
            settings: Vec::new(),
        };
        assert(db.notes.deep_view() =~= Seq::<CachedNoteView>::empty());
        assert(db.links.deep_view() =~= Seq::<Pair>::empty());
        assert(db.tags.deep_view() =~= Seq::<Pair>::empty());
        assert(db.headings.deep_view() =~= Seq::<HeadingRow>::empty());
        assert(db.settings.deep_view() =~= Seq::<Pair>::empty());
        db
    }

    /// A cache with the given rows, if they are consistent; none where two
    /// notes share a path, a link or a tag stands twice, two settings share a
    /// key, or a link, a tag or a heading belongs to no note.
    pub fn from_rows(rows: CacheRows) -> (r: Option<Database>)
        ensures
            match r {
                Some(db) => rows@.wf() && db.wf() && db@ == rows@,
                None => !rows@.wf(),
            },
    {
        let ghost v = rows@;
        let a = paths_are_unique(&rows.notes);
        let b = has_no_repeats(&rows.links);
        let c = has_no_repeats(&rows.tags);
        let d = keys_are_unique(&rows.settings);
        let e = pairs_have_notes(&rows.links, &rows.notes);
        let f = pairs_have_notes(&rows.tags, &rows.notes);
        let g = headings_have_notes(&rows.headings, &rows.notes);
        proof {
            assert(a == unique_paths(v.notes));
            assert(b == v.links.no_duplicates());
            assert(c == v.tags.no_duplicates());
            assert(d == unique_keys(v.settings));
            assert(e == (forall|i: int|
                0 <= i < v.links.len() ==> v.has_note((#[trigger] v.links[i]).0)));
            assert(f == (forall|i: int| 0 <= i < v.tags.len() ==> v.has_note((#[trigger] v.tags[i]).0)));
            assert(v.headings == rows.headings.deep_view());
            assert(v.headings.len() == rows.headings.len());
            if g {
                assert forall|i: int| 0 <= i < v.headings.len() implies v.has_note(
                    (#[trigger] v.headings[i]).0,
                ) by {
                    assert(holds_path(rows.notes.deep_view(), rows.headings.deep_view()[i].0));
                }
            }
            assert(g == (forall|i: int|
                0 <= i < v.headings.len() ==> v.has_note((#[trigger] v.headings[i]).0)));
            assert((a && b && c && d && e && f && g) == v.wf());
        }
        if a && b && c && d && e && f && g {
            let db = Database {
                notes: rows.notes,
                links: rows.links,
                tags: rows.tags,
                headings: rows.headings,
                settings: rows.settings,
            };
            assert(db@ == v);
            Some(db)
        } else {
            None
        }
    }

    /// The rows of the cache, table by table in the order in which they
    /// arrived.
    pub fn rows(&self) -> (rows: CacheRows)
        ensures
            rows@ == self@,
    {
        let mut notes: Vec<CachedNote> = Vec::new();
        let mut i: usize = 0;
        assert(notes.deep_view() =~= self.notes.deep_view().take(0));
        while i < self.notes.len()
            invariant
                i <= self.notes.len(),
                notes.deep_view() == self.notes.deep_view().take(i as int),
            decreases self.notes.len() - i,
        {
            let ghost so_far = notes.deep_view();
            notes.push(self.notes[i].clone());
            assert(notes.deep_view() =~= so_far.push(self.notes.deep_view()[i as int]));
            i += 1;
            assert(notes.deep_view() =~= self.notes.deep_view().take(i as int));
        }
        assert(self.notes.deep_view().take(i as int) =~= self.notes.deep_view());
        let mut headings: Vec<(String, Heading)> = Vec::new();
        let mut k: usize = 0;
        assert(headings.deep_view() =~= self.headings.deep_view().take(0));
        while k < self.headings.len()
            invariant
                k <= self.headings.len(),
                headings.deep_view() == self.headings.deep_view().take(k as int),
            decreases self.headings.len() - k,
        {
            let ghost so_far = headings.deep_view();
            headings.push((self.headings[k].0.clone(), self.headings[k].1.clone()));
            assert(headings.deep_view() =~= so_far.push(self.headings.deep_view()[k as int]));
            k += 1;
            assert(headings.deep_view() =~= self.headings.deep_view().take(k as int));
        }
        assert(self.headings.deep_view().take(k as int) =~= self.headings.deep_view());
        CacheRows {
            notes,
            links: copy_pairs(&self.links),
            tags: copy_pairs(&self.tags),
            headings,
            settings: copy_pairs(&self.settings),
        }
    }

    /// Writes the metadata of a note into the cache.
    pub fn upsert_note(&mut self, note: &CachedNote)
        requires
            old(self).wf(),
        ensures
            final(self).wf(),
            final(self)@ == old(self)@.upsert_note(note@),
    {
        let ghost before = self@;
        match find_note(&self.notes, &note.path) {
            Some(i) => {
                let old_row = &self.notes[i];
                let row = CachedNote {
                    path: old_row.path.clone(),
                    title: note.title.clone(),
                    created_at: copy_text(&old_row.created_at),
                    modified_at: copy_text(&note.modified_at),
                    word_count: note.word_count,
                    starred: old_row.starred,
                };
                self.notes[i] = row;
                proof {
                    let f = |r: CachedNoteView|
                        if r.path == note@.path {
                            merged(r, note@)
                        } else {
                            r
                        };
                    assert(self.notes.deep_view() =~= before.notes.map_values(f));
                    lemma_same_paths(before, self@);
                }
            },
            None => {
                self.notes.push(note.clone());
                proof {
                    assert(self.notes.deep_view() =~= before.notes.push(note@));
                    lemma_new_path(before, self@, note@);
                }
            },
        }
    }

    /// Whether the cache holds a note with the given path.
    pub fn has_note(&self, path: &str) -> (r: bool)
        ensures
            r == self@.has_note(path@),
    {
        let key = String::from_str(path);
        find_note(&self.notes, &key).is_some()
    }

    /// Switches the star of a note and returns the new value; fails, and
    /// changes nothing, where the cache holds no note with this path.
    pub fn toggle_star(&mut self, path: &str) -> (r: Result<bool, IndexError>)
        requires
            old(self).wf(),
        ensures
            final(self).wf(),
            match r {
                Ok(starred) => {
                    &&& old(self)@.has_note(path@)
                    &&& final(self)@ == old(self)@.toggle_star(path@)
                    &&& final(self)@.note(path@) == Some(toggled(old(self)@.note(path@)->0))
                    &&& starred == !old(self)@.note(path@)->0.starred
                },
                Err(e) => {
                    &&& !old(self)@.has_note(path@)
                    &&& e == IndexError::NotFound
                    &&& final(self)@ == old(self)@
                },
            },
    {
        let ghost before = self@;
        let key = String::from_str(path);
        match find_note(&self.notes, &key) {
            Some(i) => {
                let mut row = self.notes[i].clone();
                let starred = !row.starred;
                row.starred = starred;
                self.notes[i] = row;
                proof {
                    let f = |r: CachedNoteView|
                        if r.path == path@ {
                            toggled(r)
                        } else {
                            r
                        };
                    assert(self.notes.deep_view() =~= before.notes.map_values(f));
                    lemma_same_paths(before, self@);
                    lemma_note_at(before, i as int);
                    lemma_note_at(self@, i as int);
                }
                Ok(starred)
            },
            None => Err(IndexError::NotFound),
        }
    }

    /// Removes a note together with its links, tags and headings.
    pub fn delete_note(&mut self, path: &str)
        requires
            old(self).wf(),
        ensures
            final(self).wf(),
            final(self)@ == old(self)@.delete_note(path@),
            !final(self)@.has_note(path@),
    {
        let ghost before = self@;
        let key = String::from_str(path);
        self.links = pairs_without_key(&self.links, &key);
        self.tags = pairs_without_key(&self.tags, &key);
        self.headings = headings_without_key(&self.headings, &key);
        self.notes = notes_without_path(&self.notes, &key);
        proof {
            lemma_delete_note_wf(before, path@);
        }
    }

    /// Removes every note whose path is not among `keep`, together with
    /// its links, tags and headings.
    pub fn retain_notes(&mut self, keep: &Vec<String>)
        requires
            old(self).wf(),
        ensures
            final(self).wf(),
            final(self)@ == old(self)@.retain_notes(keep.deep_view()),
    {
        let ghost before = self@;
        self.links = listed_pairs(&self.links, keep);
        self.tags = listed_pairs(&self.tags, keep);
        self.headings = listed_headings(&self.headings, keep);
        self.notes = listed_notes(&self.notes, keep);
        proof {
            lemma_retain_notes(before, keep.deep_view());
        }
    }

    /// Replaces all outgoing links of a note; a target named twice is
    /// stored once. Fails, and changes nothing, where the cache holds no
    /// note with this path.
    pub fn update_links(&mut self, source_path: &str, targets: &[String]) -> (r: Result<
        (),
        IndexError,
    >)
        requires
            old(self).wf(),
        ensures
            final(self).wf(),
            match r {
                Ok(_) => {
                    &&& old(self)@.has_note(source_path@)
                    &&& final(self)@ == old(self)@.replace_links(source_path@, targets.deep_view())
                },
                Err(e) => {
                    &&& !old(self)@.has_note(source_path@)
                    &&& e == IndexError::NotFound
                    &&& final(self)@ == old(self)@
                },
            },
    {
        let ghost before = self@;
        let key = String::from_str(source_path);
        if find_note(&self.notes, &key).is_none() {
            return Err(IndexError::NotFound);
        }
        let mut rows = pairs_without_key(&self.links, &key);
        proof {
            lemma_no_rows_of(before.links, source_path@);
        }
        append_paired(&mut rows, &key, targets);
        self.links = rows;
        proof {
            lemma_replaced_pairs(before.links, source_path@, targets.deep_view());
            lemma_rows_of_note(before, self@, source_path@);
        }
        Ok(())
    }

    /// Replaces all tags of a note; a tag named twice is stored once.
    /// Fails, and changes nothing, where the cache holds no note with this
    /// path.
    pub fn update_tags(&mut self, note_path: &str, tags: &[String]) -> (r: Result<(), IndexError>)
        requires
            old(self).wf(),
        ensures
            final(self).wf(),
            match r {
                Ok(_) => {
                    &&& old(self)@.has_note(note_path@)
                    &&& final(self)@ == old(self)@.replace_tags(note_path@, tags.deep_view())
                },
                Err(e) => {
                    &&& !old(self)@.has_note(note_path@)
                    &&& e == IndexError::NotFound
                    &&& final(self)@ == old(self)@
                },
            },
    {
        let ghost before = self@;
        let key = String::from_str(note_path);
        if find_note(&self.notes, &key).is_none() {
            return Err(IndexError::NotFound);
        }
        let mut rows = pairs_without_key(&self.tags, &key);
        proof {
            lemma_no_rows_of(before.tags, note_path@);
        }
        append_paired(&mut rows, &key, tags);
        self.tags = rows;
        proof {
            lemma_replaced_pairs(before.tags, note_path@, tags.deep_view());
            lemma_rows_of_note(before, self@, note_path@);
        }
        Ok(())
    }

    /// Replaces all headings of a note. Fails, and changes nothing, where
    /// the cache holds no note with this path.
    pub fn update_headings(&mut self, note_path: &str, headings: &[Heading]) -> (r: Result<
        (),
        IndexError,
    >)
        requires
            old(self).wf(),
        ensures
            final(self).wf(),
            match r {
                Ok(_) => {
                    &&& old(self)@.has_note(note_path@)
                    &&& final(self)@ == old(self)@.replace_headings(
                        note_path@,
                        headings.deep_view(),
                    )
                },
                Err(e) => {
                    &&& !old(self)@.has_note(note_path@)
                    &&& e == IndexError::NotFound
                    &&& final(self)@ == old(self)@
                },
            },
    {
        let ghost before = self@;
        let key = String::from_str(note_path);
        if find_note(&self.notes, &key).is_none() {
            return Err(IndexError::NotFound);
        }
        let mut rows = headings_without_key(&self.headings, &key);
        let ghost kept = rows.deep_view();
        let ghost wanted = headings.deep_view().map_values(|h: HeadingView| (note_path@, h));
        let mut i: usize = 0;
        assert(kept + wanted.take(0) =~= kept);
        while i < headings.len()
            invariant
                i <= headings.len(),
                key@ == note_path@,
                wanted == headings.deep_view().map_values(|h: HeadingView| (note_path@, h)),
                rows.deep_view() == kept + wanted.take(i as int),
            decreases headings.len() - i,
        {
            let ghost so_far = rows.deep_view();
            let h = headings[i].clone();
            rows.push((key.clone(), h));
            assert(rows.deep_view() =~= so_far.push((note_path@, headings[i as int]@)));
            assert(kept + wanted.take(i as int + 1) =~= (kept + wanted.take(i as int)).push(
                wanted[i as int],
            ));
            i += 1;
        }
        assert(wanted.take(i as int) =~= wanted);
        self.headings = rows;
        proof {
            assert forall|j: int| 0 <= j < self@.headings.len() implies self@.has_note(
                (#[trigger] self@.headings[j]).0,
            ) by {
                if j < kept.len() {
                    lemma_filter_members(before.headings, is_other_heading(note_path@));
                    assert(kept.contains(kept[j]));
                    assert(before.headings.contains(kept[j]));
                    let k = choose|k: int|
                        0 <= k < before.headings.len() && before.headings[k] == kept[j];
                    assert(before.has_note(before.headings[k].0));
                }
            }
        }
        Ok(())
    }

    /// All notes of the cache, the most recently modified first.
    pub fn get_all_notes(&self) -> (notes: Vec<CachedNote>)
        ensures
            notes.deep_view() == self@.all_notes(),
            notes.len() == self@.notes.len(),
    {
        proof {
            crate::sorting::lemma_stable_sort(self@.notes, more_recent());
        }
        sort_by_recency(&self.notes)
    }

    /// The paths of all notes that link to the given title, each once.
    /// Every one of them is a note of the cache.
    pub fn get_backlinks(&self, note_title: &str) -> (sources: Vec<String>)
        requires
            self.wf(),
        ensures
            sources.deep_view() == self@.backlinks(note_title@),
            forall|k: int|
                0 <= k < sources.len() ==> self@.has_note(#[trigger] sources.deep_view()[k]),
    {
        let wanted = String::from_str(note_title);
        let mut sources: Vec<String> = Vec::new();
        let mut i: usize = 0;
        let ghost rows = self.links.deep_view();
        proof {
            assert(rows.take(0) =~= Seq::<Pair>::empty());
            reveal(Seq::filter);
            assert(keys_of(rows.take(0), note_title@) =~= Seq::<Seq<char>>::empty());
            assert(sources.deep_view() =~= Seq::<Seq<char>>::empty());
        }
        while i < self.links.len()
            invariant
                i <= self.links.len(),
                wanted@ == note_title@,
                self.wf(),
                rows == self.links.deep_view(),
                sources.deep_view() == distinct(keys_of(rows.take(i as int), note_title@)),
            decreases self.links.len() - i,
        {
            proof {
                assert(rows.take(i as int + 1) =~= rows.take(i as int).push(rows[i as int]));
                lemma_keys_of_push(rows.take(i as int), rows[i as int], note_title@);
                crate::text::lemma_add_distinct_push(
                    Seq::empty(),
                    keys_of(rows.take(i as int), note_title@),
                    rows[i as int].0,
                );
            }
            if self.links[i].1 == wanted {
                crate::text::push_distinct(&mut sources, self.links[i].0.clone());
            }
            i += 1;
        }
        proof {
            assert(rows.take(i as int) =~= rows);
            lemma_backlinks_are_notes(self@, note_title@);
            assert(sources.deep_view() == self@.backlinks(note_title@));
            assert forall|k: int| 0 <= k < sources.len() implies self@.has_note(
                #[trigger] sources.deep_view()[k],
            ) by {
                assert(self@.has_note(self@.backlinks(note_title@)[k]));
            }
        }
        sources
    }

    /// The targets of all links of a note, in the order of the table.
    pub fn get_outgoing_links(&self, source_path: &str) -> (targets: Vec<String>)
        ensures
            targets.deep_view() == self@.outgoing_links(source_path@),
    {
        let wanted = String::from_str(source_path);
        let mut targets: Vec<String> = Vec::new();
        let mut i: usize = 0;
        let ghost rows = self.links.deep_view();
        proof {
            assert(rows.take(0) =~= Seq::<Pair>::empty());
            reveal(Seq::filter);
            assert(values_of(rows.take(0), source_path@) =~= Seq::<Seq<char>>::empty());
            assert(targets.deep_view() =~= Seq::<Seq<char>>::empty());
        }
        while i < self.links.len()
            invariant
                i <= self.links.len(),
                wanted@ == source_path@,
                rows == self.links.deep_view(),
                targets.deep_view() == values_of(rows.take(i as int), source_path@),
            decreases self.links.len() - i,
        {
            let ghost so_far = targets.deep_view();
            proof {
                assert(rows.take(i as int + 1) =~= rows.take(i as int).push(rows[i as int]));
                lemma_values_of_push(rows.take(i as int), rows[i as int], source_path@);
            }
            if self.links[i].0 == wanted {
                targets.push(self.links[i].1.clone());
                assert(targets.deep_view() =~= so_far.push(rows[i as int].1));
            }
            i += 1;
        }
        assert(rows.take(i as int) =~= rows);
        targets
    }

    /// All links of the vault as pairs of source path and target name.
    pub fn get_all_links(&self) -> (links: Vec<(String, String)>)
        ensures
            links.deep_view() == self@.links,
    {
        copy_pairs(&self.links)
    }

    /// All tags of the vault with the number of notes that carry each,
    /// the most used first.
    pub fn get_all_tags(&self) -> (counts: Vec<(String, usize)>)
        ensures
            counts.deep_view() == self@.tags_with_counts(),
    {
        let ghost rows = self.tags.deep_view();
        let ghost values = rows.map_values(|r: Pair| r.1);
        let mut names: Vec<String> = Vec::new();
        let mut i: usize = 0;
        proof {
            assert(values.take(0) =~= Seq::<Seq<char>>::empty());
            assert(names.deep_view() =~= Seq::<Seq<char>>::empty());
        }
        while i < self.tags.len()
            invariant
                i <= self.tags.len(),
                rows == self.tags.deep_view(),
                values == rows.map_values(|r: Pair| r.1),
                names.deep_view() == distinct(values.take(i as int)),
            decreases self.tags.len() - i,
        {
            proof {
                assert(values.take(i as int + 1) =~= values.take(i as int).push(rows[i as int].1));
                crate::text::lemma_add_distinct_push(
                    Seq::empty(),
                    values.take(i as int),
                    rows[i as int].1,
                );
            }
            crate::text::push_distinct(&mut names, self.tags[i].1.clone());
            i += 1;
        }
        assert(values.take(i as int) =~= values);
        let mut counted: Vec<(String, usize)> = Vec::new();
        let mut k: usize = 0;
        let ghost wanted = counted_tags(rows);
        assert(counted.deep_view() =~= wanted.take(0));
        while k < names.len()
            invariant
                k <= names.len(),
                rows == self.tags.deep_view(),
                names.deep_view() == tag_names(rows),
                wanted == counted_tags(rows),
                counted.deep_view() == wanted.take(k as int),
            decreases names.len() - k,
        {
            let ghost so_far = counted.deep_view();
            let n = count_value(&self.tags, &names[k]);
            counted.push((names[k].clone(), n));
            assert(counted.deep_view() =~= so_far.push((names.deep_view()[k as int], n)));
            assert(wanted.take(k as int + 1) =~= wanted.take(k as int).push(wanted[k as int]));
            k += 1;
        }
        assert(wanted.take(k as int) =~= wanted);
        sort_by_use(&counted)
    }

    /// The paths of all notes with the given tag, in the order of the table.
    pub fn get_notes_by_tag(&self, tag: &str) -> (paths: Vec<String>)
        ensures
            paths.deep_view() == self@.notes_by_tag(tag@),
    {
        let wanted = String::from_str(tag);
        let mut paths: Vec<String> = Vec::new();
        let mut i: usize = 0;
        let ghost rows = self.tags.deep_view();
        proof {
            assert(rows.take(0) =~= Seq::<Pair>::empty());
            reveal(Seq::filter);
            assert(keys_of(rows.take(0), tag@) =~= Seq::<Seq<char>>::empty());
            assert(paths.deep_view() =~= Seq::<Seq<char>>::empty());
        }
        while i < self.tags.len()
            invariant
                i <= self.tags.len(),
                wanted@ == tag@,
                rows == self.tags.deep_view(),
                paths.deep_view() == keys_of(rows.take(i as int), tag@),
            decreases self.tags.len() - i,
        {
            let ghost so_far = paths.deep_view();
            proof {
                assert(rows.take(i as int + 1) =~= rows.take(i as int).push(rows[i as int]));
                lemma_keys_of_push(rows.take(i as int), rows[i as int], tag@);
            }
            if self.tags[i].1 == wanted {
                paths.push(self.tags[i].0.clone());
                assert(paths.deep_view() =~= so_far.push(rows[i as int].0));
            }
            i += 1;
        }
        assert(rows.take(i as int) =~= rows);
        paths
    }

    /// The headings of a note in the order of their lines.
    pub fn get_headings(&self, note_path: &str) -> (headings: Vec<Heading>)
        ensures
            headings.deep_view() == self@.headings_of(note_path@),
    {
        let wanted = String::from_str(note_path);
        let mut found: Vec<Heading> = Vec::new();
        let mut i: usize = 0;
        let ghost rows = self.headings.deep_view();
        proof {
            assert(rows.take(0) =~= Seq::<HeadingRow>::empty());
            reveal(Seq::filter);
            assert(headings_of_note(rows.take(0), note_path@) =~= Seq::<HeadingView>::empty());
            assert(found.deep_view() =~= Seq::<HeadingView>::empty());
        }
        while i < self.headings.len()
            invariant
                i <= self.headings.len(),
                wanted@ == note_path@,
                rows == self.headings.deep_view(),
                found.deep_view() == headings_of_note(rows.take(i as int), note_path@),
            decreases self.headings.len() - i,
        {
            let ghost so_far = found.deep_view();
            proof {
                assert(rows.take(i as int + 1) =~= rows.take(i as int).push(rows[i as int]));
                rows.take(i as int).lemma_filter_push(rows[i as int], is_heading_of(note_path@));
            }
            if self.headings[i].0 == wanted {
                found.push(self.headings[i].1.clone());
                assert(found.deep_view() =~= so_far.push(rows[i as int].1));
                assert(headings_of_note(rows.take(i as int + 1), note_path@) =~= headings_of_note(
                    rows.take(i as int),
                    note_path@,
                ).push(rows[i as int].1));
            }
            i += 1;
        }
        assert(rows.take(i as int) =~= rows);
        sort_by_line(&found)
    }

    /// The value of a setting, if it was set.
    pub fn get_setting(&self, key: &str) -> (r: Option<String>)
        requires
            self.wf(),
        ensures
            match r {
                Some(v) => self@.settings.contains((key@, v@)),
                None => forall|i: int|
                    0 <= i < self@.settings.len() ==> (#[trigger] self@.settings[i]).0 != key@,
            },
    {
        let wanted = String::from_str(key);
        let mut i: usize = 0;
        while i < self.settings.len()
            invariant
                i <= self.settings.len(),
                wanted@ == key@,
                forall|j: int| 0 <= j < i ==> (#[trigger] self@.settings[j]).0 != key@,
            decreases self.settings.len() - i,
        {
            if self.settings[i].0 == wanted {
                let v = self.settings[i].1.clone();
                assert(self@.settings[i as int] == (key@, v@));
                return Some(v);
            }
            i += 1;
        }
        None
    }

    /// Sets a setting, in place of the value that it had.
    pub fn set_setting(&mut self, key: &str, value: &str)
        requires
            old(self).wf(),
        ensures
            final(self).wf(),
            final(self)@ == old(self)@.set_setting(key@, value@),
            final(self)@.settings.contains((key@, value@)),
    {
        let ghost before = self@;
        let wanted = String::from_str(key);
        let mut i: usize = 0;
        while i < self.settings.len()
            invariant
                i <= self.settings.len(),
                wanted@ == key@,
                self@ == before,
                before == old(self)@,
                before.wf(),
                forall|j: int| 0 <= j < i ==> (#[trigger] self@.settings[j]).0 != key@,
            decreases self.settings.len() - i,
        {
            if self.settings[i].0 == wanted {
                self.settings[i] = (wanted, String::from_str(value));
                proof {
                    let f = |r: Pair|
                        if r.0 == key@ {
                            (key@, value@)
                        } else {
                            r
                        };
                    assert(before.settings[i as int].0 == key@);
                    assert(self.settings.deep_view() =~= before.settings.map_values(f));
                    assert(self@.settings[i as int] == (key@, value@));
                    assert forall|a: int, b: int| 0 <= a < b < self@.settings.len() implies (
                    #[trigger] self@.settings[a]).0 != (#[trigger] self@.settings[b]).0 by {
                        assert(before.settings[a].0 != before.settings[b].0);
                    }
                    lemma_more_paths(before, self@);
                }
                return ;
            }
            i += 1;
        }
        self.settings.push((wanted, String::from_str(value)));
        proof {
            assert(self.settings.deep_view() =~= before.settings.push((key@, value@)));
            assert(self@.settings[before.settings.len() as int] == (key@, value@));
            assert forall|a: int, b: int| 0 <= a < b < self@.settings.len() implies (
            #[trigger] self@.settings[a]).0 != (#[trigger] self@.settings[b]).0 by {
                if b < before.settings.len() {
                    assert(before.settings[a].0 != before.settings[b].0);
                } else {
                    assert(before.settings[a].0 != key@);
                }
            }
            lemma_more_paths(before, self@);
        }
    }
}

/// The rows of `rows` that do not belong to `key`.
fn pairs_without_key(rows: &Vec<(String, String)>, key: &String) -> (out: Vec<(String, String)>)
    ensures
        out.deep_view() == pairs_without(rows.deep_view(), key@),
{
    let mut out: Vec<(String, String)> = Vec::new();
    let mut i: usize = 0;
    let ghost keep = has_other_key(key@);
    proof {
        reveal(Seq::filter);
        assert(rows.deep_view().take(0) =~= Seq::<Pair>::empty());
        assert(out.deep_view() =~= Seq::<Pair>::empty());
    }
    while i < rows.len()
        invariant
            i <= rows.len(),
            keep == has_other_key(key@),
            out.deep_view() == rows.deep_view().take(i as int).filter(keep),
        decreases rows.len() - i,
    {
        let ghost so_far = out.deep_view();
        proof {
            assert(rows.deep_view().take(i as int + 1) =~= rows.deep_view().take(i as int).push(
                rows.deep_view()[i as int],
            ));
            rows.deep_view().take(i as int).lemma_filter_push(rows.deep_view()[i as int], keep);
        }
        if rows[i].0 != *key {
            out.push((rows[i].0.clone(), rows[i].1.clone()));
            assert(out.deep_view() =~= so_far.push(rows.deep_view()[i as int]));
        }
        i += 1;
    }
    assert(rows.deep_view().take(i as int) =~= rows.deep_view());
    out
}

/// The headings of `rows` that do not belong to `key`.
fn headings_without_key(rows: &Vec<(String, Heading)>, key: &String) -> (out: Vec<
    (String, Heading),
>)
    ensures
        out.deep_view() == headings_without(rows.deep_view(), key@),
{
    let mut out: Vec<(String, Heading)> = Vec::new();
    let mut i: usize = 0;
    let ghost keep = is_other_heading(key@);
    proof {
        reveal(Seq::filter);
        assert(rows.deep_view().take(0) =~= Seq::<HeadingRow>::empty());
        assert(out.deep_view() =~= Seq::<HeadingRow>::empty());
    }
    while i < rows.len()
        invariant
            i <= rows.len(),
            keep == is_other_heading(key@),
            out.deep_view() == rows.deep_view().take(i as int).filter(keep),
        decreases rows.len() - i,
    {
        let ghost so_far = out.deep_view();
        proof {
            assert(rows.deep_view().take(i as int + 1) =~= rows.deep_view().take(i as int).push(
                rows.deep_view()[i as int],
            ));
            rows.deep_view().take(i as int).lemma_filter_push(rows.deep_view()[i as int], keep);
        }
        if rows[i].0 != *key {
            out.push((rows[i].0.clone(), rows[i].1.clone()));
            assert(out.deep_view() =~= so_far.push(rows.deep_view()[i as int]));
        }
        i += 1;
    }
    assert(rows.deep_view().take(i as int) =~= rows.deep_view());
    out
}

/// The notes of `rows` other than the note `path`.
fn notes_without_path(rows: &Vec<CachedNote>, path: &String) -> (out: Vec<CachedNote>)
    ensures
        out.deep_view() == notes_without(rows.deep_view(), path@),
{
    let mut out: Vec<CachedNote> = Vec::new();
    let mut i: usize = 0;
    let ghost keep = is_other_note(path@);
    proof {
        reveal(Seq::filter);
        assert(rows.deep_view().take(0) =~= Seq::<CachedNoteView>::empty());
        assert(out.deep_view() =~= Seq::<CachedNoteView>::empty());
    }
    while i < rows.len()
        invariant
            i <= rows.len(),
            keep == is_other_note(path@),
            out.deep_view() == rows.deep_view().take(i as int).filter(keep),
        decreases rows.len() - i,
    {
        let ghost so_far = out.deep_view();
        proof {
            assert(rows.deep_view().take(i as int + 1) =~= rows.deep_view().take(i as int).push(
                rows.deep_view()[i as int],
            ));
            rows.deep_view().take(i as int).lemma_filter_push(rows.deep_view()[i as int], keep);
        }
        if rows[i].path != *path {
            out.push(rows[i].clone());
            assert(out.deep_view() =~= so_far.push(rows.deep_view()[i as int]));
        }
        i += 1;
    }
    assert(rows.deep_view().take(i as int) =~= rows.deep_view());
    out
}

/// The rows of `rows` whose key is among `keep`.
fn listed_pairs(rows: &Vec<(String, String)>, keep: &Vec<String>) -> (out: Vec<(String, String)>)
    ensures
        out.deep_view() == rows.deep_view().filter(has_listed_key(keep.deep_view())),
{
    let mut out: Vec<(String, String)> = Vec::new();
    let mut i: usize = 0;
    let ghost pred = has_listed_key(keep.deep_view());
    proof {
        reveal(Seq::filter);
        assert(rows.deep_view().take(0) =~= Seq::<Pair>::empty());
        assert(out.deep_view() =~= Seq::<Pair>::empty());
    }
    while i < rows.len()
        invariant
            i <= rows.len(),
            pred == has_listed_key(keep.deep_view()),
            out.deep_view() == rows.deep_view().take(i as int).filter(pred),
        decreases rows.len() - i,
    {
        let ghost so_far = out.deep_view();
        proof {
            assert(rows.deep_view().take(i as int + 1) =~= rows.deep_view().take(i as int).push(
                rows.deep_view()[i as int],
            ));
            rows.deep_view().take(i as int).lemma_filter_push(rows.deep_view()[i as int], pred);
        }
        if crate::text::holds_string(keep, &rows[i].0) {
            out.push((rows[i].0.clone(), rows[i].1.clone()));
            assert(out.deep_view() =~= so_far.push(rows.deep_view()[i as int]));
        }
        i += 1;
    }
    assert(rows.deep_view().take(i as int) =~= rows.deep_view());
    out
}

/// The headings of `rows` whose note is among `keep`.
fn listed_headings(rows: &Vec<(String, Heading)>, keep: &Vec<String>) -> (out: Vec<
    (String, Heading),
>)
    ensures
        out.deep_view() == rows.deep_view().filter(is_listed_heading(keep.deep_view())),
{
    let mut out: Vec<(String, Heading)> = Vec::new();
    let mut i: usize = 0;
    let ghost pred = is_listed_heading(keep.deep_view());
    proof {
        reveal(Seq::filter);
        assert(rows.deep_view().take(0) =~= Seq::<HeadingRow>::empty());
        assert(out.deep_view() =~= Seq::<HeadingRow>::empty());
    }
    while i < rows.len()
        invariant
            i <= rows.len(),
            pred == is_listed_heading(keep.deep_view()),
            out.deep_view() == rows.deep_view().take(i as int).filter(pred),
        decreases rows.len() - i,
    {
        let ghost so_far = out.deep_view();
        proof {
            assert(rows.deep_view().take(i as int + 1) =~= rows.deep_view().take(i as int).push(
                rows.deep_view()[i as int],
            ));
            rows.deep_view().take(i as int).lemma_filter_push(rows.deep_view()[i as int], pred);
        }
        if crate::text::holds_string(keep, &rows[i].0) {
            out.push((rows[i].0.clone(), rows[i].1.clone()));
            assert(out.deep_view() =~= so_far.push(rows.deep_view()[i as int]));
        }
        i += 1;
    }
    assert(rows.deep_view().take(i as int) =~= rows.deep_view());
    out
}

/// The notes of `rows` whose path is among `keep`.
fn listed_notes(rows: &Vec<CachedNote>, keep: &Vec<String>) -> (out: Vec<CachedNote>)
    ensures
        out.deep_view() == rows.deep_view().filter(is_listed_note(keep.deep_view())),
{
    let mut out: Vec<CachedNote> = Vec::new();
    let mut i: usize = 0;
    let ghost pred = is_listed_note(keep.deep_view());
    proof {
        reveal(Seq::filter);
        assert(rows.deep_view().take(0) =~= Seq::<CachedNoteView>::empty());
        assert(out.deep_view() =~= Seq::<CachedNoteView>::empty());
    }
    while i < rows.len()
        invariant
            i <= rows.len(),
            pred == is_listed_note(keep.deep_view()),
            out.deep_view() == rows.deep_view().take(i as int).filter(pred),
        decreases rows.len() - i,
    {
        let ghost so_far = out.deep_view();
        proof {
            assert(rows.deep_view().take(i as int + 1) =~= rows.deep_view().take(i as int).push(
                rows.deep_view()[i as int],
            ));
            rows.deep_view().take(i as int).lemma_filter_push(rows.deep_view()[i as int], pred);
        }
        if crate::text::holds_string(keep, &rows[i].path) {
            out.push(rows[i].clone());
            assert(out.deep_view() =~= so_far.push(rows.deep_view()[i as int]));
        }
        i += 1;
    }
    assert(rows.deep_view().take(i as int) =~= rows.deep_view());
    out
}

/// A copy of `rows`.
fn copy_pairs(rows: &Vec<(String, String)>) -> (out: Vec<(String, String)>)
    ensures
        out.deep_view() == rows.deep_view(),
{
    let mut out: Vec<(String, String)> = Vec::new();
    let mut i: usize = 0;
    assert(out.deep_view() =~= rows.deep_view().take(0));
    while i < rows.len()
        invariant
            i <= rows.len(),
            out.deep_view() == rows.deep_view().take(i as int),
        decreases rows.len() - i,
    {
        let ghost so_far = out.deep_view();
        out.push((rows[i].0.clone(), rows[i].1.clone()));
        assert(out.deep_view() =~= so_far.push(rows.deep_view()[i as int]));
        i += 1;
        assert(out.deep_view() =~= rows.deep_view().take(i as int));
    }
    assert(rows.deep_view().take(i as int) =~= rows.deep_view());
    out
}

/// Whether no two of `notes` have the same path.
fn paths_are_unique(notes: &Vec<CachedNote>) -> (r: bool)
    ensures
        r == unique_paths(notes.deep_view()),
{
    let ghost all = notes.deep_view();
    let mut j: usize = 0;
    while j < notes.len()
        invariant
            j <= notes.len(),
            all == notes.deep_view(),
            forall|a: int, b: int| 0 <= a < b < j ==> (#[trigger] all[a]).path != (#[trigger] all[b]).path,
        decreases notes.len() - j,
    {
        let mut i: usize = 0;
        while i < j
            invariant
                i <= j < notes.len(),
                all == notes.deep_view(),
                forall|a: int| 0 <= a < i ==> (#[trigger] all[a]).path != all[j as int].path,
            decreases j - i,
        {
            if notes[i].path == notes[j].path {
                assert(all[i as int].path == all[j as int].path);
                return false;
            }
            i += 1;
        }
        j += 1;
    }
    true
}

/// Whether no two of `rows` have the same first member.
fn keys_are_unique(rows: &Vec<(String, String)>) -> (r: bool)
    ensures
        r == unique_keys(rows.deep_view()),
{
    let ghost all = rows.deep_view();
    let mut j: usize = 0;
    while j < rows.len()
        invariant
            j <= rows.len(),
            all == rows.deep_view(),
            forall|a: int, b: int| 0 <= a < b < j ==> (#[trigger] all[a]).0 != (#[trigger] all[b]).0,
        decreases rows.len() - j,
    {
        let mut i: usize = 0;
        while i < j
            invariant
                i <= j < rows.len(),
                all == rows.deep_view(),
                forall|a: int| 0 <= a < i ==> (#[trigger] all[a]).0 != all[j as int].0,
            decreases j - i,
        {
            if rows[i].0 == rows[j].0 {
                assert(all[i as int].0 == all[j as int].0);
                return false;
            }
            i += 1;
        }
        j += 1;
    }
    true
}

/// Whether no row of `rows` stands twice.
fn has_no_repeats(rows: &Vec<(String, String)>) -> (r: bool)
    ensures
        r == rows.deep_view().no_duplicates(),
{
    let ghost all = rows.deep_view();
    let mut j: usize = 0;
    while j < rows.len()
        invariant
            j <= rows.len(),
            all == rows.deep_view(),
            forall|a: int, b: int| 0 <= a < b < j ==> all[a] != all[b],
        decreases rows.len() - j,
    {
        let mut i: usize = 0;
        while i < j
            invariant
                i <= j < rows.len(),
                all == rows.deep_view(),
                forall|a: int| 0 <= a < i ==> all[a] != all[j as int],
            decreases j - i,
        {
            if rows[i].0 == rows[j].0 && rows[i].1 == rows[j].1 {
                assert(all[i as int] == all[j as int]);
                return false;
            }
            i += 1;
        }
        j += 1;
    }
    assert forall|a: int, b: int| 0 <= a < all.len() && 0 <= b < all.len() && a != b implies all[a]
        != all[b] by {
        if a < b {
            assert(all[a] != all[b]);
        } else {
            assert(all[b] != all[a]);
        }
    }
    true
}

/// Whether every row of `rows` belongs to one of `notes`.
fn pairs_have_notes(rows: &Vec<(String, String)>, notes: &Vec<CachedNote>) -> (r: bool)
    ensures
        r == (forall|i: int|
            0 <= i < rows.len() ==> holds_path(
                notes.deep_view(),
                (#[trigger] rows.deep_view()[i]).0,
            )),
{
    let ghost all = rows.deep_view();
    let mut i: usize = 0;
    while i < rows.len()
        invariant
            i <= rows.len(),
            all == rows.deep_view(),
            forall|j: int| 0 <= j < i ==> holds_path(notes.deep_view(), (#[trigger] all[j]).0),
        decreases rows.len() - i,
    {
        if find_note(notes, &rows[i].0).is_none() {
            assert(!holds_path(notes.deep_view(), all[i as int].0));
            return false;
        }
        i += 1;
    }
    true
}

/// Whether every heading of `rows` belongs to one of `notes`.
fn headings_have_notes(rows: &Vec<(String, Heading)>, notes: &Vec<CachedNote>) -> (r: bool)
    ensures
        r == (forall|i: int|
            0 <= i < rows.len() ==> holds_path(
                notes.deep_view(),
                (#[trigger] rows.deep_view()[i]).0,
            )),
{
    let ghost all = rows.deep_view();
    let mut i: usize = 0;
    while i < rows.len()
        invariant
            i <= rows.len(),
            all == rows.deep_view(),
            forall|j: int| 0 <= j < i ==> holds_path(notes.deep_view(), (#[trigger] all[j]).0),
        decreases rows.len() - i,
    {
        if find_note(notes, &rows[i].0).is_none() {
            assert(!holds_path(notes.deep_view(), all[i as int].0));
            return false;
        }
        i += 1;
    }
    true
}

/// Whether `rows` holds the pair of `key` and `value`.
fn holds_pair(rows: &Vec<(String, String)>, key: &String, value: &String) -> (r: bool)
    ensures
        r == rows.deep_view().contains((key@, value@)),
{
    let mut i: usize = 0;
    while i < rows.len()
        invariant
            i <= rows.len(),
            forall|j: int| 0 <= j < i ==> rows.deep_view()[j] != (key@, value@),
        decreases rows.len() - i,
    {
        if rows[i].0 == *key && rows[i].1 == *value {
            assert(rows.deep_view()[i as int] == (key@, value@));
            return true;
        }
        i += 1;
    }
    false
}

/// Appends to `rows`, which holds no row of `key`, the pairs of `key` with
/// each of `values` once.
fn append_paired(rows: &mut Vec<(String, String)>, key: &String, values: &[String])
    requires
        forall|i: int| 0 <= i < old(rows).deep_view().len() ==> (#[trigger] old(rows).deep_view()[i]).0
            != key@,
    ensures
        final(rows).deep_view() == old(rows).deep_view() + paired(key@, distinct(values.deep_view())),
{
    let ghost kept = rows.deep_view();
    let ghost all = values.deep_view();
    let mut i: usize = 0;
    proof {
        assert(all.take(0) =~= Seq::<Seq<char>>::empty());
        assert(paired(key@, distinct(all.take(0))) =~= Seq::<Pair>::empty());
        assert(kept + Seq::<Pair>::empty() =~= kept);
    }
    while i < values.len()
        invariant
            i <= values.len(),
            all == values.deep_view(),
            forall|j: int| 0 <= j < kept.len() ==> (#[trigger] kept[j]).0 != key@,
            rows.deep_view() == kept + paired(key@, distinct(all.take(i as int))),
        decreases values.len() - i,
    {
        let ghost so_far = rows.deep_view();
        let ghost seen = distinct(all.take(i as int));
        let v = &values[i];
        proof {
            assert(all.take(i as int + 1) =~= all.take(i as int).push(v@));
            crate::text::lemma_add_distinct_push(Seq::empty(), all.take(i as int), v@);
            lemma_paired_contains(key@, seen, v@);
            if so_far.contains((key@, v@)) {
                let j = choose|j: int| 0 <= j < so_far.len() && so_far[j] == (key@, v@);
                assert(j >= kept.len());
                assert(paired(key@, seen)[j - kept.len()] == (key@, v@));
            }
            if paired(key@, seen).contains((key@, v@)) {
                let j = choose|j: int|
                    0 <= j < paired(key@, seen).len() && paired(key@, seen)[j] == (key@, v@);
                assert(so_far[kept.len() + j] == (key@, v@));
            }
        }
        if !holds_pair(rows, key, v) {
            rows.push((key.clone(), v.clone()));
            assert(rows.deep_view() =~= so_far.push((key@, v@)));
            assert(paired(key@, seen.push(v@)) =~= paired(key@, seen).push((key@, v@)));
        }
        i += 1;
        assert(rows.deep_view() =~= kept + paired(key@, distinct(all.take(i as int))));
    }
    assert(all.take(i as int) =~= all);
}

/// A pair of `key` is among the pairs of `key` with `values` exactly if
/// its value is among `values`.
proof fn lemma_paired_contains(key: Seq<char>, values: Seq<Seq<char>>, v: Seq<char>)
    ensures
        paired(key, values).contains((key, v)) <==> values.contains(v),
{
    if values.contains(v) {
        let j = choose|j: int| 0 <= j < values.len() && values[j] == v;
        assert(paired(key, values)[j] == (key, v));
    }
    if paired(key, values).contains((key, v)) {
        let j = choose|j: int| 0 <= j < paired(key, values).len() && paired(key, values)[j] == (key, v);
        assert(values[j] == v);
    }
}

/// A cache whose notes keep their paths, row by row, and whose other
/// tables are unchanged stays consistent.
proof fn lemma_same_paths(a: DatabaseView, b: DatabaseView)
    requires
        a.wf(),
        a.notes.len() == b.notes.len(),
        forall|i: int| 0 <= i < a.notes.len() ==> (#[trigger] a.notes[i]).path == b.notes[i].path,
        a.links == b.links,
        a.tags == b.tags,
        a.headings == b.headings,
        a.settings == b.settings,
    ensures
        b.wf(),
        forall|p: Seq<char>| a.has_note(p) <==> b.has_note(p),
{
    assert forall|i: int, j: int| 0 <= i < j < b.notes.len() implies (#[trigger] b.notes[i]).path
        != (#[trigger] b.notes[j]).path by {
        assert(a.notes[i].path != a.notes[j].path);
    }
    assert forall|p: Seq<char>| a.has_note(p) <==> b.has_note(p) by {
        if a.has_note(p) {
            let i = choose|i: int| 0 <= i < a.notes.len() && #[trigger] a.notes[i].path == p;
            assert(b.notes[i].path == p);
        }
        if b.has_note(p) {
            let i = choose|i: int| 0 <= i < b.notes.len() && #[trigger] b.notes[i].path == p;
            assert(a.notes[i].path == p);
        }
    }
    lemma_more_paths(a, b);
}

/// A cache that gains a note with a new path stays consistent.
proof fn lemma_new_path(a: DatabaseView, b: DatabaseView, n: CachedNoteView)
    requires
        a.wf(),
        !a.has_note(n.path),
        b.notes == a.notes.push(n),
        a.links == b.links,
        a.tags == b.tags,
        a.headings == b.headings,
        a.settings == b.settings,
    ensures
        b.wf(),
{
    assert forall|i: int, j: int| 0 <= i < j < b.notes.len() implies (#[trigger] b.notes[i]).path
        != (#[trigger] b.notes[j]).path by {
        if j < a.notes.len() {
            assert(a.notes[i].path != a.notes[j].path);
        } else {
            assert(a.notes[i].path != n.path);
        }
    }
    assert forall|p: Seq<char>| a.has_note(p) implies b.has_note(p) by {
        let i = choose|i: int| 0 <= i < a.notes.len() && #[trigger] a.notes[i].path == p;
        assert(b.notes[i].path == p);
    }
    lemma_more_paths(a, b);
}

/// A cache that gains paths without losing one, and whose other tables are
/// unchanged, keeps every link, tag and heading with a note.
proof fn lemma_more_paths(a: DatabaseView, b: DatabaseView)
    requires
        a.wf(),
        unique_paths(b.notes),
        forall|p: Seq<char>| a.has_note(p) ==> b.has_note(p),
        a.links == b.links,
        a.tags == b.tags,
        a.headings == b.headings,
        unique_keys(b.settings),
    ensures
        b.wf(),
{
    assert forall|i: int| 0 <= i < b.links.len() implies b.has_note((#[trigger] b.links[i]).0) by {
        assert(a.has_note(a.links[i].0));
    }
    assert forall|i: int| 0 <= i < b.tags.len() implies b.has_note((#[trigger] b.tags[i]).0) by {
        assert(a.has_note(a.tags[i].0));
    }
    assert forall|i: int| 0 <= i < b.headings.len() implies b.has_note(
        (#[trigger] b.headings[i]).0,
    ) by {
        assert(a.has_note(a.headings[i].0));
    }
}

/// What a filter keeps: exactly the members that meet the condition.
pub proof fn lemma_filter_members<T>(s: Seq<T>, pred: spec_fn(T) -> bool)
    ensures
        forall|x: T| #[trigger] s.filter(pred).contains(x) <==> s.contains(x) && pred(x),
    decreases s.len(),
{
    reveal(Seq::filter);
    let f = s.filter(pred);
    if s.len() > 0 {
        let rest = s.drop_last();
        let fr = rest.filter(pred);
        lemma_filter_members(rest, pred);
        assert forall|x: T| #[trigger] f.contains(x) <==> s.contains(x) && pred(x) by {
            if f.contains(x) {
                let i = choose|i: int| 0 <= i < f.len() && f[i] == x;
                if i < fr.len() {
                    assert(fr[i] == x);
                    assert(fr.contains(x));
                    let k = choose|k: int| 0 <= k < rest.len() && rest[k] == x;
                    assert(s[k] == x);
                } else {
                    assert(s[s.len() - 1] == x);
                }
            }
            if s.contains(x) && pred(x) {
                let k = choose|k: int| 0 <= k < s.len() && s[k] == x;
                if k < rest.len() {
                    assert(rest[k] == x);
                    assert(rest.contains(x));
                    assert(fr.contains(x));
                    let i = choose|i: int| 0 <= i < fr.len() && fr[i] == x;
                    assert(f[i] == x);
                } else {
                    assert(f[f.len() - 1] == x);
                }
            }
        }
    }
}

/// What a filter keeps stands in the order it had: members with different
/// keys keep different keys.
pub proof fn lemma_filter_unique<T, K>(s: Seq<T>, pred: spec_fn(T) -> bool, key: spec_fn(T) -> K)
    requires
        forall|i: int, j: int| 0 <= i < j < s.len() ==> #[trigger] key(s[i]) != #[trigger] key(s[j]),
    ensures
        forall|i: int, j: int|
            0 <= i < j < s.filter(pred).len() ==> #[trigger] key(s.filter(pred)[i]) != #[trigger] key(
                s.filter(pred)[j],
            ),
    decreases s.len(),
{
    reveal(Seq::filter);
    let f = s.filter(pred);
    if s.len() > 0 {
        let rest = s.drop_last();
        let fr = rest.filter(pred);
        assert forall|i: int, j: int| 0 <= i < j < rest.len() implies #[trigger] key(rest[i])
            != #[trigger] key(rest[j]) by {
            assert(key(s[i]) != key(s[j]));
        }
        lemma_filter_unique(rest, pred, key);
        lemma_filter_members(rest, pred);
        assert forall|i: int, j: int| 0 <= i < j < f.len() implies #[trigger] key(f[i])
            != #[trigger] key(f[j]) by {
            if j < fr.len() {
                assert(key(fr[i]) != key(fr[j]));
            } else {
                assert(fr.contains(fr[i]));
                let k = choose|k: int| 0 <= k < rest.len() && rest[k] == fr[i];
                assert(key(s[k]) != key(s[s.len() - 1]));
            }
        }
    }
}

/// A filter keeps a sequence free of repetitions.
pub proof fn lemma_filter_no_duplicates<T>(s: Seq<T>, pred: spec_fn(T) -> bool)
    requires
        s.no_duplicates(),
    ensures
        s.filter(pred).no_duplicates(),
{
    let key = |r: T| r;
    assert forall|i: int, j: int| 0 <= i < j < s.len() implies #[trigger] key(s[i])
        != #[trigger] key(s[j]) by {}
    lemma_filter_unique(s, pred, key);
    let f = s.filter(pred);
    assert forall|i: int, j: int| 0 <= i < f.len() && 0 <= j < f.len() && i != j implies f[i]
        != f[j] by {
        if i < j {
            assert(key(f[i]) != key(f[j]));
        } else {
            assert(key(f[j]) != key(f[i]));
        }
    }
}

/// The note that stands at a position of a consistent cache is the note
/// of its path.
pub proof fn lemma_note_at(db: DatabaseView, i: int)
    requires
        unique_paths(db.notes),
        0 <= i < db.notes.len(),
    ensures
        db.has_note(db.notes[i].path),
        db.note(db.notes[i].path) == Some(db.notes[i]),
{
    let p = db.notes[i].path;
    assert(db.notes[i].path == p);
    let k = choose|k: int| 0 <= k < db.notes.len() && db.notes[k].path == p;
    if k < i {
        assert(db.notes[k].path != db.notes[i].path);
    }
    if i < k {
        assert(db.notes[i].path != db.notes[k].path);
    }
}

/// A cache of which only the notes that meet a condition on their path
/// are kept, with their links, tags and headings, is consistent, and holds
/// exactly the notes that it held and that meet the condition.
pub proof fn lemma_filtered_cache(
    db: DatabaseView,
    after: DatabaseView,
    keep: spec_fn(Seq<char>) -> bool,
    keep_note: spec_fn(CachedNoteView) -> bool,
    keep_pair: spec_fn(Pair) -> bool,
    keep_heading: spec_fn(HeadingRow) -> bool,
)
    requires
        db.wf(),
        forall|r: CachedNoteView| #[trigger] keep_note(r) == keep(r.path),
        forall|r: Pair| #[trigger] keep_pair(r) == keep(r.0),
        forall|r: HeadingRow| #[trigger] keep_heading(r) == keep(r.0),
        after.notes == db.notes.filter(keep_note),
        after.links == db.links.filter(keep_pair),
        after.tags == db.tags.filter(keep_pair),
        after.headings == db.headings.filter(keep_heading),
        after.settings == db.settings,
    ensures
        after.wf(),
        forall|p: Seq<char>| #[trigger] after.has_note(p) <==> db.has_note(p) && keep(p),
        forall|p: Seq<char>| #[trigger] after.has_note(p) ==> after.note(p) == db.note(p),
{
    let path_of = |r: CachedNoteView| r.path;
    lemma_filter_members(db.notes, keep_note);
    lemma_filter_members(db.links, keep_pair);
    lemma_filter_members(db.tags, keep_pair);
    lemma_filter_members(db.headings, keep_heading);
    lemma_filter_no_duplicates(db.links, keep_pair);
    lemma_filter_no_duplicates(db.tags, keep_pair);
    assert forall|i: int, j: int| 0 <= i < j < db.notes.len() implies #[trigger] path_of(
        db.notes[i],
    ) != #[trigger] path_of(db.notes[j]) by {
        assert(db.notes[i].path != db.notes[j].path);
    }
    lemma_filter_unique(db.notes, keep_note, path_of);
    assert(unique_paths(after.notes)) by {
        assert forall|i: int, j: int| 0 <= i < j < after.notes.len() implies (
        #[trigger] after.notes[i]).path != (#[trigger] after.notes[j]).path by {
            assert(path_of(after.notes[i]) != path_of(after.notes[j]));
        }
    }
    assert forall|p: Seq<char>| #[trigger] after.has_note(p) <==> db.has_note(p) && keep(p) by {
        if db.has_note(p) && keep(p) {
            let i = choose|i: int| 0 <= i < db.notes.len() && #[trigger] db.notes[i].path == p;
            assert(db.notes.contains(db.notes[i]));
            assert(keep_note(db.notes[i]));
            assert(after.notes.contains(db.notes[i]));
            let j = choose|j: int| 0 <= j < after.notes.len() && after.notes[j] == db.notes[i];
            assert(after.notes[j].path == p);
        }
        if after.has_note(p) {
            let j = choose|j: int| 0 <= j < after.notes.len() && #[trigger] after.notes[j].path == p;
            assert(after.notes.contains(after.notes[j]));
            assert(db.notes.contains(after.notes[j]));
            assert(keep_note(after.notes[j]));
            let i = choose|i: int| 0 <= i < db.notes.len() && db.notes[i] == after.notes[j];
            assert(db.notes[i].path == p);
        }
    }
    assert forall|p: Seq<char>| #[trigger] after.has_note(p) implies after.note(p) == db.note(
        p,
    ) by {
        let j = choose|j: int| 0 <= j < after.notes.len() && #[trigger] after.notes[j].path == p;
        assert(after.notes.contains(after.notes[j]));
        assert(db.notes.contains(after.notes[j]));
        let i = choose|i: int| 0 <= i < db.notes.len() && db.notes[i] == after.notes[j];
        lemma_note_at(db, i);
        lemma_note_at(after, j);
    }
    assert forall|i: int| 0 <= i < after.links.len() implies after.has_note(
        (#[trigger] after.links[i]).0,
    ) by {
        let r = after.links[i];
        assert(after.links.contains(r));
        assert(db.links.contains(r));
        assert(keep_pair(r));
        let k = choose|k: int| 0 <= k < db.links.len() && db.links[k] == r;
        assert(db.has_note(db.links[k].0));
        assert(after.has_note(r.0));
    }
    assert forall|i: int| 0 <= i < after.tags.len() implies after.has_note(
        (#[trigger] after.tags[i]).0,
    ) by {
        let r = after.tags[i];
        assert(after.tags.contains(r));
        assert(db.tags.contains(r));
        assert(keep_pair(r));
        let k = choose|k: int| 0 <= k < db.tags.len() && db.tags[k] == r;
        assert(db.has_note(db.tags[k].0));
        assert(after.has_note(r.0));
    }
    assert forall|i: int| 0 <= i < after.headings.len() implies after.has_note(
        (#[trigger] after.headings[i]).0,
    ) by {
        let r = after.headings[i];
        assert(after.headings.contains(r));
        assert(db.headings.contains(r));
        assert(keep_heading(r));
        let k = choose|k: int| 0 <= k < db.headings.len() && db.headings[k] == r;
        assert(db.has_note(db.headings[k].0));
        assert(after.has_note(r.0));
    }
}

/// Deleting a note keeps the cache consistent, leaves no note of that path
/// and every other note as it was.
pub proof fn lemma_delete_note_wf(db: DatabaseView, path: Seq<char>)
    requires
        db.wf(),
    ensures
        db.delete_note(path).wf(),
        !db.delete_note(path).has_note(path),
        forall|p: Seq<char>|
            p != path ==> (#[trigger] db.delete_note(path).has_note(p) <==> db.has_note(p)),
        forall|p: Seq<char>| #[trigger]
            db.delete_note(path).has_note(p) ==> db.delete_note(path).note(p) == db.note(p),
{
    lemma_filtered_cache(
        db,
        db.delete_note(path),
        |p: Seq<char>| p != path,
        is_other_note(path),
        has_other_key(path),
        is_other_heading(path),
    );
}

/// Keeping the listed notes keeps the cache consistent; it then holds
/// exactly the notes that it held and that are listed, each as it was.
pub proof fn lemma_retain_notes(db: DatabaseView, keep: Seq<Seq<char>>)
    requires
        db.wf(),
    ensures
        db.retain_notes(keep).wf(),
        forall|p: Seq<char>| #[trigger]
            db.retain_notes(keep).has_note(p) <==> db.has_note(p) && keep.contains(p),
        forall|p: Seq<char>| #[trigger]
            db.retain_notes(keep).has_note(p) ==> db.retain_notes(keep).note(p) == db.note(p),
{
    lemma_filtered_cache(
        db,
        db.retain_notes(keep),
        |p: Seq<char>| keep.contains(p),
        is_listed_note(keep),
        has_listed_key(keep),
        is_listed_heading(keep),
    );
}

/// The rows of a table after those of one note were replaced: none stands
/// twice, and each belongs to the note or stood in the table before.
proof fn lemma_replaced_pairs(rows: Seq<Pair>, path: Seq<char>, values: Seq<Seq<char>>)
    requires
        rows.no_duplicates(),
    ensures
        (pairs_without(rows, path) + paired(path, distinct(values))).no_duplicates(),
        forall|r: Pair| #[trigger]
            (pairs_without(rows, path) + paired(path, distinct(values))).contains(r) ==> r.0 == path
                || rows.contains(r),
{
    let kept = pairs_without(rows, path);
    let keep = has_other_key(path);
    let added = paired(path, distinct(values));
    let all = kept + added;
    lemma_filter_members(rows, keep);
    lemma_filter_no_duplicates(rows, keep);
    crate::text::lemma_add_distinct_members(Seq::empty(), values);
    assert forall|i: int, j: int| 0 <= i < all.len() && 0 <= j < all.len() && i != j implies all[i]
        != all[j] by {
        let a = if i < j {
            i
        } else {
            j
        };
        let b = if i < j {
            j
        } else {
            i
        };
        if b < kept.len() {
            assert(kept[a] != kept[b]);
        } else if a < kept.len() {
            assert(kept.contains(kept[a]));
            assert(kept[a].0 != path);
            assert(added[b - kept.len()].0 == path);
        } else {
            assert(distinct(values)[a - kept.len()] != distinct(values)[b - kept.len()]);
        }
    }
    assert forall|r: Pair| #[trigger] all.contains(r) implies r.0 == path || rows.contains(r) by {
        let i = choose|i: int| 0 <= i < all.len() && all[i] == r;
        if i < kept.len() {
            assert(kept[i] == r);
            assert(kept.contains(r));
        } else {
            assert(added[i - kept.len()].0 == path);
        }
    }
}

/// A table without the rows of a note holds no row of that note.
proof fn lemma_no_rows_of(rows: Seq<Pair>, path: Seq<char>)
    ensures
        forall|i: int| 0 <= i < pairs_without(rows, path).len() ==> (#[trigger] pairs_without(
            rows,
            path,
        )[i]).0 != path,
{
    let kept = pairs_without(rows, path);
    lemma_filter_members(rows, has_other_key(path));
    assert forall|i: int| 0 <= i < kept.len() implies (#[trigger] kept[i]).0 != path by {
        assert(kept.contains(kept[i]));
    }
}

/// A cache in which the links or the tags of one note were replaced stays
/// consistent.
proof fn lemma_rows_of_note(a: DatabaseView, b: DatabaseView, path: Seq<char>)
    requires
        a.wf(),
        a.has_note(path),
        a.notes == b.notes,
        a.headings == b.headings,
        a.settings == b.settings,
        b.links.no_duplicates(),
        b.tags.no_duplicates(),
        forall|r: Pair| #[trigger] b.links.contains(r) ==> r.0 == path || a.links.contains(r),
        forall|r: Pair| #[trigger] b.tags.contains(r) ==> r.0 == path || a.tags.contains(r),
    ensures
        b.wf(),
{
    assert forall|i: int| 0 <= i < b.links.len() implies b.has_note((#[trigger] b.links[i]).0) by {
        let r = b.links[i];
        assert(b.links.contains(r));
        if r.0 != path {
            let k = choose|k: int| 0 <= k < a.links.len() && a.links[k] == r;
            assert(a.has_note(a.links[k].0));
        }
    }
    assert forall|i: int| 0 <= i < b.tags.len() implies b.has_note((#[trigger] b.tags[i]).0) by {
        let r = b.tags[i];
        assert(b.tags.contains(r));
        if r.0 != path {
            let k = choose|k: int| 0 <= k < a.tags.len() && a.tags[k] == r;
            assert(a.has_note(a.tags[k].0));
        }
    }
    assert forall|i: int| 0 <= i < b.headings.len() implies b.has_note(
        (#[trigger] b.headings[i]).0,
    ) by {
        assert(a.has_note(a.headings[i].0));
    }
}

/// The values of a table with one more row.
proof fn lemma_values_of_push(rows: Seq<Pair>, r: Pair, key: Seq<char>)
    ensures
        values_of(rows.push(r), key) == if r.0 == key {
            values_of(rows, key).push(r.1)
        } else {
            values_of(rows, key)
        },
{
    rows.lemma_filter_push(r, has_key(key));
    if r.0 == key {
        assert(values_of(rows.push(r), key) =~= values_of(rows, key).push(r.1));
    }
}

/// The keys of a table with one more row.
proof fn lemma_keys_of_push(rows: Seq<Pair>, r: Pair, value: Seq<char>)
    ensures
        keys_of(rows.push(r), value) == if r.1 == value {
            keys_of(rows, value).push(r.0)
        } else {
            keys_of(rows, value)
        },
{
    rows.lemma_filter_push(r, has_value(value));
    if r.1 == value {
        assert(keys_of(rows.push(r), value) =~= keys_of(rows, value).push(r.0));
    }
}

/// No backlink points at a note that the cache does not hold.
pub proof fn lemma_backlinks_are_notes(db: DatabaseView, title: Seq<char>)
    requires
        db.wf(),
    ensures
        forall|k: int|
            0 <= k < db.backlinks(title).len() ==> db.has_note(#[trigger] db.backlinks(title)[k]),
{
    let found = keys_of(db.links, title);
    let kept = db.links.filter(has_value(title));
    crate::text::lemma_add_distinct_members(Seq::empty(), found);
    lemma_filter_members(db.links, has_value(title));
    assert forall|k: int| 0 <= k < db.backlinks(title).len() implies db.has_note(
        #[trigger] db.backlinks(title)[k],
    ) by {
        let p = db.backlinks(title)[k];
        assert(db.backlinks(title).contains(p));
        assert(found.contains(p));
        let j = choose|j: int| 0 <= j < found.len() && found[j] == p;
        assert(kept.contains(kept[j]));
        assert(db.links.contains(kept[j]));
        let m = choose|m: int| 0 <= m < db.links.len() && db.links[m] == kept[j];
        assert(db.has_note(db.links[m].0));
    }
}

/// The number of rows of `rows` with the given tag.
fn count_value(rows: &Vec<(String, String)>, value: &String) -> (n: usize)
    ensures
        n == tag_count(rows.deep_view(), value@),
{
    let mut n: usize = 0;
    let mut i: usize = 0;
    let ghost all = rows.deep_view();
    proof {
        reveal(Seq::filter);
        assert(all.take(0) =~= Seq::<Pair>::empty());
    }
    while i < rows.len()
        invariant
            i <= rows.len(),
            all == rows.deep_view(),
            n == tag_count(all.take(i as int), value@),
            n <= i,
        decreases rows.len() - i,
    {
        proof {
            assert(all.take(i as int + 1) =~= all.take(i as int).push(all[i as int]));
            all.take(i as int).lemma_filter_push(all[i as int], has_value(value@));
        }
        if rows[i].1 == *value {
            n += 1;
        }
        i += 1;
    }
    assert(all.take(i as int) =~= all);
    n
}

/// Whether the modification time `a` is later than `b`.
fn is_later(a: &Option<String>, b: &Option<String>) -> (r: bool)
    ensures
        r == later(a.deep_view(), b.deep_view()),
{
    match a {
        Some(x) => match b {
            Some(y) => {
                let xs = to_chars(x.as_str());
                let ys = to_chars(y.as_str());
                text_less(&ys, &xs)
            },
            None => true,
        },
        None => false,
    }
}

/// The notes of `rows`, the most recently modified first.
fn sort_by_recency(rows: &Vec<CachedNote>) -> (out: Vec<CachedNote>)
    ensures
        out.deep_view() == stable_sort(rows.deep_view(), more_recent()),
{
    let mut out: Vec<CachedNote> = Vec::new();
    let mut i: usize = 0;
    let ghost all = rows.deep_view();
    proof {
        assert(all.take(0) =~= Seq::<CachedNoteView>::empty());
        assert(out.deep_view() =~= Seq::<CachedNoteView>::empty());
    }
    while i < rows.len()
        invariant
            i <= rows.len(),
            all == rows.deep_view(),
            out.deep_view() == stable_sort(all.take(i as int), more_recent()),
        decreases rows.len() - i,
    {
        let x = rows[i].clone();
        let ghost sorted = out.deep_view();
        let mut p: usize = 0;
        assert(sorted.skip(0) =~= sorted);
        while p < out.len() && !is_later(&x.modified_at, &out[p].modified_at)
            invariant
                p <= out.len(),
                sorted == out.deep_view(),
                first_outranked(sorted, x@, more_recent()) == p + first_outranked(
                    sorted.skip(p as int),
                    x@,
                    more_recent(),
                ),
            decreases out.len() - p,
        {
            assert(sorted.skip(p as int).drop_first() =~= sorted.skip(p as int + 1));
            assert(sorted.skip(p as int)[0] == sorted[p as int]);
            p += 1;
        }
        proof {
            if p < out.len() {
                assert(sorted.skip(p as int)[0] == sorted[p as int]);
            }
        }
        out.insert(p, x);
        proof {
            assert(out.deep_view() =~= sorted.insert(p as int, all[i as int]));
            assert(all.take(i as int + 1).drop_last() =~= all.take(i as int));
            assert(all.take(i as int + 1).last() == all[i as int]);
        }
        i += 1;
    }
    assert(all.take(i as int) =~= all);
    out
}

/// The headings of `rows` in the order of their lines.
fn sort_by_line(rows: &Vec<Heading>) -> (out: Vec<Heading>)
    ensures
        out.deep_view() == stable_sort(rows.deep_view(), higher_up()),
{
    let mut out: Vec<Heading> = Vec::new();
    let mut i: usize = 0;
    let ghost all = rows.deep_view();
    proof {
        assert(all.take(0) =~= Seq::<HeadingView>::empty());
        assert(out.deep_view() =~= Seq::<HeadingView>::empty());
    }
    while i < rows.len()
        invariant
            i <= rows.len(),
            all == rows.deep_view(),
            out.deep_view() == stable_sort(all.take(i as int), higher_up()),
        decreases rows.len() - i,
    {
        let x = rows[i].clone();
        let ghost sorted = out.deep_view();
        let mut p: usize = 0;
        assert(sorted.skip(0) =~= sorted);
        while p < out.len() && !(x.line < out[p].line)
            invariant
                p <= out.len(),
                sorted == out.deep_view(),
                first_outranked(sorted, x@, higher_up()) == p + first_outranked(
                    sorted.skip(p as int),
                    x@,
                    higher_up(),
                ),
            decreases out.len() - p,
        {
            assert(sorted.skip(p as int).drop_first() =~= sorted.skip(p as int + 1));
            assert(sorted.skip(p as int)[0] == sorted[p as int]);
            p += 1;
        }
        proof {
            if p < out.len() {
                assert(sorted.skip(p as int)[0] == sorted[p as int]);
            }
        }
        out.insert(p, x);
        proof {
            assert(out.deep_view() =~= sorted.insert(p as int, all[i as int]));
            assert(all.take(i as int + 1).drop_last() =~= all.take(i as int));
            assert(all.take(i as int + 1).last() == all[i as int]);
        }
        i += 1;
    }
    assert(all.take(i as int) =~= all);
    out
}

/// The counted tags of `rows`, the most used first.
fn sort_by_use(rows: &Vec<(String, usize)>) -> (out: Vec<(String, usize)>)
    ensures
        out.deep_view() == stable_sort(rows.deep_view(), more_used()),
{
    let mut out: Vec<(String, usize)> = Vec::new();
    let mut i: usize = 0;
    let ghost all = rows.deep_view();
    proof {
        assert(all.take(0) =~= Seq::<TagCount>::empty());
        assert(out.deep_view() =~= Seq::<TagCount>::empty());
    }
    while i < rows.len()
        invariant
            i <= rows.len(),
            all == rows.deep_view(),
            out.deep_view() == stable_sort(all.take(i as int), more_used()),
        decreases rows.len() - i,
    {
        let x = (rows[i].0.clone(), rows[i].1);
        let ghost sorted = out.deep_view();
        let mut p: usize = 0;
        assert(sorted.skip(0) =~= sorted);
        while p < out.len() && !(x.1 > out[p].1)
            invariant
                p <= out.len(),
                sorted == out.deep_view(),
                x.deep_view() == all[i as int],
                first_outranked(sorted, all[i as int], more_used()) == p + first_outranked(
                    sorted.skip(p as int),
                    all[i as int],
                    more_used(),
                ),
            decreases out.len() - p,
        {
            assert(sorted.skip(p as int).drop_first() =~= sorted.skip(p as int + 1));
            assert(sorted.skip(p as int)[0] == sorted[p as int]);
            p += 1;
        }
        proof {
            if p < out.len() {
                assert(sorted.skip(p as int)[0] == sorted[p as int]);
            }
        }
        out.insert(p, x);
        proof {
            assert(out.deep_view() =~= sorted.insert(p as int, all[i as int]));
            assert(all.take(i as int + 1).drop_last() =~= all.take(i as int));
            assert(all.take(i as int + 1).last() == all[i as int]);
        }
        i += 1;
    }
    assert(all.take(i as int) =~= all);
    out
}

/// What an upsert does to the notes of a consistent cache: the cache
/// stays consistent and holds the note's path besides those it held; a note
/// that it held keeps its star and its creation time, and every other note
/// stays as it was.
pub proof fn lemma_upsert_note(db: DatabaseView, n: CachedNoteView)
    requires
        db.wf(),
    ensures
        db.upsert_note(n).wf(),
        forall|p: Seq<char>| #[trigger] db.upsert_note(n).has_note(p) <==> db.has_note(p) || p == n.path,
        db.upsert_note(n).note(n.path) == Some(
            if db.has_note(n.path) {
                merged(db.note(n.path)->0, n)
            } else {
                n
            },
        ),
        forall|p: Seq<char>| p != n.path ==> #[trigger] db.upsert_note(n).note(p) == db.note(p),
{
    let after = db.upsert_note(n);
    if db.has_note(n.path) {
        let i = choose|i: int| 0 <= i < db.notes.len() && #[trigger] db.notes[i].path == n.path;
        lemma_same_paths(db, after);
        lemma_note_at(db, i);
        lemma_note_at(after, i);
        assert forall|p: Seq<char>| p != n.path implies #[trigger] after.note(p) == db.note(p) by {
            if db.has_note(p) {
                let k = choose|k: int| 0 <= k < db.notes.len() && #[trigger] db.notes[k].path == p;
                lemma_note_at(db, k);
                lemma_note_at(after, k);
            }
        }
    } else {
        lemma_new_path(db, after, n);
        lemma_note_at(after, db.notes.len() as int);
        assert forall|p: Seq<char>| #[trigger] after.has_note(p) <==> db.has_note(p) || p
            == n.path by {
            if after.has_note(p) {
                let k = choose|k: int| 0 <= k < after.notes.len() && #[trigger] after.notes[k].path == p;
                if k < db.notes.len() {
                    assert(db.notes[k].path == p);
                }
            }
            if db.has_note(p) {
                let k = choose|k: int| 0 <= k < db.notes.len() && #[trigger] db.notes[k].path == p;
                assert(after.notes[k].path == p);
            }
        }
        assert forall|p: Seq<char>| p != n.path implies #[trigger] after.note(p) == db.note(p) by {
            if db.has_note(p) {
                let k = choose|k: int| 0 <= k < db.notes.len() && #[trigger] db.notes[k].path == p;
                lemma_note_at(db, k);
                assert(after.notes[k] == db.notes[k]);
                lemma_note_at(after, k);
            }
        }
    }
}

/// What switching a star does to a consistent cache that holds the note:
/// the cache stays consistent and holds the same paths, the note has its
/// star switched, and every other note stays as it was.
pub proof fn lemma_toggle_star(db: DatabaseView, path: Seq<char>)
    requires
        db.wf(),
        db.has_note(path),
    ensures
        db.toggle_star(path).wf(),
        forall|p: Seq<char>| #[trigger] db.toggle_star(path).has_note(p) <==> db.has_note(p),
        db.toggle_star(path).note(path) == Some(toggled(db.note(path)->0)),
        forall|p: Seq<char>| p != path ==> #[trigger] db.toggle_star(path).note(p) == db.note(p),
{
    let after = db.toggle_star(path);
    let i = choose|i: int| 0 <= i < db.notes.len() && #[trigger] db.notes[i].path == path;
    lemma_same_paths(db, after);
    lemma_note_at(db, i);
    lemma_note_at(after, i);
    assert forall|p: Seq<char>| p != path implies #[trigger] after.note(p) == db.note(p) by {
        if db.has_note(p) {
            let k = choose|k: int| 0 <= k < db.notes.len() && #[trigger] db.notes[k].path == p;
            lemma_note_at(db, k);
            lemma_note_at(after, k);
        }
    }
}

/// Replacing the links, the tags or the headings of a note that the cache
/// holds keeps the cache consistent.
pub proof fn lemma_replace_rows(
    db: DatabaseView,
    path: Seq<char>,
    values: Seq<Seq<char>>,
    headings: Seq<HeadingView>,
)
    requires
        db.wf(),
        db.has_note(path),
    ensures
        db.replace_links(path, values).wf(),
        db.replace_tags(path, values).wf(),
        db.replace_headings(path, headings).wf(),
{
    lemma_replaced_pairs(db.links, path, values);
    lemma_replaced_pairs(db.tags, path, values);
    lemma_rows_of_note(db, db.replace_links(path, values), path);
    lemma_rows_of_note(db, db.replace_tags(path, values), path);
    let after = db.replace_headings(path, headings);
    let kept = headings_without(db.headings, path);
    lemma_filter_members(db.headings, is_other_heading(path));
    assert forall|i: int| 0 <= i < after.headings.len() implies after.has_note(
        (#[trigger] after.headings[i]).0,
    ) by {
        if i < kept.len() {
            assert(kept.contains(kept[i]));
            assert(db.headings.contains(kept[i]));
            let k = choose|k: int| 0 <= k < db.headings.len() && db.headings[k] == kept[i];
            assert(db.has_note(db.headings[k].0));
        }
    }
    assert forall|i: int| 0 <= i < after.links.len() implies after.has_note(
        (#[trigger] after.links[i]).0,
    ) by {
        assert(db.has_note(db.links[i].0));
    }
    assert forall|i: int| 0 <= i < after.tags.len() implies after.has_note(
        (#[trigger] after.tags[i]).0,
    ) by {
        assert(db.has_note(db.tags[i].0));
    }
}

/// The list of all notes holds every note of the cache once, and none
/// comes behind a note that was modified earlier.
pub proof fn lemma_all_notes(db: DatabaseView)
    ensures
        db.all_notes().len() == db.notes.len(),
        db.all_notes().to_multiset() == db.notes.to_multiset(),
        forall|n: CachedNoteView| #[trigger] db.all_notes().contains(n) <==> db.notes.contains(n),
        forall|i: int, j: int|
            0 <= i < j < db.all_notes().len() ==> !later(
                (#[trigger] db.all_notes()[j]).modified_at,
                (#[trigger] db.all_notes()[i]).modified_at,
            ),
{
    crate::sorting::lemma_stable_sort(db.notes, more_recent());
    crate::sorting::lemma_stable_sort_members(db.notes, more_recent());
    lemma_more_recent_is_strict_order();
    let sorted = db.all_notes();
    let r = more_recent();
    assert forall|i: int, j: int| 0 <= i < j < sorted.len() implies !later(
        (#[trigger] sorted[j]).modified_at,
        (#[trigger] sorted[i]).modified_at,
    ) by {
        assert(!r(sorted[j], sorted[i]));
    }
}

/// The outline of a note holds each of its headings once, in the order of
/// their lines.
pub proof fn lemma_headings_of(db: DatabaseView, path: Seq<char>)
    ensures
        db.headings_of(path).to_multiset() == headings_of_note(db.headings, path).to_multiset(),
        forall|i: int, j: int|
            0 <= i < j < db.headings_of(path).len() ==> (#[trigger] db.headings_of(path)[i]).line <= (
            #[trigger] db.headings_of(path)[j]).line,
{
    let rows = headings_of_note(db.headings, path);
    let r = higher_up();
    crate::sorting::lemma_stable_sort(rows, r);
    assert(is_strict_order(r));
    let sorted = db.headings_of(path);
    assert forall|i: int, j: int| 0 <= i < j < sorted.len() implies (#[trigger] sorted[i]).line <= (
    #[trigger] sorted[j]).line by {
        assert(!r(sorted[j], sorted[i]));
    }
}

/// The tags come with none behind a tag that fewer notes carry.
pub proof fn lemma_tags_with_counts(db: DatabaseView)
    ensures
        db.tags_with_counts().to_multiset() == counted_tags(db.tags).to_multiset(),
        forall|i: int, j: int|
            0 <= i < j < db.tags_with_counts().len() ==> (#[trigger] db.tags_with_counts()[i]).1 >= (
            #[trigger] db.tags_with_counts()[j]).1,
{
    let rows = counted_tags(db.tags);
    let r = more_used();
    crate::sorting::lemma_stable_sort(rows, r);
    assert(is_strict_order(r));
    let sorted = db.tags_with_counts();
    assert forall|i: int, j: int| 0 <= i < j < sorted.len() implies (#[trigger] sorted[i]).1 >= (
    #[trigger] sorted[j]).1 by {
        assert(!r(sorted[j], sorted[i]));
    }
}

/// A filter changes nothing where every member meets the condition.
pub proof fn lemma_filter_all<T>(s: Seq<T>, pred: spec_fn(T) -> bool)
    requires
        forall|i: int| 0 <= i < s.len() ==> pred(#[trigger] s[i]),
    ensures
        s.filter(pred) == s,
    decreases s.len(),
{
    reveal(Seq::filter);
    if s.len() > 0 {
        assert forall|i: int| 0 <= i < s.drop_last().len() implies pred(
            #[trigger] s.drop_last()[i],
        ) by {
            assert(pred(s[i]));
        }
        lemma_filter_all(s.drop_last(), pred);
        assert(pred(s[s.len() - 1]));
        assert(s.drop_last().push(s.last()) =~= s);
    }
}

/// A filter leaves nothing where no member meets the condition.
pub proof fn lemma_filter_none<T>(s: Seq<T>, pred: spec_fn(T) -> bool)
    requires
        forall|i: int| 0 <= i < s.len() ==> !pred(#[trigger] s[i]),
    ensures
        s.filter(pred) == Seq::<T>::empty(),
    decreases s.len(),
{
    reveal(Seq::filter);
    if s.len() > 0 {
        assert forall|i: int| 0 <= i < s.drop_last().len() implies !pred(
            #[trigger] s.drop_last()[i],
        ) by {
            assert(!pred(s[i]));
        }
        lemma_filter_none(s.drop_last(), pred);
        assert(!pred(s[s.len() - 1]));
    }
}

/// Replacing the rows of a note twice by the same rows is replacing them
/// once.
pub proof fn lemma_replace_twice<T>(
    rows: Seq<T>,
    others: spec_fn(T) -> bool,
    added: Seq<T>,
)
    requires
        forall|i: int| 0 <= i < added.len() ==> !others(#[trigger] added[i]),
    ensures
        (rows.filter(others) + added).filter(others) + added == rows.filter(others) + added,
{
    let kept = rows.filter(others);
    Seq::filter_distributes_over_add(kept, added, others);
    lemma_filter_members(rows, others);
    assert forall|i: int| 0 <= i < kept.len() implies others(#[trigger] kept[i]) by {
        assert(kept.contains(kept[i]));
    }
    lemma_filter_all(kept, others);
    lemma_filter_none(added, others);
    assert(kept + Seq::<T>::empty() =~= kept);
}

/// Writing a note twice is writing it once.
pub proof fn lemma_upsert_twice(db: DatabaseView, n: CachedNoteView)
    requires
        db.wf(),
    ensures
        db.upsert_note(n).upsert_note(n) == db.upsert_note(n),
{
    let first = db.upsert_note(n);
    let again = first.upsert_note(n);
    lemma_upsert_note(db, n);
    assert(first.has_note(n.path));
    assert forall|i: int| 0 <= i < first.notes.len() && (#[trigger] first.notes[i]).path
        == n.path implies merged(first.notes[i], n) == first.notes[i] by {
        if db.has_note(n.path) {
            assert(first.notes[i] == merged(db.notes[i], n));
        } else {
            if i < db.notes.len() {
                assert(db.notes[i].path == n.path);
            }
        }
    }
    assert(again.notes =~= first.notes);
}

/// Replacing the rows of a note in a table of pairs twice by the same
/// values is replacing them once.
pub proof fn lemma_replace_pairs_twice(rows: Seq<Pair>, path: Seq<char>, values: Seq<Seq<char>>)
    ensures
        pairs_without(pairs_without(rows, path) + paired(path, distinct(values)), path) + paired(
            path,
            distinct(values),
        ) == pairs_without(rows, path) + paired(path, distinct(values)),
{
    let added = paired(path, distinct(values));
    let others = has_other_key(path);
    assert forall|i: int| 0 <= i < added.len() implies !others(#[trigger] added[i]) by {
        assert(added[i].0 == path);
    }
    lemma_replace_twice::<Pair>(rows, others, added);
}

/// Replacing the headings of a note twice by the same headings is
/// replacing them once.
pub proof fn lemma_replace_headings_twice(
    rows: Seq<HeadingRow>,
    path: Seq<char>,
    headings: Seq<HeadingView>,
)
    ensures
        headings_without(
            headings_without(rows, path) + headings.map_values(|h: HeadingView| (path, h)),
            path,
        ) + headings.map_values(|h: HeadingView| (path, h)) == headings_without(rows, path)
            + headings.map_values(|h: HeadingView| (path, h)),
{
    let added = headings.map_values(|h: HeadingView| (path, h));
    let others = is_other_heading(path);
    assert forall|i: int| 0 <= i < added.len() implies !others(#[trigger] added[i]) by {
        assert(added[i].0 == path);
    }
    lemma_replace_twice::<HeadingRow>(rows, others, added);
}

/// Replacing the links, the tags or the headings of a note twice by the
/// same rows is replacing them once.
pub proof fn lemma_replace_rows_twice(
    db: DatabaseView,
    path: Seq<char>,
    values: Seq<Seq<char>>,
    headings: Seq<HeadingView>,
)
    ensures
        db.replace_links(path, values).replace_links(path, values) == db.replace_links(path, values),
        db.replace_tags(path, values).replace_tags(path, values) == db.replace_tags(path, values),
        db.replace_headings(path, headings).replace_headings(path, headings)
            == db.replace_headings(path, headings),
{
    lemma_replace_pairs_twice(db.links, path, values);
    lemma_replace_pairs_twice(db.tags, path, values);
    lemma_replace_headings_twice(db.headings, path, headings);
}

/// Writing a note with its links, tags and headings twice is writing them
/// once.
pub proof fn lemma_write_twice(
    db: DatabaseView,
    n: CachedNoteView,
    links: Seq<Seq<char>>,
    tags: Seq<Seq<char>>,
    headings: Seq<HeadingView>,
)
    requires
        db.wf(),
    ensures
        db.upsert_note(n).replace_links(n.path, links).replace_tags(n.path, tags).replace_headings(
            n.path,
            headings,
        ).upsert_note(n).replace_links(n.path, links).replace_tags(n.path, tags).replace_headings(
            n.path,
            headings,
        ) == db.upsert_note(n).replace_links(n.path, links).replace_tags(
            n.path,
            tags,
        ).replace_headings(n.path, headings),
{
    let a = db.upsert_note(n);
    let once = a.replace_links(n.path, links).replace_tags(n.path, tags).replace_headings(
        n.path,
        headings,
    );
    lemma_upsert_twice(db, n);
    let b = once.upsert_note(n);
    assert(once.notes == a.notes);
    assert(once.has_note(n.path) == a.has_note(n.path));
    assert(b.notes == a.upsert_note(n).notes);
    assert(b.notes == once.notes);
    lemma_replace_rows_twice(a, n.path, links, headings);
    lemma_replace_rows_twice(a, n.path, tags, headings);
    let twice = b.replace_links(n.path, links).replace_tags(n.path, tags).replace_headings(
        n.path,
        headings,
    );
    assert(twice.links == a.replace_links(n.path, links).replace_links(n.path, links).links);
    assert(twice.tags == a.replace_tags(n.path, tags).replace_tags(n.path, tags).tags);
    assert(twice.headings == a.replace_headings(n.path, headings).replace_headings(
        n.path,
        headings,
    ).headings);
    assert(twice.notes == once.notes);
    assert(twice.settings == once.settings);
}

} // verus!
