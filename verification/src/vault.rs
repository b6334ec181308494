//! The notes of a vault as files: what belongs to the vault's listing, how a
//! note's text divides into front matter and body, and how the names of new
//! notes are formed.

use crate::sorting::{first_outranked, lex_less, stable_sort, text_less};
use crate::text::{
    find, first_occurrence, lowercase, matches_at, occurs_at, str_to_lowercase, string_from,
    string_push, to_chars, trim, trim_bounds,
};
use vstd::prelude::*;
use vstd::string::StringExecFns;

verus! {

/// A file or folder of the vault.
#[derive(Debug)]
pub struct VaultEntry {
    /// Relative path from the vault's root (e.g. "Projects/Synapse.md").
    pub path: String,
    /// The file name without extension.
    pub name: String,
    /// Whether this is a directory.
    pub is_dir: bool,
    /// File size in bytes (0 for directories).
    pub size: u64,
    /// Last modified timestamp (unix seconds).
    pub modified: i64,
    /// Created timestamp (unix seconds).
    pub created: i64,
}

/// The mathematical value of a [`VaultEntry`].
pub struct VaultEntryView {
    pub path: Seq<char>,
    pub name: Seq<char>,
    pub is_dir: bool,
    pub size: u64,
    pub modified: i64,
    pub created: i64,
}

impl View for VaultEntry {
    type V = VaultEntryView;

    open spec fn view(&self) -> VaultEntryView {
        VaultEntryView {
            path: self.path@,
            name: self.name@,
            is_dir: self.is_dir,
            size: self.size,
            modified: self.modified,
            created: self.created,
        }
    }
}

impl DeepView for VaultEntry {
    type V = VaultEntryView;

    open spec fn deep_view(&self) -> VaultEntryView {
        self@
    }
}

impl Clone for VaultEntry {
    fn clone(&self) -> (r: Self)
        ensures
            r@ == self@,
    {
        VaultEntry {
            path: self.path.clone(),
            name: self.name.clone(),
            is_dir: self.is_dir,
            size: self.size,
            modified: self.modified,
            created: self.created,
        }
    }
}

/// A value of a front-matter property that the index does not interpret.
#[derive(Debug)]
pub enum FrontmatterValue {
    Text(String),
    /// A number, as it was written.
    Number(String),
    Flag(bool),
    List(Vec<FrontmatterValue>),
}

/// The front matter of a note, parsed.
#[derive(Debug)]
pub struct Frontmatter {
    pub title: Option<String>,
    pub tags: Vec<String>,
    pub created: Option<String>,
    pub modified: Option<String>,
    pub aliases: Vec<String>,
    /// Properties of the user's own, in the order in which they stand.
    pub extra: Vec<(String, FrontmatterValue)>,
}

/// The mathematical value of a [`Frontmatter`]: the properties that the
/// index reads.
pub struct FrontmatterView {
    pub title: Option<Seq<char>>,
    pub tags: Seq<Seq<char>>,
    pub created: Option<Seq<char>>,
    pub modified: Option<Seq<char>>,
    pub aliases: Seq<Seq<char>>,
}

impl View for Frontmatter {
    type V = FrontmatterView;

    open spec fn view(&self) -> FrontmatterView {
        FrontmatterView {
            title: self.title.deep_view(),
            tags: self.tags.deep_view(),
            created: self.created.deep_view(),
            modified: self.modified.deep_view(),
            aliases: self.aliases.deep_view(),
        }
    }
}

impl DeepView for Frontmatter {
    type V = FrontmatterView;

    open spec fn deep_view(&self) -> FrontmatterView {
        self@
    }
}

impl Default for Frontmatter {
    fn default() -> (r: Self)
        ensures
            r.title is None,
            r.tags@.len() == 0,
            r.created is None,
            r.modified is None,
            r.aliases@.len() == 0,
            r.extra@.len() == 0,
    {
        Frontmatter {
            title: None,
            tags: Vec::new(),
            created: None,
            modified: None,
            aliases: Vec::new(),
            extra: Vec::new(),
        }
    }
}

/// The line that opens front matter.
pub open spec fn fence() -> Seq<char> {
    seq!['-', '-', '-']
}

/// What closes front matter: a line feed and a fence.
pub open spec fn closing_fence() -> Seq<char> {
    seq!['\n', '-', '-', '-']
}

/// Whether `s` begins with `p`.
pub open spec fn begins_with(s: Seq<char>, p: Seq<char>) -> bool {
    occurs_at(s, p, 0)
}

/// Whether `s` ends with `p`.
pub open spec fn ends_with(s: Seq<char>, p: Seq<char>) -> bool {
    occurs_at(s, p, s.len() - p.len())
}

/// Where, counted from behind the opening fence, the fence stands that
/// closes the front matter of `s`. A text has front matter if it begins
/// with a fence and a closing fence follows.
pub open spec fn frontmatter_close(s: Seq<char>) -> Option<int> {
    if begins_with(s, fence()) {
        first_occurrence(s.skip(3), closing_fence())
    } else {
        None
    }
}

/// The end of the run of line feeds that starts at `i`.
pub open spec fn newline_run_end(s: Seq<char>, i: int) -> int
    decreases s.len() - i,
{
    if 0 <= i < s.len() && s[i] == '\n' {
        newline_run_end(s, i + 1)
    } else {
        i
    }
}

/// Where the body of `s` starts: behind the closing fence and the line
/// feeds that follow it, or at the start where `s` has no front matter.
pub open spec fn body_start(s: Seq<char>) -> int {
    match frontmatter_close(s) {
        Some(i) => newline_run_end(s, 3 + i + 4),
        None => 0,
    }
}

/// The body of a note: its text without front matter.
pub open spec fn strip_frontmatter(s: Seq<char>) -> Seq<char> {
    s.skip(body_start(s))
}

/// The text between the fences of the front matter of `s`, if `s` has
/// front matter.
pub open spec fn frontmatter_block(s: Seq<char>) -> Option<Seq<char>> {
    match frontmatter_close(s) {
        Some(i) => Some(s.subrange(3, 3 + i)),
        None => None,
    }
}

/// Where the fence stands that closes the front matter of `text`, counted
/// from behind the opening fence.
pub(crate) fn find_frontmatter_close(text: &Vec<char>) -> (r: Option<usize>)
    ensures
        match r {
            Some(i) => frontmatter_close(text@) == Some(i as int) && 3 + i + 4 <= text.len(),
            None => frontmatter_close(text@) is None,
        },
{
    let open = vec!['-', '-', '-'];
    let close = vec!['\n', '-', '-', '-'];
    assert(open@ =~= fence());
    assert(close@ =~= closing_fence());
    assert(text@.subrange(0, text.len() as int) =~= text@);
    if !matches_at(text, 0, text.len(), &open, 0) {
        return None;
    }
    assert(text@.subrange(3, text.len() as int) =~= text@.skip(3));
    find(text, 3, text.len(), &close)
}

/// Where the body of `text` starts.
pub(crate) fn find_body_start(text: &Vec<char>) -> (r: usize)
    ensures
        r == body_start(text@),
        r <= text.len(),
{
    match find_frontmatter_close(text) {
        Some(i) => {
            let mut j: usize = 3 + i + 4;
            while j < text.len() && text[j] == '\n'
                invariant
                    3 + i + 4 <= j <= text.len(),
                    newline_run_end(text@, j as int) == newline_run_end(text@, 3 + i + 4),
                decreases text.len() - j,
            {
                j += 1;
            }
            j
        },
        None => 0,
    }
}

/// The last position of `c` in `s`, or -1.
pub open spec fn last_index_of(s: Seq<char>, c: char) -> int
    decreases s.len(),
{
    if s.len() == 0 {
        -1
    } else if s.last() == c {
        s.len() - 1
    } else {
        last_index_of(s.drop_last(), c)
    }
}

/// Where the file name of a path ends: behind its last component, with
/// slashes at the end of the path and components that are a single dot
/// passed over; 0 where no component is left.
pub open spec fn name_end(path: Seq<char>) -> int
    decreases path.len(),
{
    if path.len() == 0 {
        0
    } else if path.last() == '/' {
        name_end(path.drop_last())
    } else {
        let start = last_index_of(path, '/') + 1;
        if 0 <= start < path.len() && path.skip(start) == seq!['.'] {
            name_end(path.take(start))
        } else {
            path.len() as int
        }
    }
}

/// Where the file name of a path starts: behind the last `/` before its
/// end.
pub open spec fn name_start(path: Seq<char>) -> int {
    last_index_of(path.take(name_end(path)), '/') + 1
}

/// The file name of a path: its last component, slashes at the end and
/// single dots passed over. A path that ends in the component `..` has
/// none, and neither has a path without components.
pub open spec fn file_name(path: Seq<char>) -> Seq<char> {
    let name = path.subrange(name_start(path), name_end(path));
    if name == seq!['.', '.'] {
        Seq::empty()
    } else {
        name
    }
}

/// The file name of a path without its extension. The extension begins at
/// the last `.` of the name, unless the name begins with that `.`.
pub open spec fn file_stem(path: Seq<char>) -> Seq<char> {
    let name = file_name(path);
    let dot = last_index_of(name, '.');
    if dot > 0 {
        name.take(dot)
    } else {
        name
    }
}

/// The last position of a character lies within the text and holds the
/// character, and the character stands nowhere behind it.
pub proof fn lemma_last_index_of_bounds(s: Seq<char>, c: char)
    ensures
        -1 <= last_index_of(s, c) < s.len(),
        last_index_of(s, c) >= 0 ==> s[last_index_of(s, c)] == c,
        forall|i: int| last_index_of(s, c) < i < s.len() ==> s[i] != c,
    decreases s.len(),
{
    if s.len() > 0 && s.last() != c {
        lemma_last_index_of_bounds(s.drop_last(), c);
        assert forall|i: int| last_index_of(s, c) < i < s.len() implies s[i] != c by {
            if i < s.len() - 1 {
                assert(s[i] == s.drop_last()[i]);
            }
        }
    }
}

/// The file name lies within the path.
pub proof fn lemma_name_bounds(path: Seq<char>)
    ensures
        0 <= name_start(path) <= name_end(path) <= path.len(),
    decreases path.len(),
{
    lemma_name_end_bounds(path);
    lemma_last_index_of_bounds(path.take(name_end(path)), '/');
}

/// The end of the file name lies within the path.
pub proof fn lemma_name_end_bounds(path: Seq<char>)
    ensures
        0 <= name_end(path) <= path.len(),
    decreases path.len(),
{
    if path.len() == 0 {
    } else if path.last() == '/' {
        lemma_name_end_bounds(path.drop_last());
    } else {
        let start = last_index_of(path, '/') + 1;
        if 0 <= start < path.len() && path.skip(start) == seq!['.'] {
            lemma_name_end_bounds(path.take(start));
        }
    }
}

/// One past the last position of `c` in `v[from..to]`, counted from `from`;
/// 0 if it does not occur.
fn find_last(v: &Vec<char>, from: usize, to: usize, c: char) -> (r: usize)
    requires
        from <= to <= v.len(),
    ensures
        r == last_index_of(v@.subrange(from as int, to as int), c) + 1,
        r <= to - from,
{
    let mut i: usize = to;
    while i > from && v[i - 1] != c
        invariant
            from <= i <= to <= v.len(),
            last_index_of(v@.subrange(from as int, to as int), c) == last_index_of(
                v@.subrange(from as int, i as int),
                c,
            ),
        decreases i,
    {
        assert(v@.subrange(from as int, i as int).drop_last() =~= v@.subrange(
            from as int,
            i as int - 1,
        ));
        i -= 1;
    }
    i - from
}

/// The bounds of the last component of `path` that is no single dot.
fn name_bounds(path: &Vec<char>) -> (r: (usize, usize))
    ensures
        r.0 == name_start(path@),
        r.1 == name_end(path@),
        r.0 <= r.1 <= path.len(),
{
    let mut end: usize = path.len();
    assert(path@.take(end as int) =~= path@);
    loop
        invariant
            end <= path.len(),
            name_end(path@) == name_end(path@.take(end as int)),
        decreases end,
    {
        let ghost head = path@.take(end as int);
        if end == 0 {
            proof {
                lemma_last_index_of_bounds(path@.take(0), '/');
            }
            return (0, 0);
        }
        if path[end - 1] == '/' {
            assert(head.drop_last() =~= path@.take(end as int - 1));
            end -= 1;
        } else {
            assert(path@.subrange(0, end as int) =~= head);
            let start = find_last(path, 0, end, '/');
            if end - start == 1 && path[start] == '.' {
                assert(head.skip(start as int) =~= seq!['.']);
                assert(head.take(start as int) =~= path@.take(start as int));
                end = start;
            } else {
                proof {
                    if head.skip(start as int) == seq!['.'] {
                        assert(head.skip(start as int).len() == 1);
                        assert(head.skip(start as int)[0] == '.');
                    }
                    assert(name_end(head) == end);
                    assert(path@.take(name_end(path@)) == head);
                }
                return (start, end);
            }
        }
    }
}

/// The parts of the file name of `path`: where it starts, where its stem
/// ends and where it ends.
fn name_parts(path: &Vec<char>) -> (r: (usize, usize, usize))
    ensures
        r.0 <= r.1 <= r.2 <= path.len(),
        r.0 == name_start(path@),
        path@.subrange(r.0 as int, r.2 as int) == file_name(path@),
        path@.subrange(r.0 as int, r.1 as int) == file_stem(path@),
{
    let (start, end) = name_bounds(path);
    let ghost name = path@.subrange(start as int, end as int);
    if end - start == 2 && path[start] == '.' && path[start + 1] == '.' {
        assert(name =~= seq!['.', '.']);
        assert(path@.subrange(start as int, start as int) =~= Seq::<char>::empty());
        proof {
            assert(last_index_of(Seq::<char>::empty(), '.') == -1);
        }
        return (start, start, start);
    }
    proof {
        if name == seq!['.', '.'] {
            assert(name.len() == 2);
            assert(name[0] == '.' && name[1] == '.');
        }
        assert(file_name(path@) == name);
    }
    let dot = find_last(path, start, end, '.');
    if dot > 1 {
        assert(path@.subrange(start as int, start + dot - 1) =~= name.take(dot - 1));
        (start, start + dot - 1, end)
    } else {
        (start, end, end)
    }
}

/// The bounds of the file stem of `path` within it.
pub(crate) fn file_stem_bounds(path: &Vec<char>) -> (r: (usize, usize))
    ensures
        r.0 <= r.1 <= path.len(),
        path@.subrange(r.0 as int, r.1 as int) == file_stem(path@),
{
    let (start, stem_end, _end) = name_parts(path);
    (start, stem_end)
}

/// Whether `c` may not stand in a file name and is replaced.
pub open spec fn is_reserved(c: char) -> bool {
    c == '/' || c == '\\' || c == ':' || c == '*' || c == '?' || c == '"' || c == '<' || c == '>'
        || c == '|'
}

/// `c`, or `_` in place of a reserved character.
pub open spec fn safe_char(c: char) -> char {
    if is_reserved(c) {
        '_'
    } else {
        c
    }
}

/// A title made fit for a file name: every reserved character becomes `_`,
/// and the result is trimmed.
pub open spec fn sanitized(name: Seq<char>) -> Seq<char> {
    trim(name.map_values(|c: char| safe_char(c)))
}

/// The extension of a note.
pub open spec fn note_extension() -> Seq<char> {
    seq!['.', 'm', 'd']
}

/// Whether an entry is a note: a file whose path ends in `.md`.
pub open spec fn is_note(e: VaultEntryView) -> bool {
    !e.is_dir && ends_with(e.path, note_extension())
}

/// The relative path of a new note with the given title in a folder; the
/// vault's root is the empty folder.
pub open spec fn note_path(dir: Seq<char>, title: Seq<char>) -> Seq<char> {
    if dir.len() == 0 {
        sanitized(title) + note_extension()
    } else {
        dir + seq!['/'] + sanitized(title) + note_extension()
    }
}

/// The order of the vault's listing: folders before files, and among
/// each the paths in alphabetical order, whatever their case.
pub open spec fn listed_before() -> spec_fn(VaultEntryView, VaultEntryView) -> bool {
    |a: VaultEntryView, b: VaultEntryView|
        (a.is_dir && !b.is_dir) || (a.is_dir == b.is_dir && lex_less(
            lowercase(a.path),
            lowercase(b.path),
        ))
}

/// The entry of the listing for a file or folder with the given path and
/// metadata: named by its file stem, and of size 0 if it is a folder.
pub open spec fn entry_for(
    path: Seq<char>,
    is_dir: bool,
    len: u64,
    modified: i64,
    created: i64,
) -> VaultEntryView {
    VaultEntryView {
        path,
        name: file_stem(path),
        is_dir,
        size: if is_dir {
            0
        } else {
            len
        },
        modified,
        created,
    }
}

/// The path of the copy of a file with the given number: in the same
/// folder, the file stem, a space and the number, and the extension.
pub open spec fn duplicate_path(path: Seq<char>, number: Seq<char>) -> Seq<char> {
    path.take(name_start(path)) + file_stem(path) + seq![' '] + number + file_name(path).skip(
        file_stem(path).len() as int,
    )
}

/// The text of a new note: front matter with the title, `date` as the day
/// of creation and of modification and no tags, and an empty body.
pub open spec fn new_note_text(title: Seq<char>, date: Seq<char>) -> Seq<char> {
    "---\ntitle: "@ + title + "\ncreated: "@ + date + "\nmodified: "@ + date
        + "\ntags: []\n---\n\n"@
}

/// The text of the note that welcomes the user of a new vault.
pub open spec fn welcome_note(date: Seq<char>) -> Seq<char> {
    "---\ntitle: Welcome to Synapse\ncreated: "@ + date + "\nmodified: "@ + date + WELCOME_BODY@
}

/// What follows the dates in the welcome note.
pub const WELCOME_BODY: &'static str =
    "\ntags:\n  - getting-started\n---\n\n# Welcome to Synapse\n\nThis is your first note! Here are some things you can do:\n\n- **Create new notes** \u{2014} Cmd+N\n- **Link notes** \u{2014} Type `[[` to create a wikilink\n- **Search** \u{2014} Cmd+O to quickly open any note\n- **Command palette** \u{2014} Cmd+P for all commands\n- **Graph view** \u{2014} Cmd+G to see your knowledge graph\n\nStart writing and connecting your ideas!\n";

/// The file name of the welcome note.
pub const WELCOME_NOTE_NAME: &'static str = "Welcome to Synapse.md";

/// The folder of a vault that holds its cache.
pub const CACHE_DIR_NAME: &'static str = ".synapse";

/// The file of the cache within its folder.
pub const CACHE_FILE_NAME: &'static str = "cache.db";

/// A path with one more component: `base`, a `/` unless `base` is empty
/// or ends in one, and `name`. Paths are written with `/`.
pub open spec fn joined(base: Seq<char>, name: Seq<char>) -> Seq<char> {
    if base.len() == 0 || base.last() == '/' {
        base + name
    } else {
        base + seq!['/'] + name
    }
}

/// The path of the cache folder of the vault at `vault_path`.
pub open spec fn cache_dir(vault_path: Seq<char>) -> Seq<char> {
    joined(vault_path, CACHE_DIR_NAME@)
}

/// The path of the cache file of the vault at `vault_path`.
pub open spec fn db_path(vault_path: Seq<char>) -> Seq<char> {
    joined(cache_dir(vault_path), CACHE_FILE_NAME@)
}

/// The unit type that carries the vault's operations.
pub struct Vault;

impl Vault {
    /// The text of a note without its front matter: the text itself unless
    /// it begins with `---` and a later line begins with `---`; else what
    /// follows that second fence and the line feeds behind it.
    pub fn strip_frontmatter(content: &str) -> (body: String)
        ensures
            body@ == strip_frontmatter(content@),
    {
        let text = to_chars(content);
        let start = find_body_start(&text);
        assert(text@.subrange(start as int, text.len() as int) =~= text@.skip(start as int));
        string_from(&text, start, text.len())
    }

    /// The text between the fences of a note's front matter, if the note
    /// has front matter.
    pub fn frontmatter_block(content: &str) -> (block: Option<String>)
        ensures
            match block {
                Some(b) => frontmatter_block(content@) == Some(b@),
                None => frontmatter_block(content@) is None,
            },
    {
        let text = to_chars(content);
        match find_frontmatter_close(&text) {
            Some(i) => Some(string_from(&text, 3, 3 + i)),
            None => None,
        }
    }

    /// Whether `path` names a note: it ends in `.md`.
    pub fn is_note_path(path: &str) -> (r: bool)
        ensures
            r == ends_with(path@, note_extension()),
    {
        let text = to_chars(path);
        let ext = vec!['.', 'm', 'd'];
        assert(ext@ =~= note_extension());
        let len = text.len();
        assert(text@.subrange(0, len as int) =~= text@);
        if len < 3 {
            return false;
        }
        matches_at(&text, 0, len, &ext, len - 3)
    }

    /// The notes among the entries of a vault, in their order.
    pub fn list_notes(entries: &Vec<VaultEntry>) -> (notes: Vec<VaultEntry>)
        ensures
            notes.deep_view() == entries.deep_view().filter(|e: VaultEntryView| is_note(e)),
    {
        let mut notes: Vec<VaultEntry> = Vec::new();
        let mut i: usize = 0;
        let ghost keep = |e: VaultEntryView| is_note(e);
        assert(entries.deep_view().take(0) =~= Seq::<VaultEntryView>::empty());
        assert(notes.deep_view() =~= Seq::<VaultEntryView>::empty());
        proof {
            reveal(Seq::filter);
        }
        while i < entries.len()
            invariant
                i <= entries.len(),
                keep == |e: VaultEntryView| is_note(e),
                notes.deep_view() == entries.deep_view().take(i as int).filter(keep),
            decreases entries.len() - i,
        {
            let e = &entries[i];
            let ghost before = notes.deep_view();
            proof {
                reveal(Seq::filter);
                assert(entries.deep_view().take(i as int + 1).drop_last()
                    =~= entries.deep_view().take(i as int));
                assert(entries.deep_view().take(i as int + 1).last() == e@);
            }
            if !e.is_dir && Vault::is_note_path(e.path.as_str()) {
                notes.push(e.clone());
                assert(notes.deep_view() =~= before.push(e@));
            }
            i += 1;
        }
        assert(entries.deep_view().take(i as int) =~= entries.deep_view());
        notes
    }

    /// The file name of `path` without its extension.
    pub fn file_stem(path: &str) -> (stem: String)
        ensures
            stem@ == file_stem(path@),
    {
        let text = to_chars(path);
        let (a, b) = file_stem_bounds(&text);
        string_from(&text, a, b)
    }

    /// Whether an entry with this file name is hidden from the vault's
    /// listing, together with all that lies below it: its name begins with
    /// a dot.
    pub fn is_hidden_name(name: &str) -> (r: bool)
        ensures
            r == (name@.len() > 0 && name@[0] == '.'),
    {
        let text = to_chars(name);
        text.len() > 0 && text[0] == '.'
    }

    /// The `.synapse` cache folder inside the vault.
    pub fn cache_dir(vault_path: &str) -> (dir: String)
        ensures
            dir@ == cache_dir(vault_path@),
    {
        join_path(vault_path, CACHE_DIR_NAME)
    }

    /// The path of the cache file of the vault.
    pub fn db_path(vault_path: &str) -> (path: String)
        ensures
            path@ == db_path(vault_path@),
    {
        let dir = Vault::cache_dir(vault_path);
        join_path(dir.as_str(), CACHE_FILE_NAME)
    }

    /// The entry of the listing for a file or folder.
    pub fn entry(relative_path: &str, is_dir: bool, len: u64, modified: i64, created: i64) -> (e:
        VaultEntry)
        ensures
            e@ == entry_for(relative_path@, is_dir, len, modified, created),
    {
        VaultEntry {
            path: String::from_str(relative_path),
            name: Vault::file_stem(relative_path),
            is_dir,
            size: if is_dir {
                0
            } else {
                len
            },
            modified,
            created,
        }
    }

    /// The entries in the order of the listing: folders first, then
    /// alphabetical.
    pub fn sort_entries(entries: &Vec<VaultEntry>) -> (out: Vec<VaultEntry>)
        ensures
            out.deep_view() == stable_sort(entries.deep_view(), listed_before()),
    {
        let mut out: Vec<VaultEntry> = Vec::new();
        let mut keys: Vec<Vec<char>> = Vec::new();
        let mut i: usize = 0;
        let ghost all = entries.deep_view();
        proof {
            assert(all.take(0) =~= Seq::<VaultEntryView>::empty());
            assert(out.deep_view() =~= Seq::<VaultEntryView>::empty());
        }
        while i < entries.len()
            invariant
                i <= entries.len(),
                all == entries.deep_view(),
                keys.len() == out.len(),
                forall|j: int|
                    0 <= j < out.len() ==> (#[trigger] keys[j])@ == lowercase(out.deep_view()[j].path),
                out.deep_view() == stable_sort(all.take(i as int), listed_before()),
            decreases entries.len() - i,
        {
            let x = entries[i].clone();
            let lower = str_to_lowercase(x.path.as_str());
            let key = to_chars(lower.as_str());
            let ghost sorted = out.deep_view();
            let ghost old_keys = keys@;
            let mut p: usize = 0;
            assert(sorted.skip(0) =~= sorted);
            while p < out.len() && !((x.is_dir && !out[p].is_dir) || (x.is_dir == out[p].is_dir
                && text_less(&key, &keys[p])))
                invariant
                    p <= out.len(),
                    keys.len() == out.len(),
                    keys@ == old_keys,
                    sorted == out.deep_view(),
                    key@ == lowercase(x@.path),
                    forall|j: int|
                        0 <= j < out.len() ==> (#[trigger] keys[j])@ == lowercase(sorted[j].path),
                    first_outranked(sorted, x@, listed_before()) == p + first_outranked(
                        sorted.skip(p as int),
                        x@,
                        listed_before(),
                    ),
                decreases out.len() - p,
            {
                assert(sorted.skip(p as int).drop_first() =~= sorted.skip(p as int + 1));
                assert(sorted.skip(p as int)[0] == sorted[p as int]);
                assert(keys[p as int]@ == lowercase(sorted[p as int].path));
                p += 1;
            }
            proof {
                if p < out.len() {
                    assert(sorted.skip(p as int)[0] == sorted[p as int]);
                    assert(keys[p as int]@ == lowercase(sorted[p as int].path));
                }
            }
            out.insert(p, x);
            keys.insert(p, key);
            proof {
                assert(out.deep_view() =~= sorted.insert(p as int, all[i as int]));
                assert(all.take(i as int + 1).drop_last() =~= all.take(i as int));
                assert(all.take(i as int + 1).last() == all[i as int]);
                assert forall|j: int| 0 <= j < out.len() implies (#[trigger] keys[j])@ == lowercase(
                    out.deep_view()[j].path,
                ) by {
                    if j < p {
                        assert(keys[j] == old_keys[j]);
                        assert(out.deep_view()[j] == sorted[j]);
                    } else if j > p {
                        assert(keys[j] == old_keys[j - 1]);
                        assert(out.deep_view()[j] == sorted[j - 1]);
                    }
                }
            }
            i += 1;
        }
        assert(all.take(i as int) =~= all);
        out
    }

    /// The relative path of the copy of a file with the given number, as
    /// it is written in decimal notation.
    pub fn duplicate_path(relative_path: &str, number: &str) -> (path: String)
        ensures
            path@ == duplicate_path(relative_path@, number@),
    {
        let text = to_chars(relative_path);
        let (start, stem_end, end) = name_parts(&text);
        let mut path = string_from(&text, 0, stem_end);
        string_push(&mut path, ' ');
        path.append(number);
        let ext = string_from(&text, stem_end, end);
        path.append(ext.as_str());
        proof {
            let name = file_name(text@);
            let stem = file_stem(text@);
            assert(text@.subrange(0, stem_end as int) =~= text@.take(start as int) + stem);
            assert(text@.subrange(stem_end as int, end as int) =~= name.skip(stem.len() as int));
            assert(path@ =~= duplicate_path(relative_path@, number@));
        }
        path
    }

    /// The text of a new note with the given title, created on `date`.
    pub fn new_note_text(title: &str, date: &str) -> (text: String)
        ensures
            text@ == new_note_text(title@, date@),
    {
        let mut text = String::new();
        text.append("---\ntitle: ");
        text.append(title);
        text.append("\ncreated: ");
        text.append(date);
        text.append("\nmodified: ");
        text.append(date);
        text.append("\ntags: []\n---\n\n");
        assert(text@ =~= new_note_text(title@, date@));
        text
    }

    /// The text of the welcome note of a vault created on `date`.
    pub fn welcome_note(date: &str) -> (text: String)
        ensures
            text@ == welcome_note(date@),
    {
        let mut text = String::new();
        text.append("---\ntitle: Welcome to Synapse\ncreated: ");
        text.append(date);
        text.append("\nmodified: ");
        text.append(date);
        text.append(WELCOME_BODY);
        assert(text@ =~= welcome_note(date@));
        text
    }

    /// The relative path of a new note with the given title in a folder.
    pub fn note_path(relative_dir: &str, title: &str) -> (path: String)
        ensures
            path@ == note_path(relative_dir@, title@),
    {
        let safe = sanitize_filename(title);
        let mut path = String::new();
        if relative_dir.unicode_len() > 0 {
            path.append(relative_dir);
            string_push(&mut path, '/');
            assert(path@ =~= relative_dir@ + seq!['/']);
        } else {
            assert(relative_dir@ =~= Seq::<char>::empty());
        }
        path.append(safe.as_str());
        string_push(&mut path, '.');
        string_push(&mut path, 'm');
        string_push(&mut path, 'd');
        assert(path@ =~= note_path(relative_dir@, title@));
        path
    }
}

/// `base` with the component `name` behind it.
fn join_path(base: &str, name: &str) -> (path: String)
    ensures
        path@ == joined(base@, name@),
{
    let text = to_chars(base);
    let mut path = String::from_str(base);
    if text.len() > 0 && text[text.len() - 1] != '/' {
        string_push(&mut path, '/');
    }
    path.append(name);
    assert(path@ =~= joined(base@, name@));
    path
}

/// Makes a title fit for a file name.
pub fn sanitize_filename(name: &str) -> (safe: String)
    ensures
        safe@ == sanitized(name@),
{
    let text = to_chars(name);
    let mut mapped: Vec<char> = Vec::new();
    let mut i: usize = 0;
    while i < text.len()
        invariant
            i <= text.len(),
            mapped@ == text@.take(i as int).map_values(|c: char| safe_char(c)),
        decreases text.len() - i,
    {
        let c = text[i];
        let d = if c == '/' || c == '\\' || c == ':' || c == '*' || c == '?' || c == '"' || c == '<'
            || c == '>' || c == '|' {
            '_'
        } else {
            c
        };
        mapped.push(d);
        i += 1;
        assert(mapped@ =~= text@.take(i as int).map_values(|c: char| safe_char(c)));
    }
    assert(text@.take(i as int) =~= text@);
    let (a, b) = trim_bounds(&mapped, 0, mapped.len());
    assert(mapped@.subrange(0, mapped.len() as int) =~= mapped@);
    string_from(&mapped, a, b)
}

} // verus!
