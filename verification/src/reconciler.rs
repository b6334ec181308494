//! Keeping the cache in step with the vault: the reindexing of one note
//! after it was written, and the sweep over all notes that also drops what
//! has vanished from the disk.

use crate::database::{
    lemma_replace_rows, lemma_retain_notes, lemma_toggle_star, lemma_upsert_note,
    lemma_write_twice, CachedNote, CachedNoteView, Database, DatabaseView, IndexError,
};
use crate::indexer::{headings, index_note, infer_title, note_index, resolve_title, words};
use crate::vault::{strip_frontmatter, Frontmatter, FrontmatterView};
use vstd::prelude::*;
use vstd::string::StringExecFns;

verus! {

/// What was read of a note: its text, and its front matter parsed.
#[derive(Debug)]
pub struct NoteSource {
    pub content: String,
    pub frontmatter: Frontmatter,
}

/// The mathematical value of a [`NoteSource`].
pub struct NoteSourceView {
    pub content: Seq<char>,
    pub frontmatter: FrontmatterView,
}

impl View for NoteSource {
    type V = NoteSourceView;

    open spec fn view(&self) -> NoteSourceView {
        NoteSourceView { content: self.content@, frontmatter: self.frontmatter@ }
    }
}

impl DeepView for NoteSource {
    type V = NoteSourceView;

    open spec fn deep_view(&self) -> NoteSourceView {
        self@
    }
}

/// A note as the sweep finds it on disk: its path, and what was read of it;
/// nothing where the file could not be read.
#[derive(Debug)]
pub struct NoteFile {
    pub path: String,
    pub source: Option<NoteSource>,
}

/// The mathematical value of a [`NoteFile`].
pub struct NoteFileView {
    pub path: Seq<char>,
    pub source: Option<NoteSourceView>,
}

impl View for NoteFile {
    type V = NoteFileView;

    open spec fn view(&self) -> NoteFileView {
        NoteFileView { path: self.path@, source: self.source.deep_view() }
    }
}

impl DeepView for NoteFile {
    type V = NoteFileView;

    open spec fn deep_view(&self) -> NoteFileView {
        self@
    }
}

/// A word count as the cache stores it: the count itself, or the largest
/// number that the cache can hold where the count is larger.
pub open spec fn stored_word_count(words: int) -> i64 {
    if words > i64::MAX {
        i64::MAX
    } else {
        words as i64
    }
}

/// The row that indexing writes for a note: the title of the front matter,
/// else the first heading of the body, else the file name; the times of the
/// front matter; the words of the body; no star.
pub open spec fn cached_note_for(
    path: Seq<char>,
    content: Seq<char>,
    frontmatter: FrontmatterView,
) -> CachedNoteView {
    let body = strip_frontmatter(content);
    CachedNoteView {
        path,
        title: resolve_title(path, headings(body), frontmatter.title),
        created_at: frontmatter.created,
        modified_at: frontmatter.modified,
        word_count: stored_word_count(words(body) as int),
        starred: false,
    }
}

/// The cache after the note `path` with the given text and front matter
/// was indexed: its row written, then its links, tags and headings
/// replaced.
pub open spec fn indexed(
    db: DatabaseView,
    path: Seq<char>,
    content: Seq<char>,
    frontmatter: FrontmatterView,
) -> DatabaseView {
    let index = note_index(path, content, frontmatter.tags);
    db.upsert_note(cached_note_for(path, content, frontmatter)).replace_links(
        path,
        index.outgoing_links,
    ).replace_tags(path, index.tags).replace_headings(path, index.headings)
}

/// The cache after the first `n` of `files` were indexed in their order;
/// a file that could not be read changes nothing.
pub open spec fn indexed_all(db: DatabaseView, files: Seq<NoteFileView>, n: int) -> DatabaseView
    decreases n,
{
    if n <= 0 {
        db
    } else {
        let before = indexed_all(db, files, n - 1);
        match files[n - 1].source {
            Some(source) => indexed(before, files[n - 1].path, source.content, source.frontmatter),
            None => before,
        }
    }
}

/// The paths of `files`.
pub open spec fn paths_of(files: Seq<NoteFileView>) -> Seq<Seq<char>> {
    files.map_values(|f: NoteFileView| f.path)
}

/// The cache after a sweep over `files`: every file that could be read is
/// indexed, and then every note is dropped whose path is not among those of
/// the files.
pub open spec fn reindexed(db: DatabaseView, files: Seq<NoteFileView>) -> DatabaseView {
    indexed_all(db, files, files.len() as int).retain_notes(paths_of(files))
}

/// Whether one of `files` has the path `path`.
pub open spec fn is_listed(files: Seq<NoteFileView>, path: Seq<char>) -> bool {
    exists|k: int| 0 <= k < files.len() && #[trigger] files[k].path == path
}

/// Whether one of the first `n` of `files` has the path `path` and could
/// be read.
pub open spec fn is_readable(files: Seq<NoteFileView>, n: int, path: Seq<char>) -> bool {
    exists|k: int| 0 <= k < n && k < files.len() && #[trigger] files[k].path == path && files[k].source is Some
}

/// Indexing a note keeps the cache consistent and adds nothing but the
/// note's path. A note that the cache held keeps its star and its creation
/// time; every other note stays as it was.
pub proof fn lemma_indexed(
    db: DatabaseView,
    path: Seq<char>,
    content: Seq<char>,
    frontmatter: FrontmatterView,
)
    requires
        db.wf(),
    ensures
        indexed(db, path, content, frontmatter).wf(),
        forall|p: Seq<char>| #[trigger]
            indexed(db, path, content, frontmatter).has_note(p) <==> db.has_note(p) || p == path,
        indexed(db, path, content, frontmatter).note(path) is Some,
        db.has_note(path) ==> indexed(db, path, content, frontmatter).note(path)->0.starred
            == db.note(path)->0.starred,
        db.has_note(path) ==> indexed(db, path, content, frontmatter).note(path)->0.created_at
            == db.note(path)->0.created_at,
        forall|p: Seq<char>|
            p != path ==> #[trigger] indexed(db, path, content, frontmatter).note(p) == db.note(p),
{
    let index = note_index(path, content, frontmatter.tags);
    let row = cached_note_for(path, content, frontmatter);
    let a = db.upsert_note(row);
    lemma_upsert_note(db, row);
    assert(a.has_note(path));
    let b = a.replace_links(path, index.outgoing_links);
    lemma_replace_rows(a, path, index.outgoing_links, index.headings);
    assert(b.notes == a.notes);
    let c = b.replace_tags(path, index.tags);
    lemma_replace_rows(b, path, index.tags, index.headings);
    assert(c.notes == a.notes);
    let d = c.replace_headings(path, index.headings);
    lemma_replace_rows(c, path, index.tags, index.headings);
    assert(d.notes == a.notes);
    assert(d == indexed(db, path, content, frontmatter));
    assert forall|p: Seq<char>| #[trigger] d.has_note(p) <==> db.has_note(p) || p == path by {
        assert(d.has_note(p) == a.has_note(p));
    }
    assert(d.note(path) == a.note(path));
    assert forall|p: Seq<char>| p != path implies #[trigger] d.note(p) == db.note(p) by {
        assert(d.note(p) == a.note(p));
    }
}

/// A star that was switched is not switched back when the note is indexed
/// again: after `toggle_star` and a reindex of the same note, the star is the
/// opposite of what it was.
pub proof fn lemma_star_survives_reindex(
    db: DatabaseView,
    path: Seq<char>,
    content: Seq<char>,
    frontmatter: FrontmatterView,
)
    requires
        db.wf(),
        db.has_note(path),
    ensures
        indexed(db.toggle_star(path), path, content, frontmatter).note(path) is Some,
        indexed(db.toggle_star(path), path, content, frontmatter).note(path)->0.starred
            == !db.note(path)->0.starred,
{
    lemma_toggle_star(db, path);
    lemma_indexed(db.toggle_star(path), path, content, frontmatter);
}

/// Indexing is idempotent: a note that is indexed again with the same text
/// and front matter leaves the cache as it is.
pub proof fn lemma_indexed_twice(
    db: DatabaseView,
    path: Seq<char>,
    content: Seq<char>,
    frontmatter: FrontmatterView,
)
    requires
        db.wf(),
    ensures
        indexed(indexed(db, path, content, frontmatter), path, content, frontmatter) == indexed(
            db,
            path,
            content,
            frontmatter,
        ),
{
    let index = note_index(path, content, frontmatter.tags);
    lemma_write_twice(
        db,
        cached_note_for(path, content, frontmatter),
        index.outgoing_links,
        index.tags,
        index.headings,
    );
}

/// Indexing files keeps the cache consistent; afterwards it holds the
/// notes that it held and those of the files that could be read.
pub proof fn lemma_indexed_all(db: DatabaseView, files: Seq<NoteFileView>, n: int)
    requires
        db.wf(),
        0 <= n <= files.len(),
    ensures
        indexed_all(db, files, n).wf(),
        forall|p: Seq<char>| #[trigger]
            indexed_all(db, files, n).has_note(p) <==> db.has_note(p) || is_readable(files, n, p),
    decreases n,
{
    if n > 0 {
        let before = indexed_all(db, files, n - 1);
        let after = indexed_all(db, files, n);
        lemma_indexed_all(db, files, n - 1);
        let f = files[n - 1];
        if f.source is Some {
            lemma_indexed(before, f.path, f.source->0.content, f.source->0.frontmatter);
        }
        assert forall|p: Seq<char>| #[trigger] after.has_note(p) <==> db.has_note(p) || is_readable(
            files,
            n,
            p,
        ) by {
            if is_readable(files, n - 1, p) {
                let k = choose|k: int|
                    0 <= k < n - 1 && k < files.len() && #[trigger] files[k].path == p
                        && files[k].source is Some;
                assert(files[k].path == p);
                assert(is_readable(files, n, p));
            }
            if is_readable(files, n, p) {
                let k = choose|k: int|
                    0 <= k < n && k < files.len() && #[trigger] files[k].path == p
                        && files[k].source is Some;
                if k < n - 1 {
                    assert(files[k].path == p);
                    assert(is_readable(files, n - 1, p));
                }
            }
            if f.source is Some && p == f.path {
                assert(files[n - 1].path == p);
                assert(is_readable(files, n, p));
            }
        }
    }
}

/// After a sweep the cache mirrors the disk: it is consistent, it holds no
/// note whose path is not on disk, and it holds every note that could be
/// read. A note on disk that could not be read is held exactly if it was
/// held before.
pub proof fn lemma_reindex_mirrors_disk(db: DatabaseView, files: Seq<NoteFileView>)
    requires
        db.wf(),
    ensures
        reindexed(db, files).wf(),
        forall|p: Seq<char>| #[trigger]
            reindexed(db, files).has_note(p) <==> is_listed(files, p) && (db.has_note(p)
                || is_readable(files, files.len() as int, p)),
        forall|k: int|
            0 <= k < files.len() && (#[trigger] files[k]).source is Some ==> reindexed(
                db,
                files,
            ).has_note(files[k].path),
{
    let n = files.len() as int;
    let swept = indexed_all(db, files, n);
    let keep = paths_of(files);
    lemma_indexed_all(db, files, n);
    lemma_retain_notes(swept, keep);
    assert forall|p: Seq<char>| keep.contains(p) <==> is_listed(files, p) by {
        if keep.contains(p) {
            let k = choose|k: int| 0 <= k < keep.len() && keep[k] == p;
            assert(files[k].path == p);
        }
        if is_listed(files, p) {
            let k = choose|k: int| 0 <= k < files.len() && #[trigger] files[k].path == p;
            assert(keep[k] == p);
        }
    }
    assert forall|p: Seq<char>| #[trigger] reindexed(db, files).has_note(p) <==> is_listed(files, p)
        && (db.has_note(p) || is_readable(files, n, p)) by {
        assert(reindexed(db, files).has_note(p) <==> swept.has_note(p) && keep.contains(p));
    }
    assert forall|k: int| 0 <= k < files.len() && (#[trigger] files[k]).source is Some implies reindexed(
        db,
        files,
    ).has_note(files[k].path) by {
        let p = files[k].path;
        assert(files[k].path == p);
        assert(is_readable(files, n, p));
        assert(is_listed(files, p));
        assert(reindexed(db, files).has_note(p));
    }
}

/// Where every file could be read, the paths of the cache after a sweep
/// are exactly the paths on disk.
pub proof fn lemma_reindex_equals_disk(db: DatabaseView, files: Seq<NoteFileView>)
    requires
        db.wf(),
        forall|k: int| 0 <= k < files.len() ==> (#[trigger] files[k]).source is Some,
    ensures
        forall|p: Seq<char>| #[trigger] reindexed(db, files).has_note(p) <==> is_listed(files, p),
{
    lemma_reindex_mirrors_disk(db, files);
    assert forall|p: Seq<char>| #[trigger] reindexed(db, files).has_note(p) <==> is_listed(
        files,
        p,
    ) by {
        if is_listed(files, p) {
            let k = choose|k: int| 0 <= k < files.len() && #[trigger] files[k].path == p;
            assert(files[k].source is Some);
            assert(is_readable(files, files.len() as int, p));
        }
    }
}

/// Indexing files never touches the star or the creation time of a note
/// that the cache holds.
pub proof fn lemma_indexed_all_keeps_stars(
    db: DatabaseView,
    files: Seq<NoteFileView>,
    n: int,
    path: Seq<char>,
)
    requires
        db.wf(),
        db.has_note(path),
        0 <= n <= files.len(),
    ensures
        indexed_all(db, files, n).wf(),
        indexed_all(db, files, n).has_note(path),
        indexed_all(db, files, n).note(path)->0.starred == db.note(path)->0.starred,
        indexed_all(db, files, n).note(path)->0.created_at == db.note(path)->0.created_at,
    decreases n,
{
    if n > 0 {
        let before = indexed_all(db, files, n - 1);
        lemma_indexed_all_keeps_stars(db, files, n - 1, path);
        let f = files[n - 1];
        if f.source is Some {
            lemma_indexed(before, f.path, f.source->0.content, f.source->0.frontmatter);
            let after = indexed(before, f.path, f.source->0.content, f.source->0.frontmatter);
            assert(after.has_note(path));
            if f.path != path {
                assert(after.note(path) == before.note(path));
            }
        }
    }
}

/// A sweep never touches the star or the creation time of a note that the
/// cache holds and that is still on disk.
pub proof fn lemma_sweep_keeps_stars(db: DatabaseView, files: Seq<NoteFileView>, path: Seq<char>)
    requires
        db.wf(),
        db.has_note(path),
        is_listed(files, path),
    ensures
        reindexed(db, files).has_note(path),
        reindexed(db, files).note(path)->0.starred == db.note(path)->0.starred,
        reindexed(db, files).note(path)->0.created_at == db.note(path)->0.created_at,
{
    let swept = indexed_all(db, files, files.len() as int);
    lemma_indexed_all_keeps_stars(db, files, files.len() as int, path);
    lemma_retain_notes(swept, paths_of(files));
    let k = choose|k: int| 0 <= k < files.len() && #[trigger] files[k].path == path;
    assert(paths_of(files)[k] == path);
    assert(paths_of(files).contains(path));
    assert(reindexed(db, files).has_note(path));
}

impl Database {
    /// Writes a note that was read into the cache: its row, then its
    /// links, tags and headings in place of those it had. The star and the
    /// creation time of a note that the cache holds stay.
    pub fn index_source(&mut self, relative_path: &str, content: &str, frontmatter: &Frontmatter)
        requires
            old(self).wf(),
        ensures
            final(self).wf(),
            final(self)@ == indexed(old(self)@, relative_path@, content@, frontmatter@),
            final(self)@.has_note(relative_path@),
    {
        let ghost before = self@;
        let index = index_note(relative_path, content, frontmatter.tags.as_slice());
        let title = infer_title(relative_path, &index.headings, &frontmatter.title);
        let word_count: i64 = if index.word_count as u64 > i64::MAX as u64 {
            i64::MAX
        } else {
            index.word_count as i64
        };
        let note = CachedNote {
            path: String::from_str(relative_path),
            title,
            created_at: crate::database::copy_text(&frontmatter.created),
            modified_at: crate::database::copy_text(&frontmatter.modified),
            word_count,
            starred: false,
        };
        assert(note@ == cached_note_for(relative_path@, content@, frontmatter@));
        proof {
            lemma_upsert_note(before, note@);
            lemma_indexed(before, relative_path@, content@, frontmatter@);
        }
        self.upsert_note(&note);
        let links = self.update_links(relative_path, index.outgoing_links.as_slice());
        assert(links is Ok);
        let tags = self.update_tags(relative_path, index.tags.as_slice());
        assert(tags is Ok);
        let headings = self.update_headings(relative_path, index.headings.as_slice());
        assert(headings is Ok);
    }

    /// Indexes one note again, after it was saved, created or renamed.
    /// Unlike the sweep it fails where the file could not be read, and then
    /// changes nothing.
    pub fn reindex_note(&mut self, file: &NoteFile) -> (r: Result<(), IndexError>)
        requires
            old(self).wf(),
        ensures
            final(self).wf(),
            match r {
                Ok(_) => {
                    &&& file@.source is Some
                    &&& final(self)@ == indexed(
                        old(self)@,
                        file@.path,
                        file@.source->0.content,
                        file@.source->0.frontmatter,
                    )
                    &&& final(self)@.has_note(file@.path)
                },
                Err(e) => {
                    &&& file@.source is None
                    &&& e == IndexError::IoError
                    &&& final(self)@ == old(self)@
                },
            },
    {
        match &file.source {
            Some(source) => {
                self.index_source(file.path.as_str(), source.content.as_str(), &source.frontmatter);
                Ok(())
            },
            None => Err(IndexError::IoError),
        }
    }

    /// Sweeps the vault: indexes every file that could be read, in the
    /// order of `files`, and then removes from the cache every note whose
    /// path is not among those of `files`. A file that could not be read is
    /// passed over; its note stays as the cache has it.
    pub fn reindex_vault(&mut self, files: &Vec<NoteFile>)
        requires
            old(self).wf(),
        ensures
            final(self).wf(),
            final(self)@ == reindexed(old(self)@, files.deep_view()),
    {
        let ghost all = files.deep_view();
        let mut paths: Vec<String> = Vec::new();
        let mut i: usize = 0;
        assert(paths.deep_view() =~= paths_of(all).take(0));
        while i < files.len()
            invariant
                i <= files.len(),
                all == files.deep_view(),
                self.wf(),
                self@ == indexed_all(old(self)@, all, i as int),
                paths.deep_view() == paths_of(all).take(i as int),
            decreases files.len() - i,
        {
            let file = &files[i];
            assert(all[i as int] == file@);
            match &file.source {
                Some(source) => {
                    self.index_source(
                        file.path.as_str(),
                        source.content.as_str(),
                        &source.frontmatter,
                    );
                },
                None => {},
            }
            let ghost so_far = paths.deep_view();
            paths.push(file.path.clone());
            assert(paths.deep_view() =~= so_far.push(file.path@));
            assert(paths_of(all).take(i as int + 1) =~= paths_of(all).take(i as int).push(
                file.path@,
            ));
            i += 1;
        }
        assert(paths_of(all).take(i as int) =~= paths_of(all));
        self.retain_notes(&paths);
    }
}

} // verus!
