//! The queries that the interface asks of the index: backlinks with the
//! line that holds the link, and the search for notes by title.

use crate::database::{CachedNote, CachedNoteView, Database};
use crate::reconciler::{NoteFile, NoteFileView};
use crate::text::{
    contains, find, lines, lowercase, occurs_at, split_lines, str_to_lowercase, string_from,
    string_push, to_chars, trim, trim_bounds,
};
use crate::vault::{file_stem, file_stem_bounds};
use vstd::prelude::*;

verus! {

/// A note that links to another, with the line that holds the link.
#[derive(Debug)]
pub struct BacklinkResult {
    pub source_path: String,
    pub source_title: String,
    pub context: String,
}

/// The mathematical value of a [`BacklinkResult`].
pub struct BacklinkResultView {
    pub source_path: Seq<char>,
    pub source_title: Seq<char>,
    pub context: Seq<char>,
}

impl View for BacklinkResult {
    type V = BacklinkResultView;

    open spec fn view(&self) -> BacklinkResultView {
        BacklinkResultView {
            source_path: self.source_path@,
            source_title: self.source_title@,
            context: self.context@,
        }
    }
}

impl DeepView for BacklinkResult {
    type V = BacklinkResultView;

    open spec fn deep_view(&self) -> BacklinkResultView {
        self@
    }
}

/// The longest context, in characters, that is shown in full.
pub const CONTEXT_LIMIT: usize = 200;

/// The most notes that a search returns.
pub const SEARCH_LIMIT: usize = 20;

/// `[[` and `target`, followed by `end`.
pub open spec fn link_pattern(target: Seq<char>, end: Seq<char>) -> Seq<char> {
    seq!['[', '['] + target + end
}

/// Whether `line` holds a link to `target`: `[[target]]`, `[[target|` or
/// `[[target#`.
pub open spec fn mentions(line: Seq<char>, target: Seq<char>) -> bool {
    ||| contains(line, link_pattern(target, seq![']', ']']))
    ||| contains(line, link_pattern(target, seq!['|']))
    ||| contains(line, link_pattern(target, seq!['#']))
}

/// The first line from line `k` on that holds a link to `target`.
pub open spec fn first_mention(all: Seq<Seq<char>>, target: Seq<char>, k: int) -> Option<int>
    decreases all.len() - k,
{
    if k < 0 || k >= all.len() {
        None
    } else if mentions(all[k], target) {
        Some(k)
    } else {
        first_mention(all, target, k + 1)
    }
}

/// A line as it is shown: trimmed, and cut after 200 characters with three
/// dots behind them where it is longer.
pub open spec fn snippet(line: Seq<char>) -> Seq<char> {
    let t = trim(line);
    if t.len() > CONTEXT_LIMIT {
        t.take(CONTEXT_LIMIT as int) + seq!['.', '.', '.']
    } else {
        t
    }
}

/// The context of the link to `target` in a text: the first line that
/// holds such a link, as it is shown; empty where no line holds one.
pub open spec fn link_context(content: Seq<char>, target: Seq<char>) -> Seq<char> {
    match first_mention(lines(content), target, 0) {
        Some(k) => snippet(lines(content)[k]),
        None => Seq::empty(),
    }
}

/// `[[` and `target`, followed by `end`.
fn make_pattern(target: &Vec<char>, end: &Vec<char>) -> (p: Vec<char>)
    ensures
        p@ == link_pattern(target@, end@),
{
    let mut p: Vec<char> = vec!['[', '['];
    let mut i: usize = 0;
    while i < target.len()
        invariant
            i <= target.len(),
            p@ == seq!['[', '['] + target@.take(i as int),
        decreases target.len() - i,
    {
        p.push(target[i]);
        i += 1;
        assert(p@ =~= seq!['[', '['] + target@.take(i as int));
    }
    assert(target@.take(i as int) =~= target@);
    let mut k: usize = 0;
    while k < end.len()
        invariant
            k <= end.len(),
            p@ == seq!['[', '['] + target@ + end@.take(k as int),
        decreases end.len() - k,
    {
        p.push(end[k]);
        k += 1;
        assert(p@ =~= seq!['[', '['] + target@ + end@.take(k as int));
    }
    assert(end@.take(k as int) =~= end@);
    p
}

/// Whether `p` occurs in `line`.
fn holds(line: &Vec<char>, p: &Vec<char>) -> (r: bool)
    ensures
        r == contains(line@, p@),
{
    assert(line@.subrange(0, line.len() as int) =~= line@);
    match find(line, 0, line.len(), p) {
        Some(i) => {
            assert(occurs_at(line@, p@, i as int));
            true
        },
        None => false,
    }
}

/// The line as it is shown.
fn make_snippet(line: &Vec<char>) -> (r: String)
    ensures
        r@ == snippet(line@),
{
    let (a, b) = trim_bounds(line, 0, line.len());
    assert(line@.subrange(0, line.len() as int) =~= line@);
    if b - a > CONTEXT_LIMIT {
        let mut r = string_from(line, a, a + CONTEXT_LIMIT);
        string_push(&mut r, '.');
        string_push(&mut r, '.');
        string_push(&mut r, '.');
        assert(line@.subrange(a as int, a + CONTEXT_LIMIT) =~= line@.subrange(
            a as int,
            b as int,
        ).take(CONTEXT_LIMIT as int));
        assert(r@ =~= snippet(line@));
        r
    } else {
        string_from(line, a, b)
    }
}

/// Finds the context of the link to `target` in the text of a note: the
/// first line that holds `[[target]]`, `[[target|` or `[[target#`, trimmed
/// and cut after 200 characters; the empty string where there is none.
pub fn find_link_context(content: &str, target: &str) -> (context: String)
    ensures
        context@ == link_context(content@, target@),
{
    let text = to_chars(content);
    let name = to_chars(target);
    let all = split_lines(&text);
    let closed = make_pattern(&name, &vec![']', ']']);
    let aliased = make_pattern(&name, &vec!['|']);
    let anchored = make_pattern(&name, &vec!['#']);
    let mut k: usize = 0;
    while k < all.len()
        invariant
            k <= all.len(),
            all.len() == lines(content@).len(),
            forall|j: int| 0 <= j < all.len() ==> (#[trigger] all[j])@ == lines(content@)[j],
            closed@ == link_pattern(target@, seq![']', ']']),
            aliased@ == link_pattern(target@, seq!['|']),
            anchored@ == link_pattern(target@, seq!['#']),
            first_mention(lines(content@), target@, 0) == first_mention(
                lines(content@),
                target@,
                k as int,
            ),
        decreases all.len() - k,
    {
        let line = &all[k];
        assert(line@ == lines(content@)[k as int]);
        if holds(line, &closed) || holds(line, &aliased) || holds(line, &anchored) {
            return make_snippet(line);
        }
        k += 1;
    }
    String::new()
}

/// The title under which a note is shown: that of its front matter, else
/// its file name without extension.
pub open spec fn display_title(path: Seq<char>, frontmatter_title: Option<Seq<char>>) -> Seq<char> {
    match frontmatter_title {
        Some(t) => t,
        None => file_stem(path),
    }
}

/// The backlink that a source gives, if it could be read.
pub open spec fn backlink_of(file: NoteFileView, title: Seq<char>) -> Option<BacklinkResultView> {
    match file.source {
        Some(source) => Some(
            BacklinkResultView {
                source_path: file.path,
                source_title: display_title(file.path, source.frontmatter.title),
                context: link_context(source.content, title),
            },
        ),
        None => None,
    }
}

/// The backlinks that the first `n` of `sources` give, in their order.
pub open spec fn backlinks_upto(sources: Seq<NoteFileView>, title: Seq<char>, n: int) -> Seq<
    BacklinkResultView,
>
    decreases n,
{
    if n <= 0 {
        Seq::empty()
    } else {
        match backlink_of(sources[n - 1], title) {
            Some(b) => backlinks_upto(sources, title, n - 1).push(b),
            None => backlinks_upto(sources, title, n - 1),
        }
    }
}

/// The backlinks to the note `note_title`, from the notes that link to it
/// as they were read: for each one that could be read, its path, its title
/// and the line that holds the link. A source that could not be read gives
/// none.
pub fn get_backlinks(note_title: &str, sources: &Vec<NoteFile>) -> (results: Vec<BacklinkResult>)
    ensures
        results.deep_view() == backlinks_upto(
            sources.deep_view(),
            note_title@,
            sources.len() as int,
        ),
{
    let mut results: Vec<BacklinkResult> = Vec::new();
    let mut i: usize = 0;
    assert(results.deep_view() =~= Seq::<BacklinkResultView>::empty());
    while i < sources.len()
        invariant
            i <= sources.len(),
            results.deep_view() == backlinks_upto(sources.deep_view(), note_title@, i as int),
        decreases sources.len() - i,
    {
        let file = &sources[i];
        assert(sources.deep_view()[i as int] == file@);
        match &file.source {
            Some(source) => {
                let source_title = match &source.frontmatter.title {
                    Some(t) => t.clone(),
                    None => {
                        let path = to_chars(file.path.as_str());
                        let (a, b) = file_stem_bounds(&path);
                        string_from(&path, a, b)
                    },
                };
                let ghost so_far = results.deep_view();
                let found = BacklinkResult {
                    source_path: file.path.clone(),
                    source_title,
                    context: find_link_context(source.content.as_str(), note_title),
                };
                assert(Some(found@) == backlink_of(file@, note_title@));
                results.push(found);
                assert(results.deep_view() =~= so_far.push(backlink_of(file@, note_title@)->0));
            },
            None => {},
        }
        i += 1;
    }
    results
}

/// Whether the characters of `query` stand in `title` in their order, not
/// necessarily side by side.
pub open spec fn is_subsequence(query: Seq<char>, title: Seq<char>) -> bool
    decreases title.len(),
{
    if query.len() == 0 {
        true
    } else if title.len() == 0 {
        false
    } else if query[0] == title[0] {
        is_subsequence(query.drop_first(), title.drop_first())
    } else {
        is_subsequence(query, title.drop_first())
    }
}

/// The tier in which a title matches a query, both in lowercase: 0 where
/// they are equal, 1 where the title begins with the query, 2 where it
/// holds the query, 3 where it holds the characters of the query in their
/// order; none where it does not match.
pub open spec fn tier(title: Seq<char>, query: Seq<char>) -> Option<u8> {
    if title == query {
        Some(0u8)
    } else if occurs_at(title, query, 0) {
        Some(1u8)
    } else if contains(title, query) {
        Some(2u8)
    } else if is_subsequence(query, title) {
        Some(3u8)
    } else {
        None
    }
}

/// The tier in which a title matches a query, whatever their case.
pub open spec fn rank(title: Seq<char>, query: Seq<char>) -> Option<u8> {
    tier(lowercase(title), lowercase(query))
}

/// The condition that a note matches `query` in the tier `t`.
pub open spec fn has_tier(query: Seq<char>, t: u8) -> spec_fn(CachedNoteView) -> bool {
    |n: CachedNoteView| rank(n.title, query) == Some(t)
}

/// The notes that match `query`, those of a better tier first; within a
/// tier in the order in which they stand in `notes`.
pub open spec fn ranked(notes: Seq<CachedNoteView>, query: Seq<char>) -> Seq<CachedNoteView> {
    notes.filter(has_tier(query, 0)) + notes.filter(has_tier(query, 1)) + notes.filter(
        has_tier(query, 2),
    ) + notes.filter(has_tier(query, 3))
}

/// The best `limit` of the notes that match `query`.
pub open spec fn search_results(notes: Seq<CachedNoteView>, query: Seq<char>, limit: int) -> Seq<
    CachedNoteView,
> {
    if limit < ranked(notes, query).len() {
        ranked(notes, query).take(limit)
    } else {
        ranked(notes, query)
    }
}

/// A title matches a query in the first tier exactly if the two are equal
/// but for their case.
pub proof fn lemma_exact_tier(title: Seq<char>, query: Seq<char>)
    ensures
        rank(title, query) == Some(0u8) <==> lowercase(title) == lowercase(query),
{
}

/// Whether the characters of `query` stand in `title` in their order.
fn subsequence_of(query: &Vec<char>, title: &Vec<char>) -> (r: bool)
    ensures
        r == is_subsequence(query@, title@),
{
    let mut q: usize = 0;
    let mut t: usize = 0;
    assert(query@.skip(0) =~= query@);
    assert(title@.skip(0) =~= title@);
    while t < title.len() && q < query.len()
        invariant
            q <= query.len(),
            t <= title.len(),
            is_subsequence(query@, title@) == is_subsequence(
                query@.skip(q as int),
                title@.skip(t as int),
            ),
        decreases title.len() - t,
    {
        assert(title@.skip(t as int).drop_first() =~= title@.skip(t as int + 1));
        assert(query@.skip(q as int).drop_first() =~= query@.skip(q as int + 1));
        if query[q] == title[t] {
            q += 1;
        }
        t += 1;
    }
    q == query.len()
}

/// The tier in which a title matches a query, both given in lowercase.
pub fn title_tier(title_lower: &str, query_lower: &str) -> (r: Option<u8>)
    ensures
        r == tier(title_lower@, query_lower@),
{
    let title = to_chars(title_lower);
    let query = to_chars(query_lower);
    assert(title@.subrange(0, title.len() as int) =~= title@);
    match find(&title, 0, title.len(), &query) {
        Some(at) => {
            assert(occurs_at(title@, query@, at as int));
            if at == 0 && title.len() == query.len() {
                assert(title@ =~= title@.subrange(0, query.len() as int));
                Some(0)
            } else if at == 0 {
                Some(1)
            } else {
                assert(!occurs_at(title@, query@, 0)) by {
                    if occurs_at(title@, query@, 0) {
                        assert(crate::text::occurs_before(title@, query@, at as int));
                    }
                }
                assert(title@ != query@) by {
                    if title@ == query@ {
                        assert(title@.subrange(0, query.len() as int) =~= query@);
                    }
                }
                Some(2)
            }
        },
        None => {
            assert(!occurs_at(title@, query@, 0));
            assert(title@ != query@) by {
                if title@ == query@ {
                    assert(title@.subrange(0, query.len() as int) =~= query@);
                    assert(occurs_at(title@, query@, 0));
                }
            }
            if subsequence_of(&query, &title) {
                Some(3)
            } else {
                None
            }
        },
    }
}

/// Appends to `out` the notes whose tier is `t`, in their order.
fn collect_tier(notes: &Vec<CachedNote>, tiers: &Vec<Option<u8>>, t: u8, out: &mut Vec<CachedNote>, Ghost(query): Ghost<Seq<char>>)
    requires
        tiers.len() == notes.len(),
        forall|i: int| 0 <= i < notes.len() ==> tiers[i] == rank(#[trigger] notes.deep_view()[i].title, query),
    ensures
        final(out).deep_view() == old(out).deep_view() + notes.deep_view().filter(has_tier(query, t)),
{
    let ghost before = out.deep_view();
    let ghost all = notes.deep_view();
    let ghost pred = has_tier(query, t);
    let mut i: usize = 0;
    proof {
        reveal(Seq::filter);
        assert(all.take(0) =~= Seq::<CachedNoteView>::empty());
        assert(before + all.take(0).filter(pred) =~= before);
    }
    while i < notes.len()
        invariant
            i <= notes.len(),
            tiers.len() == notes.len(),
            all == notes.deep_view(),
            pred == has_tier(query, t),
            forall|j: int| 0 <= j < notes.len() ==> tiers[j] == rank(#[trigger] all[j].title, query),
            out.deep_view() == before + all.take(i as int).filter(pred),
        decreases notes.len() - i,
    {
        let ghost so_far = out.deep_view();
        proof {
            assert(all.take(i as int + 1) =~= all.take(i as int).push(all[i as int]));
            all.take(i as int).lemma_filter_push(all[i as int], pred);
            assert(tiers[i as int] == rank(all[i as int].title, query));
        }
        let hit = match tiers[i] {
            Some(x) => x == t,
            None => false,
        };
        if hit {
            out.push(notes[i].clone());
            assert(out.deep_view() =~= so_far.push(all[i as int]));
            assert(before + all.take(i as int).filter(pred).push(all[i as int]) =~= (before
                + all.take(i as int).filter(pred)).push(all[i as int]));
        }
        i += 1;
    }
    assert(all.take(i as int) =~= all);
}

/// Searches `notes` by title: the notes whose title matches `query`,
/// whatever the case, the better matches first and at most `limit` of them.
pub fn search_by_title(notes: &Vec<CachedNote>, query: &str, limit: usize) -> (found: Vec<
    CachedNote,
>)
    ensures
        found.deep_view() == search_results(notes.deep_view(), query@, limit as int),
{
    let query_lower = str_to_lowercase(query);
    let mut tiers: Vec<Option<u8>> = Vec::new();
    let mut i: usize = 0;
    while i < notes.len()
        invariant
            i <= notes.len(),
            tiers.len() == i,
            query_lower@ == lowercase(query@),
            forall|j: int| 0 <= j < i ==> tiers[j] == rank(#[trigger] notes.deep_view()[j].title, query@),
        decreases notes.len() - i,
    {
        let title_lower = str_to_lowercase(notes[i].title.as_str());
        assert(notes.deep_view()[i as int].title == notes[i as int].title@);
        tiers.push(title_tier(title_lower.as_str(), query_lower.as_str()));
        i += 1;
    }
    let mut found: Vec<CachedNote> = Vec::new();
    assert(found.deep_view() =~= Seq::<CachedNoteView>::empty());
    collect_tier(notes, &tiers, 0, &mut found, Ghost(query@));
    collect_tier(notes, &tiers, 1, &mut found, Ghost(query@));
    collect_tier(notes, &tiers, 2, &mut found, Ghost(query@));
    collect_tier(notes, &tiers, 3, &mut found, Ghost(query@));
    assert(found.deep_view() =~= ranked(notes.deep_view(), query@));
    if limit < found.len() {
        let ghost all = found.deep_view();
        found.truncate(limit);
        assert(found.deep_view() =~= all.take(limit as int));
    }
    found
}

/// Searches the notes of the cache by title, for the completion of links:
/// the twenty best matches, the better first, and among equals the most
/// recently modified first.
pub fn search_notes(db: &Database, query: &str) -> (found: Vec<CachedNote>)
    ensures
        found.deep_view() == search_results(db@.all_notes(), query@, SEARCH_LIMIT as int),
{
    let all = db.get_all_notes();
    search_by_title(&all, query, SEARCH_LIMIT)
}

} // verus!
