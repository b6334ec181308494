//! Metadata extraction from the text of one note: wikilinks, tags,
//! headings, word count and title.

use crate::text::{
    add_distinct, char_is_alphanumeric, char_is_whitespace, copy_range, count_words_in,
    distinct, is_alphanumeric, is_whitespace, lemma_add_distinct_concat,
    lemma_add_distinct_push, lemma_lines_total_len, lemma_trim_len, lemma_word_count_bound,
    lines, push_distinct, push_unique, split_lines, string_from, string_push, to_chars,
    total_len, trim, trim_bounds, trim_start, trim_start_index, word_count,
};
use crate::vault::{file_stem, file_stem_bounds, find_body_start, strip_frontmatter};
use vstd::prelude::*;
use vstd::string::StringExecFns;

verus! {

/// A heading of a note.
#[derive(Debug, PartialEq, Eq)]
pub struct Heading {
    pub text: String,
    pub level: u8,
    /// Line number (1-based) where this heading appears.
    pub line: usize,
}

/// The mathematical value of a [`Heading`].
pub struct HeadingView {
    pub text: Seq<char>,
    pub level: int,
    pub line: int,
}

impl View for Heading {
    type V = HeadingView;

    open spec fn view(&self) -> HeadingView {
        HeadingView { text: self.text@, level: self.level as int, line: self.line as int }
    }
}

impl DeepView for Heading {
    type V = HeadingView;

    open spec fn deep_view(&self) -> HeadingView {
        self@
    }
}

impl Clone for Heading {
    fn clone(&self) -> (r: Self)
        ensures
            r@ == self@,
    {
        Heading { text: self.text.clone(), level: self.level, line: self.line }
    }
}

/// The metadata extracted from one note.
#[derive(Debug)]
pub struct NoteIndex {
    /// Relative path of the note in the vault.
    pub path: String,
    /// The title: the first heading, or the file name without extension.
    pub title: String,
    /// The targets of all outgoing wikilinks, in order, repetitions kept.
    pub outgoing_links: Vec<String>,
    /// The tags of the body and of the front matter, each once.
    pub tags: Vec<String>,
    /// The headings of the body, in order.
    pub headings: Vec<Heading>,
    /// The number of words of the body.
    pub word_count: usize,
}

/// The mathematical value of a [`NoteIndex`].
pub struct NoteIndexView {
    pub path: Seq<char>,
    pub title: Seq<char>,
    pub outgoing_links: Seq<Seq<char>>,
    pub tags: Seq<Seq<char>>,
    pub headings: Seq<HeadingView>,
    pub word_count: int,
}

impl View for NoteIndex {
    type V = NoteIndexView;

    open spec fn view(&self) -> NoteIndexView {
        NoteIndexView {
            path: self.path@,
            title: self.title@,
            outgoing_links: self.outgoing_links.deep_view(),
            tags: self.tags.deep_view(),
            headings: self.headings.deep_view(),
            word_count: self.word_count as int,
        }
    }
}

/// The position of the bracket that balances a wikilink span: scanning from
/// `j` with `depth` brackets open, every `[` opens one more and every `]`
/// closes one; the result is the `]` that closes the last one, or the length
/// of `s` where the text ends first.
pub open spec fn span_close(s: Seq<char>, j: int, depth: nat) -> int
    decreases s.len() - j,
{
    if j < 0 || j >= s.len() {
        s.len() as int
    } else if s[j] == ']' {
        if depth <= 1 {
            j
        } else {
            span_close(s, j + 1, (depth - 1) as nat)
        }
    } else if s[j] == '[' {
        span_close(s, j + 1, depth + 1)
    } else {
        span_close(s, j + 1, depth)
    }
}

/// Whether `c` ends the name of the note inside a wikilink: what follows is
/// an alias, a heading or a block id.
pub open spec fn is_link_cut(c: char) -> bool {
    c == '|' || c == '#' || c == '^'
}

/// The length of the part of `s` before its first `|`, `#` or `^`.
pub open spec fn link_cut(s: Seq<char>) -> int
    decreases s.len(),
{
    if s.len() == 0 || is_link_cut(s[0]) {
        0
    } else {
        1 + link_cut(s.drop_first())
    }
}

/// The note that the inner text of a wikilink names: the text before the
/// first `|`, `#` or `^`, trimmed.
pub open spec fn link_target(inner: Seq<char>) -> Seq<char> {
    trim(inner.take(link_cut(inner)))
}

/// The wikilink targets found in `s` from position `i` on. A span opens at
/// `[[`. Where its brackets are never balanced again, it runs to the end of
/// the text and gives no link. Where they are, the bracket that balances
/// them must be the first of `]]`: then the span gives its target, and
/// the scan goes on behind the `]]`; else it gives no link, and the scan goes
/// on behind that bracket.
pub open spec fn wikilinks_from(s: Seq<char>, i: int) -> Seq<Seq<char>>
    decreases s.len() + 1 - i,
{
    if i < 0 || i + 1 >= s.len() {
        Seq::empty()
    } else if s[i] == '[' && s[i + 1] == '[' {
        let close = span_close(s, i + 2, 1);
        if !(i + 2 <= close < s.len()) {
            Seq::empty()
        } else if close + 1 < s.len() && s[close + 1] == ']' {
            let target = link_target(s.subrange(i + 2, close));
            let found = if target.len() > 0 {
                seq![target]
            } else {
                Seq::empty()
            };
            found + wikilinks_from(s, close + 2)
        } else {
            wikilinks_from(s, close + 1)
        }
    } else {
        wikilinks_from(s, i + 1)
    }
}

/// The wikilink targets of a text, in the order of their spans. A span is
/// `[[`, an inner text and the matching `]]`; brackets inside the inner
/// text count, so that a target may hold brackets that are balanced. The
/// target is the inner text before its first `|`, `#` or `^`, trimmed. A
/// span without a matching `]]` gives no link, and neither does a target
/// that is empty.
pub open spec fn wikilinks(s: Seq<char>) -> Seq<Seq<char>> {
    wikilinks_from(s, 0)
}

/// The target that `s[from..to]` names, if it is not empty.
fn resolve_target(s: &Vec<char>, from: usize, to: usize) -> (r: Option<String>)
    requires
        from <= to <= s.len(),
    ensures
        match r {
            Some(t) => t@ == link_target(s@.subrange(from as int, to as int)) && t@.len() > 0,
            None => link_target(s@.subrange(from as int, to as int)).len() == 0,
        },
{
    let ghost inner = s@.subrange(from as int, to as int);
    let mut cut: usize = from;
    assert(inner.skip(0) =~= inner);
    while cut < to && !(s[cut] == '|' || s[cut] == '#' || s[cut] == '^')
        invariant
            from <= cut <= to <= s.len(),
            inner == s@.subrange(from as int, to as int),
            link_cut(inner) == (cut - from) + link_cut(inner.skip(cut - from)),
        decreases to - cut,
    {
        assert(inner.skip(cut - from).drop_first() =~= inner.skip(cut - from + 1));
        cut += 1;
    }
    let (a, b) = trim_bounds(s, from, cut);
    assert(s@.subrange(from as int, cut as int) =~= inner.take(cut - from));
    if a < b {
        Some(string_from(s, a, b))
    } else {
        None
    }
}

/// Where the span that opens before `from` has its brackets balanced
/// again.
fn find_span_close(s: &Vec<char>, from: usize) -> (close: usize)
    requires
        2 <= from <= s.len(),
    ensures
        close == span_close(s@, from as int, 1),
        from <= close <= s.len(),
{
    let mut depth: usize = 1;
    let mut j: usize = from;
    while j < s.len()
        invariant
            2 <= from <= j <= s.len(),
            1 <= depth <= 1 + (j - from),
            span_close(s@, from as int, 1) == span_close(s@, j as int, depth as nat),
        decreases s.len() - j,
    {
        let c = s[j];
        if c == ']' {
            if depth == 1 {
                return j;
            }
            depth -= 1;
        } else if c == '[' {
            depth += 1;
        }
        j += 1;
    }
    j
}

/// The wikilink targets of a text given by its characters.
fn links_of(s: &Vec<char>) -> (links: Vec<String>)
    ensures
        links.deep_view() == wikilinks(s@),
{
    let mut links: Vec<String> = Vec::new();
    let mut i: usize = 0;
    assert(links.deep_view() =~= Seq::<Seq<char>>::empty());
    while i < s.len() && i + 1 < s.len()
        invariant
            i <= s.len(),
            links.deep_view() + wikilinks_from(s@, i as int) == wikilinks(s@),
        decreases s.len() - i,
    {
        if s[i] == '[' && s[i + 1] == '[' {
            let close = find_span_close(s, i + 2);
            if close >= s.len() {
                assert(links.deep_view() + Seq::<Seq<char>>::empty() =~= links.deep_view());
                return links;
            }
            if close + 1 < s.len() && s[close + 1] == ']' {
                let ghost before = links.deep_view();
                match resolve_target(s, i + 2, close) {
                    Some(t) => {
                        let ghost tv = t@;
                        links.push(t);
                        assert(links.deep_view() =~= before.push(tv));
                        assert(before.push(tv) + wikilinks_from(s@, close + 2) =~= before + (
                        seq![tv] + wikilinks_from(s@, close + 2)));
                    },
                    None => {
                        assert(Seq::<Seq<char>>::empty() + wikilinks_from(s@, close + 2)
                            =~= wikilinks_from(s@, close + 2));
                    },
                }
                i = close + 2;
            } else {
                i = close + 1;
            }
        } else {
            i += 1;
        }
    }
    assert(links.deep_view() + Seq::<Seq<char>>::empty() =~= links.deep_view());
    links
}

/// Extracts the targets of all wikilinks of a text: `[[Target]]`,
/// `[[Target|Alias]]`, `[[Target#Heading]]`, `[[Target^blockid]]`.
pub fn extract_wikilinks(content: &str) -> (links: Vec<String>)
    ensures
        links.deep_view() == wikilinks(content@),
{
    let text = to_chars(content);
    links_of(&text)
}

/// Whether `line`, once trimmed, starts with three backticks: such a line
/// opens or closes a fenced code block.
pub open spec fn is_fence(line: Seq<char>) -> bool {
    let t = trim(line);
    t.len() >= 3 && t[0] == '`' && t[1] == '`' && t[2] == '`'
}

/// Whether `c` may stand in a tag after its `#`.
pub open spec fn is_tag_char(c: char) -> bool {
    is_alphanumeric(c) || c == '-' || c == '_' || c == '/'
}

/// The end of the run of tag characters that starts at `j`.
pub open spec fn tag_end(line: Seq<char>, j: int) -> int
    decreases line.len() - j,
{
    if 0 <= j < line.len() && is_tag_char(line[j]) {
        tag_end(line, j + 1)
    } else {
        j
    }
}

/// Whether a tag may start at position `i`: at the start of the line, or
/// after whitespace or a comma.
pub open spec fn is_tag_boundary(line: Seq<char>, i: int) -> bool {
    i == 0 || (0 < i <= line.len() && (is_whitespace(line[i - 1]) || line[i - 1] == ','))
}

/// Whether a `#` at position `i` marks a heading: it is the first character
/// of the line and a space follows.
pub open spec fn is_heading_mark(line: Seq<char>, i: int) -> bool {
    i == 0 && line.len() > 1 && line[1] == ' '
}

/// Whether the character at position `i` is a `#` that opens a tag.
pub open spec fn opens_tag(line: Seq<char>, i: int) -> bool {
    &&& 0 <= i < line.len()
    &&& line[i] == '#'
    &&& is_tag_boundary(line, i)
    &&& !is_heading_mark(line, i)
}

/// A run of tag characters ends at or behind its start and within the line.
pub proof fn lemma_tag_end_bounds(line: Seq<char>, j: int)
    requires
        0 <= j <= line.len(),
    ensures
        j <= tag_end(line, j) <= line.len(),
    decreases line.len() - j,
{
    if j < line.len() && is_tag_char(line[j]) {
        lemma_tag_end_bounds(line, j + 1);
    }
}

/// The tags met from position `i` of a line on, in order and with
/// repetitions; `in_code` says whether position `i` lies inside inline code.
/// A backtick switches inline code on or off; inside it nothing is a tag.
/// Outside it, a `#` that opens a tag is followed by the longest run of tag
/// characters, and the scan goes on behind that run; a `#` with nothing
/// behind it is no tag.
pub open spec fn line_tags_from(line: Seq<char>, i: int, in_code: bool) -> Seq<Seq<char>>
    decreases line.len() - i,
    via line_tags_decreases
{
    if i < 0 || i >= line.len() {
        Seq::empty()
    } else if line[i] == '`' {
        line_tags_from(line, i + 1, !in_code)
    } else if in_code || !opens_tag(line, i) {
        line_tags_from(line, i + 1, in_code)
    } else {
        let end = tag_end(line, i + 1);
        let rest = line_tags_from(line, end, in_code);
        if end > i + 1 {
            seq![line.subrange(i, end)] + rest
        } else {
            rest
        }
    }
}

/// The scan of a line moves on: behind a tag it goes on behind its `#`.
#[via_fn]
proof fn line_tags_decreases(line: Seq<char>, i: int, in_code: bool) {
    if 0 <= i < line.len() {
        lemma_tag_end_bounds(line, i + 1);
    }
}

/// The tags of a line, in order and with repetitions. Every line starts
/// outside inline code.
pub open spec fn line_tags(line: Seq<char>) -> Seq<Seq<char>> {
    line_tags_from(line, 0, false)
}

/// The tags met from line `k` on, in order and with repetitions. A fence
/// line switches the code block on or off and is itself skipped, as are the
/// lines inside a block.
pub open spec fn tags_from_line(all: Seq<Seq<char>>, k: int, in_block: bool) -> Seq<Seq<char>>
    decreases all.len() - k,
{
    if k < 0 || k >= all.len() {
        Seq::empty()
    } else if is_fence(all[k]) {
        tags_from_line(all, k + 1, !in_block)
    } else if in_block {
        tags_from_line(all, k + 1, in_block)
    } else {
        line_tags(all[k]) + tags_from_line(all, k + 1, in_block)
    }
}

/// Every tag occurrence of a text, in order.
pub open spec fn tag_occurrences(s: Seq<char>) -> Seq<Seq<char>> {
    tags_from_line(lines(s), 0, false)
}

/// The tags of a text: each tag once, in the order of first occurrence.
pub open spec fn tags(s: Seq<char>) -> Seq<Seq<char>> {
    distinct(tag_occurrences(s))
}

/// A `#` that starts a line and is followed by a space never gives a tag:
/// the tags of such a line are those that the scan finds behind the `#`.
pub proof fn lemma_heading_mark_is_no_tag(line: Seq<char>)
    requires
        line.len() >= 2,
        line[0] == '#',
        line[1] == ' ',
    ensures
        line_tags(line) == line_tags_from(line, 1, false),
{
    assert(is_heading_mark(line, 0));
}

/// Where no `#` stands from position `i` on, the scan finds no tag.
pub proof fn lemma_no_hash_no_tag(line: Seq<char>, i: int, in_code: bool)
    requires
        0 <= i,
        forall|j: int| i <= j < line.len() ==> line[j] != '#',
    ensures
        line_tags_from(line, i, in_code) == Seq::<Seq<char>>::empty(),
    decreases line.len() - i,
{
    if i < line.len() {
        lemma_no_hash_no_tag(line, i + 1, in_code);
        lemma_no_hash_no_tag(line, i + 1, !in_code);
    }
}

/// A heading line with no further `#` carries no tag.
pub proof fn lemma_heading_line_has_no_tag(line: Seq<char>)
    requires
        line.len() >= 2,
        line[0] == '#',
        line[1] == ' ',
        forall|j: int| 1 <= j < line.len() ==> line[j] != '#',
    ensures
        line_tags(line) == Seq::<Seq<char>>::empty(),
{
    lemma_heading_mark_is_no_tag(line);
    lemma_no_hash_no_tag(line, 1, false);
}

/// Whether `t` has the form of a tag: a `#` and at least one character
/// behind it.
pub open spec fn is_tag(t: Seq<char>) -> bool {
    t.len() >= 2 && t[0] == '#'
}

/// Whatever the scan of a line finds has the form of a tag.
pub proof fn lemma_line_tags_are_tags(line: Seq<char>, i: int, in_code: bool)
    requires
        0 <= i,
    ensures
        forall|k: int|
            0 <= k < line_tags_from(line, i, in_code).len() ==> is_tag(
                #[trigger] line_tags_from(line, i, in_code)[k],
            ),
    decreases line.len() - i,
{
    let found = line_tags_from(line, i, in_code);
    if i < line.len() {
        if line[i] == '`' {
            lemma_line_tags_are_tags(line, i + 1, !in_code);
            assert(found == line_tags_from(line, i + 1, !in_code));
        } else if in_code || !opens_tag(line, i) {
            lemma_line_tags_are_tags(line, i + 1, in_code);
            assert(found == line_tags_from(line, i + 1, in_code));
        } else {
            let end = tag_end(line, i + 1);
            lemma_tag_end_bounds(line, i + 1);
            lemma_line_tags_are_tags(line, end, in_code);
            let rest = line_tags_from(line, end, in_code);
            if end > i + 1 {
                let first = line.subrange(i, end);
                assert(is_tag(first));
                assert(found == seq![first] + rest);
                assert forall|k: int| 0 <= k < found.len() implies is_tag(#[trigger] found[k]) by {
                    if k > 0 {
                        assert(found[k] == rest[k - 1]);
                    } else {
                        assert(found[0] == first);
                    }
                }
            } else {
                assert(found == rest);
            }
        }
    } else {
        assert(found.len() == 0);
    }
}

/// Whatever the scan of the lines finds has the form of a tag.
pub proof fn lemma_tags_from_line_are_tags(all: Seq<Seq<char>>, k: int, in_block: bool)
    requires
        0 <= k,
    ensures
        forall|j: int|
            0 <= j < tags_from_line(all, k, in_block).len() ==> is_tag(
                #[trigger] tags_from_line(all, k, in_block)[j],
            ),
    decreases all.len() - k,
{
    let found = tags_from_line(all, k, in_block);
    if k < all.len() {
        if is_fence(all[k]) {
            lemma_tags_from_line_are_tags(all, k + 1, !in_block);
            assert(found == tags_from_line(all, k + 1, !in_block));
        } else if in_block {
            lemma_tags_from_line_are_tags(all, k + 1, in_block);
            assert(found == tags_from_line(all, k + 1, in_block));
        } else {
            let here = line_tags(all[k]);
            let rest = tags_from_line(all, k + 1, in_block);
            lemma_line_tags_are_tags(all[k], 0, false);
            lemma_tags_from_line_are_tags(all, k + 1, in_block);
            assert(found == here + rest);
            assert forall|j: int| 0 <= j < found.len() implies is_tag(#[trigger] found[j]) by {
                if j < here.len() {
                    assert(found[j] == here[j]);
                } else {
                    assert(found[j] == rest[j - here.len()]);
                }
            }
        }
    } else {
        assert(found.len() == 0);
    }
}

/// The tags of a text: none stands twice, each has the form of a tag, and
/// each occurs in the text as the scan finds it.
pub proof fn lemma_tags(s: Seq<char>)
    ensures
        tags(s).no_duplicates(),
        forall|t: Seq<char>| #[trigger] tags(s).contains(t) <==> tag_occurrences(s).contains(t),
        forall|k: int| 0 <= k < tags(s).len() ==> is_tag(#[trigger] tags(s)[k]),
{
    crate::text::lemma_add_distinct_members(Seq::empty(), tag_occurrences(s));
    lemma_tags_from_line_are_tags(lines(s), 0, false);
    assert forall|k: int| 0 <= k < tags(s).len() implies is_tag(#[trigger] tags(s)[k]) by {
        let t = tags(s)[k];
        assert(tags(s).contains(t));
        assert(tag_occurrences(s).contains(t));
        let j = choose|j: int| 0 <= j < tag_occurrences(s).len() && tag_occurrences(s)[j] == t;
        assert(is_tag(tag_occurrences(s)[j]));
    }
}

/// Whether `line` opens or closes a fenced code block.
pub fn is_fence_line(line: &Vec<char>) -> (r: bool)
    ensures
        r == is_fence(line@),
{
    let (a, b) = trim_bounds(line, 0, line.len());
    assert(line@.subrange(0, line.len() as int) =~= line@);
    b - a >= 3 && line[a] == '`' && line[a + 1] == '`' && line[a + 2] == '`'
}

/// Whether `c` may stand in a tag after its `#`.
fn is_tag_character(c: char) -> (r: bool)
    ensures
        r == is_tag_char(c),
{
    char_is_alphanumeric(c) || c == '-' || c == '_' || c == '/'
}

/// Adds the tags of one line to `out`.
fn collect_line_tags(line: &Vec<char>, out: &mut Vec<String>)
    ensures
        final(out).deep_view() == add_distinct(old(out).deep_view(), line_tags(line@)),
{
    let len = line.len();
    let mut i: usize = 0;
    let mut code = false;
    let ghost seen: Seq<Seq<char>> = Seq::empty();
    assert(seen + line_tags(line@) =~= line_tags(line@));
    while i < len
        invariant
            i <= len == line.len(),
            seen + line_tags_from(line@, i as int, code) == line_tags(line@),
            out.deep_view() == add_distinct(old(out).deep_view(), seen),
        decreases len - i,
    {
        let c = line[i];
        if c == '`' {
            code = !code;
            i += 1;
        } else if code {
            i += 1;
        } else if c == '#' && (i == 0 || char_is_whitespace(line[i - 1]) || line[i - 1] == ',')
            && !(i == 0 && len > 1 && line[1] == ' ') {
            let start = i;
            i += 1;
            while i < len && is_tag_character(line[i])
                invariant
                    start < i <= len == line.len(),
                    tag_end(line@, i as int) == tag_end(line@, start + 1),
                decreases len - i,
            {
                i += 1;
            }
            if i - start > 1 {
                let tag = string_from(line, start, i);
                proof {
                    let more = seq![tag@];
                    lemma_add_distinct_concat(old(out).deep_view(), seen, more);
                    assert(more.drop_first() =~= Seq::<Seq<char>>::empty());
                    assert(add_distinct(out.deep_view(), more) == push_unique(
                        out.deep_view(),
                        tag@,
                    )) by {
                        reveal_with_fuel(add_distinct, 2);
                    }
                    assert((seen + more) + line_tags_from(line@, i as int, code) =~= seen + (more
                        + line_tags_from(line@, i as int, code)));
                    seen = seen + more;
                }
                push_distinct(out, tag);
            }
        } else {
            i += 1;
        }
    }
    assert(seen + Seq::<Seq<char>>::empty() =~= seen);
}

/// The tags of a text given by its characters.
fn tags_of(text: &Vec<char>) -> (found: Vec<String>)
    ensures
        found.deep_view() == tags(text@),
{
    let all = split_lines(text);
    let mut found: Vec<String> = Vec::new();
    let mut in_block = false;
    let mut k: usize = 0;
    let ghost seen: Seq<Seq<char>> = Seq::empty();
    assert(found.deep_view() =~= Seq::<Seq<char>>::empty());
    assert(seen + tag_occurrences(text@) =~= tag_occurrences(text@));
    while k < all.len()
        invariant
            k <= all.len(),
            all.len() == lines(text@).len(),
            forall|j: int| 0 <= j < all.len() ==> (#[trigger] all[j])@ == lines(text@)[j],
            seen + tags_from_line(lines(text@), k as int, in_block) == tag_occurrences(text@),
            found.deep_view() == distinct(seen),
        decreases all.len() - k,
    {
        let line = &all[k];
        assert(line@ == lines(text@)[k as int]);
        if is_fence_line(line) {
            in_block = !in_block;
        } else if !in_block {
            let ghost here = line_tags(line@);
            collect_line_tags(line, &mut found);
            proof {
                lemma_add_distinct_concat(Seq::empty(), seen, here);
                assert((seen + here) + tags_from_line(lines(text@), k as int + 1, in_block) =~= seen
                    + (here + tags_from_line(lines(text@), k as int + 1, in_block)));
                seen = seen + here;
            }
        }
        k += 1;
    }
    assert(seen + Seq::<Seq<char>>::empty() =~= seen);
    found
}

/// Extracts all tags from the text of a note (`#tag`, `#nested/tag`), each
/// once, in the order in which they first occur. Fenced code blocks and
/// inline code are left out, inline code being what stands between two
/// backticks of one line, or behind an odd one; and a `#` that starts a line
/// and is followed by a space marks a heading, not a tag.
pub fn extract_tags(content: &str) -> (found: Vec<String>)
    ensures
        found.deep_view() == tags(content@),
{
    let text = to_chars(content);
    tags_of(&text)
}

/// The number of `#` characters at the start of `s`.
pub open spec fn leading_hashes(s: Seq<char>) -> int
    decreases s.len(),
{
    if s.len() > 0 && s[0] == '#' {
        1 + leading_hashes(s.drop_first())
    } else {
        0
    }
}

/// The heading that stands on `line`, the line with the given number, if
/// there is one: after leading whitespace come one to six `#` characters,
/// and what follows them is, once trimmed, not empty.
pub open spec fn heading_of(line: Seq<char>, number: int) -> Option<HeadingView> {
    let t = trim_start(line);
    let level = leading_hashes(t);
    let text = trim(t.skip(level));
    if 1 <= level <= 6 && text.len() > 0 {
        Some(HeadingView { text, level, line: number })
    } else {
        None
    }
}

/// The headings of the first `n` lines, in order. Lines count from 1.
pub open spec fn headings_upto(all: Seq<Seq<char>>, n: int) -> Seq<HeadingView>
    decreases n,
{
    if n <= 0 {
        Seq::empty()
    } else {
        match heading_of(all[n - 1], n) {
            Some(h) => headings_upto(all, n - 1).push(h),
            None => headings_upto(all, n - 1),
        }
    }
}

/// The headings of a text, in the order of their lines.
pub open spec fn headings(s: Seq<char>) -> Seq<HeadingView> {
    headings_upto(lines(s), lines(s).len() as int)
}

/// The number of `#` characters at the start of `v[from..]`.
fn count_hashes(v: &Vec<char>, from: usize) -> (r: usize)
    requires
        from <= v.len(),
    ensures
        r == leading_hashes(v@.skip(from as int)),
        from + r <= v.len(),
{
    let mut i: usize = from;
    while i < v.len() && v[i] == '#'
        invariant
            from <= i <= v.len(),
            leading_hashes(v@.skip(from as int)) == (i - from) + leading_hashes(
                v@.skip(i as int),
            ),
        decreases v.len() - i,
    {
        assert(v@.skip(i as int).drop_first() =~= v@.skip(i as int + 1));
        i += 1;
    }
    i - from
}

/// The heading on `line`, if there is one.
fn heading_on(line: &Vec<char>, number: usize) -> (r: Option<Heading>)
    ensures
        match r {
            Some(h) => heading_of(line@, number as int) == Some(h@),
            None => heading_of(line@, number as int) is None,
        },
{
    let len = line.len();
    let start = trim_start_index(line, 0, len);
    let level = count_hashes(line, start);
    proof {
        assert(line@.subrange(0, len as int) =~= line@);
        assert(line@.subrange(start as int, len as int) =~= line@.skip(start as int));
        assert(line@.skip(start as int).skip(level as int) =~= line@.subrange(
            start + level,
            len as int,
        ));
    }
    if level < 1 || level > 6 {
        return None;
    }
    let (a, b) = trim_bounds(line, start + level, len);
    if a < b {
        Some(Heading { text: string_from(line, a, b), level: level as u8, line: number })
    } else {
        None
    }
}

/// The headings of a text given by its characters.
fn headings_of(text: &Vec<char>) -> (found: Vec<Heading>)
    ensures
        found.deep_view() == headings(text@),
{
    let all = split_lines(text);
    let mut found: Vec<Heading> = Vec::new();
    let mut k: usize = 0;
    assert(found.deep_view() =~= Seq::<HeadingView>::empty());
    while k < all.len()
        invariant
            k <= all.len(),
            all.len() == lines(text@).len(),
            forall|j: int| 0 <= j < all.len() ==> (#[trigger] all[j])@ == lines(text@)[j],
            found.deep_view() == headings_upto(lines(text@), k as int),
        decreases all.len() - k,
    {
        assert(all[k as int]@ == lines(text@)[k as int]);
        let ghost before = found.deep_view();
        match heading_on(&all[k], k + 1) {
            Some(h) => {
                let ghost hv = h@;
                found.push(h);
                assert(found.deep_view() =~= before.push(hv));
            },
            None => {},
        }
        k += 1;
    }
    found
}

/// Extracts all headings from the text of a note, with their levels and
/// the numbers of their lines.
pub fn extract_headings(content: &str) -> (found: Vec<Heading>)
    ensures
        found.deep_view() == headings(content@),
{
    let text = to_chars(content);
    headings_of(&text)
}

/// The words from line `k` on. A fence line switches the code block on or
/// off and counts nothing, as do the lines inside a block; every other line
/// counts its words.
pub open spec fn words_from_line(all: Seq<Seq<char>>, k: int, in_block: bool) -> nat
    decreases all.len() - k,
{
    if k < 0 || k >= all.len() {
        0
    } else if is_fence(all[k]) {
        words_from_line(all, k + 1, !in_block)
    } else if in_block {
        words_from_line(all, k + 1, in_block)
    } else {
        word_count(trim(all[k])) + words_from_line(all, k + 1, in_block)
    }
}

/// The number of words of a text outside its fenced code blocks.
pub open spec fn words(s: Seq<char>) -> nat {
    words_from_line(lines(s), 0, false)
}

/// The lines from `k` on have no more words than characters.
proof fn lemma_words_bound(all: Seq<Seq<char>>, k: int, in_block: bool)
    requires
        0 <= k <= all.len(),
    ensures
        words_from_line(all, k, in_block) <= total_len(all.skip(k)),
    decreases all.len() - k,
{
    if k < all.len() {
        assert(all.skip(k).drop_first() =~= all.skip(k + 1));
        assert(all.skip(k)[0] == all[k]);
        lemma_words_bound(all, k + 1, in_block);
        lemma_words_bound(all, k + 1, !in_block);
        lemma_trim_len(all[k]);
        lemma_word_count_bound(trim(all[k]));
    }
}

/// A text has no more words than characters.
pub proof fn lemma_words_le_len(s: Seq<char>)
    ensures
        words(s) <= s.len(),
{
    lemma_words_bound(lines(s), 0, false);
    assert(lines(s).skip(0) =~= lines(s));
    lemma_lines_total_len(s);
}

/// The number of words of a text given by its characters.
fn words_of(text: &Vec<char>) -> (count: usize)
    ensures
        count == words(text@),
{
    let all = split_lines(text);
    let mut count: usize = 0;
    let mut in_block = false;
    let mut k: usize = 0;
    proof {
        lemma_words_le_len(text@);
        assert(text@.len() == text.len());
    }
    while k < all.len()
        invariant
            k <= all.len(),
            all.len() == lines(text@).len(),
            forall|j: int| 0 <= j < all.len() ==> (#[trigger] all[j])@ == lines(text@)[j],
            count + words_from_line(lines(text@), k as int, in_block) == words(text@),
            words(text@) <= usize::MAX,
        decreases all.len() - k,
    {
        let line = &all[k];
        assert(line@ == lines(text@)[k as int]);
        if is_fence_line(line) {
            in_block = !in_block;
        } else if !in_block {
            let (a, b) = trim_bounds(line, 0, line.len());
            assert(line@.subrange(0, line.len() as int) =~= line@);
            let n = count_words_in(line, a, b);
            count = count + n;
        }
        k += 1;
    }
    count
}

/// Counts the words of the body of a note: the runs of characters that are
/// not whitespace, on the lines outside fenced code blocks.
pub fn count_words(content: &str) -> (count: usize)
    ensures
        count == words(content@),
{
    let text = to_chars(content);
    words_of(&text)
}

/// A front-matter tag as it is stored: with a `#` in front, added where it
/// is missing.
pub open spec fn tag_name(t: Seq<char>) -> Seq<char> {
    if t.len() > 0 && t[0] == '#' {
        t
    } else {
        seq!['#'] + t
    }
}

/// The tags of a note: those of its body, then those of its front matter
/// that the body lacks, each once.
pub open spec fn merged_tags(body_tags: Seq<Seq<char>>, frontmatter_tags: Seq<Seq<char>>) -> Seq<
    Seq<char>,
> {
    add_distinct(body_tags, frontmatter_tags.map_values(|t: Seq<char>| tag_name(t)))
}

/// The title of a note: the title of its front matter if it has one, else
/// the text of its first heading, else its file name without extension.
pub open spec fn resolve_title(
    path: Seq<char>,
    headings: Seq<HeadingView>,
    frontmatter_title: Option<Seq<char>>,
) -> Seq<char> {
    match frontmatter_title {
        Some(t) => t,
        None => if headings.len() > 0 {
            headings[0].text
        } else {
            file_stem(path)
        },
    }
}

/// The index of a note with the given path, text and front-matter tags.
/// Links, tags, headings and words are those of the body, the text without
/// its front matter; heading lines count from the start of the body.
pub open spec fn note_index(
    path: Seq<char>,
    content: Seq<char>,
    frontmatter_tags: Seq<Seq<char>>,
) -> NoteIndexView {
    let body = strip_frontmatter(content);
    NoteIndexView {
        path,
        title: resolve_title(path, headings(body), None),
        outgoing_links: wikilinks(body),
        tags: merged_tags(tags(body), frontmatter_tags),
        headings: headings(body),
        word_count: words(body) as int,
    }
}

/// Resolves the title of a note from the title of its front matter, its
/// headings and its path, in this order.
pub fn infer_title(path: &str, headings: &Vec<Heading>, frontmatter_title: &Option<String>) -> (title:
    String)
    ensures
        title@ == resolve_title(path@, headings.deep_view(), frontmatter_title.deep_view()),
{
    match frontmatter_title {
        Some(t) => t.clone(),
        None => {
            if headings.len() > 0 {
                headings[0].text.clone()
            } else {
                let text = to_chars(path);
                let (a, b) = file_stem_bounds(&text);
                string_from(&text, a, b)
            }
        },
    }
}

/// The stored form of a front-matter tag.
fn normalize_tag(tag: &String) -> (r: String)
    ensures
        r@ == tag_name(tag@),
{
    let text = to_chars(tag.as_str());
    if text.len() > 0 && text[0] == '#' {
        tag.clone()
    } else {
        let mut r = String::new();
        string_push(&mut r, '#');
        r.append(tag.as_str());
        assert(r@ =~= seq!['#'] + tag@);
        r
    }
}

/// Builds the complete index of a note from its path, its text and the
/// tags of its front matter.
pub fn index_note(path: &str, content: &str, frontmatter_tags: &[String]) -> (index: NoteIndex)
    ensures
        index@ == note_index(path@, content@, frontmatter_tags.deep_view()),
{
    let text = to_chars(content);
    let start = find_body_start(&text);
    let body = copy_range(&text, start, text.len());
    assert(body@ =~= strip_frontmatter(content@));
    let mut tags = tags_of(&body);
    let ghost body_tags = tags.deep_view();
    let ghost wanted = frontmatter_tags.deep_view().map_values(|t: Seq<char>| tag_name(t));
    let mut i: usize = 0;
    assert(wanted.take(0) =~= Seq::<Seq<char>>::empty());
    while i < frontmatter_tags.len()
        invariant
            i <= frontmatter_tags.len(),
            wanted == frontmatter_tags.deep_view().map_values(|t: Seq<char>| tag_name(t)),
            tags.deep_view() == add_distinct(body_tags, wanted.take(i as int)),
        decreases frontmatter_tags.len() - i,
    {
        let tag = normalize_tag(&frontmatter_tags[i]);
        proof {
            assert(wanted.take(i as int + 1) =~= wanted.take(i as int).push(tag@));
            lemma_add_distinct_push(body_tags, wanted.take(i as int), tag@);
        }
        push_distinct(&mut tags, tag);
        i += 1;
    }
    assert(wanted.take(i as int) =~= wanted);
    let headings = headings_of(&body);
    let title = infer_title(path, &headings, &None);
    let outgoing_links = links_of(&body);
    let word_count = words_of(&body);
    NoteIndex {
        path: String::from_str(path),
        title,
        outgoing_links,
        tags,
        headings,
        word_count,
    }
}

/// The tags of an index: none stands twice, and each begins with `#`.
pub proof fn lemma_note_index_tags(
    path: Seq<char>,
    content: Seq<char>,
    frontmatter_tags: Seq<Seq<char>>,
)
    ensures
        note_index(path, content, frontmatter_tags).tags.no_duplicates(),
        forall|k: int|
            0 <= k < note_index(path, content, frontmatter_tags).tags.len() ==> (#[trigger] note_index(
                path,
                content,
                frontmatter_tags,
            ).tags[k]).len() > 0 && note_index(path, content, frontmatter_tags).tags[k][0] == '#',
{
    let body = strip_frontmatter(content);
    let named = frontmatter_tags.map_values(|t: Seq<char>| tag_name(t));
    let all = note_index(path, content, frontmatter_tags).tags;
    lemma_tags(body);
    crate::text::lemma_add_distinct_members(tags(body), named);
    assert forall|k: int| 0 <= k < all.len() implies (#[trigger] all[k]).len() > 0 && all[k][0]
        == '#' by {
        let t = all[k];
        assert(all.contains(t));
        if tags(body).contains(t) {
            let j = choose|j: int| 0 <= j < tags(body).len() && tags(body)[j] == t;
            assert(is_tag(tags(body)[j]));
        } else {
            assert(named.contains(t));
            let j = choose|j: int| 0 <= j < named.len() && named[j] == t;
            assert(t == tag_name(frontmatter_tags[j]));
        }
    }
}

/// Whether `t` has the form of a link target: it is not empty, neither
/// begins nor ends with whitespace, and holds none of `|`, `#` and `^`.
pub open spec fn is_link_name(t: Seq<char>) -> bool {
    &&& t.len() > 0
    &&& !is_whitespace(t[0])
    &&& !is_whitespace(t.last())
    &&& forall|i: int| 0 <= i < t.len() ==> !is_link_cut(#[trigger] t[i])
}

/// Before its first `|`, `#` or `^` a text holds none of them.
pub proof fn lemma_link_cut(s: Seq<char>)
    ensures
        0 <= link_cut(s) <= s.len(),
        forall|i: int| 0 <= i < link_cut(s) ==> !is_link_cut(#[trigger] s[i]),
    decreases s.len(),
{
    if s.len() == 0 || is_link_cut(s[0]) {
    } else {
        lemma_link_cut(s.drop_first());
        assert forall|i: int| 0 <= i < link_cut(s) implies !is_link_cut(#[trigger] s[i]) by {
            if i > 0 {
                assert(s[i] == s.drop_first()[i - 1]);
            }
        }
    }
}

/// The target that a span names has the form of a link target, unless it
/// is empty.
pub proof fn lemma_link_target(inner: Seq<char>)
    ensures
        link_target(inner).len() > 0 ==> is_link_name(link_target(inner)),
{
    let named = inner.take(link_cut(inner));
    let t = link_target(inner);
    lemma_link_cut(inner);
    crate::text::lemma_trim_shape(named);
    if t.len() > 0 {
        assert forall|i: int| 0 <= i < t.len() implies !is_link_cut(#[trigger] t[i]) by {
            assert(named.contains(t[i]));
            let j = choose|j: int| 0 <= j < named.len() && named[j] == t[i];
            assert(named[j] == inner[j]);
        }
    }
}

/// Every target that the scan finds has the form of a link target.
pub proof fn lemma_wikilinks_from(s: Seq<char>, i: int)
    requires
        0 <= i,
    ensures
        forall|k: int|
            0 <= k < wikilinks_from(s, i).len() ==> is_link_name(#[trigger] wikilinks_from(s, i)[k]),
    decreases s.len() + 1 - i,
{
    let found = wikilinks_from(s, i);
    if i + 1 >= s.len() {
        assert(found.len() == 0);
    } else if s[i] == '[' && s[i + 1] == '[' {
        let close = span_close(s, i + 2, 1);
        if !(i + 2 <= close < s.len()) {
            assert(found.len() == 0);
        } else if close + 1 < s.len() && s[close + 1] == ']' {
            let target = link_target(s.subrange(i + 2, close));
            let rest = wikilinks_from(s, close + 2);
            lemma_link_target(s.subrange(i + 2, close));
            lemma_wikilinks_from(s, close + 2);
            if target.len() > 0 {
                assert(found == seq![target] + rest);
                assert forall|k: int| 0 <= k < found.len() implies is_link_name(
                    #[trigger] found[k],
                ) by {
                    if k > 0 {
                        assert(found[k] == rest[k - 1]);
                    } else {
                        assert(found[0] == target);
                    }
                }
            } else {
                assert(found =~= rest);
            }
        } else {
            lemma_wikilinks_from(s, close + 1);
            assert(found == wikilinks_from(s, close + 1));
        }
    } else {
        lemma_wikilinks_from(s, i + 1);
        assert(found == wikilinks_from(s, i + 1));
    }
}

/// Every wikilink target of a text is a name: not empty, trimmed, and
/// without alias, heading or block id.
pub proof fn lemma_wikilinks(s: Seq<char>)
    ensures
        forall|k: int| 0 <= k < wikilinks(s).len() ==> is_link_name(#[trigger] wikilinks(s)[k]),
{
    lemma_wikilinks_from(s, 0);
}

/// The headings of the first `n` lines: each has a level from 1 to 6, a
/// text that is not empty, and the number of one of these lines; and they
/// stand in the order of their lines.
pub proof fn lemma_headings_upto(all: Seq<Seq<char>>, n: int)
    requires
        0 <= n <= all.len(),
    ensures
        forall|k: int|
            0 <= k < headings_upto(all, n).len() ==> {
                let h = #[trigger] headings_upto(all, n)[k];
                1 <= h.level <= 6 && h.text.len() > 0 && 1 <= h.line <= n
            },
        forall|i: int, j: int|
            0 <= i < j < headings_upto(all, n).len() ==> (#[trigger] headings_upto(all, n)[i]).line < (
            #[trigger] headings_upto(all, n)[j]).line,
    decreases n,
{
    if n > 0 {
        lemma_headings_upto(all, n - 1);
        let before = headings_upto(all, n - 1);
        let found = headings_upto(all, n);
        match heading_of(all[n - 1], n) {
            Some(h) => {
                assert(found == before.push(h));
                assert forall|k: int| 0 <= k < found.len() implies {
                    let x = #[trigger] found[k];
                    1 <= x.level <= 6 && x.text.len() > 0 && 1 <= x.line <= n
                } by {
                    if k < before.len() {
                        assert(found[k] == before[k]);
                    }
                }
                assert forall|i: int, j: int| 0 <= i < j < found.len() implies (
                #[trigger] found[i]).line < (#[trigger] found[j]).line by {
                    assert(found[i] == before[i]);
                    if j < before.len() {
                        assert(found[j] == before[j]);
                    }
                }
            },
            None => {
                assert(found == before);
            },
        }
    }
}

/// The headings of a text: each has a level from 1 to 6, a text that is
/// not empty, and the number of a line of the text; and they stand in the
/// order of their lines.
pub proof fn lemma_headings(s: Seq<char>)
    ensures
        forall|k: int|
            0 <= k < headings(s).len() ==> {
                let h = #[trigger] headings(s)[k];
                1 <= h.level <= 6 && h.text.len() > 0 && 1 <= h.line <= lines(s).len()
            },
        forall|i: int, j: int|
            0 <= i < j < headings(s).len() ==> (#[trigger] headings(s)[i]).line < (
            #[trigger] headings(s)[j]).line,
{
    lemma_headings_upto(lines(s), lines(s).len() as int);
}

} // verus!
