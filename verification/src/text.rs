//! Character-level text primitives shared by the scanners: whitespace
//! trimming, line splitting, pattern search and word counting, each with the
//! mathematical function that defines it.

use vstd::prelude::*;

verus! {

/// Whether `c` carries the Unicode property White_Space: the controls from
/// tab to carriage return, the space, next line, the no-break space, the
/// ogham space mark, the spaces from en quad to hair space, the line and
/// paragraph separators, the narrow no-break space, the medium mathematical
/// space and the ideographic space.
pub open spec fn is_whitespace(c: char) -> bool {
    ||| '\u{9}' <= c <= '\u{d}'
    ||| c == ' '
    ||| c == '\u{85}'
    ||| c == '\u{a0}'
    ||| c == '\u{1680}'
    ||| '\u{2000}' <= c <= '\u{200a}'
    ||| c == '\u{2028}'
    ||| c == '\u{2029}'
    ||| c == '\u{202f}'
    ||| c == '\u{205f}'
    ||| c == '\u{3000}'
}

/// Whether `c` is alphabetic or numeric in the Unicode sense, as
/// `char::is_alphanumeric` reports it.
pub uninterp spec fn is_alphanumeric(c: char) -> bool;

/// The lowercase form of a string, as `str::to_lowercase` computes it.
pub uninterp spec fn lowercase(s: Seq<char>) -> Seq<char>;

/// Calls `char::is_whitespace`. Trusted: the result is the White_Space
/// property of `c`, of which [`is_whitespace`] lists the 25 characters.
#[verifier::external_body]
pub(crate) fn char_is_whitespace(c: char) -> (r: bool)
    ensures
        r == is_whitespace(c),
{
    c.is_whitespace()
}

/// Calls `char::is_alphanumeric`. Trusted: the result is the
/// classification named [`is_alphanumeric`].
#[verifier::external_body]
pub(crate) fn char_is_alphanumeric(c: char) -> (r: bool)
    ensures
        r == is_alphanumeric(c),
{
    c.is_alphanumeric()
}

/// Calls `str::to_lowercase`. Trusted: the result is the lowercase form of
/// `s`, named [`lowercase`]; nothing is claimed about its length or content.
#[verifier::external_body]
pub(crate) fn str_to_lowercase(s: &str) -> (r: String)
    ensures
        r@ == lowercase(s@),
{
    s.to_lowercase()
}

/// Calls `String::push`. Trusted: the string afterwards is the string
/// before with `c` appended.
#[verifier::external_body]
pub(crate) fn string_push(s: &mut String, c: char)
    ensures
        final(s)@ == old(s)@.push(c),
{
    s.push(c)
}

/// The characters of `s`, in order.
pub fn to_chars(s: &str) -> (r: Vec<char>)
    ensures
        r@ == s@,
{
    let mut v: Vec<char> = Vec::new();
    for c in it: s.chars()
        invariant
            v@ == it.seq().take(it.index() as int),
    {
        v.push(c);
    }
    v
}

/// The string made of `v[from..to]`.
pub fn string_from(v: &Vec<char>, from: usize, to: usize) -> (r: String)
    requires
        from <= to <= v.len(),
    ensures
        r@ == v@.subrange(from as int, to as int),
{
    let mut s = String::new();
    let mut i: usize = from;
    while i < to
        invariant
            from <= i <= to <= v.len(),
            s@ == v@.subrange(from as int, i as int),
        decreases to - i,
    {
        string_push(&mut s, v[i]);
        i += 1;
        assert(s@ =~= v@.subrange(from as int, i as int));
    }
    s
}

/// A copy of `v[from..to]`.
pub fn copy_range(v: &Vec<char>, from: usize, to: usize) -> (r: Vec<char>)
    requires
        from <= to <= v.len(),
    ensures
        r@ == v@.subrange(from as int, to as int),
{
    let mut out: Vec<char> = Vec::new();
    let mut i: usize = from;
    while i < to
        invariant
            from <= i <= to <= v.len(),
            out@ == v@.subrange(from as int, i as int),
        decreases to - i,
    {
        out.push(v[i]);
        i += 1;
        assert(out@ =~= v@.subrange(from as int, i as int));
    }
    out
}

/// `s` without its leading whitespace.
pub open spec fn trim_start(s: Seq<char>) -> Seq<char>
    decreases s.len(),
{
    if s.len() > 0 && is_whitespace(s[0]) {
        trim_start(s.drop_first())
    } else {
        s
    }
}

/// `s` without its trailing whitespace.
pub open spec fn trim_end(s: Seq<char>) -> Seq<char>
    decreases s.len(),
{
    if s.len() > 0 && is_whitespace(s.last()) {
        trim_end(s.drop_last())
    } else {
        s
    }
}

/// `s` without leading and trailing whitespace.
pub open spec fn trim(s: Seq<char>) -> Seq<char> {
    trim_end(trim_start(s))
}

/// The start of `v[from..to]` once its leading whitespace is dropped.
pub fn trim_start_index(v: &Vec<char>, from: usize, to: usize) -> (r: usize)
    requires
        from <= to <= v.len(),
    ensures
        from <= r <= to,
        v@.subrange(r as int, to as int) == trim_start(v@.subrange(from as int, to as int)),
{
    let mut i: usize = from;
    while i < to && char_is_whitespace(v[i])
        invariant
            from <= i <= to <= v.len(),
            trim_start(v@.subrange(i as int, to as int)) == trim_start(
                v@.subrange(from as int, to as int),
            ),
        decreases to - i,
    {
        assert(v@.subrange(i as int, to as int).drop_first() =~= v@.subrange(
            i as int + 1,
            to as int,
        ));
        i += 1;
    }
    i
}

/// The end of `v[from..to]` once its trailing whitespace is dropped.
pub fn trim_end_index(v: &Vec<char>, from: usize, to: usize) -> (r: usize)
    requires
        from <= to <= v.len(),
    ensures
        from <= r <= to,
        v@.subrange(from as int, r as int) == trim_end(v@.subrange(from as int, to as int)),
{
    let mut i: usize = to;
    while i > from && char_is_whitespace(v[i - 1])
        invariant
            from <= i <= to <= v.len(),
            trim_end(v@.subrange(from as int, i as int)) == trim_end(
                v@.subrange(from as int, to as int),
            ),
        decreases i,
    {
        assert(v@.subrange(from as int, i as int).drop_last() =~= v@.subrange(
            from as int,
            i as int - 1,
        ));
        i -= 1;
    }
    i
}

/// The bounds of `v[from..to]` once whitespace is dropped at both ends.
pub fn trim_bounds(v: &Vec<char>, from: usize, to: usize) -> (r: (usize, usize))
    requires
        from <= to <= v.len(),
    ensures
        from <= r.0 <= r.1 <= to,
        v@.subrange(r.0 as int, r.1 as int) == trim(v@.subrange(from as int, to as int)),
{
    let a = trim_start_index(v, from, to);
    let b = trim_end_index(v, a, to);
    (a, b)
}

/// Whether `p` occurs in `s` at position `i`.
pub open spec fn occurs_at(s: Seq<char>, p: Seq<char>, i: int) -> bool {
    0 <= i && i + p.len() <= s.len() && s.subrange(i, i + p.len()) == p
}

/// Whether `p` occurs in `s` at some position before `n`.
pub open spec fn occurs_before(s: Seq<char>, p: Seq<char>, n: int) -> bool {
    exists|i: int| 0 <= i < n && occurs_at(s, p, i)
}

/// Whether `p` occurs anywhere in `s`.
pub open spec fn contains(s: Seq<char>, p: Seq<char>) -> bool {
    exists|i: int| occurs_at(s, p, i)
}

/// The first position at which `p` occurs in `s`, if it occurs at all.
pub open spec fn first_occurrence(s: Seq<char>, p: Seq<char>) -> Option<int> {
    if contains(s, p) {
        Some(choose|i: int| occurs_at(s, p, i) && !occurs_before(s, p, i))
    } else {
        None
    }
}

/// A position at which `p` occurs, with no occurrence before it, is the
/// first occurrence.
pub proof fn lemma_first_occurrence(s: Seq<char>, p: Seq<char>, i: int)
    requires
        occurs_at(s, p, i),
        !occurs_before(s, p, i),
    ensures
        first_occurrence(s, p) == Some(i),
{
    let j = choose|j: int| occurs_at(s, p, j) && !occurs_before(s, p, j);
    if j < i {
        assert(occurs_before(s, p, i));
    }
    if i < j {
        assert(occurs_before(s, p, j));
    }
}

/// Whether `p` occurs in `v[from..to]` at offset `at - from`.
pub fn matches_at(v: &Vec<char>, from: usize, to: usize, p: &Vec<char>, at: usize) -> (r: bool)
    requires
        from <= at <= to <= v.len(),
    ensures
        r == occurs_at(v@.subrange(from as int, to as int), p@, at - from),
{
    let ghost s = v@.subrange(from as int, to as int);
    if p.len() > to - at {
        return false;
    }
    let mut k: usize = 0;
    while k < p.len()
        invariant
            from <= at <= to <= v.len(),
            p.len() <= to - at,
            k <= p.len(),
            s == v@.subrange(from as int, to as int),
            forall|j: int| 0 <= j < k ==> v@[at + j] == p@[j],
        decreases p.len() - k,
    {
        if v[at + k] != p[k] {
            proof {
                let w = s.subrange(at - from, at - from + p.len());
                assert(w[k as int] == v@[at + k]);
            }
            return false;
        }
        k += 1;
    }
    assert(s.subrange(at - from, at - from + p.len()) =~= p@);
    true
}

/// The first position at which `p` occurs in `v[from..to]`, counted from
/// `from`, if there is one.
pub fn find(v: &Vec<char>, from: usize, to: usize, p: &Vec<char>) -> (r: Option<usize>)
    requires
        from <= to <= v.len(),
    ensures
        match r {
            Some(i) => {
                &&& occurs_at(v@.subrange(from as int, to as int), p@, i as int)
                &&& !occurs_before(v@.subrange(from as int, to as int), p@, i as int)
            },
            None => !contains(v@.subrange(from as int, to as int), p@),
        },
        match r {
            Some(i) => first_occurrence(v@.subrange(from as int, to as int), p@) == Some(
                i as int,
            ) && from + i + p.len() <= to,
            None => first_occurrence(v@.subrange(from as int, to as int), p@) is None,
        },
{
    let ghost s = v@.subrange(from as int, to as int);
    let mut at: usize = from;
    while at <= to
        invariant
            from <= at <= to + 1,
            to <= v.len(),
            s == v@.subrange(from as int, to as int),
            !occurs_before(s, p@, at - from),
        decreases to + 1 - at,
    {
        if matches_at(v, from, to, p, at) {
            proof {
                lemma_first_occurrence(s, p@, at - from);
            }
            return Some(at - from);
        }
        if at == to {
            assert forall|i: int| !occurs_at(s, p@, i) by {
                if occurs_at(s, p@, i) {
                    assert(0 <= i <= to - from);
                    if i < to - from {
                        assert(occurs_before(s, p@, at - from));
                    }
                }
            }
            return None;
        }
        assert(!occurs_before(s, p@, at - from + 1)) by {
            if occurs_before(s, p@, at - from + 1) {
                let i = choose|i: int| 0 <= i < at - from + 1 && occurs_at(s, p@, i);
                if i < at - from {
                    assert(occurs_before(s, p@, at - from));
                }
            }
        }
        at += 1;
    }
    None
}

/// The position of the first line feed in `s`, or the length of `s` if it
/// has none.
pub open spec fn line_end(s: Seq<char>) -> int
    decreases s.len(),
{
    if s.len() == 0 || s[0] == '\n' {
        0
    } else {
        1 + line_end(s.drop_first())
    }
}

/// `s` without one trailing carriage return.
pub open spec fn strip_cr(s: Seq<char>) -> Seq<char> {
    if s.len() > 0 && s.last() == '\r' {
        s.drop_last()
    } else {
        s
    }
}

/// The lines of `s`: the text is cut at every line feed, a carriage return
/// directly before a line feed belongs to the line ending, and a line
/// ending at the very end of the text opens no further line.
pub open spec fn lines(s: Seq<char>) -> Seq<Seq<char>>
    decreases s.len(),
{
    if s.len() == 0 {
        Seq::empty()
    } else {
        let n = line_end(s);
        if 0 <= n < s.len() {
            seq![strip_cr(s.take(n))] + lines(s.skip(n + 1))
        } else {
            seq![s]
        }
    }
}

/// The first line of a text ends within it, at a line feed or at the end of
/// the text, and holds no line feed.
pub proof fn lemma_line_end_bounds(s: Seq<char>)
    ensures
        0 <= line_end(s) <= s.len(),
        line_end(s) < s.len() ==> s[line_end(s)] == '\n',
        forall|i: int| 0 <= i < line_end(s) ==> s[i] != '\n',
    decreases s.len(),
{
    if s.len() == 0 || s[0] == '\n' {
    } else {
        lemma_line_end_bounds(s.drop_first());
        assert forall|i: int| 0 <= i < line_end(s) implies s[i] != '\n' by {
            if i > 0 {
                assert(s[i] == s.drop_first()[i - 1]);
            }
        }
    }
}

/// The position of the first line feed in `v[from..]`, or the length of `v`.
pub fn find_line_end(v: &Vec<char>, from: usize) -> (r: usize)
    requires
        from <= v.len(),
    ensures
        from <= r <= v.len(),
        r - from == line_end(v@.skip(from as int)),
{
    let mut i: usize = from;
    while i < v.len() && v[i] != '\n'
        invariant
            from <= i <= v.len(),
            line_end(v@.skip(from as int)) == (i - from) + line_end(v@.skip(i as int)),
        decreases v.len() - i,
    {
        assert(v@.skip(i as int).drop_first() =~= v@.skip(i as int + 1));
        i += 1;
    }
    i
}

/// The lines of `text`, each as a vector of its own.
pub fn split_lines(text: &Vec<char>) -> (out: Vec<Vec<char>>)
    ensures
        out.deep_view() == lines(text@),
        out.len() == lines(text@).len(),
        forall|k: int| 0 <= k < out.len() ==> (#[trigger] out[k])@ == lines(text@)[k],
{
    let mut out: Vec<Vec<char>> = Vec::new();
    let mut start: usize = 0;
    assert(out.deep_view() =~= Seq::<Seq<char>>::empty());
    assert(text@.skip(0) =~= text@);
    while start < text.len()
        invariant
            start <= text.len(),
            out.deep_view() + lines(text@.skip(start as int)) == lines(text@),
        decreases text.len() - start,
    {
        let ghost rest = text@.skip(start as int);
        let ghost before = out.deep_view();
        let end = find_line_end(text, start);
        let stop = if end < text.len() && end > start && text[end - 1] == '\r' {
            end - 1
        } else {
            end
        };
        let line = copy_range(text, start, stop);
        out.push(line);
        proof {
            assert(rest.take(end - start) =~= text@.subrange(start as int, end as int));
            if end < text.len() {
                assert(line@ =~= strip_cr(rest.take(end - start)));
                assert(rest.skip(end - start + 1) =~= text@.skip(end as int + 1));
            } else {
                assert(line@ =~= rest);
                assert(text@.skip(text.len() as int) =~= Seq::<char>::empty());
            }
            assert(line.deep_view() =~= line@);
            assert(out.deep_view() =~= before.push(line@));
        }
        start = if end < text.len() {
            end + 1
        } else {
            end
        };
        assert(before.push(line@) + lines(text@.skip(start as int)) =~= before + lines(rest));
    }
    assert(text@.skip(start as int) =~= Seq::<char>::empty());
    assert(out.deep_view() + Seq::<Seq<char>>::empty() =~= out.deep_view());
    assert forall|k: int| 0 <= k < out.len() implies (#[trigger] out[k])@ == lines(text@)[k] by {
        assert(out.deep_view()[k] == out[k].deep_view());
        assert(out[k].deep_view() =~= out[k]@);
    }
    out
}

/// `acc` followed by `t`, unless `acc` holds `t` already.
pub open spec fn push_unique(acc: Seq<Seq<char>>, t: Seq<char>) -> Seq<Seq<char>> {
    if acc.contains(t) {
        acc
    } else {
        acc.push(t)
    }
}

/// `acc` followed by the members of `more` that it lacks, each once, in the
/// order in which they first occur.
pub open spec fn add_distinct(acc: Seq<Seq<char>>, more: Seq<Seq<char>>) -> Seq<Seq<char>>
    decreases more.len(),
{
    if more.len() == 0 {
        acc
    } else {
        add_distinct(push_unique(acc, more[0]), more.drop_first())
    }
}

/// The members of `s`, each once, in the order in which they first occur.
pub open spec fn distinct(s: Seq<Seq<char>>) -> Seq<Seq<char>> {
    add_distinct(Seq::empty(), s)
}

/// Adding `a + b` is adding `a` and then `b`.
pub proof fn lemma_add_distinct_concat(acc: Seq<Seq<char>>, a: Seq<Seq<char>>, b: Seq<Seq<char>>)
    ensures
        add_distinct(acc, a + b) == add_distinct(add_distinct(acc, a), b),
    decreases a.len(),
{
    if a.len() == 0 {
        assert(a + b =~= b);
    } else {
        assert((a + b).drop_first() =~= a.drop_first() + b);
        lemma_add_distinct_concat(push_unique(acc, a[0]), a.drop_first(), b);
    }
}

/// Adding one more member at the end is a [`push_unique`] on what the
/// others gave.
pub proof fn lemma_add_distinct_push(acc: Seq<Seq<char>>, more: Seq<Seq<char>>, t: Seq<char>)
    ensures
        add_distinct(acc, more.push(t)) == push_unique(add_distinct(acc, more), t),
{
    reveal_with_fuel(add_distinct, 2);
    lemma_add_distinct_concat(acc, more, seq![t]);
    assert(more.push(t) =~= more + seq![t]);
    assert(seq![t].drop_first() =~= Seq::<Seq<char>>::empty());
}

/// What [`add_distinct`] returns holds exactly the members of both
/// arguments, and nothing twice if `acc` held nothing twice.
pub proof fn lemma_add_distinct_members(acc: Seq<Seq<char>>, more: Seq<Seq<char>>)
    ensures
        forall|t: Seq<char>|
            add_distinct(acc, more).contains(t) <==> acc.contains(t) || more.contains(t),
        acc.no_duplicates() ==> add_distinct(acc, more).no_duplicates(),
        acc.len() <= add_distinct(acc, more).len() <= acc.len() + more.len(),
    decreases more.len(),
{
    if more.len() > 0 {
        let next = push_unique(acc, more[0]);
        lemma_add_distinct_members(next, more.drop_first());
        assert forall|t: Seq<char>|
            add_distinct(acc, more).contains(t) <==> acc.contains(t) || more.contains(t) by {
            if more.contains(t) {
                let i = choose|i: int| 0 <= i < more.len() && more[i] == t;
                if i > 0 {
                    assert(more.drop_first()[i - 1] == t);
                }
            }
            if more.drop_first().contains(t) {
                let i = choose|i: int| 0 <= i < more.drop_first().len() && more.drop_first()[i] == t;
                assert(more[i + 1] == t);
            }
            if next.contains(t) && !acc.contains(t) {
                let i = choose|i: int| 0 <= i < next.len() && next[i] == t;
                assert(i == acc.len());
                assert(more[0] == t);
            }
            if acc.contains(t) {
                let i = choose|i: int| 0 <= i < acc.len() && acc[i] == t;
                assert(next[i] == t);
            }
            if more[0] == t {
                if !acc.contains(t) {
                    assert(next[acc.len() as int] == t);
                }
            }
        }
    }
}

/// Whether `v` holds a string equal to `t`.
pub fn holds_string(v: &Vec<String>, t: &String) -> (r: bool)
    ensures
        r == v.deep_view().contains(t@),
{
    let mut i: usize = 0;
    while i < v.len()
        invariant
            i <= v.len(),
            forall|j: int| 0 <= j < i ==> v.deep_view()[j] != t@,
        decreases v.len() - i,
    {
        if v[i] == *t {
            assert(v.deep_view()[i as int] == t@);
            return true;
        }
        i += 1;
    }
    false
}

/// Appends `t` to `v` unless `v` holds an equal string.
pub fn push_distinct(v: &mut Vec<String>, t: String)
    ensures
        final(v).deep_view() == push_unique(old(v).deep_view(), t@),
{
    if !holds_string(v, &t) {
        let ghost before = v.deep_view();
        let ghost tv = t@;
        v.push(t);
        assert(v.deep_view() =~= before.push(tv));
    }
}

/// The number of words in `s`: the maximal runs of characters that are not
/// whitespace. A word starts wherever a non-whitespace character stands
/// first or follows a whitespace character.
pub open spec fn word_count(s: Seq<char>) -> nat
    decreases s.len(),
{
    if s.len() == 0 {
        0
    } else {
        let before = word_count(s.drop_last());
        if starts_word(s, s.len() - 1) {
            before + 1
        } else {
            before
        }
    }
}

/// Whether a word starts at position `i` of `s`.
pub open spec fn starts_word(s: Seq<char>, i: int) -> bool {
    0 <= i < s.len() && !is_whitespace(s[i]) && (i == 0 || is_whitespace(s[i - 1]))
}

/// A text has no more words than characters.
pub proof fn lemma_word_count_bound(s: Seq<char>)
    ensures
        word_count(s) <= s.len(),
    decreases s.len(),
{
    if s.len() > 0 {
        lemma_word_count_bound(s.drop_last());
    }
}

/// The number of words in `v[from..to]`.
pub fn count_words_in(v: &Vec<char>, from: usize, to: usize) -> (r: usize)
    requires
        from <= to <= v.len(),
    ensures
        r == word_count(v@.subrange(from as int, to as int)),
{
    let mut n: usize = 0;
    let mut i: usize = from;
    let mut prev_space = true;
    assert(v@.subrange(from as int, from as int) =~= Seq::<char>::empty());
    while i < to
        invariant
            from <= i <= to <= v.len(),
            n == word_count(v@.subrange(from as int, i as int)),
            prev_space == (i == from || is_whitespace(v@[i - 1])),
        decreases to - i,
    {
        let space = char_is_whitespace(v[i]);
        proof {
            let s = v@.subrange(from as int, i as int + 1);
            assert(s.drop_last() =~= v@.subrange(from as int, i as int));
            lemma_word_count_bound(s);
        }
        if !space && prev_space {
            n += 1;
        }
        prev_space = space;
        i += 1;
    }
    n
}

/// The lengths of the members of `all`, added up.
pub open spec fn total_len(all: Seq<Seq<char>>) -> nat
    decreases all.len(),
{
    if all.len() == 0 {
        0
    } else {
        all[0].len() + total_len(all.drop_first())
    }
}

/// The lines of a text are together no longer than the text.
pub proof fn lemma_lines_total_len(s: Seq<char>)
    ensures
        total_len(lines(s)) <= s.len(),
    decreases s.len(),
{
    if s.len() > 0 {
        lemma_line_end_bounds(s);
        let n = line_end(s);
        if n < s.len() {
            lemma_lines_total_len(s.skip(n + 1));
            assert(lines(s).drop_first() =~= lines(s.skip(n + 1)));
            assert(lines(s)[0] == strip_cr(s.take(n)));
            assert(lines(s)[0].len() <= n);
        } else {
            assert(lines(s).drop_first() =~= Seq::<Seq<char>>::empty());
            assert(lines(s)[0] == s);
            assert(total_len(lines(s).drop_first()) == 0);
        }
    }
}

/// Trimming makes a text no longer.
pub proof fn lemma_trim_len(s: Seq<char>)
    ensures
        trim_start(s).len() <= s.len(),
        trim_end(s).len() <= s.len(),
        trim(s).len() <= s.len(),
    decreases s.len(),
{
    if s.len() > 0 {
        lemma_trim_len(s.drop_first());
        lemma_trim_len(s.drop_last());
    }
    lemma_trim_end_len(trim_start(s));
}

/// Dropping trailing whitespace makes a text no longer.
proof fn lemma_trim_end_len(s: Seq<char>)
    ensures
        trim_end(s).len() <= s.len(),
    decreases s.len(),
{
    if s.len() > 0 {
        lemma_trim_end_len(s.drop_last());
    }
}

/// What is left of a text without its leading whitespace is the end of the
/// text, and does not begin with whitespace.
pub proof fn lemma_trim_start_shape(s: Seq<char>)
    ensures
        trim_start(s).len() <= s.len(),
        trim_start(s) == s.skip(s.len() - trim_start(s).len()),
        trim_start(s).len() > 0 ==> !is_whitespace(trim_start(s)[0]),
    decreases s.len(),
{
    if s.len() > 0 && is_whitespace(s[0]) {
        lemma_trim_start_shape(s.drop_first());
        let t = trim_start(s);
        assert(s.drop_first().skip(s.drop_first().len() - t.len()) =~= s.skip(s.len() - t.len()));
    } else {
        assert(s.skip(0) =~= s);
    }
}

/// What is left of a text without its trailing whitespace is the start of
/// the text, and does not end with whitespace.
pub proof fn lemma_trim_end_shape(s: Seq<char>)
    ensures
        trim_end(s).len() <= s.len(),
        trim_end(s) == s.take(trim_end(s).len() as int),
        trim_end(s).len() > 0 ==> !is_whitespace(trim_end(s).last()),
    decreases s.len(),
{
    if s.len() > 0 && is_whitespace(s.last()) {
        lemma_trim_end_shape(s.drop_last());
        let t = trim_end(s);
        assert(s.drop_last().take(t.len() as int) =~= s.take(t.len() as int));
    } else {
        assert(s.take(s.len() as int) =~= s);
    }
}

/// A trimmed text is a part of the text, and neither begins nor ends with
/// whitespace.
pub proof fn lemma_trim_shape(s: Seq<char>)
    ensures
        forall|i: int| 0 <= i < trim(s).len() ==> s.contains(#[trigger] trim(s)[i]),
        trim(s).len() > 0 ==> !is_whitespace(trim(s)[0]) && !is_whitespace(trim(s).last()),
{
    let a = trim_start(s);
    let t = trim(s);
    lemma_trim_start_shape(s);
    lemma_trim_end_shape(a);
    assert forall|i: int| 0 <= i < t.len() implies s.contains(#[trigger] t[i]) by {
        assert(t[i] == a[i]);
        assert(a[i] == s[s.len() - a.len() + i]);
    }
    if t.len() > 0 {
        assert(t[0] == a[0]);
    }
}

} // verus!
