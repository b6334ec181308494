//! Order: the lexicographic order of texts and a stable sort, stated once
//! for every relation by which rows are ranked.

use vstd::prelude::*;
use vstd::seq_lib::to_multiset_insert;

verus! {

/// Whether `a` comes before `b` in lexicographic order, character by
/// character in the order of their code points; a proper prefix comes
/// first.
pub open spec fn lex_less(a: Seq<char>, b: Seq<char>) -> bool
    decreases a.len(),
{
    if b.len() == 0 {
        false
    } else if a.len() == 0 {
        true
    } else if a[0] != b[0] {
        (a[0] as int) < (b[0] as int)
    } else {
        lex_less(a.drop_first(), b.drop_first())
    }
}

/// No text comes before itself.
pub proof fn lemma_lex_less_irreflexive(a: Seq<char>)
    ensures
        !lex_less(a, a),
    decreases a.len(),
{
    if a.len() > 0 {
        lemma_lex_less_irreflexive(a.drop_first());
    }
}

/// The lexicographic order is transitive.
pub proof fn lemma_lex_less_transitive(a: Seq<char>, b: Seq<char>, c: Seq<char>)
    requires
        lex_less(a, b),
        lex_less(b, c),
    ensures
        lex_less(a, c),
    decreases a.len(),
{
    if a.len() > 0 && a[0] == b[0] && b[0] == c[0] {
        lemma_lex_less_transitive(a.drop_first(), b.drop_first(), c.drop_first());
    }
}

/// Whether `a` comes before `b` in lexicographic order.
pub fn text_less(a: &Vec<char>, b: &Vec<char>) -> (r: bool)
    ensures
        r == lex_less(a@, b@),
{
    let mut i: usize = 0;
    assert(a@.skip(0) =~= a@);
    assert(b@.skip(0) =~= b@);
    while i < a.len() && i < b.len()
        invariant
            i <= a.len(),
            i <= b.len(),
            lex_less(a@, b@) == lex_less(a@.skip(i as int), b@.skip(i as int)),
        decreases a.len() - i,
    {
        if a[i] != b[i] {
            return a[i] < b[i];
        }
        assert(a@.skip(i as int).drop_first() =~= a@.skip(i as int + 1));
        assert(b@.skip(i as int).drop_first() =~= b@.skip(i as int + 1));
        i += 1;
    }
    i < b.len()
}

/// The first position of `s` whose member `x` outranks, or the length of
/// `s` if `x` outranks none.
pub open spec fn first_outranked<T>(s: Seq<T>, x: T, outranks: spec_fn(T, T) -> bool) -> int
    decreases s.len(),
{
    if s.len() == 0 || outranks(x, s[0]) {
        0
    } else {
        1 + first_outranked(s.drop_first(), x, outranks)
    }
}

/// `s` with `x` put in before the first member that it outranks.
pub open spec fn placed<T>(s: Seq<T>, x: T, outranks: spec_fn(T, T) -> bool) -> Seq<T> {
    s.insert(first_outranked(s, x, outranks), x)
}

/// The members of `s` in the order of their rank, best first; members of
/// which neither outranks the other stay in the order they had.
pub open spec fn stable_sort<T>(s: Seq<T>, outranks: spec_fn(T, T) -> bool) -> Seq<T>
    decreases s.len(),
{
    if s.len() == 0 {
        Seq::empty()
    } else {
        placed(stable_sort(s.drop_last(), outranks), s.last(), outranks)
    }
}

/// Whether nothing outranks itself and whatever outranks a member that
/// outranks a third also outranks the third.
pub open spec fn is_strict_order<T>(outranks: spec_fn(T, T) -> bool) -> bool {
    &&& forall|a: T| !#[trigger] outranks(a, a)
    &&& forall|a: T, b: T, c: T| #[trigger]
        outranks(a, b) && #[trigger] outranks(b, c) ==> outranks(a, c)
}

/// Whether no member of `s` is outranked by a later one.
pub open spec fn in_order<T>(s: Seq<T>, outranks: spec_fn(T, T) -> bool) -> bool {
    forall|i: int, j: int| 0 <= i < j < s.len() ==> !#[trigger] outranks(s[j], s[i])
}

/// The first member that `x` outranks: `x` outranks none before it, and it
/// lies within the sequence or at its end.
pub proof fn lemma_first_outranked<T>(s: Seq<T>, x: T, outranks: spec_fn(T, T) -> bool)
    ensures
        0 <= first_outranked(s, x, outranks) <= s.len(),
        forall|k: int| 0 <= k < first_outranked(s, x, outranks) ==> !#[trigger] outranks(x, s[k]),
        first_outranked(s, x, outranks) < s.len() ==> outranks(
            x,
            s[first_outranked(s, x, outranks)],
        ),
    decreases s.len(),
{
    if s.len() == 0 || outranks(x, s[0]) {
    } else {
        lemma_first_outranked(s.drop_first(), x, outranks);
        assert forall|k: int| 0 <= k < first_outranked(s, x, outranks) implies !#[trigger] outranks(
            x,
            s[k],
        ) by {
            if k > 0 {
                assert(s[k] == s.drop_first()[k - 1]);
            }
        }
    }
}

/// Putting a member in place keeps a sequence in order.
pub proof fn lemma_placed_in_order<T>(s: Seq<T>, x: T, outranks: spec_fn(T, T) -> bool)
    requires
        is_strict_order(outranks),
        in_order(s, outranks),
    ensures
        in_order(placed(s, x, outranks), outranks),
{
    lemma_first_outranked(s, x, outranks);
    let p = first_outranked(s, x, outranks);
    let r = placed(s, x, outranks);
    assert forall|i: int, j: int| 0 <= i < j < r.len() implies !#[trigger] outranks(r[j], r[i]) by {
        if j == p {
            assert(r[i] == s[i]);
        } else if i == p {
            assert(r[j] == s[j - 1]);
            if outranks(r[j], x) {
                if j - 1 > p {
                    assert(!outranks(s[j - 1], s[p]));
                }
                assert(outranks(x, s[p]));
                assert(outranks(s[j - 1], s[p]));
            }
        } else {
            let a = if i < p {
                i
            } else {
                i - 1
            };
            let b = if j < p {
                j
            } else {
                j - 1
            };
            assert(r[i] == s[a]);
            assert(r[j] == s[b]);
            assert(a < b);
        }
    }
}

/// A sorted sequence has the members of the unsorted one, each as often, and
/// is in order where the ranking is a strict order.
pub proof fn lemma_stable_sort<T>(s: Seq<T>, outranks: spec_fn(T, T) -> bool)
    ensures
        stable_sort(s, outranks).len() == s.len(),
        stable_sort(s, outranks).to_multiset() == s.to_multiset(),
        is_strict_order(outranks) ==> in_order(stable_sort(s, outranks), outranks),
    decreases s.len(),
{
    if s.len() == 0 {
        assert(s =~= Seq::<T>::empty());
    } else {
        let before = stable_sort(s.drop_last(), outranks);
        lemma_stable_sort(s.drop_last(), outranks);
        lemma_first_outranked(before, s.last(), outranks);
        to_multiset_insert(before, first_outranked(before, s.last(), outranks), s.last());
        assert(s =~= s.drop_last().push(s.last()));
        vstd::seq_lib::to_multiset_build(s.drop_last(), s.last());
        if is_strict_order(outranks) {
            lemma_placed_in_order(before, s.last(), outranks);
        }
    }
}

/// Sorting holds on to every member: what is in the result was in the
/// unsorted sequence, and the reverse.
pub proof fn lemma_stable_sort_members<T>(s: Seq<T>, outranks: spec_fn(T, T) -> bool)
    ensures
        forall|x: T| stable_sort(s, outranks).contains(x) <==> s.contains(x),
{
    lemma_stable_sort(s, outranks);
    assert forall|x: T| stable_sort(s, outranks).contains(x) <==> s.contains(x) by {
        vstd::seq_lib::to_multiset_contains(stable_sort(s, outranks), x);
        vstd::seq_lib::to_multiset_contains(s, x);
    }
}

} // verus!
