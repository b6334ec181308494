//! Decimal numbers as they stand in the front matter of a note.

use vstd::prelude::*;

verus! {

/// The value of a decimal digit.
pub open spec fn digit_value(c: char) -> Option<int> {
    if '0' <= c <= '9' {
        Some(c as int - '0' as int)
    } else {
        None
    }
}

/// The number that a sequence of decimal digits writes; none for the empty
/// sequence and for one that holds another character.
pub open spec fn decimal(s: Seq<char>) -> Option<int>
    decreases s.len(),
{
    if s.len() == 0 {
        None
    } else if s.len() == 1 {
        digit_value(s[0])
    } else {
        match (decimal(s.drop_last()), digit_value(s.last())) {
            (Some(a), Some(d)) => Some(10 * a + d),
            _ => None,
        }
    }
}

/// The number that a text writes: digits, with `+` or `-` in front or
/// without a sign; none where the text has another form or the number is out
/// of the range of 64 bits.
pub open spec fn parsed_i64(s: Seq<char>) -> Option<i64> {
    let negative = s.len() > 0 && s[0] == '-';
    let signed = s.len() > 0 && (s[0] == '-' || s[0] == '+');
    let digits = if signed {
        s.drop_first()
    } else {
        s
    };
    match decimal(digits) {
        Some(v) => {
            let n = if negative {
                -v
            } else {
                v
            };
            if i64::MIN <= n <= i64::MAX {
                Some(n as i64)
            } else {
                None
            }
        },
        None => None,
    }
}

/// A sequence of digits writes a number that is not negative and not
/// smaller than the number that any prefix of it writes; a sequence with
/// another character in a prefix writes none.
pub proof fn lemma_decimal_prefix(s: Seq<char>, k: int)
    requires
        1 <= k <= s.len(),
    ensures
        decimal(s.take(k)) is None ==> decimal(s) is None,
        decimal(s) is Some ==> 0 <= decimal(s.take(k))->0 <= decimal(s)->0,
    decreases s.len(),
{
    if k == s.len() {
        assert(s.take(k) =~= s);
        lemma_decimal_nonnegative(s);
    } else {
        assert(s.drop_last().take(k) =~= s.take(k));
        lemma_decimal_prefix(s.drop_last(), k);
        lemma_decimal_nonnegative(s.drop_last());
    }
}

/// The number that digits write is not negative.
pub proof fn lemma_decimal_nonnegative(s: Seq<char>)
    ensures
        decimal(s) is Some ==> decimal(s)->0 >= 0,
    decreases s.len(),
{
    if s.len() > 1 {
        lemma_decimal_nonnegative(s.drop_last());
    }
}

/// The number that `v[from..]` writes in digits, if it is at most `limit`.
fn parse_digits(v: &Vec<char>, from: usize, limit: u64) -> (r: Option<u64>)
    requires
        from <= v.len(),
        9 <= limit <= 0x8000_0000_0000_0000,
    ensures
        match r {
            Some(n) => decimal(v@.skip(from as int)) == Some(n as int) && n <= limit,
            None => decimal(v@.skip(from as int)) is None || decimal(v@.skip(from as int))->0
                > limit,
        },
{
    let ghost s = v@.skip(from as int);
    if from == v.len() {
        return None;
    }
    let mut acc: u64 = 0;
    let mut i: usize = from;
    while i < v.len()
        invariant
            from <= i <= v.len(),
            from < v.len(),
            s == v@.skip(from as int),
            9 <= limit <= 0x8000_0000_0000_0000,
            acc <= limit,
            i > from ==> decimal(s.take(i - from)) == Some(acc as int),
            i == from ==> acc == 0,
        decreases v.len() - i,
    {
        let c = v[i];
        let ghost k = i - from + 1;
        proof {
            assert(s.take(k).drop_last() =~= s.take(k - 1));
            assert(s.take(k).last() == c);
            lemma_decimal_prefix(s, k);
        }
        if !('0' <= c && c <= '9') {
            return None;
        }
        let d: u64 = (c as u8 - '0' as u8) as u64;
        assert(digit_value(c) == Some(d as int));
        if acc > (limit - d) / 10 {
            assert(10 * acc + d > limit);
            return None;
        }
        acc = acc * 10 + d;
        i += 1;
    }
    assert(s.take(i - from) =~= s);
    Some(acc)
}

/// Reads a number of 64 bits in decimal notation.
pub fn parse_i64(text: &str) -> (r: Option<i64>)
    ensures
        r == parsed_i64(text@),
{
    let v = crate::text::to_chars(text);
    let negative = v.len() > 0 && v[0] == '-';
    let signed = v.len() > 0 && (v[0] == '-' || v[0] == '+');
    let from: usize = if signed {
        1
    } else {
        0
    };
    proof {
        if signed {
            assert(v@.skip(1) =~= v@.drop_first());
        } else {
            assert(v@.skip(0) =~= v@);
        }
    }
    if negative {
        match parse_digits(&v, from, 0x8000_0000_0000_0000) {
            Some(n) => {
                if n == 0x8000_0000_0000_0000 {
                    Some(i64::MIN)
                } else {
                    Some(-(n as i64))
                }
            },
            None => None,
        }
    } else {
        match parse_digits(&v, from, 0x7fff_ffff_ffff_ffff) {
            Some(n) => Some(n as i64),
            None => None,
        }
    }
}

} // verus!
