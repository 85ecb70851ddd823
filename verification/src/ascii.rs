//! Byte-level helpers for the ASCII fragments of the WARC grammar:
//! whitespace trimming, case folding of header names, and decimal numbers.

use vstd::prelude::*;

verus! {

/// ASCII whitespace as the WARC field grammar understands it:
/// space, horizontal tab, carriage return, line feed.
pub open spec fn is_ws(b: u8) -> bool {
    b == 32 || b == 9 || b == 13 || b == 10
}

/// One byte with ASCII uppercase folded to lowercase; all other bytes
/// (including non-ASCII ones) are kept unchanged.
pub open spec fn fold_byte(b: u8) -> u8 {
    if 65 <= b && b <= 90 {
        (b + 32) as u8
    } else {
        b
    }
}

/// A byte string with every ASCII uppercase letter folded to lowercase.
pub open spec fn fold_seq(s: Seq<u8>) -> Seq<u8> {
    s.map_values(|b: u8| fold_byte(b))
}

/// Folding twice is the same as folding once.
pub proof fn lemma_fold_idempotent(s: Seq<u8>)
    ensures
        fold_seq(fold_seq(s)) == fold_seq(s),
{
    assert(fold_seq(fold_seq(s)) =~= fold_seq(s));
}

/// `s` without its trailing ASCII whitespace.
pub open spec fn rtrim_seq(s: Seq<u8>) -> Seq<u8>
    decreases s.len(),
{
    if s.len() > 0 && is_ws(s[s.len() - 1]) {
        rtrim_seq(s.drop_last())
    } else {
        s
    }
}

/// `s` without its leading ASCII whitespace.
pub open spec fn ltrim_seq(s: Seq<u8>) -> Seq<u8>
    decreases s.len(),
{
    if s.len() > 0 && is_ws(s[0]) {
        ltrim_seq(s.subrange(1, s.len() as int))
    } else {
        s
    }
}

/// `s` without leading and trailing ASCII whitespace.
pub open spec fn trim_seq(s: Seq<u8>) -> Seq<u8> {
    rtrim_seq(ltrim_seq(s))
}

/// Runtime test for [`is_ws`].
pub fn is_ws_byte(b: u8) -> (r: bool)
    ensures
        r == is_ws(b),
{
    b == 32 || b == 9 || b == 13 || b == 10
}

/// Drop trailing ASCII whitespace in place.
pub fn rtrim(s: &mut Vec<u8>)
    ensures
        final(s)@ == rtrim_seq(old(s)@),
{
    loop
        invariant
            rtrim_seq(s@) == rtrim_seq(old(s)@),
        ensures
            s@.len() == 0 || !is_ws(s@[s@.len() - 1]),
        decreases s@.len(),
    {
        let n = s.len();
        if n > 0 && is_ws_byte(s[n - 1]) {
            let ghost prev = s@;
            s.pop();
            assert(s@ == prev.drop_last());
        } else {
            break;
        }
    }
}

/// Dropping leading whitespace one byte at a time skips exactly the
/// leading whitespace run.
proof fn lemma_ltrim_skip(s: Seq<u8>, i: int)
    requires
        0 <= i <= s.len(),
        forall|j: int| 0 <= j < i ==> is_ws(#[trigger] s[j]),
        i == s.len() || !is_ws(s[i]),
    ensures
        ltrim_seq(s) == s.subrange(i, s.len() as int),
    decreases i,
{
    if i == 0 {
        assert(s.subrange(0, s.len() as int) =~= s);
    } else {
        let t = s.subrange(1, s.len() as int);
        assert(forall|j: int| 0 <= j < i - 1 ==> t[j] == #[trigger] s[j + 1]);
        lemma_ltrim_skip(t, i - 1);
        assert(t.subrange(i - 1, t.len() as int) =~= s.subrange(i, s.len() as int));
    }
}

/// A copy of `s` without leading and trailing ASCII whitespace.
pub fn trim(s: &[u8]) -> (r: Vec<u8>)
    ensures
        r@ == trim_seq(s@),
{
    let n = s.len();
    let mut i: usize = 0;
    loop
        invariant
            i <= n == s@.len(),
            forall|j: int| 0 <= j < i ==> is_ws(#[trigger] s@[j]),
        ensures
            i <= n,
            forall|j: int| 0 <= j < i ==> is_ws(#[trigger] s@[j]),
            i == n || !is_ws(s@[i as int]),
        decreases n - i,
    {
        if i == n {
            break;
        }
        if !is_ws_byte(s[i]) {
            break;
        }
        i = i + 1;
    }
    proof {
        lemma_ltrim_skip(s@, i as int);
    }
    let rest = vstd::slice::slice_subrange(s, i, n);
    let mut r = vstd::slice::slice_to_vec(rest);
    rtrim(&mut r);
    r
}

/// An ASCII decimal digit.
pub open spec fn is_digit(b: u8) -> bool {
    48 <= b && b <= 57
}

/// Every byte of `s` is an ASCII decimal digit.
pub open spec fn all_digits(s: Seq<u8>) -> bool {
    forall|i: int| 0 <= i < s.len() ==> is_digit(#[trigger] s[i])
}

/// The integer denoted by a string of decimal digits (most significant first).
pub open spec fn dec_value(s: Seq<u8>) -> int
    decreases s.len(),
{
    if s.len() == 0 {
        0
    } else {
        dec_value(s.drop_last()) * 10 + (s.last() - 48)
    }
}

/// The digit part of a decimal number: an optional leading ASCII `+` sign
/// is dropped, as the usual integer parsers accept one.
pub open spec fn digits_part(s: Seq<u8>) -> Seq<u8> {
    if s.len() > 0 && s[0] == 43 {
        s.subrange(1, s.len() as int)
    } else {
        s
    }
}

/// `s` denotes a non-negative decimal integer that fits in `usize`:
/// after an optional `+` sign, one or more digits whose value is at most
/// `usize::MAX`.
pub open spec fn is_dec_usize(s: Seq<u8>) -> bool {
    let d = digits_part(s);
    d.len() > 0 && all_digits(d) && dec_value(d) <= usize::MAX as int
}

/// A digit string denotes a non-negative number.
pub proof fn lemma_dec_value_nonneg(s: Seq<u8>)
    requires
        all_digits(s),
    ensures
        dec_value(s) >= 0,
    decreases s.len(),
{
    if s.len() > 0 {
        assert(all_digits(s.drop_last())) by {
            assert(forall|i: int|
                0 <= i < s.len() - 1 ==> s.drop_last()[i] == #[trigger] s[i]);
        }
        lemma_dec_value_nonneg(s.drop_last());
    }
}

/// Extending a digit string to the right never lowers its value.
pub proof fn lemma_dec_value_prefix_le(s: Seq<u8>, k: int)
    requires
        all_digits(s),
        0 <= k <= s.len(),
    ensures
        dec_value(s.take(k)) <= dec_value(s),
    decreases s.len() - k,
{
    if k < s.len() {
        lemma_dec_value_prefix_le(s, k + 1);
        let t = s.take(k + 1);
        assert(all_digits(t)) by {
            assert(forall|i: int| 0 <= i < t.len() ==> t[i] == #[trigger] s[i]);
        }
        assert(t.drop_last() =~= s.take(k));
        assert(dec_value(t) == dec_value(s.take(k)) * 10 + (t.last() - 48));
        assert(all_digits(s.take(k))) by {
            assert(forall|i: int|
                0 <= i < s.take(k).len() ==> s.take(k)[i] == #[trigger] s[i]);
        }
        lemma_dec_value_nonneg(s.take(k));
        assert(dec_value(s.take(k)) <= dec_value(t)) by (nonlinear_arith)
            requires
                dec_value(t) == dec_value(s.take(k)) * 10 + (t.last() - 48),
                48 <= t.last() <= 57,
                dec_value(s.take(k)) >= 0,
        ;
    } else {
        assert(s.take(k) =~= s);
    }
}

/// Parse `s` as a non-negative decimal `usize`.
///
/// Returns `Some` exactly when [`is_dec_usize`] holds of `s`, and the
/// returned number is then the denoted value.
pub fn parse_dec_usize(s: &[u8]) -> (r: Option<usize>)
    ensures
        r is Some <==> is_dec_usize(s@),
        r matches Some(x) ==> x as int == dec_value(digits_part(s@)),
{
    let ghost d = digits_part(s@);
    let mut i: usize = 0;
    if s.len() > 0 && s[0] == 43 {
        i = 1;
    }
    assert(d =~= s@.subrange(i as int, s@.len() as int));
    if i >= s.len() {
        assert(d.len() == 0);
        return None;
    }
    let start = i;
    let mut n: usize = 0;
    while i < s.len()
        invariant
            start <= i <= s@.len(),
            d == digits_part(s@),
            d == s@.subrange(start as int, s@.len() as int),
            d.len() == s@.len() - start,
            all_digits(d.take(i - start)),
            n == dec_value(d.take(i - start)),
        decreases s@.len() - i,
    {
        let b = s[i];
        assert(d[i - start] == b);
        if !(48 <= b && b <= 57) {
            proof {
                assert(!is_digit(d[i as int - start as int]));
                assert(!all_digits(d));
            }
            return None;
        }
        let dig = (b - 48) as usize;
        let ghost taken = d.take(i - start + 1);
        assert(taken.drop_last() =~= d.take(i - start));
        assert(taken.last() == b);
        assert(dec_value(taken) == n * 10 + dig);
        if n > (usize::MAX - dig) / 10 {
            proof {
                assert(n * 10 + dig > usize::MAX) by (nonlinear_arith)
                    requires
                        n > (usize::MAX - dig) / 10,
                        0 <= dig <= 9,
                ;
                assert(all_digits(taken));
                if all_digits(d) {
                    lemma_dec_value_prefix_le(d, i as int - start as int + 1);
                    assert(dec_value(d) > usize::MAX as int);
                }
                assert(!is_dec_usize(s@));
            }
            return None;
        }
        assert(n * 10 + dig <= usize::MAX) by (nonlinear_arith)
            requires
                n <= (usize::MAX - dig) / 10,
                0 <= dig <= 9,
        ;
        n = n * 10 + dig;
        i = i + 1;
    }
    assert(d.take(i - start) =~= d);
    Some(n)
}

} // verus!
