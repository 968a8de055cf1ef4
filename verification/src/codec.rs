//! Decimal byte strings.
//!
//! The deposit notification carries the lock duration as a decimal byte
//! string, and the token pool is named by a tag of the form `:` followed by
//! the pool number in decimal. Both directions are verified against the spec
//! functions below.

use vstd::prelude::*;

verus! {

/// The byte is an ASCII decimal digit.
pub open spec fn is_ascii_digit(b: u8) -> bool {
    48 <= b && b <= 57
}

/// Every byte of the string is an ASCII decimal digit.
pub open spec fn all_digits(s: Seq<u8>) -> bool {
    forall|i: int| 0 <= i < s.len() ==> is_ascii_digit(#[trigger] s[i])
}

/// The number a digit string denotes, most significant digit first.
pub open spec fn dec_value(s: Seq<u8>) -> int
    decreases s.len(),
{
    if s.len() == 0 {
        0
    } else {
        dec_value(s.drop_last()) * 10 + (s.last() - 48)
    }
}

/// What parsing a digit string as an unsigned 64-bit number yields: the
/// string must be nonempty, all digits, and denote a value that fits.
pub open spec fn parse_digits(s: Seq<u8>) -> Option<u64> {
    if s.len() > 0 && all_digits(s) && dec_value(s) <= u64::MAX {
        Some(dec_value(s) as u64)
    } else {
        None
    }
}

/// What parsing a decimal byte string as an unsigned 64-bit number yields:
/// one optional leading plus sign, then a nonempty digit string denoting a
/// value that fits.
pub open spec fn parse_u64(s: Seq<u8>) -> Option<u64> {
    if s.len() > 0 && s[0] == 43 {
        parse_digits(s.drop_first())
    } else {
        parse_digits(s)
    }
}

/// A digit string denotes a nonnegative number.
pub proof fn lemma_dec_value_nonneg(s: Seq<u8>)
    requires
        all_digits(s),
    ensures
        dec_value(s) >= 0,
    decreases s.len(),
{
    if s.len() > 0 {
        assert(all_digits(s.drop_last())) by {
            assert(forall|i: int|
                0 <= i < s.len() - 1 ==> s.drop_last()[i] == #[trigger] s[i]);
        }
        lemma_dec_value_nonneg(s.drop_last());
    }
}

/// A digit string denotes at least as much as any of its prefixes.
pub proof fn lemma_dec_value_prefix_le(s: Seq<u8>, k: int)
    requires
        all_digits(s),
        0 <= k <= s.len(),
    ensures
        dec_value(s.subrange(0, k)) <= dec_value(s),
    decreases s.len(),
{
    if k == s.len() {
        assert(s.subrange(0, k) =~= s);
    } else {
        assert(all_digits(s.drop_last())) by {
            assert(forall|i: int|
                0 <= i < s.len() - 1 ==> s.drop_last()[i] == #[trigger] s[i]);
        }
        assert(s.drop_last() =~= s.subrange(0, s.len() - 1));
        lemma_dec_value_prefix_le(s.drop_last(), k);
        assert(s.drop_last().subrange(0, k) =~= s.subrange(0, k));
        lemma_dec_value_nonneg(s.drop_last());
        assert(dec_value(s.drop_last()) * 10 + (s.last() - 48) >= dec_value(s.drop_last()));
    }
}

/// Copies the bytes of `v` from position `from` on.
fn tail_bytes(v: &Vec<u8>, from: usize) -> (r: Vec<u8>)
    requires
        from <= v@.len(),
    ensures
        r@ == v@.skip(from as int),
{
    let mut r: Vec<u8> = Vec::new();
    let mut i: usize = from;
    while i < v.len()
        invariant
            from <= i <= v@.len(),
            r@ == v@.subrange(from as int, i as int),
        decreases v@.len() - i,
    {
        r.push(v[i]);
        proof {
            assert(r@ =~= v@.subrange(from as int, i + 1));
        }
        i = i + 1;
    }
    proof {
        assert(v@.subrange(from as int, v@.len() as int) =~= v@.skip(from as int));
    }
    r
}

/// Parses a decimal byte string as an unsigned 64-bit number, accepting one
/// optional leading plus sign.
pub fn parse_u64_bytes(s: &Vec<u8>) -> (r: Option<u64>)
    ensures
        r == parse_u64(s@),
{
    if s.len() > 0 && s[0] == 43 {
        let rest = tail_bytes(s, 1);
        proof {
            assert(s@.drop_first() =~= s@.skip(1));
        }
        parse_digit_bytes(&rest)
    } else {
        parse_digit_bytes(s)
    }
}

/// Parses a digit string as an unsigned 64-bit number.
fn parse_digit_bytes(s: &Vec<u8>) -> (r: Option<u64>)
    ensures
        r == parse_digits(s@),
{
    if s.len() == 0 {
        return None;
    }
    let mut acc: u64 = 0;
    let mut i: usize = 0;
    proof {
        assert(s@.subrange(0, 0) =~= Seq::<u8>::empty());
    }
    while i < s.len()
        invariant
            i <= s@.len(),
            all_digits(s@.subrange(0, i as int)),
            acc == dec_value(s@.subrange(0, i as int)),
        decreases s@.len() - i,
    {
        let b = s[i];
        if b < 48 || b > 57 {
            assert(!all_digits(s@)) by {
                assert(!is_ascii_digit(s@[i as int]));
            }
            return None;
        }
        let d: u64 = (b - 48) as u64;
        proof {
            assert(s@.subrange(0, i + 1).drop_last() =~= s@.subrange(0, i as int));
            assert(s@.subrange(0, i + 1).last() == s@[i as int]);
            assert(all_digits(s@.subrange(0, i + 1))) by {
                assert(forall|j: int|
                    0 <= j < i + 1 ==> s@.subrange(0, i + 1)[j] == #[trigger] s@[j]);
            }
        }
        if acc > (u64::MAX - d) / 10 {
            proof {
                assert(acc * 10 + d > u64::MAX) by (nonlinear_arith)
                    requires
                        acc > (u64::MAX - d) / 10,
                        d <= 9,
                ;
                assert(dec_value(s@.subrange(0, i + 1)) == acc * 10 + d);
                if all_digits(s@) {
                    lemma_dec_value_prefix_le(s@, i + 1);
                    assert(dec_value(s@) > u64::MAX);
                }
            }
            return None;
        }
        proof {
            assert(acc * 10 + d <= u64::MAX) by (nonlinear_arith)
                requires
                    acc <= (u64::MAX - d) / 10,
                    d <= 9,
            ;
            assert(dec_value(s@.subrange(0, i + 1)) == acc * 10 + d);
        }
        acc = acc * 10 + d;
        i = i + 1;
    }
    proof {
        assert(s@.subrange(0, s@.len() as int) =~= s@);
    }
    Some(acc)
}

/// The decimal digits of a nonnegative number, most significant first,
/// without leading zeros.
pub open spec fn dec_digits(n: nat) -> Seq<u8>
    decreases n,
{
    if n < 10 {
        seq![(48 + n) as u8]
    } else {
        dec_digits(n / 10).push((48 + n % 10) as u8)
    }
}

/// The pool tag: a colon followed by the pool number in decimal.
pub open spec fn pool_tag(pool_id: u64) -> Seq<u8> {
    seq![58u8] + dec_digits(pool_id as nat)
}

/// Renders a number as its decimal digits.
pub fn render_u64(n: u64) -> (r: Vec<u8>)
    ensures
        r@ == dec_digits(n as nat),
{
    let mut rev: Vec<u8> = Vec::new();
    let mut m: u64 = n;
    proof {
        assert(dec_digits(n as nat) =~= dec_digits(m as nat) + rev@.reverse());
    }
    while m >= 10
        invariant
            dec_digits(n as nat) == dec_digits(m as nat) + rev@.reverse(),
        decreases m,
    {
        let d: u8 = (m % 10) as u8 + 48;
        proof {
            let rev2 = rev@.push(d);
            assert(rev2.reverse() =~= seq![d] + rev@.reverse());
            assert(dec_digits(m as nat) == dec_digits((m as nat) / 10).push(d));
            assert(dec_digits(m as nat) =~= dec_digits((m as nat) / 10) + seq![d]);
            assert(dec_digits((m / 10) as nat) + rev2.reverse() =~= dec_digits(m as nat)
                + rev@.reverse());
        }
        rev.push(d);
        m = m / 10;
    }
    let d: u8 = m as u8 + 48;
    proof {
        let rev2 = rev@.push(d);
        assert(rev2.reverse() =~= seq![d] + rev@.reverse());
        assert(dec_digits(m as nat) =~= seq![d]);
        assert(dec_digits(n as nat) =~= rev2.reverse());
    }
    rev.push(d);
    let len: usize = rev.len();
    let mut r: Vec<u8> = Vec::new();
    let mut j: usize = 0;
    while j < len
        invariant
            j <= len,
            len == rev@.len(),
            dec_digits(n as nat) == rev@.reverse(),
            r@ == rev@.reverse().subrange(0, j as int),
        decreases len - j,
    {
        r.push(rev[len - 1 - j]);
        proof {
            assert(rev@.reverse()[j as int] == rev@[len - 1 - j]);
            assert(r@ =~= rev@.reverse().subrange(0, j + 1));
        }
        j = j + 1;
    }
    proof {
        assert(rev@.reverse().subrange(0, len as int) =~= rev@.reverse());
    }
    r
}

} // verus!
