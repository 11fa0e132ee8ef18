//! Decimal text of integers: how std's `to_string` writes them and how
//! `str::parse` reads them back, stated over ASCII bytes.
use vstd::prelude::*;

verus! {

/// An ASCII decimal digit.
pub open spec fn is_digit(b: u8) -> bool {
    48 <= b <= 57
}

/// Every byte is an ASCII decimal digit.
pub open spec fn all_digits(s: Seq<u8>) -> bool {
    forall|k: int| 0 <= k < s.len() ==> is_digit(#[trigger] s[k])
}

/// The decimal digits of `n`, most significant first, without leading zeros.
pub open spec fn digits_of(n: nat) -> Seq<u8>
    decreases n,
{
    if n < 10 {
        seq![(48 + n) as u8]
    } else {
        digits_of(n / 10).push((48 + n % 10) as u8)
    }
}

/// The decimal text of `n`: a minus sign for negative values, then the digits.
pub open spec fn int_text(n: int) -> Seq<u8> {
    if n < 0 {
        seq![45u8] + digits_of((-n) as nat)
    } else {
        digits_of(n as nat)
    }
}

/// The value of a string of decimal digits.
pub open spec fn digits_value(s: Seq<u8>) -> nat
    decreases s.len(),
{
    if s.len() == 0 {
        0
    } else {
        digits_value(s.drop_last()) * 10 + (s.last() - 48) as nat
    }
}

/// The sign (true when negative) and the digit part of a number's text, as
/// std accepts them: an optional `+`, or for signed types `-`, then one or
/// more digits.
pub open spec fn split_sign(s: Seq<u8>, signed: bool) -> Option<(bool, Seq<u8>)> {
    if s.len() == 0 {
        None
    } else if s[0] == 43u8 || (signed && s[0] == 45u8) {
        if s.len() == 1 {
            None
        } else {
            Some((s[0] == 45u8, s.skip(1)))
        }
    } else {
        Some((false, s))
    }
}

/// What `str::parse::<i64>` gives for text with these bytes.
pub open spec fn parse_i64(s: Seq<u8>) -> Option<i64> {
    match split_sign(s, true) {
        None => None,
        Some((neg, ds)) => {
            if !all_digits(ds) {
                None
            } else {
                let v: int = if neg { -(digits_value(ds) as int) } else { digits_value(ds) as int };
                if i64::MIN <= v <= i64::MAX {
                    Some(v as i64)
                } else {
                    None
                }
            }
        },
    }
}

/// What `str::parse::<usize>` gives for text with these bytes.
pub open spec fn parse_usize(s: Seq<u8>) -> Option<usize> {
    match split_sign(s, false) {
        None => None,
        Some((_, ds)) => {
            if all_digits(ds) && digits_value(ds) <= usize::MAX {
                Some(digits_value(ds) as usize)
            } else {
                None
            }
        },
    }
}

/// The digits of a number are digits, and read back to the number.
pub proof fn lemma_digits_of(n: nat)
    ensures
        all_digits(digits_of(n)),
        digits_value(digits_of(n)) == n,
        digits_of(n).len() >= 1,
    decreases n,
{
    if n >= 10 {
        lemma_digits_of(n / 10);
        let s = digits_of(n);
        assert(s.drop_last() =~= digits_of(n / 10));
        assert(n == (n / 10) * 10 + n % 10);
        assert(digits_value(s) == digits_value(digits_of(n / 10)) * 10 + (n % 10));
        assert forall|k: int| 0 <= k < s.len() implies is_digit(#[trigger] s[k]) by {
            if k < s.len() - 1 {
                assert(s[k] == digits_of(n / 10)[k]);
            }
        }
    } else {
        let s = digits_of(n);
        assert(s.drop_last() =~= Seq::<u8>::empty());
        assert(digits_value(s) == digits_value(s.drop_last()) * 10 + (s.last() - 48) as nat);
    }
}

/// A prefix of a digit string reads to no more than the whole.
pub proof fn lemma_digits_prefix_le(s: Seq<u8>, k: int)
    requires
        all_digits(s),
        0 <= k <= s.len(),
    ensures
        digits_value(s.take(k)) <= digits_value(s),
    decreases s.len(),
{
    if k < s.len() {
        assert(s.drop_last().take(k) =~= s.take(k));
        assert(all_digits(s.drop_last()));
        lemma_digits_prefix_le(s.drop_last(), k);
    } else {
        assert(s.take(k) =~= s);
    }
}

/// Appends the decimal digits of `n` to `out`.
pub fn push_digits(out: &mut Vec<u8>, n: u64)
    ensures
        final(out)@ == old(out)@ + digits_of(n as nat),
    decreases n,
{
    if n >= 10 {
        push_digits(out, n / 10);
    }
    out.push(48u8 + (n % 10) as u8);
    proof {
        if n >= 10 {
            assert(final(out)@ =~= old(out)@ + digits_of(n as nat)) by {
                assert(digits_of(n as nat) == digits_of((n / 10) as nat).push((48 + n % 10) as u8));
            }
        } else {
            assert(final(out)@ =~= old(out)@ + digits_of(n as nat));
        }
    }
}

/// Appends the decimal text of `n` (as `n.to_string()` writes it) to `out`.
pub fn push_int_text(out: &mut Vec<u8>, n: i64)
    ensures
        final(out)@ == old(out)@ + int_text(n as int),
{
    if n < 0 {
        out.push(45u8);
        let m: u64 = (0i128 - n as i128) as u64;
        push_digits(out, m);
        assert(final(out)@ =~= old(out)@ + int_text(n as int));
    } else {
        push_digits(out, n as u64);
    }
}

/// Reads a digit string; `None` when its value exceeds `limit`
/// (the value is then above `limit` whether or not all bytes are digits).
fn digits_upto(ds: &[u8], limit: u64) -> (r: Option<u64>)
    requires
        limit >= 9,
    ensures
        match r {
            Some(v) => all_digits(ds@) && v as nat == digits_value(ds@) && v <= limit,
            None => !all_digits(ds@) || digits_value(ds@) > limit,
        },
{
    let n = ds.len();
    let mut acc: u64 = 0;
    let mut k: usize = 0;
    while k < n
        invariant
            0 <= k <= n,
            n == ds@.len(),
            all_digits(ds@.take(k as int)),
            acc as nat == digits_value(ds@.take(k as int)),
            acc <= limit,
            limit >= 9,
        decreases n - k,
    {
        let b = ds[k];
        if b < 48u8 || b > 57u8 {
            assert(!is_digit(ds@[k as int]));
            return None;
        }
        proof {
            assert(ds@.take(k + 1).drop_last() =~= ds@.take(k as int));
            assert(all_digits(ds@.take(k + 1))) by {
                assert forall|m: int| 0 <= m < k + 1 implies is_digit(#[trigger] ds@.take(k + 1)[m]) by {
                    if m < k {
                        assert(ds@.take(k + 1)[m] == ds@.take(k as int)[m]);
                    }
                }
            }
        }
        let d = (b - 48u8) as u64;
        if acc > (limit - d) / 10 {
            proof {
                assert(acc * 10 + d > limit) by (nonlinear_arith)
                    requires acc > (limit - d) / 10, d <= 9, d <= limit;
                if all_digits(ds@) {
                    lemma_digits_prefix_le(ds@, k + 1);
                }
            }
            return None;
        }
        proof {
            assert(acc * 10 + d <= limit) by (nonlinear_arith)
                requires acc <= (limit - d) / 10, d <= limit;
        }
        acc = acc * 10 + d;
        k = k + 1;
    }
    assert(ds@.take(n as int) =~= ds@);
    Some(acc)
}

/// Parses text as `str::parse::<i64>` does.
pub fn parse_i64_bytes(s: &[u8]) -> (r: Option<i64>)
    ensures
        r == parse_i64(s@),
{
    if s.len() == 0 {
        return None;
    }
    let first = s[0];
    if first == 43u8 || first == 45u8 {
        if s.len() == 1 {
            return None;
        }
        let ds = vstd::slice::slice_subrange(s, 1, s.len());
        assert(ds@ =~= s@.skip(1));
        if first == 45u8 {
            match digits_upto(ds, 9223372036854775808u64) {
                Some(v) => {
                    if v == 9223372036854775808u64 {
                        Some(i64::MIN)
                    } else {
                        Some(0i64 - (v as i64))
                    }
                },
                None => None,
            }
        } else {
            match digits_upto(ds, 9223372036854775807u64) {
                Some(v) => Some(v as i64),
                None => None,
            }
        }
    } else {
        match digits_upto(s, 9223372036854775807u64) {
            Some(v) => Some(v as i64),
            None => None,
        }
    }
}

/// Parses text as `str::parse::<usize>` does.
pub fn parse_usize_bytes(s: &[u8]) -> (r: Option<usize>)
    ensures
        r == parse_usize(s@),
{
    if s.len() == 0 {
        return None;
    }
    let ds = if s[0] == 43u8 {
        if s.len() == 1 {
            return None;
        }
        vstd::slice::slice_subrange(s, 1, s.len())
    } else {
        s
    };
    assert(s@[0] == 43u8 ==> ds@ =~= s@.skip(1));
    match digits_upto(ds, usize::MAX as u64) {
        Some(v) => Some(v as usize),
        None => None,
    }
}

} // verus!

verus! {

/// `parse::<i64>` reads back what `to_string` wrote.
pub proof fn lemma_parse_int_text(n: int)
    requires
        i64::MIN <= n <= i64::MAX,
    ensures
        parse_i64(int_text(n)) == Some(n as i64),
        forall|k: int| 0 <= k < int_text(n).len() ==> (is_digit(#[trigger] int_text(n)[k]) || int_text(n)[k] == 45u8),
{
    if n < 0 {
        lemma_digits_of((-n) as nat);
        let s = int_text(n);
        assert(s.skip(1) =~= digits_of((-n) as nat));
        assert forall|k: int| 0 <= k < s.len() implies (is_digit(#[trigger] s[k]) || s[k] == 45u8) by {
            if k > 0 {
                assert(s[k] == digits_of((-n) as nat)[k - 1]);
            }
        }
    } else {
        lemma_digits_of(n as nat);
        assert(is_digit(digits_of(n as nat)[0]));
    }
}

/// `parse::<usize>` reads back the digits of a `usize`.
pub proof fn lemma_parse_digits(n: nat)
    requires
        n <= usize::MAX,
    ensures
        parse_usize(digits_of(n)) == Some(n as usize),
        all_digits(digits_of(n)),
{
    lemma_digits_of(n);
    assert(is_digit(digits_of(n)[0]));
}

} // verus!
