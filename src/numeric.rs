//! Decimal numbers as they appear in headers and on the command line.

use vstd::prelude::*;

verus! {

/// An ASCII digit `0`..`9`.
pub open spec fn is_digit(b: u8) -> bool {
    48 <= b <= 57
}

/// Every byte of `s` is a digit.
pub open spec fn all_digits(s: Seq<u8>) -> bool {
    forall|i: int| 0 <= i < s.len() ==> is_digit(#[trigger] s[i])
}

/// The number written by the digits `s`, most significant first.
pub open spec fn decimal_value(s: Seq<u8>) -> nat
    decreases s.len(),
{
    if s.len() == 0 {
        0
    } else {
        decimal_value(s.drop_last()) * 10 + (s.last() - 48) as nat
    }
}

/// `s` is a non-empty run of digits whose value is at most `max`.
pub open spec fn is_decimal_within(s: Seq<u8>, max: nat) -> bool {
    s.len() > 0 && all_digits(s) && decimal_value(s) <= max
}

/// The shortest decimal spelling of `n`.
pub open spec fn decimal_digits(n: nat) -> Seq<u8>
    decreases n,
{
    if n < 10 {
        seq![(48 + n) as u8]
    } else {
        decimal_digits(n / 10) + seq![(48 + n % 10) as u8]
    }
}

proof fn lemma_value_grows(s: Seq<u8>, i: int, j: int)
    requires
        all_digits(s),
        0 <= i <= j <= s.len(),
    ensures
        decimal_value(s.take(i)) <= decimal_value(s.take(j)),
    decreases j - i,
{
    if i < j {
        lemma_value_grows(s, i, j - 1);
        assert(s.take(j).drop_last() =~= s.take(j - 1));
        assert(is_digit(s[j - 1]));
    }
}

/// Reads `s[start..end]` as a decimal number no larger than `u64::MAX`.
pub fn parse_u64(s: &[u8], start: usize, end: usize) -> (r: Option<u64>)
    requires
        start <= end <= s@.len(),
    ensures
        r is Some <==> is_decimal_within(s@.subrange(start as int, end as int), u64::MAX as nat),
        r matches Some(v) ==> v as nat == decimal_value(s@.subrange(start as int, end as int)),
{
    let ghost t = s@.subrange(start as int, end as int);
    if start == end {
        return None;
    }
    let mut acc: u64 = 0;
    let mut i: usize = start;
    while i < end
        invariant
            start <= i <= end <= s@.len(),
            t == s@.subrange(start as int, end as int),
            all_digits(t.take(i - start)),
            acc as nat == decimal_value(t.take(i - start)),
        decreases end - i,
    {
        let b = s[i];
        proof {
            assert(t.take(i - start + 1).drop_last() =~= t.take(i - start));
        }
        if b < 48 || b > 57 {
            assert(!is_digit(t[i - start]));
            return None;
        }
        let d = (b - 48) as u64;
        if acc > (u64::MAX - d) / 10 {
            proof {
                if all_digits(t) {
                    lemma_value_grows(t, i - start + 1, t.len() as int);
                    assert(t.take(t.len() as int) =~= t);
                }
            }
            return None;
        }
        proof {
            assert forall|k: int| 0 <= k < i - start + 1 implies is_digit(
                #[trigger] t.take(i - start + 1)[k],
            ) by {
                if k < i - start {
                    assert(t.take(i - start + 1)[k] == t.take(i - start)[k]);
                }
            }
        }
        acc = acc * 10 + d;
        i = i + 1;
    }
    assert(t.take(t.len() as int) =~= t);
    Some(acc)
}

/// Appends the bytes of `s` to `out`.
pub(crate) fn push_all(out: &mut Vec<u8>, s: &[u8])
    ensures
        final(out)@ == old(out)@ + s@,
{
    let mut i: usize = 0;
    while i < s.len()
        invariant
            i <= s@.len(),
            out@ == old(out)@ + s@.take(i as int),
        decreases s@.len() - i,
    {
        out.push(s[i]);
        i = i + 1;
        assert(out@ =~= old(out)@ + s@.take(i as int));
    }
    assert(s@.take(s@.len() as int) =~= s@);
}

/// Appends the decimal spelling of `n` to `out`.
pub fn push_decimal(out: &mut Vec<u8>, n: u64)
    ensures
        final(out)@ == old(out)@ + decimal_digits(n as nat),
    decreases n,
{
    if n < 10 {
        out.push((48 + n) as u8);
    } else {
        push_decimal(out, n / 10);
        out.push((48 + n % 10) as u8);
    }
    assert(final(out)@ =~= old(out)@ + decimal_digits(n as nat));
}

} // verus!
