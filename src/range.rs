//! The `Range` request header: a single byte range.

use vstd::prelude::*;
use crate::numeric::{decimal_value, is_decimal_within, parse_u64};

verus! {

/// One byte range as written in a `Range` header, before the file size is known.
#[derive(Clone, Copy, Debug, PartialEq, Eq, Structural)]
pub enum ByteRange {
    /// `bytes=first-last`
    Bounded(u64, u64),
    /// `bytes=first-`
    From(u64),
    /// `bytes=-count`: the last `count` bytes.
    Suffix(u64),
}

/// The unit prefix `bytes=`.
pub open spec fn unit_prefix() -> Seq<u8> {
    seq![98u8, 121u8, 116u8, 101u8, 115u8, 61u8]
}

/// `k` is the position of the first `-` in `s`.
pub open spec fn is_first_dash(s: Seq<u8>, k: int) -> bool {
    0 <= k < s.len() && s[k] == 45 && forall|j: int| 0 <= j < k ==> s[j] != 45
}

/// What a header value `h` asks for, split at the first `-` after the unit.
pub open spec fn range_of_header(h: Seq<u8>) -> Option<ByteRange> {
    if h.len() < 6 || h.take(6) != unit_prefix() {
        None
    } else {
        let rest = h.skip(6);
        if !(exists|k: int| is_first_dash(rest, k)) {
            None
        } else {
            let k = choose|k: int| is_first_dash(rest, k);
            let left = rest.take(k);
            let right = rest.skip(k + 1);
            let max = u64::MAX as nat;
            if left.len() == 0 {
                if is_decimal_within(right, max) {
                    Some(ByteRange::Suffix(decimal_value(right) as u64))
                } else {
                    None
                }
            } else if !is_decimal_within(left, max) {
                None
            } else if right.len() == 0 {
                Some(ByteRange::From(decimal_value(left) as u64))
            } else if is_decimal_within(right, max) && decimal_value(left) <= decimal_value(right) {
                Some(ByteRange::Bounded(decimal_value(left) as u64, decimal_value(right) as u64))
            } else {
                None
            }
        }
    }
}

/// The inclusive span `(first, last)` that `r` selects in a file of `size` bytes,
/// or `None` where it selects nothing.
pub open spec fn span_of(r: ByteRange, size: u64) -> Option<(u64, u64)> {
    match r {
        ByteRange::Bounded(a, b) => if a < size && a <= b {
            Some((a, if b < size { b } else { (size - 1) as u64 }))
        } else {
            None
        },
        ByteRange::From(a) => if a < size {
            Some((a, (size - 1) as u64))
        } else {
            None
        },
        ByteRange::Suffix(n) => if n > 0 && size > 0 {
            Some(((size - (if n < size { n } else { size })) as u64, (size - 1) as u64))
        } else {
            None
        },
    }
}

proof fn lemma_first_dash_unique(s: Seq<u8>, k: int, m: int)
    requires
        is_first_dash(s, k),
        is_first_dash(s, m),
    ensures
        k == m,
{
    if k < m {
        assert(s[k] != 45);
    } else if m < k {
        assert(s[m] != 45);
    }
}

/// Reads a `Range` header value. `None` where it is not one satisfiable-or-not single
/// byte range (a malformed header is ignored by the caller).
pub fn parse_range(h: &[u8]) -> (r: Option<ByteRange>)
    ensures
        r == range_of_header(h@),
{
    let n = h.len();
    if n < 6 || h[0] != 98 || h[1] != 121 || h[2] != 116 || h[3] != 101 || h[4] != 115
        || h[5] != 61 {
        proof {
            if n >= 6 {
                assert(h@.take(6)[0] == h@[0]);
                assert(h@.take(6)[1] == h@[1]);
                assert(h@.take(6)[2] == h@[2]);
                assert(h@.take(6)[3] == h@[3]);
                assert(h@.take(6)[4] == h@[4]);
                assert(h@.take(6)[5] == h@[5]);
            }
        }
        return None;
    }
    assert(h@.take(6) =~= unit_prefix());
    let ghost rest = h@.skip(6);
    let mut d: usize = 6;
    while d < n && h[d] != 45
        invariant
            6 <= d <= n == h@.len(),
            rest == h@.skip(6),
            forall|j: int| 0 <= j < d - 6 ==> rest[j] != 45,
        decreases n - d,
    {
        d = d + 1;
    }
    if d == n {
        assert(!exists|k: int| is_first_dash(rest, k));
        return None;
    }
    let ghost k = d - 6;
    assert(is_first_dash(rest, k));
    proof {
        let c = choose|c: int| is_first_dash(rest, c);
        lemma_first_dash_unique(rest, k, c);
    }
    assert(rest.take(k) =~= h@.subrange(6, d as int));
    assert(rest.skip(k + 1) =~= h@.subrange(d + 1, n as int));
    if d == 6 {
        match parse_u64(h, d + 1, n) {
            Some(c) => Some(ByteRange::Suffix(c)),
            None => None,
        }
    } else {
        match parse_u64(h, 6, d) {
            None => None,
            Some(a) => if d + 1 == n {
                Some(ByteRange::From(a))
            } else {
                match parse_u64(h, d + 1, n) {
                    Some(b) => if a <= b {
                        Some(ByteRange::Bounded(a, b))
                    } else {
                        None
                    },
                    None => None,
                }
            },
        }
    }
}

/// The inclusive span that `r` selects in a file of `size` bytes.
pub fn span(r: ByteRange, size: u64) -> (s: Option<(u64, u64)>)
    ensures
        s == span_of(r, size),
        s matches Some((a, b)) ==> a <= b < size,
{
    match r {
        ByteRange::Bounded(a, b) => if a < size && a <= b {
            Some((a, if b < size { b } else { size - 1 }))
        } else {
            None
        },
        ByteRange::From(a) => if a < size {
            Some((a, size - 1))
        } else {
            None
        },
        ByteRange::Suffix(n) => if n > 0 && size > 0 {
            Some((size - (if n < size { n } else { size }), size - 1))
        } else {
            None
        },
    }
}

/// The header value `bytes=0-` asks for everything from the first byte on.
pub proof fn lemma_from_start_header()
    ensures
        range_of_header(seq![98u8, 121u8, 116u8, 101u8, 115u8, 61u8, 48u8, 45u8]) == Some(
            ByteRange::From(0),
        ),
{
    let h = seq![98u8, 121u8, 116u8, 101u8, 115u8, 61u8, 48u8, 45u8];
    assert(h.take(6) =~= unit_prefix());
    let rest = h.skip(6);
    assert(rest =~= seq![48u8, 45u8]);
    assert(is_first_dash(rest, 1));
    let k = choose|k: int| is_first_dash(rest, k);
    lemma_first_dash_unique(rest, 1, k);
    assert(rest.take(1) =~= seq![48u8]);
    assert(rest.skip(2) =~= Seq::<u8>::empty());
    let z = seq![48u8];
    assert(z.drop_last() =~= Seq::<u8>::empty());
    assert(z.last() == 48);
    assert(decimal_value(Seq::<u8>::empty()) == 0);
    assert(decimal_value(z) == 0);
    assert(is_decimal_within(z, u64::MAX as nat));
}

} // verus!
