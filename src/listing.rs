//! Directory listings: entries sorted by name, rendered as an HTML list.

use vstd::prelude::*;
use vstd::multiset::Multiset;
use crate::numeric::push_all;
use vstd::seq_lib::to_multiset_insert;

verus! {

/// One entry of a directory.
#[derive(Clone, Debug)]
pub struct DirEntry {
    pub name: Vec<u8>,
    pub is_dir: bool,
}

/// Byte-wise (case-sensitive) order: `a` sorts no later than `b`.
pub open spec fn name_le(a: Seq<u8>, b: Seq<u8>) -> bool
    decreases a.len(),
{
    if a.len() == 0 {
        true
    } else if b.len() == 0 {
        false
    } else if a[0] != b[0] {
        a[0] < b[0]
    } else {
        name_le(a.skip(1), b.skip(1))
    }
}

/// The entries are in order of name.
pub open spec fn sorted_by_name(s: Seq<DirEntry>) -> bool {
    forall|i: int, j: int| 0 <= i < j < s.len() ==> name_le(s[i].name@, s[j].name@)
}

proof fn lemma_name_le_total(a: Seq<u8>, b: Seq<u8>)
    ensures
        name_le(a, b) || name_le(b, a),
    decreases a.len(),
{
    if a.len() > 0 && b.len() > 0 && a[0] == b[0] {
        lemma_name_le_total(a.skip(1), b.skip(1));
    }
}

proof fn lemma_name_le_trans(a: Seq<u8>, b: Seq<u8>, c: Seq<u8>)
    requires
        name_le(a, b),
        name_le(b, c),
    ensures
        name_le(a, c),
    decreases a.len(),
{
    if a.len() > 0 && b.len() > 0 && c.len() > 0 && a[0] == b[0] && b[0] == c[0] {
        lemma_name_le_trans(a.skip(1), b.skip(1), c.skip(1));
    }
}

fn name_le_exec(a: &[u8], b: &[u8]) -> (r: bool)
    ensures
        r == name_le(a@, b@),
{
    let mut i: usize = 0;
    assert(a@.skip(0) =~= a@);
    assert(b@.skip(0) =~= b@);
    while i < a.len() && i < b.len() && a[i] == b[i]
        invariant
            i <= a@.len(),
            i <= b@.len(),
            name_le(a@, b@) == name_le(a@.skip(i as int), b@.skip(i as int)),
        decreases a@.len() - i,
    {
        assert(a@.skip(i as int).skip(1) =~= a@.skip(i + 1));
        assert(b@.skip(i as int).skip(1) =~= b@.skip(i + 1));
        i = i + 1;
    }
    if i == a.len() {
        true
    } else if i == b.len() {
        false
    } else {
        a[i] < b[i]
    }
}

/// The entries in order of name, byte-wise and case-sensitive.
pub fn sort_entries(entries: Vec<DirEntry>) -> (r: Vec<DirEntry>)
    ensures
        sorted_by_name(r@),
        r@.to_multiset() == entries@.to_multiset(),
{
    broadcast use vstd::multiset::group_multiset_axioms;

    let ghost all = entries@.to_multiset();
    let mut out: Vec<DirEntry> = Vec::new();
    let mut rest = entries;
    proof {
        out@.to_multiset_ensures();
        vstd::multiset::lemma_multiset_empty_len(out@.to_multiset());
    }
    assert(out@.to_multiset() =~= Multiset::<DirEntry>::empty());
    assert(out@.to_multiset().add(rest@.to_multiset()) =~= all);
    while rest.len() > 0
        invariant
            sorted_by_name(out@),
            out@.to_multiset().add(rest@.to_multiset()) == all,
        decreases rest@.len(),
    {
        let ghost rest_before = rest@;
        let x = rest.pop().unwrap();
        proof {
            assert(rest_before =~= rest@.push(x));
            rest@.to_multiset_ensures();
        }
        let mut p: usize = 0;
        while p < out.len() && name_le_exec(out[p].name.as_slice(), x.name.as_slice())
            invariant
                p <= out@.len(),
                sorted_by_name(out@),
                forall|k: int| 0 <= k < p ==> name_le(out@[k].name@, x.name@),
            decreases out@.len() - p,
        {
            p = p + 1;
        }
        proof {
            if p < out@.len() {
                lemma_name_le_total(out@[p as int].name@, x.name@);
                assert forall|k: int| p <= k < out@.len() implies name_le(
                    x.name@,
                    #[trigger] out@[k].name@,
                ) by {
                    if k > p {
                        lemma_name_le_trans(x.name@, out@[p as int].name@, out@[k].name@);
                    }
                }
            }
        }
        let ghost before = out@;
        out.insert(p, x);
        proof {
            to_multiset_insert(before, p as int, x);
            assert(out@.to_multiset().add(rest@.to_multiset()) =~= all);
            assert forall|a: int, b: int| 0 <= a < b < out@.len() implies name_le(
                out@[a].name@,
                out@[b].name@,
            ) by {
                if a < p && b == p {
                } else if a == p {
                    assert(out@[b] == before[b - 1]);
                } else if b < p {
                } else if a < p {
                    assert(out@[b] == before[b - 1]);
                } else {
                    assert(out@[a] == before[a - 1]);
                    assert(out@[b] == before[b - 1]);
                }
            }
        }
    }
    assert(rest@ =~= Seq::<DirEntry>::empty());
    assert(out@.to_multiset() =~= all);
    out
}

/// `f` applied to each byte of `s`, the results joined.
pub open spec fn flat_map(s: Seq<u8>, f: spec_fn(u8) -> Seq<u8>) -> Seq<u8>
    decreases s.len(),
{
    if s.len() == 0 {
        Seq::empty()
    } else {
        flat_map(s.drop_last(), f) + f(s.last())
    }
}

/// A byte as it stands in HTML text: `&`, `<`, `>` and `"` become entities.
pub open spec fn html_byte(b: u8) -> Seq<u8> {
    if b == 38 {
        seq![38u8, 97u8, 109u8, 112u8, 59u8]
    } else if b == 60 {
        seq![38u8, 108u8, 116u8, 59u8]
    } else if b == 62 {
        seq![38u8, 103u8, 116u8, 59u8]
    } else if b == 34 {
        seq![38u8, 113u8, 117u8, 111u8, 116u8, 59u8]
    } else {
        seq![b]
    }
}

/// An upper-case hexadecimal digit for `v < 16`.
pub open spec fn hex_digit_of(v: u8) -> u8 {
    if v < 10 {
        (48 + v) as u8
    } else {
        (55 + v) as u8
    }
}

/// A byte that a URL path carries as it is.
pub open spec fn is_unreserved(b: u8) -> bool {
    (48 <= b <= 57) || (65 <= b <= 90) || (97 <= b <= 122) || b == 45 || b == 46 || b == 95
        || b == 126
}

/// A byte as it stands in a link: unreserved bytes as they are, others as `%XY`.
pub open spec fn href_byte(b: u8) -> Seq<u8> {
    if is_unreserved(b) {
        seq![b]
    } else {
        seq![37u8, hex_digit_of(b / 16), hex_digit_of(b % 16)]
    }
}

/// `/` after the name of a directory.
pub open spec fn dir_mark(e: DirEntry) -> Seq<u8> {
    if e.is_dir {
        seq![47u8]
    } else {
        Seq::empty()
    }
}

/// The list item of one entry: a link to it, named by it.
pub open spec fn entry_html(e: DirEntry) -> Seq<u8> {
    seq![60u8, 108u8, 105u8, 62u8, 60u8, 97u8, 32u8, 104u8, 114u8, 101u8, 102u8, 61u8, 34u8] + flat_map(e.name@, |b: u8| href_byte(b)) + dir_mark(e) + seq![34u8, 62u8]
        + flat_map(e.name@, |b: u8| html_byte(b)) + dir_mark(e) + seq![60u8, 47u8, 97u8, 62u8, 60u8, 47u8, 108u8, 105u8, 62u8, 10u8]
}

/// The list items of `s`, in order.
pub open spec fn entries_html(s: Seq<DirEntry>) -> Seq<u8>
    decreases s.len(),
{
    if s.len() == 0 {
        Seq::empty()
    } else {
        entries_html(s.drop_last()) + entry_html(s.last())
    }
}

/// The page listing the entries `s`, in the order given.
pub open spec fn listing_html(s: Seq<DirEntry>) -> Seq<u8> {
    seq![60u8, 33u8, 68u8, 79u8, 67u8, 84u8, 89u8, 80u8, 69u8, 32u8, 104u8, 116u8, 109u8, 108u8, 62u8, 10u8, 60u8, 104u8, 116u8, 109u8, 108u8, 62u8, 60u8, 98u8, 111u8, 100u8, 121u8, 62u8, 60u8, 117u8, 108u8, 62u8, 10u8] + entries_html(s) + seq![60u8, 47u8, 117u8, 108u8, 62u8, 60u8, 47u8, 98u8, 111u8, 100u8, 121u8, 62u8, 60u8, 47u8, 104u8, 116u8, 109u8, 108u8, 62u8, 10u8]
}

fn push_html(out: &mut Vec<u8>, name: &[u8])
    ensures
        final(out)@ == old(out)@ + flat_map(name@, |b: u8| html_byte(b)),
{
    let mut i: usize = 0;
    assert(name@.take(0) =~= Seq::<u8>::empty());
    while i < name.len()
        invariant
            i <= name@.len(),
            out@ == old(out)@ + flat_map(name@.take(i as int), |b: u8| html_byte(b)),
        decreases name@.len() - i,
    {
        let b = name[i];
        if b == 38 {
            push_all(out, &[38u8, 97u8, 109u8, 112u8, 59u8]);
        } else if b == 60 {
            push_all(out, &[38u8, 108u8, 116u8, 59u8]);
        } else if b == 62 {
            push_all(out, &[38u8, 103u8, 116u8, 59u8]);
        } else if b == 34 {
            push_all(out, &[38u8, 113u8, 117u8, 111u8, 116u8, 59u8]);
        } else {
            out.push(b);
        }
        assert(name@.take(i + 1).drop_last() =~= name@.take(i as int));
        i = i + 1;
        assert(out@ =~= old(out)@ + flat_map(name@.take(i as int), |b: u8| html_byte(b)));
    }
    assert(name@.take(name@.len() as int) =~= name@);
}

fn hex_upper(v: u8) -> (r: u8)
    requires
        v < 16,
    ensures
        r == hex_digit_of(v),
{
    if v < 10 {
        48 + v
    } else {
        55 + v
    }
}

fn push_href(out: &mut Vec<u8>, name: &[u8])
    ensures
        final(out)@ == old(out)@ + flat_map(name@, |b: u8| href_byte(b)),
{
    let mut i: usize = 0;
    assert(name@.take(0) =~= Seq::<u8>::empty());
    while i < name.len()
        invariant
            i <= name@.len(),
            out@ == old(out)@ + flat_map(name@.take(i as int), |b: u8| href_byte(b)),
        decreases name@.len() - i,
    {
        let b = name[i];
        if (48 <= b && b <= 57) || (65 <= b && b <= 90) || (97 <= b && b <= 122) || b == 45
            || b == 46 || b == 95 || b == 126 {
            out.push(b);
        } else {
            out.push(37u8);
            out.push(hex_upper(b / 16));
            out.push(hex_upper(b % 16));
        }
        assert(name@.take(i + 1).drop_last() =~= name@.take(i as int));
        i = i + 1;
        assert(out@ =~= old(out)@ + flat_map(name@.take(i as int), |b: u8| href_byte(b)));
    }
    assert(name@.take(name@.len() as int) =~= name@);
}

/// The HTML page listing `entries` in the order given (sort them first with
/// `sort_entries`).
pub fn render_listing(entries: &Vec<DirEntry>) -> (page: Vec<u8>)
    ensures
        page@ == listing_html(entries@),
{
    let mut out: Vec<u8> = Vec::new();
    push_all(&mut out, &[60u8, 33u8, 68u8, 79u8, 67u8, 84u8, 89u8, 80u8, 69u8, 32u8, 104u8, 116u8, 109u8, 108u8, 62u8, 10u8, 60u8, 104u8, 116u8, 109u8, 108u8, 62u8, 60u8, 98u8, 111u8, 100u8, 121u8, 62u8, 60u8, 117u8, 108u8, 62u8, 10u8]);
    let ghost head = out@;
    let mut i: usize = 0;
    assert(entries@.take(0) =~= Seq::<DirEntry>::empty());
    while i < entries.len()
        invariant
            i <= entries@.len(),
            head == seq![60u8, 33u8, 68u8, 79u8, 67u8, 84u8, 89u8, 80u8, 69u8, 32u8, 104u8, 116u8, 109u8, 108u8, 62u8, 10u8, 60u8, 104u8, 116u8, 109u8, 108u8, 62u8, 60u8, 98u8, 111u8, 100u8, 121u8, 62u8, 60u8, 117u8, 108u8, 62u8, 10u8],
            out@ == head + entries_html(entries@.take(i as int)),
        decreases entries@.len() - i,
    {
        let e = &entries[i];
        let ghost start = out@;
        push_all(&mut out, &[60u8, 108u8, 105u8, 62u8, 60u8, 97u8, 32u8, 104u8, 114u8, 101u8, 102u8, 61u8, 34u8]);
        push_href(&mut out, e.name.as_slice());
        if e.is_dir {
            out.push(47u8);
        }
        push_all(&mut out, &[34u8, 62u8]);
        push_html(&mut out, e.name.as_slice());
        if e.is_dir {
            out.push(47u8);
        }
        push_all(&mut out, &[60u8, 47u8, 97u8, 62u8, 60u8, 47u8, 108u8, 105u8, 62u8, 10u8]);
        assert(out@ =~= start + entry_html(*e));
        assert(entries@.take(i + 1).drop_last() =~= entries@.take(i as int));
        i = i + 1;
        assert(out@ =~= head + entries_html(entries@.take(i as int)));
    }
    assert(entries@.take(entries@.len() as int) =~= entries@);
    push_all(&mut out, &[60u8, 47u8, 117u8, 108u8, 62u8, 60u8, 47u8, 98u8, 111u8, 100u8, 121u8, 62u8, 60u8, 47u8, 104u8, 116u8, 109u8, 108u8, 62u8, 10u8]);
    assert(out@ =~= listing_html(entries@));
    out
}

} // verus!
