//! Request paths: percent-decoding, normalisation, and staying inside the served root.

use vstd::prelude::*;

verus! {

/// Why a request path was turned away.
#[derive(Clone, Copy, Debug, PartialEq, Eq, Structural)]
pub enum ResolveError {
    /// A `..` would climb above the served root.
    PathEscape,
    /// A bad `%` escape, or a null byte.
    Malformed,
}

/// A request path after normalisation: the names below the root, in order.
#[derive(Debug)]
pub struct ResolvedPath {
    pub segments: Vec<Vec<u8>>,
    /// The decoded path ended in `/`.
    pub trailing_slash: bool,
}

/// The value of a hexadecimal digit, if `b` is one.
pub open spec fn hex_value(b: u8) -> Option<u8> {
    if 48 <= b <= 57 {
        Some((b - 48) as u8)
    } else if 65 <= b <= 70 {
        Some((b - 55) as u8)
    } else if 97 <= b <= 102 {
        Some((b - 87) as u8)
    } else {
        None
    }
}

/// `s` with every `%XY` replaced by the byte `0xXY`; `None` if a `%` is not
/// followed by two hexadecimal digits.
pub open spec fn percent_decode(s: Seq<u8>) -> Option<Seq<u8>>
    decreases s.len(),
{
    if s.len() == 0 {
        Some(Seq::empty())
    } else if s[0] == 37 {
        if s.len() >= 3 && hex_value(s[1]) is Some && hex_value(s[2]) is Some {
            match percent_decode(s.skip(3)) {
                Some(r) => Some(
                    seq![(hex_value(s[1])->0 * 16 + hex_value(s[2])->0) as u8] + r,
                ),
                None => None,
            }
        } else {
            None
        }
    } else {
        match percent_decode(s.skip(1)) {
            Some(r) => Some(seq![s[0]] + r),
            None => None,
        }
    }
}

/// The segment `.`.
pub open spec fn is_dot(s: Seq<u8>) -> bool {
    s.len() == 1 && s[0] == 46
}

/// The segment `..`.
pub open spec fn is_dot_dot(s: Seq<u8>) -> bool {
    s.len() == 2 && s[0] == 46 && s[1] == 46
}

/// The stack of names after the segment `cur` ends; `None` if it climbs above the root.
pub open spec fn close_segment(stack: Seq<Seq<u8>>, cur: Seq<u8>) -> Option<Seq<Seq<u8>>> {
    if cur.len() == 0 || is_dot(cur) {
        Some(stack)
    } else if is_dot_dot(cur) {
        if stack.len() == 0 {
            None
        } else {
            Some(stack.drop_last())
        }
    } else {
        Some(stack.push(cur))
    }
}

/// The names kept so far and the segment being read, after the bytes of `s`.
pub open spec fn walk(s: Seq<u8>) -> Option<(Seq<Seq<u8>>, Seq<u8>)>
    decreases s.len(),
{
    if s.len() == 0 {
        Some((Seq::empty(), Seq::empty()))
    } else {
        match walk(s.drop_last()) {
            None => None,
            Some((stack, cur)) => if s.last() == 47 {
                match close_segment(stack, cur) {
                    Some(st) => Some((st, Seq::empty())),
                    None => None,
                }
            } else {
                Some((stack, cur.push(s.last())))
            },
        }
    }
}

/// The names that the decoded path `s` leads to; `None` if it climbs above the root.
pub open spec fn normalize(s: Seq<u8>) -> Option<Seq<Seq<u8>>> {
    match walk(s) {
        None => None,
        Some((stack, cur)) => close_segment(stack, cur),
    }
}

/// A name that may stand in a path below the root: not empty, not `.` or `..`,
/// and without `/`.
pub open spec fn is_plain_name(s: Seq<u8>) -> bool {
    s.len() > 0 && !is_dot(s) && !is_dot_dot(s) && forall|i: int| 0 <= i < s.len() ==> s[i] != 47
}

/// What `resolve` gives for the raw request path `raw`.
pub open spec fn resolution(raw: Seq<u8>) -> Result<(Seq<Seq<u8>>, bool), ResolveError> {
    match percent_decode(raw) {
        None => Err(ResolveError::Malformed),
        Some(d) => if d.contains(0u8) {
            Err(ResolveError::Malformed)
        } else {
            match normalize(d) {
                None => Err(ResolveError::PathEscape),
                Some(names) => Ok((names, d.len() > 0 && d.last() == 47)),
            }
        },
    }
}

/// The view of a list of byte strings.
pub open spec fn names_view(v: Seq<Vec<u8>>) -> Seq<Seq<u8>> {
    v.map_values(|x: Vec<u8>| x@)
}

fn hex_digit(b: u8) -> (r: Option<u8>)
    ensures
        r == hex_value(b),
{
    if 48 <= b && b <= 57 {
        Some(b - 48)
    } else if 65 <= b && b <= 70 {
        Some(b - 55)
    } else if 97 <= b && b <= 102 {
        Some(b - 87)
    } else {
        None
    }
}

/// Replaces each `%XY` escape of `s` with its byte.
pub fn decode_percent(s: &[u8]) -> (r: Option<Vec<u8>>)
    ensures
        match r {
            Some(v) => percent_decode(s@) == Some(v@),
            None => percent_decode(s@) is None,
        },
{
    let n = s.len();
    let mut out: Vec<u8> = Vec::new();
    let mut i: usize = 0;
    assert(s@.skip(0) =~= s@);
    while i < n
        invariant
            i <= n == s@.len(),
            match percent_decode(s@.skip(i as int)) {
                Some(r) => percent_decode(s@) == Some(out@ + r),
                None => percent_decode(s@) is None,
            },
        decreases n - i,
    {
        let ghost t = s@.skip(i as int);
        if s[i] == 37 {
            if n - i > 2 {
                let hi = hex_digit(s[i + 1]);
                let lo = hex_digit(s[i + 2]);
                if hi.is_some() && lo.is_some() {
                    let b = (hi.unwrap() * 16 + lo.unwrap()) as u8;
                    proof {
                        assert(t.skip(3) =~= s@.skip(i + 3));
                        if let Some(r) = percent_decode(s@.skip(i + 3)) {
                            assert(out@ + (seq![b] + r) =~= out@.push(b) + r);
                        }
                    }
                    out.push(b);
                    i = i + 3;
                } else {
                    return None;
                }
            } else {
                return None;
            }
        } else {
            let c = s[i];
            proof {
                assert(t.skip(1) =~= s@.skip(i + 1));
                if let Some(r) = percent_decode(s@.skip(i + 1)) {
                    assert(out@ + (seq![c] + r) =~= out@.push(c) + r);
                }
            }
            out.push(c);
            i = i + 1;
        }
    }
    assert(s@.skip(n as int) =~= Seq::<u8>::empty());
    assert(out@ + Seq::<u8>::empty() =~= out@);
    Some(out)
}

proof fn lemma_walk_fails_onward(s: Seq<u8>, i: int, j: int)
    requires
        0 <= i <= j <= s.len(),
        walk(s.take(i)) is None,
    ensures
        walk(s.take(j)) is None,
    decreases j - i,
{
    if i < j {
        lemma_walk_fails_onward(s, i, j - 1);
        assert(s.take(j).drop_last() =~= s.take(j - 1));
    }
}

/// Ends the segment `cur`: drops it, pops a name for `..`, or keeps it.
/// `false` where `..` would climb above the root.
fn close_name(stack: &mut Vec<Vec<u8>>, cur: Vec<u8>) -> (ok: bool)
    ensures
        ok == close_segment(names_view(old(stack)@), cur@) is Some,
        ok ==> close_segment(names_view(old(stack)@), cur@) == Some(names_view(final(stack)@)),
{
    let ghost before = names_view(stack@);
    let n = cur.len();
    if n == 0 || (n == 1 && cur[0] == 46) {
        true
    } else if n == 2 && cur[0] == 46 && cur[1] == 46 {
        if stack.len() == 0 {
            false
        } else {
            stack.pop();
            assert(names_view(stack@) =~= before.drop_last());
            true
        }
    } else {
        stack.push(cur);
        assert(names_view(stack@) =~= before.push(cur@));
        true
    }
}

/// Decodes and normalises a raw request path. Never yields a name that leads
/// outside the root: `..` above it is `PathEscape`.
pub fn resolve(raw: &[u8]) -> (r: Result<ResolvedPath, ResolveError>)
    ensures
        match r {
            Ok(p) => resolution(raw@) == Ok::<(Seq<Seq<u8>>, bool), ResolveError>(
                (names_view(p.segments@), p.trailing_slash),
            ),
            Err(e) => resolution(raw@) == Err::<(Seq<Seq<u8>>, bool), ResolveError>(e),
        },
{
    let decoded = decode_percent(raw);
    if decoded.is_none() {
        return Err(ResolveError::Malformed);
    }
    let d = decoded.unwrap();
    let n = d.len();
    let mut z: usize = 0;
    while z < n
        invariant
            z <= n == d@.len(),
            percent_decode(raw@) == Some(d@),
            forall|j: int| 0 <= j < z ==> d@[j] != 0,
        decreases n - z,
    {
        if d[z] == 0 {
            assert(d@[z as int] == 0);
            assert(d@.contains(0u8));
            return Err(ResolveError::Malformed);
        }
        z = z + 1;
    }
    let mut stack: Vec<Vec<u8>> = Vec::new();
    let mut cur: Vec<u8> = Vec::new();
    let mut i: usize = 0;
    assert(d@.take(0) =~= Seq::<u8>::empty());
    assert(names_view(stack@) =~= Seq::<Seq<u8>>::empty());
    while i < n
        invariant
            i <= n == d@.len(),
            !d@.contains(0),
            percent_decode(raw@) == Some(d@),
            walk(d@.take(i as int)) == Some((names_view(stack@), cur@)),
        decreases n - i,
    {
        let b = d[i];
        assert(d@.take(i + 1).drop_last() =~= d@.take(i as int));
        if b == 47 {
            let seg = cur;
            cur = Vec::new();
            if !close_name(&mut stack, seg) {
                proof {
                    lemma_walk_fails_onward(d@, i + 1, n as int);
                    assert(d@.take(n as int) =~= d@);
                }
                return Err(ResolveError::PathEscape);
            }
        } else {
            cur.push(b);
        }
        i = i + 1;
    }
    assert(d@.take(n as int) =~= d@);
    if !close_name(&mut stack, cur) {
        return Err(ResolveError::PathEscape);
    }
    Ok(ResolvedPath { segments: stack, trailing_slash: n > 0 && d[n - 1] == 47 })
}

/// Every name of `names` is plain.
pub open spec fn all_plain(names: Seq<Seq<u8>>) -> bool {
    forall|k: int| 0 <= k < names.len() ==> is_plain_name(#[trigger] names[k])
}

proof fn lemma_close_keeps_plain(stack: Seq<Seq<u8>>, cur: Seq<u8>)
    requires
        all_plain(stack),
        forall|i: int| 0 <= i < cur.len() ==> cur[i] != 47,
    ensures
        close_segment(stack, cur) matches Some(st) ==> all_plain(st),
{
    if let Some(st) = close_segment(stack, cur) {
        assert forall|k: int| 0 <= k < st.len() implies is_plain_name(#[trigger] st[k]) by {
            if k < stack.len() as int && (st =~= stack || st =~= stack.drop_last() || st
                =~= stack.push(cur)) {
                assert(st[k] == stack[k]);
            }
        }
    }
}

proof fn lemma_walk_plain(s: Seq<u8>)
    ensures
        walk(s) matches Some((st, cur)) ==> all_plain(st) && forall|i: int|
            0 <= i < cur.len() ==> cur[i] != 47,
    decreases s.len(),
{
    if s.len() > 0 {
        lemma_walk_plain(s.drop_last());
        if let Some((st, cur)) = walk(s.drop_last()) {
            lemma_close_keeps_plain(st, cur);
            if s.last() != 47 {
                assert forall|i: int| 0 <= i < cur.push(s.last()).len() implies cur.push(
                    s.last(),
                )[i] != 47 by {
                    if i < cur.len() {
                        assert(cur.push(s.last())[i] == cur[i]);
                    }
                }
            }
        }
    }
}

/// A request path never leads above the served root: whatever `raw` holds, a
/// successful resolution consists only of plain names (none empty, `.`, `..`, or
/// holding `/`), so joining them onto the root stays below it; any `..` that would
/// climb above the root makes the resolution fail with `PathEscape`.
pub proof fn lemma_resolution_stays_below_root(raw: Seq<u8>)
    ensures
        resolution(raw) matches Ok((names, _)) ==> all_plain(names),
        percent_decode(raw) matches Some(d) ==> (!d.contains(0u8) && normalize(d) is None
            ==> resolution(raw) == Err::<(Seq<Seq<u8>>, bool), ResolveError>(
            ResolveError::PathEscape,
        )),
{
    if let Some(d) = percent_decode(raw) {
        lemma_walk_plain(d);
        if let Some((st, cur)) = walk(d) {
            lemma_close_keeps_plain(st, cur);
        }
    }
}

/// `path` is `root` itself or lies below it, component by component.
pub open spec fn is_within(root: Seq<u8>, path: Seq<u8>) -> bool {
    path == root || (root.len() > 0 && path.len() > root.len() && path.take(root.len() as int)
        == root && (root.last() == 47 || path[root.len() as int] == 47))
}

/// Whether the canonical (symlink-free) `path` still lies inside `root`; a path that
/// only shares a prefix of a name (`/srv2` against `/srv`) does not.
pub fn within_root(root: &[u8], path: &[u8]) -> (r: bool)
    ensures
        r == is_within(root@, path@),
{
    let n = root.len();
    let m = path.len();
    if m < n {
        return false;
    }
    let mut i: usize = 0;
    while i < n
        invariant
            i <= n <= m,
            n == root@.len(),
            m == path@.len(),
            forall|j: int| 0 <= j < i ==> root@[j] == path@[j],
        decreases n - i,
    {
        if root[i] != path[i] {
            assert(path@.take(n as int)[i as int] != root@[i as int]);
            return false;
        }
        i = i + 1;
    }
    assert(path@.take(n as int) =~= root@);
    if m == n {
        assert(path@ =~= root@);
        true
    } else {
        n > 0 && (root[n - 1] == 47 || path[n] == 47)
    }
}

/// `root` followed by `/name` for each of `names`, in order.
pub open spec fn joined(root: Seq<u8>, names: Seq<Seq<u8>>) -> Seq<u8>
    decreases names.len(),
{
    if names.len() == 0 {
        root
    } else {
        joined(root, names.drop_last()) + seq![47u8] + names.last()
    }
}

proof fn lemma_joined_extends(root: Seq<u8>, names: Seq<Seq<u8>>)
    requires
        root.len() > 0,
    ensures
        joined(root, names).len() >= root.len(),
        joined(root, names).take(root.len() as int) == root,
        names.len() > 0 ==> joined(root, names).len() > root.len(),
        names.len() > 0 ==> joined(root, names)[root.len() as int] == 47,
    decreases names.len(),
{
    if names.len() > 0 {
        lemma_joined_extends(root, names.drop_last());
        let prev = joined(root, names.drop_last());
        let cur = joined(root, names);
        assert(cur.take(root.len() as int) =~= prev.take(root.len() as int));
        if names.len() == 1 {
            assert(names.drop_last().len() == 0);
            assert(prev == root);
        } else {
            assert(cur[root.len() as int] == prev[root.len() as int]);
        }
    }
}

/// Joining the names of a successful resolution onto a (non-empty) root gives a path
/// that lies within that root.
pub proof fn lemma_joined_within_root(root: Seq<u8>, raw: Seq<u8>)
    requires
        root.len() > 0,
        resolution(raw) is Ok,
    ensures
        is_within(root, joined(root, resolution(raw)->Ok_0.0)),
        all_plain(resolution(raw)->Ok_0.0),
{
    lemma_resolution_stays_below_root(raw);
    let names = resolution(raw)->Ok_0.0;
    lemma_joined_extends(root, names);
    if names.len() == 0 {
        assert(joined(root, names) == root);
    }
}

/// The file-system path of `names` below `root`: `root/name/name...`.
pub fn join_under(root: &[u8], names: &Vec<Vec<u8>>) -> (r: Vec<u8>)
    ensures
        r@ == joined(root@, names_view(names@)),
{
    let mut out: Vec<u8> = Vec::new();
    let mut i: usize = 0;
    while i < root.len()
        invariant
            i <= root@.len(),
            out@ == root@.take(i as int),
        decreases root@.len() - i,
    {
        out.push(root[i]);
        i = i + 1;
        assert(out@ =~= root@.take(i as int));
    }
    assert(root@.take(root@.len() as int) =~= root@);
    let mut k: usize = 0;
    assert(names_view(names@).take(0) =~= Seq::<Seq<u8>>::empty());
    while k < names.len()
        invariant
            k <= names@.len(),
            out@ == joined(root@, names_view(names@).take(k as int)),
        decreases names@.len() - k,
    {
        let name = &names[k];
        let ghost before = out@;
        out.push(47u8);
        let mut j: usize = 0;
        while j < name.len()
            invariant
                j <= name@.len(),
                out@ == before + seq![47u8] + name@.take(j as int),
            decreases name@.len() - j,
        {
            out.push(name[j]);
            j = j + 1;
            assert(out@ =~= before + seq![47u8] + name@.take(j as int));
        }
        assert(name@.take(name@.len() as int) =~= name@);
        assert(names_view(names@).take(k + 1).drop_last() =~= names_view(names@).take(k as int));
        k = k + 1;
    }
    assert(names_view(names@).take(names@.len() as int) =~= names_view(names@));
    out
}

} // verus!
