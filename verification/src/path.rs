use vstd::prelude::*;
use crate::ascii::{DOT, SLASH};

verus! {

/// The last index `i < end` with `s[i] == x`.
pub open spec fn last_before(s: Seq<u8>, x: u8, end: int) -> Option<int>
    decreases end,
{
    if end <= 0 || end > s.len() {
        None
    } else if s[end - 1] == x {
        Some(end - 1)
    } else {
        last_before(s, x, end - 1)
    }
}

pub proof fn lemma_last_before(s: Seq<u8>, x: u8, end: int)
    ensures
        last_before(s, x, end) matches Some(i) ==> 0 <= i < end <= s.len() && s[i] == x && forall|
            k: int,
        | i < k < end ==> s[k] != x,
        last_before(s, x, end) is None && 0 <= end <= s.len() ==> forall|k: int|
            0 <= k < end ==> s[k] != x,
    decreases end,
{
    if 0 < end <= s.len() && s[end - 1] != x {
        lemma_last_before(s, x, end - 1);
    }
}

/// `last_before` finds `i` when `s[i] == x` and no `x` follows it before `end`.
pub proof fn lemma_last_before_is(s: Seq<u8>, x: u8, end: int, i: int)
    requires
        0 <= i < end <= s.len(),
        s[i] == x,
        forall|k: int| i < k < end ==> s[k] != x,
    ensures
        last_before(s, x, end) == Some(i),
    decreases end,
{
    if end - 1 != i {
        lemma_last_before_is(s, x, end - 1, i);
    }
}

/// `..`
pub open spec fn dot_dot() -> Seq<u8> {
    seq![DOT, DOT]
}

/// A path component: not empty and not `.`.
pub open spec fn is_component(s: Seq<u8>) -> bool {
    s.len() > 0 && s != seq![DOT]
}

/// The components of the path `p[..end]`, last one first. Components are separated by `/`;
/// empty ones and `.` do not count, as with `std::path::Path::components`.
pub open spec fn components_rev(p: Seq<u8>, end: int) -> Seq<Seq<u8>>
    decreases end,
{
    if end <= 0 || end > p.len() {
        Seq::empty()
    } else {
        match last_before(p, SLASH, end) {
            None => if is_component(p.subrange(0, end)) {
                seq![p.subrange(0, end)]
            } else {
                Seq::empty()
            },
            Some(i) => {
                proof {
                    lemma_last_before(p, SLASH, end);
                }
                let rest = components_rev(p, i);
                if is_component(p.subrange(i + 1, end)) {
                    seq![p.subrange(i + 1, end)] + rest
                } else {
                    rest
                }
            },
        }
    }
}

/// The `k`-th component of `p` counted from the end (0 is the file name), unless it is `..`:
/// the file name of the path with `k` components removed.
pub open spec fn name_from_end(p: Seq<u8>, k: int) -> Option<Seq<u8>> {
    let c = components_rev(p, p.len() as int);
    if 0 <= k < c.len() && c[k] != dot_dot() {
        Some(c[k])
    } else {
        None
    }
}

/// The last index before `end` holding `x`.
pub fn last_byte_before(s: &[u8], x: u8, end: usize) -> (r: Option<usize>)
    requires
        end <= s.len(),
    ensures
        r matches Some(i) ==> last_before(s@, x, end as int) == Some(i as int),
        r is None ==> last_before(s@, x, end as int) is None,
{
    let mut e = end;
    while e > 0
        invariant
            e <= end <= s.len(),
            last_before(s@, x, end as int) == last_before(s@, x, e as int),
        decreases e,
    {
        if s[e - 1] == x {
            return Some(e - 1);
        }
        e = e - 1;
    }
    None
}

/// Whether `s[start..end]` is a path component (not empty, not `.`).
pub fn is_component_at(s: &[u8], start: usize, end: usize) -> (r: bool)
    requires
        start <= end <= s.len(),
    ensures
        r == is_component(s@.subrange(start as int, end as int)),
{
    if start == end {
        return false;
    }
    if end - start == 1 && s[start] == DOT {
        assert(s@.subrange(start as int, end as int) =~= seq![DOT]);
        return false;
    }
    assert(s@.subrange(start as int, end as int) != seq![DOT]) by {
        let t = s@.subrange(start as int, end as int);
        let d = seq![DOT];
        if end - start == 1 {
            assert(t[0] != d[0]);
        } else {
            assert(t.len() != d.len());
        }
    }
    true
}

/// The byte ranges `st[m]..en[m]` of `p`.
pub open spec fn ranges_of(p: Seq<u8>, st: Seq<usize>, en: Seq<usize>) -> Seq<Seq<u8>> {
    Seq::new(st.len(), |m: int| p.subrange(st[m] as int, en[m] as int))
}

/// Every range `st[m]..en[m]` lies within `p`.
pub open spec fn ranges_within(p: Seq<u8>, st: Seq<usize>, en: Seq<usize>) -> bool {
    st.len() == en.len() && forall|m: int| 0 <= m < st.len() ==> #[trigger] st[m] <= en[m] && en[m] <= p.len()
}

/// Byte ranges of the last `count` components of `path` (all of them when there are fewer),
/// last component first.
pub fn trailing_components(path: &[u8], count: usize) -> (r: (Vec<usize>, Vec<usize>))
    ensures
        ranges_within(path@, r.0@, r.1@),
        r.0@.len() <= count,
        r.0@.len() < count ==> ranges_of(path@, r.0@, r.1@) == components_rev(
            path@,
            path@.len() as int,
        ),
        r.0@.len() == count ==> ranges_of(path@, r.0@, r.1@) == components_rev(
            path@,
            path@.len() as int,
        ).subrange(0, count as int) && components_rev(path@, path@.len() as int).len() >= count,
{
    let ghost p = path@;
    let ghost all = components_rev(p, p.len() as int);
    let mut starts: Vec<usize> = Vec::new();
    let mut ends: Vec<usize> = Vec::new();
    let mut end = path.len();
    while starts.len() < count && end > 0
        invariant
            p == path@,
            all == components_rev(p, p.len() as int),
            end <= path.len(),
            starts.len() <= count,
            ranges_within(p, starts@, ends@),
            all == ranges_of(p, starts@, ends@) + components_rev(p, end as int),
        decreases end,
    {
        proof {
            lemma_last_before(p, SLASH, end as int);
        }
        let (seg_start, next_end) = match last_byte_before(path, SLASH, end) {
            Some(i) => (i + 1, i),
            None => (0, 0),
        };
        let ghost old_found = ranges_of(p, starts@, ends@);
        let ghost seg = p.subrange(seg_start as int, end as int);
        if is_component_at(path, seg_start, end) {
            starts.push(seg_start);
            ends.push(end);
            assert(ranges_of(p, starts@, ends@) =~= old_found + seq![seg]);
        }
        proof {
            assert(components_rev(p, 0) =~= Seq::<Seq<u8>>::empty());
            if is_component(seg) {
                assert(components_rev(p, end as int) =~= seq![seg] + components_rev(
                    p,
                    next_end as int,
                ));
            } else {
                assert(components_rev(p, end as int) =~= components_rev(p, next_end as int));
            }
            assert(all =~= ranges_of(p, starts@, ends@) + components_rev(p, next_end as int));
        }
        end = next_end;
    }
    let ghost found = ranges_of(p, starts@, ends@);
    proof {
        if found.len() < count {
            assert(components_rev(p, 0) =~= Seq::<Seq<u8>>::empty());
            assert(all =~= found);
        } else {
            assert(found =~= all.subrange(0, count as int));
        }
    }
    (starts, ends)
}

/// `log`
pub open spec fn log_ext() -> Seq<u8> {
    seq![0x6cu8, 0x6f, 0x67]
}

/// Whether the file name `name` has the extension `log`: the part after its last `.` is `log`,
/// and that `.` does not start the name.
pub open spec fn name_has_log_ext(name: Seq<u8>) -> bool {
    match last_before(name, DOT, name.len() as int) {
        Some(i) => i > 0 && name.subrange(i + 1, name.len() as int) == log_ext(),
        None => false,
    }
}

/// Whether the path `p` names a `.log` file, as `Path::extension` would tell.
pub open spec fn is_log_path(p: Seq<u8>) -> bool {
    match name_from_end(p, 0) {
        Some(n) => name_has_log_ext(n),
        None => false,
    }
}

/// Whether `path` has a file name with the extension `log`.
pub fn has_log_extension(path: &[u8]) -> (r: bool)
    ensures
        r == is_log_path(path@),
{
    let (starts, ends) = trailing_components(path, 1);
    let ghost c = components_rev(path@, path@.len() as int);
    if starts.len() == 0 {
        assert(ranges_of(path@, starts@, ends@).len() == 0);
        return false;
    }
    let name = &path[starts[0]..ends[0]];
    proof {
        assert(ranges_of(path@, starts@, ends@)[0] == path@.subrange(
            starts@[0] as int,
            ends@[0] as int,
        ));
        assert(c.subrange(0, 1)[0] == c[0]);
    }
    let n = name.len();
    if n == 2 && name[0] == DOT && name[1] == DOT {
        assert(name@ =~= dot_dot());
        return false;
    }
    assert(name@ != dot_dot()) by {
        if n == 2 {
            assert(name@[0] != DOT || name@[1] != DOT);
        }
    }
    assert(name_from_end(path@, 0) == Some(name@));
    proof {
        lemma_last_before(name@, DOT, n as int);
    }
    match last_byte_before(name, DOT, n) {
        Some(i) => {
            if i == 0 {
                return false;
            }
            let ext = &name[i + 1..n];
            let r = ext.len() == 3 && ext[0] == 0x6c && ext[1] == 0x6f && ext[2] == 0x67;
            assert(r == (ext@ == log_ext())) by {
                if ext@ == log_ext() {
                    assert(ext@[0] == 0x6c && ext@[1] == 0x6f && ext@[2] == 0x67);
                }
                if r {
                    assert(ext@ =~= log_ext());
                }
            }
            r
        },
        None => false,
    }
}

/// `parent` joined with `name` as `Path::join` does on Unix: an absolute `name` replaces
/// `parent`; otherwise a `/` goes between them unless `parent` is empty or already ends in one.
pub open spec fn join_spec(parent: Seq<u8>, name: Seq<u8>) -> Seq<u8> {
    if name.len() > 0 && name[0] == SLASH {
        name
    } else if parent.len() > 0 && parent.last() != SLASH {
        parent + seq![SLASH] + name
    } else {
        parent + name
    }
}

/// The path of the entry `name` inside the directory `parent`.
pub fn join_path(parent: &[u8], name: &[u8]) -> (r: Vec<u8>)
    ensures
        r@ == join_spec(parent@, name@),
{
    if name.len() > 0 && name[0] == SLASH {
        return vstd::slice::slice_to_vec(name);
    }
    let mut out = vstd::slice::slice_to_vec(parent);
    if parent.len() > 0 && parent[parent.len() - 1] != SLASH {
        out.push(SLASH);
    }
    let ghost before = out@;
    out.extend_from_slice(name);
    assert(out@ =~= before + name@);
    out
}

} // verus!
