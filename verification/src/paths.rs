//! Unix path strings split into components, as `std::path::Path` sees them:
//! a leading `/` is the root component (written `/`), empty segments and `.`
//! segments are dropped except a `.` at the very start of a relative path.
use vstd::prelude::*;
use crate::text::{find_char_from, first_from, lemma_first_from, string_from_range};

verus! {

/// Bounds of the components of `p[i..]`, where `at_start` says that `i` is
/// the start of a relative path.
pub open spec fn comp_bounds_from(p: Seq<char>, i: int, at_start: bool) -> Seq<(int, int)>
    decreases p.len() - i,
{
    if i >= p.len() || i < 0 {
        seq![]
    } else if p[i] == '/' {
        comp_bounds_from(p, i + 1, false)
    } else {
        let e = first_from(p, '/', i);
        proof {
            lemma_first_from(p, '/', i);
        }
        if e == i + 1 && p[i] == '.' && !at_start {
            comp_bounds_from(p, e, false)
        } else {
            seq![(i, e)] + comp_bounds_from(p, e, false)
        }
    }
}

/// Bounds of the components of `p`; the root component is `(0, 1)`.
pub open spec fn comp_bounds(p: Seq<char>) -> Seq<(int, int)> {
    if p.len() > 0 && p[0] == '/' {
        seq![(0int, 1int)] + comp_bounds_from(p, 1, false)
    } else {
        comp_bounds_from(p, 0, true)
    }
}

/// The components of `p`, as strings.
pub open spec fn components(p: Seq<char>) -> Seq<Seq<char>> {
    comp_bounds(p).map_values(|b: (int, int)| p.subrange(b.0, b.1))
}

pub open spec fn is_rooted(p: Seq<char>) -> bool {
    p.len() > 0 && p[0] == '/'
}

/// Bounds are within `p`, ordered, and non-empty; the first bound starts at or after `lo`.
pub open spec fn bounds_ok(p: Seq<char>, b: Seq<(int, int)>, lo: int) -> bool {
    &&& forall|k: int| 0 <= k < b.len() ==> lo <= #[trigger] b[k].0 < b[k].1 <= p.len()
    &&& forall|k: int| 0 <= k < b.len() - 1 ==> #[trigger] b[k].1 <= b[k + 1].0
}

pub proof fn lemma_comp_bounds_from(p: Seq<char>, i: int, at_start: bool)
    requires
        0 <= i <= p.len(),
    ensures
        bounds_ok(p, comp_bounds_from(p, i, at_start), i),
        forall|k: int|
            0 <= k < comp_bounds_from(p, i, at_start).len() ==> p[#[trigger] comp_bounds_from(
                p,
                i,
                at_start,
            )[k].0] != '/',
    decreases p.len() - i,
{
    if i < p.len() {
        if p[i] == '/' {
            lemma_comp_bounds_from(p, i + 1, false);
        } else {
            let e = first_from(p, '/', i);
            lemma_first_from(p, '/', i);
            lemma_comp_bounds_from(p, e, false);
            let rest = comp_bounds_from(p, e, false);
            let r = comp_bounds_from(p, i, at_start);
            if !(e == i + 1 && p[i] == '.' && !at_start) {
                assert(r == seq![(i, e)] + rest);
                assert forall|k: int| 0 <= k < r.len() - 1 implies #[trigger] r[k].1 <= r[k + 1].0 by {
                    assert(r[k + 1] == rest[k]);
                    if k > 0 {
                        assert(r[k] == rest[k - 1]);
                    }
                }
                assert forall|k: int| 0 <= k < r.len() implies i <= #[trigger] r[k].0 < r[k].1
                    <= p.len() && p[r[k].0] != '/' by {
                    if k > 0 {
                        assert(r[k] == rest[k - 1]);
                    }
                }
            }
        }
    }
}

pub proof fn lemma_comp_bounds(p: Seq<char>)
    ensures
        bounds_ok(p, comp_bounds(p), 0),
        is_rooted(p) ==> comp_bounds(p).len() >= 1 && comp_bounds(p)[0] == (0int, 1int),
        forall|k: int|
            0 <= k < comp_bounds(p).len() && (k > 0 || !is_rooted(p)) ==> p[
            #[trigger] comp_bounds(p)[k].0] != '/',
{
    if is_rooted(p) {
        lemma_comp_bounds_from(p, 1, false);
        let rest = comp_bounds_from(p, 1, false);
        let r = comp_bounds(p);
        assert(r == seq![(0int, 1int)] + rest);
        assert forall|k: int| 0 <= k < r.len() - 1 implies #[trigger] r[k].1 <= r[k + 1].0 by {
            assert(r[k + 1] == rest[k]);
            if k > 0 {
                assert(r[k] == rest[k - 1]);
            }
        }
        assert forall|k: int| 0 <= k < r.len() implies 0 <= #[trigger] r[k].0 < r[k].1 <= p.len() by {
            if k > 0 {
                assert(r[k] == rest[k - 1]);
            }
        }
        assert forall|k: int| 0 < k < r.len() implies p[#[trigger] r[k].0] != '/' by {
            assert(r[k] == rest[k - 1]);
        }
    } else {
        lemma_comp_bounds_from(p, 0, true);
    }
}

/// Later bounds start no earlier, and end no earlier, than earlier ones.
pub proof fn lemma_bounds_mono(b: Seq<(int, int)>, p: Seq<char>, i: int, j: int)
    requires
        bounds_ok(p, b, 0),
        0 <= i <= j < b.len(),
    ensures
        b[i].0 <= b[j].0,
        b[i].1 <= b[j].1,
        b[i].0 <= b[j].1,
    decreases j - i,
{
    if i < j {
        lemma_bounds_mono(b, p, i, j - 1);
        assert(b[j - 1].1 <= b[j].0);
    }
}

pub open spec fn pairs_int(v: Seq<(usize, usize)>) -> Seq<(int, int)> {
    v.map_values(|b: (usize, usize)| (b.0 as int, b.1 as int))
}

/// Component bounds of `p`.
pub fn component_bounds(p: &[char]) -> (r: Vec<(usize, usize)>)
    ensures
        pairs_int(r@) == comp_bounds(p@),
{
    let n = p.len();
    let mut r: Vec<(usize, usize)> = Vec::new();
    let mut i: usize = 0;
    let mut at_start = true;
    if n > 0 && p[0] == '/' {
        r.push((0, 1));
        i = 1;
        at_start = false;
    }
    assert(pairs_int(r@) + comp_bounds_from(p@, i as int, at_start) =~= comp_bounds(p@));
    while i < n
        invariant
            n == p@.len(),
            i <= n,
            at_start ==> i == 0,
            pairs_int(r@) + comp_bounds_from(p@, i as int, at_start) == comp_bounds(p@),
        decreases n - i,
    {
        let ghost old_r = r@;
        if p[i] == '/' {
            i = i + 1;
            at_start = false;
        } else {
            let e = find_char_from(p, '/', i);
            proof {
                lemma_first_from(p@, '/', i as int);
            }
            if !(e == i + 1 && p[i] == '.' && !at_start) {
                r.push((i, e));
                assert(pairs_int(r@) =~= pairs_int(old_r) + seq![(i as int, e as int)]);
            }
            i = e;
            at_start = false;
        }
    }
    assert(pairs_int(r@) + Seq::<(int, int)>::empty() =~= pairs_int(r@));
    r
}

/// `p[b.0..b.1]` and `q[c.0..c.1]` hold the same text.
pub open spec fn same_text(p: Seq<char>, b: (int, int), q: Seq<char>, c: (int, int)) -> bool {
    p.subrange(b.0, b.1) == q.subrange(c.0, c.1)
}

/// Whether `p[b.0..b.1]` and `q[c.0..c.1]` hold the same text.
pub fn range_eq(p: &[char], b: (usize, usize), q: &[char], c: (usize, usize)) -> (r: bool)
    requires
        b.0 <= b.1 <= p@.len(),
        c.0 <= c.1 <= q@.len(),
    ensures
        r == same_text(p@, (b.0 as int, b.1 as int), q@, (c.0 as int, c.1 as int)),
{
    if b.1 - b.0 != c.1 - c.0 {
        assert(p@.subrange(b.0 as int, b.1 as int).len() != q@.subrange(c.0 as int, c.1 as int).len());
        return false;
    }
    let len = b.1 - b.0;
    let ghost ps = p@.subrange(b.0 as int, b.1 as int);
    let ghost qs = q@.subrange(c.0 as int, c.1 as int);
    let mut k: usize = 0;
    while k < len
        invariant
            len == b.1 - b.0,
            len == c.1 - c.0,
            b.0 <= b.1 <= p@.len(),
            c.0 <= c.1 <= q@.len(),
            ps == p@.subrange(b.0 as int, b.1 as int),
            qs == q@.subrange(c.0 as int, c.1 as int),
            k <= len,
            forall|j: int| 0 <= j < k ==> #[trigger] ps[j] == qs[j],
        decreases len - k,
    {
        if p[b.0 + k] != q[c.0 + k] {
            assert(ps[k as int] != qs[k as int]);
            return false;
        }
        assert(ps[k as int] == qs[k as int]);
        k = k + 1;
    }
    assert(p@.subrange(b.0 as int, b.1 as int) =~= q@.subrange(c.0 as int, c.1 as int));
    true
}

/// `base`'s components are the first components of `p` (`Path::starts_with`).
pub open spec fn path_starts_with(p: Seq<char>, base: Seq<char>) -> bool {
    let cp = components(p);
    let cb = components(base);
    cb.len() <= cp.len() && forall|k: int| 0 <= k < cb.len() ==> cp[k] == cb[k]
}

/// True when `p` lies in the tree rooted at `base` (`Path::starts_with`).
pub fn starts_with_path(p: &str, base: &str) -> (r: bool)
    ensures
        r == path_starts_with(p@, base@),
{
    let pv = crate::text::str_to_chars(p);
    let bv = crate::text::str_to_chars(base);
    let pc = component_bounds(pv.as_slice());
    let bc = component_bounds(bv.as_slice());
    proof {
        lemma_comp_bounds(pv@);
        lemma_comp_bounds(bv@);
    }
    if bc.len() > pc.len() {
        return false;
    }
    let mut k: usize = 0;
    while k < bc.len()
        invariant
            pairs_int(pc@) == comp_bounds(pv@),
            pairs_int(bc@) == comp_bounds(bv@),
            pv@ == p@,
            bv@ == base@,
            bounds_ok(pv@, comp_bounds(pv@), 0),
            bounds_ok(bv@, comp_bounds(bv@), 0),
            bc@.len() <= pc@.len(),
            k <= bc@.len(),
            forall|j: int| 0 <= j < k ==> components(p@)[j] == components(base@)[j],
        decreases bc@.len() - k,
    {
        assert(comp_bounds(pv@)[k as int] == (pc@[k as int].0 as int, pc@[k as int].1 as int));
        assert(comp_bounds(bv@)[k as int] == (bc@[k as int].0 as int, bc@[k as int].1 as int));
        if !range_eq(pv.as_slice(), pc[k], bv.as_slice(), bc[k]) {
            assert(components(p@)[k as int] != components(base@)[k as int]);
            return false;
        }
        k = k + 1;
    }
    true
}

/// A component of `p` is exactly `name`.
pub open spec fn has_component(p: Seq<char>, name: Seq<char>) -> bool {
    exists|k: int| 0 <= k < components(p).len() && #[trigger] components(p)[k] == name
}

/// Whether path `p` has a component `name`.
pub fn has_component_exec(p: &[char], name: &[char]) -> (r: bool)
    ensures
        r == has_component(p@, name@),
{
    let pc = component_bounds(p);
    proof {
        lemma_comp_bounds(p@);
    }
    let mut k: usize = 0;
    while k < pc.len()
        invariant
            pairs_int(pc@) == comp_bounds(p@),
            bounds_ok(p@, comp_bounds(p@), 0),
            k <= pc@.len(),
            forall|j: int| 0 <= j < k ==> components(p@)[j] != name@,
        decreases pc@.len() - k,
    {
        assert(comp_bounds(p@)[k as int] == (pc@[k as int].0 as int, pc@[k as int].1 as int));
        if range_eq(p, pc[k], name, (0, name.len())) {
            assert(name@.subrange(0, name@.len() as int) =~= name@);
            assert(components(p@)[k as int] == name@);
            return true;
        }
        assert(name@.subrange(0, name@.len() as int) =~= name@);
        k = k + 1;
    }
    false
}

/// `Path::parent`: everything before the last component, or `None` when
/// there is no component to remove (empty path, or the root alone).
pub open spec fn parent_of(p: Seq<char>) -> Option<Seq<char>> {
    let b = comp_bounds(p);
    if b.len() == 0 || (b.len() == 1 && is_rooted(p)) {
        None
    } else if b.len() == 1 {
        Some(Seq::<char>::empty())
    } else {
        Some(p.take(b[b.len() - 2].1))
    }
}

/// The parent of path `p` (`Path::parent`).
pub fn parent_path(p: &str) -> (r: Option<String>)
    ensures
        match parent_of(p@) {
            Some(q) => r is Some && r->0@ == q,
            None => r is None,
        },
{
    let v = crate::text::str_to_chars(p);
    let b = component_bounds(v.as_slice());
    proof {
        lemma_comp_bounds(v@);
    }
    let n = b.len();
    if n == 0 || (n == 1 && v.len() > 0 && v[0] == '/') {
        None
    } else if n == 1 {
        Some(String::new())
    } else {
        let end = b[n - 2].1;
        assert(comp_bounds(v@)[n - 2] == (b@[n - 2].0 as int, b@[n - 2].1 as int));
        let s = string_from_range(v.as_slice(), 0, end);
        assert(v@.subrange(0, end as int) =~= v@.take(end as int));
        Some(s)
    }
}

/// `PathBuf::push` of one component onto `acc` (components never hold `/`
/// except the root, which replaces everything).
pub open spec fn push_comp(acc: Seq<char>, c: Seq<char>) -> Seq<char> {
    if c == seq!['/'] {
        c
    } else if acc.len() == 0 {
        c
    } else if acc.last() == '/' {
        acc + c
    } else {
        acc + seq!['/'] + c
    }
}

/// The path holding `comps` (joined as `PathBuf::push` joins them).
pub open spec fn join_comps(comps: Seq<Seq<char>>) -> Seq<char>
    decreases comps.len(),
{
    if comps.len() == 0 {
        seq![]
    } else {
        push_comp(join_comps(comps.drop_last()), comps.last())
    }
}

pub open spec fn is_normal_comp(c: Seq<char>) -> bool {
    c != seq!['/'] && c != seq!['.'] && c != seq!['.', '.']
}

/// Lexical normalisation: `.` dropped, `..` removes a preceding normal
/// component (kept otherwise).
pub open spec fn normalize_comps(comps: Seq<Seq<char>>) -> Seq<Seq<char>>
    decreases comps.len(),
{
    if comps.len() == 0 {
        seq![]
    } else {
        let acc = normalize_comps(comps.drop_last());
        let c = comps.last();
        if c == seq!['.'] {
            acc
        } else if c == seq!['.', '.'] {
            if acc.len() > 0 && is_normal_comp(acc.last()) {
                acc.drop_last()
            } else {
                acc.push(c)
            }
        } else {
            acc.push(c)
        }
    }
}

} // verus!
