use vstd::prelude::*;
use crate::element::{Element, lemma_shape_from_points};
use crate::geometry::{Point, points_close, proxy_key};
use crate::grid::{Grid, remap_elem, remap_element, lemma_remap_elem_points};

verus! {

broadcast use vstd::seq::group_seq_axioms;

/// A chain of points, each within tolerance of the next on every axis.
/// Merging unifies exactly the points joined by such chains.
pub open spec fn is_link_path(points: Seq<Point>, tol: i64, path: Seq<int>) -> bool {
    &&& path.len() >= 1
    &&& forall|k: int| 0 <= k < path.len() ==> 0 <= #[trigger] path[k] < points.len()
    &&& forall|k: int|
        0 <= k < path.len() - 1 ==> points_close(points[#[trigger] path[k]], points[path[k + 1]], tol)
}

/// Point indices `a` and `b` belong to one merge class: some chain of
/// pairwise-close points joins them.
pub open spec fn linked(points: Seq<Point>, tol: i64, a: int, b: int) -> bool {
    exists|path: Seq<int>|
        #[trigger] is_link_path(points, tol, path) && path.first() == a && path.last() == b
}

pub proof fn lemma_linked_bounds(points: Seq<Point>, tol: i64, a: int, b: int)
    requires
        linked(points, tol, a, b),
    ensures
        0 <= a < points.len(),
        0 <= b < points.len(),
{
    let path = choose|path: Seq<int>|
        #[trigger] is_link_path(points, tol, path) && path.first() == a && path.last() == b;
    assert(path[0] == a);
    assert(path[path.len() - 1] == b);
}

pub proof fn lemma_linked_refl(points: Seq<Point>, tol: i64, a: int)
    requires
        0 <= a < points.len(),
    ensures
        linked(points, tol, a, a),
{
    let path = seq![a];
    assert(is_link_path(points, tol, path));
}

pub proof fn lemma_linked_step(points: Seq<Point>, tol: i64, a: int, b: int)
    requires
        0 <= a < points.len(),
        0 <= b < points.len(),
        points_close(points[a], points[b], tol),
    ensures
        linked(points, tol, a, b),
{
    let path = seq![a, b];
    assert(path[0] == a && path[1] == b);
    assert(is_link_path(points, tol, path));
}

pub proof fn lemma_linked_sym(points: Seq<Point>, tol: i64, a: int, b: int)
    requires
        linked(points, tol, a, b),
    ensures
        linked(points, tol, b, a),
{
    let path = choose|path: Seq<int>|
        #[trigger] is_link_path(points, tol, path) && path.first() == a && path.last() == b;
    let n = path.len() as int;
    let rev = Seq::new(path.len(), |k: int| path[n - 1 - k]);
    assert forall|k: int| 0 <= k < rev.len() - 1 implies points_close(
        points[#[trigger] rev[k]],
        points[rev[k + 1]],
        tol,
    ) by {
        assert(rev[k] == path[n - 1 - k]);
        assert(rev[k + 1] == path[n - 2 - k]);
        assert(points_close(points[path[n - 2 - k]], points[path[n - 1 - k]], tol));
    }
    assert(is_link_path(points, tol, rev));
    assert(rev.first() == b && rev.last() == a);
}

pub proof fn lemma_linked_trans(points: Seq<Point>, tol: i64, a: int, b: int, c: int)
    requires
        linked(points, tol, a, b),
        linked(points, tol, b, c),
    ensures
        linked(points, tol, a, c),
{
    let p1 = choose|path: Seq<int>|
        #[trigger] is_link_path(points, tol, path) && path.first() == a && path.last() == b;
    let p2 = choose|path: Seq<int>|
        #[trigger] is_link_path(points, tol, path) && path.first() == b && path.last() == c;
    if p2.len() == 1 {
        assert(b == c);
    } else {
        let n1 = p1.len() as int;
        let n2 = p2.len() as int;
        let comb = p1 + p2.subrange(1, n2);
        assert(comb.len() == n1 + n2 - 1);
        assert forall|k: int| 0 <= k < comb.len() implies 0 <= #[trigger] comb[k] < points.len() by {
            if k < n1 {
                assert(comb[k] == p1[k]);
            } else {
                assert(comb[k] == p2[k - n1 + 1]);
            }
        }
        assert forall|k: int| 0 <= k < comb.len() - 1 implies points_close(
            points[#[trigger] comb[k]],
            points[comb[k + 1]],
            tol,
        ) by {
            if k + 1 < n1 {
                assert(comb[k] == p1[k]);
                assert(comb[k + 1] == p1[k + 1]);
                assert(points_close(points[p1[k]], points[p1[k + 1]], tol));
            } else if k + 1 == n1 {
                assert(comb[k] == p1[k]);
                assert(p1[k] == p1.last());
                assert(comb[k + 1] == p2[1]);
                assert(points_close(points[p2[0]], points[p2[1]], tol));
            } else {
                assert(comb[k] == p2[k - n1 + 1]);
                assert(comb[k + 1] == p2[k - n1 + 2]);
                assert(points_close(points[p2[k - n1 + 1]], points[p2[k - n1 + 2]], tol));
            }
        }
        assert(is_link_path(points, tol, comb));
        assert(comb.first() == a);
        assert(comb.last() == p2[n2 - 1]);
    }
}

/// The smallest index from `q` upward that is in the merge class of `p`.
pub open spec fn rep_scan(points: Seq<Point>, tol: i64, p: int, q: int) -> int
    decreases p - q,
{
    if q >= p {
        p
    } else if linked(points, tol, p, q) {
        q
    } else {
        rep_scan(points, tol, p, q + 1)
    }
}

/// The canonical representative of `p`: the smallest point index in the
/// merge class of `p`. Every index of an element is rewritten to the
/// representative of the point it referenced.
pub open spec fn rep_of(points: Seq<Point>, tol: i64, p: int) -> int {
    rep_scan(points, tol, p, 0)
}

pub proof fn lemma_rep_scan_props(points: Seq<Point>, tol: i64, p: int, q: int)
    requires
        0 <= q <= p < points.len(),
    ensures
        q <= rep_scan(points, tol, p, q) <= p,
        linked(points, tol, p, rep_scan(points, tol, p, q)),
        forall|r: int| q <= r < rep_scan(points, tol, p, q) ==> !linked(points, tol, p, r),
    decreases p - q,
{
    if q >= p {
        lemma_linked_refl(points, tol, p);
    } else if linked(points, tol, p, q) {
    } else {
        lemma_rep_scan_props(points, tol, p, q + 1);
    }
}

/// The representative is the least member of its class.
pub proof fn lemma_rep_of_props(points: Seq<Point>, tol: i64, p: int)
    requires
        0 <= p < points.len(),
    ensures
        0 <= rep_of(points, tol, p) <= p,
        linked(points, tol, p, rep_of(points, tol, p)),
        forall|r: int| 0 <= r < rep_of(points, tol, p) ==> !linked(points, tol, p, r),
{
    lemma_rep_scan_props(points, tol, p, 0);
}

/// Linked points share one representative.
pub proof fn lemma_rep_of_eq(points: Seq<Point>, tol: i64, p: int, q: int)
    requires
        linked(points, tol, p, q),
    ensures
        rep_of(points, tol, p) == rep_of(points, tol, q),
{
    lemma_linked_bounds(points, tol, p, q);
    lemma_rep_of_props(points, tol, p);
    lemma_rep_of_props(points, tol, q);
    let rp = rep_of(points, tol, p);
    let rq = rep_of(points, tol, q);
    lemma_linked_sym(points, tol, p, q);
    lemma_linked_trans(points, tol, q, p, rp);
    lemma_linked_trans(points, tol, p, q, rq);
    if rp < rq {
        assert(!linked(points, tol, q, rp));
    }
    if rq < rp {
        assert(!linked(points, tol, p, rq));
    }
}

/// A representative is its own representative.
pub proof fn lemma_rep_of_idem(points: Seq<Point>, tol: i64, p: int)
    requires
        0 <= p < points.len(),
    ensures
        rep_of(points, tol, rep_of(points, tol, p)) == rep_of(points, tol, p),
{
    lemma_rep_of_props(points, tol, p);
    lemma_rep_of_eq(points, tol, p, rep_of(points, tol, p));
    lemma_rep_of_props(points, tol, rep_of(points, tol, p));
    let r = rep_of(points, tol, p);
    if rep_of(points, tol, r) < r {
        lemma_linked_sym(points, tol, r, rep_of(points, tol, r));
        lemma_linked_trans(points, tol, p, r, rep_of(points, tol, r));
    }
}

/// The canonical representative map of one merge pass.
pub open spec fn merge_map(points: Seq<Point>, tol: i64) -> Seq<usize> {
    Seq::new(points.len(), |p: int| rep_of(points, tol, p) as usize)
}

// ------------------------------------------------------------------
// The representative forest built during the merge scan. Every entry
// points at an equal-or-smaller index; following entries to a fixed
// point yields the root of a merge class.
// ------------------------------------------------------------------

/// Every forest entry points downward (or at itself).
pub open spec fn forest_wf(par: Seq<usize>) -> bool {
    forall|x: int| 0 <= x < par.len() ==> (#[trigger] par[x]) as int <= x
}

/// The root of `x`: follow parent entries to a fixed point.
pub open spec fn root(par: Seq<usize>, x: int) -> int
    decreases x,
    when 0 <= x < par.len() && forest_wf(par)
{
    if par[x] as int == x {
        x
    } else {
        root(par, par[x] as int)
    }
}

/// Every entry is in the merge class of its index.
pub open spec fn forest_linked(points: Seq<Point>, tol: i64, par: Seq<usize>) -> bool {
    par.len() == points.len() && forall|x: int|
        0 <= x < par.len() ==> linked(points, tol, x, (#[trigger] par[x]) as int)
}

/// Every close pair of points has been routed to one root.
pub open spec fn forest_complete(points: Seq<Point>, tol: i64, par: Seq<usize>) -> bool {
    forall|p: int, q: int|
        0 <= p < points.len() && 0 <= q < points.len() && #[trigger] points_close(
            points[p],
            points[q],
            tol,
        ) ==> root(par, p) == root(par, q)
}

pub proof fn lemma_root_props(par: Seq<usize>, x: int)
    requires
        forest_wf(par),
        0 <= x < par.len(),
    ensures
        0 <= root(par, x) <= x,
        par[root(par, x)] as int == root(par, x),
    decreases x,
{
    if par[x] as int != x {
        lemma_root_props(par, par[x] as int);
    }
}

pub proof fn lemma_root_linked(points: Seq<Point>, tol: i64, par: Seq<usize>, x: int)
    requires
        forest_wf(par),
        forest_linked(points, tol, par),
        0 <= x < par.len(),
    ensures
        linked(points, tol, x, root(par, x)),
    decreases x,
{
    if par[x] as int == x {
        lemma_linked_refl(points, tol, x);
    } else {
        lemma_root_linked(points, tol, par, par[x] as int);
        lemma_linked_trans(points, tol, x, par[x] as int, root(par, par[x] as int));
    }
}

/// Linking root `r2` under root `r1` rewrites exactly the roots that were
/// `r2`; every other root is unchanged.
pub proof fn lemma_root_update(par: Seq<usize>, r1: int, r2: int, x: int)
    requires
        forest_wf(par),
        0 <= r1 < r2 < par.len(),
        par[r1] as int == r1,
        par[r2] as int == r2,
        0 <= x < par.len(),
    ensures
        forest_wf(par.update(r2, r1 as usize)),
        root(par.update(r2, r1 as usize), x) == if root(par, x) == r2 {
            r1
        } else {
            root(par, x)
        },
    decreases x,
{
    let par2 = par.update(r2, r1 as usize);
    assert(forest_wf(par2));
    if x == r2 {
        assert(root(par, r2) == r2);
        assert(par2[x] as int == r1);
        assert(par2[r1] as int == r1);
        assert(root(par2, r1) == r1);
        assert(root(par2, r2) == root(par2, r1));
    } else if par[x] as int == x {
        assert(par2[x] as int == x);
        assert(root(par, x) == x);
        assert(root(par2, x) == x);
    } else {
        lemma_root_update(par, r1, r2, par[x] as int);
        assert(par2[x] == par[x]);
        assert(root(par, x) == root(par, par[x] as int));
        assert(root(par2, x) == root(par2, par2[x] as int));
    }
}

/// Once every close pair shares a root, every chain-linked pair does too.
pub proof fn lemma_path_same_root(points: Seq<Point>, tol: i64, par: Seq<usize>, path: Seq<int>)
    requires
        forest_wf(par),
        par.len() == points.len(),
        forest_complete(points, tol, par),
        is_link_path(points, tol, path),
    ensures
        root(par, path.first()) == root(par, path.last()),
    decreases path.len(),
{
    if path.len() > 1 {
        let rest = path.drop_first();
        assert forall|k: int| 0 <= k < rest.len() - 1 implies points_close(
            points[#[trigger] rest[k]],
            points[rest[k + 1]],
            tol,
        ) by {
            assert(rest[k] == path[k + 1]);
            assert(rest[k + 1] == path[k + 2]);
            assert(points_close(points[path[k + 1]], points[path[k + 2]], tol));
        }
        assert forall|k: int| 0 <= k < rest.len() implies 0 <= #[trigger] rest[k] < points.len() by {
            assert(rest[k] == path[k + 1]);
        }
        assert(is_link_path(points, tol, rest));
        assert(points_close(points[path[0]], points[path[1]], tol));
        assert(root(par, path[0]) == root(par, path[1]));
        lemma_path_same_root(points, tol, par, rest);
        assert(rest.first() == path[1]);
        assert(rest.last() == path.last());
    }
}

/// In a well-formed, complete forest, the root of a point is exactly its
/// canonical representative: the smallest index of its merge class.
pub proof fn lemma_root_is_rep(points: Seq<Point>, tol: i64, par: Seq<usize>, x: int)
    requires
        forest_wf(par),
        forest_linked(points, tol, par),
        forest_complete(points, tol, par),
        0 <= x < points.len(),
    ensures
        root(par, x) == rep_of(points, tol, x),
{
    let m = rep_of(points, tol, x);
    lemma_rep_of_props(points, tol, x);
    lemma_rep_of_idem(points, tol, x);
    let path = choose|path: Seq<int>|
        #[trigger] is_link_path(points, tol, path) && path.first() == x && path.last() == m;
    lemma_path_same_root(points, tol, par, path);
    assert(root(par, x) == root(par, m));
    lemma_root_props(par, m);
    lemma_root_linked(points, tol, par, m);
    lemma_rep_of_props(points, tol, m);
    if root(par, m) < m {
        assert(!linked(points, tol, m, root(par, m)));
    }
}

// ------------------------------------------------------------------
// The merge scan: sort points by the proxy key, unify close pairs in a
// tolerance window, then resolve every point to its class root.
// ------------------------------------------------------------------

/// One sort record of the merge pass: the proxy key of a point and the
/// point's index.
#[derive(Clone, Copy)]
struct Sorter {
    l: i128,
    i: usize,
}

/// Every record carries the proxy key of the point it names.
spec fn sorter_ok(v: Seq<Sorter>, points: Seq<Point>) -> bool {
    forall|k: int|
        0 <= k < v.len() ==> (#[trigger] v[k]).i < points.len() && v[k].l as int == proxy_key(
            points[v[k].i as int],
        )
}

/// Some record names point index `p`.
spec fn has_index(v: Seq<Sorter>, p: int) -> bool {
    exists|k: int| 0 <= k < v.len() && (#[trigger] v[k]).i as int == p
}

/// Records are in ascending proxy-key order.
spec fn sorted_keys(v: Seq<Sorter>) -> bool {
    forall|a: int, b: int| 0 <= a <= b < v.len() ==> (#[trigger] v[a]).l <= (#[trigger] v[b]).l
}

/// Insertion sort on the proxy key. Keeps the record set: every record of
/// the result was present before, and every point index stays covered.
fn sort_by_key(v: &mut Vec<Sorter>)
    ensures
        final(v)@.len() == old(v)@.len(),
        sorted_keys(final(v)@),
        forall|k: int| 0 <= k < final(v)@.len() ==> old(v)@.contains(#[trigger] final(v)@[k]),
        forall|p: int| #[trigger] has_index(old(v)@, p) ==> has_index(final(v)@, p),
{
    let ghost orig = v@;
    let n = v.len();
    let mut idx: usize = 1;
    while idx < n
        invariant
            v@.len() == n == orig.len(),
            1 <= idx,
            idx <= n || n == 0,
            forall|a: int, b: int| 0 <= a <= b < idx ==> (#[trigger] v@[a]).l <= (#[trigger] v@[b]).l,
            forall|k: int| 0 <= k < n ==> orig.contains(#[trigger] v@[k]),
            forall|p: int| #[trigger] has_index(orig, p) ==> has_index(v@, p),
        decreases n - idx,
    {
        let mut j: usize = idx;
        while j > 0 && v[j - 1].l > v[j].l
            invariant
                v@.len() == n == orig.len(),
                0 <= j <= idx < n,
                forall|a: int, b: int|
                    0 <= a <= b <= idx && a != j && b != j ==> (#[trigger] v@[a]).l <= (
                    #[trigger] v@[b]).l,
                forall|a: int| j < a <= idx ==> (v@[j as int]).l <= (#[trigger] v@[a]).l,
                forall|k: int| 0 <= k < n ==> orig.contains(#[trigger] v@[k]),
                forall|p: int| #[trigger] has_index(orig, p) ==> has_index(v@, p),
            decreases j,
        {
            let ghost before = v@;
            let a = v[j - 1];
            let b = v[j];
            v.set(j - 1, b);
            v.set(j, a);
            proof {
                assert forall|p: int| #[trigger] has_index(orig, p) implies has_index(v@, p) by {
                    assert(has_index(before, p));
                    let k = choose|k: int|
                        0 <= k < before.len() && (#[trigger] before[k]).i as int == p;
                    if k == j - 1 {
                        assert(v@[j as int].i as int == p);
                    } else if k == j {
                        assert(v@[j - 1].i as int == p);
                    } else {
                        assert(v@[k].i as int == p);
                    }
                }
            }
            j -= 1;
        }
        idx += 1;
    }
}

/// Per-axis closeness test against the tolerance.
fn close_exec(a: &Point, b: &Point, tol: i64) -> (r: bool)
    ensures
        r == points_close(*a, *b, tol),
{
    let t = tol as i128;
    let dx = a.x as i128 - b.x as i128;
    let dy = a.y as i128 - b.y as i128;
    let dz = a.z as i128 - b.z as i128;
    -t <= dx && dx <= t && -t <= dy && dy <= t && -t <= dz && dz <= t
}

/// Follow forest entries from `x` to the root of its class.
fn find_root(par: &Vec<usize>, x: usize) -> (r: usize)
    requires
        forest_wf(par@),
        x < par@.len(),
    ensures
        r as int == root(par@, x as int),
        r < par@.len(),
{
    let mut y = x;
    while par[y] != y
        invariant
            forest_wf(par@),
            y < par@.len(),
            root(par@, y as int) == root(par@, x as int),
        decreases y,
    {
        y = par[y];
    }
    proof {
        lemma_root_props(par@, x as int);
    }
    y
}

/// All scan pairs strictly before position pair `(i, j)` that are close have
/// been routed to one root.
spec fn scan_done(
    points: Seq<Point>,
    tol: i64,
    par: Seq<usize>,
    v: Seq<Sorter>,
    i: int,
    j: int,
) -> bool {
    forall|a: int, b: int|
        0 <= a < b < v.len() && (a < i || (a == i && b < j)) && #[trigger] points_close(
            points[v[a].i as int],
            points[v[b].i as int],
            tol,
        ) ==> root(par, v[a].i as int) == root(par, v[b].i as int)
}

/// Compute the canonical representative of every point: sort the points by
/// the proxy key, unify every pair whose axes are all within `tol` (the scan
/// of each point stops once the proxy gap exceeds `3 * tol`, which no close
/// pair can exceed), and resolve each point through the resulting forest.
pub fn compute_merge_map(points: &Vec<Point>, tol: i64) -> (rep: Vec<usize>)
    ensures
        rep@ == merge_map(points@, tol),
{
    let n = points.len();

    // Sort records: proxy key plus point index.
    let mut v: Vec<Sorter> = Vec::new();
    let mut p: usize = 0;
    while p < n
        invariant
            p <= n == points@.len(),
            v@.len() == p,
            sorter_ok(v@, points@),
            forall|q: int| 0 <= q < p ==> #[trigger] has_index(v@, q),
        decreases n - p,
    {
        let key = points[p].x as i128 + points[p].y as i128 + points[p].z as i128;
        let ghost vpre = v@;
        v.push(Sorter { l: key, i: p });
        proof {
            assert forall|q: int| 0 <= q < p + 1 implies #[trigger] has_index(v@, q) by {
                if q < p {
                    assert(has_index(vpre, q));
                    let k = choose|k: int|
                        0 <= k < vpre.len() && (#[trigger] vpre[k]).i as int == q;
                    assert(v@[k] == vpre[k]);
                } else {
                    assert(v@[p as int].i as int == q);
                }
            }
        }
        p += 1;
    }
    let ghost vunsorted = v@;
    sort_by_key(&mut v);
    proof {
        assert forall|k: int| 0 <= k < v@.len() implies (#[trigger] v@[k]).i < points@.len() && v@[
            k].l as int == proxy_key(points@[v@[k].i as int]) by {
            let e = v@[k];
            assert(vunsorted.contains(e));
            let k0 = choose|k0: int| 0 <= k0 < vunsorted.len() && vunsorted[k0] == e;
            assert((#[trigger] vunsorted[k0]).i < points@.len());
        }
        assert forall|q: int| 0 <= q < n implies #[trigger] has_index(v@, q) by {
            assert(has_index(vunsorted, q));
        }
    }

    // Identity forest: every point is its own class.
    let mut par: Vec<usize> = Vec::new();
    let mut x: usize = 0;
    while x < n
        invariant
            x <= n == points@.len(),
            par@.len() == x,
            forall|y: int| 0 <= y < x ==> (#[trigger] par@[y]) as int == y,
        decreases n - x,
    {
        par.push(x);
        x += 1;
    }
    proof {
        assert(forest_wf(par@));
        assert forall|y: int| 0 <= y < par@.len() implies linked(
            points@,
            tol,
            y,
            (#[trigger] par@[y]) as int,
        ) by {
            lemma_linked_refl(points@, tol, y);
        }
    }

    // Window scan: unify close pairs, pruning once the proxy gap passes
    // 3 * tol.
    let t3 = 3i128 * (tol as i128);
    let mut i: usize = 0;
    while i < n
        invariant
            n == points@.len(),
            v@.len() == n,
            par@.len() == n,
            sorted_keys(v@),
            sorter_ok(v@, points@),
            forall|q: int| 0 <= q < n ==> #[trigger] has_index(v@, q),
            t3 == 3 * (tol as int),
            i <= n,
            forest_wf(par@),
            forest_linked(points@, tol, par@),
            scan_done(points@, tol, par@, v@, i as int, i as int + 1),
        decreases n - i,
    {
        let mut j: usize = i + 1;
        while j < n
            invariant_except_break
                n == points@.len(),
                v@.len() == n,
                par@.len() == n,
                sorted_keys(v@),
                sorter_ok(v@, points@),
                t3 == 3 * (tol as int),
                i < j <= n,
                forest_wf(par@),
                forest_linked(points@, tol, par@),
                scan_done(points@, tol, par@, v@, i as int, j as int),
            ensures
                n == points@.len(),
                v@.len() == n,
                par@.len() == n,
                forest_wf(par@),
                forest_linked(points@, tol, par@),
                scan_done(points@, tol, par@, v@, i as int, n as int),
            decreases n - j,
        {
            if v[j].l - v[i].l > t3 {
                // Sorted order: every later record is at least this far out,
                // and no close pair has a proxy gap beyond 3 * tol.
                proof {
                    assert forall|b: int|
                        j <= b < n && points_close(
                            points@[v@[i as int].i as int],
                            points@[v@[b].i as int],
                            tol,
                        ) implies false by {
                        assert(v@[j as int].l <= v@[b].l);
                        crate::geometry::lemma_close_proxy_bound(
                            points@[v@[i as int].i as int],
                            points@[v@[b].i as int],
                            tol,
                        );
                    }
                    assert(scan_done(points@, tol, par@, v@, i as int, n as int));
                }
                break ;
            }
            let pi = v[i].i;
            let pj = v[j].i;
            if close_exec(&points[pi], &points[pj], tol) {
                let ri = find_root(&par, pi);
                let rj = find_root(&par, pj);
                if ri != rj {
                    let ghost old_par = par@;
                    let (rlo, rhi) = if ri < rj {
                        (ri, rj)
                    } else {
                        (rj, ri)
                    };
                    proof {
                        lemma_root_props(old_par, pi as int);
                        lemma_root_props(old_par, pj as int);
                    }
                    par.set(rhi, rlo);
                    proof {
                        assert(par@ == old_par.update(rhi as int, rlo));
                        assert forall|y: int| 0 <= y < n implies root(par@, y) == (if root(
                            old_par,
                            y,
                        ) == rhi as int {
                            rlo as int
                        } else {
                            root(old_par, y)
                        }) by {
                            lemma_root_update(old_par, rlo as int, rhi as int, y);
                        }
                        // The forest still links each entry into its class.
                        assert forall|y: int| 0 <= y < par@.len() implies linked(
                            points@,
                            tol,
                            y,
                            (#[trigger] par@[y]) as int,
                        ) by {
                            if y == rhi as int {
                                lemma_root_linked(points@, tol, old_par, pi as int);
                                lemma_root_linked(points@, tol, old_par, pj as int);
                                lemma_linked_step(points@, tol, pi as int, pj as int);
                                // rhi is the root of one endpoint, rlo of the other.
                                if ri < rj {
                                    // rhi == rj, rlo == ri
                                    lemma_linked_sym(points@, tol, pj as int, rj as int);
                                    lemma_linked_sym(points@, tol, pi as int, pj as int);
                                    lemma_linked_trans(points@, tol, rj as int, pj as int, pi as int);
                                    lemma_linked_trans(points@, tol, rj as int, pi as int, ri as int);
                                } else {
                                    lemma_linked_sym(points@, tol, pi as int, ri as int);
                                    lemma_linked_trans(points@, tol, ri as int, pi as int, pj as int);
                                    lemma_linked_trans(points@, tol, ri as int, pj as int, rj as int);
                                }
                            } else {
                                assert(par@[y] == old_par[y]);
                            }
                        }
                        // Previously routed pairs stay routed; the new pair
                        // now shares the lower root.
                        assert(scan_done(points@, tol, par@, v@, i as int, j as int + 1));
                    }
                } else {
                    proof {
                        assert(scan_done(points@, tol, par@, v@, i as int, j as int + 1));
                    }
                }
            } else {
                proof {
                    assert(scan_done(points@, tol, par@, v@, i as int, j as int + 1));
                }
            }
            j += 1;
        }
        i += 1;
        proof {
            assert(scan_done(points@, tol, par@, v@, i as int, i as int + 1));
        }
    }

    // Every close pair of point indices now shares a root.
    proof {
        assert forall|p0: int, q0: int|
            0 <= p0 < points@.len() && 0 <= q0 < points@.len() && #[trigger] points_close(
                points@[p0],
                points@[q0],
                tol,
            ) implies root(par@, p0) == root(par@, q0) by {
            if p0 != q0 {
                assert(has_index(v@, p0));
                assert(has_index(v@, q0));
                let a = choose|k: int| 0 <= k < v@.len() && (#[trigger] v@[k]).i as int == p0;
                let b = choose|k: int| 0 <= k < v@.len() && (#[trigger] v@[k]).i as int == q0;
                if a < b {
                    assert(points_close(points@[v@[a].i as int], points@[v@[b].i as int], tol));
                } else {
                    assert(points_close(points@[v@[b].i as int], points@[v@[a].i as int], tol));
                }
            }
        }
        assert(forest_complete(points@, tol, par@));
    }

    // Resolve every point through the forest.
    let mut rep: Vec<usize> = Vec::new();
    let mut x: usize = 0;
    while x < n
        invariant
            n == points@.len(),
            par@.len() == n,
            forest_wf(par@),
            forest_linked(points@, tol, par@),
            forest_complete(points@, tol, par@),
            x <= n,
            rep@.len() == x,
            forall|y: int| 0 <= y < x ==> (#[trigger] rep@[y]) as int == rep_of(points@, tol, y),
        decreases n - x,
    {
        let r = find_root(&par, x);
        proof {
            lemma_root_is_rep(points@, tol, par@, x as int);
        }
        rep.push(r);
        x += 1;
    }
    proof {
        assert(rep@ =~= merge_map(points@, tol));
    }
    rep
}

/// The element buffer after one merge pass: every point index replaced by
/// its canonical representative.
pub open spec fn merge_elems(points: Seq<Point>, tol: i64, elements: Seq<Element>) -> Seq<Element> {
    elements.map_values(|e: Element| remap_elem(e, merge_map(points, tol)))
}

/// Merge idempotence: a second merge pass with the same tolerance over an
/// already-merged element buffer changes nothing — the points are untouched
/// by merging, and a canonical representative is its own representative.
pub proof fn lemma_merge_idempotent(points: Seq<Point>, tol: i64, elements: Seq<Element>)
    requires
        forall|k: int|
            0 <= k < elements.len() ==> (#[trigger] elements[k]).in_bounds(points.len() as int),
    ensures
        merge_elems(points, tol, merge_elems(points, tol, elements)) =~= merge_elems(
            points,
            tol,
            elements,
        ),
{
    let m = merge_map(points, tol);
    let once = merge_elems(points, tol, elements);
    assert forall|k: int| 0 <= k < once.len() implies #[trigger] merge_elems(points, tol, once)[k]
        == once[k] by {
        let e = elements[k];
        lemma_remap_elem_points(e, m);
        let e1 = remap_elem(e, m);
        lemma_remap_elem_points(e1, m);
        assert forall|j: int| 0 <= j < e1.points().len() implies #[trigger] remap_elem(
            e1,
            m,
        ).points()[j] == e1.points()[j] by {
            let p = e.points()[j] as int;
            assert(e.points()[j] < points.len());
            lemma_rep_of_props(points, tol, p);
            lemma_rep_of_idem(points, tol, p);
            assert(e1.points()[j] == m[p]);
        }
        assert(remap_elem(e1, m).points() =~= e1.points());
        lemma_shape_from_points(remap_elem(e1, m).shape, e1.shape);
    }
}

/// Merge soundness: two points whose coordinates differ by less than the
/// tolerance on every axis are unified under one representative.
pub proof fn lemma_merge_sound(points: Seq<Point>, tol: i64, p: int, q: int)
    requires
        0 <= p < points.len(),
        0 <= q < points.len(),
        -(tol as int) < points[p].x - points[q].x < tol as int,
        -(tol as int) < points[p].y - points[q].y < tol as int,
        -(tol as int) < points[p].z - points[q].z < tol as int,
    ensures
        merge_map(points, tol)[p] == merge_map(points, tol)[q],
{
    assert(points_close(points[p], points[q], tol));
    lemma_linked_step(points, tol, p, q);
    lemma_rep_of_eq(points, tol, p, q);
}

impl Grid {
    /// Rewrite every element's point indices so that any two points within
    /// `tol` along each coordinate axis are unified under one representative
    /// index: the smallest point index of each merge class. Deletes neither
    /// points nor elements; dead duplicates are removed by a following
    /// compaction pass.
    pub fn merge_duplicates(&mut self, tol: i64)
        requires
            old(self).valid(),
        ensures
            final(self).points == old(self).points,
            final(self).names == old(self).names,
            final(self).dim == old(self).dim,
            final(self).elements@ == merge_elems(old(self).points@, tol, old(self).elements@),
            final(self).valid(),
    {
        let ghost old_elements = self.elements@;
        let rep = compute_merge_map(&self.points, tol);
        let m = self.elements.len();
        let n = self.points.len();
        let mut k: usize = 0;
        while k < m
            invariant
                self.points == old(self).points,
                self.names == old(self).names,
                self.dim == old(self).dim,
                n == self.points@.len(),
                rep@ == merge_map(self.points@, tol),
                m == old_elements.len(),
                self.elements@.len() == m,
                forall|a: int| 0 <= a < m ==> (#[trigger] old_elements[a]).in_bounds(n as int),
                k <= m,
                forall|a: int|
                    0 <= a < k ==> #[trigger] self.elements@[a] == remap_elem(
                        old_elements[a],
                        merge_map(self.points@, tol),
                    ),
                forall|a: int| k <= a < m ==> #[trigger] self.elements@[a] == old_elements[a],
            decreases m - k,
        {
            let mut e = self.elements[k];
            proof {
                assert(old_elements[k as int].in_bounds(n as int));
            }
            remap_element(&mut e, &rep);
            self.elements.set(k, e);
            k += 1;
        }
        proof {
            assert(self.elements@ =~= merge_elems(self.points@, tol, old_elements));
            let mm = merge_map(self.points@, tol);
            assert forall|a: int| 0 <= a < m implies (#[trigger] self.elements@[a]).in_bounds(
                n as int,
            ) by {
                lemma_remap_elem_points(old_elements[a], mm);
                assert forall|j: int|
                    0 <= j < self.elements@[a].points().len() implies (
                #[trigger] self.elements@[a].points()[j]) < n by {
                    let p = old_elements[a].points()[j] as int;
                    assert(old_elements[a].points()[j] < n);
                    lemma_rep_of_props(self.points@, tol, p);
                    assert(self.elements@[a].points()[j] == mm[p]);
                }
            }
        }
    }
}

} // verus!
