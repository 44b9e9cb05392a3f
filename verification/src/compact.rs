use vstd::prelude::*;
use crate::element::Element;
use crate::geometry::Point;
use crate::element::lemma_shape_from_points;
use crate::grid::{Grid, remap_elem, remap_element, lemma_remap_elem_points};

verus! {

broadcast use vstd::seq::group_seq_axioms;

/// Point index `p` is referenced by at least one element.
pub open spec fn references(elements: Seq<Element>, p: int) -> bool {
    exists|k: int, jj: int|
        0 <= k < elements.len() && 0 <= jj < elements[k].points().len() && (#[trigger] elements[k].points()[jj]) as int == p
}

/// How many referenced point indices lie strictly below `p`: the position a
/// surviving point is renumbered to by compaction.
pub open spec fn rank(elements: Seq<Element>, p: int) -> int
    decreases p,
{
    if p <= 0 {
        0
    } else {
        rank(elements, p - 1) + if references(elements, p - 1) {
            1int
        } else {
            0int
        }
    }
}

/// The renumbering map of a compaction pass over `n` points.
pub open spec fn rank_map(elements: Seq<Element>, n: int) -> Seq<usize> {
    Seq::new(n as nat, |p: int| rank(elements, p) as usize)
}

/// The first `n` points restricted to those referenced, in their original
/// order.
pub open spec fn live_prefix(points: Seq<Point>, elements: Seq<Element>, n: int) -> Seq<Point>
    decreases n,
{
    if n <= 0 {
        Seq::empty()
    } else {
        live_prefix(points, elements, n - 1) + if references(elements, n - 1) {
            seq![points[n - 1]]
        } else {
            Seq::empty()
        }
    }
}

/// The point buffer after compaction.
pub open spec fn compact_pts(points: Seq<Point>, elements: Seq<Element>) -> Seq<Point> {
    live_prefix(points, elements, points.len() as int)
}

/// The element buffer after compaction over `n` points.
pub open spec fn compact_elems(elements: Seq<Element>, n: int) -> Seq<Element> {
    elements.map_values(|e: Element| remap_elem(e, rank_map(elements, n)))
}

pub proof fn lemma_rank_bounds(elements: Seq<Element>, p: int)
    ensures
        0 <= rank(elements, p) <= if p >= 0 {
            p
        } else {
            0
        },
    decreases p,
{
    if p > 0 {
        lemma_rank_bounds(elements, p - 1);
    }
}

/// The surviving buffer up to `n` has exactly `rank(n)` entries.
pub proof fn lemma_live_len(points: Seq<Point>, elements: Seq<Element>, n: int)
    ensures
        live_prefix(points, elements, n).len() == rank(elements, n),
    decreases n,
{
    if n > 0 {
        lemma_live_len(points, elements, n - 1);
    }
}

/// A referenced point keeps its coordinates: it lands at position `rank(p)`
/// of the surviving buffer.
pub proof fn lemma_live_at_rank(points: Seq<Point>, elements: Seq<Element>, p: int, n: int)
    requires
        0 <= p < n,
        references(elements, p),
    ensures
        rank(elements, p) < live_prefix(points, elements, n).len(),
        live_prefix(points, elements, n)[rank(elements, p)] == points[p],
    decreases n,
{
    lemma_live_len(points, elements, n);
    if p == n - 1 {
        lemma_live_len(points, elements, n - 1);
        assert(live_prefix(points, elements, n) == live_prefix(points, elements, n - 1)
            + seq![points[n - 1]]);
        assert(live_prefix(points, elements, n)[rank(elements, p)] == seq![points[n - 1]][0]);
    } else {
        lemma_live_at_rank(points, elements, p, n - 1);
        lemma_rank_bounds(elements, p);
        let left = live_prefix(points, elements, n - 1);
        let right = if references(elements, n - 1) {
            seq![points[n - 1]]
        } else {
            Seq::<Point>::empty()
        };
        assert(live_prefix(points, elements, n) == left + right);
        assert((left + right)[rank(elements, p)] == left[rank(elements, p)]);
    }
}

/// Renumbering is strictly monotone on referenced points.
pub proof fn lemma_rank_strict_mono(elements: Seq<Element>, p: int, q: int)
    requires
        0 <= p < q,
        references(elements, p),
    ensures
        rank(elements, p) < rank(elements, q),
    decreases q,
{
    if q - 1 > p {
        lemma_rank_strict_mono(elements, p, q - 1);
        lemma_rank_bounds(elements, q);
    }
}

/// Every slot of the compacted range is hit by some referenced point.
pub proof fn lemma_rank_surjective(elements: Seq<Element>, n: int, j: int)
    requires
        0 <= j < rank(elements, n),
    ensures
        exists|p: int|
            0 <= p < n && #[trigger] references(elements, p) && rank(elements, p) == j,
    decreases n,
{
    if n > 0 {
        if references(elements, n - 1) && rank(elements, n - 1) == j {
            assert(0 <= n - 1 < n && references(elements, n - 1) && rank(elements, n - 1) == j);
        } else {
            lemma_rank_surjective(elements, n - 1, j);
            let p = choose|p: int|
                0 <= p < n - 1 && #[trigger] references(elements, p) && rank(elements, p) == j;
            assert(0 <= p < n && references(elements, p) && rank(elements, p) == j);
        }
    }
}

/// When every point below `n` is referenced, renumbering is the identity.
pub proof fn lemma_rank_identity(elements: Seq<Element>, n: int, p: int)
    requires
        forall|q: int| 0 <= q < n ==> #[trigger] references(elements, q),
        0 <= p <= n,
    ensures
        rank(elements, p) == p,
    decreases p,
{
    if p > 0 {
        lemma_rank_identity(elements, n, p - 1);
    }
}

/// When every point below `n` is referenced, the surviving buffer is the
/// original prefix.
pub proof fn lemma_live_identity(points: Seq<Point>, elements: Seq<Element>, n: int)
    requires
        forall|q: int| 0 <= q < n ==> #[trigger] references(elements, q),
        0 <= n <= points.len(),
    ensures
        live_prefix(points, elements, n) =~= points.take(n),
    decreases n,
{
    if n > 0 {
        lemma_live_identity(points, elements, n - 1);
    }
}

/// Remapping through a map that is the identity on all indices an element
/// uses leaves the element unchanged.
pub proof fn lemma_remap_identity(e: Element, m: Seq<usize>)
    requires
        e.in_bounds(m.len() as int),
        forall|p: int| 0 <= p < m.len() ==> (#[trigger] m[p]) as int == p,
    ensures
        remap_elem(e, m) == e,
{
    lemma_remap_elem_points(e, m);
    assert(remap_elem(e, m).points() =~= e.points());
    lemma_shape_from_points(remap_elem(e, m).shape, e.shape);
}

impl Grid {
    /// Compaction bijectivity: after a compaction pass over a grid whose
    /// elements were in bounds, the elements are in bounds of the surviving
    /// buffer, and every surviving position is referenced by some element —
    /// the referenced index set is exactly `{0, ..., new_len - 1}`.
    pub proof fn lemma_compact_bijective(points: Seq<Point>, elements: Seq<Element>)
        requires
            forall|k: int|
                0 <= k < elements.len() ==> (#[trigger] elements[k]).in_bounds(points.len() as int),
        ensures
            forall|k: int|
                0 <= k < elements.len() ==> (#[trigger] compact_elems(elements, points.len() as int)[k]).in_bounds(
                    compact_pts(points, elements).len() as int,
                ),
            forall|j: int|
                0 <= j < compact_pts(points, elements).len() ==> references(
                    compact_elems(elements, points.len() as int),
                    j,
                ),
    {
        let n = points.len() as int;
        let m = rank_map(elements, n);
        let new_els = compact_elems(elements, n);
        let live = compact_pts(points, elements);
        lemma_live_len(points, elements, n);
        assert forall|k: int| 0 <= k < elements.len() implies (#[trigger] new_els[k]).in_bounds(
            live.len() as int,
        ) by {
            lemma_remap_elem_points(elements[k], m);
            assert forall|jj: int| 0 <= jj < new_els[k].points().len() implies (
            #[trigger] new_els[k].points()[jj]) < live.len() by {
                let p = elements[k].points()[jj] as int;
                assert(elements[k].points()[jj] < points.len());
                assert(references(elements, p));
                lemma_rank_strict_mono(elements, p, n);
                lemma_rank_bounds(elements, p);
                assert(new_els[k].points()[jj] == m[p]);
            }
        }
        assert forall|j: int| 0 <= j < live.len() implies references(new_els, j) by {
            lemma_rank_surjective(elements, n, j);
            let p = choose|p: int|
                0 <= p < n && #[trigger] references(elements, p) && rank(elements, p) == j;
            let (k, jj) = choose|k: int, jj: int|
                0 <= k < elements.len() && 0 <= jj < elements[k].points().len() && (
                #[trigger] elements[k].points()[jj]) as int == p;
            lemma_remap_elem_points(elements[k], m);
            lemma_rank_bounds(elements, p);
            assert(new_els[k].points()[jj] as int == j);
        }
    }

    /// Compaction idempotence: compacting a grid that has just been
    /// compacted (no merge in between) changes neither the point buffer nor
    /// the element buffer.
    pub proof fn lemma_compact_idempotent(points: Seq<Point>, elements: Seq<Element>)
        requires
            forall|k: int|
                0 <= k < elements.len() ==> (#[trigger] elements[k]).in_bounds(points.len() as int),
        ensures
            compact_pts(compact_pts(points, elements), compact_elems(elements, points.len() as int))
                =~= compact_pts(points, elements),
            compact_elems(
                compact_elems(elements, points.len() as int),
                compact_pts(points, elements).len() as int,
            ) =~= compact_elems(elements, points.len() as int),
    {
        let n = points.len() as int;
        let live = compact_pts(points, elements);
        let new_els = compact_elems(elements, n);
        let n2 = live.len() as int;
        Self::lemma_compact_bijective(points, elements);
        assert forall|q: int| 0 <= q < n2 implies #[trigger] references(new_els, q) by {}
        lemma_live_identity(live, new_els, n2);
        assert(compact_pts(live, new_els) =~= live.take(n2));
        assert(live.take(n2) =~= live);
        let m2 = rank_map(new_els, n2);
        assert forall|p: int| 0 <= p < m2.len() implies (#[trigger] m2[p]) as int == p by {
            lemma_rank_identity(new_els, n2, p);
        }
        assert forall|k: int| 0 <= k < new_els.len() implies #[trigger] compact_elems(new_els, n2)[k]
            == new_els[k] by {
            lemma_remap_identity(new_els[k], m2);
        }
    }

    /// Remove every point that no element references and renumber the
    /// surviving points contiguously from zero, preserving their order;
    /// every element's indices are rewritten to the new numbering. Returns
    /// the number of removed points.
    pub fn delete_dead_points(&mut self) -> (removed: usize)
        requires
            old(self).valid(),
        ensures
            final(self).points@ == compact_pts(old(self).points@, old(self).elements@),
            final(self).elements@ == compact_elems(old(self).elements@, old(self).points@.len() as int),
            final(self).names == old(self).names,
            final(self).dim == old(self).dim,
            removed == old(self).points@.len() - final(self).points@.len(),
            final(self).valid(),
    {
        let ghost old_elements = self.elements@;
        let ghost old_points = self.points@;
        let n = self.points.len();

        // Mark phase: which points are referenced by at least one element.
        let mut seen: Vec<bool> = Vec::new();
        let mut p: usize = 0;
        while p < n
            invariant
                seen@.len() == p,
                p <= n,
                forall|q: int| 0 <= q < p ==> !(#[trigger] seen@[q]),
            decreases n - p,
        {
            seen.push(false);
            p += 1;
        }
        let m = self.elements.len();
        let mut k: usize = 0;
        while k < m
            invariant
                self.elements@ == old_elements,
                self.points@ == old_points,
                m == old_elements.len(),
                n == old_points.len(),
                seen@.len() == n,
                k <= m,
                forall|a: int| 0 <= a < m ==> (#[trigger] old_elements[a]).in_bounds(n as int),
                forall|q: int| 0 <= q < n && #[trigger] seen@[q] ==> references(old_elements, q),
                forall|a: int, jj: int|
                    0 <= a < k && 0 <= jj < old_elements[a].points().len() ==> seen@[(
                    #[trigger] old_elements[a].points()[jj]) as int],
            decreases m - k,
        {
            let pts = self.elements[k].iter_points();
            let mut jj: usize = 0;
            while jj < pts.len()
                invariant
                    self.elements@ == old_elements,
                    self.points@ == old_points,
                    m == old_elements.len(),
                    n == old_points.len(),
                    pts@ == old_elements[k as int].points(),
                    k < m,
                    seen@.len() == n,
                    jj <= pts@.len(),
                    forall|a: int| 0 <= a < m ==> (#[trigger] old_elements[a]).in_bounds(n as int),
                    forall|q: int| 0 <= q < n && #[trigger] seen@[q] ==> references(old_elements, q),
                    forall|a: int, j2: int|
                        0 <= a < k && 0 <= j2 < old_elements[a].points().len() ==> seen@[(
                        #[trigger] old_elements[a].points()[j2]) as int],
                    forall|j2: int|
                        0 <= j2 < jj ==> seen@[(#[trigger] old_elements[k as int].points()[j2]) as int],
                decreases pts@.len() - jj,
            {
                let q = pts[jj];
                assert(old_elements[k as int].in_bounds(n as int));
                proof {
                    assert(references(old_elements, q as int));
                }
                seen.set(q, true);
                jj += 1;
            }
            k += 1;
        }
        proof {
            assert forall|q: int| 0 <= q < n implies seen@[q] == references(old_elements, q) by {
                if references(old_elements, q) {
                    let (a, jj) = choose|a: int, jj: int|
                        0 <= a < old_elements.len() && 0 <= jj < old_elements[a].points().len() && (
                        #[trigger] old_elements[a].points()[jj]) as int == q;
                    assert(seen@[q]);
                }
            }
        }

        // Renumber phase: assign each point its rank among referenced points
        // and gather the survivors in order.
        let mut new_index: Vec<usize> = Vec::new();
        let mut new_points: Vec<Point> = Vec::new();
        let mut p: usize = 0;
        while p < n
            invariant
                self.elements@ == old_elements,
                self.points@ == old_points,
                n == old_points.len(),
                seen@.len() == n,
                forall|q: int| 0 <= q < n ==> seen@[q] == references(old_elements, q),
                p <= n,
                new_index@.len() == p,
                forall|q: int| 0 <= q < p ==> (#[trigger] new_index@[q]) as int == rank(old_elements, q),
                new_points@ == live_prefix(old_points, old_elements, p as int),
                new_points@.len() == rank(old_elements, p as int),
            decreases n - p,
        {
            proof {
                lemma_rank_bounds(old_elements, p as int);
                lemma_live_len(old_points, old_elements, p + 1);
            }
            new_index.push(new_points.len());
            if seen[p] {
                new_points.push(self.points[p]);
            }
            p += 1;
        }
        proof {
            assert(new_index@ =~= rank_map(old_elements, n as int));
        }

        // Rewrite phase: route every element index through the new numbering.
        let mut k: usize = 0;
        while k < m
            invariant
                self.points@ == old_points,
                self.names == old(self).names,
                self.dim == old(self).dim,
                m == old_elements.len(),
                self.elements@.len() == m,
                new_index@ == rank_map(old_elements, n as int),
                n == old_points.len(),
                k <= m,
                forall|a: int| 0 <= a < m ==> (#[trigger] old_elements[a]).in_bounds(n as int),
                forall|a: int|
                    0 <= a < k ==> #[trigger] self.elements@[a] == remap_elem(
                        old_elements[a],
                        rank_map(old_elements, n as int),
                    ),
                forall|a: int| k <= a < m ==> #[trigger] self.elements@[a] == old_elements[a],
            decreases m - k,
        {
            let mut e = self.elements[k];
            proof {
                assert(old_elements[k as int].in_bounds(n as int));
            }
            remap_element(&mut e, &new_index);
            self.elements.set(k, e);
            k += 1;
        }
        proof {
            assert(self.elements@ =~= compact_elems(old_elements, n as int));
        }

        // Commit the surviving buffer.
        proof {
            lemma_live_len(old_points, old_elements, n as int);
            lemma_rank_bounds(old_elements, n as int);
        }
        let removed = n - new_points.len();
        self.points = new_points;
        proof {
            Self::lemma_compact_bijective(old_points, old_elements);
        }
        removed
    }
}

} // verus!
