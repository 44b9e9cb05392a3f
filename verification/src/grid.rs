use vstd::prelude::*;
use crate::element::{Element, Shape, Name, shape_points, same_kind};
use crate::geometry::{Dimension, Point};

verus! {

/// The shape with every point index `p` replaced by `m[p]`.
pub open spec fn map_shape(s: Shape, m: Seq<usize>) -> Shape {
    match s {
        Shape::Undefined => Shape::Undefined,
        Shape::Line(a) => Shape::Line([m[a[0] as int], m[a[1] as int]]),
        Shape::Triangle(a) => Shape::Triangle([m[a[0] as int], m[a[1] as int], m[a[2] as int]]),
        Shape::Quad(a) => Shape::Quad(
            [m[a[0] as int], m[a[1] as int], m[a[2] as int], m[a[3] as int]],
        ),
        Shape::Tetra(a) => Shape::Tetra(
            [m[a[0] as int], m[a[1] as int], m[a[2] as int], m[a[3] as int]],
        ),
        Shape::Hexa(a) => Shape::Hexa(
            [
                m[a[0] as int],
                m[a[1] as int],
                m[a[2] as int],
                m[a[3] as int],
                m[a[4] as int],
                m[a[5] as int],
                m[a[6] as int],
                m[a[7] as int],
            ],
        ),
        Shape::Wedge(a) => Shape::Wedge(
            [
                m[a[0] as int],
                m[a[1] as int],
                m[a[2] as int],
                m[a[3] as int],
                m[a[4] as int],
                m[a[5] as int],
            ],
        ),
        Shape::Pyramid(a) => Shape::Pyramid(
            [m[a[0] as int], m[a[1] as int], m[a[2] as int], m[a[3] as int], m[a[4] as int]],
        ),
    }
}

/// The element with every point index `p` replaced by `m[p]`; the name tag
/// is kept.
pub open spec fn remap_elem(e: Element, m: Seq<usize>) -> Element {
    Element { name_index: e.name_index, shape: map_shape(e.shape, m) }
}

/// Remapping keeps the variant and maps the point sequence pointwise.
pub proof fn lemma_remap_elem_points(e: Element, m: Seq<usize>)
    ensures
        same_kind(remap_elem(e, m).shape, e.shape),
        remap_elem(e, m).points().len() == e.points().len(),
        forall|k: int|
            0 <= k < e.points().len() ==> #[trigger] remap_elem(e, m).points()[k] == m[e.points()[k] as int],
        remap_elem(e, m).name_index == e.name_index,
{
    match e.shape {
        Shape::Undefined => {},
        Shape::Line(a) => {},
        Shape::Triangle(a) => {},
        Shape::Quad(a) => {},
        Shape::Tetra(a) => {},
        Shape::Hexa(a) => {},
        Shape::Wedge(a) => {},
        Shape::Pyramid(a) => {},
    }
}

/// Rewrite every point index of `e` through `map`.
pub fn remap_element(e: &mut Element, map: &Vec<usize>)
    requires
        old(e).in_bounds(map@.len() as int),
    ensures
        *final(e) == remap_elem(*old(e), map@),
{
    proof {
        assert forall|k: int| 0 <= k < shape_points(e.shape).len() implies (#[trigger] shape_points(
            e.shape,
        )[k]) < map@.len() by {
            assert(e.points()[k] < map@.len());
        }
    }
    let s = match e.shape {
        Shape::Undefined => Shape::Undefined,
        Shape::Line(a) => Shape::Line([map[a[0]], map[a[1]]]),
        Shape::Triangle(a) => Shape::Triangle([map[a[0]], map[a[1]], map[a[2]]]),
        Shape::Quad(a) => Shape::Quad([map[a[0]], map[a[1]], map[a[2]], map[a[3]]]),
        Shape::Tetra(a) => Shape::Tetra([map[a[0]], map[a[1]], map[a[2]], map[a[3]]]),
        Shape::Hexa(a) => Shape::Hexa(
            [
                map[a[0]],
                map[a[1]],
                map[a[2]],
                map[a[3]],
                map[a[4]],
                map[a[5]],
                map[a[6]],
                map[a[7]],
            ],
        ),
        Shape::Wedge(a) => Shape::Wedge(
            [map[a[0]], map[a[1]], map[a[2]], map[a[3]], map[a[4]], map[a[5]]],
        ),
        Shape::Pyramid(a) => Shape::Pyramid(
            [map[a[0]], map[a[1]], map[a[2]], map[a[3]], map[a[4]]],
        ),
    };
    e.shape = s;
}

/// An unstructured mesh: an ordered point buffer, an ordered element buffer,
/// a name table, and the overall dimensionality of the mesh.
///
/// The pipeline invariant, restored by every cleanup pass and gated by
/// [`Grid::check`], is that every point index referenced by any element lies
/// below `points.len()`.
#[derive(Clone, PartialEq, Eq, Debug)]
pub struct Grid {
    pub points: Vec<Point>,
    pub elements: Vec<Element>,
    pub names: Vec<Name>,
    pub dim: Dimension,
}

impl Grid {
    /// Every element references only points that exist.
    pub open spec fn valid(self) -> bool {
        forall|k: int|
            0 <= k < self.elements@.len() ==> (#[trigger] self.elements@[k]).in_bounds(
                self.points@.len() as int,
            )
    }

    /// Connectivity validator: true exactly when every point index referenced
    /// by every element is strictly below the point count. A necessary, not
    /// sufficient, mesh-quality condition; a false result must prevent
    /// handoff to a volumetric mesher.
    pub fn check(&self) -> (r: bool)
        ensures
            r == self.valid(),
    {
        let n = self.points.len();
        let m = self.elements.len();
        let mut k: usize = 0;
        while k < m
            invariant
                m == self.elements@.len(),
                n == self.points@.len(),
                k <= m,
                forall|a: int| 0 <= a < k ==> (#[trigger] self.elements@[a]).in_bounds(n as int),
            decreases m - k,
        {
            let pts = self.elements[k].iter_points();
            let mut j: usize = 0;
            while j < pts.len()
                invariant
                    pts@ == self.elements@[k as int].points(),
                    n == self.points@.len(),
                    k < m == self.elements@.len(),
                    j <= pts.len(),
                    forall|b: int| 0 <= b < j ==> (#[trigger] pts@[b]) < n,
                decreases pts.len() - j,
            {
                if pts[j] >= n {
                    return false;
                }
                j += 1;
            }
            k += 1;
        }
        true
    }
}

} // verus!
