use vstd::prelude::*;
use crate::geometry::Dimension;

verus! {

/// A fixed-arity element shape: an ordered tuple of indices into a grid's
/// point buffer. Indices are positions into the buffer at the time of access,
/// not stable identities; the cleanup passes rewrite them in place.
#[derive(Clone, Copy, PartialEq, Eq, Debug)]
pub enum Shape {
    Undefined,
    Line([usize; 2]),
    Triangle([usize; 3]),
    Quad([usize; 4]),
    Tetra([usize; 4]),
    Hexa([usize; 8]),
    Wedge([usize; 6]),
    Pyramid([usize; 5]),
}

/// The ordered point indices an element shape carries.
pub open spec fn shape_points(s: Shape) -> Seq<usize> {
    match s {
        Shape::Undefined => Seq::empty(),
        Shape::Line(a) => a@,
        Shape::Triangle(a) => a@,
        Shape::Quad(a) => a@,
        Shape::Tetra(a) => a@,
        Shape::Hexa(a) => a@,
        Shape::Wedge(a) => a@,
        Shape::Pyramid(a) => a@,
    }
}

/// Both shapes are the same variant (and therefore carry the same arity).
pub open spec fn same_kind(a: Shape, b: Shape) -> bool {
    match (a, b) {
        (Shape::Undefined, Shape::Undefined) => true,
        (Shape::Line(_), Shape::Line(_)) => true,
        (Shape::Triangle(_), Shape::Triangle(_)) => true,
        (Shape::Quad(_), Shape::Quad(_)) => true,
        (Shape::Tetra(_), Shape::Tetra(_)) => true,
        (Shape::Hexa(_), Shape::Hexa(_)) => true,
        (Shape::Wedge(_), Shape::Wedge(_)) => true,
        (Shape::Pyramid(_), Shape::Pyramid(_)) => true,
        _ => false,
    }
}

/// A shape is determined by its variant and its point indices.
pub proof fn lemma_shape_from_points(a: Shape, b: Shape)
    requires
        same_kind(a, b),
        shape_points(a) == shape_points(b),
    ensures
        a == b,
{
    match (a, b) {
        (Shape::Line(x), Shape::Line(y)) => {
            assert(x@ =~= y@);
            assert(x =~= y);
        },
        (Shape::Triangle(x), Shape::Triangle(y)) => {
            assert(x@ =~= y@);
            assert(x =~= y);
        },
        (Shape::Quad(x), Shape::Quad(y)) => {
            assert(x@ =~= y@);
            assert(x =~= y);
        },
        (Shape::Tetra(x), Shape::Tetra(y)) => {
            assert(x@ =~= y@);
            assert(x =~= y);
        },
        (Shape::Hexa(x), Shape::Hexa(y)) => {
            assert(x@ =~= y@);
            assert(x =~= y);
        },
        (Shape::Wedge(x), Shape::Wedge(y)) => {
            assert(x@ =~= y@);
            assert(x =~= y);
        },
        (Shape::Pyramid(x), Shape::Pyramid(y)) => {
            assert(x@ =~= y@);
            assert(x =~= y);
        },
        _ => {},
    }
}

/// One mesh element: a shape plus an index into the grid's name table used
/// for boundary and region tagging.
#[derive(Clone, Copy, PartialEq, Eq, Debug)]
pub struct Element {
    pub name_index: usize,
    pub shape: Shape,
}

impl Element {
    /// The ordered point indices of this element.
    pub open spec fn points(self) -> Seq<usize> {
        shape_points(self.shape)
    }

    /// Every point index of this element lies below `n`.
    pub open spec fn in_bounds(self, n: int) -> bool {
        forall|k: int| 0 <= k < self.points().len() ==> (#[trigger] self.points()[k]) < n
    }

    /// An element is degenerate when two of its point index positions hold
    /// the same index: its geometry collapsed during point merging.
    pub open spec fn is_degenerate(self) -> bool {
        exists|i: int, j: int|
            0 <= i < j < self.points().len() && #[trigger] self.points()[i] == #[trigger] self.points()[j]
    }

    /// The point indices of this element, as a fresh vector in element order.
    pub fn iter_points(&self) -> (r: Vec<usize>)
        ensures
            r@ == self.points(),
    {
        let mut r: Vec<usize> = Vec::new();
        match self.shape {
            Shape::Undefined => {},
            Shape::Line(a) => {
                r.push(a[0]);
                r.push(a[1]);
            },
            Shape::Triangle(a) => {
                r.push(a[0]);
                r.push(a[1]);
                r.push(a[2]);
            },
            Shape::Quad(a) => {
                r.push(a[0]);
                r.push(a[1]);
                r.push(a[2]);
                r.push(a[3]);
            },
            Shape::Tetra(a) => {
                r.push(a[0]);
                r.push(a[1]);
                r.push(a[2]);
                r.push(a[3]);
            },
            Shape::Hexa(a) => {
                r.push(a[0]);
                r.push(a[1]);
                r.push(a[2]);
                r.push(a[3]);
                r.push(a[4]);
                r.push(a[5]);
                r.push(a[6]);
                r.push(a[7]);
            },
            Shape::Wedge(a) => {
                r.push(a[0]);
                r.push(a[1]);
                r.push(a[2]);
                r.push(a[3]);
                r.push(a[4]);
                r.push(a[5]);
            },
            Shape::Pyramid(a) => {
                r.push(a[0]);
                r.push(a[1]);
                r.push(a[2]);
                r.push(a[3]);
                r.push(a[4]);
            },
        }
        proof {
            assert(r@ =~= self.points());
        }
        r
    }

    /// Generic degeneracy test: a pairwise scan over the element's point
    /// indices, true when any two positions hold the same index.
    pub fn can_collapse(&self) -> (r: bool)
        ensures
            r == self.is_degenerate(),
    {
        let pts = self.iter_points();
        let n = pts.len();
        let mut i: usize = 0;
        while i < n
            invariant
                n == pts.len(),
                pts@ == self.points(),
                i <= n,
                forall|a: int, b: int| 0 <= a < b < n && a < i ==> pts@[a] != pts@[b],
            decreases n - i,
        {
            let mut j: usize = i + 1;
            while j < n
                invariant
                    n == pts.len(),
                    pts@ == self.points(),
                    i < j <= n,
                    forall|b: int| i < b < j ==> pts@[i as int] != pts@[b],
                decreases n - j,
            {
                if pts[i] == pts[j] {
                    return true;
                }
                j += 1;
            }
            i += 1;
        }
        false
    }
}

/// A boundary or region tag: a dimensionality plus a label. Elements refer to
/// names by index into the grid's name table; they never own one.
#[derive(Clone, PartialEq, Eq, Debug)]
pub struct Name {
    pub dim: Dimension,
    pub name: String,
}

} // verus!
