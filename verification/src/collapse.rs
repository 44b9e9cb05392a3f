use vstd::prelude::*;
use crate::element::{Element, Shape};
use crate::error::MeshError;
use crate::grid::Grid;

verus! {

broadcast use vstd::seq::group_seq_axioms;

/// The shape-specific "losslessly collapsible" test of the non-splitting
/// resolver mode. A wedge qualifies precisely when one of its three
/// quad-face index pairs has collapsed: the pair of indices across the two
/// triangular ends is equal. Lines, triangles, quads, tetrahedra and
/// pyramids qualify whenever they are degenerate at all; a hexahedron never
/// does, and neither does the undefined shape.
pub open spec fn collapsible_wo_split(e: Element) -> bool {
    match e.shape {
        Shape::Undefined => false,
        Shape::Line(_) => e.is_degenerate(),
        Shape::Triangle(_) => e.is_degenerate(),
        Shape::Quad(_) => e.is_degenerate(),
        Shape::Tetra(_) => e.is_degenerate(),
        Shape::Pyramid(_) => e.is_degenerate(),
        Shape::Wedge(a) => a[0] == a[3] || a[1] == a[4] || a[2] == a[5],
        Shape::Hexa(_) => false,
    }
}

/// The per-shape collapse table. For a degenerate element it yields the
/// replacement elements (at most one for every handled pattern), or `None`
/// for a pattern the tables do not cover; a non-degenerate element is kept
/// as it is. Replacements preserve the measure of the element: a shape whose
/// repeated indices leave zero area or volume is dropped, one with a single
/// collapsed edge or face pair is reduced to the next lower arity, and the
/// reduction is chased until nothing degenerate remains.
///
/// Index conventions: a quad and a pyramid base are cycles `0-1-2-3`; a
/// wedge has triangular ends `(0,1,2)` and `(3,4,5)` joined by the edges
/// `0-3`, `1-4`, `2-5`; a hexahedron has base `0-1-2-3`, top `4-5-6-7` and
/// vertical edges `i`-`i+4`.
pub open spec fn collapse_table(e: Element) -> Option<Seq<Element>>
    decreases e.points().len(),
{
    if !e.is_degenerate() {
        Some(seq![e])
    } else {
        match e.shape {
            Shape::Undefined => Some(seq![e]),
            // A line, triangle or tetrahedron with any repeated index has
            // zero measure.
            Shape::Line(_) => Some(Seq::empty()),
            Shape::Triangle(_) => Some(Seq::empty()),
            Shape::Tetra(_) => Some(Seq::empty()),
            Shape::Quad(a) => {
                if a[0] == a[1] {
                    collapse_table(tri_elem(e.name_index, a[0], a[2], a[3]))
                } else if a[1] == a[2] {
                    collapse_table(tri_elem(e.name_index, a[0], a[1], a[3]))
                } else if a[2] == a[3] {
                    collapse_table(tri_elem(e.name_index, a[0], a[1], a[2]))
                } else if a[3] == a[0] {
                    collapse_table(tri_elem(e.name_index, a[0], a[1], a[2]))
                } else {
                    // A collapsed diagonal folds the quad onto itself.
                    Some(Seq::empty())
                }
            },
            Shape::Pyramid(a) => {
                if a[0] == a[1] {
                    collapse_table(tetra_elem(e.name_index, a[0], a[2], a[3], a[4]))
                } else if a[1] == a[2] {
                    collapse_table(tetra_elem(e.name_index, a[0], a[1], a[3], a[4]))
                } else if a[2] == a[3] {
                    collapse_table(tetra_elem(e.name_index, a[0], a[1], a[2], a[4]))
                } else if a[3] == a[0] {
                    collapse_table(tetra_elem(e.name_index, a[0], a[1], a[2], a[4]))
                } else {
                    // A collapsed base diagonal, or an apex on a base
                    // corner, leaves zero volume.
                    Some(Seq::empty())
                }
            },
            Shape::Wedge(a) => {
                if a[0] == a[3] {
                    collapse_table(pyr_elem(e.name_index, a[1], a[2], a[5], a[4], a[0]))
                } else if a[1] == a[4] {
                    collapse_table(pyr_elem(e.name_index, a[2], a[0], a[3], a[5], a[1]))
                } else if a[2] == a[5] {
                    collapse_table(pyr_elem(e.name_index, a[0], a[1], a[4], a[3], a[2]))
                } else if a[0] == a[1] {
                    collapse_table(pyr_elem(e.name_index, a[2], a[0], a[3], a[5], a[4]))
                } else if a[1] == a[2] {
                    collapse_table(pyr_elem(e.name_index, a[0], a[1], a[4], a[3], a[5]))
                } else if a[2] == a[0] {
                    collapse_table(pyr_elem(e.name_index, a[1], a[2], a[5], a[4], a[3]))
                } else if a[3] == a[4] {
                    collapse_table(pyr_elem(e.name_index, a[5], a[3], a[0], a[2], a[1]))
                } else if a[4] == a[5] {
                    collapse_table(pyr_elem(e.name_index, a[3], a[4], a[1], a[0], a[2]))
                } else if a[5] == a[3] {
                    collapse_table(pyr_elem(e.name_index, a[4], a[5], a[2], a[1], a[0]))
                } else {
                    // Indices collapsed across the prism diagonally: no
                    // reduction without topological splitting is tabled.
                    None
                }
            },
            Shape::Hexa(a) => {
                if a[0] == a[4] && a[1] == a[5] {
                    collapse_table(wedge_elem(e.name_index, a[0], a[3], a[7], a[1], a[2], a[6]))
                } else if a[1] == a[5] && a[2] == a[6] {
                    collapse_table(wedge_elem(e.name_index, a[1], a[0], a[4], a[2], a[3], a[7]))
                } else if a[2] == a[6] && a[3] == a[7] {
                    collapse_table(wedge_elem(e.name_index, a[2], a[1], a[5], a[3], a[0], a[4]))
                } else if a[3] == a[7] && a[0] == a[4] {
                    collapse_table(wedge_elem(e.name_index, a[3], a[2], a[6], a[0], a[1], a[5]))
                } else {
                    // Only a fully collapsed side face (two adjacent
                    // vertical edges) is tabled.
                    None
                }
            },
        }
    }
}

pub open spec fn tri_elem(name_index: usize, p0: usize, p1: usize, p2: usize) -> Element {
    Element { name_index, shape: Shape::Triangle([p0, p1, p2]) }
}

pub open spec fn tetra_elem(name_index: usize, p0: usize, p1: usize, p2: usize, p3: usize) -> Element {
    Element { name_index, shape: Shape::Tetra([p0, p1, p2, p3]) }
}

pub open spec fn pyr_elem(
    name_index: usize,
    p0: usize,
    p1: usize,
    p2: usize,
    p3: usize,
    apex: usize,
) -> Element {
    Element { name_index, shape: Shape::Pyramid([p0, p1, p2, p3, apex]) }
}

pub open spec fn wedge_elem(
    name_index: usize,
    p0: usize,
    p1: usize,
    p2: usize,
    p3: usize,
    p4: usize,
    p5: usize,
) -> Element {
    Element { name_index, shape: Shape::Wedge([p0, p1, p2, p3, p4, p5]) }
}

/// The element sequence an optional single replacement stands for.
pub open spec fn opt_seq(r: Option<Element>) -> Seq<Element> {
    match r {
        Some(x) => seq![x],
        None => Seq::empty(),
    }
}

/// Tabled collapses keep the name tag, keep indices in bounds, never yield
/// more than one replacement, and never yield a degenerate element.
pub proof fn lemma_collapse_table_props(e: Element, n: int)
    ensures
        collapse_table(e) matches Some(s) ==> {
            &&& s.len() <= 1
            &&& forall|j: int| 0 <= j < s.len() ==> !(#[trigger] s[j]).is_degenerate()
            &&& forall|j: int| 0 <= j < s.len() ==> (#[trigger] s[j]).name_index == e.name_index
            &&& e.in_bounds(n) ==> forall|j: int| 0 <= j < s.len() ==> (#[trigger] s[j]).in_bounds(n)
        },
    decreases e.points().len(),
{
    if !e.is_degenerate() {
    } else {
        match e.shape {
            Shape::Undefined => {},
            Shape::Line(_) => {},
            Shape::Triangle(_) => {},
            Shape::Tetra(_) => {},
            Shape::Quad(a) => {
                assert(e.points() =~= a@);
                if a[0] == a[1] {
                    lemma_collapse_table_props(tri_elem(e.name_index, a[0], a[2], a[3]), n);
                } else if a[1] == a[2] {
                    lemma_collapse_table_props(tri_elem(e.name_index, a[0], a[1], a[3]), n);
                } else if a[2] == a[3] {
                    lemma_collapse_table_props(tri_elem(e.name_index, a[0], a[1], a[2]), n);
                } else if a[3] == a[0] {
                    lemma_collapse_table_props(tri_elem(e.name_index, a[0], a[1], a[2]), n);
                }
            },
            Shape::Pyramid(a) => {
                assert(e.points() =~= a@);
                if a[0] == a[1] {
                    lemma_collapse_table_props(tetra_elem(e.name_index, a[0], a[2], a[3], a[4]), n);
                } else if a[1] == a[2] {
                    lemma_collapse_table_props(tetra_elem(e.name_index, a[0], a[1], a[3], a[4]), n);
                } else if a[2] == a[3] {
                    lemma_collapse_table_props(tetra_elem(e.name_index, a[0], a[1], a[2], a[4]), n);
                } else if a[3] == a[0] {
                    lemma_collapse_table_props(tetra_elem(e.name_index, a[0], a[1], a[2], a[4]), n);
                }
            },
            Shape::Wedge(a) => {
                assert(e.points() =~= a@);
                if a[0] == a[3] {
                    lemma_collapse_table_props(pyr_elem(e.name_index, a[1], a[2], a[5], a[4], a[0]), n);
                } else if a[1] == a[4] {
                    lemma_collapse_table_props(pyr_elem(e.name_index, a[2], a[0], a[3], a[5], a[1]), n);
                } else if a[2] == a[5] {
                    lemma_collapse_table_props(pyr_elem(e.name_index, a[0], a[1], a[4], a[3], a[2]), n);
                } else if a[0] == a[1] {
                    lemma_collapse_table_props(pyr_elem(e.name_index, a[2], a[0], a[3], a[5], a[4]), n);
                } else if a[1] == a[2] {
                    lemma_collapse_table_props(pyr_elem(e.name_index, a[0], a[1], a[4], a[3], a[5]), n);
                } else if a[2] == a[0] {
                    lemma_collapse_table_props(pyr_elem(e.name_index, a[1], a[2], a[5], a[4], a[3]), n);
                } else if a[3] == a[4] {
                    lemma_collapse_table_props(pyr_elem(e.name_index, a[5], a[3], a[0], a[2], a[1]), n);
                } else if a[4] == a[5] {
                    lemma_collapse_table_props(pyr_elem(e.name_index, a[3], a[4], a[1], a[0], a[2]), n);
                } else if a[5] == a[3] {
                    lemma_collapse_table_props(pyr_elem(e.name_index, a[4], a[5], a[2], a[1], a[0]), n);
                }
            },
            Shape::Hexa(a) => {
                assert(e.points() =~= a@);
                if a[0] == a[4] && a[1] == a[5] {
                    lemma_collapse_table_props(
                        wedge_elem(e.name_index, a[0], a[3], a[7], a[1], a[2], a[6]),
                        n,
                    );
                } else if a[1] == a[5] && a[2] == a[6] {
                    lemma_collapse_table_props(
                        wedge_elem(e.name_index, a[1], a[0], a[4], a[2], a[3], a[7]),
                        n,
                    );
                } else if a[2] == a[6] && a[3] == a[7] {
                    lemma_collapse_table_props(
                        wedge_elem(e.name_index, a[2], a[1], a[5], a[3], a[0], a[4]),
                        n,
                    );
                } else if a[3] == a[7] && a[0] == a[4] {
                    lemma_collapse_table_props(
                        wedge_elem(e.name_index, a[3], a[2], a[6], a[0], a[1], a[5]),
                        n,
                    );
                }
            },
        }
    }
}

/// The tables cover every degeneracy of a line, triangle, quad, tetrahedron
/// or pyramid, and every wedge whose quad-face pair test holds.
pub proof fn lemma_wo_split_table_some(e: Element)
    requires
        collapsible_wo_split(e),
    ensures
        collapse_table(e) is Some,
{
    match e.shape {
        Shape::Wedge(a) => {
            assert(e.points() =~= a@);
            if a[0] == a[3] {
                assert(e.points()[0] == e.points()[3]);
                lemma_small_table_some(pyr_elem(e.name_index, a[1], a[2], a[5], a[4], a[0]));
            } else if a[1] == a[4] {
                assert(e.points()[1] == e.points()[4]);
                lemma_small_table_some(pyr_elem(e.name_index, a[2], a[0], a[3], a[5], a[1]));
            } else {
                assert(e.points()[2] == e.points()[5]);
                lemma_small_table_some(pyr_elem(e.name_index, a[0], a[1], a[4], a[3], a[2]));
            }
        },
        _ => {
            lemma_small_table_some(e);
        },
    }
}

/// Lines, triangles, quads, tetrahedra and pyramids always have a tabled
/// collapse.
pub proof fn lemma_small_table_some(e: Element)
    requires
        !(e.shape is Wedge),
        !(e.shape is Hexa),
        !(e.shape is Undefined),
    ensures
        collapse_table(e) is Some,
    decreases e.points().len(),
{
    if e.is_degenerate() {
        match e.shape {
            Shape::Quad(a) => {
                if a[0] == a[1] {
                    lemma_small_table_some(tri_elem(e.name_index, a[0], a[2], a[3]));
                } else if a[1] == a[2] {
                    lemma_small_table_some(tri_elem(e.name_index, a[0], a[1], a[3]));
                } else if a[2] == a[3] {
                    lemma_small_table_some(tri_elem(e.name_index, a[0], a[1], a[2]));
                } else if a[3] == a[0] {
                    lemma_small_table_some(tri_elem(e.name_index, a[0], a[1], a[2]));
                }
            },
            Shape::Pyramid(a) => {
                if a[0] == a[1] {
                    lemma_small_table_some(tetra_elem(e.name_index, a[0], a[2], a[3], a[4]));
                } else if a[1] == a[2] {
                    lemma_small_table_some(tetra_elem(e.name_index, a[0], a[1], a[3], a[4]));
                } else if a[2] == a[3] {
                    lemma_small_table_some(tetra_elem(e.name_index, a[0], a[1], a[2], a[4]));
                } else if a[3] == a[0] {
                    lemma_small_table_some(tetra_elem(e.name_index, a[0], a[1], a[2], a[4]));
                }
            },
            _ => {},
        }
    }
}

impl Element {
    /// Shape-specific test for a lossless, non-splitting collapse.
    pub fn can_collapse_wo_split(&self) -> (r: bool)
        ensures
            r == collapsible_wo_split(*self),
    {
        match self.shape {
            Shape::Undefined => false,
            Shape::Hexa(_) => false,
            Shape::Wedge(a) => a[0] == a[3] || a[1] == a[4] || a[2] == a[5],
            _ => self.can_collapse(),
        }
    }

    /// Chase the collapse tables: reduce this element until nothing
    /// degenerate remains, or report the pattern as untabled.
    fn resolve(&self) -> (r: Result<Option<Element>, MeshError>)
        ensures
            r is Ok <==> collapse_table(*self) is Some,
            r matches Ok(x) ==> collapse_table(*self) == Some(opt_seq(x)),
            r is Err ==> r == Err::<Option<Element>, MeshError>(MeshError::UnhandledDegeneracy),
        decreases self.points().len(),
    {
        if !self.can_collapse() {
            return Ok(Some(*self));
        }
        match self.shape {
            Shape::Undefined => {
                proof {
                    assert(false);
                }
                Err(MeshError::UnhandledDegeneracy)
            },
            Shape::Line(_) => Ok(None),
            Shape::Triangle(_) => Ok(None),
            Shape::Tetra(_) => Ok(None),
            Shape::Quad(a) => {
                if a[0] == a[1] {
                    Element { name_index: self.name_index, shape: Shape::Triangle([a[0], a[2], a[3]]) }.resolve()
                } else if a[1] == a[2] {
                    Element { name_index: self.name_index, shape: Shape::Triangle([a[0], a[1], a[3]]) }.resolve()
                } else if a[2] == a[3] {
                    Element { name_index: self.name_index, shape: Shape::Triangle([a[0], a[1], a[2]]) }.resolve()
                } else if a[3] == a[0] {
                    Element { name_index: self.name_index, shape: Shape::Triangle([a[0], a[1], a[2]]) }.resolve()
                } else {
                    Ok(None)
                }
            },
            Shape::Pyramid(a) => {
                if a[0] == a[1] {
                    Element { name_index: self.name_index, shape: Shape::Tetra([a[0], a[2], a[3], a[4]]) }.resolve()
                } else if a[1] == a[2] {
                    Element { name_index: self.name_index, shape: Shape::Tetra([a[0], a[1], a[3], a[4]]) }.resolve()
                } else if a[2] == a[3] {
                    Element { name_index: self.name_index, shape: Shape::Tetra([a[0], a[1], a[2], a[4]]) }.resolve()
                } else if a[3] == a[0] {
                    Element { name_index: self.name_index, shape: Shape::Tetra([a[0], a[1], a[2], a[4]]) }.resolve()
                } else {
                    Ok(None)
                }
            },
            Shape::Wedge(a) => {
                if a[0] == a[3] {
                    Element { name_index: self.name_index, shape: Shape::Pyramid([a[1], a[2], a[5], a[4], a[0]]) }.resolve()
                } else if a[1] == a[4] {
                    Element { name_index: self.name_index, shape: Shape::Pyramid([a[2], a[0], a[3], a[5], a[1]]) }.resolve()
                } else if a[2] == a[5] {
                    Element { name_index: self.name_index, shape: Shape::Pyramid([a[0], a[1], a[4], a[3], a[2]]) }.resolve()
                } else if a[0] == a[1] {
                    Element { name_index: self.name_index, shape: Shape::Pyramid([a[2], a[0], a[3], a[5], a[4]]) }.resolve()
                } else if a[1] == a[2] {
                    Element { name_index: self.name_index, shape: Shape::Pyramid([a[0], a[1], a[4], a[3], a[5]]) }.resolve()
                } else if a[2] == a[0] {
                    Element { name_index: self.name_index, shape: Shape::Pyramid([a[1], a[2], a[5], a[4], a[3]]) }.resolve()
                } else if a[3] == a[4] {
                    Element { name_index: self.name_index, shape: Shape::Pyramid([a[5], a[3], a[0], a[2], a[1]]) }.resolve()
                } else if a[4] == a[5] {
                    Element { name_index: self.name_index, shape: Shape::Pyramid([a[3], a[4], a[1], a[0], a[2]]) }.resolve()
                } else if a[5] == a[3] {
                    Element { name_index: self.name_index, shape: Shape::Pyramid([a[4], a[5], a[2], a[1], a[0]]) }.resolve()
                } else {
                    Err(MeshError::UnhandledDegeneracy)
                }
            },
            Shape::Hexa(a) => {
                if a[0] == a[4] && a[1] == a[5] {
                    Element { name_index: self.name_index, shape: Shape::Wedge([a[0], a[3], a[7], a[1], a[2], a[6]]) }.resolve()
                } else if a[1] == a[5] && a[2] == a[6] {
                    Element { name_index: self.name_index, shape: Shape::Wedge([a[1], a[0], a[4], a[2], a[3], a[7]]) }.resolve()
                } else if a[2] == a[6] && a[3] == a[7] {
                    Element { name_index: self.name_index, shape: Shape::Wedge([a[2], a[1], a[5], a[3], a[0], a[4]]) }.resolve()
                } else if a[3] == a[7] && a[0] == a[4] {
                    Element { name_index: self.name_index, shape: Shape::Wedge([a[3], a[2], a[6], a[0], a[1], a[5]]) }.resolve()
                } else {
                    Err(MeshError::UnhandledDegeneracy)
                }
            },
        }
    }

    /// Non-splitting collapse of a losslessly collapsible element: the
    /// single tabled replacement, or `None` when the element reduces to
    /// nothing.
    pub fn collapse_wo_split(&self) -> (r: Option<Element>)
        requires
            collapsible_wo_split(*self),
        ensures
            collapse_table(*self) == Some(opt_seq(r)),
    {
        proof {
            lemma_wo_split_table_some(*self);
        }
        match self.resolve() {
            Ok(x) => x,
            Err(_) => {
                proof {
                    assert(false);
                }
                None
            },
        }
    }

    /// Splitting-mode collapse: append the tabled replacements of this
    /// element to `new_elements` and report whether the element vanished
    /// entirely, or fail on an untabled degeneracy pattern.
    pub fn collapse(&self, new_elements: &mut Vec<Element>) -> (r: Result<bool, MeshError>)
        ensures
            r is Ok <==> collapse_table(*self) is Some,
            r is Ok ==> final(new_elements)@ == old(new_elements)@ + collapse_table(*self).unwrap(),
            r matches Ok(deleted) ==> (deleted <==> collapse_table(*self).unwrap().len() == 0),
            r is Err ==> final(new_elements)@ == old(new_elements)@ && r == Err::<bool, MeshError>(
                MeshError::UnhandledDegeneracy,
            ),
    {
        match self.resolve() {
            Ok(Some(x)) => {
                new_elements.push(x);
                proof {
                    assert(final(new_elements)@ =~= old(new_elements)@ + collapse_table(
                        *self,
                    ).unwrap());
                }
                Ok(false)
            },
            Ok(None) => {
                proof {
                    assert(final(new_elements)@ =~= old(new_elements)@ + collapse_table(
                        *self,
                    ).unwrap());
                }
                Ok(true)
            },
            Err(err) => Err(err),
        }
    }
}

/// The element buffer after a full resolver pass: each element replaced by
/// its tabled reduction, in order.
pub open spec fn resolve_seq(elements: Seq<Element>) -> Seq<Element>
    decreases elements.len(),
{
    if elements.len() == 0 {
        Seq::empty()
    } else {
        resolve_seq(elements.drop_last()) + match collapse_table(elements.last()) {
            Some(s) => s,
            None => Seq::empty(),
        }
    }
}

/// Some element's degeneracy pattern is not in the collapse tables.
pub open spec fn has_untabled(elements: Seq<Element>) -> bool {
    exists|k: int| 0 <= k < elements.len() && collapse_table(#[trigger] elements[k]) is None
}

/// Some element is degenerate but fails its shape-specific lossless test.
pub open spec fn has_unsplittable(elements: Seq<Element>) -> bool {
    exists|k: int|
        0 <= k < elements.len() && (#[trigger] elements[k]).is_degenerate() && !collapsible_wo_split(
            elements[k],
        )
}

pub proof fn lemma_resolve_seq_step(elements: Seq<Element>, k: int)
    requires
        0 <= k < elements.len(),
    ensures
        resolve_seq(elements.take(k + 1)) == resolve_seq(elements.take(k)) + match collapse_table(
            elements[k],
        ) {
            Some(s) => s,
            None => Seq::<Element>::empty(),
        },
{
    let pre = elements.take(k + 1);
    assert(pre.drop_last() =~= elements.take(k));
    assert(pre.last() == elements[k]);
}

/// When every element has a tabled reduction, the resolved buffer holds no
/// degenerate element; and it stays in bounds whenever the input was.
pub proof fn lemma_resolve_seq_props(elements: Seq<Element>, n: int)
    requires
        forall|k: int| 0 <= k < elements.len() ==> collapse_table(#[trigger] elements[k]) is Some,
    ensures
        forall|j: int|
            0 <= j < resolve_seq(elements).len() ==> !(#[trigger] resolve_seq(elements)[j]).is_degenerate(),
        (forall|k: int| 0 <= k < elements.len() ==> (#[trigger] elements[k]).in_bounds(n))
            ==> (forall|j: int|
            0 <= j < resolve_seq(elements).len() ==> (#[trigger] resolve_seq(elements)[j]).in_bounds(n)),
    decreases elements.len(),
{
    if elements.len() > 0 {
        let pre = elements.drop_last();
        assert forall|k: int| 0 <= k < pre.len() implies collapse_table(#[trigger] pre[k]) is Some by {
            assert(pre[k] == elements[k]);
        }
        lemma_resolve_seq_props(pre, n);
        let last = elements.last();
        lemma_collapse_table_props(last, n);
        let tail = collapse_table(last).unwrap();
        assert forall|j: int|
            0 <= j < resolve_seq(elements).len() implies !(
        #[trigger] resolve_seq(elements)[j]).is_degenerate() by {
            if j < resolve_seq(pre).len() {
                assert(resolve_seq(elements)[j] == resolve_seq(pre)[j]);
            } else {
                assert(resolve_seq(elements)[j] == tail[j - resolve_seq(pre).len()]);
            }
        }
        if forall|k: int| 0 <= k < elements.len() ==> (#[trigger] elements[k]).in_bounds(n) {
            assert forall|k: int| 0 <= k < pre.len() implies (#[trigger] pre[k]).in_bounds(n) by {
                assert(pre[k] == elements[k]);
            }
            assert(last.in_bounds(n));
            assert forall|j: int|
                0 <= j < resolve_seq(elements).len() implies (
            #[trigger] resolve_seq(elements)[j]).in_bounds(n) by {
                if j < resolve_seq(pre).len() {
                    assert(resolve_seq(elements)[j] == resolve_seq(pre)[j]);
                } else {
                    assert(resolve_seq(elements)[j] == tail[j - resolve_seq(pre).len()]);
                }
            }
        }
    }
}

impl Grid {
    /// Resolve degenerate elements after merging. In splitting mode every
    /// degenerate element is replaced by its tabled reduction, and an
    /// untabled pattern is a hard failure. In non-splitting mode an element
    /// that is degenerate but not losslessly collapsible is a hard failure:
    /// it is reported, never skipped or distorted. On failure the grid is
    /// left untouched.
    pub fn collapse_elements(&mut self, split: bool) -> (r: Result<(), MeshError>)
        ensures
            split ==> (r is Err <==> has_untabled(old(self).elements@)),
            !split ==> (r is Err <==> has_unsplittable(old(self).elements@)),
            split && r is Err ==> r == Err::<(), MeshError>(MeshError::UnhandledDegeneracy),
            !split && r is Err ==> r == Err::<(), MeshError>(MeshError::UnsplittableDegeneracy),
            r is Err ==> *final(self) == *old(self),
            r is Ok ==> {
                &&& final(self).elements@ == resolve_seq(old(self).elements@)
                &&& final(self).points == old(self).points
                &&& final(self).names == old(self).names
                &&& final(self).dim == old(self).dim
                &&& forall|j: int|
                    0 <= j < final(self).elements@.len() ==> !(
                    #[trigger] final(self).elements@[j]).is_degenerate()
            },
            r is Ok && old(self).valid() ==> final(self).valid(),
    {
        let ghost old_elements = self.elements@;
        let m = self.elements.len();
        let mut out: Vec<Element> = Vec::new();
        let mut k: usize = 0;
        while k < m
            invariant
                self.elements@ == old_elements,
                *self == *old(self),
                m == old_elements.len(),
                k <= m,
                out@ == resolve_seq(old_elements.take(k as int)),
                forall|a: int| 0 <= a < k ==> collapse_table(#[trigger] old_elements[a]) is Some,
                !split ==> forall|a: int|
                    0 <= a < k ==> !((#[trigger] old_elements[a]).is_degenerate()
                        && !collapsible_wo_split(old_elements[a])),
            decreases m - k,
        {
            let e = self.elements[k];
            if split {
                match e.collapse(&mut out) {
                    Ok(_) => {},
                    Err(err) => {
                        return Err(err);
                    },
                }
            } else {
                if e.can_collapse_wo_split() {
                    proof {
                        lemma_wo_split_table_some(e);
                    }
                    match e.collapse_wo_split() {
                        Some(x) => {
                            out.push(x);
                            proof {
                                assert(out@ =~= resolve_seq(old_elements.take(k as int))
                                    + collapse_table(e).unwrap());
                            }
                        },
                        None => {},
                    }
                } else if e.can_collapse() {
                    return Err(MeshError::UnsplittableDegeneracy);
                } else {
                    out.push(e);
                    proof {
                        assert(collapse_table(e) == Some(seq![e]));
                        assert(out@ =~= resolve_seq(old_elements.take(k as int)) + seq![e]);
                    }
                }
            }
            proof {
                lemma_resolve_seq_step(old_elements, k as int);
                assert(out@ =~= resolve_seq(old_elements.take(k as int + 1)));
            }
            k += 1;
        }
        proof {
            assert(old_elements.take(m as int) =~= old_elements);
            lemma_resolve_seq_props(old_elements, old(self).points@.len() as int);
        }
        self.elements = out;
        Ok(())
    }
}

} // verus!
