use unstruc::{Dimension, Element, Grid, MeshError, Point, Shape, Facet, STL};
use unstruc::stl_to_grid;

fn pt(x: i64, y: i64, z: i64) -> Point {
    Point { x, y, z }
}

fn tri(a: usize, b: usize, c: usize) -> Element {
    Element { name_index: 0, shape: Shape::Triangle([a, b, c]) }
}

fn grid_of(points: Vec<Point>, elements: Vec<Element>) -> Grid {
    Grid { points, elements, names: Vec::new(), dim: Dimension::Three }
}

/// One unit: a millionth of a model unit. A merge tolerance of `10` is then
/// the classic 1e-5.
const UNIT: i64 = 1_000_000;

#[test]
fn end_to_end_two_triangles() {
    // Two adjoining unit triangles sharing an edge: six raw points, two
    // triangles, each shared corner written once per facet.
    let f1 = Facet {
        normal: pt(0, 0, UNIT),
        p1: pt(0, 0, 0),
        p2: pt(UNIT, 0, 0),
        p3: pt(0, UNIT, 0),
    };
    let f2 = Facet {
        normal: pt(0, 0, UNIT),
        p1: pt(UNIT, 0, 0),
        p2: pt(0, UNIT, 0),
        p3: pt(UNIT, UNIT, 0),
    };
    let stl = STL { name: None, facets: vec![f1, f2] };
    let mut g = stl_to_grid(stl);
    assert_eq!(g.points.len(), 6);
    assert_eq!(g.elements.len(), 2);
    assert!(g.check());

    g.merge_duplicates(10);
    // The two shared corners collapsed onto their first occurrences.
    assert_eq!(g.elements[0], tri(0, 1, 2));
    assert_eq!(g.elements[1], tri(1, 2, 5));
    assert_eq!(g.points.len(), 6);

    let removed = g.delete_dead_points();
    assert_eq!(removed, 2);
    assert_eq!(g.points.len(), 4);
    assert_eq!(g.elements[0], tri(0, 1, 2));
    assert_eq!(g.elements[1], tri(1, 2, 3));
    assert!(g.check());
}

#[test]
fn merge_within_tolerance() {
    // Points 0 and 2 differ by at most the tolerance on every axis.
    let mut g = grid_of(
        vec![pt(0, 0, 0), pt(5 * UNIT, 0, 0), pt(3, -2, 1)],
        vec![tri(0, 1, 2)],
    );
    g.merge_duplicates(10);
    assert_eq!(g.elements[0], tri(0, 1, 0));
}

#[test]
fn merge_idempotent() {
    let mut g = grid_of(
        vec![pt(0, 0, 0), pt(UNIT, 0, 0), pt(2, 2, 2), pt(UNIT, 2, 0), pt(9, 9, 9)],
        vec![tri(0, 1, 2), tri(3, 4, 0)],
    );
    g.merge_duplicates(10);
    let once = g.elements.clone();
    g.merge_duplicates(10);
    assert_eq!(g.elements, once);
}

#[test]
fn merge_chains_transitively() {
    // 0 is close to 1 and 1 is close to 2, but 0 is not close to 2: all
    // three still end on one representative.
    let mut g = grid_of(
        vec![pt(0, 0, 0), pt(8, 0, 0), pt(16, 0, 0), pt(UNIT, UNIT, UNIT)],
        vec![tri(0, 1, 2), tri(2, 1, 3)],
    );
    g.merge_duplicates(10);
    assert_eq!(g.elements[0], tri(0, 0, 0));
    assert_eq!(g.elements[1], tri(0, 0, 3));
}

#[test]
fn merge_zero_tolerance_exact_dedup() {
    let mut g = grid_of(
        vec![pt(4, 5, 6), pt(4, 5, 6), pt(4, 5, 7)],
        vec![tri(0, 1, 2)],
    );
    g.merge_duplicates(0);
    // Exact duplicates are unified; a one-unit difference is not.
    assert_eq!(g.elements[0], tri(0, 0, 2));
}

#[test]
fn merge_does_not_delete() {
    let mut g = grid_of(vec![pt(0, 0, 0), pt(1, 1, 1)], vec![tri(0, 1, 0)]);
    g.merge_duplicates(10);
    assert_eq!(g.points.len(), 2);
    assert_eq!(g.elements.len(), 1);
}

#[test]
fn compact_removes_unreferenced() {
    let mut g = grid_of(
        vec![pt(0, 0, 0), pt(1, 1, 1), pt(2, 2, 2), pt(3, 3, 3), pt(4, 4, 4)],
        vec![tri(0, 2, 4)],
    );
    let removed = g.delete_dead_points();
    assert_eq!(removed, 2);
    assert_eq!(g.points, vec![pt(0, 0, 0), pt(2, 2, 2), pt(4, 4, 4)]);
    assert_eq!(g.elements[0], tri(0, 1, 2));
    assert!(g.check());
}

#[test]
fn compact_idempotent() {
    let mut g = grid_of(
        vec![pt(0, 0, 0), pt(1, 1, 1), pt(2, 2, 2), pt(3, 3, 3)],
        vec![tri(3, 1, 0)],
    );
    g.delete_dead_points();
    let points = g.points.clone();
    let elements = g.elements.clone();
    let removed = g.delete_dead_points();
    assert_eq!(removed, 0);
    assert_eq!(g.points, points);
    assert_eq!(g.elements, elements);
}

#[test]
fn check_rejects_out_of_range() {
    let g = grid_of(vec![pt(0, 0, 0), pt(1, 1, 1)], vec![tri(0, 1, 2)]);
    assert!(!g.check());
}

#[test]
fn check_accepts_fresh_grid() {
    let f = Facet {
        normal: pt(0, 0, 1),
        p1: pt(0, 0, 0),
        p2: pt(1, 0, 0),
        p3: pt(0, 1, 0),
    };
    let g = stl_to_grid(STL { name: None, facets: vec![f] });
    assert!(g.check());
}

#[test]
fn degenerate_triangle_detected() {
    assert!(tri(0, 1, 1).can_collapse());
    assert!(tri(4, 4, 9).can_collapse());
    assert!(!tri(0, 1, 2).can_collapse());
}

#[test]
fn wedge_wo_split_predicate() {
    let w = Element { name_index: 0, shape: Shape::Wedge([0, 1, 2, 0, 4, 5]) };
    assert!(w.can_collapse_wo_split());
    let w2 = Element { name_index: 0, shape: Shape::Wedge([0, 0, 2, 3, 4, 5]) };
    assert!(!w2.can_collapse_wo_split());
    assert!(w2.can_collapse());
}

#[test]
fn collapse_quad_to_triangle() {
    let mut g = grid_of(
        vec![pt(0, 0, 0), pt(1, 0, 0), pt(1, 1, 0), pt(0, 1, 0)],
        vec![Element { name_index: 7, shape: Shape::Quad([0, 1, 2, 0]) }],
    );
    assert_eq!(g.collapse_elements(false), Ok(()));
    assert_eq!(g.elements.len(), 1);
    assert_eq!(g.elements[0], Element { name_index: 7, shape: Shape::Triangle([0, 1, 2]) });
}

#[test]
fn collapse_quad_diagonal_deleted() {
    let mut g = grid_of(
        vec![pt(0, 0, 0), pt(1, 0, 0), pt(1, 1, 0)],
        vec![Element { name_index: 0, shape: Shape::Quad([0, 1, 0, 2]) }],
    );
    assert_eq!(g.collapse_elements(false), Ok(()));
    assert_eq!(g.elements.len(), 0);
}

#[test]
fn collapse_degenerate_triangle_deleted() {
    let mut g = grid_of(
        vec![pt(0, 0, 0), pt(1, 0, 0), pt(1, 1, 0)],
        vec![tri(0, 1, 1), tri(0, 1, 2)],
    );
    assert_eq!(g.collapse_elements(false), Ok(()));
    assert_eq!(g.elements, vec![tri(0, 1, 2)]);
}

#[test]
fn collapse_wedge_to_pyramid() {
    let w = Element { name_index: 3, shape: Shape::Wedge([0, 1, 2, 0, 4, 5]) };
    let r = w.collapse_wo_split();
    assert_eq!(r, Some(Element { name_index: 3, shape: Shape::Pyramid([1, 2, 5, 4, 0]) }));
}

#[test]
fn collapse_pyramid_to_tetra() {
    let p = Element { name_index: 0, shape: Shape::Pyramid([0, 0, 2, 3, 4]) };
    let mut out = Vec::new();
    assert_eq!(p.collapse(&mut out), Ok(false));
    assert_eq!(out, vec![Element { name_index: 0, shape: Shape::Tetra([0, 2, 3, 4]) }]);
}

#[test]
fn collapse_hexa_side_face_to_wedge() {
    let h = Element { name_index: 0, shape: Shape::Hexa([0, 1, 2, 3, 0, 1, 6, 7]) };
    let mut out = Vec::new();
    assert_eq!(h.collapse(&mut out), Ok(false));
    assert_eq!(out, vec![Element { name_index: 0, shape: Shape::Wedge([0, 3, 7, 1, 2, 6]) }]);
}

#[test]
fn unsplittable_wedge_reported() {
    // A wedge with a collapsed bottom edge fails the quad-face pair test:
    // in non-splitting mode that is a hard failure, and the grid is left
    // untouched.
    let w = Element { name_index: 0, shape: Shape::Wedge([0, 0, 2, 3, 4, 5]) };
    let mut g = grid_of(
        vec![pt(0, 0, 0), pt(1, 0, 0), pt(1, 1, 0), pt(0, 0, 1), pt(1, 0, 1), pt(1, 1, 1)],
        vec![w],
    );
    assert_eq!(g.collapse_elements(false), Err(MeshError::UnsplittableDegeneracy));
    assert_eq!(g.elements, vec![w]);
}

#[test]
fn splitting_mode_handles_collapsed_wedge_edge() {
    // The same wedge in splitting mode reduces to a pyramid.
    let w = Element { name_index: 0, shape: Shape::Wedge([0, 0, 2, 3, 4, 5]) };
    let mut g = grid_of(
        vec![pt(0, 0, 0), pt(1, 0, 0), pt(1, 1, 0), pt(0, 0, 1), pt(1, 0, 1), pt(1, 1, 1)],
        vec![w],
    );
    assert_eq!(g.collapse_elements(true), Ok(()));
    assert_eq!(g.elements, vec![Element { name_index: 0, shape: Shape::Pyramid([2, 0, 3, 5, 4]) }]);
}

#[test]
fn untabled_degeneracy_reported() {
    // A wedge collapsed across the prism diagonal is not in the tables,
    // even in splitting mode: a loud failure, never a silent pass.
    let w = Element { name_index: 0, shape: Shape::Wedge([0, 1, 2, 3, 0, 5]) };
    let mut g = grid_of(
        vec![pt(0, 0, 0), pt(1, 0, 0), pt(1, 1, 0), pt(0, 0, 1), pt(1, 0, 1), pt(1, 1, 1)],
        vec![w],
    );
    assert_eq!(g.collapse_elements(true), Err(MeshError::UnhandledDegeneracy));
    assert_eq!(g.elements, vec![w]);
}

#[test]
fn iter_points_orders() {
    let e = Element { name_index: 0, shape: Shape::Pyramid([4, 3, 2, 1, 0]) };
    assert_eq!(e.iter_points(), vec![4, 3, 2, 1, 0]);
    let u = Element { name_index: 0, shape: Shape::Undefined };
    assert_eq!(u.iter_points(), Vec::<usize>::new());
}
