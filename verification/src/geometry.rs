use vstd::prelude::*;

verus! {

/// A three-dimensional coordinate triple.
///
/// Coordinates are fixed-point integers: callers pick a scale (units per
/// model unit) when ingesting geometry, and every coordinate and merge
/// tolerance is expressed in those units.
#[derive(Clone, Copy, PartialEq, Eq, Structural, Debug)]
pub struct Point {
    pub x: i64,
    pub y: i64,
    pub z: i64,
}

/// Whether a mesh or a name tag describes a boundary surface or a volume.
#[derive(Clone, Copy, PartialEq, Eq, Structural, Debug)]
pub enum Dimension {
    Two,
    Three,
}

/// The cheap proximity proxy used to order points during merging: the sum of
/// the three coordinates. Two points whose coordinates differ by at most
/// `tol` on every axis have proxies within `3 * tol` of each other.
pub open spec fn proxy_key(p: Point) -> int {
    p.x + p.y + p.z
}

/// Per-axis closeness: the two values differ by at most `tol`.
pub open spec fn coord_close(a: i64, b: i64, tol: i64) -> bool {
    -(tol as int) <= a - b <= tol as int
}

/// Two points are mergeable when every coordinate axis is within `tol`.
pub open spec fn points_close(a: Point, b: Point, tol: i64) -> bool {
    coord_close(a.x, b.x, tol) && coord_close(a.y, b.y, tol) && coord_close(a.z, b.z, tol)
}

/// Closeness of points bounds the distance of their proxies: all three axis
/// differences are at most `tol`, so their sum is at most `3 * tol`.
pub proof fn lemma_close_proxy_bound(a: Point, b: Point, tol: i64)
    requires
        points_close(a, b, tol),
    ensures
        -3 * (tol as int) <= proxy_key(a) - proxy_key(b) <= 3 * (tol as int),
{
}

} // verus!
