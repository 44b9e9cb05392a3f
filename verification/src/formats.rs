use vstd::prelude::*;
use vstd::string::StringSliceAdditionalSpecFns;
use crate::error::MeshError;
use crate::grid::Grid;

verus! {

broadcast use vstd::seq::group_seq_axioms;

/// The surface and volume formats the tool recognizes by file extension.
/// Only the ASCII surface grammar has a reader; the others are declared so
/// that they fail with an explicit unsupported-format error instead of
/// being mis-parsed.
#[derive(Clone, Copy, PartialEq, Eq, Structural, Debug)]
pub enum FileType {
    SU2,
    STL,
    STLBinary,
    VTK,
    Plot3D,
}

/// Position `d` holds the extension dot of the file name `b`: the last dot
/// of the final path component, not its first byte.
pub open spec fn ext_at(b: Seq<u8>, d: int) -> bool {
    &&& 0 <= d < b.len()
    &&& b[d] == 46
    &&& forall|j: int| d < j < b.len() ==> b[j] != 46 && (#[trigger] b[j]) != 47
    &&& d >= 1
    &&& b[d - 1] != 47
}

/// The file name `b` carries the extension `e`.
pub open spec fn ext_is(b: Seq<u8>, e: Seq<u8>) -> bool {
    exists|d: int| #[trigger] ext_at(b, d) && b.subrange(d + 1, b.len() as int) == e
}

pub open spec fn ext_su2() -> Seq<u8> {
    seq![115u8, 117u8, 50u8]
}

pub open spec fn ext_stl() -> Seq<u8> {
    seq![115u8, 116u8, 108u8]
}

pub open spec fn ext_stlb() -> Seq<u8> {
    seq![115u8, 116u8, 108u8, 98u8]
}

pub open spec fn ext_vtk() -> Seq<u8> {
    seq![118u8, 116u8, 107u8]
}

pub open spec fn ext_xyz() -> Seq<u8> {
    seq![120u8, 121u8, 122u8]
}

pub open spec fn ext_p3d() -> Seq<u8> {
    seq![112u8, 51u8, 100u8]
}

/// Which reader a file name selects.
pub open spec fn spec_filetype(b: Seq<u8>) -> Option<FileType> {
    if ext_is(b, ext_su2()) {
        Some(FileType::SU2)
    } else if ext_is(b, ext_stl()) {
        Some(FileType::STL)
    } else if ext_is(b, ext_stlb()) {
        Some(FileType::STLBinary)
    } else if ext_is(b, ext_vtk()) {
        Some(FileType::VTK)
    } else if ext_is(b, ext_xyz()) {
        Some(FileType::Plot3D)
    } else if ext_is(b, ext_p3d()) {
        Some(FileType::Plot3D)
    } else {
        None
    }
}

/// A file name has at most one extension dot, so at most one extension.
pub proof fn lemma_ext_from_at(b: Seq<u8>, d: int)
    requires
        ext_at(b, d),
    ensures
        forall|e: Seq<u8>| #[trigger] ext_is(b, e) ==> e == b.subrange(d + 1, b.len() as int),
{
    assert forall|e: Seq<u8>| #[trigger] ext_is(b, e) implies e == b.subrange(
        d + 1,
        b.len() as int,
    ) by {
        let d2 = choose|d2: int| #[trigger] ext_at(b, d2) && b.subrange(d2 + 1, b.len() as int) == e;
        if d < d2 {
            assert(b[d2] != 46);
        }
        if d2 < d {
            assert(b[d] != 46);
        }
    }
}

/// Select a reader from the extension of `filename`: the part of its final
/// path component after the last dot, absent when there is no dot or when
/// the dot opens the component.
pub fn filetype_from_filename(filename: &str) -> (r: Option<FileType>)
    ensures
        r == spec_filetype(filename.spec_bytes()),
{
    let bytes: &[u8] = filename.as_bytes();
    let ghost b = bytes@;
    let n = bytes.len();
    let mut k = n;
    while k > 0
        invariant
            k <= n == b.len(),
            b == bytes@,
            b == filename.spec_bytes(),
            forall|j: int| k <= j < n ==> b[j] != 46 && (#[trigger] b[j]) != 47,
        decreases k,
    {
        let c = bytes[k - 1];
        if c == 47 {
            // A path separator before any dot: the final component has no
            // extension.
            proof {
                assert forall|d: int| !ext_at(b, d) by {
                    if ext_at(b, d) {
                        if d >= k {
                            assert(b[d] != 46);
                        } else {
                            assert(d < k - 1);
                            assert(b[k - 1] != 47);
                        }
                    }
                }
            }
            return None;
        }
        if c == 46 {
            let d = k - 1;
            if d == 0 {
                // A leading dot is not an extension, and no later dot
                // exists.
                proof {
                    assert forall|d2: int| !ext_at(b, d2) by {
                        if ext_at(b, d2) {
                            if d2 >= k {
                                assert(b[d2] != 46);
                            }
                        }
                    }
                }
                return None;
            }
            let prev = bytes[d - 1];
            if prev == 47 {
                // The dot opens the final component: a hidden file, no
                // extension.
                proof {
                    assert forall|d2: int| !ext_at(b, d2) by {
                        if ext_at(b, d2) {
                            if d2 >= k {
                                assert(b[d2] != 46);
                            } else if d2 < d {
                                assert(b[d as int] != 46);
                            }
                        }
                    }
                }
                return None;
            }
            proof {
                assert(ext_at(b, d as int));
                lemma_ext_from_at(b, d as int);
            }
            let ghost ext = b.subrange(d + 1, n as int);
            let el = n - k;
            proof {
                assert(ext.len() == el);
                assert forall|i: int| 0 <= i < el implies ext[i] == b[k + i] by {}
            }
            if el == 3 {
                let c0 = bytes[k];
                let c1 = bytes[k + 1];
                let c2 = bytes[k + 2];
                if c0 == 115 && c1 == 117 && c2 == 50 {
                    proof {
                        assert(ext =~= ext_su2());
                        assert(ext_is(b, ext_su2()));
                    }
                    return Some(FileType::SU2);
                }
                if c0 == 115 && c1 == 116 && c2 == 108 {
                    proof {
                        assert(ext =~= ext_stl());
                        assert(ext_is(b, ext_stl()));
                        assert(!ext_is(b, ext_su2()));
                    }
                    return Some(FileType::STL);
                }
                if c0 == 118 && c1 == 116 && c2 == 107 {
                    proof {
                        assert(ext =~= ext_vtk());
                        assert(ext_is(b, ext_vtk()));
                        assert(!ext_is(b, ext_su2()));
                        assert(!ext_is(b, ext_stl()));
                        assert(!ext_is(b, ext_stlb()));
                    }
                    return Some(FileType::VTK);
                }
                if c0 == 120 && c1 == 121 && c2 == 122 {
                    proof {
                        assert(ext =~= ext_xyz());
                        assert(ext_is(b, ext_xyz()));
                        assert(!ext_is(b, ext_su2()));
                        assert(!ext_is(b, ext_stl()));
                        assert(!ext_is(b, ext_stlb()));
                        assert(!ext_is(b, ext_vtk()));
                    }
                    return Some(FileType::Plot3D);
                }
                if c0 == 112 && c1 == 51 && c2 == 100 {
                    proof {
                        assert(ext =~= ext_p3d());
                        assert(ext_is(b, ext_p3d()));
                        assert(!ext_is(b, ext_su2()));
                        assert(!ext_is(b, ext_stl()));
                        assert(!ext_is(b, ext_stlb()));
                        assert(!ext_is(b, ext_vtk()));
                        assert(!ext_is(b, ext_xyz()));
                    }
                    return Some(FileType::Plot3D);
                }
                proof {
                    assert(!ext_is(b, ext_su2()));
                    assert(!ext_is(b, ext_stl()));
                    assert(!ext_is(b, ext_stlb()));
                    assert(!ext_is(b, ext_vtk()));
                    assert(!ext_is(b, ext_xyz()));
                    assert(!ext_is(b, ext_p3d()));
                }
                return None;
            }
            if el == 4 {
                let c0 = bytes[k];
                let c1 = bytes[k + 1];
                let c2 = bytes[k + 2];
                let c3 = bytes[k + 3];
                if c0 == 115 && c1 == 116 && c2 == 108 && c3 == 98 {
                    proof {
                        assert(ext =~= ext_stlb());
                        assert(ext_is(b, ext_stlb()));
                        assert(!ext_is(b, ext_su2()));
                        assert(!ext_is(b, ext_stl()));
                    }
                    return Some(FileType::STLBinary);
                }
                proof {
                    assert(!ext_is(b, ext_su2()));
                    assert(!ext_is(b, ext_stl()));
                    assert(!ext_is(b, ext_stlb()));
                    assert(!ext_is(b, ext_vtk()));
                    assert(!ext_is(b, ext_xyz()));
                    assert(!ext_is(b, ext_p3d()));
                }
                return None;
            }
            proof {
                assert(!ext_is(b, ext_su2()));
                assert(!ext_is(b, ext_stl()));
                assert(!ext_is(b, ext_stlb()));
                assert(!ext_is(b, ext_vtk()));
                assert(!ext_is(b, ext_xyz()));
                assert(!ext_is(b, ext_p3d()));
            }
            return None;
        }
        k -= 1;
    }
    proof {
        assert forall|d: int| !ext_at(b, d) by {
            if ext_at(b, d) {
                assert(b[d] != 46);
            }
        }
    }
    None
}

/// A recognized volume format whose reader does not exist: it fails with an
/// explicit unsupported-format error rather than mis-parsing.
pub fn read_su2(filename: &str) -> (r: Result<Grid, MeshError>)
    ensures
        r == Err::<Grid, MeshError>(MeshError::UnsupportedFormat),
{
    let _ = filename;
    Err(MeshError::UnsupportedFormat)
}

/// The binary surface format, likewise declared but not implemented.
pub fn read_stl_binary(filename: &str) -> (r: Result<Grid, MeshError>)
    ensures
        r == Err::<Grid, MeshError>(MeshError::UnsupportedFormat),
{
    let _ = filename;
    Err(MeshError::UnsupportedFormat)
}

} // verus!
