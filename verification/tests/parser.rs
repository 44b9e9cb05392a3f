use unstruc::{Dimension, FileType, MeshError, Point, Shape};
use unstruc::filetype_from_filename;
use unstruc::read_stl_binary;
use unstruc::read_su2;
use unstruc::stl::parse_number;
use unstruc::parse_stl;
use unstruc::stl_to_grid;

#[test]
fn number_plain_integer() {
    assert_eq!(parse_number(b"42", 0, 0), Ok((42, 2)));
    assert_eq!(parse_number(b"+42", 0, 0), Ok((42, 3)));
    assert_eq!(parse_number(b"-42", 0, 0), Ok((-42, 3)));
}

#[test]
fn number_fixed_point_scaling() {
    assert_eq!(parse_number(b"1.5", 0, 3), Ok((1500, 3)));
    assert_eq!(parse_number(b"-2.5", 0, 3), Ok((-2500, 4)));
    assert_eq!(parse_number(b"0.25", 0, 6), Ok((250000, 4)));
    assert_eq!(parse_number(b".5", 0, 1), Ok((5, 2)));
    assert_eq!(parse_number(b"3.", 0, 2), Ok((300, 2)));
}

#[test]
fn number_scientific() {
    assert_eq!(parse_number(b"1e3", 0, 0), Ok((1000, 3)));
    assert_eq!(parse_number(b"1.5e-3", 0, 6), Ok((1500, 6)));
    assert_eq!(parse_number(b"2E2", 0, 0), Ok((200, 3)));
    assert_eq!(parse_number(b"1e+2", 0, 0), Ok((100, 4)));
}

#[test]
fn number_truncates_toward_zero() {
    assert_eq!(parse_number(b"0.0000015", 0, 6), Ok((1, 9)));
    assert_eq!(parse_number(b"-0.0000015", 0, 6), Ok((-1, 10)));
    assert_eq!(parse_number(b"0.0000001", 0, 6), Ok((0, 9)));
    assert_eq!(parse_number(b"1e-400", 0, 6), Ok((0, 6)));
}

#[test]
fn number_errors() {
    assert_eq!(parse_number(b"abc", 0, 0), Err(MeshError::Malformed));
    assert_eq!(parse_number(b"", 0, 0), Err(MeshError::Truncated));
    assert_eq!(parse_number(b"-", 0, 0), Err(MeshError::Truncated));
    assert_eq!(parse_number(b"1e", 0, 0), Err(MeshError::Truncated));
    assert_eq!(parse_number(b"1ex", 0, 0), Err(MeshError::Malformed));
    assert_eq!(parse_number(b"1e40", 0, 0), Err(MeshError::NumberOutOfRange));
    assert_eq!(
        parse_number(b"123456789012345678901", 0, 0),
        Err(MeshError::NumberOutOfRange)
    );
    // The magnitude must fit a signed 64-bit coordinate.
    assert_eq!(parse_number(b"9223372036854775807", 0, 0), Ok((i64::MAX, 19)));
    assert_eq!(parse_number(b"9223372036854775808", 0, 0), Err(MeshError::NumberOutOfRange));
}

const GOOD: &[u8] = b"solid part1\n\
  facet normal 0 0 1\n\
    outer loop\n\
      vertex 0 0 0\n\
      vertex 1 0 0\n\
      vertex 0 1 0\n\
    endloop\n\
  endfacet\n\
endsolid\n";

#[test]
fn solid_with_one_facet() {
    let stl = parse_stl(GOOD, 6).unwrap();
    assert_eq!(stl.name.as_deref(), Some("part1"));
    assert_eq!(stl.facets.len(), 1);
    let f = stl.facets[0];
    assert_eq!(f.normal, Point { x: 0, y: 0, z: 1_000_000 });
    assert_eq!(f.p1, Point { x: 0, y: 0, z: 0 });
    assert_eq!(f.p2, Point { x: 1_000_000, y: 0, z: 0 });
    assert_eq!(f.p3, Point { x: 0, y: 1_000_000, z: 0 });
}

#[test]
fn solid_without_name() {
    let stl = parse_stl(b"solid\nendsolid", 3).unwrap();
    assert_eq!(stl.name, None);
    assert_eq!(stl.facets.len(), 0);
}

#[test]
fn truncated_file_reported() {
    // The closing keyword is missing: a truncation, not a silent partial
    // parse.
    let cut = &GOOD[..GOOD.len() - 10];
    assert_eq!(parse_stl(cut, 6), Err(MeshError::Truncated));
    assert_eq!(parse_stl(b"", 6), Err(MeshError::Truncated));
    assert_eq!(parse_stl(b"soli", 6), Err(MeshError::Truncated));
    assert_eq!(parse_stl(b"solid", 6), Err(MeshError::Truncated));
    assert_eq!(parse_stl(b"solid a\n facet normal 0 0", 6), Err(MeshError::Truncated));
}

#[test]
fn malformed_file_reported() {
    assert_eq!(parse_stl(b"xolid a\nendsolid", 6), Err(MeshError::Malformed));
    assert_eq!(
        parse_stl(b"solid a\n facet bormal 0 0 1\nendsolid", 6),
        Err(MeshError::Malformed)
    );
    assert_eq!(parse_stl(b"solid a\nx", 6), Err(MeshError::Malformed));
}

#[test]
fn parsed_solid_becomes_grid() {
    let stl = parse_stl(GOOD, 6).unwrap();
    let g = stl_to_grid(stl);
    assert_eq!(g.dim, Dimension::Three);
    assert_eq!(g.points.len(), 3);
    assert_eq!(g.elements.len(), 1);
    assert_eq!(g.elements[0].shape, Shape::Triangle([0, 1, 2]));
    assert_eq!(g.names.len(), 1);
    assert_eq!(g.names[0].name, "part1");
    assert_eq!(g.names[0].dim, Dimension::Two);
    assert!(g.check());
}

#[test]
fn filetype_dispatch() {
    assert_eq!(filetype_from_filename("mesh.stl"), Some(FileType::STL));
    assert_eq!(filetype_from_filename("dir/mesh.su2"), Some(FileType::SU2));
    assert_eq!(filetype_from_filename("mesh.stlb"), Some(FileType::STLBinary));
    assert_eq!(filetype_from_filename("mesh.vtk"), Some(FileType::VTK));
    assert_eq!(filetype_from_filename("mesh.xyz"), Some(FileType::Plot3D));
    assert_eq!(filetype_from_filename("mesh.p3d"), Some(FileType::Plot3D));
    assert_eq!(filetype_from_filename("a.b.stl"), Some(FileType::STL));
}

#[test]
fn filetype_unknown_or_absent() {
    assert_eq!(filetype_from_filename("mesh.txt"), None);
    assert_eq!(filetype_from_filename("noext"), None);
    assert_eq!(filetype_from_filename(".bashrc"), None);
    assert_eq!(filetype_from_filename("dir.d/file"), None);
    assert_eq!(filetype_from_filename("trailing."), None);
    assert_eq!(filetype_from_filename(""), None);
}

#[test]
fn unimplemented_readers_fail_loudly() {
    assert_eq!(read_su2("x.su2").unwrap_err(), MeshError::UnsupportedFormat);
    assert_eq!(read_stl_binary("x.stlb").unwrap_err(), MeshError::UnsupportedFormat);
}
