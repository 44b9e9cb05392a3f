//! Topology cleanup for triangulated boundary meshes.
//!
//! A `Grid` owns a point buffer, an element buffer and a name table. The
//! cleanup pipeline runs in place: tolerance-based point merging, dead-point
//! compaction, degenerate-element collapse, and a final connectivity check
//! that gates handoff to a volumetric mesher.

pub mod geometry;
pub mod element;
pub mod grid;
pub mod compact;
pub mod merge;
pub mod collapse;
pub mod stl;
pub mod formats;
pub mod error;

pub use geometry::Dimension;
pub use geometry::Point;
pub use element::Element;
pub use element::Name;
pub use element::Shape;
pub use grid::Grid;
pub use error::MeshError;
pub use formats::FileType;
pub use formats::filetype_from_filename;
pub use formats::read_stl_binary;
pub use formats::read_su2;
pub use stl::Facet;
pub use stl::STL;
pub use stl::parse_stl;
pub use stl::stl_to_grid;
