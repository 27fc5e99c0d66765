//! Minimum spanning trees of points in the plane.
//!
//! Points have integer coordinates and edges are weighted by Euclidean
//! distance. Lengths are compared exactly, as squared distances, which
//! order edges as their lengths do.
//!
//! - `geometry`: points, edges and squared distances.
//! - `prim`: the tree that Prim's algorithm grows, and why it is unique.
//! - `optimal`: no spanning tree of the same points is lighter than that tree.
//! - `generate`: well separated random points in a rectangle.
//! - `codec`: points and edges as lines of text.
//! - `plotting`: the square area that a drawing of a tree needs.

pub mod codec;
pub mod error;
pub mod generate;
pub mod geometry;
pub mod optimal;
pub mod plotting;
pub mod prim;

pub use crate::codec::{
    decode_edges, decode_points, encode_edges, encode_points, parse_edge_line, parse_point_line,
};
pub use crate::error::{Error, ErrorKind};
pub use crate::generate::{check_parameters, far_enough, generate, Ratio, ATTEMPTS_PER_POINT};
pub use crate::geometry::{Edge, Vertex};
pub use crate::plotting::plot_dimensions;
pub use crate::prim::minimum_spanning_tree;
