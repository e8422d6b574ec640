//! Force-directed layout of small labelled graphs.
//!
//! A [`graph::Graph`] is filled by registering edges, which create their
//! endpoints at positions drawn from a seeded random stream. A layout step
//! ([`graph::Graph::iterate`]) pushes every pair of nodes apart and lets
//! every edge act as a spring; the caller decides how many steps to make.
//! The connectivity check tells which nodes the first node reaches, and
//! normalisation rescales a finished layout into the frame from (0.1, 0.1)
//! to (0.9, 0.9). The drawing modules write the result as SVG markup.
//!
//! Coordinates are fixed-point numbers: an `i64` counts millionths of a
//! length unit. Every formula of the layout is integer arithmetic with a
//! stated rounding, so that a layout is the same on every machine and every
//! contract speaks of mathematical integers.

pub mod binary64;
pub mod connectivity;
pub mod decimal;
pub mod equilibrium;
pub mod error;
pub mod fixed;
pub mod forces;
pub mod graph;
pub mod label;
pub mod layout;
pub mod node;
pub mod normalize;
pub mod random;
pub mod render;
pub mod script;
pub mod snapshot;
pub mod style;
pub mod svg;
pub mod text;
pub mod vector;

pub use crate::error::GraphError;
pub use crate::graph::{Edge, Graph};
pub use crate::node::Node;
pub use crate::vector::Vector;
