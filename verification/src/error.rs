//! The error kinds the library reports.

use vstd::prelude::*;
use vstd::string::StringExecFns;

verus! {

/// Why an operation on a graph was refused. A refused operation leaves the
/// graph as it was.
#[derive(Clone, Copy, Debug, PartialEq, Eq, Structural)]
pub enum GraphError {
    /// A style was applied to a node that no edge has created.
    UnknownNodeReference,
    /// A style payload is malformed, or one of its fields has the wrong type.
    InvalidStylePayload,
    /// The bounding box of the nodes has no extent on one of the axes.
    DegenerateGeometry,
    /// A force is undefined (coincident nodes) or would carry a node out of
    /// the range of coordinates.
    NumericInstability,
}

impl GraphError {
    /// A sentence that describes the error.
    pub fn message(&self) -> (text: String)
        ensures
            text@ == match *self {
                GraphError::UnknownNodeReference =>
                    "unknown node: edges must be defined before nodes can be configured"@,
                GraphError::InvalidStylePayload => "invalid style payload"@,
                GraphError::DegenerateGeometry => "degenerate geometry: the nodes span no area"@,
                GraphError::NumericInstability =>
                    "numeric instability: coincident nodes or coordinates out of range"@,
            },
    {
        match self {
            GraphError::UnknownNodeReference => String::from_str(
                "unknown node: edges must be defined before nodes can be configured",
            ),
            GraphError::InvalidStylePayload => String::from_str("invalid style payload"),
            GraphError::DegenerateGeometry => String::from_str(
                "degenerate geometry: the nodes span no area",
            ),
            GraphError::NumericInstability => String::from_str(
                "numeric instability: coincident nodes or coordinates out of range",
            ),
        }
    }
}

} // verus!
