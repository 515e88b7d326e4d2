use vstd::prelude::*;

use crate::node::NodeData;

verus! {

/// The failures the engine reports.
///
/// - `MissingData`: parallel input columns of unequal length.
/// - `InvalidDataType`: a value domain outside integer, float and text,
///   or two columns of different domains; the payload names the offence.
/// - `CycleDetected`: a topological order was asked of a cyclic graph; the
///   payload holds nodes on which the ordering got stuck, for diagnostics.
///
/// A shortest-path endpoint that is not in the graph is reported by
/// returning `None` from the query rather than by an error value.
#[derive(Debug, Clone)]
pub enum GraphError {
    MissingData(String),
    InvalidDataType(String),
    CycleDetected(Vec<NodeData>),
}

} // verus!
