use vstd::prelude::*;

verus! {

/// The label that clustering gives a point.
#[derive(Debug, Clone, Copy, PartialEq, Eq, Hash, Structural)]
pub enum Class {
    /// Not yet visited.
    Unclassified,
    /// Member of the cluster with this identifier.
    Classified(usize),
    /// In no cluster.
    Noise,
}

/// The integer written in the first column of a labelled row: the cluster
/// identifier, or `-1` for a point in no cluster.
pub open spec fn label_code_spec(c: Class) -> int {
    match c {
        Class::Classified(id) => id as int,
        _ => -1,
    }
}

impl Class {
    /// The integer that a labelled row carries for this label.
    pub fn code(&self) -> (r: i128)
        ensures
            r as int == label_code_spec(*self),
    {
        match self {
            Class::Classified(id) => *id as i128,
            _ => -1,
        }
    }
}

/// Why an engine could not be built.
#[derive(Debug, Clone, Copy, PartialEq, Eq, Structural)]
pub enum EngineError {
    /// The distance keys do not form a square matrix with a zero diagonal.
    InvalidDistances,
    /// A region names a point that does not exist or names a point twice, or
    /// does not hold its own centre.
    InvalidRegions,
    /// The spatial index does not handle points of this dimension.
    UnsupportedDimension,
}

} // verus!
