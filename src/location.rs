//! Addresses of operator ports within one scope's graph.

use vstd::prelude::*;

verus! {

/// An output port of an operator.
#[derive(Clone, Copy, Debug, PartialEq, Eq, Structural, PartialOrd, Ord, Hash)]
pub struct Source {
    /// The operator.
    pub node: usize,
    /// The output port of that operator.
    pub port: usize,
}

/// An input port of an operator.
#[derive(Clone, Copy, Debug, PartialEq, Eq, Structural, PartialOrd, Ord, Hash)]
pub struct Target {
    /// The operator.
    pub node: usize,
    /// The input port of that operator.
    pub port: usize,
}

/// A port of an operator, with its direction.
#[derive(Clone, Copy, Debug, PartialEq, Eq, Structural, PartialOrd, Ord, Hash)]
pub enum Location {
    Source(Source),
    Target(Target),
}

impl Source {
    pub fn new(node: usize, port: usize) -> (r: Source)
        ensures
            r == (Source { node, port }),
    {
        Source { node, port }
    }
}

impl Target {
    pub fn new(node: usize, port: usize) -> (r: Target)
        ensures
            r == (Target { node, port }),
    {
        Target { node, port }
    }
}

} // verus!
