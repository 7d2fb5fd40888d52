use vstd::prelude::*;

verus! {

/// A directed, unweighted arc: an immutable ordered pair of node
/// identifiers. Duplicate edges carry no identity beyond their
/// endpoints, so a graph may store the same pair twice.
pub struct Edge<T> {
    source: T,
    sink: T,
}

impl<T: Copy> Edge<T> {
    /// The node this edge leaves.
    pub closed spec fn spec_source(&self) -> T {
        self.source
    }

    /// The node this edge enters.
    pub closed spec fn spec_sink(&self) -> T {
        self.sink
    }

    /// Stores the two endpoints verbatim; no validation is performed.
    pub fn new(source: T, sink: T) -> (e: Edge<T>)
        ensures
            e.spec_source() == source,
            e.spec_sink() == sink,
    {
        Edge { source, sink }
    }

    pub fn get_source(&self) -> (s: T)
        ensures
            s == self.spec_source(),
    {
        self.source
    }

    pub fn get_sink(&self) -> (s: T)
        ensures
            s == self.spec_sink(),
    {
        self.sink
    }
}

} // verus!
