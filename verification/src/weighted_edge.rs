use vstd::prelude::*;

verus! {

/// A directed arc with a non-negative integer weight. The longest-path
/// computation relies on weights never being negative, which the
/// unsigned type enforces by construction; a weight of zero is legal
/// and means a zero-cost step.
#[derive(Copy, Debug, Clone, PartialEq)]
pub struct WeightedEdge<T> {
    source: T,
    sink: T,
    weight: u32,
}

impl<T: Copy> WeightedEdge<T> {
    /// The node this edge leaves.
    pub closed spec fn spec_source(&self) -> T {
        self.source
    }

    /// The node this edge enters.
    pub closed spec fn spec_sink(&self) -> T {
        self.sink
    }

    /// The cost of traversing this edge.
    pub closed spec fn spec_weight(&self) -> u32 {
        self.weight
    }

    /// Stores endpoints and weight verbatim; no validation is performed.
    pub fn new(source: T, sink: T, weight: u32) -> (e: WeightedEdge<T>)
        ensures
            e.spec_source() == source,
            e.spec_sink() == sink,
            e.spec_weight() == weight,
    {
        WeightedEdge { source, sink, weight }
    }

    pub fn get_source(&self) -> (s: T)
        ensures
            s == self.spec_source(),
    {
        self.source
    }

    pub fn get_sink(&self) -> (s: T)
        ensures
            s == self.spec_sink(),
    {
        self.sink
    }

    pub fn get_weight(&self) -> (w: u32)
        ensures
            w == self.spec_weight(),
    {
        self.weight
    }
}

impl WeightedEdge<u32> {
    /// Diagnostic text for an edge, `source -- weight --> sink`. Relies
    /// on std's formatting machinery, which Verus does not model; the
    /// algorithms never depend on this text.
    #[verifier::external_body]
    pub fn render(&self) -> String {
        format!("{:?} -- {:2} --> {:?}", self.source, self.weight, self.sink)
    }
}

} // verus!
