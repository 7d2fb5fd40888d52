pub mod edge;
pub mod graph;
pub mod parse;
pub mod pqueue;
pub mod reach;
pub mod weighted_edge;
pub mod weighted_graph;
