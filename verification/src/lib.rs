//! Analysis of heap dumps: parse object records, build the reference
//! graph, compute dominator-based retained sizes, and prune the graph
//! to the nodes that retain a relevant share of memory.
#![verifier::loop_isolation(false)]

pub mod dominator;
pub mod graph;
pub mod json;
pub mod kinds;
pub mod line;
pub mod object;
pub mod prune;
pub mod stats;
pub mod text;
