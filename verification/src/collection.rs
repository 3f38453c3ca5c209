//! Containers shared by the graph and the network: the generation-tagged
//! handle arena and the handle type it hands out.

pub mod generational_index;
pub mod graph;
pub mod keyed_map;
