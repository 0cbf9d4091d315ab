//! Classical graph algorithms, written once against the graph contract.

pub mod colorings;
pub mod colour_counts;
pub mod cuts;
pub mod dijkstra;
pub mod ford_fulkerson;
pub mod hierholzer;
pub mod kruskal;
pub mod lightest;
pub mod polynomial_values;
pub mod prufer;
pub mod search;
pub mod spanning;
pub mod trees;
pub mod warshall;
