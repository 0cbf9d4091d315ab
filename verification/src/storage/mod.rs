//! Interchangeable storage backends behind one read contract.

pub mod adjacency_list;
pub mod adjacency_list_in;
pub mod adjacency_matrix;
pub mod graph_definition;
pub mod scan;
