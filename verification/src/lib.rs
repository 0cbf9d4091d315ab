//! Graph-theory toolkit: a generic graph model with interchangeable storage
//! backends and verified classical algorithms over it.

pub mod algorithms;
pub mod base;
pub mod counting;
pub mod insertion_set;
pub mod interner;
pub mod storage;
pub mod traits;
pub mod wrappers;

pub use crate::algorithms::colorings::{
    chromatic_number, chromatic_polynomial, num_k_colorings, ChromaticPolynomialMethod, Polynomial,
    WorkingGraph,
};
pub use crate::algorithms::dijkstra::{dijkstra, DijkstraError, DijkstraResult, PathError};
pub use crate::algorithms::ford_fulkerson::{
    ford_fulkerson, residual_network, Flow, FlowNetwork, FordFulkersonResult, FLOW_LIMIT,
};
pub use crate::algorithms::hierholzer::{hierholzer_undirected, HierholzerError, HierholzerResult};
pub use crate::algorithms::kruskal::{kruskal_mst, KruskalResult, UnionFind};
pub use crate::algorithms::prufer::{prufer_to_tree, tree_to_prufer, NotATree, PruferError};
pub use crate::algorithms::warshall::{
    compute_graph_distances, warshall_closure, warshall_lightest_path_matrix, GraphDistances,
    WarshallClosureResult, WarshallLightestPathResult, WarshallPathMatrix, WeightOverflow,
};
pub use crate::base::{EdgeId, NodeId, NodeKey, RepresentationHint, Weight};
pub use crate::interner::{NodeInterner, NodeRecord};
pub use crate::storage::graph_definition::{EdgeRecord, GraphDefinition};
pub use crate::traits::{
    EdgeWeights, GraphBase, GraphKindMarker, IsUnit, MergeStrategy, MultiGraphKind, MutableStorage,
    NotUnit, OrderedNodes, PseudoGraphKind, SimpleGraphKind, StorageConvert, StorageRepresentation,
};
pub use crate::wrappers::{
    DirectedGraph, EdgeRejection, Graph, Multi, Pseudo, Simple, UndirectedGraph,
};
pub use crate::algorithms::ford_fulkerson::FlowInputError;
pub use crate::storage::adjacency_list::AdjacencyList;
pub use crate::storage::adjacency_list_in::AdjacencyListIn;
pub use crate::storage::adjacency_matrix::{AdjacencyMatrix, MATRIX_NODE_LIMIT};
