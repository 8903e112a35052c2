//! The algorithms on networks: searches and shortest paths.

pub mod pagerank;
pub mod search_algorithms;
pub mod settling;
pub mod shortest_paths;
pub mod walks;

pub use pagerank::{build_adj_list, out_degrees};
pub use search_algorithms::{breadth_first_search, depth_first_search};
pub use shortest_paths::{dijkstra, find_min_index, heap_dijkstra, vanilla_dijkstra};
