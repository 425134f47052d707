//! Shortest paths over small weighted graphs: an adjacency-list graph type,
//! three engines (Dijkstra, Bellman-Ford, Floyd-Warshall), and path
//! reconstruction from predecessor vectors and routing matrices.

pub mod bellman_ford;
pub mod dijkstra;
pub mod floydwarshall;
pub mod graph;
pub mod scenario_one;
pub mod scenario_three;
