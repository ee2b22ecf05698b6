//! Generic state-space search: breadth-first, depth-first, depth-first
//! branch-and-bound, uniform-cost and A* over a problem-agnostic node type.
pub mod a_star;
pub mod best_first;
pub mod bfs;
pub mod dfbnb;
pub mod dfs;
pub mod dijkstra;
mod frontier;
pub mod graph;
pub mod traits;
mod visited;
