pub mod max_flow;
pub mod short_cycle;
pub mod shortest_path;
pub mod topological_sort;
pub mod scc;
