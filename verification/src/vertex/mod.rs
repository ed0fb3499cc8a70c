//! Per-vertex algorithms.

pub mod adjacency;
pub mod analyze;
pub mod cache;
pub mod drift;
pub mod fifo;
pub mod fifo_order;
pub mod greedy;
pub mod greedy_order;
pub mod groups;
pub mod misses;
pub mod renumber;
pub mod score;
