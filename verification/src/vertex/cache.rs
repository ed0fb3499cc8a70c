//! Vertex transform cache analysis and optimization.

pub use crate::vertex::analyze::analyze_vertex_cache;
pub use crate::vertex::analyze::checked_analyze_vertex_cache;
pub use crate::vertex::analyze::VertexCacheStatistics;
pub use crate::vertex::fifo::optimize_vertex_cache_fifo;
pub use crate::vertex::greedy::optimize_vertex_cache;
pub use crate::vertex::greedy::optimize_vertex_cache_strip;
