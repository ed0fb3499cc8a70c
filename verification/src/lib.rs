//! Vertex transform cache analysis and optimization of triangle meshes.

pub mod mesh;
pub mod util;
pub mod vertex;
