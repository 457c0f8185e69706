//! A half-edge mesh: faces bounded by cycles of directed half-edges.
pub mod keys;
pub mod storage;
pub mod mesh;
