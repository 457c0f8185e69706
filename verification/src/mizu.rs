//! Mizu: a triangle mesh that knows, for each side of each face, the face
//! across it; built for mesh simplification.
pub mod face;
pub mod mesh;
pub mod simplify;
