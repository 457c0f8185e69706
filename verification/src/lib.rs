//! Mesh topology (half-edge and triangle-opposite meshes) and a
//! wave-function-collapse grid solver, with their contracts proved by Verus.
pub mod groups;
pub mod hash_tables;
pub mod hedge;
pub mod mizu;
pub mod prune;
pub mod simplify;
pub mod static_or_closure;
pub mod whave;
