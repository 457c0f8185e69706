//! Opaque keys naming the vertices, half-edges and faces of a mesh.
use vstd::prelude::*;

verus! {

/// A key that wraps a numeric identifier.
pub trait OpaqueKey: Copy + PartialEq + Eq + core::hash::Hash + PartialOrd + Ord + core::fmt::Debug + Clone + Sized {
    /// The identifier wrapped by the key.
    spec fn key_id(&self) -> u64;

    /// The key wrapping the given identifier.
    spec fn from_id(id: u64) -> Self;

    /// Keys and identifiers correspond one to one.
    proof fn lemma_key_id(k: Self, id: u64)
        ensures
            Self::from_id(id).key_id() == id,
            Self::from_id(k.key_id()) == k,
    ;

    /// Creates the key wrapping the given identifier.
    fn new(id: u64) -> (k: Self)
        ensures
            k == Self::from_id(id),
            k.key_id() == id,
    ;

    /// Returns the identifier wrapped by the key.
    fn get(&self) -> (id: u64)
        ensures
            id == self.key_id(),
    ;
}

/// The key of a vertex.
#[derive(Copy, Clone, Debug, PartialEq, Eq, Hash, PartialOrd, Ord, Structural)]
pub struct VertexKey(u64);

/// The key of a half-edge.
#[derive(Copy, Clone, Debug, PartialEq, Eq, Hash, PartialOrd, Ord, Structural)]
pub struct EdgeKey(u64);

/// The key of a face.
#[derive(Copy, Clone, Debug, PartialEq, Eq, Hash, PartialOrd, Ord, Structural)]
pub struct FaceKey(u64);

impl OpaqueKey for VertexKey {
    closed spec fn key_id(&self) -> u64 {
        self.0
    }

    closed spec fn from_id(id: u64) -> Self {
        VertexKey(id)
    }

    proof fn lemma_key_id(k: Self, id: u64) {
    }

    fn new(id: u64) -> (k: Self) {
        VertexKey(id)
    }

    fn get(&self) -> (id: u64) {
        self.0
    }
}

impl OpaqueKey for EdgeKey {
    closed spec fn key_id(&self) -> u64 {
        self.0
    }

    closed spec fn from_id(id: u64) -> Self {
        EdgeKey(id)
    }

    proof fn lemma_key_id(k: Self, id: u64) {
    }

    fn new(id: u64) -> (k: Self) {
        EdgeKey(id)
    }

    fn get(&self) -> (id: u64) {
        self.0
    }
}

impl OpaqueKey for FaceKey {
    closed spec fn key_id(&self) -> u64 {
        self.0
    }

    closed spec fn from_id(id: u64) -> Self {
        FaceKey(id)
    }

    proof fn lemma_key_id(k: Self, id: u64) {
    }

    fn new(id: u64) -> (k: Self) {
        FaceKey(id)
    }

    fn get(&self) -> (id: u64) {
        self.0
    }
}

/// The identifier of the placeholder key, which no storage ever hands out.
pub const INVALID_ID: u64 = 0xffff_ffff_ffff_ffff;

impl VertexKey {
    /// The placeholder key of a vertex that has not been given its key yet.
    pub fn invalid() -> (k: Self)
        ensures
            k.key_id() == INVALID_ID,
            k == Self::from_id(INVALID_ID),
    {
        VertexKey(INVALID_ID)
    }
}

impl EdgeKey {
    /// The placeholder key of a half-edge that has not been given its key yet.
    pub fn invalid() -> (k: Self)
        ensures
            k.key_id() == INVALID_ID,
            k == Self::from_id(INVALID_ID),
    {
        EdgeKey(INVALID_ID)
    }
}

impl FaceKey {
    /// The placeholder key of a face that has not been given its key yet.
    pub fn invalid() -> (k: Self)
        ensures
            k.key_id() == INVALID_ID,
            k == Self::from_id(INVALID_ID),
    {
        FaceKey(INVALID_ID)
    }
}

} // verus!
