//! The faces and vertices of a Mizu mesh.
use vstd::prelude::*;

verus! {

/// The corner `k` (0, 1 or 2) of a triangle given by its three vertex
/// indices.
pub open spec fn corner(t: (u32, u32, u32), k: int) -> u32 {
    if k == 0 {
        t.0
    } else if k == 1 {
        t.1
    } else {
        t.2
    }
}

/// The side `j` (0, 1 or 2) of a triangle: the pair of its corners `j` and
/// `j + 1` (wrapping).
pub open spec fn side(t: (u32, u32, u32), j: int) -> (u32, u32) {
    (corner(t, j), corner(t, (j + 1) % 3))
}

/// A triangular face of a Mizu mesh, by the indices of its three vertices.
#[derive(Clone, Copy, Debug)]
pub struct Face {
    vertices: [u32; 3],
}

impl View for Face {
    type V = (u32, u32, u32);

    /// The indices of the three vertices.
    closed spec fn view(&self) -> (u32, u32, u32) {
        (self.vertices[0], self.vertices[1], self.vertices[2])
    }
}

impl Face {
    /// Creates a face from the indices of its vertices.
    pub fn new(vertices: [u32; 3]) -> (f: Self)
        ensures
            f@ == (vertices[0], vertices[1], vertices[2]),
    {
        Face { vertices }
    }

    /// Returns the indices of the vertices that make up this face.
    pub fn vertices(&self) -> (r: &[u32; 3])
        ensures
            r[0] == self@.0,
            r[1] == self@.1,
            r[2] == self@.2,
    {
        &self.vertices
    }

    /// Returns a mutable reference to the indices of the vertices that make
    /// up this face.
    pub fn vertices_mut(&mut self) -> (r: &mut [u32; 3])
        ensures
            r[0] == old(self)@.0,
            r[1] == old(self)@.1,
            r[2] == old(self)@.2,
            final(self)@ == (final(r)[0], final(r)[1], final(r)[2]),
    {
        &mut self.vertices
    }

    /// Returns the pairs of vertices that make up the sides of this face.
    pub fn pairs(&self) -> (r: [(u32, u32); 3])
        ensures
            r[0] == side(self@, 0),
            r[1] == side(self@, 1),
            r[2] == side(self@, 2),
    {
        [
            (self.vertices[0], self.vertices[1]),
            (self.vertices[1], self.vertices[2]),
            (self.vertices[2], self.vertices[0]),
        ]
    }

    /// Returns the requested pair of vertices that make up a side of this
    /// face.
    pub fn pair(&self, index: u8) -> (r: (u32, u32))
        requires
            index < 3,
        ensures
            r == side(self@, index as int),
    {
        match index {
            0 => (self.vertices[0], self.vertices[1]),
            1 => (self.vertices[1], self.vertices[2]),
            _ => (self.vertices[2], self.vertices[0]),
        }
    }

    /// Returns the index of the vertex opposite the given side.
    pub fn vertex_index_opposite_pair(&self, index: u8) -> (r: u32)
        requires
            index < 3,
        ensures
            r == corner(self@, (index + 2) % 3),
    {
        match index {
            0 => self.vertices[2],
            1 => self.vertices[0],
            _ => self.vertices[1],
        }
    }
}

/// A vertex of a Mizu mesh, carrying its data.
#[derive(Clone, Debug)]
pub struct Vertex<D> {
    data: D,
}

impl<D> View for Vertex<D> {
    type V = D;

    /// The data of the vertex.
    closed spec fn view(&self) -> D {
        self.data
    }
}

impl<D> Vertex<D> {
    /// Creates a new vertex with the given data.
    pub fn new(data: D) -> (v: Self)
        ensures
            v@ == data,
    {
        Vertex { data }
    }

    /// Returns the data of the vertex.
    pub fn data(&self) -> (r: &D)
        ensures
            *r == self@,
    {
        &self.data
    }
}

} // verus!
