//! The Mizu mesh, and the faces across the sides of each face.
use vstd::prelude::*;

use super::face::{corner, side, Face, Vertex};
use crate::hash_tables::{pair_map_contents, PairMap};
use crate::hedge::mesh::cloned_twice;
use vstd::arithmetic::div_mod::lemma_fundamental_div_mod_converse;

verus! {

/// A face and one of its sides (0, 1 or 2).
pub type OppositeEntry = Option<(u32, u8)>;

/// A triangle mesh built for mesh simplification: vertices, faces by vertex
/// index, and for each side of each face the face and side across it.
pub struct MizuMesh<D> {
    vertices: Vec<Vertex<D>>,
    faces: Vec<Face>,
    opposites: Vec<[Option<(u32, u8)>; 3]>,
}

/// The triangles of a list of faces.
pub open spec fn face_tris(faces: Seq<Face>) -> Seq<(u32, u32, u32)> {
    faces.map_values(|f: Face| f@)
}

/// The face and side that own the side `arc` among the first `n`
/// triangles: of several, the last in order of faces, then of sides.
pub open spec fn side_owner(tris: Seq<(u32, u32, u32)>, arc: (u32, u32), n: int) -> Option<(u32, u8)>
    decreases n,
{
    if n <= 0 {
        None
    } else if side(tris[n - 1], 2) == arc {
        Some(((n - 1) as u32, 2u8))
    } else if side(tris[n - 1], 1) == arc {
        Some(((n - 1) as u32, 1u8))
    } else if side(tris[n - 1], 0) == arc {
        Some(((n - 1) as u32, 0u8))
    } else {
        side_owner(tris, arc, n - 1)
    }
}

/// The face and side across side `j` of triangle `i`: the owner of the same
/// side run the other way.
pub open spec fn opposite(tris: Seq<(u32, u32, u32)>, i: int, j: int) -> Option<(u32, u8)> {
    let s = side(tris[i], j);
    side_owner(tris, (s.1, s.0), tris.len() as int)
}

/// Whether `opp` lists, for each triangle and side, the face and side
/// across it.
pub open spec fn opposites_of(tris: Seq<(u32, u32, u32)>, opp: Seq<[Option<(u32, u8)>; 3]>) -> bool {
    &&& opp.len() == tris.len()
    &&& forall|i: int, j: int| 0 <= i < tris.len() && 0 <= j < 3 ==> #[trigger] opp[i][j] == opposite(tris, i, j)
}

/// Whether every corner of every triangle is below `n`.
pub open spec fn corners_below(tris: Seq<(u32, u32, u32)>, n: int) -> bool {
    forall|i: int, k: int| 0 <= i < tris.len() && 0 <= k < 3 ==> #[trigger] corner(tris[i], k) < n
}

/// An owner found among the first `n` triangles is one of them, by one of
/// its sides, and has that side.
pub proof fn lemma_side_owner(tris: Seq<(u32, u32, u32)>, arc: (u32, u32), n: int)
    requires
        n <= tris.len(),
        n <= u32::MAX + 1,
    ensures
        side_owner(tris, arc, n) matches Some(p) ==> p.0 < n && p.1 < 3 && side(tris[p.0 as int], p.1 as int) == arc,
    decreases n,
{
    if n > 0 {
        lemma_side_owner(tris, arc, n - 1);
    }
}

/// Whether the entry names face `f`.
pub open spec fn names_face(o: Option<(u32, u8)>, f: u32) -> bool {
    o matches Some(p) && p.0 == f
}

/// The face across a side runs that side the other way: when side `j` of
/// triangle `i` has side `l` of triangle `k` across it, side `l` of `k` is
/// side `j` of `i` reversed.
pub proof fn lemma_opposite_reverses(tris: Seq<(u32, u32, u32)>, i: int, j: int)
    requires
        0 <= i < tris.len(),
        0 <= j < 3,
        tris.len() <= u32::MAX,
    ensures
        opposite(tris, i, j) matches Some(p) ==> {
            &&& p.0 < tris.len()
            &&& p.1 < 3
            &&& side(tris[p.0 as int], p.1 as int) == (side(tris[i], j).1, side(tris[i], j).0)
        },
{
    let s = side(tris[i], j);
    lemma_side_owner(tris, (s.1, s.0), tris.len() as int);
}

/// The number standing for a face and side in the side table.
pub open spec fn entry_code(p: (u32, u8)) -> u64 {
    (p.0 * 3 + p.1) as u64
}

impl<D> MizuMesh<D> {
    /// The faces, by the indices of their vertices.
    pub closed spec fn tris(self) -> Seq<(u32, u32, u32)> {
        face_tris(self.faces@)
    }

    /// The data of the vertices.
    pub closed spec fn vdata(self) -> Seq<D> {
        self.vertices@.map_values(|v: Vertex<D>| v@)
    }

    /// The faces fit `u32` indices, their corners are vertices, and the
    /// table of opposites is that of the faces.
    pub closed spec fn wf(self) -> bool {
        &&& self.faces.len() <= u32::MAX
        &&& corners_below(self.tris(), self.vertices.len() as int)
        &&& opposites_of(self.tris(), self.opposites@)
    }

    /// A well-formed mesh has at most `u32::MAX` faces, each with its
    /// corners among the vertices.
    pub proof fn lemma_wf(self)
        requires
            self.wf(),
        ensures
            self.tris().len() <= u32::MAX,
            corners_below(self.tris(), self.vdata().len() as int),
    {
    }

    /// Replaces the faces, rebuilding the table of opposites.
    pub(crate) fn set_faces(&mut self, faces: Vec<Face>)
        requires
            faces@.len() <= u32::MAX,
            corners_below(face_tris(faces@), old(self).vdata().len() as int),
        ensures
            final(self).wf(),
            final(self).tris() == face_tris(faces@),
            final(self).vdata() == old(self).vdata(),
    {
        self.opposites = build_opposites(&faces);
        self.faces = faces;
    }

    /// Replaces the vertices and the faces, rebuilding the table of
    /// opposites.
    pub(crate) fn set_vertices_and_faces(&mut self, vertices: Vec<Vertex<D>>, faces: Vec<Face>)
        requires
            faces@.len() <= u32::MAX,
            corners_below(face_tris(faces@), vertices@.len() as int),
        ensures
            final(self).wf(),
            final(self).tris() == face_tris(faces@),
            final(self).vdata() == vertices@.map_values(|v: Vertex<D>| v@),
    {
        self.opposites = build_opposites(&faces);
        self.faces = faces;
        self.vertices = vertices;
    }

    /// Returns a reference to the vertex at the given index.
    pub fn vertex(&self, index: u32) -> (r: &Vertex<D>)
        requires
            index < self.vdata().len(),
        ensures
            r@ == self.vdata()[index as int],
    {
        &self.vertices[index as usize]
    }

    /// Returns a reference to the face at the given index.
    pub fn face(&self, index: u32) -> (r: &Face)
        requires
            index < self.tris().len(),
        ensures
            r@ == self.tris()[index as int],
    {
        &self.faces[index as usize]
    }

    /// The number of faces.
    pub fn face_count(&self) -> (n: usize)
        ensures
            n == self.tris().len(),
    {
        self.faces.len()
    }

    /// Returns the neighbors of a face: for each of its sides, the face and
    /// side across it, if any.
    pub fn neighbors(&self, index: u32) -> (r: [Option<(u32, u8)>; 3])
        requires
            self.wf(),
            index < self.tris().len(),
        ensures
            forall|j: int| 0 <= j < 3 ==> #[trigger] r[j] == opposite(self.tris(), index as int, j),
    {
        let r = self.opposites[index as usize];
        assert(forall|j: int| 0 <= j < 3 ==> #[trigger] r[j] == self.opposites@[index as int][j]);
        r
    }

    /// Returns true if the face at the given index neighbors the face at the
    /// given test index.
    pub fn neighbors_contain(&self, index: u32, test: u32) -> (b: bool)
        requires
            self.wf(),
            index < self.tris().len(),
        ensures
            b == exists|j: int| 0 <= j < 3 && names_face(#[trigger] opposite(self.tris(), index as int, j), test),
    {
        let n = self.neighbors(index);
        let mut j: usize = 0;
        while j < 3
            invariant
                j <= 3,
                forall|k: int| 0 <= k < 3 ==> #[trigger] n[k] == opposite(self.tris(), index as int, k),
                forall|k: int| 0 <= k < j ==> !names_face(#[trigger] n[k], test),
            decreases 3 - j,
        {
            if let Some(p) = n[j] {
                if p.0 == test {
                    assert(names_face(opposite(self.tris(), index as int, j as int), test));
                    return true;
                }
            }
            j = j + 1;
        }
        assert forall|k: int| 0 <= k < 3 implies !names_face(opposite(self.tris(), index as int, k), test) by {
            assert(n[k] == opposite(self.tris(), index as int, k));
        }
        false
    }

    /// Returns true if the face at the given index neighbors any of the faces
    /// at the test indices.
    pub fn neighbors_contain_any(&self, index: u32, tested: &[u32]) -> (b: bool)
        requires
            self.wf(),
            index < self.tris().len(),
        ensures
            b == exists|j: int, k: int|
                0 <= j < 3 && 0 <= k < tested@.len() && names_face(
                    #[trigger] opposite(self.tris(), index as int, j),
                    #[trigger] tested@[k],
                ),
    {
        let n = self.neighbors(index);
        let mut j: usize = 0;
        while j < 3
            invariant
                j <= 3,
                forall|k: int| 0 <= k < 3 ==> #[trigger] n[k] == opposite(self.tris(), index as int, k),
                forall|jj: int, k: int|
                    0 <= jj < j && 0 <= k < tested@.len() ==> !names_face(#[trigger] n[jj], #[trigger] tested@[k]),
            decreases 3 - j,
        {
            if let Some(p) = n[j] {
                let mut k: usize = 0;
                while k < tested.len()
                    invariant
                        k <= tested@.len(),
                        j < 3,
                        n[j as int] == Some(p),
                        n[j as int] == opposite(self.tris(), index as int, j as int),
                        forall|kk: int| 0 <= kk < k ==> #[trigger] tested@[kk] != p.0,
                    decreases tested@.len() - k,
                {
                    if tested[k] == p.0 {
                        assert(names_face(opposite(self.tris(), index as int, j as int), tested@[k as int]));
                        return true;
                    }
                    k = k + 1;
                }
            }
            j = j + 1;
        }
        assert forall|jj: int, k: int| 0 <= jj < 3 && 0 <= k < tested@.len() implies !names_face(
            opposite(self.tris(), index as int, jj),
            tested@[k],
        ) by {
            assert(n[jj] == opposite(self.tris(), index as int, jj));
        }
        false
    }

    /// Creates a new face from vertex indices, without adding it to the mesh.
    pub fn create_face(&self, vertex_0: u32, vertex_1: u32, vertex_2: u32) -> (f: Face)
        ensures
            f@ == (vertex_0, vertex_1, vertex_2),
    {
        Face::new([vertex_0, vertex_1, vertex_2])
    }

    /// Returns the faces and sides across the sides of each face.
    pub fn opposites(&self) -> (r: &[[Option<(u32, u8)>; 3]])
        requires
            self.wf(),
        ensures
            opposites_of(self.tris(), r@),
    {
        self.opposites.as_slice()
    }
}

/// A triangle given as an array of three vertex indices.
pub open spec fn array_tri(t: [u32; 3]) -> (u32, u32, u32) {
    (t[0], t[1], t[2])
}

impl<D: Clone> MizuMesh<D> {
    /// Creates a mesh from vertex data and faces given by vertex indices.
    pub fn from_buffers(vertices: &[D], faces: &[[u32; 3]]) -> (m: Self)
        requires
            faces@.len() <= u32::MAX,
            forall|i: int, k: int| 0 <= i < faces@.len() && 0 <= k < 3 ==> #[trigger] faces@[i][k] < vertices@.len(),
        ensures
            m.wf(),
            m.tris() == faces@.map_values(|t: [u32; 3]| array_tri(t)),
            m.vdata().len() == vertices@.len(),
            forall|k: int| 0 <= k < vertices@.len() ==> cloned(vertices@[k], #[trigger] m.vdata()[k]),
    {
        let mut vs: Vec<Vertex<D>> = Vec::new();
        let mut k: usize = 0;
        while k < vertices.len()
            invariant
                k <= vertices@.len(),
                vs.len() == k,
                forall|kk: int| 0 <= kk < k ==> cloned(vertices@[kk], #[trigger] vs@[kk]@),
            decreases vertices@.len() - k,
        {
            vs.push(Vertex::new(vertices[k].clone()));
            k = k + 1;
        }
        let mut fs: Vec<Face> = Vec::new();
        let mut i: usize = 0;
        while i < faces.len()
            invariant
                i <= faces@.len(),
                fs.len() == i,
                forall|ii: int| 0 <= ii < i ==> (#[trigger] fs@[ii])@ == array_tri(faces@[ii]),
            decreases faces@.len() - i,
        {
            fs.push(Face::new(faces[i]));
            i = i + 1;
        }
        let opposites = build_opposites(&fs);
        let m = MizuMesh { vertices: vs, faces: fs, opposites };
        proof {
            assert(m.tris() =~= faces@.map_values(|t: [u32; 3]| array_tri(t)));
            assert forall|i: int, k: int| 0 <= i < m.tris().len() && 0 <= k < 3 implies #[trigger] corner(m.tris()[i], k) < m.vertices.len() by {
                assert(faces@[i][k] < vertices@.len());
            }
        }
        m
    }

    /// Builds buffers from the mesh: the vertex data and the faces by vertex
    /// indices.
    pub fn to_buffers(&self) -> (r: (Vec<D>, Vec<[u32; 3]>))
        ensures
            r.0@.len() == self.vdata().len(),
            forall|k: int| 0 <= k < self.vdata().len() ==> cloned(self.vdata()[k], #[trigger] r.0@[k]),
            r.1@.map_values(|t: [u32; 3]| array_tri(t)) == self.tris(),
    {
        let mut vs: Vec<D> = Vec::new();
        let mut k: usize = 0;
        while k < self.vertices.len()
            invariant
                k <= self.vertices@.len(),
                vs.len() == k,
                forall|kk: int| 0 <= kk < k ==> cloned(self.vdata()[kk], #[trigger] vs@[kk]),
            decreases self.vertices@.len() - k,
        {
            vs.push(self.vertices[k].data().clone());
            k = k + 1;
        }
        let mut fs: Vec<[u32; 3]> = Vec::new();
        let mut i: usize = 0;
        while i < self.faces.len()
            invariant
                i <= self.faces@.len(),
                fs.len() == i,
                forall|ii: int| 0 <= ii < i ==> array_tri(#[trigger] fs@[ii]) == self.tris()[ii],
            decreases self.faces@.len() - i,
        {
            fs.push(*self.faces[i].vertices());
            i = i + 1;
        }
        assert(fs@.map_values(|t: [u32; 3]| array_tri(t)) =~= self.tris());
        (vs, fs)
    }
}

/// The face and side across the side run from `a` to `b`, looked up in a
/// side table of the first `n` triangles.
fn look_up_side(arcs: &PairMap, a: u32, b: u32, Ghost(tris): Ghost<Seq<(u32, u32, u32)>>, Ghost(n): Ghost<int>) -> (r: Option<(u32, u8)>)
    requires
        n <= tris.len(),
        n <= u32::MAX,
        pair_map_contents(*arcs).dom().contains((a as u64, b as u64)) == (side_owner(tris, (a, b), n) is Some),
        side_owner(tris, (a, b), n) is Some ==> pair_map_contents(*arcs)[(a as u64, b as u64)] == entry_code(
            side_owner(tris, (a, b), n)->0,
        ),
    ensures
        r == side_owner(tris, (a, b), n),
{
    proof {
        lemma_side_owner(tris, (a, b), n);
    }
    match arcs.get((a as u64, b as u64)) {
        Some(code) => {
            let ghost p = side_owner(tris, (a, b), n)->0;
            proof {
                lemma_fundamental_div_mod_converse(code as int, 3, p.0 as int, p.1 as int);
            }
            Some(((code / 3) as u32, (code % 3) as u8))
        },
        None => None,
    }
}

/// Builds the table of the faces and sides across the sides of each face.
pub fn build_opposites(faces: &Vec<Face>) -> (r: Vec<[Option<(u32, u8)>; 3]>)
    requires
        faces.len() <= u32::MAX,
    ensures
        opposites_of(face_tris(faces@), r@),
{
    let ghost tris = face_tris(faces@);
    let mut arcs = PairMap::new();
    let mut i: usize = 0;
    while i < faces.len()
        invariant
            i <= faces.len(),
            faces.len() <= u32::MAX,
            tris == face_tris(faces@),
            forall|a: u32, b: u32|
                #[trigger] pair_map_contents(arcs).dom().contains((a as u64, b as u64)) == (side_owner(
                    tris,
                    (a, b),
                    i as int,
                ) is Some),
            forall|a: u32, b: u32|
                side_owner(tris, (a, b), i as int) is Some ==> #[trigger] pair_map_contents(arcs)[(a as u64, b as u64)]
                    == entry_code(side_owner(tris, (a, b), i as int)->0),
        decreases faces.len() - i,
    {
        let pairs = faces[i].pairs();
        let base: u64 = (i as u64) * 3;
        let ghost before = pair_map_contents(arcs);
        arcs.insert((pairs[0].0 as u64, pairs[0].1 as u64), base);
        arcs.insert((pairs[1].0 as u64, pairs[1].1 as u64), base + 1);
        arcs.insert((pairs[2].0 as u64, pairs[2].1 as u64), base + 2);
        proof {
            assert(tris[i as int] == faces@[i as int]@);
            assert forall|a: u32, b: u32|
                #[trigger] pair_map_contents(arcs).dom().contains((a as u64, b as u64)) == (side_owner(
                    tris,
                    (a, b),
                    i + 1,
                ) is Some) && (side_owner(tris, (a, b), i + 1) is Some ==> pair_map_contents(arcs)[(a as u64, b as u64)]
                    == entry_code(side_owner(tris, (a, b), i + 1)->0)) by {
                if (a, b) == pairs[2] {
                } else if (a, b) == pairs[1] {
                } else if (a, b) == pairs[0] {
                } else {
                    assert((a as u64, b as u64) != (pairs[2].0 as u64, pairs[2].1 as u64));
                    assert((a as u64, b as u64) != (pairs[1].0 as u64, pairs[1].1 as u64));
                    assert((a as u64, b as u64) != (pairs[0].0 as u64, pairs[0].1 as u64));
                }
            }
        }
        i = i + 1;
    }
    let mut r: Vec<[Option<(u32, u8)>; 3]> = Vec::new();
    let mut i: usize = 0;
    while i < faces.len()
        invariant
            i <= faces.len(),
            faces.len() <= u32::MAX,
            tris == face_tris(faces@),
            r.len() == i,
            forall|a: u32, b: u32|
                #[trigger] pair_map_contents(arcs).dom().contains((a as u64, b as u64)) == (side_owner(
                    tris,
                    (a, b),
                    tris.len() as int,
                ) is Some),
            forall|a: u32, b: u32|
                side_owner(tris, (a, b), tris.len() as int) is Some ==> #[trigger] pair_map_contents(arcs)[(
                    a as u64,
                    b as u64,
                )] == entry_code(side_owner(tris, (a, b), tris.len() as int)->0),
            forall|ii: int, j: int| 0 <= ii < i && 0 <= j < 3 ==> #[trigger] r@[ii][j] == opposite(tris, ii, j),
        decreases faces.len() - i,
    {
        let pairs = faces[i].pairs();
        let o0 = look_up_side(&arcs, pairs[0].1, pairs[0].0, Ghost(tris), Ghost(tris.len() as int));
        let o1 = look_up_side(&arcs, pairs[1].1, pairs[1].0, Ghost(tris), Ghost(tris.len() as int));
        let o2 = look_up_side(&arcs, pairs[2].1, pairs[2].0, Ghost(tris), Ghost(tris.len() as int));
        let entry = [o0, o1, o2];
        r.push(entry);
        proof {
            assert(tris[i as int] == faces@[i as int]@);
            assert forall|ii: int, j: int| 0 <= ii < i + 1 && 0 <= j < 3 implies #[trigger] r@[ii][j] == opposite(tris, ii, j) by {
                if ii == i {
                    assert(r@[ii] == entry);
                }
            }
        }
        i = i + 1;
    }
    r
}

/// Building a Mizu mesh from buffers and reading it back gives the same
/// index triples, in order, and a clone of a clone of each vertex's data,
/// in order.
pub proof fn lemma_mizu_buffers_roundtrip<D: Clone>(
    vertices: Seq<D>,
    faces: Seq<[u32; 3]>,
    m: MizuMesh<D>,
    out_vertices: Seq<D>,
    out_faces: Seq<[u32; 3]>,
)
    requires
        m.tris() == faces.map_values(|t: [u32; 3]| array_tri(t)),
        m.vdata().len() == vertices.len(),
        forall|k: int| 0 <= k < vertices.len() ==> cloned(vertices[k], #[trigger] m.vdata()[k]),
        out_vertices.len() == m.vdata().len(),
        forall|k: int| 0 <= k < m.vdata().len() ==> cloned(m.vdata()[k], #[trigger] out_vertices[k]),
        out_faces.map_values(|t: [u32; 3]| array_tri(t)) == m.tris(),
    ensures
        out_faces == faces,
        out_vertices.len() == vertices.len(),
        forall|k: int| 0 <= k < vertices.len() ==> cloned_twice(vertices[k], #[trigger] out_vertices[k]),
{
    let mapped_in = faces.map_values(|t: [u32; 3]| array_tri(t));
    let mapped_out = out_faces.map_values(|t: [u32; 3]| array_tri(t));
    assert(mapped_in.len() == faces.len() && mapped_out.len() == out_faces.len());
    assert forall|i: int| 0 <= i < faces.len() implies #[trigger] out_faces[i] == faces[i] by {
        assert(mapped_in[i] == mapped_out[i]);
        assert(out_faces[i] =~= faces[i]);
    }
    assert(out_faces =~= faces);
    assert forall|k: int| 0 <= k < vertices.len() implies cloned_twice(vertices[k], #[trigger] out_vertices[k]) by {
        assert(cloned(vertices[k], m.vdata()[k]));
        assert(cloned(m.vdata()[k], out_vertices[k]));
    }
}

} // verus!
