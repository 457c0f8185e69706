//! Mesh simplification over vertex and triangle buffers.
use vstd::prelude::*;

use crate::mizu::mesh::{array_tri, MizuMesh};
use crate::mizu::simplify::{lemma_sides_distinct, sides_distinct, simplified};

verus! {

/// Simplifies a mesh by merging coplanar faces. The mesh, given by vertex
/// data and triangles (by vertex index), is built as a Mizu mesh, simplified
/// with the given tests of coplanar faces and collinear corners, and read
/// back as buffers.
pub fn simplify_mesh<V: Clone, C, L>(
    vertices: Vec<V>,
    triangles: Vec<[u32; 3]>,
    coplanar: &C,
    collinear: &L,
) -> (r: (Vec<V>, Vec<[u32; 3]>)) where
    C: Fn(&MizuMesh<V>, u32, u32) -> bool,
    L: Fn(&MizuMesh<V>, u32, u32, u32) -> bool,

    requires
        triangles@.len() <= u32::MAX,
        forall|i: int, k: int| 0 <= i < triangles@.len() && 0 <= k < 3 ==> #[trigger] triangles@[i][k] < vertices@.len(),
        forall|m: &MizuMesh<V>, a: u32, b: u32| coplanar.requires((m, a, b)),
        forall|m: &MizuMesh<V>, a: u32, b: u32, c: u32| collinear.requires((m, a, b, c)),
        sides_distinct(triangles@.map_values(|t: [u32; 3]| array_tri(t))),
    ensures
        exists|before: MizuMesh<V>, after: MizuMesh<V>|
            {
                &&& before.wf()
                &&& before.tris() == triangles@.map_values(|t: [u32; 3]| array_tri(t))
                &&& before.vdata().len() == vertices@.len()
                &&& forall|k: int| 0 <= k < vertices@.len() ==> cloned(vertices@[k], #[trigger] before.vdata()[k])
                &&& #[trigger] simplified(before, *coplanar, *collinear, after)
                &&& r.0@.len() == after.vdata().len()
                &&& forall|k: int| 0 <= k < after.vdata().len() ==> cloned(after.vdata()[k], #[trigger] r.0@[k])
                &&& r.1@.map_values(|t: [u32; 3]| array_tri(t)) == after.tris()
            },
{
    let mut mizu = MizuMesh::from_buffers(vertices.as_slice(), triangles.as_slice());
    let ghost before = mizu;
    proof {
        lemma_sides_distinct(mizu, *coplanar);
    }
    mizu.simplify(coplanar, collinear);
    let (out_vertices, faces) = mizu.to_buffers();
    assert(simplified(before, *coplanar, *collinear, mizu));
    (out_vertices, faces)
}

} // verus!
