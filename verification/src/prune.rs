//! Pruning the triangles of a mesh that touch given vertices.
use vstd::prelude::*;

verus! {

/// Whether a corner of triangle `t` is one of the vertices `excluded`, each
/// taken as a `u32`.
pub open spec fn touches(t: [u32; 3], excluded: Seq<usize>) -> bool {
    exists|i: int, c: int| 0 <= i < excluded.len() && 0 <= c < 3 && #[trigger] t[c] == (#[trigger] excluded[i]) as u32
}

/// Whether some corner of triangle `t` is vertex `v`.
fn has_corner(t: [u32; 3], v: u32) -> (b: bool)
    ensures
        b == exists|c: int| 0 <= c < 3 && t[c] == v,
{
    t[0] == v || t[1] == v || t[2] == v
}

/// Keeps, in order, the triangles none of whose corners is one of the
/// vertices `excluded` (each compared as a `u32`).
pub fn prune_triangles(triangles: &[[u32; 3]], excluded: &[usize]) -> (r: Vec<[u32; 3]>)
    ensures
        r@ == triangles@.filter(|t: [u32; 3]| !touches(t, excluded@)),
{
    let ghost keep = |t: [u32; 3]| !touches(t, excluded@);
    let mut kept: Vec<[u32; 3]> = Vec::new();
    let mut i: usize = 0;
    while i < triangles.len()
        invariant
            i <= triangles@.len(),
            keep == (|t: [u32; 3]| !touches(t, excluded@)),
            kept@ == triangles@.take(i as int).filter(keep),
        decreases triangles@.len() - i,
    {
        let t = triangles[i];
        let mut hit = false;
        let mut j: usize = 0;
        while j < excluded.len()
            invariant
                j <= excluded@.len(),
                hit == exists|jj: int, c: int| 0 <= jj < j && 0 <= c < 3 && #[trigger] t[c] == (#[trigger] excluded@[jj]) as u32,
            decreases excluded@.len() - j,
        {
            #[verifier::truncate]
            let v = excluded[j] as u32;
            if has_corner(t, v) {
                hit = true;
            }
            j = j + 1;
        }
        proof {
            assert(hit == touches(t, excluded@));
            reveal(Seq::filter);
            assert(triangles@.take(i + 1).drop_last() =~= triangles@.take(i as int));
            assert(triangles@.take(i + 1).last() == t);
        }
        if !hit {
            kept.push(t);
        }
        i = i + 1;
    }
    assert(triangles@.take(triangles@.len() as int) =~= triangles@);
    kept
}

} // verus!
