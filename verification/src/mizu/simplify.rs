//! Simplification of a Mizu mesh: finding groups of coplanar faces that fewer
//! faces can cover, and replacing them.
use vstd::prelude::*;

use super::face::{corner, side, Face, Vertex};
use super::mesh::{build_opposites, corners_below, face_tris, lemma_side_owner, names_face, opposite, MizuMesh};
use crate::hash_tables::{id_map_contents, id_set_contents, IdMap, IdSet};

verus! {

/// A triangle by the indices of its three vertices.
pub type Tri = (u32, u32, u32);

/// Faces to remove from a mesh, and faces to add in their place.
pub struct SimplificationCandidate {
    /// The indices of the faces to remove.
    pub faces_to_remove: Vec<u32>,
    /// The faces to add.
    pub new_faces: Vec<Face>,
}

/// A candidate as the face indices it removes and the triangles it adds.
pub open spec fn candidate_view(c: SimplificationCandidate) -> (Seq<u32>, Seq<Tri>) {
    (c.faces_to_remove@, face_tris(c.new_faces@))
}

/// A candidate, if any, as the face indices it removes and the triangles it
/// adds.
pub open spec fn option_view(c: Option<SimplificationCandidate>) -> Option<(Seq<u32>, Seq<Tri>)> {
    match c {
        Some(c) => Some(candidate_view(c)),
        None => None,
    }
}

/// The values held by the `Some` entries of `os`, in order.
pub open spec fn somes<A>(os: Seq<Option<A>>) -> Seq<A>
    decreases os.len(),
{
    if os.len() == 0 {
        Seq::empty()
    } else {
        let rest = somes(os.drop_last());
        match os.last() {
            Some(a) => rest.push(a),
            None => rest,
        }
    }
}

/// Whether four vertex indices are pairwise distinct.
pub open spec fn distinct4(v: (u32, u32, u32, u32)) -> bool {
    v.0 != v.1 && v.0 != v.2 && v.0 != v.3 && v.1 != v.2 && v.1 != v.3 && v.2 != v.3
}

/// Around side `s` of face `i` and side `s2` of face `t2` across it: the
/// corner of `i` off the side, the side's start, the start of the side
/// across, and the corner of `t2` off that side.
pub open spec fn third_form_corners(tris: Seq<Tri>, i: int, s: int, t2: int, s2: int) -> (u32, u32, u32, u32) {
    (corner(tris[i], (s + 2) % 3), corner(tris[i], s), corner(tris[t2], s2), corner(tris[t2], (s2 + 2) % 3))
}

/// What the search for a two-face simplification at side `s` of face `i`
/// may give, for the outcomes that the coplanarity and collinearity tests
/// can have: where a face lies across the side, is coplanar with `i`, and
/// the corners `A, B, D` (or else `A, C, D`) are collinear, the two faces are
/// replaced by `A, D, C` (or by `A, B, D`); otherwise nothing.
pub open spec fn third_form_outcome<D, C, L>(
    m: MizuMesh<D>,
    coplanar: C,
    collinear: L,
    i: u32,
    s: int,
    o: Option<(Seq<u32>, Seq<Tri>)>,
) -> bool where C: Fn(&MizuMesh<D>, u32, u32) -> bool, L: Fn(&MizuMesh<D>, u32, u32, u32) -> bool {
    let tris = m.tris();
    match opposite(tris, i as int, s) {
        None => o is None,
        Some(p) => {
            let t2 = p.0;
            let v = third_form_corners(tris, i as int, s, p.0 as int, p.1 as int);
            let (a, b, c, d) = v;
            match o {
                Some(cand) => {
                    &&& call_ensures(coplanar, (&m, i, t2), true)
                    &&& {
                        ||| call_ensures(collinear, (&m, a, b, d), true) && cand == (seq![i, t2], seq![(a, d, c)])
                        ||| call_ensures(collinear, (&m, a, b, d), false) && call_ensures(collinear, (&m, a, c, d), true)
                            && cand == (seq![i, t2], seq![(a, b, d)])
                    }
                },
                None => {
                    ||| call_ensures(coplanar, (&m, i, t2), false)
                    ||| call_ensures(collinear, (&m, a, b, d), false) && call_ensures(collinear, (&m, a, c, d), false)
                },
            }
        },
    }
}

/// The directed sides of a triangle.
pub open spec fn tri_sides(t: Tri) -> Set<(u32, u32)> {
    set![(t.0, t.1), (t.1, t.2), (t.2, t.0)]
}

/// The boundary of two triangles: the directed sides of either whose
/// reverse is a side of neither.
pub open spec fn pair_boundary(t1: Tri, t2: Tri) -> Set<(u32, u32)> {
    let all = tri_sides(t1).union(tri_sides(t2));
    all.filter(|e: (u32, u32)| !all.contains((e.1, e.0)))
}

/// Whether triangle `n` covers exactly the two triangles `t1` and `t2`:
/// splitting its side from `p` to `q` at `mid`, which is no corner of `n`,
/// gives their boundary.
pub open spec fn covers_pair(t1: Tri, t2: Tri, n: Tri, p: u32, mid: u32, q: u32) -> bool {
    &&& tri_sides(n).contains((p, q))
    &&& mid != n.0 && mid != n.1 && mid != n.2
    &&& pair_boundary(t1, t2) == tri_sides(n).remove((p, q)).insert((p, mid)).insert((mid, q))
}

/// The sides of a triangle, listed from any corner.
proof fn lemma_tri_sides_from(t: Tri, s: int)
    requires
        0 <= s < 3,
    ensures
        tri_sides(t) == set![
            (corner(t, s), corner(t, (s + 1) % 3)),
            (corner(t, (s + 1) % 3), corner(t, (s + 2) % 3)),
            (corner(t, (s + 2) % 3), corner(t, s)),
        ],
{
    if s == 0 {
        assert(tri_sides(t) =~= set![(t.0, t.1), (t.1, t.2), (t.2, t.0)]);
    } else if s == 1 {
        assert(tri_sides(t) =~= set![(t.1, t.2), (t.2, t.0), (t.0, t.1)]);
    } else {
        assert(tri_sides(t) =~= set![(t.2, t.0), (t.0, t.1), (t.1, t.2)]);
    }
}

/// The boundary of the triangles `(a, b, c)` and `(c, b, d)`, sharing the
/// side between `b` and `c`, with four distinct corners.
proof fn lemma_quad_boundary(a: u32, b: u32, c: u32, d: u32)
    requires
        distinct4((a, b, c, d)),
    ensures
        pair_boundary((a, b, c), (c, b, d)) == set![(a, b), (b, d), (d, c), (c, a)],
{
    let all = tri_sides((a, b, c)).union(tri_sides((c, b, d)));
    assert(all =~= set![(a, b), (b, c), (c, a), (c, b), (b, d), (d, c)]);
    assert(pair_boundary((a, b, c), (c, b, d)) =~= set![(a, b), (b, d), (d, c), (c, a)]);
}

/// A two-face replacement found at side `s` of face `i` takes out `i` and
/// the face across that side, which the coplanarity test called coplanar
/// with `i`, and puts in one triangle covering exactly the two: splitting one
/// of its sides at a corner the collinearity test put on that side, between
/// its ends, gives the two faces' boundary.
pub proof fn lemma_third_form_covers<D, C, L>(
    m: MizuMesh<D>,
    coplanar: C,
    collinear: L,
    i: u32,
    s: int,
    cand: (Seq<u32>, Seq<Tri>),
) where C: Fn(&MizuMesh<D>, u32, u32) -> bool, L: Fn(&MizuMesh<D>, u32, u32, u32) -> bool
    requires
        m.wf(),
        i < m.tris().len(),
        0 <= s < 3,
        third_form_distinct(m, coplanar, i),
        third_form_outcome(m, coplanar, collinear, i, s, Some(cand)),
    ensures
        ({
            let tris = m.tris();
            let t2 = cand.0[1];
            &&& cand.0.len() == 2
            &&& cand.0[0] == i
            &&& opposite(tris, i as int, s) matches Some(p) && p.0 == t2
            &&& call_ensures(coplanar, (&m, i, t2), true)
            &&& cand.1.len() == 1
            &&& exists|p: u32, mid: u32, q: u32|
                {
                    &&& #[trigger] covers_pair(tris[i as int], tris[t2 as int], cand.1[0], p, mid, q)
                    &&& call_ensures(collinear, (&m, p, mid, q), true) || call_ensures(collinear, (&m, q, mid, p), true)
                }
        }),
{
    let tris = m.tris();
    m.lemma_wf();
    super::mesh::lemma_opposite_reverses(tris, i as int, s);
    let pp = opposite(tris, i as int, s)->0;
    let t2 = pp.0;
    let s2 = pp.1 as int;
    let (a, b, c, d) = third_form_corners(tris, i as int, s, t2 as int, s2);
    assert(distinct4((a, b, c, d)));
    let ti = tris[i as int];
    let tt = tris[t2 as int];
    // face `i` runs a, b, c and the face across runs c, b, d
    lemma_tri_sides_from(ti, (s + 2) % 3);
    lemma_tri_sides_from(tt, s2);
    assert(corner(ti, s) == b);
    assert(corner(ti, (s + 1) % 3) == side(ti, s).1);
    assert(tt.0 == corner(tt, 0) && tt.1 == corner(tt, 1) && tt.2 == corner(tt, 2));
    assert(ti.0 == corner(ti, 0) && ti.1 == corner(ti, 1) && ti.2 == corner(ti, 2));
    assert(side(tt, s2) == (side(ti, s).1, side(ti, s).0));
    let cc = side(ti, s).1;
    assert(corner(tt, s2) == c);
    assert(cc == c);
    assert(corner(tt, (s2 + 1) % 3) == b);
    assert(((s + 2) % 3 + 1) % 3 == s && ((s + 2) % 3 + 2) % 3 == (s + 1) % 3);
    assert(tri_sides(ti) == tri_sides((a, b, c)));
    assert(tri_sides(tt) == tri_sides((c, b, d)));
    assert(pair_boundary(ti, tt) == pair_boundary((a, b, c), (c, b, d)));
    lemma_quad_boundary(a, b, c, d);
    let n = cand.1[0];
    if call_ensures(collinear, (&m, a, b, d), true) && cand == (seq![i, t2], seq![(a, d, c)]) {
        assert(n == (a, d, c));
        assert(tri_sides(n).remove((a, d)).insert((a, b)).insert((b, d)) =~= set![(a, b), (b, d), (d, c), (c, a)]);
        assert(covers_pair(ti, tt, n, a, b, d));
    } else {
        assert(n == (a, b, d));
        assert(tri_sides(n).remove((d, a)).insert((d, c)).insert((c, a)) =~= set![(a, b), (b, d), (d, c), (c, a)]);
        assert(covers_pair(ti, tt, n, d, c, a));
    }
}

/// Whether, at each side of face `i` with a face across it that the
/// coplanarity test can call coplanar with `i`, the four corners around the
/// side are distinct.
pub open spec fn third_form_distinct<D, C>(m: MizuMesh<D>, coplanar: C, i: u32) -> bool where C: Fn(&MizuMesh<D>, u32, u32) -> bool {
    forall|s: int|
        0 <= s < 3 ==> match #[trigger] opposite(m.tris(), i as int, s) {
            Some(p) => call_ensures(coplanar, (&m, i, p.0), true) ==> distinct4(
                third_form_corners(m.tris(), i as int, s, p.0 as int, p.1 as int),
            ),
            None => true,
        }
}

/// The faces met crossing side `s` of face `i`, then the side before the
/// one crossed into, then the side after the one crossed into: the second,
/// third and fourth faces and the side by which the fourth was entered.
pub open spec fn second_form_chain(tris: Seq<Tri>, i: int, s: int) -> Option<(u32, u32, u32, u8)> {
    match opposite(tris, i, s) {
        None => None,
        Some(p2) => match opposite(tris, p2.0 as int, (p2.1 + 2) % 3) {
            None => None,
            Some(p3) => match opposite(tris, p3.0 as int, (p3.1 + 1) % 3) {
                None => None,
                Some(p4) => Some((p2.0, p3.0, p4.0, p4.1)),
            },
        },
    }
}

/// Whether face `i` has any of the faces `fs` across one of its sides.
pub open spec fn neighbors_any(tris: Seq<Tri>, i: int, fs: Seq<u32>) -> bool {
    exists|j: int, k: int| 0 <= j < 3 && 0 <= k < fs.len() && names_face(#[trigger] opposite(tris, i, j), #[trigger] fs[k])
}

/// Whether the four faces of a chain are neighbors only along the chain.
pub open spec fn second_form_apart(tris: Seq<Tri>, t1: u32, t2: u32, t3: u32, t4: u32) -> bool {
    &&& !neighbors_any(tris, t1 as int, seq![t3, t4])
    &&& !neighbors_any(tris, t2 as int, seq![t4])
    &&& !neighbors_any(tris, t3 as int, seq![t1])
    &&& !neighbors_any(tris, t4 as int, seq![t1, t2])
}

/// The corners `A, B, C` of face `i` (off side `s`, then the side's two
/// ends) and `D, E, F` of face `t4` (after the start of side `s4`, that
/// start, and the corner off the side).
pub open spec fn second_form_corners(tris: Seq<Tri>, i: int, s: int, t4: int, s4: int) -> (
    u32,
    u32,
    u32,
    u32,
    u32,
    u32,
) {
    (
        corner(tris[i], (s + 2) % 3),
        corner(tris[i], s),
        corner(tris[i], (s + 1) % 3),
        corner(tris[t4], (s4 + 1) % 3),
        corner(tris[t4], s4),
        corner(tris[t4], (s4 + 2) % 3),
    )
}

/// What the search for a four-face simplification at side `s` of face `i`
/// may give, for the outcomes that the coplanarity and collinearity tests
/// can have: where the chain of four faces exists, all are coplanar with
/// `i`, they neighbor each other only along the chain, and `A, C, E` and
/// `B, D, F` are collinear, the four faces are replaced by `A, B, E` and
/// `E, B, F`; otherwise nothing.
pub open spec fn second_form_outcome<D, C, L>(
    m: MizuMesh<D>,
    coplanar: C,
    collinear: L,
    i: u32,
    s: int,
    o: Option<(Seq<u32>, Seq<Tri>)>,
) -> bool where C: Fn(&MizuMesh<D>, u32, u32) -> bool, L: Fn(&MizuMesh<D>, u32, u32, u32) -> bool {
    let tris = m.tris();
    match second_form_chain(tris, i as int, s) {
        None => o is None,
        Some(ch) => {
            let (t2, t3, t4, s4) = ch;
            let (a, b, c, d, e, f) = second_form_corners(tris, i as int, s, t4 as int, s4 as int);
            match o {
                Some(cand) => {
                    &&& call_ensures(coplanar, (&m, i, t2), true)
                    &&& call_ensures(coplanar, (&m, i, t3), true)
                    &&& call_ensures(coplanar, (&m, i, t4), true)
                    &&& second_form_apart(tris, i, t2, t3, t4)
                    &&& call_ensures(collinear, (&m, a, c, e), true)
                    &&& call_ensures(collinear, (&m, b, d, f), true)
                    &&& cand == (seq![i, t2, t3, t4], seq![(a, b, e), (e, b, f)])
                },
                None => {
                    ||| call_ensures(coplanar, (&m, i, t2), false)
                    ||| call_ensures(coplanar, (&m, i, t3), false)
                    ||| call_ensures(coplanar, (&m, i, t4), false)
                    ||| !second_form_apart(tris, i, t2, t3, t4)
                    ||| call_ensures(collinear, (&m, a, c, e), false)
                    ||| call_ensures(collinear, (&m, b, d, f), false)
                },
            }
        },
    }
}

/// Whether the six values are distinct.
pub open spec fn distinct6(v: (u32, u32, u32, u32, u32, u32)) -> bool {
    let w = seq![v.0, v.1, v.2, v.3, v.4, v.5];
    forall|j: int, k: int| 0 <= j < k < 6 ==> w[j] != w[k]
}

/// The directed sides of the triangles.
pub open spec fn sides_of(ts: Seq<Tri>) -> Set<(u32, u32)>
    decreases ts.len(),
{
    if ts.len() == 0 {
        Set::empty()
    } else {
        sides_of(ts.drop_last()).union(tri_sides(ts.last()))
    }
}

/// The boundary of the triangles: the directed sides of any whose reverse
/// is a side of none.
pub open spec fn boundary(ts: Seq<Tri>) -> Set<(u32, u32)> {
    let all = sides_of(ts);
    all.filter(|e: (u32, u32)| !all.contains((e.1, e.0)))
}

/// `b` with the side from `p` to `q` split at `mid`.
pub open spec fn split_side(b: Set<(u32, u32)>, p: u32, mid: u32, q: u32) -> Set<(u32, u32)> {
    b.remove((p, q)).insert((p, mid)).insert((mid, q))
}

/// A four-face replacement found at side `s` of face `i`, where the six
/// corners around the chain are distinct, takes out `i` and the next three
/// faces of the chain across side `s`, all called coplanar with `i`, and puts
/// in two triangles covering exactly the four: splitting two sides of the
/// two triangles' boundary, each at a corner the collinearity test put on
/// it between its ends, gives the four faces' boundary.
pub proof fn lemma_second_form_covers<D, C, L>(
    m: MizuMesh<D>,
    coplanar: C,
    collinear: L,
    i: u32,
    s: int,
    cand: (Seq<u32>, Seq<Tri>),
) where C: Fn(&MizuMesh<D>, u32, u32) -> bool, L: Fn(&MizuMesh<D>, u32, u32, u32) -> bool
    requires
        m.wf(),
        i < m.tris().len(),
        0 <= s < 3,
        second_form_outcome(m, coplanar, collinear, i, s, Some(cand)),
        second_form_chain(m.tris(), i as int, s) matches Some(ch) && distinct6(
            second_form_corners(m.tris(), i as int, s, ch.2 as int, ch.3 as int),
        ),
    ensures
        ({
            let tris = m.tris();
            &&& cand.0.len() == 4
            &&& cand.0[0] == i
            &&& forall|k: int| 1 <= k < 4 ==> call_ensures(coplanar, (&m, i, #[trigger] cand.0[k]), true)
            &&& cand.1.len() == 2
            &&& exists|p1: u32, m1: u32, q1: u32, p2: u32, m2: u32, q2: u32|
                {
                    &&& boundary(cand.0.map_values(|k: u32| tris[k as int])) == #[trigger] split_side(
                        split_side(boundary(cand.1), p1, m1, q1),
                        p2,
                        m2,
                        q2,
                    )
                    &&& boundary(cand.1).contains((p1, q1))
                    &&& boundary(cand.1).contains((p2, q2))
                    &&& (p1, q1) != (p2, q2)
                    &&& call_ensures(collinear, (&m, p1, m1, q1), true) || call_ensures(collinear, (&m, q1, m1, p1), true)
                    &&& call_ensures(collinear, (&m, p2, m2, q2), true) || call_ensures(collinear, (&m, q2, m2, p2), true)
                }
        }),
{
    let tris = m.tris();
    m.lemma_wf();
    let ch = second_form_chain(tris, i as int, s)->0;
    let p2 = opposite(tris, i as int, s)->0;
    let p3 = opposite(tris, p2.0 as int, (p2.1 + 2) % 3)->0;
    let p4 = opposite(tris, p3.0 as int, (p3.1 + 1) % 3)->0;
    super::mesh::lemma_opposite_reverses(tris, i as int, s);
    super::mesh::lemma_opposite_reverses(tris, p2.0 as int, (p2.1 + 2) % 3);
    super::mesh::lemma_opposite_reverses(tris, p3.0 as int, (p3.1 + 1) % 3);
    let (a, b, c, d, e, f) = second_form_corners(tris, i as int, s, ch.2 as int, ch.3 as int);
    let ti = tris[i as int];
    let t2 = tris[p2.0 as int];
    let t3 = tris[p3.0 as int];
    let t4 = tris[p4.0 as int];
    let s2 = p2.1 as int;
    let s3 = p3.1 as int;
    let s4 = p4.1 as int;
    assert(ch == (p2.0, p3.0, p4.0, p4.1));
    // the four faces run (a, b, c), (c, b, d), (c, d, e) and (e, d, f)
    lemma_tri_sides_from(ti, (s + 2) % 3);
    lemma_tri_sides_from(t2, s2);
    lemma_tri_sides_from(t3, s3);
    lemma_tri_sides_from(t4, s4);
    assert(((s + 2) % 3 + 1) % 3 == s && ((s + 2) % 3 + 2) % 3 == (s + 1) % 3);
    assert(((s2 + 2) % 3 + 1) % 3 == s2);
    assert(corner(t2, s2) == c && corner(t2, (s2 + 1) % 3) == b);
    let x = corner(t2, (s2 + 2) % 3);
    assert(corner(t3, s3) == c && corner(t3, (s3 + 1) % 3) == x);
    let y = corner(t3, (s3 + 2) % 3);
    assert(corner(t4, s4) == y && corner(t4, (s4 + 1) % 3) == x);
    assert(x == d && y == e);
    assert(tri_sides(ti) == tri_sides((a, b, c)));
    assert(tri_sides(t2) == tri_sides((c, b, d)));
    assert(tri_sides(t3) == tri_sides((c, d, e)));
    assert(tri_sides(t4) == tri_sides((e, d, f)));
    assert(distinct6((a, b, c, d, e, f)));
    let w = seq![a, b, c, d, e, f];
    assert(w[0] == a && w[1] == b && w[2] == c && w[3] == d && w[4] == e && w[5] == f);
    assert(a != b && a != c && a != d && a != e && a != f && b != c && b != d && b != e && b != f && c != d && c != e && c
        != f && d != e && d != f && e != f);
    let removed = seq![ti, t2, t3, t4];
    assert(cand.0 == seq![i, p2.0, p3.0, p4.0]);
    assert(cand.0.map_values(|k: u32| tris[k as int]) =~= removed);
    // the boundary of the four faces
    reveal_with_fuel(sides_of, 5);
    assert(removed.drop_last().drop_last().drop_last().drop_last() =~= Seq::<Tri>::empty());
    assert(removed.drop_last().drop_last().drop_last() =~= seq![ti]);
    assert(removed.drop_last().drop_last() =~= seq![ti, t2]);
    assert(removed.drop_last() =~= seq![ti, t2, t3]);
    let all4 = sides_of(removed);
    assert(all4 =~= set![(a, b), (b, c), (c, a), (c, b), (b, d), (d, c), (c, d), (d, e), (e, c), (e, d), (d, f), (f, e)]);
    assert(boundary(removed) =~= set![(a, b), (c, a), (b, d), (e, c), (d, f), (f, e)]);
    // the boundary of the two new triangles
    let added = cand.1;
    assert(added == seq![(a, b, e), (e, b, f)]);
    assert(added.drop_last().drop_last() =~= Seq::<Tri>::empty());
    assert(added.drop_last() =~= seq![(a, b, e)]);
    let all2 = sides_of(added);
    assert(all2 =~= set![(a, b), (b, e), (e, a), (e, b), (b, f), (f, e)]);
    assert(boundary(added) =~= set![(a, b), (e, a), (b, f), (f, e)]);
    assert(split_side(split_side(boundary(added), e, c, a), b, d, f) =~= set![(a, b), (c, a), (b, d), (e, c), (d, f), (f, e)]);
    assert(boundary(removed) == split_side(split_side(boundary(added), e, c, a), b, d, f));
}

/// Whether the search for a four-face simplification found nothing at any
/// side of any face of `m`.
pub open spec fn second_form_free<D, C, L>(m: MizuMesh<D>, coplanar: C, collinear: L) -> bool where
    C: Fn(&MizuMesh<D>, u32, u32) -> bool,
    L: Fn(&MizuMesh<D>, u32, u32, u32) -> bool,
 {
    forall|i: u32, s: int|
        i < m.tris().len() && 0 <= s < 3 ==> #[trigger] second_form_outcome(m, coplanar, collinear, i, s, None)
}

/// Whether `found` is what the two-face search finds at face `i` of `m`:
/// the candidates given by its outcomes at the three sides, in order.
pub open spec fn third_found_at<D, C, L>(m: MizuMesh<D>, coplanar: C, collinear: L, i: u32, found: Seq<(Seq<u32>, Seq<Tri>)>) -> bool where
    C: Fn(&MizuMesh<D>, u32, u32) -> bool,
    L: Fn(&MizuMesh<D>, u32, u32, u32) -> bool,
 {
    exists|os: Seq<Option<(Seq<u32>, Seq<Tri>)>>|
        {
            &&& os.len() == 3
            &&& forall|s: int| 0 <= s < 3 ==> third_form_outcome(m, coplanar, collinear, i, s, #[trigger] os[s])
            &&& found == somes(os)
        }
}

/// Whether `found` is what the four-face search finds at face `i` of `m`:
/// the candidates given by its outcomes at the three sides, in order.
pub open spec fn second_found_at<D, C, L>(m: MizuMesh<D>, coplanar: C, collinear: L, i: u32, found: Seq<(Seq<u32>, Seq<Tri>)>) -> bool where
    C: Fn(&MizuMesh<D>, u32, u32) -> bool,
    L: Fn(&MizuMesh<D>, u32, u32, u32) -> bool,
 {
    exists|os: Seq<Option<(Seq<u32>, Seq<Tri>)>>|
        {
            &&& os.len() == 3
            &&& forall|s: int| 0 <= s < 3 ==> second_form_outcome(m, coplanar, collinear, i, s, #[trigger] os[s])
            &&& found == somes(os)
        }
}

/// Whether `found` is what the two-face search finds over the first `n`
/// faces of `m`, face after face.
pub open spec fn third_found_upto<D, C, L>(m: MizuMesh<D>, coplanar: C, collinear: L, n: int, found: Seq<(Seq<u32>, Seq<Tri>)>) -> bool where
    C: Fn(&MizuMesh<D>, u32, u32) -> bool,
    L: Fn(&MizuMesh<D>, u32, u32, u32) -> bool,
    decreases n,
{
    if n <= 0 {
        found.len() == 0
    } else {
        exists|k: int|
            0 <= k <= found.len() && third_found_upto(m, coplanar, collinear, n - 1, found.take(k)) && #[trigger] third_found_at(
                m,
                coplanar,
                collinear,
                (n - 1) as u32,
                found.skip(k),
            )
    }
}

/// Whether `found` is what the four-face search finds over the first `n`
/// faces of `m`, face after face.
pub open spec fn second_found_upto<D, C, L>(m: MizuMesh<D>, coplanar: C, collinear: L, n: int, found: Seq<(Seq<u32>, Seq<Tri>)>) -> bool where
    C: Fn(&MizuMesh<D>, u32, u32) -> bool,
    L: Fn(&MizuMesh<D>, u32, u32, u32) -> bool,
    decreases n,
{
    if n <= 0 {
        found.len() == 0
    } else {
        exists|k: int|
            0 <= k <= found.len() && second_found_upto(m, coplanar, collinear, n - 1, found.take(k)) && #[trigger] second_found_at(
                m,
                coplanar,
                collinear,
                (n - 1) as u32,
                found.skip(k),
            )
    }
}

/// Whether applying the candidates `cs` to `before` gives `after`: the
/// faces of the candidates taken are removed, the others keep their order,
/// the faces the taken candidates add follow, and the vertices stay.
pub open spec fn applied<D>(before: MizuMesh<D>, cs: Seq<(Seq<u32>, Seq<Tri>)>, after: MizuMesh<D>) -> bool {
    &&& after.vdata() == before.vdata()
    &&& after.tris() == kept(before.tris(), claimed_upto(cs, cs.len() as int), before.tris().len() as int) + added_upto(
        cs,
        cs.len() as int,
    )
}

/// Whether `after` is `before` with only the vertices that some face uses,
/// numbered in the order in which the faces first use them, each a clone of
/// the vertex it stands for, and the faces' corners renumbered to match.
pub open spec fn pruned_from<D: Clone>(before: MizuMesh<D>, after: MizuMesh<D>) -> bool {
    let tris = before.tris();
    let order = first_seen(tri_corners(tris), (3 * tris.len()) as int);
    &&& after.vdata().len() == order.len()
    &&& forall|k: int| 0 <= k < order.len() ==> cloned(before.vdata()[order[k] as int], #[trigger] after.vdata()[k])
    &&& after.tris().len() == tris.len()
    &&& forall|i: int, c: int|
        0 <= i < tris.len() && 0 <= c < 3 ==> #[trigger] corner(after.tris()[i], c) < order.len()
            && order[corner(after.tris()[i], c) as int] == corner(tris[i], c)
}

/// One round of two-face simplification of `before`, giving `after`: the
/// candidates found over all faces are applied, then only the vertices in
/// use are kept.
pub open spec fn third_round<D: Clone, C, L>(before: MizuMesh<D>, coplanar: C, collinear: L, after: MizuMesh<D>) -> bool where
    C: Fn(&MizuMesh<D>, u32, u32) -> bool,
    L: Fn(&MizuMesh<D>, u32, u32, u32) -> bool,
 {
    exists|cs: Seq<(Seq<u32>, Seq<Tri>)>, mid: MizuMesh<D>|
        {
            &&& third_found_upto(before, coplanar, collinear, before.tris().len() as int, cs)
            &&& #[trigger] applied(before, cs, mid)
            &&& pruned_from(mid, after)
        }
}

/// One round of four-face simplification of `before`, giving `after`, in
/// which `taken` candidates were taken: the candidates found over all
/// faces are applied, then only the vertices in use are kept.
pub open spec fn second_round<D: Clone, C, L>(before: MizuMesh<D>, coplanar: C, collinear: L, after: MizuMesh<D>, taken: nat) -> bool where
    C: Fn(&MizuMesh<D>, u32, u32) -> bool,
    L: Fn(&MizuMesh<D>, u32, u32, u32) -> bool,
 {
    exists|cs: Seq<(Seq<u32>, Seq<Tri>)>, mid: MizuMesh<D>|
        {
            &&& second_found_upto(before, coplanar, collinear, before.tris().len() as int, cs)
            &&& #[trigger] applied(before, cs, mid)
            &&& pruned_from(mid, after)
            &&& taken == accepted_upto(cs, cs.len() as int)
        }
}

/// The `j`-th mesh of a trace is the one before it after a round of
/// four-face simplification that took some candidate.
pub open spec fn merged_round<D: Clone, C, L>(trace: Seq<MizuMesh<D>>, coplanar: C, collinear: L, j: int) -> bool where
    C: Fn(&MizuMesh<D>, u32, u32) -> bool,
    L: Fn(&MizuMesh<D>, u32, u32, u32) -> bool,
 {
    exists|taken: nat| taken > 0 && #[trigger] second_round(trace[j - 1], coplanar, collinear, trace[j], taken)
}

/// Whether `after` is what simplifying `before` gives: a round of
/// two-face replacements, then rounds of four-face replacements, each
/// taking some candidate, and a last round that finds nothing; after each
/// round only the vertices in use are kept.
pub open spec fn simplified<D: Clone, C, L>(before: MizuMesh<D>, coplanar: C, collinear: L, after: MizuMesh<D>) -> bool where
    C: Fn(&MizuMesh<D>, u32, u32) -> bool,
    L: Fn(&MizuMesh<D>, u32, u32, u32) -> bool,
 {
    &&& after.wf()
    &&& after.tris().len() <= before.tris().len()
    &&& exists|trace: Seq<MizuMesh<D>>|
        {
            &&& trace.len() > 0
            &&& third_round(before, coplanar, collinear, trace[0])
            &&& forall|j: int| 0 < j < trace.len() ==> #[trigger] merged_round(trace, coplanar, collinear, j)
            &&& second_round(trace.last(), coplanar, collinear, after, 0)
            &&& trace.last().wf()
            &&& second_form_free(trace.last(), coplanar, collinear)
        }
}

/// Whether, at each side of each triangle with a triangle across it, the
/// four corners around the side are distinct.
pub open spec fn sides_distinct(tris: Seq<Tri>) -> bool {
    forall|i: int, s: int|
        0 <= i < tris.len() && 0 <= s < 3 ==> match #[trigger] opposite(tris, i, s) {
            Some(p) => distinct4(third_form_corners(tris, i, s, p.0 as int, p.1 as int)),
            None => true,
        }
}

/// Distinct corners around every shared side are distinct where the
/// coplanarity test can call the two faces coplanar, too.
pub proof fn lemma_sides_distinct<D, C>(m: MizuMesh<D>, coplanar: C)
    where C: Fn(&MizuMesh<D>, u32, u32) -> bool
    requires
        sides_distinct(m.tris()),
    ensures
        forall|i: u32| i < m.tris().len() ==> #[trigger] third_form_distinct(m, coplanar, i),
{
    assert forall|i: u32| i < m.tris().len() implies #[trigger] third_form_distinct(m, coplanar, i) by {
        assert forall|s: int| 0 <= s < 3 implies match #[trigger] opposite(m.tris(), i as int, s) {
            Some(p) => call_ensures(coplanar, (&m, i, p.0), true) ==> distinct4(
                third_form_corners(m.tris(), i as int, s, p.0 as int, p.1 as int),
            ),
            None => true,
        } by {
            assert(match opposite(m.tris(), i as int, s) {
                Some(p) => distinct4(third_form_corners(m.tris(), i as int, s, p.0 as int, p.1 as int)),
                None => true,
            });
        }
    }
}

/// Whether, at each side of each triangle with a triangle across it, the
/// four corners around the side are distinct.
pub fn triangles_sides_distinct(triangles: &[[u32; 3]]) -> (b: bool)
    requires
        triangles@.len() <= u32::MAX,
    ensures
        b == sides_distinct(triangles@.map_values(|t: [u32; 3]| super::mesh::array_tri(t))),
{
    let ghost tris = triangles@.map_values(|t: [u32; 3]| super::mesh::array_tri(t));
    let mut faces: Vec<Face> = Vec::new();
    let mut i: usize = 0;
    while i < triangles.len()
        invariant
            i <= triangles@.len(),
            faces@.len() == i,
            forall|k: int| 0 <= k < i ==> (#[trigger] faces@[k])@ == tris[k],
            tris == triangles@.map_values(|t: [u32; 3]| super::mesh::array_tri(t)),
        decreases triangles@.len() - i,
    {
        faces.push(Face::new(triangles[i]));
        i = i + 1;
    }
    assert(face_tris(faces@) =~= tris);
    let opposites = build_opposites(&faces);
    let mut k: usize = 0;
    while k < faces.len()
        invariant
            k <= faces@.len(),
            faces@.len() == tris.len(),
            tris.len() <= u32::MAX,
            tris == triangles@.map_values(|t: [u32; 3]| super::mesh::array_tri(t)),
            face_tris(faces@) == tris,
            opposites@.len() == tris.len(),
            forall|ii: int, j: int| 0 <= ii < tris.len() && 0 <= j < 3 ==> #[trigger] opposites@[ii][j] == opposite(tris, ii, j),
            forall|ii: int, ss: int|
                0 <= ii < k && 0 <= ss < 3 ==> match #[trigger] opposite(tris, ii, ss) {
                    Some(p) => distinct4(third_form_corners(tris, ii, ss, p.0 as int, p.1 as int)),
                    None => true,
                },
        decreases faces@.len() - k,
    {
        let mut s: usize = 0;
        while s < 3
            invariant
                s <= 3,
                k < faces@.len(),
                faces@.len() == tris.len(),
                tris.len() <= u32::MAX,
                tris == triangles@.map_values(|t: [u32; 3]| super::mesh::array_tri(t)),
                face_tris(faces@) == tris,
                opposites@.len() == tris.len(),
                forall|ii: int, j: int| 0 <= ii < tris.len() && 0 <= j < 3 ==> #[trigger] opposites@[ii][j] == opposite(tris, ii, j),
                forall|ss: int|
                    0 <= ss < s ==> match #[trigger] opposite(tris, k as int, ss) {
                        Some(p) => distinct4(third_form_corners(tris, k as int, ss, p.0 as int, p.1 as int)),
                        None => true,
                    },
            decreases 3 - s,
        {
            assert(opposites@[k as int][s as int] == opposite(tris, k as int, s as int));
            match opposites[k][s] {
                Some((t2, s2)) => {
                    proof {
                        super::mesh::lemma_opposite_reverses(tris, k as int, s as int);
                    }
                    assert(tris[k as int] == faces@[k as int]@);
                    assert(tris[t2 as int] == faces@[t2 as int]@);
                    let this = faces[k].vertices();
                    let other = faces[t2 as usize].vertices();
                    let a = this[(s + 2) % 3];
                    let b = this[s];
                    let c = other[s2 as usize];
                    let d = other[(s2 as usize + 2) % 3];
                    assert((a, b, c, d) == third_form_corners(tris, k as int, s as int, t2 as int, s2 as int)) by {
                        assert(s == 0 || s == 1 || s == 2);
                        assert(s2 == 0 || s2 == 1 || s2 == 2);
                    }
                    if a == b || a == c || a == d || b == c || b == d || c == d {
                        proof {
                            assert(opposite(tris, k as int, s as int) == Some((t2, s2)));
                            assert(!sides_distinct(tris));
                        }
                        return false;
                    }
                },
                None => {},
            }
            s = s + 1;
        }
        k = k + 1;
    }
    true
}

/// The candidates as the face indices each removes and the triangles each
/// adds.
pub open spec fn candidate_views(cs: Seq<SimplificationCandidate>) -> Seq<(Seq<u32>, Seq<Tri>)> {
    cs.map_values(|c: SimplificationCandidate| candidate_view(c))
}

/// Appending to a list appends its value, if any, to its `Some` values.
proof fn lemma_somes_push<A>(os: Seq<Option<A>>, o: Option<A>)
    ensures
        somes(os.push(o)) == match o {
            Some(a) => somes(os).push(a),
            None => somes(os),
        },
{
    assert(os.push(o).drop_last() =~= os);
}

/// Whether a candidate removes none of the faces already `claimed`.
pub open spec fn accepts(claimed: Set<u32>, c: (Seq<u32>, Seq<Tri>)) -> bool {
    forall|k: int| 0 <= k < c.0.len() ==> !claimed.contains(#[trigger] c.0[k])
}

/// The faces claimed by the first `n` candidates: each candidate, in turn,
/// is taken when it removes no face claimed before it, and then claims the
/// faces it removes.
pub open spec fn claimed_upto(cs: Seq<(Seq<u32>, Seq<Tri>)>, n: int) -> Set<u32>
    decreases n,
{
    if n <= 0 {
        Set::empty()
    } else {
        let prev = claimed_upto(cs, n - 1);
        if accepts(prev, cs[n - 1]) {
            prev.union(cs[n - 1].0.to_set())
        } else {
            prev
        }
    }
}

/// The triangles added by the candidates taken among the first `n`, in
/// order.
pub open spec fn added_upto(cs: Seq<(Seq<u32>, Seq<Tri>)>, n: int) -> Seq<Tri>
    decreases n,
{
    if n <= 0 {
        Seq::empty()
    } else {
        let prev = added_upto(cs, n - 1);
        if accepts(claimed_upto(cs, n - 1), cs[n - 1]) {
            prev + cs[n - 1].1
        } else {
            prev
        }
    }
}

/// The number of candidates taken among the first `n`.
pub open spec fn accepted_upto(cs: Seq<(Seq<u32>, Seq<Tri>)>, n: int) -> nat
    decreases n,
{
    if n <= 0 {
        0
    } else {
        accepted_upto(cs, n - 1) + if accepts(claimed_upto(cs, n - 1), cs[n - 1]) {
            1nat
        } else {
            0nat
        }
    }
}

/// The number of face indices removed by the candidates taken among the
/// first `n`.
pub open spec fn removed_upto(cs: Seq<(Seq<u32>, Seq<Tri>)>, n: int) -> nat
    decreases n,
{
    if n <= 0 {
        0
    } else {
        removed_upto(cs, n - 1) + if accepts(claimed_upto(cs, n - 1), cs[n - 1]) {
            cs[n - 1].0.len()
        } else {
            0nat
        }
    }
}

/// The first `n` triangles, without those whose index is in `removed`.
pub open spec fn kept(tris: Seq<Tri>, removed: Set<u32>, n: int) -> Seq<Tri>
    decreases n,
{
    if n <= 0 {
        Seq::empty()
    } else {
        let prev = kept(tris, removed, n - 1);
        if removed.contains((n - 1) as u32) {
            prev
        } else {
            prev.push(tris[n - 1])
        }
    }
}

/// The number of indices below `n` in `s`.
pub open spec fn count_below(s: Set<u32>, n: int) -> nat
    decreases n,
{
    if n <= 0 {
        0
    } else {
        count_below(s, n - 1) + if s.contains((n - 1) as u32) {
            1nat
        } else {
            0nat
        }
    }
}

proof fn lemma_kept_len(tris: Seq<Tri>, removed: Set<u32>, n: int)
    requires
        0 <= n,
    ensures
        kept(tris, removed, n).len() + count_below(removed, n) == n,
    decreases n,
{
    if n > 0 {
        lemma_kept_len(tris, removed, n - 1);
    }
}

proof fn lemma_count_below_agree(s: Set<u32>, t: Set<u32>, n: int)
    requires
        0 <= n <= u32::MAX + 1,
        forall|x: u32| x < n ==> (s.contains(x) == t.contains(x)),
    ensures
        count_below(s, n) == count_below(t, n),
    decreases n,
{
    if n > 0 {
        lemma_count_below_agree(s, t, n - 1);
    }
}

/// A finite set of indices all below `n` has `count_below` its size.
proof fn lemma_count_below(s: Set<u32>, n: int)
    requires
        s.finite(),
        0 <= n <= u32::MAX + 1,
        forall|x: u32| #[trigger] s.contains(x) ==> x < n,
    ensures
        count_below(s, n) == s.len(),
    decreases n,
{
    if n == 0 {
        assert(s =~= Set::empty());
    } else {
        let top = (n - 1) as u32;
        let t = s.remove(top);
        lemma_count_below(t, n - 1);
        lemma_count_below_agree(s, t, n - 1);
    }
}

/// The faces claimed are finite, and below `n` when every removed index
/// is.
proof fn lemma_claimed_within(cs: Seq<(Seq<u32>, Seq<Tri>)>, m: int, n: int)
    requires
        0 <= m <= cs.len(),
        forall|c: int, k: int| 0 <= c < cs.len() && 0 <= k < cs[c].0.len() ==> #[trigger] cs[c].0[k] < n,
    ensures
        claimed_upto(cs, m).finite(),
        forall|x: u32| #[trigger] claimed_upto(cs, m).contains(x) ==> x < n,
    decreases m,
{
    if m > 0 {
        lemma_claimed_within(cs, m - 1, n);
        let prev = claimed_upto(cs, m - 1);
        let c = cs[m - 1];
        if accepts(prev, c) {
            assert forall|x: u32| #[trigger] claimed_upto(cs, m).contains(x) implies x < n by {
                if !prev.contains(x) {
                    let k = choose|k: int| 0 <= k < c.0.len() && c.0[k] == x;
                    assert(cs[m - 1].0[k] < n);
                }
            }
        }
    }
}

/// The faces claimed are finite, as many as the taken candidates remove
/// when each removes distinct faces, and below `n` when every removed index
/// is.
proof fn lemma_claimed(cs: Seq<(Seq<u32>, Seq<Tri>)>, m: int, n: int)
    requires
        0 <= m <= cs.len(),
        forall|c: int| 0 <= c < cs.len() ==> (#[trigger] cs[c]).0.no_duplicates(),
        forall|c: int, k: int| 0 <= c < cs.len() && 0 <= k < cs[c].0.len() ==> #[trigger] cs[c].0[k] < n,
    ensures
        claimed_upto(cs, m).finite(),
        claimed_upto(cs, m).len() == removed_upto(cs, m),
        forall|x: u32| #[trigger] claimed_upto(cs, m).contains(x) ==> x < n,
    decreases m,
{
    if m > 0 {
        lemma_claimed(cs, m - 1, n);
        let prev = claimed_upto(cs, m - 1);
        let c = cs[m - 1];
        if accepts(prev, c) {
            c.0.unique_seq_to_set();
            assert(prev.disjoint(c.0.to_set())) by {
                assert forall|x: u32| prev.contains(x) implies !c.0.to_set().contains(x) by {
                    if c.0.to_set().contains(x) {
                        let k = choose|k: int| 0 <= k < c.0.len() && c.0[k] == x;
                        assert(!prev.contains(c.0[k]));
                    }
                }
            }
            vstd::set_lib::lemma_set_disjoint_lens(prev, c.0.to_set());
            assert forall|x: u32| #[trigger] claimed_upto(cs, m).contains(x) implies x < n by {
                if !prev.contains(x) {
                    let k = choose|k: int| 0 <= k < c.0.len() && c.0[k] == x;
                    assert(cs[m - 1].0[k] < n);
                }
            }
        }
    }
}

proof fn lemma_kept_corners(tris: Seq<Tri>, removed: Set<u32>, n: int, v: int)
    requires
        0 <= n <= tris.len(),
        corners_below(tris, v),
    ensures
        corners_below(kept(tris, removed, n), v),
    decreases n,
{
    if n > 0 {
        lemma_kept_corners(tris, removed, n - 1, v);
        let prev = kept(tris, removed, n - 1);
        if !removed.contains((n - 1) as u32) {
            assert forall|i: int, k: int| 0 <= i < prev.len() + 1 && 0 <= k < 3 implies #[trigger] corner(
                prev.push(tris[n - 1])[i],
                k,
            ) < v by {
                if i == prev.len() {
                    assert(corner(tris[n - 1], k) < v);
                } else {
                    assert(corner(prev[i], k) < v);
                }
            }
        }
    }
}

proof fn lemma_added_corners(cs: Seq<(Seq<u32>, Seq<Tri>)>, m: int, v: int)
    requires
        0 <= m <= cs.len(),
        forall|c: int| 0 <= c < cs.len() ==> corners_below(#[trigger] cs[c].1, v),
    ensures
        corners_below(added_upto(cs, m), v),
    decreases m,
{
    if m > 0 {
        lemma_added_corners(cs, m - 1, v);
        let prev = added_upto(cs, m - 1);
        if accepts(claimed_upto(cs, m - 1), cs[m - 1]) {
            let more = cs[m - 1].1;
            assert(corners_below(more, v));
            assert forall|i: int, k: int| 0 <= i < prev.len() + more.len() && 0 <= k < 3 implies #[trigger] corner(
                (prev + more)[i],
                k,
            ) < v by {
                if i < prev.len() {
                    assert(corner(prev[i], k) < v);
                } else {
                    assert(corner(more[i - prev.len()], k) < v);
                }
            }
        }
    }
}

/// When each candidate adds fewer faces than it removes, the taken ones
/// remove more faces than they add, by at least their number.
proof fn lemma_removed_exceeds(cs: Seq<(Seq<u32>, Seq<Tri>)>, m: int)
    requires
        0 <= m <= cs.len(),
        forall|c: int| 0 <= c < cs.len() ==> (#[trigger] cs[c]).1.len() < cs[c].0.len(),
    ensures
        removed_upto(cs, m) >= added_upto(cs, m).len() + accepted_upto(cs, m),
    decreases m,
{
    if m > 0 {
        lemma_removed_exceeds(cs, m - 1);
        assert(cs[m - 1].1.len() < cs[m - 1].0.len());
    }
}

/// The corners of the triangles, face by face.
pub open spec fn tri_corners(tris: Seq<Tri>) -> Seq<u32> {
    Seq::new(3 * tris.len(), |k: int| corner(tris[k / 3], k % 3))
}

/// The distinct values among the first `n` of `cs`, in the order in which
/// they first appear.
pub open spec fn first_seen(cs: Seq<u32>, n: int) -> Seq<u32>
    decreases n,
{
    if n <= 0 {
        Seq::empty()
    } else {
        let prev = first_seen(cs, n - 1);
        if prev.contains(cs[n - 1]) {
            prev
        } else {
            prev.push(cs[n - 1])
        }
    }
}

/// The values first seen among the first `n` are distinct, each is one of
/// them, and each of them is one.
proof fn lemma_first_seen(cs: Seq<u32>, n: int)
    requires
        0 <= n <= cs.len(),
    ensures
        first_seen(cs, n).no_duplicates(),
        forall|k: int| 0 <= k < n ==> first_seen(cs, n).contains(#[trigger] cs[k]),
        forall|j: int| 0 <= j < first_seen(cs, n).len() ==> exists|k: int| 0 <= k < n && cs[k] == #[trigger] first_seen(cs, n)[j],
    decreases n,
{
    if n > 0 {
        lemma_first_seen(cs, n - 1);
        let prev = first_seen(cs, n - 1);
        if !prev.contains(cs[n - 1]) {
            let cur = prev.push(cs[n - 1]);
            assert forall|k: int| 0 <= k < n implies cur.contains(#[trigger] cs[k]) by {
                if k < n - 1 {
                    assert(prev.contains(cs[k]));
                    let j = choose|j: int| 0 <= j < prev.len() && prev[j] == cs[k];
                    assert(cur[j] == cs[k]);
                } else {
                    assert(cur[prev.len() as int] == cs[k]);
                }
            }
            assert forall|j: int| 0 <= j < cur.len() implies exists|k: int| 0 <= k < n && cs[k] == #[trigger] cur[j] by {
                if j < prev.len() {
                    assert(cur[j] == prev[j]);
                } else {
                    assert(cs[n - 1] == cur[j]);
                }
            }
        }
    }
}

/// Distinct `u32` values number at most `u32::MAX + 1`.
proof fn lemma_distinct_u32_len(s: Seq<u32>)
    requires
        s.no_duplicates(),
    ensures
        s.len() <= u32::MAX + 1,
{
    let t = s.map_values(|x: u32| x as int);
    assert(t.no_duplicates()) by {
        assert forall|i: int, j: int| 0 <= i < t.len() && 0 <= j < t.len() && i != j implies t[i] != t[j] by {
            assert(s[i] != s[j]);
        }
    }
    t.unique_seq_to_set();
    vstd::set_lib::lemma_int_range(0, u32::MAX + 1);
    assert(t.to_set().subset_of(vstd::set_lib::set_int_range(0, u32::MAX + 1))) by {
        assert forall|x: int| t.to_set().contains(x) implies vstd::set_lib::set_int_range(0, u32::MAX + 1).contains(x) by {
            let i = choose|i: int| 0 <= i < t.len() && t[i] == x;
            assert(t[i] == s[i] as int);
        }
    }
    vstd::set_lib::lemma_len_subset(t.to_set(), vstd::set_lib::set_int_range(0, u32::MAX + 1));
}

/// How the side table of the vertices kept so far relates to their order:
/// the `u32` values in the table are those of `order`, each under its
/// position.
pub open spec fn renumbers(map: Map<u64, u64>, order: Seq<u32>) -> bool {
    &&& forall|x: u32| #[trigger] map.dom().contains(x as u64) == order.contains(x)
    &&& forall|k: int| 0 <= k < order.len() ==> map[#[trigger] order[k] as u64] == k
}

/// Whether a candidate removes distinct faces, all below `n`, adds fewer
/// faces than it removes, and adds faces whose corners are below `v`.
pub open spec fn fits(c: (Seq<u32>, Seq<Tri>), n: int, v: int) -> bool {
    &&& c.0.no_duplicates()
    &&& c.1.len() < c.0.len()
    &&& forall|k: int| 0 <= k < c.0.len() ==> #[trigger] c.0[k] < n
    &&& corners_below(c.1, v)
}

/// Each value held by a `Some` entry is held by one of the entries.
proof fn lemma_somes_member<A>(os: Seq<Option<A>>)
    ensures
        forall|k: int| 0 <= k < somes(os).len() ==> exists|s: int| 0 <= s < os.len() && os[s] == Some(#[trigger] somes(os)[k]),
    decreases os.len(),
{
    if os.len() > 0 {
        let rest = os.drop_last();
        lemma_somes_member(rest);
        assert forall|k: int| 0 <= k < somes(os).len() implies exists|s: int| 0 <= s < os.len() && os[s] == Some(#[trigger] somes(os)[k]) by {
            if k < somes(rest).len() {
                let s = choose|s: int| 0 <= s < rest.len() && rest[s] == Some(somes(rest)[k]);
                assert(os[s] == rest[s]);
            } else {
                assert(os[os.len() - 1] == Some(somes(os)[k]));
            }
        }
    }
}

/// When no entry is `Some`, every entry is `None`.
proof fn lemma_somes_empty<A>(os: Seq<Option<A>>)
    requires
        somes(os).len() == 0,
    ensures
        forall|s: int| 0 <= s < os.len() ==> #[trigger] os[s] is None,
    decreases os.len(),
{
    if os.len() > 0 {
        let rest = os.drop_last();
        lemma_somes_empty(rest);
        assert forall|s: int| 0 <= s < os.len() implies #[trigger] os[s] is None by {
            if s < rest.len() {
                assert(os[s] == rest[s]);
            }
        }
    }
}

/// The first candidate is always taken.
proof fn lemma_first_accepted(cs: Seq<(Seq<u32>, Seq<Tri>)>, m: int)
    requires
        1 <= m,
    ensures
        accepted_upto(cs, m) >= 1,
    decreases m,
{
    if m > 1 {
        lemma_first_accepted(cs, m - 1);
    } else {
        assert(claimed_upto(cs, 0) == Set::<u32>::empty());
        assert(accepts(Set::<u32>::empty(), cs[0]));
    }
}

/// Removing no index keeps every triangle, in order.
proof fn lemma_kept_none(tris: Seq<Tri>, n: int)
    requires
        0 <= n <= tris.len(),
    ensures
        kept(tris, Set::<u32>::empty(), n) == tris.subrange(0, n),
    decreases n,
{
    if n > 0 {
        lemma_kept_none(tris, n - 1);
        assert(tris.subrange(0, n - 1).push(tris[n - 1]) =~= tris.subrange(0, n));
    }
}

/// The two-face search over one more face finds what it found before, then
/// what it finds at that face.
proof fn lemma_third_found_step<D, C, L>(
    m: MizuMesh<D>,
    coplanar: C,
    collinear: L,
    i: int,
    a: Seq<(Seq<u32>, Seq<Tri>)>,
    b: Seq<(Seq<u32>, Seq<Tri>)>,
) where C: Fn(&MizuMesh<D>, u32, u32) -> bool, L: Fn(&MizuMesh<D>, u32, u32, u32) -> bool
    requires
        0 <= i,
        third_found_upto(m, coplanar, collinear, i, a),
        third_found_at(m, coplanar, collinear, i as u32, b),
    ensures
        third_found_upto(m, coplanar, collinear, i + 1, a + b),
{
    assert((a + b).take(a.len() as int) =~= a);
    assert((a + b).skip(a.len() as int) =~= b);
    assert(third_found_at(m, coplanar, collinear, ((i + 1) - 1) as u32, (a + b).skip(a.len() as int)));
}

/// The four-face search over one more face finds what it found before,
/// then what it finds at that face.
proof fn lemma_second_found_step<D, C, L>(
    m: MizuMesh<D>,
    coplanar: C,
    collinear: L,
    i: int,
    a: Seq<(Seq<u32>, Seq<Tri>)>,
    b: Seq<(Seq<u32>, Seq<Tri>)>,
) where C: Fn(&MizuMesh<D>, u32, u32) -> bool, L: Fn(&MizuMesh<D>, u32, u32, u32) -> bool
    requires
        0 <= i,
        second_found_upto(m, coplanar, collinear, i, a),
        second_found_at(m, coplanar, collinear, i as u32, b),
    ensures
        second_found_upto(m, coplanar, collinear, i + 1, a + b),
{
    assert((a + b).take(a.len() as int) =~= a);
    assert((a + b).skip(a.len() as int) =~= b);
    assert(second_found_at(m, coplanar, collinear, ((i + 1) - 1) as u32, (a + b).skip(a.len() as int)));
}

/// A two-face candidate found at a side of a face fits the mesh.
proof fn lemma_third_fits<D, C, L>(m: MizuMesh<D>, coplanar: C, collinear: L, i: u32, s: int, cand: (Seq<u32>, Seq<Tri>))
    where C: Fn(&MizuMesh<D>, u32, u32) -> bool, L: Fn(&MizuMesh<D>, u32, u32, u32) -> bool
    requires
        m.wf(),
        i < m.tris().len(),
        0 <= s < 3,
        third_form_distinct(m, coplanar, i),
        third_form_outcome(m, coplanar, collinear, i, s, Some(cand)),
    ensures
        fits(cand, m.tris().len() as int, m.vdata().len() as int),
{
    m.lemma_wf();
    let tris = m.tris();
    let p = opposite(tris, i as int, s)->0;
    let sd = side(tris[i as int], s);
    lemma_side_owner(tris, (sd.1, sd.0), tris.len() as int);
    let v = third_form_corners(tris, i as int, s, p.0 as int, p.1 as int);
    assert(distinct4(v));
    if p.0 == i {
        assert(side(tris[i as int], p.1 as int) == (sd.1, sd.0));
        assert(false);
    }
    assert(corner(tris[i as int], (s + 2) % 3) < m.vdata().len());
    assert(corner(tris[i as int], s) < m.vdata().len());
    assert(corner(tris[p.0 as int], p.1 as int) < m.vdata().len());
    assert(corner(tris[p.0 as int], (p.1 + 2) % 3) < m.vdata().len());
}

/// A four-face candidate found at a side of a face fits the mesh: the four
/// faces of its chain, neighbors only along the chain, are distinct.
proof fn lemma_second_fits<D, C, L>(m: MizuMesh<D>, coplanar: C, collinear: L, i: u32, s: int, cand: (Seq<u32>, Seq<Tri>))
    where C: Fn(&MizuMesh<D>, u32, u32) -> bool, L: Fn(&MizuMesh<D>, u32, u32, u32) -> bool
    requires
        m.wf(),
        i < m.tris().len(),
        0 <= s < 3,
        second_form_outcome(m, coplanar, collinear, i, s, Some(cand)),
    ensures
        fits(cand, m.tris().len() as int, m.vdata().len() as int),
{
    m.lemma_wf();
    let tris = m.tris();
    let p2 = opposite(tris, i as int, s)->0;
    let s1 = side(tris[i as int], s);
    lemma_side_owner(tris, (s1.1, s1.0), tris.len() as int);
    let e2 = (p2.1 + 2) % 3;
    let p3 = opposite(tris, p2.0 as int, e2)->0;
    let s2 = side(tris[p2.0 as int], e2);
    lemma_side_owner(tris, (s2.1, s2.0), tris.len() as int);
    let e3 = (p3.1 + 1) % 3;
    let p4 = opposite(tris, p3.0 as int, e3)->0;
    let s3 = side(tris[p3.0 as int], e3);
    lemma_side_owner(tris, (s3.1, s3.0), tris.len() as int);
    let (t2, t3, t4) = (p2.0, p3.0, p4.0);
    assert(second_form_apart(tris, i, t2, t3, t4));
    // each face of the chain names the next across a side
    assert(names_face(opposite(tris, i as int, s), t2));
    assert(names_face(opposite(tris, t2 as int, e2), t3));
    assert(names_face(opposite(tris, t3 as int, e3), t4));
    if i == t2 {
        assert(seq![t3, t4][0] == t3);
        assert(neighbors_any(tris, i as int, seq![t3, t4]));
    }
    if t2 == t3 {
        assert(seq![t3, t4][0] == t3);
        assert(neighbors_any(tris, i as int, seq![t3, t4]));
    }
    if t2 == t4 {
        assert(seq![t3, t4][1] == t4);
        assert(neighbors_any(tris, i as int, seq![t3, t4]));
    }
    if t3 == t4 {
        assert(seq![t4][0] == t4);
        assert(neighbors_any(tris, t2 as int, seq![t4]));
    }
    if i == t3 {
        assert(seq![t3, t4][1] == t4);
        assert(neighbors_any(tris, i as int, seq![t3, t4]));
    }
    if i == t4 {
        assert(seq![i, t2][1] == t2);
        assert(neighbors_any(tris, t4 as int, seq![i, t2]));
    }
    assert(cand.0 =~= seq![i, t2, t3, t4]);
    let (a, b, c, d, e, f) = second_form_corners(tris, i as int, s, t4 as int, p4.1 as int);
    assert(corner(tris[i as int], (s + 2) % 3) < m.vdata().len());
    assert(corner(tris[i as int], s) < m.vdata().len());
    assert(corner(tris[t4 as int], p4.1 as int) < m.vdata().len());
    assert(corner(tris[t4 as int], (p4.1 + 2) % 3) < m.vdata().len());
    let added = seq![(a, b, e), (e, b, f)];
    assert(corners_below(added, m.vdata().len() as int)) by {
        assert forall|j: int, k: int| 0 <= j < 2 && 0 <= k < 3 implies #[trigger] corner(added[j], k) < m.vdata().len() by {
        }
    }
}

impl<D> MizuMesh<D> {
    /// The two-face simplification at side `s` of face `index`, if any.
    fn third_form_at<C, L>(&self, index: u32, s: usize, coplanar: &C, collinear: &L) -> (r: Option<SimplificationCandidate>) where
        C: Fn(&MizuMesh<D>, u32, u32) -> bool,
        L: Fn(&MizuMesh<D>, u32, u32, u32) -> bool,

        requires
            self.wf(),
            index < self.tris().len(),
            s < 3,
            forall|m: &MizuMesh<D>, a: u32, b: u32| coplanar.requires((m, a, b)),
            forall|m: &MizuMesh<D>, a: u32, b: u32, c: u32| collinear.requires((m, a, b, c)),
            third_form_distinct(*self, *coplanar, index),
        ensures
            third_form_outcome(*self, *coplanar, *collinear, index, s as int, option_view(r)),
    {
        let neighbors = self.neighbors(index);
        let neighbor = neighbors[s];
        assert(neighbor == opposite(self.tris(), index as int, s as int));
        let (tri_2, tri_2_start_pair) = match neighbor {
            Some(p) => p,
            None => {
                return None;
            },
        };
        proof {
            self.lemma_wf();
            let s0 = side(self.tris()[index as int], s as int);
            lemma_side_owner(self.tris(), (s0.1, s0.0), self.tris().len() as int);
        }

        // make sure the faces are coplanar
        if !coplanar(self, index, tri_2) {
            return None;
        }
        let face_1_vertices = self.face(index).vertices();
        let face_2_vertices = self.face(tri_2).vertices();

        let vertex_a = face_1_vertices[(s + 2) % 3];
        let vertex_b = face_1_vertices[s];
        let vertex_c = face_2_vertices[tri_2_start_pair as usize];
        let vertex_d = face_2_vertices[(tri_2_start_pair as usize + 2) % 3];
        proof {
            let tris = self.tris();
            assert(third_form_corners(tris, index as int, s as int, tri_2 as int, tri_2_start_pair as int) == (
                vertex_a,
                vertex_b,
                vertex_c,
                vertex_d,
            ));
            assert(match opposite(tris, index as int, s as int) {
                Some(p) => call_ensures(*coplanar, (self, index, p.0), true) ==> distinct4(
                    third_form_corners(tris, index as int, s as int, p.0 as int, p.1 as int),
                ),
                None => true,
            });
        }

        // the first form is when A, B and D are collinear, the second when
        // A, C and D are
        if collinear(self, vertex_a, vertex_b, vertex_d) {
            let new_face = self.create_face(vertex_a, vertex_d, vertex_c);
            let c = SimplificationCandidate { faces_to_remove: vec![index, tri_2], new_faces: vec![new_face] };
            assert(candidate_view(c) =~= (seq![index, tri_2], seq![(vertex_a, vertex_d, vertex_c)]));
            Some(c)
        } else if collinear(self, vertex_a, vertex_c, vertex_d) {
            let new_face = self.create_face(vertex_a, vertex_b, vertex_d);
            let c = SimplificationCandidate { faces_to_remove: vec![index, tri_2], new_faces: vec![new_face] };
            assert(candidate_view(c) =~= (seq![index, tri_2], seq![(vertex_a, vertex_b, vertex_d)]));
            Some(c)
        } else {
            None
        }
    }

    /// Finds, at each side of face `index` in turn, a pair of coplanar faces
    /// that one face can replace.
    pub fn is_third_form_simplifiable_face<C, L>(&self, index: u32, coplanar: &C, collinear: &L) -> (r: Vec<
        SimplificationCandidate,
    >) where C: Fn(&MizuMesh<D>, u32, u32) -> bool, L: Fn(&MizuMesh<D>, u32, u32, u32) -> bool
        requires
            self.wf(),
            index < self.tris().len(),
            forall|m: &MizuMesh<D>, a: u32, b: u32| coplanar.requires((m, a, b)),
            forall|m: &MizuMesh<D>, a: u32, b: u32, c: u32| collinear.requires((m, a, b, c)),
            third_form_distinct(*self, *coplanar, index),
        ensures
            exists|os: Seq<Option<(Seq<u32>, Seq<Tri>)>>|
                {
                    &&& os.len() == 3
                    &&& forall|s: int|
                        0 <= s < 3 ==> third_form_outcome(*self, *coplanar, *collinear, index, s, #[trigger] os[s])
                    &&& candidate_views(r@) == somes(os)
                },
    {
        let mut r: Vec<SimplificationCandidate> = Vec::new();
        let ghost mut os: Seq<Option<(Seq<u32>, Seq<Tri>)>> = Seq::empty();
        let mut s: usize = 0;
        while s < 3
            invariant
                s <= 3,
                self.wf(),
                index < self.tris().len(),
                forall|m: &MizuMesh<D>, a: u32, b: u32| coplanar.requires((m, a, b)),
                forall|m: &MizuMesh<D>, a: u32, b: u32, c: u32| collinear.requires((m, a, b, c)),
                third_form_distinct(*self, *coplanar, index),
                os.len() == s,
                forall|k: int| 0 <= k < s ==> third_form_outcome(*self, *coplanar, *collinear, index, k, #[trigger] os[k]),
                candidate_views(r@) == somes(os),
            decreases 3 - s,
        {
            let o = self.third_form_at(index, s, coplanar, collinear);
            proof {
                lemma_somes_push(os, option_view(o));
                os = os.push(option_view(o));
            }
            match o {
                Some(c) => {
                    r.push(c);
                },
                None => {},
            }
            assert(candidate_views(r@) =~= somes(os));
            s = s + 1;
        }
        r
    }

    /// The four-face simplification at side `s` of face `index`, if any.
    fn second_form_at<C, L>(&self, index: u32, s: usize, coplanar: &C, collinear: &L) -> (r: Option<SimplificationCandidate>) where
        C: Fn(&MizuMesh<D>, u32, u32) -> bool,
        L: Fn(&MizuMesh<D>, u32, u32, u32) -> bool,

        requires
            self.wf(),
            index < self.tris().len(),
            s < 3,
            forall|m: &MizuMesh<D>, a: u32, b: u32| coplanar.requires((m, a, b)),
            forall|m: &MizuMesh<D>, a: u32, b: u32, c: u32| collinear.requires((m, a, b, c)),
        ensures
            second_form_outcome(*self, *coplanar, *collinear, index, s as int, option_view(r)),
    {
        let ghost tris = self.tris();
        proof {
            self.lemma_wf();
        }
        let tri_1 = index;
        let (tri_2, tri_2_start_pair) = match self.neighbors(tri_1)[s] {
            Some(p) => p,
            None => {
                return None;
            },
        };
        proof {
            let s1 = side(tris[tri_1 as int], s as int);
            lemma_side_owner(tris, (s1.1, s1.0), tris.len() as int);
        }
        let tri_2_end_pair = (tri_2_start_pair + 2) % 3;
        // make sure the neighbor chain is long enough
        let (tri_3, tri_3_start_pair) = match self.neighbors(tri_2)[tri_2_end_pair as usize] {
            Some(p) => p,
            None => {
                return None;
            },
        };
        proof {
            let s2 = side(tris[tri_2 as int], tri_2_end_pair as int);
            lemma_side_owner(tris, (s2.1, s2.0), tris.len() as int);
        }
        let tri_3_end_pair = (tri_3_start_pair + 1) % 3;
        let (tri_4, tri_4_start_pair) = match self.neighbors(tri_3)[tri_3_end_pair as usize] {
            Some(p) => p,
            None => {
                return None;
            },
        };
        proof {
            let s3 = side(tris[tri_3 as int], tri_3_end_pair as int);
            lemma_side_owner(tris, (s3.1, s3.0), tris.len() as int);
            assert(second_form_chain(tris, index as int, s as int) == Some((tri_2, tri_3, tri_4, tri_4_start_pair)));
        }

        // make sure all the faces are coplanar
        if !coplanar(self, tri_1, tri_2) || !coplanar(self, tri_1, tri_3) || !coplanar(self, tri_1, tri_4) {
            return None;
        }
        // make sure the faces are only neighbors in the correct ways, i.e. 1
        // and 2 are neighbors, 2 and 3 are neighbors, 3 and 4 are neighbors
        let apart_1 = [tri_3, tri_4];
        let apart_2 = [tri_4];
        let apart_3 = [tri_1];
        let apart_4 = [tri_1, tri_2];
        proof {
            assert(apart_1@ =~= seq![tri_3, tri_4]);
            assert(apart_2@ =~= seq![tri_4]);
            assert(apart_3@ =~= seq![tri_1]);
            assert(apart_4@ =~= seq![tri_1, tri_2]);
        }
        if self.neighbors_contain_any(tri_1, &apart_1) || self.neighbors_contain_any(tri_2, &apart_2)
            || self.neighbors_contain_any(tri_3, &apart_3) || self.neighbors_contain_any(tri_4, &apart_4) {
            return None;
        }
        let tri_1_vertices = self.face(tri_1).vertices();
        let tri_4_vertices = self.face(tri_4).vertices();

        let vertex_a = tri_1_vertices[(s + 2) % 3];
        let vertex_b = tri_1_vertices[s];
        let vertex_c = tri_1_vertices[(s + 1) % 3];
        let vertex_d = tri_4_vertices[(tri_4_start_pair as usize + 1) % 3];
        let vertex_e = tri_4_vertices[tri_4_start_pair as usize];
        let vertex_f = tri_4_vertices[(tri_4_start_pair as usize + 2) % 3];
        assert(second_form_corners(tris, index as int, s as int, tri_4 as int, tri_4_start_pair as int) == (
            vertex_a,
            vertex_b,
            vertex_c,
            vertex_d,
            vertex_e,
            vertex_f,
        ));

        // make sure A, C and E are collinear, and B, D and F
        if !collinear(self, vertex_a, vertex_c, vertex_e) || !collinear(self, vertex_b, vertex_d, vertex_f) {
            return None;
        }

        // a new face from A, B and E, and a new face from E, B and F
        let new_face_1 = self.create_face(vertex_a, vertex_b, vertex_e);
        let new_face_2 = self.create_face(vertex_e, vertex_b, vertex_f);
        let c = SimplificationCandidate {
            faces_to_remove: vec![tri_1, tri_2, tri_3, tri_4],
            new_faces: vec![new_face_1, new_face_2],
        };
        assert(candidate_view(c) =~= (
            seq![index, tri_2, tri_3, tri_4],
            seq![(vertex_a, vertex_b, vertex_e), (vertex_e, vertex_b, vertex_f)],
        ));
        Some(c)
    }

    /// Finds, at each side of face `index` in turn, a chain of four coplanar
    /// faces that two faces can replace.
    pub fn is_second_form_simplifiable_face<C, L>(&self, index: u32, coplanar: &C, collinear: &L) -> (r: Vec<
        SimplificationCandidate,
    >) where C: Fn(&MizuMesh<D>, u32, u32) -> bool, L: Fn(&MizuMesh<D>, u32, u32, u32) -> bool
        requires
            self.wf(),
            index < self.tris().len(),
            forall|m: &MizuMesh<D>, a: u32, b: u32| coplanar.requires((m, a, b)),
            forall|m: &MizuMesh<D>, a: u32, b: u32, c: u32| collinear.requires((m, a, b, c)),
        ensures
            exists|os: Seq<Option<(Seq<u32>, Seq<Tri>)>>|
                {
                    &&& os.len() == 3
                    &&& forall|s: int|
                        0 <= s < 3 ==> second_form_outcome(*self, *coplanar, *collinear, index, s, #[trigger] os[s])
                    &&& candidate_views(r@) == somes(os)
                },
    {
        let mut r: Vec<SimplificationCandidate> = Vec::new();
        let ghost mut os: Seq<Option<(Seq<u32>, Seq<Tri>)>> = Seq::empty();
        let mut s: usize = 0;
        while s < 3
            invariant
                s <= 3,
                self.wf(),
                index < self.tris().len(),
                forall|m: &MizuMesh<D>, a: u32, b: u32| coplanar.requires((m, a, b)),
                forall|m: &MizuMesh<D>, a: u32, b: u32, c: u32| collinear.requires((m, a, b, c)),
                os.len() == s,
                forall|k: int| 0 <= k < s ==> second_form_outcome(*self, *coplanar, *collinear, index, k, #[trigger] os[k]),
                candidate_views(r@) == somes(os),
            decreases 3 - s,
        {
            let o = self.second_form_at(index, s, coplanar, collinear);
            proof {
                lemma_somes_push(os, option_view(o));
                os = os.push(option_view(o));
            }
            match o {
                Some(c) => {
                    r.push(c);
                },
                None => {},
            }
            assert(candidate_views(r@) =~= somes(os));
            s = s + 1;
        }
        r
    }
}

impl<D> MizuMesh<D> {
    /// Replaces faces by the candidates: each candidate in turn is taken
    /// when none of the faces it removes is removed by a candidate taken
    /// before it; the faces of the taken candidates are removed, the rest
    /// keep their order, and the faces the taken candidates add follow.
    /// Returns the number of candidates taken.
    pub fn apply_simplification_candidates(&mut self, candidates: Vec<SimplificationCandidate>) -> (r: usize)
        requires
            old(self).wf(),
            forall|c: int, k: int|
                0 <= c < candidates@.len() && 0 <= k < candidates@[c].faces_to_remove@.len()
                    ==> #[trigger] candidates@[c].faces_to_remove@[k] < old(self).tris().len(),
            old(self).tris().len() + added_upto(candidate_views(candidates@), candidates@.len() as int).len() <= u32::MAX
                + claimed_upto(candidate_views(candidates@), candidates@.len() as int).len(),
            forall|c: int|
                0 <= c < candidates@.len() ==> corners_below(
                    #[trigger] candidate_view(candidates@[c]).1,
                    old(self).vdata().len() as int,
                ),
        ensures
            final(self).wf(),
            final(self).vdata() == old(self).vdata(),
            ({
                let cvs = candidate_views(candidates@);
                let n = cvs.len() as int;
                &&& final(self).tris() == kept(old(self).tris(), claimed_upto(cvs, n), old(self).tris().len() as int)
                    + added_upto(cvs, n)
                &&& r == accepted_upto(cvs, n)
                &&& final(self).tris().len() + claimed_upto(cvs, n).len() == old(self).tris().len() + added_upto(cvs, n).len()
            }),
    {
        let ghost cvs = candidate_views(candidates@);
        let ghost tris0 = self.tris();
        let mut to_remove = IdSet::new();
        let mut additions: Vec<Face> = Vec::new();
        let mut count: usize = 0;
        let mut c: usize = 0;
        while c < candidates.len()
            invariant
                c <= candidates@.len(),
                cvs == candidate_views(candidates@),
                forall|x: u32| #[trigger] id_set_contents(to_remove).contains(x as u64) == claimed_upto(cvs, c as int).contains(x),
                face_tris(additions@) == added_upto(cvs, c as int),
                count == accepted_upto(cvs, c as int),
                count <= c,
            decreases candidates@.len() - c,
        {
            let candidate = &candidates[c];
            assert(cvs[c as int] == candidate_view(*candidate));
            let mut can_remove = true;
            let mut k: usize = 0;
            while k < candidate.faces_to_remove.len()
                invariant
                    k <= candidate.faces_to_remove@.len(),
                    can_remove == forall|kk: int| 0 <= kk < k ==> !id_set_contents(to_remove).contains(#[trigger] candidate.faces_to_remove@[kk] as u64),
                decreases candidate.faces_to_remove@.len() - k,
            {
                if to_remove.contains(candidate.faces_to_remove[k] as u64) {
                    can_remove = false;
                }
                k = k + 1;
            }
            proof {
                let prev = claimed_upto(cvs, c as int);
                if can_remove {
                    assert forall|kk: int| 0 <= kk < cvs[c as int].0.len() implies !prev.contains(#[trigger] cvs[c as int].0[kk]) by {
                        assert(!id_set_contents(to_remove).contains(candidate.faces_to_remove@[kk] as u64));
                    }
                } else {
                    let kk = choose|kk: int| 0 <= kk < k && id_set_contents(to_remove).contains(#[trigger] candidate.faces_to_remove@[kk] as u64);
                    assert(prev.contains(cvs[c as int].0[kk]));
                }
                assert(can_remove == accepts(prev, cvs[c as int]));
            }
            if can_remove {
                let ghost before = id_set_contents(to_remove);
                let mut k: usize = 0;
                while k < candidate.faces_to_remove.len()
                    invariant
                        k <= candidate.faces_to_remove@.len(),
                        forall|x: u64| #[trigger] id_set_contents(to_remove).contains(x) == (before.contains(x) || exists|kk: int| 0 <= kk < k && candidate.faces_to_remove@[kk] as u64 == x),
                    decreases candidate.faces_to_remove@.len() - k,
                {
                    to_remove.insert(candidate.faces_to_remove[k] as u64);
                    k = k + 1;
                }
                let mut j: usize = 0;
                let ghost added_before = face_tris(additions@);
                while j < candidate.new_faces.len()
                    invariant
                        j <= candidate.new_faces@.len(),
                        face_tris(additions@) == added_before + face_tris(candidate.new_faces@).take(j as int),
                    decreases candidate.new_faces@.len() - j,
                {
                    let ghost pre = additions@;
                    additions.push(candidate.new_faces[j]);
                    proof {
                        let nf = face_tris(candidate.new_faces@);
                        assert(face_tris(additions@) =~= face_tris(pre).push(candidate.new_faces@[j as int]@));
                        assert(nf.take(j + 1) =~= nf.take(j as int).push(nf[j as int]));
                    }
                    j = j + 1;
                }
                assert(face_tris(candidate.new_faces@).take(j as int) =~= face_tris(candidate.new_faces@));
                count = count + 1;
                proof {
                    let prev = claimed_upto(cvs, c as int);
                    assert forall|x: u32| #[trigger] id_set_contents(to_remove).contains(x as u64) == claimed_upto(cvs, c + 1).contains(x) by {
                        if id_set_contents(to_remove).contains(x as u64) && !before.contains(x as u64) {
                            let kk = choose|kk: int| 0 <= kk < k && candidate.faces_to_remove@[kk] as u64 == x as u64;
                            assert(cvs[c as int].0[kk] == x);
                        }
                        if claimed_upto(cvs, c + 1).contains(x) && !prev.contains(x) {
                            let kk = choose|kk: int| 0 <= kk < cvs[c as int].0.len() && cvs[c as int].0[kk] == x;
                            assert(candidate.faces_to_remove@[kk] as u64 == x as u64);
                        }
                    }
                }
            }
            c = c + 1;
        }
        proof {
            self.lemma_wf();
            assert forall|cc: int, k: int| 0 <= cc < cvs.len() && 0 <= k < cvs[cc].0.len() implies #[trigger] cvs[cc].0[k] < tris0.len() by {
                assert(cvs[cc].0[k] == candidates@[cc].faces_to_remove@[k]);
            }
            lemma_claimed_within(cvs, cvs.len() as int, tris0.len() as int);
            lemma_count_below(claimed_upto(cvs, cvs.len() as int), tris0.len() as int);
            lemma_kept_len(tris0, claimed_upto(cvs, cvs.len() as int), tris0.len() as int);
            self.lemma_wf();
        }
        let ghost claimed = claimed_upto(cvs, cvs.len() as int);
        let mut faces: Vec<Face> = Vec::new();
        let face_count = self.face_count();
        let mut i: usize = 0;
        while i < face_count
            invariant
                i <= face_count,
                face_count == tris0.len(),
                face_count <= u32::MAX,
                tris0 == self.tris(),
                forall|x: u32| #[trigger] id_set_contents(to_remove).contains(x as u64) == claimed.contains(x),
                face_tris(faces@) == kept(tris0, claimed, i as int),
            decreases face_count - i,
        {
            let keep = !to_remove.contains(i as u64);
            assert(keep == !claimed.contains(i as u32));
            if keep {
                faces.push(*self.face(i as u32));
            }
            i = i + 1;
            assert(face_tris(faces@) =~= kept(tris0, claimed, i as int));
        }
        let mut j: usize = 0;
        let ghost kept_tris = face_tris(faces@);
        while j < additions.len()
            invariant
                j <= additions@.len(),
                face_tris(faces@) == kept_tris + face_tris(additions@).take(j as int),
            decreases additions@.len() - j,
        {
            let ghost pre = faces@;
            faces.push(additions[j]);
            proof {
                let ad = face_tris(additions@);
                assert(face_tris(faces@) =~= face_tris(pre).push(additions@[j as int]@));
                assert(ad.take(j + 1) =~= ad.take(j as int).push(ad[j as int]));
            }
            j = j + 1;
        }
        assert(face_tris(additions@).take(j as int) =~= face_tris(additions@));
        proof {
            let v = self.vdata().len() as int;
            let kt = kept(tris0, claimed, tris0.len() as int);
            let ad = added_upto(cvs, cvs.len() as int);
            assert(face_tris(faces@) == kt + ad);
            lemma_kept_corners(tris0, claimed, tris0.len() as int, v);
            lemma_added_corners(cvs, cvs.len() as int, v);
            assert forall|i: int, k: int| 0 <= i < kt.len() + ad.len() && 0 <= k < 3 implies #[trigger] corner(
                (kt + ad)[i],
                k,
            ) < v by {
                if i < kt.len() {
                    assert(corner(kt[i], k) < v);
                } else {
                    assert(corner(ad[i - kt.len()], k) < v);
                }
            }
        }
        self.set_faces(faces);
        count
    }
}

impl<D: Clone> MizuMesh<D> {
    /// Records vertex `vertex` as kept, after those of `order`: when it is
    /// new, a clone of it is added, under the next position.
    fn keep_vertex(&self, vertex: u32, map: &mut IdMap, kept_vertices: &mut Vec<Vertex<D>>, Ghost(order): Ghost<Seq<u32>>)
        requires
            vertex < self.vdata().len(),
            order.no_duplicates(),
            renumbers(id_map_contents(*old(map)), order),
            old(kept_vertices)@.len() == order.len(),
            forall|k: int| 0 <= k < order.len() ==> #[trigger] order[k] < self.vdata().len(),
            forall|k: int| 0 <= k < order.len() ==> cloned(self.vdata()[order[k] as int], #[trigger] old(kept_vertices)@[k]@),
        ensures
            ({
                let next = if order.contains(vertex) {
                    order
                } else {
                    order.push(vertex)
                };
                &&& next.no_duplicates()
                &&& renumbers(id_map_contents(*final(map)), next)
                &&& final(kept_vertices)@.len() == next.len()
                &&& forall|k: int| 0 <= k < next.len() ==> #[trigger] next[k] < self.vdata().len()
                &&& forall|k: int| 0 <= k < next.len() ==> cloned(self.vdata()[next[k] as int], #[trigger] final(kept_vertices)@[k]@)
            }),
    {
        if map.get(vertex as u64).is_none() {
            proof {
                lemma_distinct_u32_len(order.push(vertex));
            }
            let position = kept_vertices.len() as u64;
            map.insert(vertex as u64, position);
            kept_vertices.push(Vertex::new(self.vertex(vertex).data().clone()));
            proof {
                let next = order.push(vertex);
                assert forall|x: u32| #[trigger] id_map_contents(*map).dom().contains(x as u64) == next.contains(x) by {
                    if x == vertex {
                        assert(next[order.len() as int] == x);
                    } else if order.contains(x) {
                        let k = choose|k: int| 0 <= k < order.len() && order[k] == x;
                        assert(next[k] == x);
                    } else if next.contains(x) {
                        let k = choose|k: int| 0 <= k < next.len() && next[k] == x;
                        assert(k < order.len());
                        assert(order[k] == x);
                    }
                }
                assert forall|k: int| 0 <= k < next.len() implies id_map_contents(*map)[#[trigger] next[k] as u64] == k by {
                    if k < order.len() {
                        assert(next[k] == order[k]);
                        assert(order.contains(order[k]));
                    }
                }
            }
        }
    }

    /// Keeps only the vertices that some face uses, numbered in the order in
    /// which the faces first use them, and renumbers the faces' corners to
    /// match.
    pub fn prune_vertices(&mut self)
        requires
            old(self).wf(),
        ensures
            final(self).wf(),
            pruned_from(*old(self), *final(self)),
    {
        let ghost tris = self.tris();
        let ghost cs = tri_corners(tris);
        proof {
            self.lemma_wf();
        }
        let mut vertex_map = IdMap::new();
        let mut kept_vertices: Vec<Vertex<D>> = Vec::new();
        let face_count = self.face_count();
        let mut i: usize = 0;
        proof {
            assert(renumbers(id_map_contents(vertex_map), first_seen(cs, 0)));
        }
        while i < face_count
            invariant
                i <= face_count,
                face_count == tris.len(),
                tris == self.tris(),
                cs == tri_corners(tris),
                self.wf(),
                first_seen(cs, 3 * i).no_duplicates(),
                renumbers(id_map_contents(vertex_map), first_seen(cs, 3 * i)),
                kept_vertices@.len() == first_seen(cs, 3 * i).len(),
                forall|k: int| 0 <= k < first_seen(cs, 3 * i).len() ==> #[trigger] first_seen(cs, 3 * i)[k] < self.vdata().len(),
                forall|k: int|
                    0 <= k < first_seen(cs, 3 * i).len() ==> cloned(
                        self.vdata()[first_seen(cs, 3 * i)[k] as int],
                        #[trigger] kept_vertices@[k]@,
                    ),
            decreases face_count - i,
        {
            let vertices = *self.face(i as u32).vertices();
            proof {
                self.lemma_wf();
                assert(cs[3 * i] == vertices[0]);
                assert(cs[3 * i + 1] == vertices[1]);
                assert(cs[3 * i + 2] == vertices[2]);
                assert(corner(tris[i as int], 0) < self.vdata().len());
                assert(corner(tris[i as int], 1) < self.vdata().len());
                assert(corner(tris[i as int], 2) < self.vdata().len());
            }
            self.keep_vertex(vertices[0], &mut vertex_map, &mut kept_vertices, Ghost(first_seen(cs, 3 * i)));
            self.keep_vertex(vertices[1], &mut vertex_map, &mut kept_vertices, Ghost(first_seen(cs, 3 * i + 1)));
            self.keep_vertex(vertices[2], &mut vertex_map, &mut kept_vertices, Ghost(first_seen(cs, 3 * i + 2)));
            i = i + 1;
        }
        let ghost order = first_seen(cs, (3 * tris.len()) as int);
        proof {
            lemma_first_seen(cs, (3 * tris.len()) as int);
        }
        let mut faces: Vec<Face> = Vec::new();
        let mut i: usize = 0;
        while i < face_count
            invariant
                i <= face_count,
                face_count == tris.len(),
                tris == self.tris(),
                cs == tri_corners(tris),
                tris.len() <= u32::MAX,
                order == first_seen(cs, (3 * tris.len()) as int),
                forall|k: int| 0 <= k < 3 * tris.len() ==> order.contains(#[trigger] cs[k]),
                renumbers(id_map_contents(vertex_map), order),
                order.no_duplicates(),
                faces@.len() == i,
                forall|ii: int, c: int|
                    0 <= ii < i && 0 <= c < 3 ==> #[trigger] corner(face_tris(faces@)[ii], c) < order.len() && order[corner(
                        face_tris(faces@)[ii],
                        c,
                    ) as int] == corner(tris[ii], c),
            decreases face_count - i,
        {
            let vertices = *self.face(i as u32).vertices();
            proof {
                lemma_distinct_u32_len(order);
                assert(cs[3 * i] == vertices[0]);
                assert(cs[3 * i + 1] == vertices[1]);
                assert(cs[3 * i + 2] == vertices[2]);
                assert(order.contains(cs[3 * i]));
                assert(order.contains(cs[3 * i + 1]));
                assert(order.contains(cs[3 * i + 2]));
            }
            let x = self.renumbered(&vertex_map, vertices[0], Ghost(order));
            let y = self.renumbered(&vertex_map, vertices[1], Ghost(order));
            let z = self.renumbered(&vertex_map, vertices[2], Ghost(order));
            let ghost pre = faces@;
            faces.push(Face::new([x, y, z]));
            proof {
                assert(face_tris(faces@) =~= face_tris(pre).push((x, y, z)));
            }
            i = i + 1;
        }
        proof {
            assert forall|ii: int, c: int| 0 <= ii < face_tris(faces@).len() && 0 <= c < 3 implies #[trigger] corner(
                face_tris(faces@)[ii],
                c,
            ) < kept_vertices@.len() by {
                assert(corner(face_tris(faces@)[ii], c) < order.len());
            }
        }
        self.set_vertices_and_faces(kept_vertices, faces);
        proof {
            assert forall|i: int, c: int| 0 <= i < tris.len() && 0 <= c < 3 implies #[trigger] corner(self.tris()[i], c) < order.len() && order[corner(self.tris()[i], c) as int] == corner(tris[i], c) by {
                assert(self.tris()[i] == face_tris(faces@)[i]);
            }
        }
    }

    /// The two-face candidates found at every side of every face, face by
    /// face.
    fn third_form_candidates<C, L>(&self, coplanar: &C, collinear: &L) -> (r: Vec<SimplificationCandidate>) where
        C: Fn(&MizuMesh<D>, u32, u32) -> bool,
        L: Fn(&MizuMesh<D>, u32, u32, u32) -> bool,

        requires
            self.wf(),
            forall|m: &MizuMesh<D>, a: u32, b: u32| coplanar.requires((m, a, b)),
            forall|m: &MizuMesh<D>, a: u32, b: u32, c: u32| collinear.requires((m, a, b, c)),
            forall|i: u32| i < self.tris().len() ==> #[trigger] third_form_distinct(*self, *coplanar, i),
        ensures
            forall|k: int|
                0 <= k < r@.len() ==> fits(
                    #[trigger] candidate_view(r@[k]),
                    self.tris().len() as int,
                    self.vdata().len() as int,
                ),
            third_found_upto(*self, *coplanar, *collinear, self.tris().len() as int, candidate_views(r@)),
    {
        proof {
            self.lemma_wf();
        }
        let mut all: Vec<SimplificationCandidate> = Vec::new();
        let face_count = self.face_count();
        let mut i: usize = 0;
        while i < face_count
            invariant
                i <= face_count,
                face_count == self.tris().len(),
                face_count <= u32::MAX,
                self.wf(),
                forall|m: &MizuMesh<D>, a: u32, b: u32| coplanar.requires((m, a, b)),
                forall|m: &MizuMesh<D>, a: u32, b: u32, c: u32| collinear.requires((m, a, b, c)),
                forall|i: u32| i < self.tris().len() ==> #[trigger] third_form_distinct(*self, *coplanar, i),
                forall|k: int|
                    0 <= k < all@.len() ==> fits(
                        #[trigger] candidate_view(all@[k]),
                        self.tris().len() as int,
                        self.vdata().len() as int,
                    ),
                third_found_upto(*self, *coplanar, *collinear, i as int, candidate_views(all@)),
            decreases face_count - i,
        {
            assert(third_form_distinct(*self, *coplanar, i as u32));
            let mut found = self.is_third_form_simplifiable_face(i as u32, coplanar, collinear);
            proof {
                let os = choose|os: Seq<Option<(Seq<u32>, Seq<Tri>)>>|
                    {
                        &&& os.len() == 3
                        &&& forall|s: int|
                            0 <= s < 3 ==> third_form_outcome(*self, *coplanar, *collinear, i as u32, s, #[trigger] os[s])
                        &&& candidate_views(found@) == somes(os)
                    };
                lemma_somes_member(os);
                assert forall|k: int| 0 <= k < found@.len() implies fits(
                    #[trigger] candidate_view(found@[k]),
                    self.tris().len() as int,
                    self.vdata().len() as int,
                ) by {
                    assert(candidate_views(found@)[k] == candidate_view(found@[k]));
                    let s = choose|s: int| 0 <= s < os.len() && os[s] == Some(#[trigger] somes(os)[k]);
                    lemma_third_fits(*self, *coplanar, *collinear, i as u32, s, candidate_view(found@[k]));
                }
            }
            let ghost before = all@;
            let ghost new_found = found@;
            all.append(&mut found);
            proof {
                assert forall|k: int| 0 <= k < all@.len() implies fits(
                    #[trigger] candidate_view(all@[k]),
                    self.tris().len() as int,
                    self.vdata().len() as int,
                ) by {
                    if k >= before.len() {
                        assert(all@[k] == new_found[k - before.len()]);
                    } else {
                        assert(all@[k] == before[k]);
                    }
                }
            }
            proof {
                assert(third_found_at(*self, *coplanar, *collinear, i as u32, candidate_views(new_found)));
                lemma_third_found_step(*self, *coplanar, *collinear, i as int, candidate_views(before), candidate_views(new_found));
                assert(candidate_views(all@) =~= candidate_views(before) + candidate_views(new_found));
            }
            i = i + 1;
        }
        all
    }

    /// The four-face candidates found at every side of every face, face by
    /// face.
    fn second_form_candidates<C, L>(&self, coplanar: &C, collinear: &L) -> (r: Vec<SimplificationCandidate>) where
        C: Fn(&MizuMesh<D>, u32, u32) -> bool,
        L: Fn(&MizuMesh<D>, u32, u32, u32) -> bool,

        requires
            self.wf(),
            forall|m: &MizuMesh<D>, a: u32, b: u32| coplanar.requires((m, a, b)),
            forall|m: &MizuMesh<D>, a: u32, b: u32, c: u32| collinear.requires((m, a, b, c)),
        ensures
            forall|k: int|
                0 <= k < r@.len() ==> fits(
                    #[trigger] candidate_view(r@[k]),
                    self.tris().len() as int,
                    self.vdata().len() as int,
                ),
            r@.len() == 0 ==> second_form_free(*self, *coplanar, *collinear),
            second_found_upto(*self, *coplanar, *collinear, self.tris().len() as int, candidate_views(r@)),
    {
        proof {
            self.lemma_wf();
        }
        let mut all: Vec<SimplificationCandidate> = Vec::new();
        let face_count = self.face_count();
        let mut i: usize = 0;
        while i < face_count
            invariant
                i <= face_count,
                face_count == self.tris().len(),
                face_count <= u32::MAX,
                self.wf(),
                forall|m: &MizuMesh<D>, a: u32, b: u32| coplanar.requires((m, a, b)),
                forall|m: &MizuMesh<D>, a: u32, b: u32, c: u32| collinear.requires((m, a, b, c)),
                forall|k: int|
                    0 <= k < all@.len() ==> fits(
                        #[trigger] candidate_view(all@[k]),
                        self.tris().len() as int,
                        self.vdata().len() as int,
                    ),
                second_found_upto(*self, *coplanar, *collinear, i as int, candidate_views(all@)),
                all@.len() == 0 ==> forall|j: u32, s: int|
                    j < i && 0 <= s < 3 ==> #[trigger] second_form_outcome(*self, *coplanar, *collinear, j, s, None),
            decreases face_count - i,
        {
            let mut found = self.is_second_form_simplifiable_face(i as u32, coplanar, collinear);
            proof {
                let os = choose|os: Seq<Option<(Seq<u32>, Seq<Tri>)>>|
                    {
                        &&& os.len() == 3
                        &&& forall|s: int|
                            0 <= s < 3 ==> second_form_outcome(*self, *coplanar, *collinear, i as u32, s, #[trigger] os[s])
                        &&& candidate_views(found@) == somes(os)
                    };
                lemma_somes_member(os);
                assert forall|k: int| 0 <= k < found@.len() implies fits(
                    #[trigger] candidate_view(found@[k]),
                    self.tris().len() as int,
                    self.vdata().len() as int,
                ) by {
                    assert(candidate_views(found@)[k] == candidate_view(found@[k]));
                    let s = choose|s: int| 0 <= s < os.len() && os[s] == Some(#[trigger] somes(os)[k]);
                    lemma_second_fits(*self, *coplanar, *collinear, i as u32, s, candidate_view(found@[k]));
                }
            }
            let ghost before = all@;
            let ghost new_found = found@;
            all.append(&mut found);
            proof {
                assert forall|k: int| 0 <= k < all@.len() implies fits(
                    #[trigger] candidate_view(all@[k]),
                    self.tris().len() as int,
                    self.vdata().len() as int,
                ) by {
                    if k >= before.len() {
                        assert(all@[k] == new_found[k - before.len()]);
                    } else {
                        assert(all@[k] == before[k]);
                    }
                }
            }
            proof {
                if all@.len() == 0 {
                    assert(before.len() == 0 && new_found.len() == 0);
                    let os = choose|os: Seq<Option<(Seq<u32>, Seq<Tri>)>>|
                        {
                            &&& os.len() == 3
                            &&& forall|s: int|
                                0 <= s < 3 ==> second_form_outcome(*self, *coplanar, *collinear, i as u32, s, #[trigger] os[s])
                            &&& candidate_views(new_found) == somes(os)
                        };
                    lemma_somes_empty(os);
                    assert forall|j: u32, s: int| j < i + 1 && 0 <= s < 3 implies #[trigger] second_form_outcome(*self, *coplanar, *collinear, j, s, None) by {
                        if j == i {
                            assert(os[s] is None);
                        }
                    }
                }
            }
            proof {
                assert(second_found_at(*self, *coplanar, *collinear, i as u32, candidate_views(new_found)));
                lemma_second_found_step(*self, *coplanar, *collinear, i as int, candidate_views(before), candidate_views(new_found));
                assert(candidate_views(all@) =~= candidate_views(before) + candidate_views(new_found));
            }
            i = i + 1;
        }
        all
    }

    /// Simplifies the mesh: first replaces pairs of coplanar faces by one
    /// face where they allow it, then, round after round, chains of four
    /// coplanar faces by two, until a round replaces nothing; after each
    /// step only the vertices in use are kept.
    pub fn simplify<C, L>(&mut self, coplanar: &C, collinear: &L) where
        C: Fn(&MizuMesh<D>, u32, u32) -> bool,
        L: Fn(&MizuMesh<D>, u32, u32, u32) -> bool,

        requires
            old(self).wf(),
            forall|m: &MizuMesh<D>, a: u32, b: u32| coplanar.requires((m, a, b)),
            forall|m: &MizuMesh<D>, a: u32, b: u32, c: u32| collinear.requires((m, a, b, c)),
            forall|i: u32| i < old(self).tris().len() ==> #[trigger] third_form_distinct(*old(self), *coplanar, i),
        ensures
            simplified(*old(self), *coplanar, *collinear, *final(self)),
    {
        let ghost start = *self;
        let third_form_candidates = self.third_form_candidates(coplanar, collinear);
        let ghost tcvs = candidate_views(third_form_candidates@);
        proof {
            let cvs = tcvs;
            assert forall|c: int| 0 <= c < cvs.len() implies (#[trigger] cvs[c]).1.len() < cvs[c].0.len() by {
                assert(fits(candidate_view(third_form_candidates@[c]), self.tris().len() as int, self.vdata().len() as int));
            }
            lemma_removed_exceeds(cvs, cvs.len() as int);
            assert forall|c: int, k: int|
                0 <= c < third_form_candidates@.len() && 0 <= k < third_form_candidates@[c].faces_to_remove@.len()
                    implies #[trigger] third_form_candidates@[c].faces_to_remove@[k] < self.tris().len() by {
                assert(fits(candidate_view(third_form_candidates@[c]), self.tris().len() as int, self.vdata().len() as int));
                assert(candidate_view(third_form_candidates@[c]).0[k] == third_form_candidates@[c].faces_to_remove@[k]);
            }
            assert forall|c: int| 0 <= c < cvs.len() implies (#[trigger] cvs[c]).0.no_duplicates() by {
                assert(fits(candidate_view(third_form_candidates@[c]), self.tris().len() as int, self.vdata().len() as int));
            }
            lemma_claimed(cvs, cvs.len() as int, self.tris().len() as int);
            self.lemma_wf();
        }
        self.apply_simplification_candidates(third_form_candidates);
        let ghost third_mid = *self;
        self.prune_vertices();
        let ghost mut trace: Seq<MizuMesh<D>> = seq![*self];
        proof {
            assert(applied(start, tcvs, third_mid));
            assert(third_round(start, *coplanar, *collinear, trace[0]));
        }
        loop
            invariant_except_break
                trace.last() == *self,
            invariant
                self.wf(),
                self.tris().len() <= old(self).tris().len(),
                forall|m: &MizuMesh<D>, a: u32, b: u32| coplanar.requires((m, a, b)),
                forall|m: &MizuMesh<D>, a: u32, b: u32, c: u32| collinear.requires((m, a, b, c)),
                start == *old(self),
                trace.len() > 0,
                third_round(start, *coplanar, *collinear, trace[0]),
                forall|j: int| 0 < j < trace.len() ==> #[trigger] merged_round(trace, *coplanar, *collinear, j),
            ensures
                self.wf(),
                self.tris().len() <= old(self).tris().len(),
                trace.len() > 0,
                third_round(start, *coplanar, *collinear, trace[0]),
                forall|j: int| 0 < j < trace.len() ==> #[trigger] merged_round(trace, *coplanar, *collinear, j),
                second_round(trace.last(), *coplanar, *collinear, *self, 0),
                trace.last().wf(),
                second_form_free(trace.last(), *coplanar, *collinear),
            decreases self.tris().len(),
        {
            let ghost len_before = self.tris().len();
            let ghost before = *self;
            let second_form_candidates = self.second_form_candidates(coplanar, collinear);
            let ghost cvs = candidate_views(second_form_candidates@);
            proof {
                assert forall|c: int| 0 <= c < cvs.len() implies (#[trigger] cvs[c]).1.len() < cvs[c].0.len() by {
                    assert(fits(candidate_view(second_form_candidates@[c]), self.tris().len() as int, self.vdata().len() as int));
                }
                lemma_removed_exceeds(cvs, cvs.len() as int);
                assert forall|c: int, k: int|
                    0 <= c < second_form_candidates@.len() && 0 <= k < second_form_candidates@[c].faces_to_remove@.len()
                        implies #[trigger] second_form_candidates@[c].faces_to_remove@[k] < self.tris().len() by {
                    assert(fits(candidate_view(second_form_candidates@[c]), self.tris().len() as int, self.vdata().len() as int));
                    assert(candidate_view(second_form_candidates@[c]).0[k] == second_form_candidates@[c].faces_to_remove@[k]);
                }
                assert forall|c: int| 0 <= c < cvs.len() implies (#[trigger] cvs[c]).0.no_duplicates() by {
                    assert(fits(candidate_view(second_form_candidates@[c]), self.tris().len() as int, self.vdata().len() as int));
                }
                lemma_claimed(cvs, cvs.len() as int, self.tris().len() as int);
                self.lemma_wf();
            }
            let candidates_merged = self.apply_simplification_candidates(second_form_candidates);
            let ghost mid = *self;
            self.prune_vertices();
            proof {
                assert(applied(before, cvs, mid));
                assert(second_round(before, *coplanar, *collinear, *self, candidates_merged as nat));
            }
            if candidates_merged == 0 {
                proof {
                    if cvs.len() > 0 {
                        lemma_first_accepted(cvs, cvs.len() as int);
                    }
                }
                break;
            }
            proof {
                let tr = trace.push(*self);
                assert forall|j: int| 0 < j < tr.len() implies #[trigger] merged_round(tr, *coplanar, *collinear, j) by {
                    if j < trace.len() {
                        assert(tr[j] == trace[j]);
                        assert(tr[j - 1] == trace[j - 1]);
                        assert(merged_round(trace, *coplanar, *collinear, j));
                    } else {
                        assert(tr[j - 1] == before);
                        assert(tr[j] == *self);
                        assert(second_round(tr[j - 1], *coplanar, *collinear, tr[j], candidates_merged as nat));
                    }
                }
                trace = tr;
            }
            assert(self.tris().len() < len_before);
        }
        proof {
            assert(start == *old(self));
        }
    }

    /// The position of a kept vertex.
    fn renumbered(&self, map: &IdMap, vertex: u32, Ghost(order): Ghost<Seq<u32>>) -> (r: u32)
        requires
            renumbers(id_map_contents(*map), order),
            order.contains(vertex),
            order.no_duplicates(),
            order.len() <= u32::MAX + 1,
        ensures
            r < order.len(),
            order[r as int] == vertex,
    {
        let ghost k = choose|k: int| 0 <= k < order.len() && order[k] == vertex;
        match map.get(vertex as u64) {
            Some(position) => {
                assert(position == k);
                position as u32
            },
            None => {
                assert(false);
                0
            },
        }
    }
}

} // verus!
