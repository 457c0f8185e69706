use mosh_whave::mizu::face::{Face, Vertex};
use mosh_whave::mizu::mesh::MizuMesh;
use mosh_whave::mizu::simplify::{triangles_sides_distinct, SimplificationCandidate};
use mosh_whave::simplify::simplify_mesh;
use mosh_whave::static_or_closure::StaticOrClosure;

/// A square of two triangles sharing the side from 0 to 2.
fn square() -> MizuMesh<u32> {
    MizuMesh::from_buffers(&[10, 11, 12, 13], &[[0, 1, 2], [0, 2, 3]])
}

#[test]
fn mizu_buffers_round_trip() {
    let mesh = square();
    let (vertices, faces) = mesh.to_buffers();
    assert_eq!(vertices, vec![10, 11, 12, 13]);
    assert_eq!(faces, vec![[0, 1, 2], [0, 2, 3]]);
}

#[test]
fn face_sides_and_opposite_corners() {
    let face = Face::new([4, 5, 6]);
    assert_eq!(face.pairs(), [(4, 5), (5, 6), (6, 4)]);
    assert_eq!(face.pair(1), (5, 6));
    assert_eq!(face.vertex_index_opposite_pair(0), 6);
    assert_eq!(face.vertex_index_opposite_pair(1), 4);
    assert_eq!(face.vertex_index_opposite_pair(2), 5);
    assert_eq!(face.vertices(), &[4, 5, 6]);
    assert_eq!(*Vertex::new(3u8).data(), 3);
}

#[test]
fn neighbors_across_the_shared_side() {
    let mesh = square();
    assert_eq!(mesh.neighbors(0), [None, None, Some((1, 0))]);
    assert_eq!(mesh.neighbors(1), [Some((0, 2)), None, None]);
    assert!(mesh.neighbors_contain(0, 1));
    assert!(!mesh.neighbors_contain(0, 0));
    assert!(mesh.neighbors_contain_any(0, &[7, 1]));
    assert!(!mesh.neighbors_contain_any(0, &[7]));
    assert_eq!(mesh.opposites().len(), 2);
    assert_eq!(mesh.face(1).vertices(), &[0, 2, 3]);
    assert_eq!(*mesh.vertex(3).data(), 13);
}

#[test]
fn two_coplanar_triangles_with_a_straight_side_become_one() {
    let mesh = square();
    let always = |_: &MizuMesh<u32>, _: u32, _: u32| true;
    // only 1, 2, 3 lie on a line
    let line = |_: &MizuMesh<u32>, a: u32, b: u32, c: u32| {
        let mut t = [a, b, c];
        t.sort();
        t == [1, 2, 3]
    };
    let candidates = mesh.is_third_form_simplifiable_face(0, &always, &line);
    assert_eq!(candidates.len(), 1);
    assert_eq!(candidates[0].faces_to_remove, vec![0, 1]);
    assert_eq!(candidates[0].new_faces[0].vertices(), &[1, 3, 0]);
    let never = |_: &MizuMesh<u32>, _: u32, _: u32| false;
    assert!(mesh.is_third_form_simplifiable_face(0, &never, &line).is_empty());
}

#[test]
fn applying_candidates_takes_those_that_do_not_overlap() {
    let mut mesh = square();
    let first = SimplificationCandidate { faces_to_remove: vec![0, 1], new_faces: vec![Face::new([1, 3, 0])] };
    let second = SimplificationCandidate { faces_to_remove: vec![1], new_faces: vec![] };
    let taken = mesh.apply_simplification_candidates(vec![first, second]);
    assert_eq!(taken, 1);
    let (vertices, faces) = mesh.to_buffers();
    assert_eq!(vertices, vec![10, 11, 12, 13]);
    assert_eq!(faces, vec![[1, 3, 0]]);
    mesh.prune_vertices();
    let (vertices, faces) = mesh.to_buffers();
    assert_eq!(vertices, vec![11, 13, 10]);
    assert_eq!(faces, vec![[0, 1, 2]]);
}

#[test]
fn simplify_merges_and_prunes() {
    let mut mesh = square();
    let always = |_: &MizuMesh<u32>, _: u32, _: u32| true;
    let line = |_: &MizuMesh<u32>, a: u32, b: u32, c: u32| {
        let mut t = [a, b, c];
        t.sort();
        t == [1, 2, 3]
    };
    mesh.simplify(&always, &line);
    let (vertices, faces) = mesh.to_buffers();
    assert_eq!(faces.len(), 1);
    assert_eq!(vertices.len(), 3);
    assert!(!vertices.contains(&12));
}

#[test]
fn applying_a_candidate_that_repeats_a_face_and_adds_more() {
    let mut mesh = square();
    let split = SimplificationCandidate {
        faces_to_remove: vec![1, 1],
        new_faces: vec![Face::new([0, 2, 3]), Face::new([3, 2, 1])],
    };
    assert_eq!(mesh.apply_simplification_candidates(vec![split]), 1);
    let (_, faces) = mesh.to_buffers();
    assert_eq!(faces, vec![[0, 1, 2], [0, 2, 3], [3, 2, 1]]);
}

#[test]
fn simplify_mesh_keeps_the_buffers() {
    let never = |_: &MizuMesh<char>, _: u32, _: u32| false;
    let any_line = |_: &MizuMesh<char>, _: u32, _: u32, _: u32| true;
    let (vertices, triangles) = simplify_mesh(vec!['a', 'b', 'c', 'd'], vec![[0, 1, 2], [0, 2, 3]], &never, &any_line);
    assert_eq!(vertices, vec!['a', 'b', 'c', 'd']);
    assert_eq!(triangles, vec![[0, 1, 2], [0, 2, 3]]);
}

fn collinear_2d(m: &MizuMesh<[f32; 2]>, a: u32, b: u32, c: u32) -> bool {
    let p = *m.vertex(a).data();
    let q = *m.vertex(b).data();
    let r = *m.vertex(c).data();
    (q[0] - p[0]) * (r[1] - p[1]) - (q[1] - p[1]) * (r[0] - p[0]) == 0.0
}

#[test]
fn simplify_mesh_merges_coplanar_faces() {
    // The triangle (0,0), (2,0), (0,2), split in two at (1,0).
    let always = |_: &MizuMesh<[f32; 2]>, _: u32, _: u32| true;
    let (vertices, triangles) = simplify_mesh(
        vec![[0.0, 0.0], [1.0, 0.0], [2.0, 0.0], [0.0, 2.0]],
        vec![[0, 1, 3], [1, 2, 3]],
        &always,
        &collinear_2d,
    );
    assert_eq!(triangles, vec![[0, 1, 2]]);
    assert_eq!(vertices, vec![[0.0, 0.0], [2.0, 0.0], [0.0, 2.0]]);
}

#[test]
fn triangles_sides_distinct_finds_a_folded_pair() {
    assert!(triangles_sides_distinct(&[[0, 1, 2], [0, 2, 3]]));
    assert!(!triangles_sides_distinct(&[[0, 1, 2], [2, 1, 0]]));
}

#[test]
fn static_or_closure_gives_the_value() {
    let stored: StaticOrClosure<u32, fn() -> u32> = StaticOrClosure::Static(5);
    assert_eq!(stored.get(), 5);
    let computed = StaticOrClosure::Closure(|| 7u32);
    assert_eq!(computed.get(), 7);
    let default: StaticOrClosure<u32, fn() -> u32> = StaticOrClosure::default();
    assert_eq!(default.get(), 0);
}

/// A strip of four triangles between the line of vertices 10, 11, 12 and
/// the line of vertices 13, 14, 15.
fn strip() -> MizuMesh<u32> {
    MizuMesh::from_buffers(&[10, 11, 12, 13, 14, 15], &[[0, 3, 1], [1, 3, 4], [1, 4, 2], [2, 4, 5]])
}

fn on_a_line(m: &MizuMesh<u32>, a: u32, b: u32, c: u32) -> bool {
    let mut t = [*m.vertex(a).data(), *m.vertex(b).data(), *m.vertex(c).data()];
    t.sort();
    t == [10, 11, 12] || t == [13, 14, 15]
}

#[test]
fn a_strip_of_four_coplanar_triangles_is_found_from_both_ends() {
    let mesh = strip();
    let always = |_: &MizuMesh<u32>, _: u32, _: u32| true;
    let from_first = mesh.is_second_form_simplifiable_face(0, &always, &on_a_line);
    assert_eq!(from_first.len(), 1);
    assert_eq!(from_first[0].faces_to_remove, vec![0, 1, 2, 3]);
    assert_eq!(from_first[0].new_faces[0].vertices(), &[0, 3, 2]);
    assert_eq!(from_first[0].new_faces[1].vertices(), &[2, 3, 5]);
    let from_last = mesh.is_second_form_simplifiable_face(3, &always, &on_a_line);
    assert_eq!(from_last.len(), 1);
    assert_eq!(from_last[0].faces_to_remove, vec![3, 2, 1, 0]);
    assert!(mesh.is_second_form_simplifiable_face(1, &always, &on_a_line).is_empty());
    assert!(mesh.is_second_form_simplifiable_face(2, &always, &on_a_line).is_empty());
    let never = |_: &MizuMesh<u32>, _: u32, _: u32| false;
    assert!(mesh.is_second_form_simplifiable_face(0, &never, &on_a_line).is_empty());
}

#[test]
fn simplify_replaces_a_strip_by_two_triangles() {
    let mut mesh = strip();
    let always = |_: &MizuMesh<u32>, _: u32, _: u32| true;
    mesh.simplify(&always, &on_a_line);
    let (vertices, faces) = mesh.to_buffers();
    assert_eq!(vertices, vec![10, 13, 12, 15]);
    assert_eq!(faces, vec![[0, 1, 2], [2, 1, 3]]);
}
