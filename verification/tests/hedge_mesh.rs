use mosh_whave::hedge::keys::{EdgeKey, FaceKey, OpaqueKey, VertexKey};
use mosh_whave::hedge::mesh::{HedgeMesh, InvalidFaceError};
use mosh_whave::hedge::storage::Storage;

fn f(id: u64) -> FaceKey {
    FaceKey::new(id)
}

/// Three triangles fanned around vertex 0.
fn fan() -> HedgeMesh<u32> {
    let triangles = [(0, 1, 2), (0, 2, 3), (0, 3, 4)];
    let vertices = [10u32, 11, 12, 13, 14];
    let mut mesh = HedgeMesh::from_buffers(&triangles, &vertices);
    mesh.regenerate_invalid_keys();
    mesh
}

#[test]
fn hedge_buffers_round_trip() {
    let triangles = [(0, 1, 2), (0, 2, 3)];
    let vertices = [10u32, 11, 12, 13];
    let mesh = HedgeMesh::from_buffers(&triangles, &vertices);
    let (out_triangles, out_vertices) = mesh.to_buffers();
    assert_eq!(out_triangles, triangles.to_vec());
    assert_eq!(out_vertices, vertices.to_vec());
    assert_eq!(mesh.faces(), vec![f(0), f(1)]);
}

#[test]
fn empty_mesh_gives_empty_buffers() {
    let mesh: HedgeMesh<u32> = HedgeMesh::from_buffers(&[], &[1, 2, 3]);
    let (out_triangles, out_vertices) = mesh.to_buffers();
    assert!(out_triangles.is_empty());
    assert!(out_vertices.is_empty());
}

#[test]
fn faces_carry_placeholder_keys_until_regenerated() {
    let triangles = [(0, 1, 2)];
    let mut mesh = HedgeMesh::from_buffers(&triangles, &[1u32, 2, 3]);
    assert_eq!(
        mesh.is_valid_face(f(0)),
        Err(InvalidFaceError::EdgeHasWrongParentFace(EdgeKey::new(0), FaceKey::invalid()))
    );
    mesh.regenerate_invalid_keys();
    assert_eq!(mesh.is_valid_face(f(0)), Ok(()));
}

#[test]
fn neighbors_follow_twins() {
    let mesh = fan();
    assert_eq!(mesh.face_neighbors(f(0)), vec![f(1)]);
    assert_eq!(mesh.face_neighbors(f(1)), vec![f(0), f(2)]);
    assert!(mesh.is_neighbors(f(0), f(1)));
    assert!(!mesh.is_neighbors(f(0), f(2)));
    let border = mesh.bordering_edges(f(1), f(0));
    assert_eq!(border.len(), 1);
    assert!(border.contains(&EdgeKey::new(3)));
    assert!(mesh.faces_share_contiguous_border(f(1), f(0)));
    assert_eq!(mesh.arity(), 3);
}

#[test]
fn merging_two_faces_makes_a_valid_quad() {
    let mut mesh = fan();
    // face 1 also borders face 2, so the two are merged into a new face
    let merged = mesh.merge_face_pair(f(1), f(0));
    assert_eq!(merged, f(3));
    assert_eq!(mesh.is_valid_face(merged), Ok(()));
    assert_eq!(mesh.faces(), vec![f(2), f(3)]);
    assert_eq!(mesh.arity(), 4);
    assert_eq!(mesh.face_neighbors(merged), vec![f(2)]);
}

#[test]
fn merging_a_face_with_its_only_neighbor_makes_a_quad() {
    let mut mesh = fan();
    // face 1 is face 0's only neighbor; the two still merge into a new face
    let merged = mesh.merge_face_pair(f(0), f(1));
    assert_eq!(merged, f(3));
    assert_eq!(mesh.faces(), vec![f(2), f(3)]);
    assert_eq!(mesh.is_valid_face(merged), Ok(()));
    assert_eq!(mesh.face_neighbors(merged), vec![f(2)]);
}

#[test]
fn a_unit_square_merges_into_one_quad() {
    let mut mesh = HedgeMesh::from_buffers(&[(0, 1, 2), (0, 2, 3)], &[0u32, 1, 2, 3]);
    mesh.regenerate_invalid_keys();
    let merged = mesh.merge_face_pair(f(0), f(1));
    assert_eq!(merged, f(2));
    assert_eq!(mesh.faces(), vec![f(2)]);
    assert_eq!(mesh.is_valid_face(merged), Ok(()));
    assert_eq!(mesh.face_vertex_data(merged).map(|d| d.len()), Some(4));
}

#[test]
fn merging_a_group_leaves_one_face_and_touches_no_other() {
    let mut mesh = fan();
    let merged = mesh.merge_face_group(&[f(0), f(1)]).unwrap();
    let faces = mesh.faces();
    assert!(faces.contains(&f(2)));
    assert!(faces.contains(&merged));
    assert_eq!(faces.len(), 2);
    assert_eq!(mesh.is_valid_face(f(2)), Ok(()));
}

#[test]
fn merging_faces_that_do_not_touch_leaves_both() {
    let mut mesh = fan();
    assert_eq!(mesh.merge_face_group(&[f(0), f(2)]), None);
    assert_eq!(mesh.faces(), vec![f(0), f(1), f(2)]);
}

#[test]
fn a_group_of_one_face_is_that_face_and_an_empty_group_is_none() {
    let mut mesh = fan();
    assert_eq!(mesh.merge_face_group(&[f(1), f(1)]), Some(f(1)));
    assert_eq!(mesh.merge_face_group(&[]), None);
    assert_eq!(mesh.faces(), vec![f(0), f(1), f(2)]);
}

#[test]
fn merging_coplanar_faces_stops_when_told() {
    let mut mesh = fan();
    let coplanar = |_: &HedgeMesh<u32>, _: FaceKey, _: FaceKey| true;
    mesh.merge_coplanar_faces(&coplanar, &|merged: usize, _: usize| merged < 1);
    // the first two faces merge into a new one, then merging stops
    assert_eq!(mesh.faces(), vec![f(2), f(3)]);
}

#[test]
fn merging_coplanar_faces_merges_nothing_without_coplanar_neighbors() {
    let mut mesh = fan();
    let never = |_: &HedgeMesh<u32>, _: FaceKey, _: FaceKey| false;
    mesh.merge_coplanar_faces(&never, &|_: usize, _: usize| true);
    assert_eq!(mesh.faces(), vec![f(0), f(1), f(2)]);
}

#[test]
fn merging_coplanar_faces_goes_on_until_no_pair_is_left() {
    let mut mesh = fan();
    let always = |_: &HedgeMesh<u32>, _: FaceKey, _: FaceKey| true;
    mesh.merge_coplanar_faces(&always, &|_: usize, _: usize| true);
    assert_eq!(mesh.faces(), vec![f(4)]);
    assert_eq!(mesh.is_valid_face(f(4)), Ok(()));
    assert!(mesh.face_neighbors(f(4)).is_empty());
}

#[test]
fn can_merge_pair_checks_what_merging_needs() {
    let mesh = fan();
    assert!(mesh.can_merge_pair(f(1), f(0)));
    assert!(!mesh.can_merge_pair(f(0), f(0)));
    assert!(!mesh.can_merge_pair(f(0), f(2)));
    assert!(!mesh.can_merge_pair(f(0), f(7)));
    assert_eq!(mesh.next_face_id(), 3);
}

#[test]
fn vertex_entries_carry_the_keys_the_vertices_hold() {
    let fresh = HedgeMesh::from_buffers(&[(0, 1, 2)], &[7u32, 8, 9]);
    let entries = fresh.vertex_entries();
    assert_eq!(entries.len(), 3);
    assert!(entries.iter().all(|(k, _)| *k == VertexKey::invalid()));
    let mesh = fan();
    let entries = mesh.vertex_entries();
    let keys: Vec<VertexKey> = entries.iter().map(|(k, _)| *k).collect();
    let data: Vec<u32> = entries.iter().map(|(_, d)| **d).collect();
    assert_eq!(keys, (0..5).map(VertexKey::new).collect::<Vec<_>>());
    assert_eq!(data, vec![10, 11, 12, 13, 14]);
}

#[test]
fn removing_a_face_unlinks_its_twins() {
    let mut mesh = fan();
    assert_eq!(mesh.remove_face_and_edges(f(1)), Some(f(1)));
    assert_eq!(mesh.remove_face_and_edges(f(1)), None);
    assert_eq!(mesh.faces(), vec![f(0), f(2)]);
    assert!(mesh.face_neighbors(f(0)).is_empty());
    assert!(mesh.face_neighbors(f(2)).is_empty());
}

#[test]
fn replacing_a_vertex_moves_edge_ends() {
    let triangles = [(0, 1, 2), (3, 4, 5)];
    let mut mesh = HedgeMesh::from_buffers(&triangles, &[0u32, 1, 2, 3, 4, 5]);
    mesh.regenerate_invalid_keys();
    mesh.replace_vertex(VertexKey::new(3), VertexKey::new(0));
    mesh.prune_unused_vertices();
    let (out_triangles, out_vertices) = mesh.to_buffers();
    // vertex 3 is gone; the later vertices move down one place
    assert_eq!(out_vertices, vec![0, 1, 2, 4, 5]);
    assert_eq!(out_triangles, vec![(0, 1, 2), (0, 3, 4)]);
}

#[test]
fn pruning_drops_unused_vertices() {
    let mut mesh = HedgeMesh::from_buffers(&[(0, 2, 3)], &[5u32, 6, 7, 8]);
    mesh.prune_unused_vertices();
    let (out_triangles, out_vertices) = mesh.to_buffers();
    assert_eq!(out_vertices, vec![5, 7, 8]);
    assert_eq!(out_triangles, vec![(0, 1, 2)]);
}

#[test]
fn keys_wrap_their_identifiers() {
    assert_eq!(VertexKey::new(4).get(), 4);
    assert_eq!(EdgeKey::new(9).get(), 9);
    assert_eq!(FaceKey::invalid().get(), u64::MAX);
    assert!(EdgeKey::new(1) < EdgeKey::new(2));
}

#[test]
fn storage_hands_out_fresh_keys() {
    let mut storage: Storage<VertexKey, u32> = Storage::new();
    assert!(storage.is_empty());
    let a = storage.add(10);
    let b = storage.add(20);
    assert_eq!((a.get(), b.get()), (0, 1));
    assert_eq!(storage.get(a), Some(&10));
    assert_eq!(storage.remove(a), Some(10));
    assert_eq!(storage.get(a), None);
    assert!(!storage.contains(a));
    let c = storage.add(30);
    assert_eq!(c.get(), 2);
    assert_eq!(storage.len(), 2);
    assert_eq!(storage.iter_keys(), vec![b, c]);
    assert_eq!(storage.iter(), vec![&20, &30]);
    if let Some(v) = storage.get_mut(b) {
        *v = 25;
    }
    assert!(storage.set(c, 35));
    assert!(!storage.set(a, 1));
    storage.retain(|_, v| *v > 30);
    assert_eq!(storage.iter_keys(), vec![c]);
    assert_eq!(storage.get(c), Some(&35));
}

#[test]
fn merging_a_vertex_group_keeps_the_largest_key() {
    let triangles = [(0, 1, 2), (3, 4, 5)];
    let mut mesh = HedgeMesh::from_buffers(&triangles, &[0u32, 1, 2, 3, 4, 5]);
    mesh.regenerate_invalid_keys();
    assert_eq!(mesh.merge_vertex_group(&[VertexKey::new(3), VertexKey::new(0)]), Some(VertexKey::new(3)));
    mesh.prune_unused_vertices();
    let (out_triangles, out_vertices) = mesh.to_buffers();
    assert_eq!(out_vertices, vec![1, 2, 3, 4, 5]);
    assert_eq!(out_triangles, vec![(2, 0, 1), (2, 3, 4)]);
}

#[test]
fn merging_an_empty_vertex_group_changes_nothing() {
    let mut mesh = fan();
    assert_eq!(mesh.merge_vertex_group(&[]), None);
    assert_eq!(mesh.faces(), vec![f(0), f(1), f(2)]);
}

#[test]
fn a_unit_square_group_merges_into_the_next_face() {
    let mut mesh = HedgeMesh::from_buffers(&[(0, 1, 2), (0, 2, 3)], &[0u32, 1, 2, 3]);
    mesh.regenerate_invalid_keys();
    assert_eq!(mesh.merge_face_group(&[f(0), f(1)]), Some(f(2)));
    assert_eq!(mesh.faces(), vec![f(2)]);
    assert_eq!(mesh.is_valid_face(f(2)), Ok(()));
}
