use mosh_whave::prune::prune_triangles;

#[test]
fn triangles_touching_excluded_vertices_are_dropped() {
    let triangles = [[0, 1, 2], [2, 3, 4], [4, 5, 6], [6, 7, 0]];
    assert_eq!(prune_triangles(&triangles, &[3]), vec![[0, 1, 2], [4, 5, 6], [6, 7, 0]]);
    assert_eq!(prune_triangles(&triangles, &[0, 5]), vec![[2, 3, 4]]);
    assert_eq!(prune_triangles(&triangles, &[]), triangles.to_vec());
    assert_eq!(prune_triangles(&triangles, &[9]), triangles.to_vec());
}

#[test]
fn excluded_vertices_are_compared_as_u32() {
    let big = (1usize << 32) + 2;
    assert_eq!(prune_triangles(&[[0, 1, 2], [3, 4, 5]], &[big]), vec![[3, 4, 5]]);
}
