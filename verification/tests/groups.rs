use mosh_whave::groups::{calculate_vertex_to_triangle_map, find_coplanar_groups};

#[test]
fn vertex_to_triangle_map_lists_the_triangles_at_each_vertex() {
    let map = calculate_vertex_to_triangle_map(5, &[[0, 1, 2], [0, 2, 3]]);
    assert_eq!(map, vec![vec![0, 1], vec![0], vec![0, 1], vec![1], vec![]]);
    let degenerate = calculate_vertex_to_triangle_map(2, &[[1, 1, 0]]);
    assert_eq!(degenerate, vec![vec![0], vec![0, 0]]);
}

#[test]
fn coplanar_groups_gather_connected_triangles() {
    let triangles = [[0, 1, 2], [0, 2, 3], [4, 5, 6]];
    let map = calculate_vertex_to_triangle_map(7, &triangles);
    let always = |_: usize, _: usize| true;
    assert_eq!(find_coplanar_groups(&triangles, &map, &always), vec![vec![0, 1], vec![2]]);
    let never = |_: usize, _: usize| false;
    assert_eq!(find_coplanar_groups(&triangles, &map, &never), vec![vec![0], vec![1], vec![2]]);
}

#[test]
fn coplanar_groups_grow_depth_first() {
    let triangles = [[0, 1, 2], [2, 3, 4], [4, 5, 6], [0, 6, 7]];
    let map = calculate_vertex_to_triangle_map(8, &triangles);
    let always = |_: usize, _: usize| true;
    assert_eq!(find_coplanar_groups(&triangles, &map, &always), vec![vec![0, 1, 2, 3]]);
    let first_two = |a: usize, b: usize| (a, b) == (0, 1) || (a, b) == (1, 0);
    assert_eq!(find_coplanar_groups(&triangles, &map, &first_two), vec![vec![0, 1], vec![2], vec![3]]);
}
