use hyleus::mesh_shapes::{
    capsule_indices, cone_indices, cylinder_indices, flatten, grid_indices, plane_indices, terrain_indices,
};

#[test]
fn single_cell_plane() {
    assert_eq!(plane_indices(0), vec![0, 1, 2, 1, 3, 2]);
}

#[test]
fn plane_indices_name_its_vertices() {
    let v = plane_indices(3);
    assert_eq!(v.len(), 6 * 16);
    assert!(v.iter().all(|&i| i < 25));
    let v = plane_indices(255);
    assert!(v.iter().all(|&i| i < 257 * 257));
}

#[test]
fn grid_layout() {
    assert_eq!(grid_indices(1, 2), vec![0, 3, 1, 3, 4, 1, 1, 4, 2, 4, 5, 2]);
    assert!(grid_indices(0, 5).is_empty());
    assert!(grid_indices(5, 0).is_empty());
    let v = grid_indices(6, 9);
    assert_eq!(v.len(), 6 * 54);
    assert!(v.iter().all(|&i| i < 7 * 10));
}

#[test]
fn capsule_layout() {
    // rings 4: two hemispheres of 3 rings plus 2 cylinder rings = 8 rings, 7 rows.
    assert_eq!(capsule_indices(3, 4), grid_indices(7, 3));
    assert!(capsule_indices(3, 4).iter().all(|&i| i < 8 * 4));
}

#[test]
fn cylinder_layout() {
    let v = cylinder_indices(2);
    assert_eq!(
        v,
        vec![0, 2, 1, 2, 3, 1, 2, 4, 3, 4, 5, 3, 6, 7, 8, 6, 8, 9, 10, 12, 11, 10, 13, 12]
    );
    assert!(cylinder_indices(16).iter().all(|&i| i < 4 * 16 + 6));
}

#[test]
fn cone_layout() {
    assert_eq!(cone_indices(2), vec![0, 1, 2, 0, 2, 3, 4, 6, 5, 4, 7, 6]);
    assert!(cone_indices(32).iter().all(|&i| i < 2 * 32 + 4));
}

#[test]
fn terrain_layout() {
    // One cell: tl 0, tr 2 (next row), bl 1, br 3.
    assert_eq!(terrain_indices(1), vec![0, 1, 3, 0, 3, 2]);
    let v = terrain_indices(10);
    assert_eq!(v.len(), 600);
    assert!(v.iter().all(|&i| i < 121));
    assert!(terrain_indices(0).is_empty());
}

#[test]
fn flatten_copies_vertices_by_index() {
    let vertices = vec!['a', 'b', 'c'];
    assert_eq!(flatten(&vertices, &vec![2, 0, 0, 1]), vec!['c', 'a', 'a', 'b']);
    assert!(flatten(&vertices, &vec![]).is_empty());
}
