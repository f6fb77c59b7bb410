use std::sync::Arc;

use dugong_mesh::{compute_cell_cells, compute_cell_faces, compute_cell_points, PrimitiveMesh};

type Point = [f64; 3];

/// Two unit cubes side by side, sharing the internal face at x = 1.
fn two_cubes() -> PrimitiveMesh<Point> {
    let mut points = Vec::new();
    for &(x, y, z) in &[
        (0.0, 0.0, 0.0),
        (1.0, 0.0, 0.0),
        (1.0, 1.0, 0.0),
        (0.0, 1.0, 0.0),
        (0.0, 0.0, 1.0),
        (1.0, 0.0, 1.0),
        (1.0, 1.0, 1.0),
        (0.0, 1.0, 1.0),
        (2.0, 0.0, 0.0),
        (2.0, 1.0, 0.0),
        (2.0, 0.0, 1.0),
        (2.0, 1.0, 1.0),
    ] {
        points.push([x, y, z]);
    }
    let faces = vec![
        vec![1, 5, 6, 2],
        vec![0, 1, 2, 3],
        vec![4, 7, 6, 5],
        vec![0, 4, 5, 1],
        vec![2, 6, 7, 3],
        vec![0, 3, 7, 4],
        vec![8, 10, 11, 9],
        vec![1, 5, 10, 8],
        vec![2, 9, 11, 6],
        vec![1, 8, 9, 2],
        vec![5, 6, 11, 10],
    ];
    let owner = vec![0, 0, 0, 0, 0, 0, 1, 1, 1, 1, 1];
    PrimitiveMesh::new(points, faces, owner, vec![1], 1, 2).unwrap()
}

/// Three cells; cells 0 and 1 share two internal faces, cells 1 and 2 one.
fn chain_with_double_face() -> PrimitiveMesh<Point> {
    let points = vec![[0.0, 0.0, 0.0]; 6];
    let faces = vec![
        vec![0, 1, 2],
        vec![1, 2, 3],
        vec![3, 4, 5],
        vec![0, 5, 4],
        vec![2, 4],
    ];
    let owner = vec![0, 1, 0, 2, 2];
    let neighbor = vec![1, 0, 1];
    PrimitiveMesh::new(points, faces, owner, neighbor, 3, 3).unwrap()
}

#[test]
fn two_cubes_cell_faces_list_owned_then_neighboured_faces() {
    let mesh = two_cubes();
    let cf = mesh.cell_faces();
    assert_eq!(*cf, vec![vec![0, 1, 2, 3, 4, 5], vec![6, 7, 8, 9, 10, 0]]);
}

#[test]
fn two_cubes_cell_cells_are_mutual() {
    let mesh = two_cubes();
    assert_eq!(*mesh.cell_cells(), vec![vec![1], vec![0]]);
}

#[test]
fn two_cubes_cell_points_are_sorted_corner_sets() {
    let mesh = two_cubes();
    let cp = mesh.cell_points();
    assert_eq!(cp[0], vec![0, 1, 2, 3, 4, 5, 6, 7]);
    assert_eq!(cp[1], vec![1, 2, 5, 6, 8, 9, 10, 11]);
}

#[test]
fn shared_faces_repeat_in_cell_cells() {
    let mesh = chain_with_double_face();
    let cc = mesh.cell_cells();
    // Face 0: 0 -> 1; face 1: 1 -> 0; face 2: 0 -> 1.
    assert_eq!(*cc, vec![vec![1, 1, 1], vec![0, 0, 0], vec![]]);
}

#[test]
fn cell_faces_order_owner_part_before_neighbour_part() {
    let mesh = chain_with_double_face();
    let cf = mesh.cell_faces();
    assert_eq!(*cf, vec![vec![0, 2, 1], vec![1, 0, 2], vec![3, 4]]);
}

#[test]
fn cell_points_equal_union_of_face_points() {
    let mesh = chain_with_double_face();
    let cf = mesh.cell_faces();
    let cp = mesh.cell_points();
    for c in 0..mesh.n_cells() {
        let mut expected: Vec<usize> = Vec::new();
        for &f in &cf[c] {
            for &p in &mesh.faces()[f] {
                if !expected.contains(&p) {
                    expected.push(p);
                }
            }
        }
        expected.sort();
        assert_eq!(cp[c], expected);
    }
    assert_eq!(cp[2], vec![0, 2, 4, 5]);
}

#[test]
fn repeated_requests_share_one_table() {
    let mesh = two_cubes();
    let a = mesh.cell_faces();
    let b = mesh.cell_faces();
    assert!(Arc::ptr_eq(&a, &b));
    let a = mesh.cell_cells();
    let b = mesh.cell_cells();
    assert!(Arc::ptr_eq(&a, &b));
    let a = mesh.cell_points();
    let b = mesh.cell_points();
    assert!(Arc::ptr_eq(&a, &b));
    assert_eq!(*a, *b);
}

#[test]
fn compute_cell_faces_on_raw_arrays() {
    let r = compute_cell_faces(&[1, 0, 1], &[0, 1], 2, 3);
    assert_eq!(r, vec![vec![1, 0], vec![0, 2, 1], vec![]]);
}

#[test]
fn compute_cell_cells_reads_only_internal_faces() {
    let r = compute_cell_cells(&[], &[0, 2, 1, 1], &[2, 2], 2, 3);
    assert_eq!(r, vec![vec![2], vec![], vec![0, 2, 2]]);
}

#[test]
fn compute_cell_cells_lists_a_self_neighbour_twice() {
    let r = compute_cell_cells(&[], &[1], &[1], 1, 2);
    assert_eq!(r, vec![vec![], vec![1, 1]]);
}

#[test]
fn compute_cell_points_takes_the_first_n_cells() {
    let faces = vec![vec![4, 2, 0], vec![2, 3, 4], vec![7, 1]];
    let cell_faces = vec![vec![1, 0], vec![2], vec![0]];
    let r = compute_cell_points(&cell_faces, &faces, 2);
    assert_eq!(r, vec![vec![0, 2, 3, 4], vec![1, 7]]);
    let r = compute_cell_points(&cell_faces, &faces, 5);
    assert_eq!(r.len(), 3);
    assert_eq!(r[2], vec![0, 2, 4]);
}
