use miratope_groups::{antiprism, cube, oct, polygon, tet};

#[test]
fn polygon_counts() {
    assert_eq!(polygon(5, 1).el_counts(), vec![5, 5, 1]);
    assert_eq!(polygon(7, 2).el_counts(), vec![7, 7, 1])
}

#[test]
fn tet_counts() {
    assert_eq!(tet().el_counts(), vec![4, 6, 4, 1])
}

#[test]
fn cube_counts() {
    assert_eq!(cube().el_counts(), vec![8, 12, 6, 1])
}

#[test]
fn oct_counts() {
    assert_eq!(oct().el_counts(), vec![6, 12, 8, 1])
}

#[test]
fn antiprism_counts() {
    assert_eq!(antiprism(5, 1).el_counts(), vec![10, 20, 12, 1]);
    assert_eq!(antiprism(7, 2).el_counts(), vec![14, 28, 16, 1]);
}

#[test]
fn polygon_edges_wrap_around() {
    let p = polygon(4, 1);
    assert_eq!(p.vertex_count, 4);
    assert_eq!(p.elements[0], vec![vec![0, 1], vec![1, 2], vec![2, 3], vec![3, 0]]);
    assert_eq!(p.elements[1], vec![vec![0, 1, 2, 3]]);
}

#[test]
fn antiprism_structure() {
    let p = antiprism(3, 1);
    assert_eq!(p.vertex_count, 6);
    assert_eq!(p.elements[0][0], vec![0, 1]);
    assert_eq!(p.elements[0][1], vec![0, 2]);
    assert_eq!(p.elements[0][11], vec![5, 1]);
    assert_eq!(p.elements[1][5], vec![10, 11, 0]);
    assert_eq!(p.elements[1][6], vec![1, 5, 9]);
    assert_eq!(p.elements[1][7], vec![3, 7, 11]);
    assert_eq!(p.elements[2], vec![vec![0, 1, 2, 3, 4, 5, 6, 7]]);
}

#[test]
fn empty_polygon() {
    assert_eq!(polygon(0, 1).el_counts(), vec![0, 0, 1]);
}
