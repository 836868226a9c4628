use loom_weave::translate::{
    graph_to_map, translate_from_nodes, translate_verts_2d, translate_verts_3d, Vector2D, Vector3D,
};

#[test]
fn graph_to_map_collects_neighbours() {
    let a: &[u32] = &[2, 3, 2];
    let b: &[u32] = &[1];
    let g: Vec<(u32, &[u32])> = vec![(1, a), (2, b)];
    let m = graph_to_map(&g);
    assert_eq!(m.len(), 2);
    assert_eq!(m[&1].len(), 2);
    assert!(m[&1].contains(&2) && m[&1].contains(&3));
    assert!(m[&2].contains(&1));
}

#[test]
fn graph_to_map_later_entry_wins() {
    let a: &[u32] = &[2];
    let b: &[u32] = &[5, 6];
    let g: Vec<(u32, &[u32])> = vec![(1, a), (1, b)];
    let m = graph_to_map(&g);
    assert_eq!(m.len(), 1);
    assert!(!m[&1].contains(&2));
    assert!(m[&1].contains(&5) && m[&1].contains(&6));
}

#[test]
fn verts_3d_and_2d() {
    let v = [(1, -2, 3), (0, 0, -1)];
    assert_eq!(translate_verts_3d(&v), vec![Vector3D { x: 1, y: -2, z: 3 }, Vector3D { x: 0, y: 0, z: -1 }]);
    assert_eq!(translate_verts_2d(&v), vec![Vector2D { x: 1, y: -2 }, Vector2D { x: 0, y: 0 }]);
}

#[test]
fn nodes_to_plane_points() {
    let v = [(1, -2, 3), (0, 5, -1), (7, 7, 7)];
    let r = translate_from_nodes(vec![2, 0, 2], &v);
    assert_eq!(r, vec![Vector2D::new(7, 7), Vector2D::new(1, -2), Vector2D::new(7, 7)]);
    assert!(translate_from_nodes(vec![], &v).is_empty());
}
