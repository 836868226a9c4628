use loom_weave::cycle::{canonical, tryit, Cycle, EdgeAdjacency};
use loom_weave::translate::graph_to_map;
use std::collections::{HashMap, HashSet, VecDeque};

fn grid_adjacency() -> HashMap<u32, HashSet<u32>> {
    // 0 1 2 3
    // 4 5 6 7
    let n0: &[u32] = &[1, 4];
    let n1: &[u32] = &[0, 2, 5];
    let n2: &[u32] = &[1, 3, 6];
    let n3: &[u32] = &[2, 7];
    let n4: &[u32] = &[0, 5];
    let n5: &[u32] = &[1, 4, 6];
    let n6: &[u32] = &[2, 5, 7];
    let n7: &[u32] = &[3, 6];
    let g: Vec<(u32, &[u32])> = vec![(0, n0), (1, n1), (2, n2), (3, n3), (4, n4), (5, n5), (6, n6), (7, n7)];
    graph_to_map(&g)
}

fn edge_set(c: &Cycle) -> HashSet<(u32, u32)> {
    c.edges().into_iter().collect()
}

#[test]
fn edges_of_triangle_are_canonical() {
    let c = Cycle::new(vec![3, 1, 2]);
    assert_eq!(c.edges(), vec![(1, 3), (1, 2), (2, 3)]);
}

#[test]
fn canonical_puts_smaller_first() {
    assert_eq!(canonical(5, 2), (2, 5));
    assert_eq!(canonical(2, 5), (2, 5));
}

#[test]
fn rotate_left_endpoint_later() {
    let mut c = Cycle::new(vec![1, 2, 3, 4, 5, 6]);
    let before = edge_set(&c);
    c.rotate_to_edge(4, 3);
    assert_eq!(c.data, vec![4, 5, 6, 1, 2, 3]);
    assert_eq!(edge_set(&c), before);
}

#[test]
fn rotate_right_endpoint_later_reverses() {
    let mut c = Cycle::new(vec![1, 2, 3, 4]);
    let before = edge_set(&c);
    c.rotate_to_edge(2, 3);
    assert_eq!(c.data, vec![2, 1, 4, 3]);
    assert_eq!(edge_set(&c), before);
}

#[test]
fn rotate_reversed_seam_reverses_whole() {
    let mut c = Cycle::new(vec![2, 3, 4, 1]);
    let before = edge_set(&c);
    c.rotate_to_edge(1, 2);
    assert_eq!(c.data, vec![1, 4, 3, 2]);
    assert_eq!(edge_set(&c), before);
}

#[test]
fn join_two_squares() {
    let adj = grid_adjacency();
    let mut a = Cycle::new(vec![0, 1, 5, 4]);
    let mut b = Cycle::new(vec![2, 3, 7, 6]);
    a.join((1, 5), (2, 6), &mut b, &adj);
    assert_eq!(a.data, vec![1, 0, 4, 5, 6, 7, 3, 2]);
    assert_eq!(a.data.len(), 8);
    assert_eq!(b.data, vec![6, 7, 3, 2]);
    let n = a.data.len();
    for i in 0..n {
        let x = a.data[i];
        let y = a.data[(i + 1) % n];
        assert!(adj[&x].contains(&y));
    }
}

#[test]
fn eadjs_gathers_partners() {
    let ea = EdgeAdjacency {
        entries: vec![
            ((1, 5), vec![(2, 6)]),
            ((0, 1), vec![(4, 5), (1, 2)]),
            ((4, 5), vec![(1, 2)]),
            ((0, 4), vec![]),
            ((9, 10), vec![(7, 8)]),
        ],
    };
    let c = Cycle::new(vec![0, 1, 5, 4]);
    let got: HashSet<(u32, u32)> = c.eadjs(&ea).into_iter().collect();
    let want: HashSet<(u32, u32)> = vec![(2, 6), (4, 5), (1, 2)].into_iter().collect();
    assert_eq!(got, want);
    assert_eq!(c.eadjs(&ea).len(), 3);
    assert_eq!(ea.partners_of((0, 1)), vec![(4, 5), (1, 2)]);
    assert!(ea.partners_of((3, 4)).is_empty());
}

#[test]
fn from_queue_keeps_order() {
    let q: VecDeque<u32> = VecDeque::from(vec![7, 8, 9]);
    let c = Cycle::from(q);
    assert_eq!(c.data, vec![7, 8, 9]);
    assert!(!c.joined);
}

#[test]
fn tryit_builds_triangle() {
    let c = tryit();
    assert_eq!(c.data, vec![1, 2, 3]);
    assert!(!c.joined);
}

#[test]
fn rotate_forward_seam_is_unchanged() {
    let mut c = Cycle::new(vec![1, 2, 3, 4]);
    c.rotate_to_edge(1, 4);
    assert_eq!(c.data, vec![1, 2, 3, 4]);
    c.rotate_to_edge(1, 4);
    assert_eq!(c.data, vec![1, 2, 3, 4]);
}

#[test]
fn join_with_forward_seams() {
    let adj = grid_adjacency();
    let mut a = Cycle::new(vec![1, 0, 4, 5]);
    let mut b = Cycle::new(vec![2, 3, 7, 6]);
    a.join((1, 5), (2, 6), &mut b, &adj);
    assert_eq!(a.data, vec![1, 0, 4, 5, 6, 7, 3, 2]);
    let mut c = Cycle::new(vec![0, 1, 5, 4]);
    let mut d = Cycle::new(vec![6, 7, 3, 2]);
    c.join((1, 5), (2, 6), &mut d, &adj);
    assert_eq!(d.data, vec![6, 7, 3, 2]);
    assert_eq!(c.data, vec![1, 0, 4, 5, 6, 7, 3, 2]);
}
