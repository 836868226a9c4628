use loom_weave::cycle::{Cycle, EdgeAdjacency};
use loom_weave::translate::graph_to_map;
use loom_weave::weave::{smallest_common, try_stitch, weave, WeaveError};
use std::collections::{HashMap, HashSet};

fn grid_adjacency() -> HashMap<u32, HashSet<u32>> {
    // 0 1 2 3
    // 4 5 6 7
    let n0: &[u32] = &[1, 4];
    let n1: &[u32] = &[0, 2, 5];
    let n2: &[u32] = &[1, 3, 6];
    let n3: &[u32] = &[2, 7];
    let n4: &[u32] = &[0, 5];
    let n5: &[u32] = &[1, 4, 6];
    let n6: &[u32] = &[2, 5, 7];
    let n7: &[u32] = &[3, 6];
    let g: Vec<(u32, &[u32])> = vec![(0, n0), (1, n1), (2, n2), (3, n3), (4, n4), (5, n5), (6, n6), (7, n7)];
    graph_to_map(&g)
}

fn grid_edges() -> Vec<(u32, u32)> {
    vec![(0, 1), (1, 2), (2, 3), (4, 5), (5, 6), (6, 7), (0, 4), (1, 5), (2, 6), (3, 7)]
}

fn grid_edge_adjacency() -> EdgeAdjacency {
    EdgeAdjacency {
        entries: vec![
            ((0, 1), vec![(4, 5)]),
            ((1, 2), vec![(5, 6)]),
            ((2, 3), vec![(6, 7)]),
            ((4, 5), vec![(0, 1)]),
            ((5, 6), vec![(1, 2)]),
            ((6, 7), vec![(2, 3)]),
            ((1, 5), vec![(2, 6), (0, 4)]),
            ((2, 6), vec![(1, 5), (3, 7)]),
            ((0, 4), vec![(1, 5)]),
            ((3, 7), vec![(2, 6)]),
        ],
    }
}

fn no_partner_table() -> EdgeAdjacency {
    EdgeAdjacency { entries: grid_edges().into_iter().map(|e| (e, vec![])).collect() }
}

fn grid_loom() -> Vec<Cycle> {
    vec![Cycle::new(vec![0, 1, 5, 4]), Cycle::new(vec![2, 3, 7, 6])]
}

#[test]
fn smallest_common_is_least() {
    assert_eq!(smallest_common(&vec![(3, 4), (1, 9), (1, 2)], &vec![(1, 9), (3, 4)]), Some((1, 9)));
    assert_eq!(smallest_common(&vec![(3, 4)], &vec![(1, 2)]), None);
    assert_eq!(smallest_common(&vec![], &vec![(1, 2)]), None);
}

#[test]
fn try_stitch_picks_bridge_and_candidate() {
    let loom = grid_loom();
    let ea = grid_edge_adjacency();
    assert_eq!(try_stitch(&loom[0], &loom[1], &ea), Some(((1, 5), (2, 6))));
    assert_eq!(try_stitch(&loom[0], &loom[1], &no_partner_table()), None);
}

#[test]
fn weave_two_squares_into_one_tour() {
    let adj = grid_adjacency();
    let ea = grid_edge_adjacency();
    let tour = weave(grid_loom(), &adj, &ea).unwrap();
    assert_eq!(tour.data, vec![1, 0, 4, 5, 6, 7, 3, 2]);
    assert!(tour.joined);
    let mut nodes = tour.data.clone();
    nodes.sort();
    assert_eq!(nodes, (0..8).collect::<Vec<u32>>());
    let n = tour.data.len();
    for i in 0..n {
        assert!(adj[&tour.data[i]].contains(&tour.data[(i + 1) % n]));
    }
}

#[test]
fn weave_is_reproducible() {
    let adj = grid_adjacency();
    let ea = grid_edge_adjacency();
    let first = weave(grid_loom(), &adj, &ea).unwrap();
    let second = weave(grid_loom(), &adj, &ea).unwrap();
    assert_eq!(first.data, second.data);
}

#[test]
fn weave_without_bridges_fails() {
    let adj = grid_adjacency();
    assert_eq!(weave(grid_loom(), &adj, &no_partner_table()).err(), Some(WeaveError::NoLegalStitching));
}

#[test]
fn weave_single_cycle_is_unchanged() {
    let adj = grid_adjacency();
    let ea = grid_edge_adjacency();
    let tour = weave(vec![Cycle::new(vec![0, 1, 5, 4])], &adj, &ea).unwrap();
    assert_eq!(tour.data, vec![0, 1, 5, 4]);
    assert!(!tour.joined);
}

#[test]
fn weave_with_bridge_on_forward_seam() {
    let adj = grid_adjacency();
    let ea = grid_edge_adjacency();
    let loom = vec![Cycle::new(vec![1, 0, 4, 5]), Cycle::new(vec![2, 3, 7, 6])];
    let tour = weave(loom, &adj, &ea).unwrap();
    assert_eq!(tour.data, vec![1, 0, 4, 5, 6, 7, 3, 2]);
    let n = tour.data.len();
    for i in 0..n {
        assert!(adj[&tour.data[i]].contains(&tour.data[(i + 1) % n]));
    }
}
