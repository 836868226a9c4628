//! Conversions between raw lattice data and the library's own types.
use std::collections::{HashMap, HashSet};
use vstd::prelude::*;

verus! {

broadcast use vstd::std_specs::hash::group_hash_axioms;

/// A lattice point in three dimensions.
#[derive(Clone, Copy, Debug, PartialEq, Eq, Structural)]
pub struct Vector3D {
    pub x: i32,
    pub y: i32,
    pub z: i32,
}

/// A lattice point projected onto the plane of one level.
#[derive(Clone, Copy, Debug, PartialEq, Eq, Structural)]
pub struct Vector2D {
    pub x: i32,
    pub y: i32,
}

impl Vector2D {
    pub fn new(x: i32, y: i32) -> (r: Vector2D)
        ensures
            r.x == x,
            r.y == y,
    {
        Vector2D { x, y }
    }
}

/// The adjacency described by a list of `(node, neighbours)` entries: a later
/// entry for the same node replaces an earlier one.
pub open spec fn graph_spec(g: Seq<(u32, Seq<u32>)>) -> Map<u32, Set<u32>>
    decreases g.len(),
{
    if g.len() == 0 {
        Map::empty()
    } else {
        graph_spec(g.drop_last()).insert(g.last().0, g.last().1.to_set())
    }
}

/// The entries of a graph listing, with each neighbour slice taken as a sequence.
pub open spec fn graph_entries(graph: Seq<(u32, &[u32])>) -> Seq<(u32, Seq<u32>)> {
    graph.map_values(|e: (u32, &[u32])| (e.0, e.1@))
}

/// Builds a set holding exactly the elements of `s`.
fn set_of(s: &[u32]) -> (r: HashSet<u32>)
    ensures
        r@ == s@.to_set(),
{
    let mut r: HashSet<u32> = HashSet::new();
    let mut i: usize = 0;
    while i < s.len()
        invariant
            i <= s@.len(),
            r@ == s@.subrange(0, i as int).to_set(),
        decreases s@.len() - i,
    {
        r.insert(s[i]);
        assert(s@.subrange(0, i + 1) == s@.subrange(0, i as int).push(s@[i as int]));
        proof {
            s@.subrange(0, i as int).lemma_push_to_set_commute(s@[i as int]);
        }
        i = i + 1;
    }
    assert(s@.subrange(0, s@.len() as int) == s@);
    r
}

/// Turns a listing of nodes with their neighbours into an adjacency map.
pub fn graph_to_map(graph: &[(u32, &[u32])]) -> (r: HashMap<u32, HashSet<u32>>)
    ensures
        r@.dom() == graph_spec(graph_entries(graph@)).dom(),
        forall|k: u32| #[trigger]
            r@.contains_key(k) ==> r@[k]@ == graph_spec(graph_entries(graph@))[k],
{
    let mut r: HashMap<u32, HashSet<u32>> = HashMap::new();
    let mut i: usize = 0;
    while i < graph.len()
        invariant
            i <= graph@.len(),
            r@.dom() == graph_spec(graph_entries(graph@).subrange(0, i as int)).dom(),
            forall|k: u32| #[trigger]
                r@.contains_key(k) ==> r@[k]@ == graph_spec(
                    graph_entries(graph@).subrange(0, i as int),
                )[k],
        decreases graph@.len() - i,
    {
        let (node, neighbours) = graph[i];
        let set = set_of(neighbours);
        r.insert(node, set);
        let ghost g = graph_entries(graph@);
        assert(g.subrange(0, i + 1).drop_last() == g.subrange(0, i as int));
        i = i + 1;
    }
    assert(graph_entries(graph@).subrange(0, graph@.len() as int) == graph_entries(graph@));
    r
}

/// Converts raw coordinate triples into points.
pub fn translate_verts_3d(verts: &[(i32, i32, i32)]) -> (r: Vec<Vector3D>)
    ensures
        r@.len() == verts@.len(),
        forall|i: int|
            0 <= i < verts@.len() ==> (#[trigger] r@[i]) == (Vector3D {
                x: verts@[i].0,
                y: verts@[i].1,
                z: verts@[i].2,
            }),
{
    let mut r: Vec<Vector3D> = Vec::new();
    let mut i: usize = 0;
    while i < verts.len()
        invariant
            i <= verts@.len(),
            r@.len() == i,
            forall|j: int|
                0 <= j < i ==> (#[trigger] r@[j]) == (Vector3D {
                    x: verts@[j].0,
                    y: verts@[j].1,
                    z: verts@[j].2,
                }),
        decreases verts@.len() - i,
    {
        let v = verts[i];
        r.push(Vector3D { x: v.0, y: v.1, z: v.2 });
        i = i + 1;
    }
    r
}

/// Converts raw coordinate triples into plane points, dropping the depth.
pub fn translate_verts_2d(verts: &[(i32, i32, i32)]) -> (r: Vec<Vector2D>)
    ensures
        r@.len() == verts@.len(),
        forall|i: int|
            0 <= i < verts@.len() ==> (#[trigger] r@[i]) == (Vector2D {
                x: verts@[i].0,
                y: verts@[i].1,
            }),
{
    let mut r: Vec<Vector2D> = Vec::new();
    let mut i: usize = 0;
    while i < verts.len()
        invariant
            i <= verts@.len(),
            r@.len() == i,
            forall|j: int|
                0 <= j < i ==> (#[trigger] r@[j]) == (Vector2D { x: verts@[j].0, y: verts@[j].1 }),
        decreases verts@.len() - i,
    {
        let v = verts[i];
        r.push(Vector2D { x: v.0, y: v.1 });
        i = i + 1;
    }
    r
}

/// Maps a path of node indices to the plane points of the vertices they name.
pub fn translate_from_nodes(path: Vec<u32>, verts: &[(i32, i32, i32)]) -> (r: Vec<Vector2D>)
    requires
        forall|i: int| 0 <= i < path@.len() ==> (#[trigger] path@[i]) < verts@.len(),
    ensures
        r@.len() == path@.len(),
        forall|i: int|
            0 <= i < path@.len() ==> (#[trigger] r@[i]) == (Vector2D {
                x: verts@[path@[i] as int].0,
                y: verts@[path@[i] as int].1,
            }),
{
    let mut r: Vec<Vector2D> = Vec::new();
    let mut i: usize = 0;
    while i < path.len()
        invariant
            i <= path@.len(),
            r@.len() == i,
            forall|k: int| 0 <= k < path@.len() ==> (#[trigger] path@[k]) < verts@.len(),
            forall|j: int|
                0 <= j < i ==> (#[trigger] r@[j]) == (Vector2D {
                    x: verts@[path@[j] as int].0,
                    y: verts@[path@[j] as int].1,
                }),
        decreases path@.len() - i,
    {
        let index = path[i];
        let (x, y, _) = verts[index as usize];
        r.push(Vector2D::new(x, y));
        i = i + 1;
    }
    r
}

} // verus!
