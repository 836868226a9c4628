//! Closed node sequences and the operations that splice them together.
use std::collections::{HashMap, HashSet, VecDeque};
use vstd::prelude::*;

verus! {

broadcast use vstd::std_specs::hash::group_hash_axioms;

/// An undirected edge, written with the smaller node first.
pub type Edge = (u32, u32);

/// The canonical form of the edge between `a` and `b`.
pub open spec fn canon(a: u32, b: u32) -> Edge {
    if a < b {
        (a, b)
    } else {
        (b, a)
    }
}

/// The node that follows position `i` in the closed sequence `s`.
pub open spec fn next_of(s: Seq<u32>, i: int) -> u32 {
    s[(i + 1) % (s.len() as int)]
}

/// The edge leaving position `i` of the closed sequence `s`.
pub open spec fn edge_at(s: Seq<u32>, i: int) -> Edge {
    canon(s[i], next_of(s, i))
}

/// Every canonical edge between consecutive nodes of `s`, the wrap-around pair included.
pub open spec fn edge_set(s: Seq<u32>) -> Set<Edge> {
    Set::new(|e: Edge| exists|i: int| 0 <= i < s.len() && edge_at(s, i) == e)
}

/// `s` rotated left by `k` places.
pub open spec fn rotl(s: Seq<u32>, k: int) -> Seq<u32> {
    s.subrange(k, s.len() as int) + s.subrange(0, k)
}

/// Position `i` holds the first occurrence of `x` in `s`.
pub open spec fn is_first_pos(s: Seq<u32>, x: u32, i: int) -> bool {
    0 <= i < s.len() && s[i] == x && forall|j: int| 0 <= j < i ==> s[j] != x
}

/// The position of the first occurrence of `x` in `s`.
pub open spec fn first_pos(s: Seq<u32>, x: u32) -> int {
    choose|i: int| is_first_pos(s, x, i)
}

/// The sequence that `rotate_to_edge(left, right)` makes of `s`: unchanged when
/// the seam already runs from `right` back to `left`, reversed when it runs the
/// other way, and otherwise turned to the later of the two endpoints.
pub open spec fn rotated(s: Seq<u32>, left: u32, right: u32) -> Seq<u32> {
    if s[0] == left && s.last() == right {
        s
    } else if s.last() == left && s[0] == right {
        s.reverse()
    } else if first_pos(s, left) > first_pos(s, right) {
        rotl(s, first_pos(s, left))
    } else {
        rotl(s, first_pos(s, right)).reverse()
    }
}

/// Whether `b` is listed among the neighbours of `a`.
pub open spec fn adjacent(adj: Map<u32, HashSet<u32>>, a: u32, b: u32) -> bool {
    adj.contains_key(a) && adj[a]@.contains(b)
}

/// The orientation of `oedge` that `join` uses once the host sits with `edge` at its seam.
pub open spec fn oriented(adj: Map<u32, HashSet<u32>>, edge: Edge, oedge: Edge) -> Edge {
    if adj[edge.1]@.contains(oedge.0) {
        oedge
    } else {
        (oedge.1, oedge.0)
    }
}

/// A table from each edge to the edges that may replace it when two cycles are spliced.
pub struct EdgeAdjacency {
    pub entries: Vec<(Edge, Vec<Edge>)>,
}

impl EdgeAdjacency {
    /// The splice partners recorded for `e`.
    pub open spec fn partners(&self, e: Edge) -> Set<Edge> {
        Set::new(
            |f: Edge|
                exists|i: int|
                    0 <= i < self.entries@.len() && (#[trigger] self.entries@[i]).0 == e
                        && self.entries@[i].1@.contains(f),
        )
    }

    /// Each key stands in one entry only.
    pub open spec fn wf(&self) -> bool {
        forall|i: int, j: int|
            0 <= i < j < self.entries@.len() ==> (#[trigger] self.entries@[i]).0 != (
            #[trigger] self.entries@[j]).0
    }

    /// Every edge of `es` has an entry.
    pub open spec fn covers(&self, es: Set<Edge>) -> bool {
        forall|e: Edge|
            #[trigger] es.contains(e) ==> exists|i: int|
                0 <= i < self.entries@.len() && self.entries@[i].0 == e
    }

    /// The splice partners recorded for `e`, in table order, each once.
    pub fn partners_of(&self, e: Edge) -> (r: Vec<Edge>)
        requires
            self.wf(),
        ensures
            r@.to_set() == self.partners(e),
            r@.no_duplicates(),
    {
        let mut r: Vec<Edge> = Vec::new();
        let mut i: usize = 0;
        while i < self.entries.len()
            invariant
                i <= self.entries@.len(),
                r@.no_duplicates(),
                forall|f: Edge|
                    r@.contains(f) <==> exists|k: int|
                        0 <= k < i && (#[trigger] self.entries@[k]).0 == e
                            && self.entries@[k].1@.contains(f),
            decreases self.entries@.len() - i,
        {
            let entry = &self.entries[i];
            if entry.0.0 == e.0 && entry.0.1 == e.1 {
                let ghost before = r@;
                add_new(&mut r, &entry.1);
                proof {
                    assert forall|f: Edge|
                        r@.contains(f) <==> exists|k: int|
                            0 <= k < i + 1 && (#[trigger] self.entries@[k]).0 == e
                                && self.entries@[k].1@.contains(f) by {
                        if r@.contains(f) && !before.contains(f) {
                            assert(self.entries@[i as int].1@.contains(f));
                        }
                        if exists|k: int|
                            0 <= k < i + 1 && (#[trigger] self.entries@[k]).0 == e
                                && self.entries@[k].1@.contains(f) {
                            let k = choose|k: int|
                                0 <= k < i + 1 && (#[trigger] self.entries@[k]).0 == e
                                    && self.entries@[k].1@.contains(f);
                            if k == i {
                                assert(entry.1@.contains(f));
                            }
                        }
                    }
                }
            }
            i = i + 1;
        }
        proof {
            assert forall|f: Edge| r@.to_set().contains(f) <==> self.partners(e).contains(f) by {
                if r@.contains(f) {
                    let k = choose|k: int|
                        0 <= k < i && (#[trigger] self.entries@[k]).0 == e
                            && self.entries@[k].1@.contains(f);
                }
            }
            assert(r@.to_set() =~= self.partners(e));
        }
        r
    }
}

/// Whether `v` holds the edge `e`.
pub fn contains_edge(v: &Vec<Edge>, e: Edge) -> (r: bool)
    ensures
        r == v@.contains(e),
{
    let mut i: usize = 0;
    while i < v.len()
        invariant
            i <= v@.len(),
            forall|j: int| 0 <= j < i ==> v@[j] != e,
        decreases v@.len() - i,
    {
        if v[i].0 == e.0 && v[i].1 == e.1 {
            return true;
        }
        i = i + 1;
    }
    false
}

/// Appends to `r` each edge of `list` that it does not hold yet.
fn add_new(r: &mut Vec<Edge>, list: &Vec<Edge>)
    requires
        old(r)@.no_duplicates(),
    ensures
        final(r)@.no_duplicates(),
        forall|f: Edge| #[trigger] final(r)@.contains(f) <==> (old(r)@.contains(f) || list@.contains(f)),
{
    let ghost start = r@;
    let mut j: usize = 0;
    while j < list.len()
        invariant
            j <= list@.len(),
            r@.no_duplicates(),
            forall|f: Edge|
                #[trigger] r@.contains(f) <==> (start.contains(f) || list@.subrange(0, j as int).contains(f)),
        decreases list@.len() - j,
    {
        let x = list[j];
        let ghost prev = r@;
        if !contains_edge(r, x) {
            r.push(x);
            proof {
                assert forall|a: int, b: int| 0 <= a < b < r@.len() implies r@[a] != r@[b] by {
                    if b == r@.len() - 1 {
                        assert(prev[a] == r@[a]);
                    } else {
                        assert(prev[a] != prev[b]);
                    }
                }
            }
        }
        proof {
            assert(list@.subrange(0, j + 1) =~= list@.subrange(0, j as int).push(x));
            assert forall|f: Edge|
                #[trigger] r@.contains(f) <==> (start.contains(f) || list@.subrange(0, j + 1).contains(f)) by {
                if r@.contains(f) && !prev.contains(f) {
                    let k = choose|k: int| 0 <= k < r@.len() && r@[k] == f;
                    assert(f == x);
                    assert(list@.subrange(0, j + 1)[j as int] == x);
                }
                if list@.subrange(0, j + 1).contains(f) && !list@.subrange(0, j as int).contains(f) {
                    let k = choose|k: int| 0 <= k < j + 1 && #[trigger] list@.subrange(0, j + 1)[k] == f;
                    if k < j {
                        assert(list@.subrange(0, j as int)[k] == f);
                    }
                    assert(f == x);
                    if !prev.contains(x) {
                        assert(r@[r@.len() - 1] == x);
                    }
                }
                if prev.contains(f) {
                    let k = choose|k: int| 0 <= k < prev.len() && prev[k] == f;
                    assert(r@[k] == f);
                }
            }
        }
        j = j + 1;
    }
    assert(list@.subrange(0, list@.len() as int) == list@);
}

/// A closed walk over lattice nodes; the last node links back to the first.
#[derive(Clone)]
pub struct Cycle {
    pub data: Vec<u32>,
    pub joined: bool,
}

/// The canonical form of the edge between `a` and `b`.
pub fn canonical(a: u32, b: u32) -> (r: Edge)
    ensures
        r == canon(a, b),
{
    if a < b {
        (a, b)
    } else {
        (b, a)
    }
}

/// The elements of `s` in reverse order.
pub(crate) fn reversed(s: &Vec<u32>) -> (r: Vec<u32>)
    ensures
        r@ == s@.reverse(),
{
    let mut r: Vec<u32> = Vec::new();
    let mut i: usize = s.len();
    while i > 0
        invariant
            i <= s@.len(),
            r@.len() == s@.len() - i,
            forall|j: int| 0 <= j < r@.len() ==> r@[j] == s@[s@.len() - 1 - j],
        decreases i,
    {
        i = i - 1;
        r.push(s[i]);
    }
    assert(r@ =~= s@.reverse());
    r
}

/// `s` rotated left by `k` places.
fn rotated_left(s: &Vec<u32>, k: usize) -> (r: Vec<u32>)
    requires
        k <= s@.len(),
    ensures
        r@ == rotl(s@, k as int),
{
    let mut r: Vec<u32> = Vec::new();
    let mut i: usize = k;
    while i < s.len()
        invariant
            k <= i <= s@.len(),
            r@ == s@.subrange(k as int, i as int),
        decreases s@.len() - i,
    {
        r.push(s[i]);
        i = i + 1;
        assert(r@ =~= s@.subrange(k as int, i as int));
    }
    let mut j: usize = 0;
    while j < k
        invariant
            j <= k <= s@.len(),
            r@ == s@.subrange(k as int, s@.len() as int) + s@.subrange(0, j as int),
        decreases k - j,
    {
        r.push(s[j]);
        j = j + 1;
        assert(r@ =~= s@.subrange(k as int, s@.len() as int) + s@.subrange(0, j as int));
    }
    r
}

/// The position of the first occurrence of `x` in `s`, which must hold it.
fn position(s: &Vec<u32>, x: u32) -> (r: usize)
    requires
        s@.contains(x),
    ensures
        r as int == first_pos(s@, x),
        is_first_pos(s@, x, r as int),
{
    let mut i: usize = 0;
    while i < s.len()
        invariant
            i <= s@.len(),
            s@.contains(x),
            forall|j: int| 0 <= j < i ==> s@[j] != x,
        decreases s@.len() - i,
    {
        if s[i] == x {
            proof {
                lemma_first_pos_unique(s@, x, i as int);
            }
            return i;
        }
        i = i + 1;
    }
    proof {
        let k = choose|k: int| 0 <= k < s@.len() && s@[k] == x;
    }
    0
}

/// The first occurrence of an element is the one position that `first_pos` names.
pub proof fn lemma_first_pos_unique(s: Seq<u32>, x: u32, i: int)
    requires
        is_first_pos(s, x, i),
    ensures
        first_pos(s, x) == i,
{
    let c = first_pos(s, x);
    assert(is_first_pos(s, x, c));
    if c < i {
        assert(s[c] != x);
    }
    if c > i {
        assert(s[i] != x);
    }
}

impl Cycle {
    /// A cycle over `data`, not yet marked as the terminal join.
    pub fn new(data: Vec<u32>) -> (r: Cycle)
        ensures
            r.data@ == data@,
            !r.joined,
    {
        Cycle { data, joined: false }
    }

    /// A cycle over the nodes of a double-ended queue, front first.
    pub fn from(vecdata: VecDeque<u32>) -> (r: Cycle)
        ensures
            r.data@ == vecdata@,
            !r.joined,
    {
        let mut data: Vec<u32> = Vec::new();
        let mut i: usize = 0;
        while i < vecdata.len()
            invariant
                i <= vecdata@.len(),
                data@ == vecdata@.subrange(0, i as int),
            decreases vecdata@.len() - i,
        {
            data.push(vecdata[i]);
            i = i + 1;
            assert(data@ =~= vecdata@.subrange(0, i as int));
        }
        assert(data@ =~= vecdata@);
        Cycle { data, joined: false }
    }

    /// Reorders the cycle so that the edge `left`–`right` sits at its seam.
    pub fn rotate_to_edge(&mut self, left: u32, right: u32)
        requires
            old(self).data@.contains(left),
            old(self).data@.contains(right),
        ensures
            final(self).data@ == rotated(old(self).data@, left, right),
            edge_set(final(self).data@) == edge_set(old(self).data@),
            final(self).joined == old(self).joined,
    {
        proof {
            lemma_rotate_keeps_edges(self.data@, left, right);
        }
        let n = self.data.len();
        if left == self.data[0] && right == self.data[n - 1] {
        } else if left == self.data[n - 1] && right == self.data[0] {
            self.data = reversed(&self.data);
        } else {
            let idx_left = position(&self.data, left);
            let idx_right = position(&self.data, right);
            if idx_left > idx_right {
                self.data = rotated_left(&self.data, idx_left);
            } else {
                let r = rotated_left(&self.data, idx_right);
                self.data = reversed(&r);
            }
        }
    }

    /// Absorbs the nodes of `other` into this cycle, splicing at `edge` and `oedge`:
    /// this cycle is turned to `edge`, `other` to `oedge` in the orientation whose
    /// first node neighbours the second end of `edge`, and `other` follows this one.
    /// The `joined` flag is left to the caller.
    pub fn join(
        &mut self,
        edge: Edge,
        oedge: Edge,
        other: &mut Cycle,
        adj: &HashMap<u32, HashSet<u32>>,
    )
        requires
            old(self).data@.contains(edge.0),
            old(self).data@.contains(edge.1),
            old(other).data@.contains(oedge.0),
            old(other).data@.contains(oedge.1),
            adj@.contains_key(edge.1),
        ensures
            final(other).data@ == rotated(
                old(other).data@,
                oriented(adj@, edge, oedge).0,
                oriented(adj@, edge, oedge).1,
            ),
            final(self).data@ == rotated(old(self).data@, edge.0, edge.1) + final(other).data@,
            final(self).data@.len() == old(self).data@.len() + old(other).data@.len(),
            final(self).joined == old(self).joined,
            (symmetric(adj@) && linked(adj@, old(self).data@) && linked(adj@, old(other).data@)
                && seam_ready(old(self).data@, edge.0, edge.1) && seam_ready(
                old(other).data@,
                oriented(adj@, edge, oedge).0,
                oriented(adj@, edge, oedge).1,
            ) && adjacent(adj@, edge.1, oriented(adj@, edge, oedge).0) && adjacent(
                adj@,
                oriented(adj@, edge, oedge).1,
                edge.0,
            )) ==> linked(adj@, final(self).data@),
    {
        let ghost a0 = self.data@;
        let ghost b0 = other.data@;
        self.rotate_to_edge(edge.0, edge.1);
        let neighs = adj.get(&edge.1).unwrap();
        let mut o_edge = (oedge.0, oedge.1);
        if !neighs.contains(&oedge.0) {
            o_edge = (oedge.1, oedge.0);
        }
        other.rotate_to_edge(o_edge.0, o_edge.1);
        proof {
            lemma_rotated_len(old(self).data@, edge.0, edge.1);
            lemma_rotated_len(old(other).data@, o_edge.0, o_edge.1);
        }
        let mut i: usize = 0;
        let ghost start = self.data@;
        while i < other.data.len()
            invariant
                i <= other.data@.len(),
                self.data@ == start + other.data@.subrange(0, i as int),
                self.joined == old(self).joined,
            decreases other.data@.len() - i,
        {
            self.data.push(other.data[i]);
            i = i + 1;
            assert(self.data@ =~= start + other.data@.subrange(0, i as int));
        }
        proof {
            let o = oriented(adj@, edge, oedge);
            if symmetric(adj@) && linked(adj@, a0) && linked(adj@, b0) && seam_ready(a0, edge.0, edge.1)
                && seam_ready(b0, o.0, o.1) && adjacent(adj@, edge.1, o.0) && adjacent(adj@, o.1, edge.0) {
                lemma_join_linked(adj@, a0, b0, edge, oedge);
                assert(other.data@.subrange(0, i as int) == other.data@);
            }
        }
        assert(other.data@.subrange(0, other.data@.len() as int) == other.data@);
    }

    /// The canonical edges between consecutive nodes, the wrap-around pair included.
    pub fn edges(&self) -> (r: Vec<Edge>)
        requires
            self.data@.len() >= 3,
        ensures
            r@.len() == self.data@.len(),
            forall|i: int| 0 <= i < r@.len() ==> #[trigger] r@[i] == edge_at(self.data@, i),
            r@.to_set() == edge_set(self.data@),
    {
        let n = self.data.len();
        let mut r: Vec<Edge> = Vec::new();
        let mut i: usize = 0;
        while i < n
            invariant
                n == self.data@.len(),
                i <= n,
                r@.len() == i,
                forall|j: int| 0 <= j < i ==> #[trigger] r@[j] == edge_at(self.data@, j),
            decreases n - i,
        {
            let b = if i + 1 < n {
                self.data[i + 1]
            } else {
                self.data[0]
            };
            proof {
                if i + 1 < n {
                    vstd::arithmetic::div_mod::lemma_small_mod((i + 1) as nat, n as nat);
                } else {
                    vstd::arithmetic::div_mod::lemma_mod_self_0(n as int);
                }
            }
            r.push(canonical(self.data[i], b));
            i = i + 1;
        }
        proof {
            assert forall|e: Edge| r@.to_set().contains(e) <==> edge_set(self.data@).contains(e) by {
                if r@.contains(e) {
                    let k = choose|k: int| 0 <= k < r@.len() && r@[k] == e;
                    assert(edge_at(self.data@, k) == e);
                }
                if edge_set(self.data@).contains(e) {
                    let k = choose|k: int| 0 <= k < n && edge_at(self.data@, k) == e;
                    assert(r@[k] == e);
                }
            }
            assert(r@.to_set() =~= edge_set(self.data@));
        }
        r
    }

    /// Every splice partner of every edge of the cycle, each once.
    pub fn eadjs(&self, edge_adj: &EdgeAdjacency) -> (r: Vec<Edge>)
        requires
            self.data@.len() >= 3,
            edge_adj.wf(),
            edge_adj.covers(edge_set(self.data@)),
        ensures
            r@.no_duplicates(),
            forall|f: Edge|
                r@.contains(f) <==> exists|e: Edge|
                    #[trigger] edge_set(self.data@).contains(e) && edge_adj.partners(e).contains(f),
    {
        let es = self.edges();
        let mut r: Vec<Edge> = Vec::new();
        let mut i: usize = 0;
        while i < es.len()
            invariant
                i <= es@.len(),
                es@.to_set() == edge_set(self.data@),
                edge_adj.wf(),
                r@.no_duplicates(),
                forall|f: Edge|
                    r@.contains(f) <==> exists|k: int|
                        0 <= k < i && edge_adj.partners(#[trigger] es@[k]).contains(f),
            decreases es@.len() - i,
        {
            let ps = edge_adj.partners_of(es[i]);
            let ghost before = r@;
            add_new(&mut r, &ps);
            proof {
                assert forall|f: Edge|
                    r@.contains(f) <==> exists|k: int|
                        0 <= k < i + 1 && edge_adj.partners(#[trigger] es@[k]).contains(f) by {
                    if r@.contains(f) && !before.contains(f) {
                        assert(ps@.to_set().contains(f));
                    }
                    if exists|k: int|
                        0 <= k < i + 1 && edge_adj.partners(#[trigger] es@[k]).contains(f) {
                        let k = choose|k: int|
                            0 <= k < i + 1 && edge_adj.partners(#[trigger] es@[k]).contains(f);
                        if k == i {
                            assert(ps@.to_set().contains(f));
                        }
                    }
                }
            }
            i = i + 1;
        }
        proof {
            assert forall|f: Edge|
                r@.contains(f) <==> exists|e: Edge|
                    #[trigger] edge_set(self.data@).contains(e) && edge_adj.partners(e).contains(f) by {
                if r@.contains(f) {
                    let k = choose|k: int|
                        0 <= k < es@.len() && edge_adj.partners(#[trigger] es@[k]).contains(f);
                    assert(es@.to_set().contains(es@[k]));
                }
                if exists|e: Edge|
                    #[trigger] edge_set(self.data@).contains(e) && edge_adj.partners(e).contains(f) {
                    let e = choose|e: Edge|
                        #[trigger] edge_set(self.data@).contains(e) && edge_adj.partners(e).contains(f);
                    assert(es@.to_set().contains(e));
                    let k = choose|k: int| 0 <= k < es@.len() && es@[k] == e;
                }
            }
        }
        r
    }
}

/// An element of a concatenation is an element of one of its parts.
pub proof fn lemma_concat_contains(a: Seq<Edge>, b: Seq<Edge>)
    ensures
        forall|f: Edge| #[trigger] (a + b).contains(f) <==> (a.contains(f) || b.contains(f)),
{
    assert forall|f: Edge| #[trigger] (a + b).contains(f) <==> (a.contains(f) || b.contains(f)) by {
        if (a + b).contains(f) {
            let k = choose|k: int| 0 <= k < (a + b).len() && (a + b)[k] == f;
            if k >= a.len() {
                assert(b[k - a.len()] == f);
            }
        }
        if a.contains(f) {
            let k = choose|k: int| 0 <= k < a.len() && a[k] == f;
            assert((a + b)[k] == f);
        }
        if b.contains(f) {
            let k = choose|k: int| 0 <= k < b.len() && b[k] == f;
            assert((a + b)[k + a.len()] == f);
        }
    }
}

/// Rotation keeps the length of a cycle.
pub proof fn lemma_rotated_len(s: Seq<u32>, left: u32, right: u32)
    requires
        s.contains(left),
        s.contains(right),
    ensures
        rotated(s, left, right).len() == s.len(),
{
    let il = first_pos(s, left);
    let ir = first_pos(s, right);
    let a = choose|k: int| 0 <= k < s.len() && s[k] == left;
    let b = choose|k: int| 0 <= k < s.len() && s[k] == right;
    lemma_first_exists(s, left, a);
    lemma_first_exists(s, right, b);
}

/// Rotation reorders a cycle without adding or dropping any node.
pub proof fn lemma_rotated_multiset(s: Seq<u32>, left: u32, right: u32)
    requires
        s.contains(left),
        s.contains(right),
    ensures
        rotated(s, left, right).to_multiset() == s.to_multiset(),
        forall|x: u32| #[trigger] rotated(s, left, right).contains(x) <==> s.contains(x),
{
    let a = choose|k: int| 0 <= k < s.len() && s[k] == left;
    let b = choose|k: int| 0 <= k < s.len() && s[k] == right;
    lemma_first_exists(s, left, a);
    lemma_first_exists(s, right, b);
    let k = if first_pos(s, left) > first_pos(s, right) {
        first_pos(s, left)
    } else {
        first_pos(s, right)
    };
    let lo = s.subrange(0, k);
    let hi = s.subrange(k, s.len() as int);
    assert(s == lo + hi);
    vstd::seq_lib::lemma_seq_union_to_multiset_commutative(lo, hi);
    s.lemma_reverse_to_multiset();
    rotl(s, k).lemma_reverse_to_multiset();
    let t = rotated(s, left, right);
    assert forall|x: u32| #[trigger] t.contains(x) <==> s.contains(x) by {
        vstd::seq_lib::to_multiset_contains(t, x);
        vstd::seq_lib::to_multiset_contains(s, x);
    }
}

/// The two ends of an edge of a cycle are neighbours in it, in either order.
pub proof fn lemma_edge_consecutive(s: Seq<u32>, e: Edge)
    requires
        edge_set(s).contains(e),
    ensures
        consecutive(s, e.0, e.1),
        consecutive(s, e.1, e.0),
{
    let i = choose|i: int| 0 <= i < s.len() && edge_at(s, i) == e;
    assert(0 <= i < s.len() && ((s[i] == e.0 && next_of(s, i) == e.1) || (s[i] == e.1 && next_of(s, i) == e.0)));
}

/// Both ends of an edge of a cycle are nodes of that cycle.
pub proof fn lemma_edge_endpoints(s: Seq<u32>, e: Edge)
    requires
        edge_set(s).contains(e),
    ensures
        s.contains(e.0),
        s.contains(e.1),
{
    let i = choose|i: int| 0 <= i < s.len() && edge_at(s, i) == e;
    let j = (i + 1) % (s.len() as int);
    assert(0 <= j < s.len());
    assert(s[i] == e.0 || s[j] == e.0);
    assert(s[i] == e.1 || s[j] == e.1);
}

/// Any element of a sequence has a first occurrence.
pub proof fn lemma_first_exists(s: Seq<u32>, x: u32, k: int)
    requires
        0 <= k < s.len(),
        s[k] == x,
    ensures
        is_first_pos(s, x, first_pos(s, x)),
    decreases k,
{
    if forall|j: int| 0 <= j < k ==> s[j] != x {
        assert(is_first_pos(s, x, k));
    } else {
        let j = choose|j: int| 0 <= j < k && s[j] == x;
        lemma_first_exists(s, x, j);
    }
}

/// Builds a small cycle over three nodes.
pub fn tryit() -> (r: Cycle)
    ensures
        r.data@ == seq![1u32, 2u32, 3u32],
        !r.joined,
{
    let mut data: VecDeque<u32> = VecDeque::new();
    data.push_back(1);
    data.push_back(2);
    data.push_back(3);
    assert(data@ =~= seq![1u32, 2u32, 3u32]);
    Cycle::from(data)
}

/// The position after `i` in a closed sequence of length `n`.
pub proof fn lemma_next_index(i: int, n: int)
    requires
        0 <= i < n,
    ensures
        (i + 1) % n == if i + 1 < n { i + 1 } else { 0 },
{
    if i + 1 < n {
        vstd::arithmetic::div_mod::lemma_small_mod((i + 1) as nat, n as nat);
    } else {
        vstd::arithmetic::div_mod::lemma_mod_self_0(n);
    }
}

/// A left rotation keeps the edges of a closed sequence.
pub proof fn lemma_rotl_edges(s: Seq<u32>, k: int)
    requires
        0 <= k < s.len(),
    ensures
        edge_set(rotl(s, k)) == edge_set(s),
{
    let n = s.len() as int;
    let t = rotl(s, k);
    assert(t.len() == n);
    assert forall|i: int| 0 <= i < n implies #[trigger] t[i] == s[if i + k < n { i + k } else { i + k - n }] by {}
    assert forall|e: Edge| edge_set(t).contains(e) <==> edge_set(s).contains(e) by {
        if edge_set(t).contains(e) {
            let i = choose|i: int| 0 <= i < n && edge_at(t, i) == e;
            lemma_next_index(i, n);
            let j = if i + k < n { i + k } else { i + k - n };
            lemma_next_index(j, n);
            assert(edge_at(s, j) == e);
        }
        if edge_set(s).contains(e) {
            let j = choose|j: int| 0 <= j < n && edge_at(s, j) == e;
            let i = if j >= k { j - k } else { j + n - k };
            lemma_next_index(i, n);
            lemma_next_index(j, n);
            assert(edge_at(t, i) == e);
        }
    }
    assert(edge_set(t) =~= edge_set(s));
}

/// Reversal keeps the edges of a closed sequence.
pub proof fn lemma_reverse_edges(s: Seq<u32>)
    requires
        s.len() > 0,
    ensures
        edge_set(s.reverse()) == edge_set(s),
{
    let n = s.len() as int;
    let t = s.reverse();
    assert(t.len() == n);
    assert forall|i: int| 0 <= i < n implies #[trigger] t[i] == s[n - 1 - i] by {}
    assert forall|e: Edge| edge_set(t).contains(e) <==> edge_set(s).contains(e) by {
        if edge_set(t).contains(e) {
            let i = choose|i: int| 0 <= i < n && edge_at(t, i) == e;
            lemma_next_index(i, n);
            let j = if i + 1 < n { n - 2 - i } else { n - 1 };
            lemma_next_index(j, n);
            assert(edge_at(s, j) == e);
        }
        if edge_set(s).contains(e) {
            let j = choose|j: int| 0 <= j < n && edge_at(s, j) == e;
            let i = if j + 1 < n { n - 2 - j } else { n - 1 };
            lemma_next_index(i, n);
            lemma_next_index(j, n);
            assert(edge_at(t, i) == e);
        }
    }
    assert(edge_set(t) =~= edge_set(s));
}

/// Rotating a cycle to an edge leaves its set of edges unchanged.
pub proof fn lemma_rotate_keeps_edges(s: Seq<u32>, left: u32, right: u32)
    requires
        s.contains(left),
        s.contains(right),
    ensures
        edge_set(rotated(s, left, right)) == edge_set(s),
{
    let a = choose|k: int| 0 <= k < s.len() && s[k] == left;
    let b = choose|k: int| 0 <= k < s.len() && s[k] == right;
    lemma_first_exists(s, left, a);
    lemma_first_exists(s, right, b);
    if s[0] == left && s.last() == right {
    } else if s.last() == left && s[0] == right {
        lemma_reverse_edges(s);
    } else if first_pos(s, left) > first_pos(s, right) {
        lemma_rotl_edges(s, first_pos(s, left));
    } else {
        lemma_rotl_edges(s, first_pos(s, right));
        lemma_reverse_edges(rotl(s, first_pos(s, right)));
    }
}

/// Every consecutive pair of `s`, the wrap-around pair included, is adjacent.
pub open spec fn linked(adj: Map<u32, HashSet<u32>>, s: Seq<u32>) -> bool {
    forall|i: int| 0 <= i < s.len() ==> adjacent(adj, #[trigger] s[i], next_of(s, i))
}

/// Adjacency runs both ways.
pub open spec fn symmetric(adj: Map<u32, HashSet<u32>>) -> bool {
    forall|a: u32, b: u32| #[trigger] adjacent(adj, a, b) ==> adjacent(adj, b, a)
}

/// `left` and `right` are neighbours in the closed sequence `s`.
pub open spec fn consecutive(s: Seq<u32>, left: u32, right: u32) -> bool {
    exists|i: int|
        0 <= i < s.len() && ((s[i] == left && next_of(s, i) == right) || (s[i] == right && next_of(
            s,
            i,
        ) == left))
}

/// `left` and `right` are neighbours in `s`, which has at least two nodes and no
/// node twice: `rotate_to_edge(left, right)` then puts `left` first and `right` last.
pub open spec fn seam_ready(s: Seq<u32>, left: u32, right: u32) -> bool {
    s.len() >= 2 && s.no_duplicates() && consecutive(s, left, right)
}

/// A left rotation keeps every consecutive pair adjacent.
pub proof fn lemma_rotl_linked(adj: Map<u32, HashSet<u32>>, s: Seq<u32>, k: int)
    requires
        0 <= k < s.len(),
        linked(adj, s),
    ensures
        linked(adj, rotl(s, k)),
{
    let n = s.len() as int;
    let t = rotl(s, k);
    assert(t.len() == n);
    assert forall|i: int| 0 <= i < n implies #[trigger] t[i] == s[if i + k < n { i + k } else { i + k - n }] by {}
    assert forall|i: int| 0 <= i < t.len() implies adjacent(adj, #[trigger] t[i], next_of(t, i)) by {
        lemma_next_index(i, n);
        let j = if i + k < n { i + k } else { i + k - n };
        lemma_next_index(j, n);
        let i2 = if i + 1 < n { i + 1 } else { 0 };
        let j2 = if j + 1 < n { j + 1 } else { 0 };
        assert(t[i2] == s[j2]);
        assert(adjacent(adj, s[j], next_of(s, j)));
    }
}

/// Reversal keeps every consecutive pair adjacent when adjacency runs both ways.
pub proof fn lemma_reverse_linked(adj: Map<u32, HashSet<u32>>, s: Seq<u32>)
    requires
        s.len() > 0,
        linked(adj, s),
        symmetric(adj),
    ensures
        linked(adj, s.reverse()),
{
    let n = s.len() as int;
    let t = s.reverse();
    assert forall|i: int| 0 <= i < t.len() implies adjacent(adj, #[trigger] t[i], next_of(t, i)) by {
        lemma_next_index(i, n);
        let j = if i + 1 < n { n - 2 - i } else { n - 1 };
        lemma_next_index(j, n);
        assert(adjacent(adj, s[j], next_of(s, j)));
    }
}

/// Rotation keeps a linked cycle linked, and on a ready seam puts `left` first and
/// `right` last.
/// Where the two ends of a ready seam stand: next to each other, or at the two
/// ends of the sequence.
proof fn lemma_seam_positions(s: Seq<u32>, left: u32, right: u32)
    requires
        seam_ready(s, left, right),
    ensures
        is_first_pos(s, left, first_pos(s, left)),
        is_first_pos(s, right, first_pos(s, right)),
        ({
            let il = first_pos(s, left);
            let ir = first_pos(s, right);
            ir == il + 1 || il == ir + 1 || (il == s.len() - 1 && ir == 0) || (ir == s.len() - 1
                && il == 0)
        }),
{
    let n = s.len() as int;
    let i = choose|i: int|
        0 <= i < s.len() && ((s[i] == left && next_of(s, i) == right) || (s[i] == right && next_of(
            s,
            i,
        ) == left));
    lemma_next_index(i, n);
    let i2 = (i + 1) % n;
    assert(i != i2);
    assert(s[i] != s[i2]);
    let il = if s[i] == left { i } else { i2 };
    let ir = if s[i] == left { i2 } else { i };
    assert(is_first_pos(s, left, il));
    assert(is_first_pos(s, right, ir));
    lemma_first_pos_unique(s, left, il);
    lemma_first_pos_unique(s, right, ir);
}

/// Rotation keeps a linked cycle linked, and on a ready seam puts `left` first and
/// `right` last.
pub proof fn lemma_rotated_seam(adj: Map<u32, HashSet<u32>>, s: Seq<u32>, left: u32, right: u32)
    requires
        seam_ready(s, left, right),
        linked(adj, s),
        symmetric(adj),
    ensures
        linked(adj, rotated(s, left, right)),
        rotated(s, left, right).len() == s.len(),
        rotated(s, left, right)[0] == left,
        rotated(s, left, right).last() == right,
{
    let n = s.len() as int;
    lemma_seam_positions(s, left, right);
    let il = first_pos(s, left);
    let ir = first_pos(s, right);
    let t = rotated(s, left, right);
    if s[0] == left && s.last() == right {
        assert(t == s);
    } else if s.last() == left && s[0] == right {
        assert(t == s.reverse());
        lemma_reverse_linked(adj, s);
    } else if il > ir {
        assert(t == rotl(s, il));
        assert(il == ir + 1);
        lemma_rotl_linked(adj, s, il);
        assert(t[0] == s[il]);
        assert(t[n - 1] == s[il - 1]);
    } else {
        let u = rotl(s, ir);
        assert(t == u.reverse());
        assert(ir == il + 1);
        lemma_rotl_linked(adj, s, ir);
        lemma_reverse_linked(adj, u);
        assert(u[0] == s[ir]);
        assert(u[n - 1] == s[ir - 1]);
    }
}

/// Joining at two ready seams whose cross pairs are adjacent gives a linked
/// cycle whose length is the sum of the two.
pub proof fn lemma_join_linked(adj: Map<u32, HashSet<u32>>, a: Seq<u32>, b: Seq<u32>, edge: Edge, oedge: Edge)
    requires
        symmetric(adj),
        linked(adj, a),
        linked(adj, b),
        adj.contains_key(edge.1),
        seam_ready(a, edge.0, edge.1),
        seam_ready(b, oriented(adj, edge, oedge).0, oriented(adj, edge, oedge).1),
        adjacent(adj, edge.1, oriented(adj, edge, oedge).0),
        adjacent(adj, oriented(adj, edge, oedge).1, edge.0),
    ensures
        ({
            let o = oriented(adj, edge, oedge);
            let joined = rotated(a, edge.0, edge.1) + rotated(b, o.0, o.1);
            joined.len() == a.len() + b.len() && linked(adj, joined)
        }),
{
    let o = oriented(adj, edge, oedge);
    lemma_rotated_seam(adj, a, edge.0, edge.1);
    lemma_rotated_seam(adj, b, o.0, o.1);
    lemma_concat_linked(adj, rotated(a, edge.0, edge.1), rotated(b, o.0, o.1));
}

/// Two linked cycles whose ends meet each other form one linked cycle.
pub proof fn lemma_concat_linked(adj: Map<u32, HashSet<u32>>, x: Seq<u32>, y: Seq<u32>)
    requires
        x.len() > 0,
        y.len() > 0,
        linked(adj, x),
        linked(adj, y),
        adjacent(adj, x.last(), y[0]),
        adjacent(adj, y.last(), x[0]),
    ensures
        linked(adj, x + y),
{
    let j = x + y;
    let n = j.len() as int;
    assert forall|i: int| 0 <= i < n implies adjacent(adj, #[trigger] j[i], next_of(j, i)) by {
        lemma_next_index(i, n);
        if i < x.len() - 1 {
            lemma_next_index(i, x.len() as int);
            assert(adjacent(adj, x[i], next_of(x, i)));
        } else if i == x.len() - 1 {
        } else if i < n - 1 {
            let k = i - x.len();
            lemma_next_index(k, y.len() as int);
            assert(adjacent(adj, y[k], next_of(y, k)));
        }
    }
}

} // verus!
