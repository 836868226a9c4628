//! Splicing every cycle of a loom into the first one, the warp.
use std::collections::{HashMap, HashSet};
use vstd::multiset::Multiset;
use vstd::prelude::*;
use crate::cycle::{
    Cycle, Edge, EdgeAdjacency, adjacent, contains_edge, edge_set, lemma_edge_consecutive, lemma_edge_endpoints,
    lemma_rotated_multiset, linked, oriented, rotated, symmetric,
};
use crate::loom::cycle_views;

verus! {

broadcast use vstd::std_specs::hash::group_hash_axioms;

/// Why weaving stopped short of a single cycle.
#[derive(Clone, Copy, Debug, PartialEq, Eq, Structural)]
pub enum WeaveError {
    /// A whole round over the remaining wefts found no legal splice.
    NoLegalStitching,
}

/// Lexicographic order on edges.
pub open spec fn edge_lt(a: Edge, b: Edge) -> bool {
    a.0 < b.0 || (a.0 == b.0 && a.1 < b.1)
}

/// `e` is the least edge, lexicographically, that lies in both `a` and `b`.
pub open spec fn is_least_common(a: Set<Edge>, b: Set<Edge>, e: Edge) -> bool {
    a.contains(e) && b.contains(e) && forall|x: Edge|
        a.contains(x) && b.contains(x) ==> !#[trigger] edge_lt(x, e)
}

/// `a` and `b` share no edge.
pub open spec fn disjoint(a: Set<Edge>, b: Set<Edge>) -> bool {
    forall|x: Edge| !(#[trigger] a.contains(x) && b.contains(x))
}

/// Every splice partner of every edge of the closed sequence `s`.
pub open spec fn eadj_set(ea: EdgeAdjacency, s: Seq<u32>) -> Set<Edge> {
    Set::new(|f: Edge| exists|e: Edge| #[trigger] edge_set(s).contains(e) && ea.partners(e).contains(f))
}

/// The splice `try_stitch` settles on for `weft`: the least bridge edge of the warp,
/// then the least edge of the weft among that edge's partners.
pub open spec fn stitch_of(ea: EdgeAdjacency, warp: Seq<u32>, weft: Seq<u32>, r: Option<(Edge, Edge)>) -> bool {
    match r {
        Some((e, f)) => is_least_common(edge_set(warp), eadj_set(ea, weft), e)
            && is_least_common(ea.partners(e), edge_set(weft), f),
        None => disjoint(edge_set(warp), eadj_set(ea, weft)) || exists|e: Edge|
            is_least_common(edge_set(warp), eadj_set(ea, weft), e) && disjoint(
                ea.partners(e),
                edge_set(weft),
            ),
    }
}

/// The splice chosen for `weft`, by the rule that `stitch_of` states.
pub open spec fn stitch(ea: EdgeAdjacency, warp: Seq<u32>, weft: Seq<u32>) -> Option<(Edge, Edge)> {
    if exists|p: (Edge, Edge)| stitch_of(ea, warp, weft, Some(p)) {
        Some(choose|p: (Edge, Edge)| stitch_of(ea, warp, weft, Some(p)))
    } else {
        None
    }
}

/// The cycle that `join(e, f, weft)` makes of `warp`.
pub open spec fn splice(adj: Map<u32, HashSet<u32>>, warp: Seq<u32>, weft: Seq<u32>, e: Edge, f: Edge) -> Seq<u32> {
    rotated(warp, e.0, e.1) + rotated(weft, oriented(adj, e, f).0, oriented(adj, e, f).1)
}

/// One round over the pending wefts in order: the warp after every splice the
/// round makes, and the wefts it defers, in order.
pub open spec fn pass(
    adj: Map<u32, HashSet<u32>>,
    ea: EdgeAdjacency,
    warp: Seq<u32>,
    pending: Seq<Seq<u32>>,
) -> (Seq<u32>, Seq<Seq<u32>>)
    decreases pending.len(),
{
    if pending.len() == 0 {
        (warp, Seq::empty())
    } else {
        match stitch(ea, warp, pending[0]) {
            Some((e, f)) => pass(adj, ea, splice(adj, warp, pending[0], e, f), pending.drop_first()),
            None => {
                let rest = pass(adj, ea, warp, pending.drop_first());
                (rest.0, seq![pending[0]] + rest.1)
            },
        }
    }
}

/// The tour that rounds of splicing make of `warp` and the pending wefts, or
/// `None` once a round defers every weft.
pub open spec fn woven(
    adj: Map<u32, HashSet<u32>>,
    ea: EdgeAdjacency,
    warp: Seq<u32>,
    pending: Seq<Seq<u32>>,
) -> Option<Seq<u32>>
    decreases pending.len(),
{
    if pending.len() == 0 {
        Some(warp)
    } else {
        let round = pass(adj, ea, warp, pending);
        if round.1.len() >= pending.len() {
            None
        } else {
            woven(adj, ea, round.0, round.1)
        }
    }
}

/// Every recorded splice is legal: once the host edge `e` sits at its seam and
/// the partner `f` is turned as `join` turns it, both cross pairs are adjacent.
pub open spec fn splice_legal(adj: Map<u32, HashSet<u32>>, ea: EdgeAdjacency) -> bool {
    forall|e: Edge, f: Edge|
        #[trigger] ea.partners(e).contains(f) ==> adjacent(adj, e.1, oriented(adj, e, f).0)
            && adjacent(adj, oriented(adj, e, f).1, e.0)
}

/// A cycle of at least three nodes, none twice, each adjacent to the next.
pub open spec fn sound_cycle(adj: Map<u32, HashSet<u32>>, s: Seq<u32>) -> bool {
    s.len() >= 3 && s.no_duplicates() && linked(adj, s) && keyed(adj, s)
}

/// No node lies in two cycles of the loom, nor twice in one.
pub open spec fn nodes_disjoint(cs: Seq<Cycle>) -> bool {
    forall|x: u32| #[trigger] total_ms(cs).count(x) <= 1
}

/// `s` has at least three nodes and every edge of it has an entry in `ea`.
pub open spec fn weft_ready(ea: EdgeAdjacency, s: Seq<u32>) -> bool {
    s.len() >= 3 && ea.covers(edge_set(s))
}

/// All nodes counted over a sequence of cycles, with multiplicity.
pub open spec fn total_ms(cs: Seq<Cycle>) -> Multiset<u32>
    decreases cs.len(),
{
    if cs.len() == 0 {
        Multiset::empty()
    } else {
        total_ms(cs.drop_last()).add(cs.last().data@.to_multiset())
    }
}

/// Every node of `s` has an entry in the adjacency map.
pub open spec fn keyed(adj: Map<u32, HashSet<u32>>, s: Seq<u32>) -> bool {
    forall|x: u32| s.contains(x) ==> #[trigger] adj.contains_key(x)
}

/// The least edge, lexicographically, that both `a` and `b` hold.
pub fn smallest_common(a: &Vec<Edge>, b: &Vec<Edge>) -> (r: Option<Edge>)
    ensures
        r is None <==> disjoint(a@.to_set(), b@.to_set()),
        r matches Some(e) ==> is_least_common(a@.to_set(), b@.to_set(), e),
{
    let mut best: Option<Edge> = None;
    let mut i: usize = 0;
    while i < a.len()
        invariant
            i <= a@.len(),
            best is None <==> forall|j: int| 0 <= j < i ==> !b@.contains(#[trigger] a@[j]),
            best matches Some(e) ==> a@.contains(e) && b@.contains(e) && forall|j: int|
                0 <= j < i && b@.contains(#[trigger] a@[j]) ==> !edge_lt(a@[j], e),
        decreases a@.len() - i,
    {
        let x = a[i];
        if contains_edge(b, x) {
            let take = match best {
                None => true,
                Some(e) => x.0 < e.0 || (x.0 == e.0 && x.1 < e.1),
            };
            if take {
                best = Some(x);
            }
        }
        i = i + 1;
    }
    proof {
        if best is None {
            assert forall|x: Edge| !(#[trigger] a@.to_set().contains(x) && b@.to_set().contains(x)) by {
                if a@.contains(x) {
                    let j = choose|j: int| 0 <= j < a@.len() && a@[j] == x;
                }
            }
        }
        if let Some(e) = best {
            assert(a@.to_set().contains(e) && b@.to_set().contains(e));
            assert forall|x: Edge| a@.to_set().contains(x) && b@.to_set().contains(x) implies !#[trigger] edge_lt(x, e) by {
                let j = choose|j: int| 0 <= j < a@.len() && a@[j] == x;
            }
        }
    }
    best
}

/// Chooses where `weft` can be spliced into `warp`, if anywhere.
pub fn try_stitch(warp: &Cycle, weft: &Cycle, edge_adj: &EdgeAdjacency) -> (r: Option<(Edge, Edge)>)
    requires
        warp.data@.len() >= 3,
        weft_ready(*edge_adj, weft.data@),
        edge_adj.wf(),
    ensures
        stitch_of(*edge_adj, warp.data@, weft.data@, r),
        r == stitch(*edge_adj, warp.data@, weft.data@),
{
    let r = choose_stitch(warp, weft, edge_adj);
    proof {
        let ea = *edge_adj;
        if let Some(p) = r {
            let q = choose|p: (Edge, Edge)| stitch_of(ea, warp.data@, weft.data@, Some(p));
            lemma_stitch_deterministic(ea, warp.data@, weft.data@, r, Some(q));
        } else {
            if exists|p: (Edge, Edge)| stitch_of(ea, warp.data@, weft.data@, Some(p)) {
                let q = choose|p: (Edge, Edge)| stitch_of(ea, warp.data@, weft.data@, Some(p));
                lemma_stitch_deterministic(ea, warp.data@, weft.data@, r, Some(q));
            }
        }
    }
    r
}

/// Finds the least bridge edge and the least candidate edge for it.
fn choose_stitch(warp: &Cycle, weft: &Cycle, edge_adj: &EdgeAdjacency) -> (r: Option<(Edge, Edge)>)
    requires
        warp.data@.len() >= 3,
        weft_ready(*edge_adj, weft.data@),
        edge_adj.wf(),
    ensures
        stitch_of(*edge_adj, warp.data@, weft.data@, r),
{
    let warp_edges = warp.edges();
    let weft_eadjs = weft.eadjs(edge_adj);
    assert(weft_eadjs@.to_set() =~= eadj_set(*edge_adj, weft.data@));
    match smallest_common(&warp_edges, &weft_eadjs) {
        None => None,
        Some(e) => {
            let partners = edge_adj.partners_of(e);
            let weft_edges = weft.edges();
            match smallest_common(&partners, &weft_edges) {
                None => None,
                Some(f) => Some((e, f)),
            }
        },
    }
}

/// Counting the first cycle apart from the rest of a sequence of cycles.
pub proof fn lemma_total_ms_front(cs: Seq<Cycle>)
    requires
        cs.len() > 0,
    ensures
        total_ms(cs) == cs[0].data@.to_multiset().add(total_ms(cs.subrange(1, cs.len() as int))),
    decreases cs.len(),
{
    if cs.len() == 1 {
        assert(cs.drop_last() =~= Seq::<Cycle>::empty());
        assert(cs.subrange(1, 1) =~= Seq::<Cycle>::empty());
        assert(total_ms(cs.drop_last()) == Multiset::<u32>::empty());
        assert(total_ms(cs.subrange(1, 1)) == Multiset::<u32>::empty());
        assert(total_ms(cs) =~= cs[0].data@.to_multiset());
        assert(cs[0].data@.to_multiset().add(Multiset::empty()) =~= cs[0].data@.to_multiset());
    } else {
        let init = cs.drop_last();
        lemma_total_ms_front(init);
        assert(init.subrange(1, init.len() as int) =~= cs.subrange(1, cs.len() as int).drop_last());
        assert(cs.subrange(1, cs.len() as int).last() == cs.last());
        assert(total_ms(cs) =~= cs[0].data@.to_multiset().add(total_ms(cs.subrange(1, cs.len() as int))));
    }
}

/// Splices every cycle of `loom` into its first one, round after round, until none
/// is left or a whole round splices nothing.
pub fn weave(loom: Vec<Cycle>, adj: &HashMap<u32, HashSet<u32>>, edge_adj: &EdgeAdjacency) -> (r: Result<Cycle, WeaveError>)
    requires
        loom@.len() > 0,
        forall|i: int| 0 <= i < loom@.len() ==> keyed(adj@, #[trigger] loom@[i].data@),
        forall|i: int| 0 <= i < loom@.len() ==> weft_ready(*edge_adj, #[trigger] loom@[i].data@),
        edge_adj.wf(),
    ensures
        (symmetric(adj@) && splice_legal(adj@, *edge_adj) && nodes_disjoint(loom@) && forall|i: int|
            0 <= i < loom@.len() ==> sound_cycle(adj@, #[trigger] loom@[i].data@)) ==> (r matches Ok(
            c,
        ) ==> linked(adj@, c.data@)),
        r is Err <==> woven(adj@, *edge_adj, loom@[0].data@, cycle_views(loom@).drop_first()) is None,
        r matches Ok(c) ==> Some(c.data@) == woven(
            adj@,
            *edge_adj,
            loom@[0].data@,
            cycle_views(loom@).drop_first(),
        ),
        r matches Ok(c) ==> c.data@.to_multiset() == total_ms(loom@),
        r matches Ok(c) ==> c.joined == (loom@.len() > 1),
        (loom@.len() > 1 && forall|i: int|
            1 <= i < loom@.len() ==> disjoint(
                edge_set(loom@[0].data@),
                eadj_set(*edge_adj, #[trigger] loom@[i].data@),
            )) ==> r is Err,
{
    let ghost orig = loom@;
    let mut pending = loom;
    let mut warp = pending.remove(0);
    warp.joined = false;
    let ghost hyp = orig.len() > 1 && forall|i: int|
        1 <= i < orig.len() ==> disjoint(
            edge_set(orig[0].data@),
            eadj_set(*edge_adj, #[trigger] orig[i].data@),
        );
    let ghost good = symmetric(adj@) && splice_legal(adj@, *edge_adj) && nodes_disjoint(orig)
        && forall|i: int| 0 <= i < orig.len() ==> sound_cycle(adj@, #[trigger] orig[i].data@);
    proof {
        lemma_total_ms_front(orig);
        assert(cycle_views(orig).drop_first() =~= cycle_views(pending@));
        assert(weft_ready(*edge_adj, orig[0].data@));
        assert forall|i: int| 0 <= i < pending@.len() implies weft_ready(*edge_adj, #[trigger] pending@[i].data@) by {
            assert(pending@[i] == orig[i + 1]);
        }
        if good {
            assert(sound_cycle(adj@, orig[0].data@));
            assert forall|i: int| 0 <= i < pending@.len() implies sound_cycle(adj@, #[trigger] pending@[i].data@) by {
                assert(pending@[i] == orig[i + 1]);
            }
        }
    }
    let ghost mut first_round = true;
    while pending.len() > 0
        invariant
            warp.data@.to_multiset().add(total_ms(pending@)) == total_ms(orig),
            keyed(adj@, warp.data@),
            forall|i: int| 0 <= i < pending@.len() ==> keyed(adj@, #[trigger] pending@[i].data@),
            warp.joined == (orig.len() > 1 && pending@.len() == 0),
            first_round ==> warp.data@ == orig[0].data@ && pending@ == orig.subrange(1, orig.len() as int),
            orig.len() > 0,
            orig == loom@,
            edge_adj.wf(),
            warp.data@.len() >= 3,
            forall|i: int| 0 <= i < pending@.len() ==> weft_ready(*edge_adj, #[trigger] pending@[i].data@),
            good == (symmetric(adj@) && splice_legal(adj@, *edge_adj) && nodes_disjoint(orig)
                && forall|i: int| 0 <= i < orig.len() ==> sound_cycle(adj@, #[trigger] orig[i].data@)),
            good ==> sound_cycle(adj@, warp.data@),
            good ==> forall|i: int| 0 <= i < pending@.len() ==> sound_cycle(adj@, #[trigger] pending@[i].data@),
            pending@.len() + 1 <= orig.len(),
            hyp == (orig.len() > 1 && forall|i: int|
                1 <= i < orig.len() ==> disjoint(
                    edge_set(orig[0].data@),
                    eadj_set(*edge_adj, #[trigger] orig[i].data@),
                )),
            hyp ==> first_round,
            woven(adj@, *edge_adj, orig[0].data@, cycle_views(orig).drop_first()) == woven(
                adj@,
                *edge_adj,
                warp.data@,
                cycle_views(pending@),
            ),
        decreases pending@.len(),
    {
        let n = pending.len();
        let mut next: Vec<Cycle> = Vec::new();
        let mut progress = false;
        let ghost round_start = pending@;
        let ghost warp_start = warp.data@;
        while pending.len() > 0
            invariant
                woven(adj@, *edge_adj, orig[0].data@, cycle_views(orig).drop_first()) == woven(
                    adj@,
                    *edge_adj,
                    warp_start,
                    cycle_views(round_start),
                ),
                pass(adj@, *edge_adj, warp_start, cycle_views(round_start)) == (
                    pass(adj@, *edge_adj, warp.data@, cycle_views(pending@)).0,
                    cycle_views(next@) + pass(adj@, *edge_adj, warp.data@, cycle_views(pending@)).1,
                ),
                warp.data@.to_multiset().add(total_ms(next@)).add(total_ms(pending@)) == total_ms(orig),
                keyed(adj@, warp.data@),
                forall|i: int| 0 <= i < pending@.len() ==> keyed(adj@, #[trigger] pending@[i].data@),
                forall|i: int| 0 <= i < next@.len() ==> keyed(adj@, #[trigger] next@[i].data@),
                progress <==> next@.len() + pending@.len() < n,
                next@.len() + pending@.len() <= n,
                warp.joined <==> (pending@.len() == 0 && next@.len() == 0),
                first_round && hyp ==> !progress,
                edge_adj.wf(),
                warp.data@.len() >= 3,
                forall|i: int| 0 <= i < pending@.len() ==> weft_ready(*edge_adj, #[trigger] pending@[i].data@),
                forall|i: int| 0 <= i < next@.len() ==> weft_ready(*edge_adj, #[trigger] next@[i].data@),
                good == (symmetric(adj@) && splice_legal(adj@, *edge_adj) && nodes_disjoint(orig)
                    && forall|i: int| 0 <= i < orig.len() ==> sound_cycle(adj@, #[trigger] orig[i].data@)),
                good ==> sound_cycle(adj@, warp.data@),
                good ==> forall|i: int| 0 <= i < pending@.len() ==> sound_cycle(adj@, #[trigger] pending@[i].data@),
                good ==> forall|i: int| 0 <= i < next@.len() ==> sound_cycle(adj@, #[trigger] next@[i].data@),
                hyp == (orig.len() > 1 && forall|i: int|
                    1 <= i < orig.len() ==> disjoint(
                        edge_set(orig[0].data@),
                        eadj_set(*edge_adj, #[trigger] orig[i].data@),
                    )),
                orig.len() > 1,
                n == round_start.len(),
                first_round && !progress ==> warp.data@ == orig[0].data@ && next@ + pending@
                    == orig.subrange(1, orig.len() as int),
            decreases pending@.len(),
        {
            let ghost before = pending@;
            let mut weft = pending.remove(0);
            proof {
                assert(cycle_views(before).drop_first() =~= cycle_views(pending@));
                assert(cycle_views(before)[0] == weft.data@);
                lemma_total_ms_front(before);
                assert(before.subrange(1, before.len() as int) == pending@);
                assert(keyed(adj@, before[0].data@));
                assert(weft_ready(*edge_adj, before[0].data@));
            }
            match try_stitch(&warp, &weft, edge_adj) {
                Some((e, f)) => {
                    proof {
                        if first_round && hyp {
                            assert((next@ + before)[next@.len() as int] == before[0]);
                            let j = next@.len() as int + 1;
                            assert(before[0] == orig[j]);
                            assert(disjoint(edge_set(orig[0].data@), eadj_set(*edge_adj, orig[j].data@)));
                            assert(edge_set(warp.data@).contains(e));
                            assert(false);
                        }
                        lemma_edge_endpoints(warp.data@, e);
                        lemma_edge_endpoints(weft.data@, f);
                    }
                    let ghost wa = warp.data@;
                    let ghost we = weft.data@;
                    proof {
                        if good {
                            assert(sound_cycle(adj@, before[0].data@));
                            lemma_edge_consecutive(wa, e);
                            lemma_edge_consecutive(we, f);
                            assert(edge_adj.partners(e).contains(f));
                        }
                    }
                    warp.join(e, f, &mut weft, adj);
                    proof {
                        lemma_rotated_multiset(wa, e.0, e.1);
                        let o = crate::cycle::oriented(adj@, e, f);
                        lemma_rotated_multiset(we, o.0, o.1);
                        vstd::seq_lib::lemma_multiset_commutative(
                            crate::cycle::rotated(wa, e.0, e.1),
                            weft.data@,
                        );
                        assert forall|x: u32| warp.data@.contains(x) implies #[trigger] adj@.contains_key(x) by {
                            vstd::seq_lib::to_multiset_contains(warp.data@, x);
                            vstd::seq_lib::to_multiset_contains(wa, x);
                            vstd::seq_lib::to_multiset_contains(we, x);
                        }
                        assert(warp.data@.to_multiset() == wa.to_multiset().add(we.to_multiset()));
                        if good {
                            let ms = warp.data@.to_multiset();
                            assert forall|x: u32| ms.contains(x) implies ms.count(x) == 1 by {
                                assert(total_ms(orig).count(x) <= 1);
                            }
                            warp.data@.lemma_multiset_has_no_duplicates_conv();
                        }
                        assert(warp.data@.to_multiset().add(total_ms(next@)).add(total_ms(pending@))
                            =~= wa.to_multiset().add(total_ms(next@)).add(we.to_multiset().add(total_ms(pending@))));
                    }
                    progress = true;
                    if pending.len() == 0 && next.len() == 0 {
                        warp.joined = true;
                    }
                },
                None => {
                    proof {
                        if first_round && !progress {
                            assert((next@ + before)[next@.len() as int] == before[0]);
                            assert(before[0] == orig[next@.len() as int + 1]);
                            assert(next@.push(weft) + pending@ =~= next@ + before);
                        }
                    }
                    let ghost nx = next@;
                    let ghost wd = weft.data@;
                    next.push(weft);
                    proof {
                        assert(cycle_views(next@) =~= cycle_views(nx).push(wd));
                        let rest = pass(adj@, *edge_adj, warp.data@, cycle_views(pending@)).1;
                        assert(cycle_views(nx) + (seq![wd] + rest) =~= cycle_views(next@) + rest);
                        assert(next@.drop_last() == nx);
                        assert(warp.data@.to_multiset().add(total_ms(next@)).add(total_ms(pending@))
                            =~= warp.data@.to_multiset().add(total_ms(nx)).add(before[0].data@.to_multiset().add(total_ms(pending@))));
                    }
                },
            }
        }
        proof {
            assert(cycle_views(pending@) =~= Seq::<Seq<u32>>::empty());
            assert(cycle_views(next@) + Seq::<Seq<u32>>::empty() =~= cycle_views(next@));
            assert(cycle_views(round_start).len() == n);
            assert(cycle_views(next@).len() == next@.len());
            if !progress {
                assert(woven(adj@, *edge_adj, warp_start, cycle_views(round_start)) is None);
            } else {
                assert(woven(adj@, *edge_adj, warp_start, cycle_views(round_start)) == woven(
                    adj@,
                    *edge_adj,
                    warp.data@,
                    cycle_views(next@),
                ));
            }
        }
        if !progress {
            assert(woven(adj@, *edge_adj, orig[0].data@, cycle_views(orig).drop_first()) is None);
            return Err(WeaveError::NoLegalStitching);
        }
        proof {
            assert(pending@ =~= Seq::<Cycle>::empty());
            assert(total_ms(pending@) =~= Multiset::empty());
            first_round = false;
        }
        pending = next;
    }
    Ok(warp)
}

/// A woven tour counts every node as often as the loom does; so where the loom
/// covers the nodes of `nodes` once each, the tour has their number of entries
/// and touches each of them exactly once.
pub proof fn lemma_woven_tour(loom: Seq<Cycle>, tour: Seq<u32>, nodes: Seq<u32>)
    requires
        tour.to_multiset() == total_ms(loom),
        total_ms(loom) == nodes.to_multiset(),
        nodes.no_duplicates(),
    ensures
        tour.len() == nodes.len(),
        forall|x: u32| nodes.contains(x) ==> #[trigger] tour.to_multiset().count(x) == 1,
        forall|x: u32| #[trigger] tour.contains(x) <==> nodes.contains(x),
{
    vstd::seq_lib::to_multiset_len(tour);
    vstd::seq_lib::to_multiset_len(nodes);
    nodes.lemma_multiset_has_no_duplicates();
    assert forall|x: u32| #[trigger] tour.contains(x) <==> nodes.contains(x) by {
        vstd::seq_lib::to_multiset_contains(tour, x);
        vstd::seq_lib::to_multiset_contains(nodes, x);
    }
    assert forall|x: u32| nodes.contains(x) implies #[trigger] tour.to_multiset().count(x) == 1 by {
        vstd::seq_lib::to_multiset_contains(nodes, x);
        assert(nodes.to_multiset().contains(x));
    }
}

/// Two edges that are each least in the same intersection are the same edge.
pub proof fn lemma_least_common_unique(a: Set<Edge>, b: Set<Edge>, e1: Edge, e2: Edge)
    requires
        is_least_common(a, b, e1),
        is_least_common(a, b, e2),
    ensures
        e1 == e2,
{
    assert(!edge_lt(e1, e2));
    assert(!edge_lt(e2, e1));
}

/// The splice choice is fixed by its inputs: any two outcomes that meet the
/// selection rule of `try_stitch` are equal, so repeated runs on the same loom
/// and tables pick the same edges.
pub proof fn lemma_stitch_deterministic(
    ea: EdgeAdjacency,
    warp: Seq<u32>,
    weft: Seq<u32>,
    r1: Option<(Edge, Edge)>,
    r2: Option<(Edge, Edge)>,
)
    requires
        stitch_of(ea, warp, weft, r1),
        stitch_of(ea, warp, weft, r2),
    ensures
        r1 == r2,
{
    let a = edge_set(warp);
    let b = eadj_set(ea, weft);
    match (r1, r2) {
        (Some((e1, f1)), Some((e2, f2))) => {
            lemma_least_common_unique(a, b, e1, e2);
            lemma_least_common_unique(ea.partners(e1), edge_set(weft), f1, f2);
        },
        (Some((e1, f1)), None) => {
            lemma_none_excludes(ea, warp, weft, e1, f1);
        },
        (None, Some((e2, f2))) => {
            lemma_none_excludes(ea, warp, weft, e2, f2);
        },
        (None, None) => {},
    }
}

/// A splice that meets the selection rule rules out the outcome `None`.
proof fn lemma_none_excludes(ea: EdgeAdjacency, warp: Seq<u32>, weft: Seq<u32>, e: Edge, f: Edge)
    requires
        stitch_of(ea, warp, weft, Some((e, f))),
    ensures
        !stitch_of(ea, warp, weft, None),
{
    let a = edge_set(warp);
    let b = eadj_set(ea, weft);
    assert(a.contains(e) && b.contains(e));
    if stitch_of(ea, warp, weft, None) {
        if !disjoint(a, b) {
            let e2 = choose|e2: Edge| is_least_common(a, b, e2) && disjoint(ea.partners(e2), edge_set(weft));
            lemma_least_common_unique(a, b, e, e2);
            assert(ea.partners(e).contains(f) && edge_set(weft).contains(f));
        }
    }
}

/// Weaving is reproducible: two tours that `weave` may return for the same loom,
/// adjacency and edge adjacency are the same sequence.
pub proof fn lemma_weave_reproducible(
    adj: Map<u32, HashSet<u32>>,
    ea: EdgeAdjacency,
    loom: Seq<Cycle>,
    first: Seq<u32>,
    second: Seq<u32>,
)
    requires
        loom.len() > 0,
        Some(first) == woven(adj, ea, loom[0].data@, cycle_views(loom).drop_first()),
        Some(second) == woven(adj, ea, loom[0].data@, cycle_views(loom).drop_first()),
    ensures
        first == second,
{
}

} // verus!
