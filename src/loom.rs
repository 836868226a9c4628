//! Assembly of per-level node chains into closed cycles that cover the lattice.
use vstd::prelude::*;
use std::collections::HashSet;
use crate::cycle::{Cycle, adjacent, linked, lemma_next_index, reversed, symmetric};

verus! {

/// The node sequences held by a list of vectors.
pub open spec fn views(ts: Seq<Vec<u32>>) -> Seq<Seq<u32>> {
    ts.map_values(|t: Vec<u32>| t@)
}

/// The thread that results from attaching chain `c` to thread `t`, if one of the
/// chain's ends meets one of the thread's ends; the shared node is kept once.
pub open spec fn attached(t: Seq<u32>, c: Seq<u32>) -> Option<Seq<u32>> {
    if t.len() == 0 || c.len() == 0 {
        None
    } else if t.last() == c[0] {
        Some(t + c.subrange(1, c.len() as int))
    } else if t.last() == c.last() {
        Some(t + c.reverse().subrange(1, c.len() as int))
    } else if t[0] == c.last() {
        Some(c + t.subrange(1, t.len() as int))
    } else if t[0] == c[0] {
        Some(c.reverse() + t.subrange(1, t.len() as int))
    } else {
        None
    }
}

/// The first thread at or after position `i` that is not yet used in this scan and
/// that chain `c` attaches to, or `ts.len()` when there is none.
pub open spec fn first_match(ts: Seq<Seq<u32>>, used: Seq<bool>, c: Seq<u32>, i: int) -> int
    decreases ts.len() - i,
{
    if i >= ts.len() || i < 0 {
        ts.len() as int
    } else if !used[i] && attached(ts[i], c) is Some {
        i
    } else {
        first_match(ts, used, c, i + 1)
    }
}

/// Threads and their used marks after chain `c` has been placed: attached to the
/// first free thread it meets, or else begun as a thread of its own.
pub open spec fn place(ts: Seq<Seq<u32>>, used: Seq<bool>, c: Seq<u32>) -> (Seq<Seq<u32>>, Seq<bool>) {
    let k = first_match(ts, used, c, 0);
    if k < ts.len() {
        (ts.update(k, attached(ts[k], c)->Some_0), used.update(k, true))
    } else {
        (ts.push(c), used.push(false))
    }
}

/// Threads and used marks after the chains of one level have been placed in order.
pub open spec fn place_all(ts: Seq<Seq<u32>>, used: Seq<bool>, cs: Seq<Seq<u32>>) -> (Seq<Seq<u32>>, Seq<bool>)
    decreases cs.len(),
{
    if cs.len() == 0 {
        (ts, used)
    } else {
        let p = place_all(ts, used, cs.drop_last());
        place(p.0, p.1, cs.last())
    }
}

/// The open threads after every level has been scanned, levels in order.
pub open spec fn threads_of(levels: Seq<Seq<Seq<u32>>>) -> Seq<Seq<u32>>
    decreases levels.len(),
{
    if levels.len() == 0 {
        Seq::empty()
    } else {
        let ts = threads_of(levels.drop_last());
        place_all(ts, Seq::new(ts.len(), |i: int| false), levels.last()).0
    }
}

/// An open thread closed by its mirror image: the thread, then the mirror of
/// each of its nodes in reverse order.
pub open spec fn mirrored(t: Seq<u32>, m: Seq<u32>) -> Seq<u32> {
    t + Seq::new(t.len(), |i: int| m[t[t.len() - 1 - i] as int])
}

/// Every node of `t` has a mirror in `m`.
pub open spec fn mirrorable(t: Seq<u32>, m: Seq<u32>) -> bool {
    forall|i: int| 0 <= i < t.len() ==> (#[trigger] t[i]) < m.len()
}

/// The nodes of each level's chains, as sequences.
pub open spec fn level_views(levels: Seq<Vec<Vec<u32>>>) -> Seq<Seq<Seq<u32>>> {
    levels.map_values(|l: Vec<Vec<u32>>| views(l@))
}

/// Copies the nodes of `s` from position `from` on to the end of `r`.
fn extend_from(r: &mut Vec<u32>, s: &Vec<u32>, from: usize)
    requires
        from <= s@.len(),
    ensures
        final(r)@ == old(r)@ + s@.subrange(from as int, s@.len() as int),
{
    let ghost start = r@;
    let mut i: usize = from;
    while i < s.len()
        invariant
            from <= i <= s@.len(),
            r@ == start + s@.subrange(from as int, i as int),
        decreases s@.len() - i,
    {
        r.push(s[i]);
        i = i + 1;
        assert(r@ =~= start + s@.subrange(from as int, i as int));
    }
}

/// Attaches chain `c` to thread `t` where their ends meet.
pub fn attach(t: &Vec<u32>, c: &Vec<u32>) -> (r: Option<Vec<u32>>)
    ensures
        r is None <==> attached(t@, c@) is None,
        r matches Some(v) ==> attached(t@, c@) == Some(v@),
{
    if t.len() == 0 || c.len() == 0 {
        return None;
    }
    let first = t[0];
    let last = t[t.len() - 1];
    if last == c[0] {
        let mut r = Vec::new();
        extend_from(&mut r, t, 0);
        extend_from(&mut r, c, 1);
        assert(t@.subrange(0, t@.len() as int) == t@);
        Some(r)
    } else if last == c[c.len() - 1] {
        let rc = reversed(c);
        let mut r = Vec::new();
        extend_from(&mut r, t, 0);
        extend_from(&mut r, &rc, 1);
        assert(t@.subrange(0, t@.len() as int) == t@);
        Some(r)
    } else if first == c[c.len() - 1] {
        let mut r = Vec::new();
        extend_from(&mut r, c, 0);
        extend_from(&mut r, t, 1);
        assert(c@.subrange(0, c@.len() as int) == c@);
        Some(r)
    } else if first == c[0] {
        let mut r = reversed(c);
        extend_from(&mut r, t, 1);
        Some(r)
    } else {
        None
    }
}

/// The first thread not yet used in this scan that `chain` attaches to, or the
/// number of threads when there is none.
fn find_free(threads: &Vec<Vec<u32>>, used: &Vec<bool>, chain: &Vec<u32>) -> (r: usize)
    requires
        used@.len() == threads@.len(),
    ensures
        r as int == first_match(views(threads@), used@, chain@, 0),
        r <= threads@.len(),
{
    let ghost tv = views(threads@);
    let mut i: usize = 0;
    while i < threads.len()
        invariant
            i <= threads@.len(),
            tv == views(threads@),
            used@.len() == threads@.len(),
            first_match(tv, used@, chain@, 0) == first_match(tv, used@, chain@, i as int),
        decreases threads@.len() - i,
    {
        if !used[i] {
            if attach(&threads[i], chain).is_some() {
                return i;
            }
        }
        i = i + 1;
    }
    i
}

/// The position `first_match` names is a free thread that the chain attaches to.
pub proof fn lemma_first_match(ts: Seq<Seq<u32>>, used: Seq<bool>, c: Seq<u32>, i: int)
    requires
        0 <= i,
        used.len() == ts.len(),
    ensures
        first_match(ts, used, c, i) <= ts.len(),
        first_match(ts, used, c, i) < ts.len() ==> i <= first_match(ts, used, c, i) && !used[first_match(ts, used, c, i)]
            && attached(ts[first_match(ts, used, c, i)], c) is Some,
    decreases ts.len() - i,
{
    if i < ts.len() {
        lemma_first_match(ts, used, c, i + 1);
    }
}

/// Places the chains of one level, in order, on the running threads.
pub fn assemble_level(threads: &mut Vec<Vec<u32>>, chains: &Vec<Vec<u32>>)
    ensures
        views(final(threads)@) == place_all(
            views(old(threads)@),
            Seq::new(old(threads)@.len(), |i: int| false),
            views(chains@),
        ).0,
{
    let ghost ts0 = views(threads@);
    let ghost u0 = Seq::new(threads@.len(), |i: int| false);
    let mut used: Vec<bool> = Vec::new();
    let mut k: usize = 0;
    while k < threads.len()
        invariant
            k <= threads@.len(),
            used@ == Seq::new(k as nat, |i: int| false),
        decreases threads@.len() - k,
    {
        used.push(false);
        k = k + 1;
        assert(used@ =~= Seq::new(k as nat, |i: int| false));
    }
    let mut c: usize = 0;
    while c < chains.len()
        invariant
            c <= chains@.len(),
            (views(threads@), used@) == place_all(ts0, u0, views(chains@).subrange(0, c as int)),
            used@.len() == threads@.len(),
        decreases chains@.len() - c,
    {
        let chain = &chains[c];
        let ghost tv = views(threads@);
        let k = find_free(threads, &used, chain);
        proof {
            lemma_first_match(tv, used@, chain@, 0);
        }
        if k < threads.len() {
            let joined = attach(&threads[k], chain).unwrap();
            threads.set(k, joined);
            used.set(k, true);
            proof {
                assert(views(threads@) =~= tv.update(k as int, attached(tv[k as int], chain@)->Some_0));
            }
        } else {
            threads.push(chain.clone());
            used.push(false);
            proof {
                assert(views(threads@) =~= tv.push(chain@));
            }
        }
        proof {
            let cs = views(chains@).subrange(0, c + 1);
            assert(cs.drop_last() =~= views(chains@).subrange(0, c as int));
            assert(cs.last() == chain@);
        }
        c = c + 1;
    }
    assert(views(chains@).subrange(0, chains@.len() as int) =~= views(chains@));
}

/// Closes an open thread by appending the mirrors of its nodes in reverse order.
pub fn mirror_thread(thread: &Vec<u32>, mirror: &Vec<u32>) -> (r: Vec<u32>)
    requires
        mirrorable(thread@, mirror@),
    ensures
        r@ == mirrored(thread@, mirror@),
        r@.len() == 2 * thread@.len(),
{
    let mut r: Vec<u32> = Vec::new();
    extend_from(&mut r, thread, 0);
    assert(thread@.subrange(0, thread@.len() as int) == thread@);
    let n = thread.len();
    let mut i: usize = n;
    while i > 0
        invariant
            i <= n == thread@.len(),
            mirrorable(thread@, mirror@),
            r@ == thread@ + Seq::new((n - i) as nat, |j: int| mirror@[thread@[n - 1 - j] as int]),
        decreases i,
    {
        i = i - 1;
        r.push(mirror[thread[i] as usize]);
        assert(r@ =~= thread@ + Seq::new((n - i) as nat, |j: int| mirror@[thread@[n - 1 - j] as int]));
    }
    r
}

/// Every node of every chain of every level has a mirror in `m`.
pub open spec fn levels_mirrorable(levels: Seq<Seq<Seq<u32>>>, m: Seq<u32>) -> bool {
    forall|l: int, c: int|
        0 <= l < levels.len() && 0 <= c < levels[l].len() ==> mirrorable(#[trigger] levels[l][c], m)
}

/// Attaching a chain brings in no node that lacks a mirror.
pub proof fn lemma_attached_mirrorable(t: Seq<u32>, c: Seq<u32>, m: Seq<u32>)
    requires
        mirrorable(t, m),
        mirrorable(c, m),
        attached(t, c) is Some,
    ensures
        mirrorable(attached(t, c)->Some_0, m),
{
    let r = attached(t, c)->Some_0;
    assert forall|i: int| 0 <= i < r.len() implies (#[trigger] r[i]) < m.len() by {
        if t.last() == c[0] {
            if i >= t.len() {
                assert(r[i] == c[i - t.len() + 1]);
            }
        } else if t.last() == c.last() {
            if i >= t.len() {
                assert(r[i] == c[c.len() - 1 - (i - t.len() + 1)]);
            }
        } else if t[0] == c.last() {
            if i >= c.len() {
                assert(r[i] == t[i - c.len() + 1]);
            }
        } else {
            if i >= c.len() {
                assert(r[i] == t[i - c.len() + 1]);
            } else {
                assert(r[i] == c[c.len() - 1 - i]);
            }
        }
    }
}

/// Placing the chains of a level keeps every thread mirrorable.
pub proof fn lemma_place_all_mirrorable(ts: Seq<Seq<u32>>, used: Seq<bool>, cs: Seq<Seq<u32>>, m: Seq<u32>)
    requires
        used.len() == ts.len(),
        forall|i: int| 0 <= i < ts.len() ==> mirrorable(#[trigger] ts[i], m),
        forall|i: int| 0 <= i < cs.len() ==> mirrorable(#[trigger] cs[i], m),
    ensures
        place_all(ts, used, cs).1.len() == place_all(ts, used, cs).0.len(),
        forall|i: int|
            0 <= i < place_all(ts, used, cs).0.len() ==> mirrorable(#[trigger] place_all(ts, used, cs).0[i], m),
    decreases cs.len(),
{
    if cs.len() > 0 {
        let init = cs.drop_last();
        assert forall|i: int| 0 <= i < init.len() implies mirrorable(#[trigger] init[i], m) by {
            assert(init[i] == cs[i]);
        }
        lemma_place_all_mirrorable(ts, used, init, m);
        let p = place_all(ts, used, init);
        let c = cs.last();
        assert(mirrorable(cs[cs.len() - 1], m));
        lemma_first_match(p.0, p.1, c, 0);
        let k = first_match(p.0, p.1, c, 0);
        if k < p.0.len() {
            lemma_attached_mirrorable(p.0[k], c, m);
        }
    }
}

/// Every thread built from mirrorable chains is mirrorable.
pub proof fn lemma_threads_mirrorable(levels: Seq<Seq<Seq<u32>>>, m: Seq<u32>)
    requires
        levels_mirrorable(levels, m),
    ensures
        forall|i: int| 0 <= i < threads_of(levels).len() ==> mirrorable(#[trigger] threads_of(levels)[i], m),
    decreases levels.len(),
{
    if levels.len() > 0 {
        let init = levels.drop_last();
        assert forall|l: int, c: int|
            0 <= l < init.len() && 0 <= c < init[l].len() implies mirrorable(#[trigger] init[l][c], m) by {
            assert(init[l] == levels[l]);
        }
        lemma_threads_mirrorable(init, m);
        let ts = threads_of(init);
        let last = levels.last();
        assert forall|i: int| 0 <= i < last.len() implies mirrorable(#[trigger] last[i], m) by {
            assert(levels[levels.len() - 1] == last);
        }
        lemma_place_all_mirrorable(ts, Seq::new(ts.len(), |i: int| false), last, m);
    }
}

/// The open threads that the chains of all levels form, level after level.
pub fn spin_threads(levels: &Vec<Vec<Vec<u32>>>) -> (r: Vec<Vec<u32>>)
    ensures
        views(r@) == threads_of(level_views(levels@)),
{
    let mut threads: Vec<Vec<u32>> = Vec::new();
    let mut l: usize = 0;
    assert(views(threads@) =~= Seq::<Seq<u32>>::empty());
    while l < levels.len()
        invariant
            l <= levels@.len(),
            views(threads@) == threads_of(level_views(levels@).subrange(0, l as int)),
        decreases levels@.len() - l,
    {
        let ghost before = views(threads@);
        assemble_level(&mut threads, &levels[l]);
        proof {
            let lv = level_views(levels@).subrange(0, l + 1);
            assert(lv.drop_last() =~= level_views(levels@).subrange(0, l as int));
            assert(lv.last() == views(levels@[l as int]@));
        }
        l = l + 1;
    }
    assert(level_views(levels@).subrange(0, levels@.len() as int) =~= level_views(levels@));
    threads
}

/// The cycles of a list, each taken as its node sequence.
pub open spec fn cycle_views(cs: Seq<Cycle>) -> Seq<Seq<u32>> {
    cs.map_values(|c: Cycle| c.data@)
}

/// The first position at or after `k` whose sequence is longer than `n`, or the
/// length of `s` when there is none.
pub open spec fn insert_pos(s: Seq<Seq<u32>>, n: nat, k: int) -> int
    decreases s.len() - k,
{
    if k >= s.len() || k < 0 {
        s.len() as int
    } else if s[k].len() > n {
        k
    } else {
        insert_pos(s, n, k + 1)
    }
}

/// The sequences of `cs` ordered by length, each placed after every earlier one of
/// no greater length: equal lengths keep their order in `cs`.
pub open spec fn by_length(cs: Seq<Seq<u32>>) -> Seq<Seq<u32>>
    decreases cs.len(),
{
    if cs.len() == 0 {
        Seq::empty()
    } else {
        let s = by_length(cs.drop_last());
        s.insert(insert_pos(s, cs.last().len(), 0), cs.last())
    }
}

/// The loom that the chains of all levels form: each open thread closed by its
/// mirror image, shorter cycles first, cycles of equal length in thread order.
pub fn assemble(levels: &Vec<Vec<Vec<u32>>>, mirror: &Vec<u32>) -> (r: Vec<Cycle>)
    requires
        levels_mirrorable(level_views(levels@), mirror@),
    ensures
        cycle_views(r@).to_multiset() == threads_of(level_views(levels@)).map_values(
            |t: Seq<u32>| mirrored(t, mirror@),
        ).to_multiset(),
        forall|i: int, j: int| 0 <= i < j < r@.len() ==> r@[i].data@.len() <= r@[j].data@.len(),
        forall|i: int| 0 <= i < r@.len() ==> !(#[trigger] r@[i]).joined,
        cycle_views(r@) == by_length(
            threads_of(level_views(levels@)).map_values(|t: Seq<u32>| mirrored(t, mirror@)),
        ),
{
    let threads = spin_threads(levels);
    let ghost ts = threads_of(level_views(levels@));
    let ghost closed = ts.map_values(|t: Seq<u32>| mirrored(t, mirror@));
    proof {
        lemma_threads_mirrorable(level_views(levels@), mirror@);
    }
    let mut r: Vec<Cycle> = Vec::new();
    let mut i: usize = 0;
    assert(cycle_views(r@) =~= closed.subrange(0, 0));
    while i < threads.len()
        invariant
            i <= threads@.len(),
            views(threads@) == ts,
            closed == ts.map_values(|t: Seq<u32>| mirrored(t, mirror@)),
            forall|k: int| 0 <= k < ts.len() ==> mirrorable(#[trigger] ts[k], mirror@),
            cycle_views(r@).to_multiset() == closed.subrange(0, i as int).to_multiset(),
            forall|a: int, b: int| 0 <= a < b < r@.len() ==> r@[a].data@.len() <= r@[b].data@.len(),
            forall|a: int| 0 <= a < r@.len() ==> !(#[trigger] r@[a]).joined,
            cycle_views(r@) == by_length(closed.subrange(0, i as int)),
        decreases threads@.len() - i,
    {
        assert(views(threads@)[i as int] == threads@[i as int]@);
        let data = mirror_thread(&threads[i], mirror);
        let len = data.len();
        let ghost rv = cycle_views(r@);
        let mut p: usize = 0;
        while p < r.len() && r[p].data.len() <= len
            invariant
                p <= r@.len(),
                rv == cycle_views(r@),
                forall|a: int| 0 <= a < p ==> (#[trigger] r@[a]).data@.len() <= len,
                insert_pos(rv, len as nat, 0) == insert_pos(rv, len as nat, p as int),
            decreases r@.len() - p,
        {
            p = p + 1;
        }
        assert(insert_pos(rv, len as nat, 0) == p);
        let ghost old_r = r@;
        let cycle = Cycle::new(data);
        r.insert(p, cycle);
        proof {
            assert(cycle_views(r@) =~= cycle_views(old_r).insert(p as int, closed[i as int]));
            vstd::seq_lib::to_multiset_insert(cycle_views(old_r), p as int, closed[i as int]);
            let cs = closed.subrange(0, i + 1);
            assert(cs =~= closed.subrange(0, i as int).push(closed[i as int]));
            vstd::seq_lib::to_multiset_build(closed.subrange(0, i as int), closed[i as int]);
            assert(cs.drop_last() =~= closed.subrange(0, i as int));
            assert(cs.last() == closed[i as int]);
            assert(closed[i as int].len() == len);
            assert forall|a: int, b: int| 0 <= a < b < r@.len() implies r@[a].data@.len() <= r@[b].data@.len() by {
                if b == p {
                    assert(r@[a] == old_r[a]);
                } else if a == p {
                    assert(r@[b] == old_r[b - 1]);
                }
            }
        }
        i = i + 1;
    }
    assert(closed.subrange(0, threads@.len() as int) =~= closed);
    r
}

/// Every node of the open thread `t` is adjacent to the next one.
pub open spec fn path_linked(adj: Map<u32, HashSet<u32>>, t: Seq<u32>) -> bool {
    forall|i: int| 0 <= i < t.len() - 1 ==> adjacent(adj, #[trigger] t[i], t[i + 1])
}

/// The mirror map carries adjacent nodes to adjacent nodes.
pub open spec fn mirror_keeps_adjacency(adj: Map<u32, HashSet<u32>>, m: Seq<u32>) -> bool {
    forall|a: u32, b: u32|
        #[trigger] adjacent(adj, a, b) && a < m.len() && b < m.len() ==> adjacent(
            adj,
            m[a as int],
            m[b as int],
        )
}

/// Closing an open path by its mirror image gives a cycle of twice its length
/// whose consecutive nodes are all adjacent, when the mirror keeps adjacency and
/// each end of the path is adjacent to its own mirror.
pub proof fn lemma_mirrored_linked(adj: Map<u32, HashSet<u32>>, t: Seq<u32>, m: Seq<u32>)
    requires
        t.len() > 0,
        mirrorable(t, m),
        path_linked(adj, t),
        symmetric(adj),
        mirror_keeps_adjacency(adj, m),
        adjacent(adj, t.last(), m[t.last() as int]),
        adjacent(adj, m[t[0] as int], t[0]),
    ensures
        mirrored(t, m).len() == 2 * t.len(),
        linked(adj, mirrored(t, m)),
{
    let j = mirrored(t, m);
    let l = t.len() as int;
    let n = j.len() as int;
    assert(n == 2 * l);
    assert forall|i: int| 0 <= i < n implies adjacent(adj, #[trigger] j[i], crate::cycle::next_of(j, i)) by {
        lemma_next_index(i, n);
        if i < l - 1 {
            assert(adjacent(adj, t[i], t[i + 1]));
        } else if i == l - 1 {
            assert(j[i + 1] == m[t[l - 1] as int]);
        } else if i < n - 1 {
            let k = 2 * l - 2 - i;
            assert(adjacent(adj, t[k], t[k + 1]));
            assert(adjacent(adj, t[k + 1], t[k]));
            assert(t[k + 1] < m.len() && t[k] < m.len());
            assert(j[i] == m[t[k + 1] as int]);
            assert(j[i + 1] == m[t[k] as int]);
        } else {
            assert(j[i] == m[t[0] as int]);
        }
    }
}

} // verus!
