use vstd::prelude::*;
use fixedbitset::FixedBitSet;
use crate::bitset::ones;
use crate::decomposition::{
    accounted, best, best_of, consumed, covered, covered_once, covers, decomposes, eligible,
    extended, fillable, finished, fitting, greedy_patches, in_patch, is_pick, joins,
    lemma_accounted_decomposes, lemma_best_unique, lemma_empty_valid, lemma_listed,
    lemma_pick_unique, lemma_placed, lemma_sealed_accounted, lemma_seed_unique,
    lemma_step_accounted, listed_before, pair_ok, ring_size, seed_of, sound, step, struck,
};
use crate::direction::Direction;
use crate::graph::{
    Graph, TGraph, complete, degree, edges_left, lemma_degree, lemma_fewer_edges, without,
};
use crate::lattice::{Lattice, slots_view};
use crate::laws::lemma_edge_list;
use crate::mesh::{
    Mesh, adjacent, edge_list, empty_mesh, inserted, lemma_row_nodes_len, link, present, row_nodes,
    well_formed,
};
use crate::neighbor::Neighbor;
use crate::ring::{
    attached, attaches, in_ring, lemma_attached, lemma_insert_attaches, ring_fits, run_ccw,
    run_cw, slot_fits,
};
use crate::slots::{Slot, lemma_open_slots, open_slots, slot_view, slots_list_view};

verus! {

/// The contents of a list of patches.
pub open spec fn patches(out: Seq<Lattice>) -> Seq<Mesh> {
    Seq::new(out.len(), |i: int| out[i]@)
}

/// The number of nodes in a ring.
pub fn count_nbs(nbs: &[Neighbor; 6]) -> (c: usize)
    ensures
        c == row_nodes(slots_view(*nbs), 6).len(),
{
    let mut c: usize = 0;
    let mut k: usize = 0;
    while k < 6
        invariant
            k <= 6,
            c == row_nodes(slots_view(*nbs), k as int).len(),
            c <= k,
        decreases 6 - k,
    {
        if nbs[k].get().is_some() {
            c += 1;
        }
        k += 1;
    }
    c
}

/// The nodes of a ring, in order of direction.
fn listed(nbs: &[Neighbor; 6]) -> (v: Vec<u32>)
    ensures
        v@ == row_nodes(slots_view(*nbs), 6),
{
    let mut v: Vec<u32> = Vec::new();
    let mut k: usize = 0;
    while k < 6
        invariant
            k <= 6,
            v@ == row_nodes(slots_view(*nbs), k as int),
        decreases 6 - k,
    {
        if let Some(x) = nbs[k].get() {
            v.push(x);
        }
        k += 1;
    }
    v
}

/// Removes from the graph the edges between node `id` and each of the nodes `nbs`.
fn consume<G: TGraph>(graph: &mut G, id: u32, nbs: &Vec<u32>)
    requires
        old(graph).wf(),
        id < old(graph).node_count(),
        forall|k: int| 0 <= k < nbs@.len() ==> nbs@[k] < old(graph).node_count(),
    ensures
        final(graph).wf(),
        final(graph).node_count() == old(graph).node_count(),
        final(graph).edges() == consumed(old(graph).edges(), nbs@, id as int),
{
    let ghost es = graph.edges();
    let mut k: usize = 0;
    assert(graph.edges() =~= consumed(es, nbs@.take(0), id as int));
    while k < nbs.len()
        invariant
            k <= nbs@.len(),
            graph.wf(),
            graph.node_count() == old(graph).node_count(),
            id < graph.node_count(),
            forall|q: int| 0 <= q < nbs@.len() ==> nbs@[q] < graph.node_count(),
            graph.edges() == consumed(es, nbs@.take(k as int), id as int),
        decreases nbs@.len() - k,
    {
        let ghost cur = graph.edges();
        graph.remove_edge(id, nbs[k]);
        proof {
            let a = nbs@.take(k as int);
            let b = nbs@.take(k as int + 1);
            assert forall|p: (int, int)| joins(b, id as int, p) <==> joins(a, id as int, p) || (p.0
                == id && p.1 == nbs@[k as int]) || (p.1 == id && p.0 == nbs@[k as int]) by {
                if joins(b, id as int, p) {
                    let q = choose|q: int|
                        0 <= q < b.len() && ((p.0 == id && p.1 == #[trigger] b[q]) || (p.1 == id
                            && p.0 == b[q]));
                    if q < k {
                        assert(a[q] == b[q]);
                    }
                }
                if joins(a, id as int, p) {
                    let q = choose|q: int|
                        0 <= q < a.len() && ((p.0 == id && p.1 == #[trigger] a[q]) || (p.1 == id
                            && p.0 == a[q]));
                    assert(b[q] == a[q]);
                }
                assert(b[k as int] == nbs@[k as int]);
            }
            assert(graph.edges() =~= consumed(es, b, id as int));
        }
        k += 1;
    }
    assert(nbs@.take(nbs@.len() as int) =~= nbs@);
}

/// Of the candidates that are not yet part of the mesh, the one with the
/// most edges left in the graph, and of several such the one with the lowest
/// number.
fn pick_candidate<G: TGraph>(graph: &G, lattice: &Lattice, candidates: &FixedBitSet) -> (r: Option<
    u32,
>)
    requires
        graph.wf(),
        lattice@.len() == graph.node_count(),
        graph.node_count() <= u32::MAX,
    ensures
        match r {
            Some(b) => best_of(graph.edges(), lattice@, ones(*candidates), graph.node_count(), b as int),
            None => forall|v: int| !eligible(lattice@, ones(*candidates), graph.node_count(), v),
        },
{
    let n = graph.num_nodes();
    let mut best: Option<u32> = None;
    let mut most: usize = 0;
    let mut v: usize = 0;
    while v < n
        invariant
            v <= n,
            n == graph.node_count(),
            n <= u32::MAX,
            graph.wf(),
            lattice@.len() == n,
            match best {
                Some(b) => {
                    &&& b < v
                    &&& most == degree(graph.edges(), b as int)
                    &&& eligible(lattice@, ones(*candidates), n as nat, b as int)
                    &&& forall|w: int|
                        0 <= w < v && #[trigger] eligible(lattice@, ones(*candidates), n as nat, w)
                            ==> degree(graph.edges(), w) < most || (degree(graph.edges(), w)
                            == most && b <= w)
                },
                None => forall|w: int|
                    0 <= w < v ==> !eligible(lattice@, ones(*candidates), n as nat, w),
            },
        decreases n - v,
    {
        if candidates.contains(v) && !lattice.contains(v as u32) {
            let val = graph.valence(v as u32);
            if best.is_none() || val > most {
                best = Some(v as u32);
                most = val;
            }
        }
        v += 1;
    }
    best
}

/// The pair of nodes with which a new patch starts, if the graph has an edge left.
fn pick_seed<G: TGraph>(graph: &G) -> (r: Option<(u32, u32)>)
    requires
        graph.wf(),
        graph.node_count() <= u32::MAX,
    ensures
        match r {
            Some((u, v)) => seed_of(graph.edges(), graph.node_count(), u as int, v as int),
            None => graph.edges() == Set::<(int, int)>::empty(),
        },
{
    let n = graph.num_nodes();
    proof {
        graph.lemma_edges();
    }
    if n == 0 {
        assert(graph.edges() =~= Set::<(int, int)>::empty()) by {
            assert forall|p: (int, int)| !graph.edges().contains(p) by {
                if graph.edges().contains(p) {
                    assert(complete(0).contains(p));
                }
            }
        }
        return None;
    }
    let mut u: u32 = 0;
    let mut most: usize = graph.valence(0);
    let mut i: usize = 1;
    while i < n
        invariant
            1 <= i <= n,
            n == graph.node_count(),
            n <= u32::MAX,
            graph.wf(),
            u < i,
            most == degree(graph.edges(), u as int),
            forall|w: int|
                0 <= w < i ==> #[trigger] degree(graph.edges(), w) < most || (degree(
                    graph.edges(),
                    w,
                ) == most && u <= w),
        decreases n - i,
    {
        let val = graph.valence(i as u32);
        if val > most {
            u = i as u32;
            most = val;
        }
        i += 1;
    }
    let mut v: Option<u32> = None;
    let mut top: usize = 0;
    let mut j: usize = 0;
    while j < n
        invariant
            j <= n,
            n == graph.node_count(),
            n <= u32::MAX,
            graph.wf(),
            u < n,
            match v {
                Some(x) => {
                    &&& x < j
                    &&& graph.edges().contains((u as int, x as int))
                    &&& top == degree(graph.edges(), x as int)
                    &&& forall|w: int|
                        0 <= w < j && #[trigger] graph.edges().contains((u as int, w)) ==> degree(
                            graph.edges(),
                            w,
                        ) < top || (degree(graph.edges(), w) == top && x <= w)
                },
                None => forall|w: int| 0 <= w < j ==> !graph.edges().contains((u as int, w)),
            },
        decreases n - j,
    {
        if graph.has_edge(u, j as u32) {
            let val = graph.valence(j as u32);
            if v.is_none() || val > top {
                v = Some(j as u32);
                top = val;
            }
        }
        j += 1;
    }
    match v {
        Some(x) => {
            assert forall|w: int| #[trigger]
                graph.edges().contains((u as int, w)) implies degree(graph.edges(), w) < top || (
            degree(graph.edges(), w) == top && x <= w) by {
                assert(complete(n as nat).contains((u as int, w)));
            }
            Some((u, x))
        },
        None => {
            proof {
                lemma_degree(graph.edges(), n as nat, u as int);
                assert(!exists|w: int| graph.edges().contains((u as int, w))) by {
                    if exists|w: int| graph.edges().contains((u as int, w)) {
                        let w = choose|w: int| graph.edges().contains((u as int, w));
                        assert(complete(n as nat).contains((u as int, w)));
                    }
                }
                assert forall|p: (int, int)| !graph.edges().contains(p) by {
                    if graph.edges().contains(p) {
                        assert(complete(n as nat).contains(p));
                        lemma_degree(graph.edges(), n as nat, p.0);
                        assert(degree(graph.edges(), p.0) > 0);
                    }
                }
                assert(graph.edges() =~= Set::<(int, int)>::empty());
            }
            None
        },
    }
}

/// Tries to fill the open position `slot` of the patch: places there, if
/// there is one, the best of the nodes that are joined in the graph with
/// every node round the position and are not yet part of the patch, and
/// takes from the graph the edges between that node and its new neighbours.
fn place<G: TGraph>(
    lattice: &mut Lattice,
    graph: &mut G,
    slot: &Slot,
    candidates: &mut FixedBitSet,
) -> (placed: bool)
    requires
        old(graph).wf(),
        old(graph).node_count() <= u32::MAX,
        old(lattice)@.len() == old(graph).node_count(),
        sound(old(lattice)@),
        ring_fits(old(lattice)@, slots_view(slot.2), slot.0 as int, slot.1.index()),
    ensures
        final(graph).wf(),
        final(graph).node_count() == old(graph).node_count(),
        step(
            old(graph).edges(),
            old(lattice)@,
            final(graph).edges(),
            final(lattice)@,
            old(graph).node_count(),
            placed,
        ),
        placed <==> fillable(
            old(graph).edges(),
            old(lattice)@,
            old(graph).node_count(),
            slots_view(slot.2),
        ),
        placed ==> final(lattice)@ == attached(
            old(lattice)@,
            slots_view(slot.2),
            best(
                old(graph).edges(),
                old(lattice)@,
                fitting(old(graph).edges(), slots_view(slot.2), old(graph).node_count()),
                old(graph).node_count(),
            ) as u32,
        ),
        placed ==> final(graph).edges() == consumed(
            old(graph).edges(),
            row_nodes(slots_view(slot.2), 6),
            best(
                old(graph).edges(),
                old(lattice)@,
                fitting(old(graph).edges(), slots_view(slot.2), old(graph).node_count()),
                old(graph).node_count(),
            ),
        ),
{
    let n = lattice.len();
    let ghost m = lattice@;
    let ghost es = graph.edges();
    let ghost r = slots_view(slot.2);
    let ghost a = slot.0 as int;
    let ghost d = slot.1.index();
    proof {
        graph.lemma_edges();
        lemma_listed(m, r, a, d);
        reveal(fillable);
        reveal(sound);
    }
    let required = listed(&slot.2);
    graph.find_candidates(required.as_slice(), candidates);
    match pick_candidate(graph, lattice, candidates) {
        None => false,
        Some(b) => {
            proof {
                assert forall|x: int| in_ring(r, x) implies es.contains((x, b as int)) by {
                    let k = choose|k: int| 0 <= k < required@.len() && required@[k] == x as u32;
                    assert(es.contains((required@[k] as int, b as int)));
                }
                assert(in_ring(r, a));
                assert(complete(n as nat).contains((a, b as int)));
                assert(attaches(m, r, a, d, b));
                lemma_insert_attaches(m, r, a, d, b);
                lemma_attached(m, r, a, d, b);
            }
            lattice.insert(slot.0, slot.1, b);
            let nbs = lattice.neighbors(b);
            assert(nbs@ == required@);
            consume(graph, b, &nbs);
            proof {
                let es1 = graph.edges();
                assert forall|p: (int, int)| #[trigger]
                    es1.contains(p) <==> es.contains(p) && !((p.0 == b && in_ring(r, p.1)) || (p.1
                        == b && in_ring(r, p.0))) by {
                    if joins(nbs@, b as int, p) {
                        let k = choose|k: int|
                            0 <= k < nbs@.len() && ((p.0 == b && p.1 == #[trigger] nbs@[k]) || (p.1
                                == b && p.0 == nbs@[k]));
                        assert(nbs@.contains(nbs@[k]));
                    }
                    if p.0 == b && in_ring(r, p.1) {
                        let k = choose|k: int| 0 <= k < nbs@.len() && nbs@[k] == p.1 as u32;
                        assert(joins(nbs@, b as int, p));
                    }
                    if p.1 == b && in_ring(r, p.0) {
                        let k = choose|k: int| 0 <= k < nbs@.len() && nbs@[k] == p.0 as u32;
                        assert(joins(nbs@, b as int, p));
                    }
                }
                lemma_placed(es, es1, m, r, a, d, b, n as nat);
                assert(eligible(m, fitting(es, r, n as nat), n as nat, b as int));
                assert(fillable(es, m, n as nat, r));
                lemma_best_unique(es, m, fitting(es, r, n as nat), n as nat, b as int);
            }
            true
        },
    }
}

/// Starts a patch with the edge between nodes `u` and `v`: links them in
/// the empty patch and takes the edge from the graph.
fn start<G: TGraph>(lattice: &mut Lattice, graph: &mut G, u: u32, v: u32)
    requires
        old(graph).wf(),
        old(graph).node_count() <= u32::MAX,
        old(lattice)@ == empty_mesh(old(graph).node_count()),
        old(graph).edges().contains((u as int, v as int)),
    ensures
        final(graph).wf(),
        final(graph).node_count() == old(graph).node_count(),
        final(graph).edges() == without(old(graph).edges(), u as int, v as int),
        final(lattice)@ == inserted(old(lattice)@, u, 0, v),
        step(
            old(graph).edges(),
            old(lattice)@,
            final(graph).edges(),
            final(lattice)@,
            old(graph).node_count(),
            true,
        ),
{
    let ghost n = graph.node_count();
    let ghost m = lattice@;
    let ghost es = graph.edges();
    proof {
        graph.lemma_edges();
        assert(complete(n).contains((u as int, v as int)));
    }
    lattice.insert(u, Direction::RIGHT, v);
    graph.remove_edge(u, v);
    proof {
        let r = Seq::new(6, |j: int| if j == 3 { Some(u) } else { None });
        assert(run_cw(r, 3, 0) == 0);
        assert(run_ccw(r, 3, 0) == 0);
        assert forall|j: int| 0 <= j < 6 implies #[trigger] slot_fits(m, r, j) by {
            if j == 3 {
                assert(link(m, u as int, 0) is None);
                assert(link(m, u as int, 1) is None);
                assert(link(m, u as int, 5) is None);
            }
        }
        assert(ring_fits(m, r, u as int, 0));
        assert(!present(m, v as int));
        lemma_empty_valid(n);
        reveal(sound);
        assert(attaches(m, r, u as int, 0, v));
        let es1 = graph.edges();
        assert forall|x: int| in_ring(r, x) <==> x == u by {
            if in_ring(r, x) {
                let j = choose|j: int|
                0 <= j < 6 && #[trigger] r[j] == Some(x as u32) && 0 <= x <= u32::MAX;
            }
            if x == u {
                assert(r[3] == Some(x as u32));
            }
        }
        lemma_placed(es, es1, m, r, u as int, 0, v, n);
    }
}

/// Tries to extend the patch by one node. The open positions are tried in
/// order of the number of nodes round them, those with more first, and of
/// positions with as many the one listed last first; the first position for
/// which the graph has a node that fits is filled.
fn grow<G: TGraph>(
    lattice: &mut Lattice,
    graph: &mut G,
    visited: &mut Vec<bool>,
    slots: &mut Vec<Slot>,
    candidates: &mut FixedBitSet,
) -> (grown: bool)
    requires
        old(graph).wf(),
        old(graph).node_count() <= u32::MAX,
        old(lattice)@.len() == old(graph).node_count(),
        sound(old(lattice)@),
    ensures
        final(graph).wf(),
        final(graph).node_count() == old(graph).node_count(),
        step(
            old(graph).edges(),
            old(lattice)@,
            final(graph).edges(),
            final(lattice)@,
            old(graph).node_count(),
            grown,
        ),
        match extended(old(graph).edges(), old(lattice)@, old(graph).node_count()) {
            Some((es1, m1)) => grown && final(graph).edges() == es1 && final(lattice)@ == m1,
            None => !grown,
        },
{
    let ghost m = lattice@;
    let ghost es = graph.edges();
    let ghost n = graph.node_count();
    let ghost all = open_slots(m);
    lattice.empty_slots(visited, slots);
    let _ = lattice.len();
    proof {
        assert forall|i: int| 0 <= i < all.len() implies ring_size(#[trigger] all[i]) <= 6 by {
            lemma_row_nodes_len(all[i].2, 6);
        }
    }
    let mut c: usize = 6;
    while c > 0
        invariant
            c <= 6,
            graph.wf(),
            graph.node_count() == n,
            n == old(graph).node_count(),
            es == old(graph).edges(),
            m == old(lattice)@,
            n <= u32::MAX,
            lattice@ == m,
            graph.edges() == es,
            m.len() == n,
            sound(m),
            all == open_slots(m),
            slots_list_view(slots@) == all,
            forall|i: int|
                0 <= i < all.len() && ring_size(#[trigger] all[i]) > c ==> !fillable(
                    es,
                    m,
                    n,
                    all[i].2,
                ),
        decreases c,
    {
        let mut idx: usize = slots.len();
        while idx > 0
            invariant
                idx <= slots@.len(),
                1 <= c <= 6,
                graph.wf(),
                graph.node_count() == n,
                n == old(graph).node_count(),
                es == old(graph).edges(),
                m == old(lattice)@,
                n <= u32::MAX,
                lattice@ == m,
                graph.edges() == es,
                m.len() == n,
                sound(m),
                all == open_slots(m),
                slots_list_view(slots@) == all,
                forall|i: int|
                    0 <= i < all.len() && ring_size(#[trigger] all[i]) > c ==> !fillable(
                        es,
                        m,
                        n,
                        all[i].2,
                    ),
                forall|i: int|
                    idx <= i < all.len() && ring_size(#[trigger] all[i]) == c ==> !fillable(
                        es,
                        m,
                        n,
                        all[i].2,
                    ),
            decreases idx,
        {
            idx -= 1;
            let slot = slots[idx];
            assert(slot_view(slot) == all[idx as int]);
            if count_nbs(&slot.2) == c {
                proof {
                    lemma_open_slots(m, idx as int);
                }
                if place(lattice, graph, &slot, candidates) {
                    proof {
                        assert(is_pick(es, m, n, idx as int)) by {
                            assert forall|j: int|
                                0 <= j < all.len() && fillable(
                                    es,
                                    m,
                                    n,
                                    (#[trigger] all[j]).2,
                                ) implies ring_size(all[j]) < ring_size(all[idx as int]) || (
                            ring_size(all[j]) == ring_size(all[idx as int]) && j <= idx) by {}
                        }
                        lemma_pick_unique(es, m, n, idx as int);
                    }
                    return true;
                }
            }
        }
        c -= 1;
    }
    proof {
        assert forall|i: int| 0 <= i < all.len() implies !fillable(
            es,
            m,
            n,
            (#[trigger] all[i]).2,
        ) by {
            lemma_open_slots(m, i);
            lemma_listed(m, all[i].2, all[i].0 as int, all[i].1.index());
            assert(ring_size(all[i]) > 0);
        }
        assert forall|i: int| !is_pick(es, m, n, i) by {
            if 0 <= i < all.len() {
                let _ = all[i];
            }
        }
    }
    false
}

/// Decomposes the complete graph on `num_nodes` nodes into patches of
/// triangular mesh, greedily. The first patch starts with the edge between
/// nodes 0 and 1. A patch is extended, one node at a time, while an open
/// position of it can be filled; then it is set aside, and the next starts
/// with an edge that is left, until none is. Fewer than two nodes give no
/// patch.
pub fn solve_greedy<G: TGraph>(num_nodes: usize) -> (out: Vec<Lattice>)
    requires
        num_nodes <= u32::MAX,
    ensures
        patches(out@) == greedy_patches(num_nodes as nat),
        decomposes(patches(out@), num_nodes as nat),
        num_nodes < 2 ==> out@.len() == 0,
        num_nodes >= 2 ==> out@.len() > 0,
{
    let mut out: Vec<Lattice> = Vec::new();
    let ghost n = num_nodes as nat;
    if num_nodes < 2 {
        assert(decomposes(patches(out@), n)) by {
            assert forall|a: int, b: int| 0 <= a < n && 0 <= b < n && a != b implies #[trigger] covered_once(
                patches(out@), a, b) by {}
        }
        assert(patches(out@) =~= greedy_patches(n));
        return out;
    }
    let mut graph = G::new_complete(num_nodes);
    let mut lattice = Lattice::new(num_nodes);
    let mut candidates = FixedBitSet::with_capacity(num_nodes);
    let mut visited: Vec<bool> = Vec::new();
    let mut slots: Vec<Slot> = Vec::new();
    proof {
        let e = empty_mesh(n);
        assert forall|a: int, b: int| 0 <= a < n && 0 <= b < n && a != b implies #[trigger] pair_ok(
            graph.edges(),
            e,
            patches(out@),
            a,
            b,
        ) by {
            assert(complete(n).contains((a, b)));
            assert(!adjacent(e, a, b)) by {
                if adjacent(e, a, b) {
                    let d = choose|d: int|
                        0 <= d < 6 && #[trigger] link(e, a, d) == Some(b as u32) && 0 <= b <= u32::MAX;
                    assert(link(e, a, d) is None);
                }
            }
        }
        assert(complete(n).contains((0int, 1int)));
    }
    let ghost es0 = graph.edges();
    start(&mut lattice, &mut graph, 0, 1);
    proof {
        lemma_step_accounted(es0, empty_mesh(n), graph.edges(), lattice@, patches(out@), n, true);
        assert(patches(out@) =~= Seq::<Mesh>::empty());
    }
    let mut done = false;
    while !done
        invariant
            graph.wf(),
            graph.node_count() == n,
            n == num_nodes,
            n <= u32::MAX,
            lattice@.len() == n,
            sound(lattice@),
            forall|i: int|
                0 <= i < out@.len() ==> (#[trigger] patches(out@)[i]).len() == n && sound(
                    patches(out@)[i],
                ),
            !done ==> accounted(graph.edges(), lattice@, patches(out@), n),
            !done ==> finished(graph.edges(), lattice@, patches(out@), n) == greedy_patches(n),
            done ==> decomposes(patches(out@), n) && out@.len() > 0,
            done ==> patches(out@) == greedy_patches(n),
        decreases (if done { 0int } else { 1int }), edges_left(graph.edges(), n as int),
    {
        let ghost es = graph.edges();
        let ghost m = lattice@;
        let grown = grow(&mut lattice, &mut graph, &mut visited, &mut slots, &mut candidates);
        proof {
            lemma_step_accounted(es, m, graph.edges(), lattice@, patches(out@), n, grown);
        }
        if grown {
            proof {
                let p = choose|p: (int, int)|
                    0 <= p.0 < n && 0 <= p.1 < n && #[trigger] es.contains(p)
                        && !graph.edges().contains(p);
                lemma_fewer_edges(es, graph.edges(), n as int, p.0, p.1);
            }
        } else {
            let ghost before = patches(out@);
            out.push(lattice.clone());
            lattice.clear();
            proof {
                assert(patches(out@) =~= before.push(m));
                lemma_sealed_accounted(es, m, before, n);
                lemma_empty_valid(n);
                reveal(sound);
            }
            if graph.is_empty() {
                done = true;
            } else {
                match pick_seed(&graph) {
                    Some((u, v)) => {
                        let ghost e = lattice@;
                        start(&mut lattice, &mut graph, u, v);
                        proof {
                            lemma_step_accounted(es, e, graph.edges(), lattice@, patches(out@), n, true);
                            lemma_fewer_edges(es, graph.edges(), n as int, u as int, v as int);
                            lemma_seed_unique(es, n, u as int, v as int);
                        }
                    },
                    None => {
                        done = true;
                    },
                }
            }
            proof {
                if done {
                    lemma_accounted_decomposes(patches(out@), n);
                }
            }
        }
    }
    out
}

/// Whether the patches cover the complete graph on `num_nodes` nodes:
/// whether no edge is left of it once the edges of every patch are removed.
pub fn verify(num_nodes: usize, solutions: &Vec<Lattice>) -> (ok: bool)
    requires
        forall|i: int|
            0 <= i < solutions@.len() ==> (#[trigger] solutions@[i])@.len() <= num_nodes,
    ensures
        ok == covers(patches(solutions@), num_nodes as nat),
{
    let ghost n = num_nodes as nat;
    let ghost done = patches(solutions@);
    let mut graph = Graph::new_complete(num_nodes);
    let ghost mut gone: Seq<(u32, u32)> = Seq::empty();
    assert(graph.edges() =~= Set::new(|p: (int, int)| complete(n).contains(p) && !struck(gone, p)));
    let mut i: usize = 0;
    while i < solutions.len()
        invariant
            i <= solutions@.len(),
            n == num_nodes,
            done == patches(solutions@),
            forall|j: int|
                0 <= j < solutions@.len() ==> (#[trigger] solutions@[j])@.len() <= num_nodes,
            graph.wf(),
            graph.node_count() == n,
            graph.edges() == Set::new(
                |p: (int, int)| complete(n).contains(p) && !struck(gone, p),
            ),
            forall|j: int| 0 <= j < i ==> well_formed(#[trigger] done[j]),
            forall|k: int| 0 <= k < gone.len() ==> listed_before(done, i as int, #[trigger] gone[k]),
            forall|j: int, e: (u32, u32)|
                0 <= j < i && #[trigger] edge_list(done[j]).contains(e) ==> gone.contains(e),
        decreases solutions@.len() - i,
    {
        let _ = solutions[i].len();
        let es = solutions[i].edges();
        let ghost before = gone;
        let ghost m = solutions@[i as int]@;
        assert(m == done[i as int]);
        proof {
            lemma_edge_list(m);
        }
        let mut k: usize = 0;
        while k < es.len()
            invariant
                k <= es@.len(),
                i < solutions@.len(),
                done == patches(solutions@),
                es@ == edge_list(m),
                m == done[i as int],
                m.len() <= n,
                well_formed(m),
                n == num_nodes,
                graph.wf(),
                graph.node_count() == n,
                graph.edges() == Set::new(
                    |p: (int, int)| complete(n).contains(p) && !struck(gone, p),
                ),
                gone == before + es@.take(k as int),
            decreases es@.len() - k,
        {
            let e = es[k];
            proof {
                lemma_edge_list(m);
                assert(edge_list(m).contains(e));
                assert(adjacent(m, e.0 as int, e.1 as int));
                let d = choose|d: int|
                    0 <= d < 6 && #[trigger] link(m, e.0 as int, d) == Some(e.1 as int as u32);
                assert(e.1 < m.len());
            }
            let ghost cur = graph.edges();
            graph.remove_edge(e.0, e.1);
            proof {
                let next = gone.push(e);
                assert(es@.take(k as int + 1) =~= es@.take(k as int).push(e));
                assert(next =~= before + es@.take(k as int + 1));
                assert forall|p: (int, int)| struck(next, p) <==> struck(gone, p) || (p.0 == e.0
                    && p.1 == e.1) || (p.0 == e.1 && p.1 == e.0) by {
                    if struck(next, p) {
                        let q = choose|q: int|
                            0 <= q < next.len() && (((#[trigger] next[q]).0 == p.0 && next[q].1
                                == p.1) || (next[q].0 == p.1 && next[q].1 == p.0));
                        if q < gone.len() {
                            assert(gone[q] == next[q]);
                        }
                    }
                    if struck(gone, p) {
                        let q = choose|q: int|
                            0 <= q < gone.len() && (((#[trigger] gone[q]).0 == p.0 && gone[q].1
                                == p.1) || (gone[q].0 == p.1 && gone[q].1 == p.0));
                        assert(next[q] == gone[q]);
                    }
                    assert(next[gone.len() as int] == e);
                }
                assert(graph.edges() =~= Set::new(
                    |p: (int, int)| complete(n).contains(p) && !struck(next, p),
                ));
                gone = next;
            }
            k += 1;
        }
        proof {
            assert(es@.take(es@.len() as int) =~= es@);
            assert forall|q: int| 0 <= q < gone.len() implies listed_before(
                done,
                i + 1,
                #[trigger] gone[q],
            ) by {
                if q < before.len() {
                    assert(gone[q] == before[q]);
                    assert(listed_before(done, i as int, before[q]));
                    let j = choose|j: int|
                        0 <= j < i && edge_list(#[trigger] done[j]).contains(before[q]);
                    assert(edge_list(done[j]).contains(gone[q]));
                } else {
                    assert(gone[q] == es@[q - before.len()]);
                    assert(edge_list(done[i as int]).contains(gone[q]));
                }
            }
            assert forall|j: int, e: (u32, u32)|
                0 <= j < i + 1 && #[trigger] edge_list(done[j]).contains(e) implies gone.contains(
                e,
            ) by {
                if j < i {
                    assert(before.contains(e));
                    let q = choose|q: int| 0 <= q < before.len() && before[q] == e;
                    assert(gone[q] == e);
                } else {
                    let q = choose|q: int| 0 <= q < es@.len() && es@[q] == e;
                    assert(gone[before.len() + q] == e);
                }
            }
        }
        i += 1;
    }
    let ok = graph.is_empty();
    proof {
        if ok {
            assert forall|a: int, b: int| 0 <= a < b < n implies #[trigger] covered(done, a, b) by {
                let p = (a, b);
                assert(complete(n).contains(p));
                assert(!graph.edges().contains(p));
                assert(struck(gone, p));
                let q = choose|q: int|
                    0 <= q < gone.len() && (((#[trigger] gone[q]).0 == p.0 && gone[q].1 == p.1) || (
                    gone[q].0 == p.1 && gone[q].1 == p.0));
                assert(listed_before(done, solutions@.len() as int, gone[q]));
                let j = choose|j: int|
                    0 <= j < solutions@.len() && edge_list(#[trigger] done[j]).contains(gone[q]);
                let _ = solutions@[j];
                lemma_edge_list(done[j]);
                assert(edge_list(done[j]).contains((gone[q].0, gone[q].1)));
                assert(in_patch(done, j, a, b));
            }
        }
        if covers(done, n) {
            assert forall|p: (int, int)| !graph.edges().contains(p) by {
                if complete(n).contains(p) {
                    let a = if p.0 < p.1 {
                        p.0
                    } else {
                        p.1
                    };
                    let b = if p.0 < p.1 {
                        p.1
                    } else {
                        p.0
                    };
                    assert(covered(done, a, b));
                    let j = choose|j: int| in_patch(done, j, a, b);
                    let _ = solutions@[j];
                    lemma_edge_list(done[j]);
                    assert(edge_list(done[j]).contains((a as u32, b as u32)));
                    assert(gone.contains((a as u32, b as u32)));
                    let q = choose|q: int| 0 <= q < gone.len() && gone[q] == (a as u32, b as u32);
                    assert(struck(gone, p));
                }
            }
            assert(graph.edges() =~= Set::<(int, int)>::empty());
        }
    }
    ok
}

} // verus!
