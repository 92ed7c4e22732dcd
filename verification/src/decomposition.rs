use vstd::prelude::*;
use crate::direction::{Direction, opp};
use crate::graph::{Edges, complete, degree, edges_left, joined_with_all, without};
use crate::mesh::{
    Mesh, adjacent, edge_list, empty_mesh, inserted, lemma_row_nodes, link, linked, present,
    row_nodes, valid,
};
use crate::ring::{
    Ring, attached, attaches, in_ring, lemma_attached, lemma_attached_valid,
    lemma_insert_attaches, ring_fits, slot_fits,
};
use crate::slots::open_slots;

verus! {

/// The pair `p` is an edge between node `id` and one of the nodes `nbs`.
pub open spec fn joins(nbs: Seq<u32>, id: int, p: (int, int)) -> bool {
    exists|k: int|
        0 <= k < nbs.len() && ((p.0 == id && p.1 == #[trigger] nbs[k]) || (p.1 == id && p.0
            == nbs[k]))
}

/// The edges `es` without those between node `id` and the nodes `nbs`.
pub open spec fn consumed(es: Edges, nbs: Seq<u32>, id: int) -> Edges {
    Set::new(|p: (int, int)| es.contains(p) && !joins(nbs, id, p))
}

/// The nodes that can be placed at a position with ring `r`: those joined
/// in the graph with every node of the ring.
pub open spec fn fitting(es: Edges, r: Ring, n: nat) -> Set<int> {
    joined_with_all(es, n, row_nodes(r, 6))
}

/// Node `v` can be placed: it is one of the first `n` nodes, a candidate,
/// and not yet part of the mesh.
pub open spec fn eligible(m: Mesh, cand: Set<int>, n: nat, v: int) -> bool {
    0 <= v < n && cand.contains(v) && !present(m, v)
}

/// Node `b` is the best of the nodes that can be placed: none has more
/// edges left in the graph, and none with as many has a lower number.
pub open spec fn best_of(es: Edges, m: Mesh, cand: Set<int>, n: nat, b: int) -> bool {
    &&& eligible(m, cand, n, b)
    &&& forall|v: int| #[trigger]
        eligible(m, cand, n, v) ==> degree(es, v) < degree(es, b) || (degree(es, v) == degree(
            es,
            b,
        ) && b <= v)
}

/// The best of the nodes that can be placed.
pub open spec fn best(es: Edges, m: Mesh, cand: Set<int>, n: nat) -> int {
    choose|b: int| best_of(es, m, cand, n, b)
}

/// No two nodes are the best of the nodes that can be placed.
pub proof fn lemma_best_unique(es: Edges, m: Mesh, cand: Set<int>, n: nat, b: int)
    requires
        best_of(es, m, cand, n, b),
    ensures
        best(es, m, cand, n) == b,
{
    let c = best(es, m, cand, n);
    assert(best_of(es, m, cand, n, c));
    assert(eligible(m, cand, n, b));
    assert(eligible(m, cand, n, c));
}

/// The position with ring `r` can be filled: the graph has a node that fits
/// there and is not yet part of the patch `m`.
#[verifier::opaque]
pub open spec fn fillable(es: Edges, m: Mesh, n: nat, r: Ring) -> bool {
    exists|v: int| eligible(m, fitting(es, r, n), n, v)
}

/// The nodes listed for a ring that fits are nodes of the mesh, and they
/// are the nodes of the ring.
pub proof fn lemma_listed(m: Mesh, r: Ring, a: int, d: int)
    requires
        ring_fits(m, r, a, d),
    ensures
        forall|k: int|
            0 <= k < row_nodes(r, 6).len() ==> (#[trigger] row_nodes(r, 6)[k]) < m.len(),
        forall|x: int| in_ring(r, x) <==> 0 <= x <= u32::MAX && row_nodes(r, 6).contains(x as u32),
        row_nodes(r, 6).len() > 0,
{
    lemma_row_nodes(r, 6);
    let l = row_nodes(r, 6);
    assert forall|k: int| 0 <= k < l.len() implies (#[trigger] l[k]) < m.len() by {
        assert(l.contains(l[k]));
        let j = choose|j: int| 0 <= j < 6 && #[trigger] r[j] == Some(l[k]);
        assert(slot_fits(m, r, j));
    }
    assert forall|x: int| in_ring(r, x) <==> 0 <= x <= u32::MAX && l.contains(x as u32) by {
        if in_ring(r, x) {
            let j = choose|j: int|
                0 <= j < 6 && #[trigger] r[j] == Some(x as u32) && 0 <= x <= u32::MAX;
            assert(slot_fits(m, r, j));
        }
        if 0 <= x <= u32::MAX && l.contains(x as u32) {
            let j = choose|j: int| 0 <= j < 6 && #[trigger] r[j] == Some(x as u32);
        }
    }
    assert(in_ring(r, a));
    assert(l.contains(a as u32));
}

/// The number of nodes round an open position.
pub open spec fn ring_size(s: (u32, Direction, Ring)) -> nat {
    row_nodes(s.2, 6).len()
}

/// Position `i` of the open positions of the patch `m` is the one that is
/// filled next: it can be filled, and of the positions that can, none has
/// more nodes round it, and none with as many is listed after it.
pub open spec fn is_pick(es: Edges, m: Mesh, n: nat, i: int) -> bool {
    &&& 0 <= i < open_slots(m).len()
    &&& fillable(es, m, n, open_slots(m)[i].2)
    &&& forall|j: int|
        0 <= j < open_slots(m).len() && fillable(es, m, n, (#[trigger] open_slots(m)[j]).2)
            ==> ring_size(open_slots(m)[j]) < ring_size(open_slots(m)[i]) || (ring_size(
            open_slots(m)[j],
        ) == ring_size(open_slots(m)[i]) && j <= i)
}

/// The open position that is filled next.
pub open spec fn picked(es: Edges, m: Mesh, n: nat) -> int {
    choose|i: int| is_pick(es, m, n, i)
}

/// No two open positions are the one that is filled next.
pub proof fn lemma_pick_unique(es: Edges, m: Mesh, n: nat, i: int)
    requires
        is_pick(es, m, n, i),
    ensures
        picked(es, m, n) == i,
{
    let j = picked(es, m, n);
    assert(is_pick(es, m, n, j));
    let _ = open_slots(m)[i];
    let _ = open_slots(m)[j];
}

/// The pair of nodes with which a new patch starts: `u` has the most edges
/// left in the graph, `v` has the most among the nodes joined with `u`, and
/// each is the lowest-numbered of its kind.
pub open spec fn seed_of(es: Edges, n: nat, u: int, v: int) -> bool {
    &&& 0 <= u < n
    &&& 0 <= v < n
    &&& es.contains((u, v))
    &&& forall|i: int|
        0 <= i < n ==> #[trigger] degree(es, i) < degree(es, u) || (degree(es, i) == degree(es, u)
            && u <= i)
    &&& forall|j: int| #[trigger]
        es.contains((u, j)) ==> degree(es, j) < degree(es, v) || (degree(es, j) == degree(es, v)
            && v <= j)
}

/// The pair of nodes with which a new patch starts.
pub open spec fn seed(es: Edges, n: nat) -> (int, int) {
    choose|p: (int, int)| seed_of(es, n, p.0, p.1)
}

/// No two pairs of nodes are the pair with which a new patch starts.
pub proof fn lemma_seed_unique(es: Edges, n: nat, u: int, v: int)
    requires
        seed_of(es, n, u, v),
    ensures
        seed(es, n) == (u, v),
{
    let p = (u, v);
    assert(seed_of(es, n, p.0, p.1));
    let q = seed(es, n);
    assert(seed_of(es, n, q.0, q.1));
    assert(degree(es, q.0) < degree(es, u) || (degree(es, q.0) == degree(es, u) && u <= q.0));
    assert(degree(es, u) < degree(es, q.0) || (degree(es, u) == degree(es, q.0) && q.0 <= u));
    assert(es.contains((u, q.1)));
    assert(es.contains((q.0, v)));
}

/// The graph and the patch after the patch was extended by one node, if it
/// can be: the open position that is filled next holds the best of the
/// nodes that can be placed there, and the graph has lost the edges between
/// that node and the nodes round the position.
pub open spec fn extended(es: Edges, m: Mesh, n: nat) -> Option<(Edges, Mesh)> {
    if exists|i: int| is_pick(es, m, n, i) {
        let r = open_slots(m)[picked(es, m, n)].2;
        let b = best(es, m, fitting(es, r, n), n);
        Some((consumed(es, row_nodes(r, 6), b), attached(m, r, b as u32)))
    } else {
        None
    }
}

/// The patches that the decomposition ends with, from the edges `es` left
/// in the graph, the patch `m` that is being built, and the patches `done`
/// that were set aside: the patch is extended while it can be; then it is
/// set aside, and a new one starts with an edge that is left, until none is.
pub open spec fn finished(es: Edges, m: Mesh, done: Seq<Mesh>, n: nat) -> Seq<Mesh>
    decreases edges_left(es, n as int),
{
    match extended(es, m, n) {
        Some((es1, m1)) => if edges_left(es1, n as int) < edges_left(es, n as int) {
            finished(es1, m1, done, n)
        } else {
            done
        },
        None => if es == Set::<(int, int)>::empty() {
            done.push(m)
        } else {
            let es1 = without(es, seed(es, n).0, seed(es, n).1);
            if edges_left(es1, n as int) < edges_left(es, n as int) {
                finished(
                    es1,
                    inserted(empty_mesh(n), seed(es, n).0 as u32, 0, seed(es, n).1 as u32),
                    done.push(m),
                    n,
                )
            } else {
                done.push(m)
            }
        },
    }
}

/// The patches into which the complete graph on `n` nodes is decomposed:
/// none for fewer than two nodes; else the first patch starts with the edge
/// between nodes 0 and 1.
pub open spec fn greedy_patches(n: nat) -> Seq<Mesh> {
    if n < 2 {
        Seq::empty()
    } else {
        finished(
            without(complete(n), 0, 1),
            inserted(empty_mesh(n), 0, 0, 1),
            Seq::empty(),
            n,
        )
    }
}

/// The invariants of a mesh hold of the patch `m`.
#[verifier::opaque]
pub open spec fn sound(m: Mesh) -> bool {
    valid(m)
}

/// The invariants of a mesh hold of the mesh without links.
pub proof fn lemma_empty_valid(n: nat)
    ensures
        valid(empty_mesh(n)),
{
    let e = empty_mesh(n);
    assert forall|a: int, d: int| 0 <= a < e.len() && 0 <= d < 6 implies (#[trigger] link(e, a, d))
        is None by {}
    assert forall|a: int, d: int| 0 <= a < e.len() && 0 <= d < 6 implies !#[trigger] linked(
        e,
        a,
        d,
    ) by {
        assert(link(e, a, d) is None);
    }
}

/// One step of the decomposition, from the edges `es0` left in the graph
/// and the patch `m0` to the edges `es1` and the patch `m1`: the patch keeps
/// the invariants of a mesh, the graph gains no edge, and the links
/// of the patch are those it had and the edges that the graph lost. Where
/// the step has `moved`, the graph lost an edge; where not, nothing changed.
pub open spec fn step(es0: Edges, m0: Mesh, es1: Edges, m1: Mesh, n: nat, moved: bool) -> bool {
    &&& m1.len() == m0.len()
    &&& sound(m1)
    &&& es1.subset_of(es0)
    &&& !moved ==> es1 == es0 && m1 == m0
    &&& moved ==> exists|p: (int, int)|
        0 <= p.0 < n && 0 <= p.1 < n && #[trigger] es0.contains(p) && !es1.contains(p)
    &&& forall|a: int, b: int|
        0 <= a < n && 0 <= b < n ==> (#[trigger] adjacent(m1, a, b) <==> adjacent(m0, a, b) || (
        es0.contains((a, b)) && !es1.contains((a, b))))
}

/// Inserting a node at a position whose ring fits, and taking from the
/// graph the edges between the node and the nodes of the ring, is a step of
/// the decomposition, provided that the graph had all those edges.
pub proof fn lemma_placed(
    es0: Edges,
    es1: Edges,
    m: Mesh,
    r: Ring,
    a: int,
    d: int,
    id: u32,
    n: nat,
)
    requires
        valid(m),
        attaches(m, r, a, d, id),
        m.len() == n,
        es0.subset_of(complete(n)),
        forall|i: int, j: int| #[trigger] es0.contains((i, j)) ==> es0.contains((j, i)),
        forall|x: int| in_ring(r, x) ==> es0.contains((x, id as int)),
        forall|p: (int, int)| #[trigger]
            es1.contains(p) <==> es0.contains(p) && !((p.0 == id && in_ring(r, p.1)) || (p.1 == id
                && in_ring(r, p.0))),
    ensures
        inserted(m, a as u32, d, id) == attached(m, r, id),
        step(es0, m, es1, inserted(m, a as u32, d, id), n, true),
{
    lemma_insert_attaches(m, r, a, d, id);
    lemma_attached(m, r, a, d, id);
    lemma_attached_valid(m, r, a, d, id);
    reveal(sound);
    let m1 = attached(m, r, id);
    assert(r[opp(d)] == Some(a as u32));
    assert(in_ring(r, a));
    let p = (a, id as int);
    assert(es0.contains(p) && !es1.contains(p));
    assert forall|x: int, y: int| 0 <= x < n && 0 <= y < n implies (#[trigger] adjacent(m1, x, y)
        <==> adjacent(m, x, y) || (es0.contains((x, y)) && !es1.contains((x, y)))) by {
        if x == id && in_ring(r, y) {
            assert(es0.contains((y, x)));
            assert(es0.contains((x, y)));
        }
        if y == id && in_ring(r, x) {
            assert(es0.contains((x, y)));
        }
        assert(es1.contains((x, y)) <==> es0.contains((x, y)) && !((x == id && in_ring(r, y)) || (y
            == id && in_ring(r, x))));
    }
}

/// Nodes `a` and `b` are linked in patch `i` of `done`.
pub open spec fn in_patch(done: Seq<Mesh>, i: int, a: int, b: int) -> bool {
    0 <= i < done.len() && 0 <= a < done[i].len() && adjacent(done[i], a, b)
}

/// The pair of nodes `a` and `b` is accounted for: see `accounted`.
pub open spec fn pair_ok(es: Edges, cur: Mesh, done: Seq<Mesh>, a: int, b: int) -> bool {
    &&& es.contains((a, b)) || adjacent(cur, a, b) || exists|i: int| in_patch(done, i, a, b)
    &&& !(es.contains((a, b)) && adjacent(cur, a, b))
    &&& forall|i: int| in_patch(done, i, a, b) ==> !es.contains((a, b)) && !adjacent(cur, a, b)
    &&& forall|i: int, j: int| in_patch(done, i, a, b) && in_patch(done, j, a, b) ==> i == j
}

/// The edges of the complete graph on `n` nodes are accounted for: each is
/// left in the graph `es`, or a link of the patch `cur` that is being
/// built, or a link of one of the patches `done`, and of these only one.
pub open spec fn accounted(es: Edges, cur: Mesh, done: Seq<Mesh>, n: nat) -> bool {
    forall|a: int, b: int|
        0 <= a < n && 0 <= b < n && a != b ==> #[trigger] pair_ok(es, cur, done, a, b)
}

/// A step of the decomposition keeps the edges accounted for.
pub proof fn lemma_step_accounted(
    es0: Edges,
    m0: Mesh,
    es1: Edges,
    m1: Mesh,
    done: Seq<Mesh>,
    n: nat,
    moved: bool,
)
    requires
        accounted(es0, m0, done, n),
        step(es0, m0, es1, m1, n, moved),
    ensures
        accounted(es1, m1, done, n),
{
    assert forall|a: int, b: int| 0 <= a < n && 0 <= b < n && a != b implies #[trigger] pair_ok(
        es1,
        m1,
        done,
        a,
        b,
    ) by {
        assert(pair_ok(es0, m0, done, a, b));
        assert(adjacent(m1, a, b) <==> adjacent(m0, a, b) || (es0.contains((a, b))
            && !es1.contains((a, b))));
    }
}

/// Setting the patch aside and starting an empty one keeps the edges accounted for.
pub proof fn lemma_sealed_accounted(es: Edges, m: Mesh, done: Seq<Mesh>, n: nat)
    requires
        accounted(es, m, done, n),
        m.len() == n,
    ensures
        accounted(es, empty_mesh(m.len()), done.push(m), n),
{
    let next = done.push(m);
    let e = empty_mesh(m.len());
    assert forall|a: int, b: int| 0 <= a < n && 0 <= b < n && a != b implies #[trigger] pair_ok(
        es,
        e,
        next,
        a,
        b,
    ) by {
        assert(pair_ok(es, m, done, a, b));
        assert(!adjacent(e, a, b)) by {
            if adjacent(e, a, b) {
                let d = choose|d: int|
                    0 <= d < 6 && #[trigger] link(e, a, d) == Some(b as u32) && 0 <= b <= u32::MAX;
                assert(link(e, a, d) is None);
            }
        }
        assert forall|i: int| in_patch(next, i, a, b) <==> in_patch(done, i, a, b) || (i
            == done.len() && adjacent(m, a, b)) by {
            if 0 <= i < done.len() {
                assert(next[i] == done[i]);
            }
            if i == done.len() {
                assert(next[i] == m);
            }
        }
        if adjacent(m, a, b) {
            assert(in_patch(next, done.len() as int, a, b));
        }
        if exists|i: int| in_patch(done, i, a, b) {
            let i = choose|i: int| in_patch(done, i, a, b);
            assert(in_patch(next, i, a, b));
        }
    }
}

/// Nodes `a` and `b` are linked in exactly one of the patches `done`.
pub open spec fn covered_once(done: Seq<Mesh>, a: int, b: int) -> bool {
    exists|i: int| in_patch(done, i, a, b) && forall|j: int| in_patch(done, j, a, b) ==> j == i
}

/// The patches `done` decompose the complete graph on `n` nodes: each is a
/// mesh on the `n` nodes of which the invariants hold, and every two
/// different nodes are linked in exactly one of them.
pub open spec fn decomposes(done: Seq<Mesh>, n: nat) -> bool {
    &&& forall|i: int| 0 <= i < done.len() ==> (#[trigger] done[i]).len() == n && valid(done[i])
    &&& forall|a: int, b: int|
        0 <= a < n && 0 <= b < n && a != b ==> #[trigger] covered_once(done, a, b)
}

/// Once the graph has no edge left and the patch that is being built has
/// no link, the patches that were set aside decompose the complete graph.
pub proof fn lemma_accounted_decomposes(done: Seq<Mesh>, n: nat)
    requires
        accounted(Set::<(int, int)>::empty(), empty_mesh(n), done, n),
        forall|i: int| 0 <= i < done.len() ==> (#[trigger] done[i]).len() == n && sound(done[i]),
    ensures
        decomposes(done, n),
{
    let e = empty_mesh(n);
    reveal(sound);
    assert forall|a: int, b: int| 0 <= a < n && 0 <= b < n && a != b implies #[trigger] covered_once(
        done,
        a,
        b,
    ) by {
        assert(pair_ok(Set::<(int, int)>::empty(), e, done, a, b));
        assert(!adjacent(e, a, b)) by {
            if adjacent(e, a, b) {
                let d = choose|d: int|
                    0 <= d < 6 && #[trigger] link(e, a, d) == Some(b as u32) && 0 <= b <= u32::MAX;
                assert(link(e, a, d) is None);
            }
        }
        let i = choose|i: int| in_patch(done, i, a, b);
        assert(in_patch(done, i, a, b));
    }
}

/// Nodes `a` and `b` are linked in one of the patches `done`.
pub open spec fn covered(done: Seq<Mesh>, a: int, b: int) -> bool {
    exists|i: int| in_patch(done, i, a, b)
}

/// The patches `done` cover the complete graph on `n` nodes: in one of
/// them at least, the lower-numbered of every two nodes holds the other.
pub open spec fn covers(done: Seq<Mesh>, n: nat) -> bool {
    forall|a: int, b: int| 0 <= a < b < n ==> #[trigger] covered(done, a, b)
}

/// Patches that decompose the complete graph cover it: what `solve_greedy`
/// gives, `verify` accepts.
pub proof fn lemma_decomposition_covers(done: Seq<Mesh>, n: nat)
    requires
        decomposes(done, n),
    ensures
        covers(done, n),
{
    assert forall|a: int, b: int| 0 <= a < b < n implies #[trigger] covered(done, a, b) by {
        assert(covered_once(done, a, b));
    }
}

/// The pair `p` is one of the edges `s`, in either order.
pub open spec fn struck(s: Seq<(u32, u32)>, p: (int, int)) -> bool {
    exists|k: int|
        0 <= k < s.len() && (((#[trigger] s[k]).0 == p.0 && s[k].1 == p.1) || (s[k].0 == p.1
            && s[k].1 == p.0))
}

/// The edge `e` is listed for one of the first `i` patches of `done`.
pub open spec fn listed_before(done: Seq<Mesh>, i: int, e: (u32, u32)) -> bool {
    exists|j: int| 0 <= j < i && edge_list(#[trigger] done[j]).contains(e)
}

/// What the lists of the edges of patches that decompose the complete
/// graph hold: every pair of two nodes, the lower first, stands in the list
/// of one patch, and in no other; and every pair that a list holds is such a
/// pair, and stands in it once.
pub proof fn lemma_decomposition_edges(done: Seq<Mesh>, n: nat)
    requires
        decomposes(done, n),
    ensures
        forall|a: u32, b: u32|
            a < b < n ==> #[trigger] listed_before(done, done.len() as int, (a, b)),
        forall|k: int, a: u32, b: u32|
            0 <= k < done.len() && #[trigger] edge_list(done[k]).contains((a, b)) ==> a < b < n,
        forall|k: int| 0 <= k < done.len() ==> (#[trigger] edge_list(done[k])).no_duplicates(),
        forall|k: int, l: int, a: u32, b: u32|
            0 <= k < done.len() && 0 <= l < done.len() && #[trigger] edge_list(done[k]).contains(
                (a, b),
            ) && #[trigger] edge_list(done[l]).contains((a, b)) ==> k == l,
{
    assert forall|k: int| 0 <= k < done.len() implies (#[trigger] edge_list(
        done[k],
    )).no_duplicates() by {
        crate::laws::lemma_edge_list(done[k]);
    }
    assert forall|a: u32, b: u32| a < b < n implies #[trigger] listed_before(
        done,
        done.len() as int,
        (a, b),
    ) by {
        assert(covered_once(done, a as int, b as int));
        let k = choose|k: int| in_patch(done, k, a as int, b as int);
        crate::laws::lemma_edge_list(done[k]);
        assert(edge_list(done[k]).contains((a, b)));
    }
    assert forall|k: int, a: u32, b: u32|
        0 <= k < done.len() && #[trigger] edge_list(done[k]).contains((a, b)) implies a < b
        < n by {
        crate::laws::lemma_edge_list(done[k]);
        let d = choose|d: int|
            0 <= d < 6 && #[trigger] link(done[k], a as int, d) == Some(b as int as u32);
    }
    assert forall|k: int, l: int, a: u32, b: u32|
        0 <= k < done.len() && 0 <= l < done.len() && #[trigger] edge_list(done[k]).contains(
            (a, b),
        ) && #[trigger] edge_list(done[l]).contains((a, b)) implies k == l by {
        crate::laws::lemma_edge_list(done[k]);
        crate::laws::lemma_edge_list(done[l]);
        assert(covered_once(done, a as int, b as int));
        assert(in_patch(done, k, a as int, b as int));
        assert(in_patch(done, l, a as int, b as int));
    }
}

/// Two runs on the same number of nodes give the same patches in the same
/// order: what every node holds in every direction is the same in both.
pub proof fn lemma_deterministic(one: Seq<Mesh>, two: Seq<Mesh>, n: nat)
    requires
        one == greedy_patches(n),
        two == greedy_patches(n),
    ensures
        one.len() == two.len(),
        forall|k: int, a: int, d: int|
            0 <= k < one.len() ==> #[trigger] link(one[k], a, d) == link(two[k], a, d),
{
}

/// The number of edges that the first `k` patches list together.
pub open spec fn edges_listed(done: Seq<Mesh>, k: int) -> nat
    decreases k,
{
    if k <= 0 {
        0
    } else {
        edges_listed(done, k - 1) + edge_list(done[k - 1]).len()
    }
}

/// The pairs of two of the first `n` nodes, the lower first.
pub open spec fn pairs(n: nat) -> Set<(u32, u32)> {
    Set::new(|p: (u32, u32)| p.0 < p.1 < n)
}

/// The edges that the first `k` patches list.
pub open spec fn listed_pairs(done: Seq<Mesh>, k: int) -> Set<(u32, u32)> {
    Set::new(|p: (u32, u32)| listed_before(done, k, p))
}

/// There are `n` times `n - 1` by two pairs of two of `n` nodes.
proof fn lemma_pairs_len(n: nat)
    requires
        n <= u32::MAX + 1,
    ensures
        pairs(n).finite(),
        2 * pairs(n).len() == n * (n - 1),
    decreases n,
{
    if n == 0 {
        assert(pairs(n) =~= Set::<(u32, u32)>::empty());
    } else {
        lemma_pairs_len((n - 1) as nat);
        let h = (n - 1) as u32;
        let f = |a: int| (a as u32, h);
        let range = vstd::set_lib::set_int_range(0, n - 1);
        let col = Set::new(|p: (u32, u32)| p.1 == h && p.0 < h);
        vstd::set_lib::lemma_int_range(0, n - 1);
        assert(vstd::relations::injective_on(f, range));
        assert(range.map(f) =~= col) by {
            assert forall|p: (u32, u32)| col.contains(p) implies range.map(f).contains(p) by {
                assert(range.contains(p.0 as int));
                assert(f(p.0 as int) == p);
            }
        }
        vstd::set_lib::lemma_map_size(range, col, f);
        let before = pairs((n - 1) as nat);
        assert(before + col =~= pairs(n));
        assert(before.disjoint(col));
        vstd::set_lib::lemma_set_disjoint_lens(before, col);
        assert(2 * (before.len() + col.len()) == n * (n - 1)) by (nonlinear_arith)
            requires
                2 * before.len() == (n - 1) * (n - 2),
                col.len() == n - 1,
        ;
    }
}

/// The edges that the first `k` patches of a decomposition list are as
/// many as the lengths of their lists together.
proof fn lemma_listed_len(done: Seq<Mesh>, n: nat, k: int)
    requires
        decomposes(done, n),
        0 <= k <= done.len(),
    ensures
        listed_pairs(done, k).finite(),
        listed_pairs(done, k).len() == edges_listed(done, k),
    decreases k,
{
    if k == 0 {
        assert(listed_pairs(done, k) =~= Set::<(u32, u32)>::empty());
    } else {
        lemma_listed_len(done, n, k - 1);
        lemma_decomposition_edges(done, n);
        let list = edge_list(done[k - 1]);
        let before = listed_pairs(done, k - 1);
        let last = list.to_set();
        vstd::seq_lib::seq_to_set_is_finite(list);
        list.unique_seq_to_set();
        assert(before + last =~= listed_pairs(done, k)) by {
            assert forall|p: (u32, u32)| listed_pairs(done, k).contains(p) implies (before
                + last).contains(p) by {
                let j = choose|j: int| 0 <= j < k && edge_list(#[trigger] done[j]).contains(p);
                if j < k - 1 {
                    assert(listed_before(done, k - 1, p));
                }
            }
            assert forall|p: (u32, u32)| (before + last).contains(p) implies listed_pairs(
                done,
                k,
            ).contains(p) by {
                if before.contains(p) {
                    let j = choose|j: int|
                        0 <= j < k - 1 && edge_list(#[trigger] done[j]).contains(p);
                    assert(edge_list(done[j]).contains(p));
                } else {
                    assert(edge_list(done[k - 1]).contains(p));
                }
            }
        }
        assert(before.disjoint(last)) by {
            assert forall|p: (u32, u32)| !(before.contains(p) && last.contains(p)) by {
                if before.contains(p) && last.contains(p) {
                    let j = choose|j: int|
                        0 <= j < k - 1 && edge_list(#[trigger] done[j]).contains(p);
                    assert(edge_list(done[j]).contains((p.0, p.1)));
                    assert(edge_list(done[k - 1]).contains((p.0, p.1)));
                }
            }
        }
        vstd::set_lib::lemma_set_disjoint_lens(before, last);
    }
}

/// The patches of a decomposition of the complete graph on `n` nodes list
/// `n` times `n - 1` by two edges together.
pub proof fn lemma_decomposition_count(done: Seq<Mesh>, n: nat)
    requires
        decomposes(done, n),
        n <= u32::MAX + 1,
    ensures
        2 * edges_listed(done, done.len() as int) == n * (n - 1),
{
    lemma_listed_len(done, n, done.len() as int);
    lemma_pairs_len(n);
    lemma_decomposition_edges(done, n);
    assert(listed_pairs(done, done.len() as int) =~= pairs(n)) by {
        assert forall|p: (u32, u32)| pairs(n).contains(p) implies listed_pairs(
            done,
            done.len() as int,
        ).contains(p) by {
            assert(listed_before(done, done.len() as int, (p.0, p.1)));
        }
        assert forall|p: (u32, u32)| listed_pairs(done, done.len() as int).contains(
            p,
        ) implies pairs(n).contains(p) by {
            let j = choose|j: int|
                0 <= j < done.len() && edge_list(#[trigger] done[j]).contains(p);
            assert(edge_list(done[j]).contains((p.0, p.1)));
        }
    }
}

} // verus!
