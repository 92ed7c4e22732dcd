use vstd::prelude::*;
use fixedbitset::FixedBitSet;
use crate::bitset::{
    bits, ones, trimmed, bitset_insert_range, bitset_count_ones, bitset_clone_from,
};

verus! {

/// The edges of a graph: the pairs of nodes that are joined. An edge between
/// two nodes stands in it as two pairs, one for each direction.
pub type Edges = Set<(int, int)>;

/// The edges of the complete graph on `n` nodes.
pub open spec fn complete(n: nat) -> Edges {
    Set::new(|p: (int, int)| 0 <= p.0 < n && 0 <= p.1 < n && p.0 != p.1)
}

/// The nodes that are joined with node `i`.
pub open spec fn neighbourhood(es: Edges, i: int) -> Set<int> {
    Set::new(|j: int| es.contains((i, j)))
}

/// The number of edges at node `i`.
pub open spec fn degree(es: Edges, i: int) -> nat {
    neighbourhood(es, i).len()
}

/// The sum of the degrees of the nodes before `k`.
pub open spec fn degree_sum(es: Edges, k: int) -> nat
    decreases k,
{
    if k <= 0 {
        0
    } else {
        degree_sum(es, k - 1) + degree(es, k - 1)
    }
}

/// Of the first `n` nodes, those that are joined with every node of `required`.
pub open spec fn joined_with_all(es: Edges, n: nat, required: Seq<u32>) -> Set<int> {
    Set::new(
        |v: int|
            0 <= v < n && forall|k: int|
                0 <= k < required.len() ==> es.contains((#[trigger] required[k] as int, v)),
    )
}

/// The edges `es` without the edge between nodes `i` and `j`.
pub open spec fn without(es: Edges, i: int, j: int) -> Edges {
    es.remove((i, j)).remove((j, i))
}

/// A graph on nodes numbered from zero whose edges can be removed.
pub trait TGraph: Clone {
    /// The graph is in order.
    spec fn wf(&self) -> bool;

    /// The number of nodes.
    spec fn node_count(&self) -> nat;

    /// The edges.
    spec fn edges(&self) -> Edges;

    /// Edges join two different nodes of the graph and have no direction.
    proof fn lemma_edges(&self)
        requires
            self.wf(),
        ensures
            self.edges().subset_of(complete(self.node_count())),
            forall|i: int, j: int| #[trigger]
                self.edges().contains((i, j)) ==> self.edges().contains((j, i)),
    ;

    /// The complete graph on `n` nodes.
    fn new_complete(n: usize) -> (g: Self)
        ensures
            g.wf(),
            g.node_count() == n,
            g.edges() == complete(n as nat),
    ;

    /// Whether nodes `i` and `j` are joined by an edge.
    fn has_edge(&self, i: u32, j: u32) -> (b: bool)
        requires
            self.wf(),
            i < self.node_count(),
        ensures
            b == self.edges().contains((i as int, j as int)),
    ;

    /// Removes the edge between nodes `i` and `j`, if there is one.
    fn remove_edge(&mut self, i: u32, j: u32)
        requires
            old(self).wf(),
            i < old(self).node_count(),
            j < old(self).node_count(),
        ensures
            final(self).wf(),
            final(self).node_count() == old(self).node_count(),
            final(self).edges() == without(old(self).edges(), i as int, j as int),
    ;

    /// The number of edges: half the sum of the degrees of the nodes. The
    /// square of the number of nodes, which bounds that sum, must fit the
    /// machine word.
    fn num_edges(&self) -> (r: usize)
        requires
            self.wf(),
            self.node_count() * self.node_count() <= usize::MAX,
        ensures
            r == degree_sum(self.edges(), self.node_count() as int) / 2,
    ;

    /// Whether the graph has no edge.
    fn is_empty(&self) -> (b: bool)
        requires
            self.wf(),
        ensures
            b == (self.edges() == Set::<(int, int)>::empty()),
    ;

    /// The number of edges at node `node`.
    fn valence(&self, node: u32) -> (r: usize)
        requires
            self.wf(),
            node < self.node_count(),
        ensures
            r == degree(self.edges(), node as int),
    ;

    /// Sets `candidates` to the nodes that are joined with every node of
    /// `required`: to all nodes where `required` is empty. The set gets
    /// room for as many bits as there are nodes; only where `required` is
    /// empty and the set had room for more, it keeps that room.
    fn find_candidates(&self, required: &[u32], candidates: &mut FixedBitSet)
        requires
            self.wf(),
            forall|k: int| 0 <= k < required@.len() ==> required@[k] < self.node_count(),
        ensures
            ones(*final(candidates)) == joined_with_all(
                self.edges(),
                self.node_count(),
                required@,
            ),
            bits(*final(candidates)).len() == (if required@.len() == 0 && bits(
                *old(candidates),
            ).len() > self.node_count() {
                bits(*old(candidates)).len()
            } else {
                self.node_count()
            }),
    ;

    /// The number of nodes.
    fn num_nodes(&self) -> (n: usize)
        requires
            self.wf(),
        ensures
            n == self.node_count(),
    ;
}

/// A graph that keeps, for every node, the set of the nodes joined with it.
#[derive(Clone)]
pub struct Graph {
    n_nodes: usize,
    conn: Vec<FixedBitSet>,
}

impl Graph {
    /// The bit of node `j` in the row of node `i`.
    pub closed spec fn bit(&self, i: int, j: int) -> bool {
        bits(self.conn@[i])[j]
    }

    /// Every node has a row, and every row a bit for every node and
    /// nothing in its blocks beyond.
    pub closed spec fn shaped(&self) -> bool {
        &&& self.conn@.len() == self.n_nodes
        &&& forall|i: int|
            0 <= i < self.n_nodes ==> (#[trigger] bits(self.conn@[i])).len() == self.n_nodes
        &&& forall|i: int| 0 <= i < self.n_nodes ==> trimmed(#[trigger] self.conn@[i])
    }

    /// The bits that are set in the row of a node are the nodes joined with it.
    proof fn lemma_row(&self, i: int)
        requires
            self.wf(),
            0 <= i < self.node_count(),
        ensures
            ones(self.conn@[i]) == neighbourhood(self.edges(), i),
    {
        assert(ones(self.conn@[i]) =~= neighbourhood(self.edges(), i));
    }
}

impl TGraph for Graph {
    closed spec fn wf(&self) -> bool {
        &&& self.shaped()
        &&& forall|i: int, j: int|
            0 <= i < self.n_nodes && 0 <= j < self.n_nodes && #[trigger] self.bit(i, j) ==> i != j
                && self.bit(j, i)
    }

    closed spec fn node_count(&self) -> nat {
        self.n_nodes as nat
    }

    closed spec fn edges(&self) -> Edges {
        Set::new(
            |p: (int, int)| 0 <= p.0 < self.n_nodes && 0 <= p.1 < self.n_nodes && self.bit(p.0, p.1),
        )
    }

    proof fn lemma_edges(&self) {
    }

    fn new_complete(n: usize) -> (g: Graph) {
        let mut conn: Vec<FixedBitSet> = Vec::new();
        let mut i: usize = 0;
        while i < n
            invariant
                i <= n,
                conn@.len() == i,
                forall|a: int| 0 <= a < i ==> (#[trigger] bits(conn@[a])).len() == n,
                forall|a: int| 0 <= a < i ==> trimmed(#[trigger] conn@[a]),
                forall|a: int, b: int|
                    0 <= a < i && 0 <= b < n ==> #[trigger] bits(conn@[a])[b] == (a != b),
            decreases n - i,
        {
            let mut row = FixedBitSet::with_capacity(n);
            bitset_insert_range(&mut row, 0, i);
            bitset_insert_range(&mut row, i + 1, n);
            conn.push(row);
            i += 1;
        }
        let g = Graph { n_nodes: n, conn };
        assert(g.edges() =~= complete(n as nat));
        g
    }

    fn has_edge(&self, i: u32, j: u32) -> (b: bool) {
        self.conn[i as usize].contains(j as usize)
    }

    fn remove_edge(&mut self, i: u32, j: u32) {
        let ghost before = *self;
        self.conn[i as usize].remove(j as usize);
        self.conn[j as usize].remove(i as usize);
        assert forall|a: int, b: int| 0 <= a < self.n_nodes && 0 <= b < self.n_nodes implies (
        #[trigger] self.bit(a, b)) == (before.bit(a, b) && !(a == i && b == j) && !(a == j && b
            == i)) by {}
        assert(self.edges() =~= without(before.edges(), i as int, j as int));
    }

    fn num_edges(&self) -> (r: usize) {
        let mut total: usize = 0;
        let mut i: usize = 0;
        proof {
            self.lemma_edges();
        }
        while i < self.n_nodes
            invariant
                i <= self.n_nodes,
                self.wf(),
                self.edges().subset_of(complete(self.n_nodes as nat)),
                total == degree_sum(self.edges(), i as int),
                self.n_nodes * self.n_nodes <= usize::MAX,
            decreases self.n_nodes - i,
        {
            let c = bitset_count_ones(&self.conn[i]);
            proof {
                self.lemma_row(i as int);
                lemma_degree_sum_bound(self.edges(), self.n_nodes as nat, i as int + 1);
                assert((i + 1) * self.n_nodes <= self.n_nodes * self.n_nodes) by (nonlinear_arith)
                    requires
                        i + 1 <= self.n_nodes,
                ;
            }
            total = total + c;
            i += 1;
        }
        total / 2
    }

    fn is_empty(&self) -> (b: bool) {
        let mut i: usize = 0;
        while i < self.n_nodes
            invariant
                i <= self.n_nodes,
                self.wf(),
                forall|a: int, b: int| 0 <= a < i ==> !#[trigger] self.edges().contains((a, b)),
            decreases self.n_nodes - i,
        {
            if !self.conn[i].is_clear() {
                proof {
                    let b = choose|b: int|
                        0 <= b < bits(self.conn@[i as int]).len() && bits(self.conn@[i as int])[b];
                    assert(self.bit(i as int, b));
                    assert(self.edges().contains((i as int, b)));
                }
                return false;
            }
            i += 1;
        }
        assert(self.edges() =~= Set::<(int, int)>::empty());
        true
    }

    fn valence(&self, node: u32) -> (r: usize) {
        proof {
            self.lemma_row(node as int);
        }
        bitset_count_ones(&self.conn[node as usize])
    }

    fn find_candidates(&self, required: &[u32], candidates: &mut FixedBitSet) {
        if required.len() == 0 {
            candidates.clear();
            candidates.grow(self.n_nodes);
            bitset_insert_range(candidates, 0, self.n_nodes);
            assert(ones(*candidates) =~= joined_with_all(
                self.edges(),
                self.node_count(),
                required@,
            ));
            return ;
        }
        bitset_clone_from(candidates, &self.conn[required[0] as usize]);
        let mut k: usize = 1;
        while k < required.len()
            invariant
                1 <= k <= required@.len(),
                self.wf(),
                forall|q: int| 0 <= q < required@.len() ==> required@[q] < self.node_count(),
                bits(*candidates).len() == self.n_nodes,
                forall|v: int|
                    0 <= v < self.n_nodes ==> #[trigger] bits(*candidates)[v] == (forall|q: int|
                        0 <= q < k ==> self.edges().contains((#[trigger] required@[q] as int, v))),
            decreases required@.len() - k,
        {
            candidates.intersect_with(&self.conn[required[k] as usize]);
            k += 1;
        }
        assert(ones(*candidates) =~= joined_with_all(
            self.edges(),
            self.node_count(),
            required@,
        ));
    }

    fn num_nodes(&self) -> (n: usize) {
        self.n_nodes
    }
}

/// Among edges that join nodes of the first `n`, no node has a degree
/// above `n`, and the degrees of the first `k` nodes sum to `k` times `n`
/// at most.
pub proof fn lemma_degree_sum_bound(es: Edges, n: nat, k: int)
    requires
        es.subset_of(complete(n)),
        0 <= k,
    ensures
        degree_sum(es, k) <= k * n,
    decreases k,
{
    if k > 0 {
        lemma_degree_sum_bound(es, n, k - 1);
        let s = neighbourhood(es, k - 1);
        vstd::set_lib::lemma_int_range(0, n as int);
        assert forall|j: int| s.contains(j) implies vstd::set_lib::set_int_range(
            0,
            n as int,
        ).contains(j) by {
            assert(complete(n).contains((k - 1, j)));
        }
        vstd::set_lib::lemma_len_subset(s, vstd::set_lib::set_int_range(0, n as int));
        assert((k - 1) * n + n == k * n) by (nonlinear_arith);
    }
}

/// The edges among the first `n` nodes, each pair as one number.
pub open spec fn edge_codes(es: Edges, n: int) -> Set<int> {
    Set::new(|e: int| 0 <= e < n * n && es.contains((e / n, e % n)))
}

/// The number of edges that are left among the first `n` nodes, each
/// counted once for each direction.
pub open spec fn edges_left(es: Edges, n: int) -> nat {
    edge_codes(es, n).len()
}

/// Edges that have lost a pair, and gained none, are fewer.
pub proof fn lemma_fewer_edges(before: Edges, after: Edges, n: int, i: int, j: int)
    requires
        after.subset_of(before),
        0 <= i < n,
        0 <= j < n,
        before.contains((i, j)),
        !after.contains((i, j)),
    ensures
        edges_left(after, n) < edges_left(before, n),
{
    assert(0 <= n * n) by (nonlinear_arith)
        requires
            0 <= n,
    ;
    vstd::set_lib::lemma_int_range(0, n * n);
    let s0 = edge_codes(before, n);
    let s1 = edge_codes(after, n);
    vstd::set_lib::lemma_len_subset(s0, vstd::set_lib::set_int_range(0, n * n));
    let e = i * n + j;
    assert(0 <= e < n * n && e / n == i && e % n == j) by {
        vstd::arithmetic::div_mod::lemma_fundamental_div_mod_converse(e, n, i, j);
        assert(i * n + j < n * n) by (nonlinear_arith)
            requires
                0 <= i < n,
                0 <= j < n,
        ;
        assert(0 <= i * n) by (nonlinear_arith)
            requires
                0 <= i,
                0 <= n,
        ;
    }
    assert(s0.contains(e));
    assert(!s1.contains(e));
    assert(s1.subset_of(s0.remove(e)));
    assert(s0.remove(e).len() + 1 == s0.len());
    vstd::set_lib::lemma_len_subset(s1, s0.remove(e));
}

/// Among edges that join nodes of the first `n`, a node has an edge if and
/// only if its degree is not zero.
pub proof fn lemma_degree(es: Edges, n: nat, i: int)
    requires
        es.subset_of(complete(n)),
    ensures
        (exists|j: int| es.contains((i, j))) <==> degree(es, i) > 0,
{
    let s = neighbourhood(es, i);
    vstd::set_lib::lemma_int_range(0, n as int);
    assert forall|j: int| s.contains(j) implies vstd::set_lib::set_int_range(0, n as int).contains(
        j,
    ) by {
        assert(complete(n).contains((i, j)));
    }
    vstd::set_lib::lemma_len_subset(s, vstd::set_lib::set_int_range(0, n as int));
    if exists|j: int| es.contains((i, j)) {
        let j = choose|j: int| es.contains((i, j));
        assert(s.contains(j));
    } else {
        assert(s =~= Set::empty());
    }
    if s.len() > 0 {
        assert(s.contains(s.choose()));
    }
}

} // verus!
