use vstd::prelude::*;
use crate::direction::{Direction, direction_at, opp, turn};
use crate::neighbor::Neighbor;
use crate::lattice::{Lattice, slots_view};
use crate::mesh::{Mesh, link, linked, present, well_formed};
use crate::ring::{
    Ring, attachable, ccw_dist, ccw_node, covered, cw_dist, cw_node, lemma_ring_renamed,
    lemma_ring_unique, ring_fits, ring_of, run_ccw, run_cw, slot_fits,
};

verus! {

/// An open position of a mesh: the node next to it from which it is named,
/// the direction in which it lies from that node, and the ring round it.
pub type Slot = (u32, Direction, [Neighbor; 6]);

/// The content of a slot.
pub open spec fn slot_view(s: Slot) -> (u32, Direction, Ring) {
    (s.0, s.1, slots_view(s.2))
}

/// The contents of a list of slots.
pub open spec fn slots_list_view(s: Seq<Slot>) -> Seq<(u32, Direction, Ring)> {
    Seq::new(s.len(), |i: int| slot_view(s[i]))
}

/// The ring has a node in every direction.
pub open spec fn full(r: Ring) -> bool {
    r[0] is Some && r[1] is Some && r[2] is Some && r[3] is Some && r[4] is Some && r[5] is Some
}

/// Of the nodes round an open position, the one after which the position is
/// named: the last of the arc in the counter-clockwise sense, or, where the
/// ring is closed, the node to the right of the position.
pub open spec fn names_position(m: Mesh, a: int, d: int) -> bool {
    let r = ring_of(m, a as u32, d);
    r[turn(opp(d), 1)] is None || (full(r) && d == 3)
}

/// The position in direction `d` of node `a` is reported as open: `a` is
/// part of the mesh, a node can be attached there without displacing
/// anything, and the position is named after `a`.
pub open spec fn reportable(m: Mesh, a: int, d: int) -> bool {
    present(m, a) && attachable(m, a, d) && names_position(m, a, d)
}

/// The open positions named after node `a` in the directions before `k`.
pub open spec fn node_slots(m: Mesh, a: int, k: int) -> Seq<(u32, Direction, Ring)>
    decreases k,
{
    if k <= 0 {
        Seq::empty()
    } else if reportable(m, a, k - 1) {
        node_slots(m, a, k - 1).push((a as u32, direction_at(k - 1), ring_of(m, a as u32, k - 1)))
    } else {
        node_slots(m, a, k - 1)
    }
}

/// The open positions named after the nodes before `a`.
pub open spec fn slots_before(m: Mesh, a: int) -> Seq<(u32, Direction, Ring)>
    decreases a,
{
    if a <= 0 {
        Seq::empty()
    } else {
        slots_before(m, a - 1) + node_slots(m, a - 1, 6)
    }
}

/// The open positions of a mesh, in order of the node they are named after
/// and then of direction.
pub open spec fn open_slots(m: Mesh) -> Seq<(u32, Direction, Ring)> {
    slots_before(m, m.len() as int)
}

/// Node `a` is part of the mesh and has a free slot.
pub open spec fn on_boundary(m: Mesh, a: int) -> bool {
    present(m, a) && !(linked(m, a, 0) && linked(m, a, 1) && linked(m, a, 2) && linked(m, a, 3)
        && linked(m, a, 4) && linked(m, a, 5))
}

/// Which nodes of a mesh lie on its boundary.
pub open spec fn boundary(m: Mesh) -> Seq<bool> {
    Seq::new(m.len(), |a: int| on_boundary(m, a))
}

/// Every open position that is listed is named after a node of the mesh, a
/// node can be attached there, and what is listed with it is its ring.
pub proof fn lemma_open_slots(m: Mesh, i: int)
    requires
        0 <= i < open_slots(m).len(),
    ensures
        0 <= open_slots(m)[i].0 < m.len(),
        reportable(m, open_slots(m)[i].0 as int, open_slots(m)[i].1.index()),
        open_slots(m)[i].2 == ring_of(m, open_slots(m)[i].0, open_slots(m)[i].1.index()),
{
    lemma_slots_before(m, m.len() as int, i);
}

/// What holds of every open position named after a node before `a`.
proof fn lemma_slots_before(m: Mesh, a: int, i: int)
    requires
        0 <= i < slots_before(m, a).len(),
        a <= m.len(),
    ensures
        0 <= slots_before(m, a)[i].0 < a,
        reportable(m, slots_before(m, a)[i].0 as int, slots_before(m, a)[i].1.index()),
        slots_before(m, a)[i].2 == ring_of(
            m,
            slots_before(m, a)[i].0,
            slots_before(m, a)[i].1.index(),
        ),
    decreases a,
{
    if a > 0 {
        let prev = slots_before(m, a - 1);
        if i < prev.len() {
            lemma_slots_before(m, a - 1, i);
        } else {
            lemma_node_slots(m, a - 1, 6, i - prev.len());
        }
    }
}

/// What holds of every open position named after node `a` in a direction before `k`.
proof fn lemma_node_slots(m: Mesh, a: int, k: int, i: int)
    requires
        0 <= i < node_slots(m, a, k).len(),
        0 <= a < m.len(),
        k <= 6,
    ensures
        node_slots(m, a, k)[i].0 == a,
        0 <= node_slots(m, a, k)[i].1.index() < k,
        reportable(m, a, node_slots(m, a, k)[i].1.index()),
        node_slots(m, a, k)[i].2 == ring_of(m, a as u32, node_slots(m, a, k)[i].1.index()),
    decreases k,
{
    if k > 0 {
        let prev = node_slots(m, a, k - 1);
        if i < prev.len() {
            lemma_node_slots(m, a, k - 1, i);
        } else {
            assert(reportable(m, a, k - 1));
            assert(direction_at(k - 1).index() == k - 1);
        }
    }
}

/// The open positions named after a node are listed in order of direction.
proof fn lemma_node_slots_sorted(m: Mesh, a: int, k: int, i: int, l: int)
    requires
        0 <= i < l < node_slots(m, a, k).len(),
        0 <= a < m.len(),
        k <= 6,
    ensures
        node_slots(m, a, k)[i].1.index() < node_slots(m, a, k)[l].1.index(),
    decreases k,
{
    if k > 0 {
        let prev = node_slots(m, a, k - 1);
        if l < prev.len() {
            lemma_node_slots_sorted(m, a, k - 1, i, l);
        } else {
            lemma_node_slots(m, a, k - 1, i);
            assert(direction_at(k - 1).index() == k - 1);
        }
    }
}

/// The open positions are listed in order of the node after which they
/// are named, and then of direction.
proof fn lemma_slots_before_sorted(m: Mesh, n: int, i: int, l: int)
    requires
        0 <= i < l < slots_before(m, n).len(),
        n <= m.len(),
    ensures
        slots_before(m, n)[i].0 < slots_before(m, n)[l].0 || (slots_before(m, n)[i].0
            == slots_before(m, n)[l].0 && slots_before(m, n)[i].1.index() < slots_before(
            m,
            n,
        )[l].1.index()),
    decreases n,
{
    if n > 0 {
        let prev = slots_before(m, n - 1);
        if l < prev.len() {
            lemma_slots_before_sorted(m, n - 1, i, l);
        } else if i < prev.len() {
            lemma_slots_before(m, n - 1, i);
            lemma_node_slots(m, n - 1, 6, l - prev.len());
        } else {
            lemma_node_slots(m, n - 1, 6, i - prev.len());
            lemma_node_slots(m, n - 1, 6, l - prev.len());
            lemma_node_slots_sorted(m, n - 1, 6, i - prev.len(), l - prev.len());
        }
    }
}

/// No open position is listed twice: two positions that are listed with
/// the same ring are one.
pub proof fn lemma_open_slots_once(m: Mesh, i: int, l: int)
    requires
        0 <= i < open_slots(m).len(),
        0 <= l < open_slots(m).len(),
        open_slots(m)[i].2 == open_slots(m)[l].2,
    ensures
        i == l,
{
    let s = open_slots(m);
    let r = s[i].2;
    lemma_open_slots(m, i);
    lemma_open_slots(m, l);
    let d1 = s[i].1.index();
    let d2 = s[l].1.index();
    assert(ring_fits(m, r, s[i].0 as int, d1));
    assert(ring_fits(m, r, s[l].0 as int, d2));
    assert(d1 == d2) by {
        reveal_with_fuel(run_cw, 6);
        reveal_with_fuel(run_ccw, 6);
        let j1 = opp(d1);
        let j2 = opp(d2);
        assert(r[0] is Some ==> covered(j1, 0, run_cw(r, j1, 0), run_ccw(r, j1, 0)));
        assert(r[1] is Some ==> covered(j1, 1, run_cw(r, j1, 0), run_ccw(r, j1, 0)));
        assert(r[2] is Some ==> covered(j1, 2, run_cw(r, j1, 0), run_ccw(r, j1, 0)));
        assert(r[3] is Some ==> covered(j1, 3, run_cw(r, j1, 0), run_ccw(r, j1, 0)));
        assert(r[4] is Some ==> covered(j1, 4, run_cw(r, j1, 0), run_ccw(r, j1, 0)));
        assert(r[5] is Some ==> covered(j1, 5, run_cw(r, j1, 0), run_ccw(r, j1, 0)));
    }
    assert(s[i].0 == s[l].0);
    if i < l {
        lemma_slots_before_sorted(m, m.len() as int, i, l);
    }
    if l < i {
        lemma_slots_before_sorted(m, m.len() as int, l, i);
    }
}

/// An open position that is named after node `a` in a direction before
/// `k` is listed for `a`, with its ring.
proof fn lemma_node_slots_hold(m: Mesh, a: int, k: int, d: int)
    requires
        0 <= d < k <= 6,
        reportable(m, a, d),
    ensures
        node_slots(m, a, k).contains((a as u32, direction_at(d), ring_of(m, a as u32, d))),
    decreases k,
{
    let s = node_slots(m, a, k);
    let prev = node_slots(m, a, k - 1);
    let e = (a as u32, direction_at(d), ring_of(m, a as u32, d));
    if d == k - 1 {
        assert(s == prev.push(e));
        assert(s[s.len() - 1] == e);
    } else {
        lemma_node_slots_hold(m, a, k - 1, d);
        let i = choose|i: int| 0 <= i < prev.len() && prev[i] == e;
        assert(s[i] == e);
    }
}

/// An open position that is named after a node before `n` is listed, with its ring.
proof fn lemma_slots_before_hold(m: Mesh, n: int, a: int, d: int)
    requires
        0 <= a < n,
        0 <= d < 6,
        reportable(m, a, d),
    ensures
        slots_before(m, n).contains((a as u32, direction_at(d), ring_of(m, a as u32, d))),
    decreases n,
{
    let s = slots_before(m, n);
    let prev = slots_before(m, n - 1);
    let row = node_slots(m, n - 1, 6);
    let e = (a as u32, direction_at(d), ring_of(m, a as u32, d));
    if a == n - 1 {
        lemma_node_slots_hold(m, a, 6, d);
        let i = choose|i: int| 0 <= i < row.len() && row[i] == e;
        assert(s[prev.len() + i] == e);
    } else {
        lemma_slots_before_hold(m, n - 1, a, d);
        let i = choose|i: int| 0 <= i < prev.len() && prev[i] == e;
        assert(s[i] == e);
    }
}

/// Every open position is listed: where a node can be attached next to a
/// node of the mesh without displacing anything, the ring round that
/// position is the ring of one of the positions listed.
pub proof fn lemma_open_slots_complete(m: Mesh, a: int, d: int)
    requires
        well_formed(m),
        present(m, a),
        attachable(m, a, d),
    ensures
        exists|i: int|
            0 <= i < open_slots(m).len() && (#[trigger] open_slots(m)[i]).2 == ring_of(
                m,
                a as u32,
                d,
            ),
{
    let r = ring_of(m, a as u32, d);
    let j0 = opp(d);
    let kb = run_ccw(r, j0, 0);
    lemma_ring_ends(r, j0);
    let j = if full(r) {
        0
    } else {
        turn(j0, kb)
    };
    assert(r[j] is Some);
    let x = r[j].unwrap();
    lemma_ring_renamed(m, r, a, d, j);
    lemma_ring_unique(m, r, x as int, opp(j));
    assert(names_position(m, x as int, opp(j)));
    assert(present(m, x as int)) by {
        if x != a {
            assert(slot_fits(m, r, j));
            assert(slot_fits(m, r, j0));
            if full(r) {
                assert(linked(m, x as int, turn(j, 4)));
            } else {
                assert(kb > 0);
                assert(turn(j, 5) == turn(j0, kb - 1));
                assert(r[turn(j0, kb - 1)] is Some);
                assert(linked(m, x as int, turn(j, 4)));
            }
        }
    }
    assert(reportable(m, x as int, opp(j)));
    lemma_slots_before_hold(m, m.len() as int, x as int, opp(j));
    let e = (x, direction_at(opp(j)), r);
    let i = choose|i: int| 0 <= i < open_slots(m).len() && open_slots(m)[i] == e;
    assert(open_slots(m)[i].2 == r);
}

/// Where the counter-clockwise run of a ring ends: at a node of the ring
/// after which no node follows, unless the ring is full.
proof fn lemma_ring_ends(r: Ring, j0: int)
    requires
        r.len() == 6,
        0 <= j0 < 6,
        r[j0] is Some,
    ensures
        0 <= turn(j0, run_ccw(r, j0, 0)) < 6,
        r[turn(j0, run_ccw(r, j0, 0))] is Some,
        !full(r) ==> r[turn(turn(j0, run_ccw(r, j0, 0)), 1)] is None,
        run_ccw(r, j0, 0) > 0 ==> r[turn(j0, run_ccw(r, j0, 0) - 1)] is Some && turn(
            turn(j0, run_ccw(r, j0, 0)),
            5,
        ) == turn(j0, run_ccw(r, j0, 0) - 1),
        0 <= run_ccw(r, j0, 0) <= 5,
{
    reveal_with_fuel(run_ccw, 6);
}

impl Lattice {
    /// The nodes met from node `a`, which lies in direction `j0` of a
    /// position, by walking round that position: clockwise if `cw` is set,
    /// counter-clockwise if not. Entry `i` is the node met after `i` steps.
    fn walk_round(&self, a: u32, j0: Direction, cw: bool) -> (w: [Neighbor; 6])
        requires
            a < self@.len(),
            a != u32::MAX,
        ensures
            forall|i: int|
                0 <= i < 6 ==> (#[trigger] w@[i])@ == (if cw {
                    cw_node(self@, a, j0.index(), i)
                } else {
                    ccw_node(self@, a, j0.index(), i)
                }),
    {
        let n = self.len();
        let e = Neighbor::empty();
        let mut w = [e, e, e, e, e, e];
        let mut first = Neighbor::empty();
        first.put(a);
        w[0] = first;
        let mut cur: Option<u32> = Some(a);
        let mut i: usize = 1;
        while i < 6
            invariant
                1 <= i <= 6,
                well_formed(self@),
                n == self@.len(),
                cur == (if cw {
                    cw_node(self@, a, j0.index(), i - 1)
                } else {
                    ccw_node(self@, a, j0.index(), i - 1)
                }),
                cur is Some ==> cur.unwrap() < n && cur.unwrap() != u32::MAX,
                forall|k: int|
                    0 <= k < i ==> (#[trigger] w@[k])@ == (if cw {
                        cw_node(self@, a, j0.index(), k)
                    } else {
                        ccw_node(self@, a, j0.index(), k)
                    }),
            decreases 6 - i,
        {
            cur = match cur {
                Some(x) => {
                    let dir = if cw {
                        j0.turned(11 - i)
                    } else {
                        j0.turned(i + 1)
                    };
                    let next = self.neighbor(x, dir);
                    assert(next == link(self@, x as int, dir.index()));
                    next
                },
                None => None,
            };
            let mut nb = Neighbor::empty();
            if let Some(y) = cur {
                nb.put(y);
            }
            w[i] = nb;
            i += 1;
        }
        w
    }

    /// The ring round the position that lies in direction `dir` of node `a`.
    pub fn ring_at(&self, a: u32, dir: Direction) -> (r: [Neighbor; 6])
        requires
            a < self@.len(),
            a != u32::MAX,
        ensures
            slots_view(r) == ring_of(self@, a, dir.index()),
    {
        let j0 = dir.opposite();
        let cw = self.walk_round(a, j0, true);
        let ccw = self.walk_round(a, j0, false);
        let e = Neighbor::empty();
        let mut r = [e, e, e, e, e, e];
        let mut j: usize = 0;
        while j < 6
            invariant
                j <= 6,
                j0.index() == opp(dir.index()),
                forall|i: int| 0 <= i < 6 ==> (#[trigger] cw@[i])@ == cw_node(self@, a, j0.index(), i),
                forall|i: int|
                    0 <= i < 6 ==> (#[trigger] ccw@[i])@ == ccw_node(self@, a, j0.index(), i),
                forall|k: int|
                    0 <= k < j ==> (#[trigger] r@[k])@ == ring_of(self@, a, dir.index())[k],
            decreases 6 - j,
        {
            let o = j0.ordinal();
            let there = if o <= j {
                j - o
            } else {
                j + 6 - o
            };
            let back = if j <= o {
                o - j
            } else {
                o + 6 - j
            };
            assert(there == ccw_dist(j0.index(), j as int));
            assert(back == cw_dist(j0.index(), j as int));
            r[j] = if ccw[there].get().is_some() {
                ccw[there]
            } else {
                cw[back]
            };
            j += 1;
        }
        assert(slots_view(r) =~= ring_of(self@, a, dir.index()));
        r
    }
}

/// Whether two slots hold the same.
fn same(a: Option<u32>, b: Option<u32>) -> (r: bool)
    ensures
        r == (a == b),
{
    match a {
        Some(x) => match b {
            Some(y) => x == y,
            None => false,
        },
        None => b.is_none(),
    }
}

/// The number of directions in a row that are taken in the ring `r`, going
/// from direction `j0` clockwise if `cw` is set, counter-clockwise if not.
fn run_len(r: &[Neighbor; 6], j0: Direction, cw: bool) -> (k: usize)
    ensures
        k == (if cw {
            run_cw(slots_view(*r), j0.index(), 0)
        } else {
            run_ccw(slots_view(*r), j0.index(), 0)
        }),
        k <= 5,
{
    let mut k: usize = 0;
    let mut going = true;
    while going && k < 5
        invariant
            k <= 5,
            cw ==> run_cw(slots_view(*r), j0.index(), k as int) == run_cw(
                slots_view(*r),
                j0.index(),
                0,
            ),
            !cw ==> run_ccw(slots_view(*r), j0.index(), k as int) == run_ccw(
                slots_view(*r),
                j0.index(),
                0,
            ),
            !going ==> (if cw {
                run_cw(slots_view(*r), j0.index(), k as int)
            } else {
                run_ccw(slots_view(*r), j0.index(), k as int)
            }) == k,
        decreases (if going { 1int } else { 0int }), 5 - k,
    {
        let at = if cw {
            j0.turned(5 - k)
        } else {
            j0.turned(k + 1)
        };
        if r[at.ordinal()].get().is_some() {
            k += 1;
        } else {
            going = false;
        }
    }
    k
}

/// No open position is named after a node that is not part of the mesh.
proof fn lemma_absent_no_slots(m: Mesh, a: int, k: int)
    requires
        !present(m, a),
    ensures
        node_slots(m, a, k) == Seq::<(u32, Direction, Ring)>::empty(),
    decreases k,
{
    if k > 0 {
        lemma_absent_no_slots(m, a, k - 1);
    }
}

impl Lattice {
    /// Whether the node that the ring `r` has in direction `j` fits there.
    fn slot_ok(&self, r: &[Neighbor; 6], j: usize) -> (b: bool)
        requires
            j < 6,
        ensures
            b == slot_fits(self@, slots_view(*r), j as int),
    {
        match r[j].get() {
            None => true,
            Some(x) => {
                proof {
                    r@[j as int].lemma_view(r@[j as int]);
                }
                if x as usize >= self.len() {
                    return false;
                }
                let dj = Direction::from_ordinal(j);
                let toward = self.neighbor(x, dj.opposite());
                let c = self.neighbor(x, dj.turned(4));
                let cc = self.neighbor(x, dj.turned(2));
                toward.is_none() && same(c, r[dj.turned(5).ordinal()].get()) && same(
                    cc,
                    r[dj.turned(1).ordinal()].get(),
                )
            },
        }
    }

    /// Whether the ring `r` describes the position in direction `dir` of
    /// node `a`, and a new node can be attached there without displacing
    /// anything.
    pub fn ring_ok(&self, r: &[Neighbor; 6], a: u32, dir: Direction) -> (b: bool)
        requires
            a < self@.len(),
        ensures
            b == ring_fits(self@, slots_view(*r), a as int, dir.index()),
    {
        let j0 = dir.opposite();
        if a == u32::MAX || !same(r[j0.ordinal()].get(), Some(a)) {
            return false;
        }
        let ka = run_len(r, j0, true);
        let kb = run_len(r, j0, false);
        let o = j0.ordinal();
        let mut j: usize = 0;
        while j < 6
            invariant
                j <= 6,
                o == j0.index(),
                j0.index() == opp(dir.index()),
                ka == run_cw(slots_view(*r), j0.index(), 0),
                kb == run_ccw(slots_view(*r), j0.index(), 0),
                forall|i: int| 0 <= i < j ==> #[trigger] slot_fits(self@, slots_view(*r), i),
                forall|i: int|
                    0 <= i < j && (#[trigger] slots_view(*r)[i]) is Some ==> covered(
                        j0.index(),
                        i,
                        ka as int,
                        kb as int,
                    ),
            decreases 6 - j,
        {
            if !self.slot_ok(r, j) {
                return false;
            }
            if r[j].get().is_some() {
                let there = if o <= j {
                    j - o
                } else {
                    j + 6 - o
                };
                let back = if j <= o {
                    o - j
                } else {
                    o + 6 - j
                };
                if !(back <= ka || there <= kb) {
                    assert(slots_view(*r)[j as int] is Some);
                    return false;
                }
            }
            j += 1;
        }
        true
    }

    /// Whether the position in direction `dir` of a node, with ring `r`, is
    /// named after that node.
    fn named_here(r: &[Neighbor; 6], dir: Direction) -> (b: bool)
        ensures
            b == (slots_view(*r)[turn(opp(dir.index()), 1)] is None || (full(slots_view(*r))
                && dir.index() == 3)),
    {
        if r[dir.opposite().turned(1).ordinal()].get().is_none() {
            return true;
        }
        dir.ordinal() == 3 && r[0].get().is_some() && r[1].get().is_some() && r[2].get().is_some()
            && r[3].get().is_some() && r[4].get().is_some() && r[5].get().is_some()
    }

    /// Lists the open positions of the mesh: every place next to a node of
    /// the mesh where a new node can be attached without displacing
    /// anything, each once, with the nodes that would become the new node's
    /// neighbours, each in the direction in which the new node would hold it.
    /// `visited` is set to the marks of the nodes that lie on the boundary.
    pub fn empty_slots(&self, visited: &mut Vec<bool>, out: &mut Vec<Slot>)
        ensures
            slots_list_view(final(out)@) == open_slots(self@),
            final(visited)@ == boundary(self@),
    {
        visited.clear();
        out.clear();
        let n = self.len();
        let mut a: usize = 0;
        assert(slots_list_view(out@) =~= slots_before(self@, 0));
        while a < n
            invariant
                a <= n,
                n == self@.len(),
                well_formed(self@),
                visited@.len() == a,
                forall|x: int| 0 <= x < a ==> #[trigger] visited@[x] == on_boundary(self@, x),
                slots_list_view(out@) == slots_before(self@, a as int),
            decreases n - a,
        {
            let mut open = false;
            let mut here = false;
            if a <= u32::MAX as usize {
                here = self.contains(a as u32);
            }
            if here {
                let id = a as u32;
                let mut k: usize = 0;
                assert(slots_list_view(out@) =~= slots_before(self@, a as int) + node_slots(
                    self@,
                    a as int,
                    0,
                ));
                while k < 6
                    invariant
                        k <= 6,
                        a < n,
                        a == id,
                        n == self@.len(),
                        present(self@, a as int),
                        well_formed(self@),
                        open == !(forall|d: int| 0 <= d < k ==> linked(self@, a as int, d)),
                        slots_list_view(out@) == slots_before(self@, a as int) + node_slots(
                            self@,
                            a as int,
                            k as int,
                        ),
                    decreases 6 - k,
                {
                    let dir = Direction::from_ordinal(k);
                    let ghost before = slots_list_view(out@);
                    let mut report = false;
                    if self.neighbor(id, dir).is_none() {
                        open = true;
                        assert(!linked(self@, a as int, k as int));
                        if id != u32::MAX {
                            let r = self.ring_at(id, dir);
                            if self.ring_ok(&r, id, dir) && Self::named_here(&r, dir) {
                                report = true;
                                out.push((id, dir, r));
                                assert(slots_list_view(out@) =~= before.push(
                                    (id, dir, slots_view(r)),
                                ));
                            }
                        }
                    } else {
                        proof {
                            let r = ring_of(self@, id, k as int);
                            assert(opp(opp(k as int)) == k);
                            assert(r[opp(k as int)] == Some(id));
                            assert(!slot_fits(self@, r, opp(k as int)));
                        }
                    }
                    assert(report == reportable(self@, a as int, k as int));
                    assert(dir == direction_at(k as int));
                    k += 1;
                }
            } else {
                proof {
                    lemma_absent_no_slots(self@, a as int, 6);
                    assert(slots_before(self@, a as int) + Seq::<(u32, Direction, Ring)>::empty()
                        =~= slots_before(self@, a as int));
                }
            }
            visited.push(open);
            a += 1;
        }
        assert(visited@ =~= boundary(self@));
    }
}

} // verus!
