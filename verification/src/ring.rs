use vstd::prelude::*;
use crate::direction::{opp, turn};
use crate::mesh::{
    Mesh, link, well_formed, symmetric, no_self_loops, present, linked, joined, walked,
    inserted, evicted, adjacent, triangulated, valid,
};

verus! {

/// The nodes round an open position of the mesh: for each of the six
/// directions as seen from the position, the node that lies there, if any.
pub type Ring = Seq<Option<u32>>;

/// The node reached from node `a`, which lies in direction `j0` of an open
/// position, by `i` steps clockwise round that position.
pub open spec fn cw_node(m: Mesh, a: u32, j0: int, i: int) -> Option<u32>
    decreases i,
{
    if i <= 0 {
        Some(a)
    } else {
        match cw_node(m, a, j0, i - 1) {
            Some(x) => link(m, x as int, turn(j0, 11 - i)),
            None => None,
        }
    }
}

/// The node reached from node `a`, which lies in direction `j0` of an open
/// position, by `i` steps counter-clockwise round that position.
pub open spec fn ccw_node(m: Mesh, a: u32, j0: int, i: int) -> Option<u32>
    decreases i,
{
    if i <= 0 {
        Some(a)
    } else {
        match ccw_node(m, a, j0, i - 1) {
            Some(x) => link(m, x as int, turn(j0, i + 1)),
            None => None,
        }
    }
}

/// The number of clockwise steps from direction `j0` to direction `j`.
pub open spec fn cw_dist(j0: int, j: int) -> int {
    if j <= j0 {
        j0 - j
    } else {
        j0 - j + 6
    }
}

/// The number of counter-clockwise steps from direction `j0` to direction `j`.
pub open spec fn ccw_dist(j0: int, j: int) -> int {
    if j0 <= j {
        j - j0
    } else {
        j - j0 + 6
    }
}

/// The ring round the position that lies in direction `d` of node `a`: `a`
/// itself, and every node reached from it by walking round the position in
/// either sense while there is a link to follow.
pub open spec fn ring_of(m: Mesh, a: u32, d: int) -> Ring {
    Seq::new(
        6,
        |j: int|
            if ccw_node(m, a, opp(d), ccw_dist(opp(d), j)) is Some {
                ccw_node(m, a, opp(d), ccw_dist(opp(d), j))
            } else {
                cw_node(m, a, opp(d), cw_dist(opp(d), j))
            },
    )
}

/// The node in direction `j` of the ring has its slot towards the position
/// free, and what it holds towards the two directions next to `j` is what
/// the ring has there.
pub open spec fn slot_fits(m: Mesh, r: Ring, j: int) -> bool {
    match r[j] {
        Some(x) => {
            &&& x < m.len()
            &&& x != u32::MAX
            &&& link(m, x as int, opp(j)) is None
            &&& link(m, x as int, turn(j, 4)) == r[turn(j, 5)]
            &&& link(m, x as int, turn(j, 2)) == r[turn(j, 1)]
        },
        None => true,
    }
}

/// With the first `k` directions clockwise of `j0` known to be taken, the
/// number of directions in a row, clockwise of `j0`, that are taken.
pub open spec fn run_cw(r: Ring, j0: int, k: int) -> int
    decreases 5 - k,
{
    if k >= 5 {
        5
    } else if r[turn(j0, 5 - k)] is Some {
        run_cw(r, j0, k + 1)
    } else {
        k
    }
}

/// With the first `k` directions counter-clockwise of `j0` known to be taken,
/// the number of directions in a row, counter-clockwise of `j0`, that are
/// taken.
pub open spec fn run_ccw(r: Ring, j0: int, k: int) -> int
    decreases 5 - k,
{
    if k >= 5 {
        5
    } else if r[turn(j0, k + 1)] is Some {
        run_ccw(r, j0, k + 1)
    } else {
        k
    }
}

/// Direction `j` lies within `ka` steps clockwise or `kb` steps
/// counter-clockwise of direction `j0`.
pub open spec fn covered(j0: int, j: int, ka: int, kb: int) -> bool {
    cw_dist(j0, j) <= ka || ccw_dist(j0, j) <= kb
}

/// The ring `r` describes the position in direction `d` of node `a`, and a
/// new node can be attached there without displacing anything: `a` lies
/// opposite `d`, the nodes of the ring form one arc that contains `a`, each
/// has its slot towards the position free, and neighbours in the ring are
/// exactly the nodes that are linked round the position.
pub open spec fn ring_fits(m: Mesh, r: Ring, a: int, d: int) -> bool {
    &&& r.len() == 6
    &&& 0 <= a < m.len()
    &&& a < u32::MAX
    &&& 0 <= d < 6
    &&& r[opp(d)] == Some(a as u32)
    &&& forall|j: int| 0 <= j < 6 ==> #[trigger] slot_fits(m, r, j)
    &&& forall|j: int|
        0 <= j < 6 && (#[trigger] r[j]) is Some ==> covered(
            opp(d),
            j,
            run_cw(r, opp(d), 0),
            run_ccw(r, opp(d), 0),
        )
}

/// A new node can be attached in direction `d` of node `a` without
/// displacing anything.
pub open spec fn attachable(m: Mesh, a: int, d: int) -> bool {
    ring_fits(m, ring_of(m, a as u32, d), a, d)
}

/// The mesh `m` with node `id` linked to the nodes of the ring `r` that lie
/// within `ka` steps clockwise or `kb` steps counter-clockwise of direction
/// `j0`, each in the direction in which the ring has it.
pub open spec fn attached_within(m: Mesh, r: Ring, id: u32, j0: int, ka: int, kb: int) -> Mesh {
    Seq::new(
        m.len(),
        |x: int|
            Seq::new(
                6,
                |e: int|
                    if x == id {
                        if covered(j0, e, ka, kb) && r[e] is Some {
                            r[e]
                        } else {
                            link(m, x, e)
                        }
                    } else if x <= u32::MAX && covered(j0, opp(e), ka, kb) && r[opp(e)] == Some(
                        x as u32,
                    ) {
                        Some(id)
                    } else {
                        link(m, x, e)
                    },
            ),
    )
}

/// The mesh `m` with node `id` linked to every node of the ring `r`, in the
/// direction in which the ring has it.
pub open spec fn attached(m: Mesh, r: Ring, id: u32) -> Mesh {
    Seq::new(
        m.len(),
        |x: int|
            Seq::new(
                6,
                |e: int|
                    if x == id {
                        if r[e] is Some {
                            r[e]
                        } else {
                            link(m, x, e)
                        }
                    } else if x <= u32::MAX && r[opp(e)] == Some(x as u32) {
                        Some(id)
                    } else {
                        link(m, x, e)
                    },
            ),
    )
}

/// The conditions under which a node is attached to a ring: the mesh is
/// well formed and symmetric and has no loops, and the node is a node of the
/// mesh other than `a` that is not yet part of it.
pub open spec fn attaches(m: Mesh, r: Ring, a: int, d: int, id: u32) -> bool {
    &&& well_formed(m)
    &&& symmetric(m)
    &&& no_self_loops(m)
    &&& ring_fits(m, r, a, d)
    &&& id < m.len()
    &&& id != u32::MAX
    &&& id != a
    &&& !present(m, id as int)
}

/// In a symmetric mesh no node holds a node that is not part of the mesh.
pub proof fn lemma_absent_not_held(m: Mesh, id: u32)
    requires
        well_formed(m),
        symmetric(m),
        id < m.len(),
        !present(m, id as int),
    ensures
        forall|x: int, e: int|
            0 <= x < m.len() && 0 <= e < 6 ==> #[trigger] link(m, x, e) != Some(id),
{
    assert forall|x: int, e: int| 0 <= x < m.len() && 0 <= e < 6 implies #[trigger] link(m, x, e)
        != Some(id) by {
        if link(m, x, e) == Some(id) {
            assert(link(m, id as int, opp(e)) == Some(x as u32));
            assert(linked(m, id as int, opp(e)));
        }
    }
}

/// Two directions of a ring that lie next to each other hold different nodes.
proof fn lemma_ring_steps(m: Mesh, r: Ring, a: int, d: int, j: int)
    requires
        well_formed(m),
        no_self_loops(m),
        ring_fits(m, r, a, d),
        0 <= j < 6,
        r[j] is Some,
    ensures
        r[turn(j, 1)] != r[j],
        r[turn(j, 5)] != r[j],
{
    assert(slot_fits(m, r, j));
    let x = r[j].unwrap();
    assert(link(m, x as int, turn(j, 2)) != Some(x));
    assert(link(m, x as int, turn(j, 4)) != Some(x));
}

/// Every direction within the clockwise run of a ring is taken.
proof fn lemma_run_cw(r: Ring, j0: int, k: int, i: int)
    requires
        0 <= k <= 5,
        0 <= j0 < 6,
    ensures
        k <= run_cw(r, j0, k) <= 5,
        k < i <= run_cw(r, j0, k) ==> r[turn(j0, 6 - i)] is Some,
        run_cw(r, j0, k) < 5 ==> r[turn(j0, 5 - run_cw(r, j0, k))] is None,
    decreases 5 - k,
{
    if k < 5 && r[turn(j0, 5 - k)] is Some {
        lemma_run_cw(r, j0, k + 1, i);
    }
}

/// Every direction within the counter-clockwise run of a ring is taken.
proof fn lemma_run_ccw(r: Ring, j0: int, k: int, i: int)
    requires
        0 <= k <= 5,
        0 <= j0 < 6,
    ensures
        k <= run_ccw(r, j0, k) <= 5,
        k < i <= run_ccw(r, j0, k) ==> r[turn(j0, i)] is Some,
        run_ccw(r, j0, k) < 5 ==> r[turn(j0, run_ccw(r, j0, k) + 1)] is None,
    decreases 5 - k,
{
    if k < 5 && r[turn(j0, k + 1)] is Some {
        lemma_run_ccw(r, j0, k + 1, i);
    }
}

/// A node that is not part of the mesh is none of the nodes of a ring that
/// fits, unless it is the node after which the position is named.
pub proof fn lemma_ring_excludes(m: Mesh, r: Ring, a: int, d: int, id: u32)
    requires
        attaches(m, r, a, d, id),
    ensures
        forall|j: int| 0 <= j < 6 ==> #[trigger] r[j] != Some(id),
{
    let j0 = opp(d);
    let ka = run_cw(r, j0, 0);
    let kb = run_ccw(r, j0, 0);
    assert forall|j: int| 0 <= j < 6 implies #[trigger] r[j] != Some(id) by {
        if r[j] == Some(id) {
            assert(slot_fits(m, r, j));
            assert(!linked(m, id as int, turn(j, 4)));
            assert(!linked(m, id as int, turn(j, 2)));
            assert(r[turn(j, 5)] is None);
            assert(r[turn(j, 1)] is None);
            assert(covered(j0, j, ka, kb));
            if cw_dist(j0, j) <= ka {
                let i = cw_dist(j0, j) - 1;
                lemma_run_cw(r, j0, 0, i);
                assert(turn(j, 1) == (if i == 0 {
                    j0
                } else {
                    turn(j0, 6 - i)
                }));
            } else {
                let i = ccw_dist(j0, j) - 1;
                lemma_run_ccw(r, j0, 0, i);
                assert(turn(j, 5) == (if i == 0 {
                    j0
                } else {
                    turn(j0, i)
                }));
            }
        }
    }
}

/// How the directions that a walk round a position meets lie to each other.
proof fn lemma_round(j0: int, k: int)
    requires
        0 <= j0 < 6,
        0 <= k <= 5,
    ensures
        0 <= turn(j0, 6 - k) < 6,
        0 <= turn(j0, 5 - k) < 6,
        0 <= turn(j0, k) < 6,
        0 <= turn(j0, k + 1) < 6,
        turn(j0, 10 - k) == turn(turn(j0, 6 - k), 4),
        turn(j0, 5 - k) == turn(turn(j0, 6 - k), 5),
        opp(turn(j0, 10 - k)) == turn(turn(j0, 6 - k), 1),
        turn(opp(turn(j0, 10 - k)), 1) == opp(turn(j0, 5 - k)),
        opp(opp(turn(j0, 5 - k))) == turn(j0, 5 - k),
        turn(opp(turn(j0, 5 - k)), 1) == turn(j0, 9 - k),
        turn(j0, k + 2) == turn(turn(j0, k), 2),
        turn(j0, k + 1) == turn(turn(j0, k), 1),
        opp(turn(j0, k + 2)) == turn(turn(j0, k), 5),
        turn(opp(turn(j0, k + 2)), 5) == opp(turn(j0, k + 1)),
        opp(opp(turn(j0, k + 1))) == turn(j0, k + 1),
        turn(opp(turn(j0, k + 1)), 5) == turn(j0, k + 3),
        cw_dist(j0, turn(j0, 6 - k)) == k,
        ccw_dist(j0, turn(j0, k)) == k,
        k == 5 ==> turn(j0, 5 - k) == j0 && turn(j0, k + 1) == j0,
        opp(opp(j0)) == j0,
        turn(j0, 6) == j0,
        turn(j0, 0) == j0,
{
}

/// Which directions are within `k + 1` clockwise steps of `j0`, but not within `k`.
proof fn lemma_covered_cw(j0: int, e: int, k: int, kb: int)
    requires
        0 <= j0 < 6,
        0 <= e < 6,
        0 <= k < 5,
    ensures
        covered(j0, e, k + 1, kb) == (covered(j0, e, k, kb) || e == turn(j0, 5 - k)),
        covered(j0, opp(e), k + 1, kb) == (covered(j0, opp(e), k, kb) || e == opp(
            turn(j0, 5 - k),
        )),
        0 <= opp(e) < 6,
{
}

/// Which directions are within `k + 1` counter-clockwise steps of `j0`, but not within `k`.
proof fn lemma_covered_ccw(j0: int, e: int, ka: int, k: int)
    requires
        0 <= j0 < 6,
        0 <= e < 6,
        0 <= k < 5,
    ensures
        covered(j0, e, ka, k + 1) == (covered(j0, e, ka, k) || e == turn(j0, k + 1)),
        covered(j0, opp(e), ka, k + 1) == (covered(j0, opp(e), ka, k) || e == opp(
            turn(j0, k + 1),
        )),
        0 <= opp(e) < 6,
{
}

/// Linking the new node with the node that the ring has in direction `ns`
/// extends what was attached by that direction.
proof fn lemma_attach_one(
    m: Mesh,
    r: Ring,
    id: u32,
    j0: int,
    ka: int,
    kb: int,
    ka2: int,
    kb2: int,
    ns: int,
    y: u32,
)
    requires
        well_formed(m),
        r.len() == 6,
        0 <= j0 < 6,
        0 <= ns < 6,
        r[ns] == Some(y),
        y < m.len(),
        y != u32::MAX,
        y != id,
        id < m.len(),
        id != u32::MAX,
        forall|e: int|
            0 <= e < 6 ==> #[trigger] covered(j0, e, ka2, kb2) == (covered(j0, e, ka, kb) || e
                == ns),
    ensures
        joined(attached_within(m, r, id, j0, ka, kb), y, opp(ns), id) == attached_within(
            m,
            r,
            id,
            j0,
            ka2,
            kb2,
        ),
{
    let cur = attached_within(m, r, id, j0, ka, kb);
    let next = joined(cur, y, opp(ns), id);
    let grown = attached_within(m, r, id, j0, ka2, kb2);
    lemma_turns6(ns);
    assert forall|z: int, e: int| 0 <= z < m.len() && 0 <= e < 6 implies next[z][e] == grown[z][e] by {
        lemma_turns6(e);
        assert(covered(j0, e, ka2, kb2) == (covered(j0, e, ka, kb) || e == ns));
        assert(covered(j0, opp(e), ka2, kb2) == (covered(j0, opp(e), ka, kb) || opp(e) == ns));
    }
    assert(next =~~= grown);
}

/// The opposite of a direction is a direction, and its opposite is the direction itself.
proof fn lemma_turns6(e: int)
    requires
        0 <= e < 6,
    ensures
        0 <= opp(e) < 6,
        opp(opp(e)) == e,
        opp(e) != e,
{
}

/// The clockwise walk of an insertion, after `k` steps: it goes on to link
/// the new node with the clockwise run of the ring, and with nothing else.
proof fn lemma_walk_cw(m: Mesh, r: Ring, a: int, d: int, id: u32, k: int)
    requires
        attaches(m, r, a, d, id),
        0 <= k <= 5,
        run_cw(r, opp(d), k) == run_cw(r, opp(d), 0),
        r[turn(opp(d), 6 - k)] is Some,
    ensures
        walked(
            attached_within(m, r, id, opp(d), k, 0),
            r[turn(opp(d), 6 - k)].unwrap() as int,
            turn(opp(d), 10 - k),
            id,
            1,
            (6 - k) as nat,
        ) == attached_within(m, r, id, opp(d), run_cw(r, opp(d), 0), 0),
    decreases 5 - k,
{
    let j0 = opp(d);
    let s = turn(j0, 6 - k);
    let x = r[s].unwrap();
    let cur = attached_within(m, r, id, j0, k, 0);
    let dir = turn(j0, 10 - k);
    let ns = turn(j0, 5 - k);
    lemma_turns6(d);
    lemma_round(j0, k);
    lemma_ring_excludes(m, r, a, d, id);
    assert(slot_fits(m, r, s));
    assert(r[s] != Some(id));
    lemma_ring_steps(m, r, a, d, s);
    assert(link(cur, x as int, dir) == link(m, x as int, dir)) by {
        lemma_turns6(dir);
    }
    assert(link(m, x as int, dir) == r[ns]);
    match r[ns] {
        Some(y) => {
            assert(slot_fits(m, r, ns));
            assert(r[ns] != Some(id));
            let back = opp(ns);
            let next = joined(cur, y, back, id);
            assert(walked(cur, x as int, dir, id, 1, (6 - k) as nat) == walked(
                next,
                y as int,
                turn(j0, 9 - k),
                id,
                1,
                (5 - k) as nat,
            ));
            if k < 5 {
                assert(run_cw(r, j0, k + 1) == run_cw(r, j0, k));
                assert forall|e: int| 0 <= e < 6 implies #[trigger] covered(j0, e, k + 1, 0) == (
                covered(j0, e, k, 0) || e == ns) by {
                    lemma_covered_cw(j0, e, k, 0);
                }
                lemma_attach_one(m, r, id, j0, k, 0, k + 1, 0, ns, y);
                lemma_round(j0, k + 1);
                lemma_walk_cw(m, r, a, d, id, k + 1);
            } else {
                assert(next =~~= cur) by {
                    assert(cur[y as int][back] == Some(id));
                    assert(cur[id as int][ns] == Some(y));
                }
                assert(walked(next, y as int, turn(j0, 9 - k), id, 1, 0) == next);
            }
        },
        None => {
            assert(run_cw(r, j0, k) == k);
            assert(walked(cur, x as int, dir, id, 1, (6 - k) as nat) == cur);
        },
    }
}

/// The counter-clockwise walk of an insertion, after `k` steps: it goes on
/// to link the new node with the counter-clockwise run of the ring, and with
/// nothing else.
proof fn lemma_walk_ccw(m: Mesh, r: Ring, a: int, d: int, id: u32, k: int)
    requires
        attaches(m, r, a, d, id),
        0 <= k <= 5,
        run_ccw(r, opp(d), k) == run_ccw(r, opp(d), 0),
        r[turn(opp(d), k)] is Some,
    ensures
        walked(
            attached_within(m, r, id, opp(d), run_cw(r, opp(d), 0), k),
            r[turn(opp(d), k)].unwrap() as int,
            turn(opp(d), k + 2),
            id,
            5,
            (6 - k) as nat,
        ) == attached_within(m, r, id, opp(d), run_cw(r, opp(d), 0), run_ccw(r, opp(d), 0)),
    decreases 5 - k,
{
    let j0 = opp(d);
    let ka = run_cw(r, j0, 0);
    let s = turn(j0, k);
    let x = r[s].unwrap();
    let cur = attached_within(m, r, id, j0, ka, k);
    let dir = turn(j0, k + 2);
    let ns = turn(j0, k + 1);
    lemma_turns6(d);
    lemma_round(j0, k);
    lemma_ring_excludes(m, r, a, d, id);
    assert(slot_fits(m, r, s));
    assert(r[s] != Some(id));
    lemma_ring_steps(m, r, a, d, s);
    assert(link(cur, x as int, dir) == link(m, x as int, dir)) by {
        lemma_turns6(dir);
    }
    assert(link(m, x as int, dir) == r[ns]);
    match r[ns] {
        Some(y) => {
            assert(slot_fits(m, r, ns));
            assert(r[ns] != Some(id));
            let back = opp(ns);
            let next = joined(cur, y, back, id);
            assert(walked(cur, x as int, dir, id, 5, (6 - k) as nat) == walked(
                next,
                y as int,
                turn(j0, k + 3),
                id,
                5,
                (5 - k) as nat,
            ));
            if k < 5 {
                assert(run_ccw(r, j0, k + 1) == run_ccw(r, j0, k));
                assert forall|e: int| 0 <= e < 6 implies #[trigger] covered(j0, e, ka, k + 1) == (
                covered(j0, e, ka, k) || e == ns) by {
                    lemma_covered_ccw(j0, e, ka, k);
                }
                lemma_attach_one(m, r, id, j0, ka, k, ka, k + 1, ns, y);
                lemma_round(j0, k + 1);
                lemma_walk_ccw(m, r, a, d, id, k + 1);
            } else {
                assert(next =~~= cur) by {
                    assert(cur[y as int][back] == Some(id));
                    assert(cur[id as int][ns] == Some(y));
                }
                assert(walked(next, y as int, turn(j0, k + 3), id, 5, 0) == next);
            }
        },
        None => {
            assert(run_ccw(r, j0, k) == k);
            assert(walked(cur, x as int, dir, id, 5, (6 - k) as nat) == cur);
        },
    }
}

/// Where a node that is not yet part of the mesh is inserted at a position
/// whose ring fits, the insertion displaces nothing: it links the node with
/// every node of the ring, each in the direction in which the ring has it,
/// and changes nothing else.
pub proof fn lemma_insert_attaches(m: Mesh, r: Ring, a: int, d: int, id: u32)
    requires
        attaches(m, r, a, d, id),
    ensures
        inserted(m, a as u32, d, id) == attached(m, r, id),
{
    let j0 = opp(d);
    let ka = run_cw(r, j0, 0);
    let kb = run_ccw(r, j0, 0);
    lemma_turns6(d);
    lemma_round(j0, 0);
    assert(slot_fits(m, r, j0));
    assert(link(m, a, d) is None);
    assert(evicted(m, a, d) == m);
    assert(!linked(m, id as int, j0));
    assert(evicted(m, id as int, j0) == m);
    let none = attached_within(m, r, id, j0, -1, -1);
    assert(none =~~= m);
    assert forall|e: int| 0 <= e < 6 implies #[trigger] covered(j0, e, 0, 0) == (covered(
        j0,
        e,
        -1,
        -1,
    ) || e == j0) by {}
    lemma_attach_one(m, r, id, j0, -1, -1, 0, 0, j0, a as u32);
    let m3 = joined(m, a as u32, d, id);
    assert(m3 == attached_within(m, r, id, j0, 0, 0));
    lemma_walk_cw(m, r, a, d, id, 0);
    assert(turn(j0, 10) == turn(d, 1));
    let m4 = walked(m3, a, turn(d, 1), id, 1, 6);
    assert(m4 == attached_within(m, r, id, j0, ka, 0));
    lemma_walk_ccw(m, r, a, d, id, 0);
    assert(turn(j0, 2) == turn(d, 5));
    let m5 = walked(m4, a, turn(d, 5), id, 5, 6);
    assert(m5 == attached_within(m, r, id, j0, ka, kb));
    assert forall|x: int, e: int| 0 <= x < m.len() && 0 <= e < 6 implies m5[x][e] == attached(
        m,
        r,
        id,
    )[x][e] by {
        lemma_turns6(e);
        if r[e] is Some {
            assert(covered(j0, e, ka, kb));
        }
        if r[opp(e)] is Some {
            assert(covered(j0, opp(e), ka, kb));
        }
    }
    assert(m5 =~~= attached(m, r, id));
}

/// Node `y` is one of the nodes of the ring `r`.
pub open spec fn in_ring(r: Ring, y: int) -> bool {
    exists|j: int| 0 <= j < 6 && #[trigger] r[j] == Some(y as u32) && 0 <= y <= u32::MAX
}

/// Attaching a node to a ring that fits keeps the mesh well formed and
/// symmetric and without loops. The new node holds the ring, every node of
/// the ring holds the new node, and no other link appears or disappears.
pub proof fn lemma_attached(m: Mesh, r: Ring, a: int, d: int, id: u32)
    requires
        attaches(m, r, a, d, id),
    ensures
        attached(m, r, id).len() == m.len(),
        well_formed(attached(m, r, id)),
        symmetric(attached(m, r, id)),
        no_self_loops(attached(m, r, id)),
        attached(m, r, id)[id as int] == r,
        present(attached(m, r, id), id as int),
        forall|x: int|
            0 <= x < m.len() && x != id && present(m, x) ==> present(attached(m, r, id), x),
        forall|x: int, y: int|
            0 <= x < m.len() && 0 <= y < m.len() ==> (#[trigger] adjacent(
                attached(m, r, id),
                x,
                y,
            ) <==> adjacent(m, x, y) || (x == id && in_ring(r, y)) || (y == id && in_ring(r, x))),
{
    let n = attached(m, r, id);
    lemma_absent_not_held(m, id);
    lemma_ring_excludes(m, r, a, d, id);
    lemma_turns6(d);
    assert(n[id as int] =~= r) by {
        assert forall|e: int| 0 <= e < 6 implies n[id as int][e] == r[e] by {
            assert(!linked(m, id as int, e));
        }
    }
    assert(linked(n, id as int, opp(d)));
    assert forall|x: int, e: int| 0 <= x < n.len() && 0 <= e < 6 implies (match #[trigger] link(
        n,
        x,
        e,
    ) {
        Some(b) => b < n.len() && b != u32::MAX && x <= u32::MAX,
        None => true,
    }) && link(n, x, e) != Some(x as u32) && (link(n, x, e) is Some ==> link(
        n,
        link(n, x, e).unwrap() as int,
        opp(e),
    ) == Some(x as u32)) by {
        lemma_turns6(e);
        assert(slot_fits(m, r, e));
        assert(slot_fits(m, r, opp(e)));
        assert(r[e] != Some(id));
        assert(r[opp(e)] != Some(id));
        if x == id {
            assert(!linked(m, id as int, e));
        } else if x <= u32::MAX && r[opp(e)] == Some(x as u32) {
        } else {
            assert(link(n, x, e) == link(m, x, e));
            if link(m, x, e) is Some {
                let b = link(m, x, e).unwrap();
                assert(link(m, b as int, opp(e)) == Some(x as u32));
                assert(b != id);
                assert(r[e] != Some(b));
            }
        }
    }
    assert forall|x: int| 0 <= x < m.len() && x != id && present(m, x) implies present(n, x) by {
        assert forall|e: int| 0 <= e < 6 && linked(m, x, e) implies linked(n, x, e) by {
            lemma_turns6(e);
        }
    }
    assert forall|x: int, y: int| 0 <= x < m.len() && 0 <= y < m.len() implies (#[trigger] adjacent(
        n,
        x,
        y,
    ) <==> adjacent(m, x, y) || (x == id && in_ring(r, y)) || (y == id && in_ring(r, x))) by {
        if adjacent(n, x, y) {
            let e = choose|e: int|
                0 <= e < 6 && #[trigger] link(n, x, e) == Some(y as u32) && 0 <= y <= u32::MAX;
            lemma_turns6(e);
            if x == id {
                assert(r[e] == Some(y as u32));
            } else if x <= u32::MAX && r[opp(e)] == Some(x as u32) {
                assert(y == id);
            } else {
                assert(link(m, x, e) == Some(y as u32));
            }
        }
        if adjacent(m, x, y) {
            let e = choose|e: int|
                0 <= e < 6 && #[trigger] link(m, x, e) == Some(y as u32) && 0 <= y <= u32::MAX;
            lemma_turns6(e);
            assert(linked(m, x, e));
            assert(x != id);
            assert(slot_fits(m, r, opp(e)));
            assert(link(n, x, e) == Some(y as u32));
        }
        if x == id && in_ring(r, y) {
            let j = choose|j: int|
                0 <= j < 6 && #[trigger] r[j] == Some(y as u32) && 0 <= y <= u32::MAX;
            assert(link(n, x, j) == Some(y as u32));
        }
        if y == id && in_ring(r, x) {
            let j = choose|j: int|
                0 <= j < 6 && #[trigger] r[j] == Some(x as u32) && 0 <= x <= u32::MAX;
            lemma_turns6(j);
            assert(link(n, x, opp(j)) == Some(id));
        }
    }
}

/// What a slot of the mesh holds after a node was attached to a ring.
proof fn lemma_attached_cell(m: Mesh, r: Ring, a: int, d: int, id: u32, x: int, e: int)
    requires
        attaches(m, r, a, d, id),
        0 <= x < m.len(),
        0 <= e < 6,
    ensures
        0 <= opp(e) < 6,
        opp(opp(e)) == e,
        link(attached(m, r, id), x, e) == (if x == id {
            r[e]
        } else if x <= u32::MAX && r[opp(e)] == Some(x as u32) {
            Some(id)
        } else {
            link(m, x, e)
        }),
        link(m, x, e) != Some(id),
        r[e] != Some(id),
        x != id ==> !(x <= u32::MAX && r[opp(e)] == Some(x as u32)) ==> link(
            attached(m, r, id),
            x,
            e,
        ) != Some(id),
        match link(attached(m, r, id), x, e) {
            Some(y) => y < m.len(),
            None => true,
        },
{
    lemma_absent_not_held(m, id);
    lemma_ring_excludes(m, r, a, d, id);
    lemma_turns6(e);
    assert(!linked(m, id as int, e));
    assert(slot_fits(m, r, e));
}

/// No corner is left open at node `x` between the directions `e` and the
/// next of a mesh to which a node was attached, if none was before.
proof fn lemma_attached_corner(m: Mesh, r: Ring, a0: int, d0: int, id: u32, x: int, e: int)
    requires
        attaches(m, r, a0, d0, id),
        triangulated(m),
        0 <= x < m.len(),
        0 <= e < 6,
        linked(attached(m, r, id), x, e),
        linked(attached(m, r, id), x, turn(e, 1)),
    ensures
        link(attached(m, r, id), link(attached(m, r, id), x, e).unwrap() as int, turn(e, 2))
            == link(attached(m, r, id), x, turn(e, 1)),
{
    let n = attached(m, r, id);
    let e1 = turn(e, 1);
    let e2 = turn(e, 2);
    let b = link(n, x, e).unwrap() as int;
    let c = link(n, x, e1).unwrap() as int;
    lemma_attached_cell(m, r, a0, d0, id, x, e);
    lemma_attached_cell(m, r, a0, d0, id, x, e1);
    lemma_attached_cell(m, r, a0, d0, id, b, e2);
    if x == id {
        assert(slot_fits(m, r, e));
        lemma_ring_steps(m, r, a0, d0, e);
        assert(opp(e2) == turn(e, 5));
    } else if b == id {
        let s = opp(e);
        assert(r[s] == Some(x as u32));
        assert(slot_fits(m, r, s));
        lemma_ring_steps(m, r, a0, d0, s);
        assert(opp(e1) == turn(s, 1));
        assert(e1 == turn(s, 4));
        assert(e2 == turn(s, 5));
    } else if c == id {
        let s = opp(e1);
        assert(r[s] == Some(x as u32));
        assert(slot_fits(m, r, s));
        lemma_ring_steps(m, r, a0, d0, s);
        assert(opp(e) == turn(s, 5));
        assert(e == turn(s, 2));
        assert(opp(e2) == turn(s, 1));
    } else {
        assert(link(m, x, e) == Some(b as u32));
        assert(link(m, x, e1) == Some(c as u32));
        assert(linked(m, x, e));
        assert(link(m, b, e2) == Some(c as u32));
        assert(slot_fits(m, r, opp(e2)));
    }
}

/// Attaching a node to a ring that fits keeps the invariants of the mesh.
pub proof fn lemma_attached_valid(m: Mesh, r: Ring, a: int, d: int, id: u32)
    requires
        valid(m),
        attaches(m, r, a, d, id),
    ensures
        valid(attached(m, r, id)),
{
    lemma_attached(m, r, a, d, id);
    let n = attached(m, r, id);
    assert forall|x: int, e: int|
        0 <= x < n.len() && 0 <= e < 6 && #[trigger] linked(n, x, e) && linked(
            n,
            x,
            turn(e, 1),
        ) implies link(n, link(n, x, e).unwrap() as int, turn(e, 2)) == link(n, x, turn(e, 1)) by {
        lemma_attached_corner(m, r, a, d, id, x, e);
    }
}

/// Inserting a node keeps the invariants of the mesh, where the node is not
/// part of the mesh once what the insertion pushes out is taken away, and
/// the ring round the place fits what is left.
pub proof fn lemma_insert_keeps_valid(m: Mesh, r: Ring, anchor: u32, d: int, id: u32)
    requires
        valid(m),
        anchor < m.len(),
        id < m.len(),
        0 <= d < 6,
        attaches(evicted(evicted(m, anchor as int, d), id as int, opp(d)), r, anchor as int, d, id),
    ensures
        valid(inserted(m, anchor, d, id)),
        inserted(m, anchor, d, id) == attached(
            evicted(evicted(m, anchor as int, d), id as int, opp(d)),
            r,
            id,
        ),
{
    let m1 = evicted(m, anchor as int, d);
    assert(valid(m1)) by {
        match link(m, anchor as int, d) {
            Some(x) => {
                crate::laws::lemma_remove_keeps_valid(m, x);
            },
            None => {},
        }
    }
    let m2 = evicted(m1, id as int, opp(d));
    lemma_turns6(d);
    assert(valid(m2)) by {
        match link(m1, id as int, opp(d)) {
            Some(y) => {
                crate::laws::lemma_remove_keeps_valid(m1, y);
            },
            None => {},
        }
    }
    assert(slot_fits(m2, r, opp(d)));
    assert(link(m2, anchor as int, d) is None);
    assert(!linked(m2, id as int, opp(d)));
    assert(evicted(m2, anchor as int, d) == m2);
    assert(evicted(m2, id as int, opp(d)) == m2);
    assert(inserted(m, anchor, d, id) == inserted(m2, anchor, d, id));
    lemma_insert_attaches(m2, r, anchor as int, d, id);
    lemma_attached_valid(m2, r, anchor as int, d, id);
}

/// The nodes met by walking clockwise round a position from the node
/// after which it is named are the nodes that a ring that fits has there.
proof fn lemma_cw_nodes(m: Mesh, r: Ring, a: int, d: int, i: int)
    requires
        ring_fits(m, r, a, d),
        0 <= i <= 5,
    ensures
        cw_node(m, a as u32, opp(d), i) == (if i <= run_cw(r, opp(d), 0) {
            r[turn(opp(d), 6 - i)]
        } else {
            None
        }),
        i <= run_cw(r, opp(d), 0) ==> r[turn(opp(d), 6 - i)] is Some,
    decreases i,
{
    let j0 = opp(d);
    let ka = run_cw(r, j0, 0);
    lemma_turns6(d);
    lemma_round(j0, i);
    lemma_run_cw(r, j0, 0, i);
    if i > 0 {
        lemma_cw_nodes(m, r, a, d, i - 1);
        lemma_round(j0, i - 1);
        if i - 1 <= ka {
            let s = turn(j0, 7 - i);
            assert(s == turn(j0, 6 - (i - 1)));
            assert(slot_fits(m, r, s));
            assert(turn(s, 4) == turn(j0, 11 - i));
            assert(turn(s, 5) == turn(j0, 6 - i));
        }
    }
}

/// The nodes met by walking counter-clockwise round a position from the
/// node after which it is named are the nodes that a ring that fits has there.
proof fn lemma_ccw_nodes(m: Mesh, r: Ring, a: int, d: int, i: int)
    requires
        ring_fits(m, r, a, d),
        0 <= i <= 5,
    ensures
        ccw_node(m, a as u32, opp(d), i) == (if i <= run_ccw(r, opp(d), 0) {
            r[turn(opp(d), i)]
        } else {
            None
        }),
        i <= run_ccw(r, opp(d), 0) ==> r[turn(opp(d), i)] is Some,
    decreases i,
{
    let j0 = opp(d);
    let kb = run_ccw(r, j0, 0);
    lemma_turns6(d);
    lemma_round(j0, i);
    lemma_run_ccw(r, j0, 0, i);
    if i > 0 {
        lemma_ccw_nodes(m, r, a, d, i - 1);
        lemma_round(j0, i - 1);
        if i - 1 <= kb {
            let s = turn(j0, i - 1);
            assert(slot_fits(m, r, s));
            assert(turn(s, 2) == turn(j0, i + 1));
            assert(turn(s, 1) == turn(j0, i));
        }
    }
}

/// Only one ring fits a position: the ring found by walking round it.
pub proof fn lemma_ring_unique(m: Mesh, r: Ring, a: int, d: int)
    requires
        ring_fits(m, r, a, d),
    ensures
        r == ring_of(m, a as u32, d),
{
    let j0 = opp(d);
    let ka = run_cw(r, j0, 0);
    let kb = run_ccw(r, j0, 0);
    lemma_turns6(d);
    let w = ring_of(m, a as u32, d);
    assert forall|j: int| 0 <= j < 6 implies r[j] == w[j] by {
        let ic = cw_dist(j0, j);
        let icc = ccw_dist(j0, j);
        lemma_cw_nodes(m, r, a, d, ic);
        lemma_ccw_nodes(m, r, a, d, icc);
        assert(turn(j0, icc) == j);
        assert(turn(j0, 6 - ic) == j);
        if r[j] is Some {
            assert(covered(j0, j, ka, kb));
        }
    }
    assert(r =~= w);
}

/// A ring that fits a position fits it from each of its nodes: the
/// position can be named after any of them.
pub proof fn lemma_ring_renamed(m: Mesh, r: Ring, a: int, d: int, j: int)
    requires
        ring_fits(m, r, a, d),
        0 <= j < 6,
        r[j] is Some,
    ensures
        ring_fits(m, r, r[j].unwrap() as int, opp(j)),
{
    let j0 = opp(d);
    lemma_turns6(d);
    lemma_turns6(j);
    assert(slot_fits(m, r, j));
    reveal_with_fuel(run_cw, 6);
    reveal_with_fuel(run_ccw, 6);
    assert forall|i: int| 0 <= i < 6 && (#[trigger] r[i]) is Some implies covered(
        j,
        i,
        run_cw(r, j, 0),
        run_ccw(r, j, 0),
    ) by {
        assert(covered(j0, i, run_cw(r, j0, 0), run_ccw(r, j0, 0)));
        assert(covered(j0, j, run_cw(r, j0, 0), run_ccw(r, j0, 0)));
        assert(r[0] is Some ==> covered(j0, 0, run_cw(r, j0, 0), run_ccw(r, j0, 0)));
        assert(r[1] is Some ==> covered(j0, 1, run_cw(r, j0, 0), run_ccw(r, j0, 0)));
        assert(r[2] is Some ==> covered(j0, 2, run_cw(r, j0, 0), run_ccw(r, j0, 0)));
        assert(r[3] is Some ==> covered(j0, 3, run_cw(r, j0, 0), run_ccw(r, j0, 0)));
        assert(r[4] is Some ==> covered(j0, 4, run_cw(r, j0, 0), run_ccw(r, j0, 0)));
        assert(r[5] is Some ==> covered(j0, 5, run_cw(r, j0, 0), run_ccw(r, j0, 0)));
    }
}

} // verus!
