use vstd::prelude::*;
use crate::direction::{Direction, direction_at, opp, turn};
use crate::neighbor::stored;

verus! {

/// The mathematical content of a mesh: for every node, in order of id, its six
/// neighbour slots, in order of direction.
pub type Mesh = Seq<Seq<Option<u32>>>;

/// What node `a` holds in direction `d`.
pub open spec fn link(m: Mesh, a: int, d: int) -> Option<u32> {
    m[a][d]
}

/// The mesh `m` with `v` written into the slot of node `a` in direction `d`.
pub open spec fn set_link(m: Mesh, a: int, d: int, v: Option<u32>) -> Mesh {
    m.update(a, m[a].update(d, v))
}

/// The mesh of `n` nodes without any link.
pub open spec fn empty_mesh(n: nat) -> Mesh {
    Seq::new(n, |a: int| Seq::new(6, |d: int| None::<u32>))
}

/// Every node has six slots, every id in a slot is the id of a node of the
/// mesh, and only nodes whose id fits a slot hold anything.
pub open spec fn well_formed(m: Mesh) -> bool {
    &&& forall|a: int| 0 <= a < m.len() ==> (#[trigger] m[a]).len() == 6
    &&& forall|a: int, d: int|
        0 <= a < m.len() && 0 <= d < 6 ==> match #[trigger] link(m, a, d) {
            Some(b) => b < m.len() && b != u32::MAX && a <= u32::MAX,
            None => true,
        }
}

/// Node `a` has a neighbour in direction `d`.
pub open spec fn linked(m: Mesh, a: int, d: int) -> bool {
    link(m, a, d) is Some
}

/// Node `a` is part of the mesh: it has at least one neighbour.
pub open spec fn present(m: Mesh, a: int) -> bool {
    linked(m, a, 0) || linked(m, a, 1) || linked(m, a, 2) || linked(m, a, 3) || linked(m, a, 4)
        || linked(m, a, 5)
}

/// Node `a` holds node `b` in one of its slots.
pub open spec fn adjacent(m: Mesh, a: int, b: int) -> bool {
    exists|d: int| 0 <= d < 6 && #[trigger] link(m, a, d) == Some(b as u32) && 0 <= b <= u32::MAX
}

/// Every link has its reverse: where `a` holds `b` in a direction, `b` holds
/// `a` in the opposite one.
pub open spec fn symmetric(m: Mesh) -> bool {
    forall|a: int, d: int|
        0 <= a < m.len() && 0 <= d < 6 && (#[trigger] link(m, a, d)) is Some ==> link(
            m,
            link(m, a, d).unwrap() as int,
            opp(d),
        ) == Some(a as u32)
}

/// No node is its own neighbour.
pub open spec fn no_self_loops(m: Mesh) -> bool {
    forall|a: int, d: int|
        0 <= a < m.len() && 0 <= d < 6 ==> #[trigger] link(m, a, d) != Some(a as u32)
}

/// One step round a face: from node `a` along direction `d` to its
/// neighbour, provided that the neighbour has a link in the direction that
/// lies `t` counter-clockwise steps after `d`. Gives the neighbour.
pub open spec fn hop(m: Mesh, a: int, d: int, t: int) -> Option<int> {
    match link(m, a, d) {
        Some(b) => if linked(m, b as int, turn(d, t)) {
            Some(b as int)
        } else {
            None
        },
        None => None,
    }
}

/// Three steps round a face, starting at node `a` in direction `d` and
/// turning by `t` after each. Gives the node reached.
pub open spec fn round_trip(m: Mesh, a: int, d: int, t: int) -> Option<int> {
    match hop(m, a, d, t) {
        Some(b) => match hop(m, b, turn(d, t), t) {
            Some(c) => hop(m, c, turn(turn(d, t), t), t),
            None => None,
        },
        None => None,
    }
}

/// Every walk of three steps round a face, in either sense, ends where it began.
pub open spec fn faces_closed(m: Mesh) -> bool {
    forall|a: int, d: int|
        0 <= a < m.len() && 0 <= d < 6 && #[trigger] linked(m, a, d) ==> {
            &&& round_trip(m, a, d, 2) is Some ==> round_trip(m, a, d, 2) == Some(a)
            &&& round_trip(m, a, d, 4) is Some ==> round_trip(m, a, d, 4) == Some(a)
        }
}

/// No corner is left open: where a node holds neighbours in two
/// directions next to each other, the two neighbours are linked, so that
/// the three nodes are the corners of a triangle.
pub open spec fn triangulated(m: Mesh) -> bool {
    forall|a: int, d: int|
        0 <= a < m.len() && 0 <= d < 6 && #[trigger] linked(m, a, d) && linked(m, a, turn(d, 1))
            ==> link(m, link(m, a, d).unwrap() as int, turn(d, 2)) == link(m, a, turn(d, 1))
}

/// The invariants of a mesh: links are symmetric, no node is linked to
/// itself, and no corner is left open.
pub open spec fn valid(m: Mesh) -> bool {
    &&& well_formed(m)
    &&& symmetric(m)
    &&& no_self_loops(m)
    &&& triangulated(m)
}

/// The nodes that a row of slots holds in the directions before `k`, in
/// order of direction.
pub open spec fn row_nodes(row: Seq<Option<u32>>, k: int) -> Seq<u32>
    decreases k,
{
    if k <= 0 {
        Seq::empty()
    } else {
        match row[k - 1] {
            Some(b) => row_nodes(row, k - 1).push(b),
            None => row_nodes(row, k - 1),
        }
    }
}

/// A row lists at most as many nodes as it has directions.
pub proof fn lemma_row_nodes_len(row: Seq<Option<u32>>, k: int)
    requires
        0 <= k,
    ensures
        row_nodes(row, k).len() <= k,
    decreases k,
{
    if k > 0 {
        lemma_row_nodes_len(row, k - 1);
    }
}

/// The neighbours of node `a`, in order of direction.
pub open spec fn held(m: Mesh, a: int) -> Seq<u32> {
    row_nodes(m[a], 6)
}

/// The nodes listed for a row are the nodes that it holds.
pub proof fn lemma_row_nodes(row: Seq<Option<u32>>, k: int)
    ensures
        forall|y: u32|
            row_nodes(row, k).contains(y) <==> exists|d: int|
                0 <= d < k && #[trigger] row[d] == Some(y),
    decreases k,
{
    if k > 0 {
        lemma_row_nodes(row, k - 1);
        let prev = row_nodes(row, k - 1);
        assert forall|y: u32|
            row_nodes(row, k).contains(y) <==> exists|d: int|
                0 <= d < k && #[trigger] row[d] == Some(y) by {
            match row[k - 1] {
                Some(b) => {
                    let now = prev.push(b);
                    assert(now[now.len() - 1] == b);
                    if now.contains(y) {
                        let i = choose|i: int| 0 <= i < now.len() && now[i] == y;
                        if i < prev.len() {
                            assert(prev[i] == y);
                            assert(prev.contains(y));
                        } else {
                            assert(row[k - 1] == Some(y));
                        }
                    }
                    if exists|d: int| 0 <= d < k && #[trigger] row[d] == Some(y) {
                        let d = choose|d: int| 0 <= d < k && #[trigger] row[d] == Some(y);
                        if d < k - 1 {
                            assert(prev.contains(y));
                            let i = choose|i: int| 0 <= i < prev.len() && prev[i] == y;
                            assert(now[i] == y);
                        }
                    }
                },
                None => {
                    if exists|d: int| 0 <= d < k && #[trigger] row[d] == Some(y) {
                        let d = choose|d: int| 0 <= d < k && #[trigger] row[d] == Some(y);
                        assert(d < k - 1);
                    }
                },
            }
        }
    } else {
        assert forall|y: u32| !row_nodes(row, k).contains(y) by {}
    }
}

/// The mesh `m` after node `id` was taken out: the slots of `id` are empty,
/// and so is, for every neighbour that `id` held, the slot of that neighbour
/// that lies opposite.
pub open spec fn removed(m: Mesh, id: int) -> Mesh {
    Seq::new(
        m.len(),
        |a: int|
            Seq::new(
                6,
                |d: int|
                    if a == id || (a <= u32::MAX && link(m, id, opp(d)) == Some(a as u32)) {
                        None
                    } else {
                        link(m, a, d)
                    },
            ),
    )
}

/// The mesh `m` after whatever node `a` holds in direction `d` was taken out.
pub open spec fn evicted(m: Mesh, a: int, d: int) -> Mesh {
    match link(m, a, d) {
        Some(x) => removed(m, x as int),
        None => m,
    }
}

/// The mesh `m` with node `a` holding `b` in direction `d`, and `b` holding
/// `a` in the opposite direction.
pub open spec fn joined(m: Mesh, a: u32, d: int, b: u32) -> Mesh {
    set_link(set_link(m, a as int, d, stored(b)), b as int, opp(d), stored(a))
}

/// The walk that closes the faces round a new node `id`. It is at node
/// `cur` and looks in direction `d`; `t` is 1 where the walk turns
/// counter-clockwise and 5 where it turns clockwise. While there is a
/// neighbour in that direction, and for at most `fuel` steps, the walk moves
/// to it, links it with `id`, and turns.
pub open spec fn walked(m: Mesh, cur: int, d: int, id: u32, t: int, fuel: nat) -> Mesh
    decreases fuel,
{
    if fuel == 0 {
        m
    } else {
        match link(m, cur, d) {
            Some(next) => {
                let back = turn(opp(d), t);
                walked(joined(m, next, back, id), next as int, turn(back, t), id, t, (fuel - 1) as nat)
            },
            None => m,
        }
    }
}

/// The mesh `m` after `id` was inserted next to `anchor` in direction `d`:
/// unchanged where the two are the same node; else whatever `anchor` held
/// in that direction and whatever `id` held in the opposite one are taken
/// out, the two are linked, and one walk in each sense links `id` with the
/// nodes that share a face with the new link.
pub open spec fn inserted(m: Mesh, anchor: u32, d: int, id: u32) -> Mesh {
    if anchor == id {
        m
    } else {
        let m1 = evicted(m, anchor as int, d);
        let m2 = evicted(m1, id as int, opp(d));
        let m3 = joined(m2, anchor, d, id);
        let m4 = walked(m3, anchor as int, turn(d, 1), id, 1, 6);
        walked(m4, anchor as int, turn(d, 5), id, 5, 6)
    }
}

/// The links that a row of slots holds in the directions before `k`, each
/// with its direction, in order of direction.
pub open spec fn row_links(row: Seq<Option<u32>>, k: int) -> Seq<(u32, Direction)>
    decreases k,
{
    if k <= 0 {
        Seq::empty()
    } else {
        match row[k - 1] {
            Some(b) => row_links(row, k - 1).push((b, direction_at(k - 1))),
            None => row_links(row, k - 1),
        }
    }
}

/// The edges that node `a` reports for its directions before `k`: one for
/// each neighbour with a higher number, in order of the first direction in
/// which `a` holds it.
pub open spec fn row_edges(m: Mesh, a: int, k: int) -> Seq<(u32, u32)>
    decreases k,
{
    if k <= 0 {
        Seq::empty()
    } else {
        match link(m, a, k - 1) {
            Some(b) => if a < b && !row_nodes(m[a], k - 1).contains(b) {
                row_edges(m, a, k - 1).push((a as u32, b))
            } else {
                row_edges(m, a, k - 1)
            },
            None => row_edges(m, a, k - 1),
        }
    }
}

/// The edges that the nodes before `a` report.
pub open spec fn edges_before(m: Mesh, a: int) -> Seq<(u32, u32)>
    decreases a,
{
    if a <= 0 {
        Seq::empty()
    } else {
        edges_before(m, a - 1) + row_edges(m, a - 1, 6)
    }
}

/// The edges of a mesh, each once, as the pair of the lower and the higher
/// number, in order of the lower number.
pub open spec fn edge_list(m: Mesh) -> Seq<(u32, u32)> {
    edges_before(m, m.len() as int)
}

/// What a step round a node finds: from node `a` along direction `d` to its
/// neighbour, and there the first direction that is taken, looking from the
/// one opposite to `d` in turns of `t` (5 for clockwise turns, 1 for
/// counter-clockwise ones), the first `rot - 1` turns being known to lead
/// nowhere. Gives the neighbour, the direction found, and the number of
/// turns made, which is 6 where only the way back is taken.
pub open spec fn step_round(m: Mesh, a: int, d: int, t: int, rot: int) -> Option<(u32, int, int)>
    decreases 6 - rot,
{
    match link(m, a, d) {
        None => None,
        Some(b) => if rot >= 6 {
            Some((b, opp(d), 6))
        } else if linked(m, b as int, turn(opp(d), if t == 1 { rot } else { 6 - rot })) {
            Some((b, turn(opp(d), if t == 1 { rot } else { 6 - rot }), rot))
        } else {
            step_round(m, a, d, t, rot + 1)
        },
    }
}

} // verus!
