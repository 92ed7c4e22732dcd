use vstd::prelude::*;
use crate::direction::{opp, turn};
use crate::mesh::{
    Mesh, adjacent, evicted, faces_closed, hop, inserted, joined, link, linked, no_self_loops,
    present, removed, round_trip, set_link, symmetric, valid, walked, well_formed, row_edges,
    row_nodes, edges_before, edge_list, lemma_row_nodes,
};
use crate::neighbor::stored;

verus! {

/// In a symmetric mesh, taking a node out empties its slots and every slot
/// that holds it, and leaves the rest as it is.
pub proof fn lemma_removed(m: Mesh, x: u32)
    requires
        well_formed(m),
        symmetric(m),
        x < m.len(),
    ensures
        removed(m, x as int).len() == m.len(),
        well_formed(removed(m, x as int)),
        symmetric(removed(m, x as int)),
        !present(removed(m, x as int), x as int),
        forall|a: int, d: int|
            0 <= a < m.len() && 0 <= d < 6 ==> #[trigger] link(removed(m, x as int), a, d) == (if a
                == x || link(m, a, d) == Some(x) {
                None
            } else {
                link(m, a, d)
            }),
{
    let id = x as int;
    let r = removed(m, id);
    assert forall|a: int, d: int| 0 <= a < m.len() && 0 <= d < 6 implies #[trigger] link(r, a, d)
        == (if a == id || link(m, a, d) == Some(x) {
        None
    } else {
        link(m, a, d)
    }) by {
        let o = opp(d);
        assert(opp(o) == d);
        assert(r[a][d] == (if a == id || (a <= u32::MAX && link(m, id, o) == Some(a as u32)) {
            None
        } else {
            link(m, a, d)
        }));
        if link(m, a, d) == Some(x) {
            assert(link(m, link(m, a, d).unwrap() as int, o) == Some(a as u32));
        }
        if a <= u32::MAX && link(m, id, o) == Some(a as u32) {
            assert(link(m, link(m, id, o).unwrap() as int, opp(o)) == Some(x));
        }
    }
    assert forall|a: int, d: int|
        0 <= a < r.len() && 0 <= d < 6 && (#[trigger] link(r, a, d)) is Some implies link(
        r,
        link(r, a, d).unwrap() as int,
        opp(d),
    ) == Some(a as u32) by {
        let b = link(m, a, d).unwrap() as int;
        assert(link(m, b, opp(d)) == Some(a as u32));
        assert(link(r, b, opp(d)) == link(m, b, opp(d)));
    }
    assert forall|a: int, d: int| 0 <= a < r.len() && 0 <= d < 6 implies match #[trigger] link(
        r,
        a,
        d,
    ) {
        Some(b) => b < r.len() && b != u32::MAX && a <= u32::MAX,
        None => true,
    } by {
        assert(link(r, a, d) is Some ==> link(r, a, d) == link(m, a, d));
    }
    assert(link(r, id, 0) is None);
    assert(link(r, id, 1) is None);
    assert(link(r, id, 2) is None);
    assert(link(r, id, 3) is None);
    assert(link(r, id, 4) is None);
    assert(link(r, id, 5) is None);
}

/// Taking a node out of a mesh keeps the invariants of the mesh.
pub proof fn lemma_remove_keeps_valid(m: Mesh, id: u32)
    requires
        valid(m),
        id < m.len(),
    ensures
        valid(removed(m, id as int)),
{
    let r = removed(m, id as int);
    lemma_removed(m, id);
    assert forall|a: int, d: int| 0 <= a < r.len() && 0 <= d < 6 implies #[trigger] link(r, a, d)
        != Some(a as u32) by {
        assert(link(m, a, d) != Some(a as u32));
    }
    assert forall|a: int, d: int|
        0 <= a < r.len() && 0 <= d < 6 && #[trigger] linked(r, a, d) && linked(
            r,
            a,
            turn(d, 1),
        ) implies link(r, link(r, a, d).unwrap() as int, turn(d, 2)) == link(r, a, turn(d, 1)) by {
        assert(linked(m, a, d));
        let b = link(m, a, d).unwrap() as int;
        assert(link(r, a, turn(d, 1)) == link(m, a, turn(d, 1)));
        assert(link(r, b, turn(d, 2)) == link(m, b, turn(d, 2)));
    }
}

/// In a mesh of which the invariants hold every face is a triangle: a
/// walk of three steps round a face, in either sense, ends where it began.
pub proof fn lemma_faces_closed(m: Mesh)
    requires
        valid(m),
    ensures
        faces_closed(m),
{
    assert forall|a: int, d: int| 0 <= a < m.len() && 0 <= d < 6 && #[trigger] linked(
        m,
        a,
        d,
    ) implies (round_trip(m, a, d, 2) is Some ==> round_trip(m, a, d, 2) == Some(a)) && (round_trip(
        m,
        a,
        d,
        4,
    ) is Some ==> round_trip(m, a, d, 4) == Some(a)) by {
        let b = link(m, a, d).unwrap() as int;
        assert(link(m, b, opp(d)) == Some(a as u32));
        if round_trip(m, a, d, 2) is Some {
            let d1 = turn(d, 2);
            assert(hop(m, a, d, 2) == Some(b));
            let c = link(m, b, d1).unwrap() as int;
            assert(linked(m, b, d1));
            assert(turn(d1, 1) == opp(d));
            assert(turn(d1, 2) == turn(turn(d, 2), 2));
            assert(link(m, c, turn(d1, 2)) == Some(a as u32));
        }
        if round_trip(m, a, d, 4) is Some {
            let d1 = turn(d, 4);
            assert(hop(m, a, d, 4) == Some(b));
            let c = link(m, b, d1).unwrap() as int;
            let o = opp(d);
            assert(linked(m, b, o));
            assert(turn(o, 1) == d1);
            assert(link(m, a, turn(o, 2)) == Some(c as u32));
            assert(linked(m, a, turn(o, 2)));
            assert(link(m, c, opp(turn(o, 2))) == Some(a as u32));
            assert(opp(turn(o, 2)) == turn(turn(d, 4), 4));
        }
    }
}

/// A mesh in which no slot holds node `x`, and `x` holds nothing.
pub open spec fn gone(m: Mesh, x: u32) -> bool {
    forall|a: int, d: int|
        0 <= a < m.len() && 0 <= d < 6 ==> #[trigger] link(m, a, d) != Some(x) && (a == x ==> link(
            m,
            a,
            d,
        ) is None)
}

/// The walk that closes the faces round a new node does not bring back a
/// node that is gone from the mesh.
proof fn lemma_walk_keeps_gone(m: Mesh, cur: int, d: int, id: u32, t: int, fuel: nat, x: u32)
    requires
        well_formed(m),
        gone(m, x),
        x < m.len(),
        x != id,
        id < m.len(),
        0 <= cur < m.len(),
        0 <= d < 6,
        t == 1 || t == 5,
    ensures
        well_formed(walked(m, cur, d, id, t, fuel)),
        gone(walked(m, cur, d, id, t, fuel), x),
        walked(m, cur, d, id, t, fuel).len() == m.len(),
    decreases fuel,
{
    if fuel > 0 {
        match link(m, cur, d) {
            Some(next) => {
                let back = turn(opp(d), t);
                let j = joined(m, next, back, id);
                lemma_joined(m, next, back, id);
                assert(gone(j, x)) by {
                    assert forall|a: int, e: int| 0 <= a < j.len() && 0 <= e < 6 implies #[trigger] link(
                        j,
                        a,
                        e,
                    ) != Some(x) && (a == x ==> link(j, a, e) is None) by {
                        assert(link(m, a, e) != Some(x));
                        assert(link(m, cur, d) != Some(x));
                    }
                }
                lemma_walk_keeps_gone(j, next as int, turn(back, t), id, t, (fuel - 1) as nat, x);
            },
            None => {},
        }
    }
}

/// Linking two nodes of a well-formed mesh changes the two slots and
/// nothing else, and keeps the mesh well formed.
pub proof fn lemma_joined(m: Mesh, a: u32, d: int, b: u32)
    requires
        well_formed(m),
        a < m.len(),
        b < m.len(),
        0 <= d < 6,
    ensures
        joined(m, a, d, b).len() == m.len(),
        well_formed(joined(m, a, d, b)),
        forall|x: int, e: int|
            0 <= x < m.len() && 0 <= e < 6 ==> #[trigger] link(joined(m, a, d, b), x, e) == (if x
                == b && e == opp(d) {
                stored(a)
            } else if x == a && e == d {
                stored(b)
            } else {
                link(m, x, e)
            }),
{
    let j = joined(m, a, d, b);
    let i = set_link(m, a as int, d, stored(b));
    assert forall|x: int, e: int| 0 <= x < m.len() && 0 <= e < 6 implies #[trigger] link(j, x, e)
        == (if x == b && e == opp(d) {
        stored(a)
    } else if x == a && e == d {
        stored(b)
    } else {
        link(m, x, e)
    }) by {
        assert(link(i, x, e) == (if x == a && e == d {
            stored(b)
        } else {
            link(m, x, e)
        }));
    }
    assert forall|x: int| 0 <= x < j.len() implies (#[trigger] j[x]).len() == 6 by {
        assert(m[x].len() == 6);
        assert(i[x].len() == 6);
    }
    assert forall|x: int, e: int| 0 <= x < j.len() && 0 <= e < 6 implies match #[trigger] link(
        j,
        x,
        e,
    ) {
        Some(y) => y < j.len() && y != u32::MAX && x <= u32::MAX,
        None => true,
    } by {
        assert(link(m, x, e) is Some ==> x <= u32::MAX);
    }
}

/// Inserting a node at a place that is taken pushes out the node that was
/// there: unless it is the very node that is inserted, it is no longer part
/// of the mesh afterwards.
pub proof fn lemma_insert_evicts(m: Mesh, anchor: u32, d: int, id: u32, x: u32)
    requires
        well_formed(m),
        symmetric(m),
        no_self_loops(m),
        anchor < m.len(),
        id < m.len(),
        0 <= d < 6,
        anchor != id,
        link(m, anchor as int, d) == Some(x),
        x != id,
    ensures
        !present(inserted(m, anchor, d, id), x as int),
        gone(inserted(m, anchor, d, id), x),
{
    let m1 = removed(m, x as int);
    lemma_removed(m, x);
    assert(evicted(m, anchor as int, d) == m1);
    assert(gone(m1, x));
    let m2 = evicted(m1, id as int, opp(d));
    assert(well_formed(m2) && gone(m2, x) && m2.len() == m.len() && symmetric(m2)) by {
        match link(m1, id as int, opp(d)) {
            Some(y) => {
                lemma_removed(m1, y);
                assert forall|a: int, e: int| 0 <= a < m2.len() && 0 <= e < 6 implies #[trigger] link(
                    m2,
                    a,
                    e,
                ) != Some(x) && (a == x ==> link(m2, a, e) is None) by {
                    assert(link(m1, a, e) != Some(x));
                }
            },
            None => {},
        }
    }
    assert(link(m, anchor as int, d) != Some(anchor));
    let m3 = joined(m2, anchor, d, id);
    lemma_joined(m2, anchor, d, id);
    assert(gone(m3, x)) by {
        assert forall|a: int, e: int| 0 <= a < m3.len() && 0 <= e < 6 implies #[trigger] link(
            m3,
            a,
            e,
        ) != Some(x) && (a == x ==> link(m3, a, e) is None) by {
            assert(link(m2, a, e) != Some(x));
        }
    }
    let m4 = walked(m3, anchor as int, turn(d, 1), id, 1, 6);
    lemma_walk_keeps_gone(m3, anchor as int, turn(d, 1), id, 1, 6, x);
    lemma_walk_keeps_gone(m4, anchor as int, turn(d, 5), id, 5, 6, x);
    let m5 = walked(m4, anchor as int, turn(d, 5), id, 5, 6);
    assert(inserted(m, anchor, d, id) == m5);
    assert(link(m5, x as int, 0) is None);
    assert(link(m5, x as int, 1) is None);
    assert(link(m5, x as int, 2) is None);
    assert(link(m5, x as int, 3) is None);
    assert(link(m5, x as int, 4) is None);
    assert(link(m5, x as int, 5) is None);
}

/// What node `a` reports for its directions before `k`: each neighbour
/// with a higher number that it holds in one of them, once.
proof fn lemma_row_edges(m: Mesh, a: int, k: int)
    requires
        well_formed(m),
        0 <= a < m.len(),
        0 <= k <= 6,
    ensures
        row_edges(m, a, k).no_duplicates(),
        forall|p: (u32, u32)| #[trigger]
            row_edges(m, a, k).contains(p) <==> p.0 == a && a < p.1 && row_nodes(m[a], k).contains(
                p.1,
            ),
    decreases k,
{
    let s = row_edges(m, a, k);
    if k > 0 {
        let prev = row_edges(m, a, k - 1);
        lemma_row_edges(m, a, k - 1);
        lemma_row_nodes(m[a], k);
        lemma_row_nodes(m[a], k - 1);
        match link(m, a, k - 1) {
            Some(b) => {
                if a < b && !row_nodes(m[a], k - 1).contains(b) {
                    let e = (a as u32, b);
                    assert(!prev.contains(e));
                    assert(s == prev.push(e));
                    assert forall|i: int, j: int|
                        0 <= i < s.len() && 0 <= j < s.len() && i != j implies s[i] != s[j] by {
                        if i < prev.len() {
                            assert(prev.contains(prev[i]));
                        }
                        if j < prev.len() {
                            assert(prev.contains(prev[j]));
                        }
                    }
                    assert forall|p: (u32, u32)| #[trigger]
                        s.contains(p) <==> p.0 == a && a < p.1 && row_nodes(m[a], k).contains(
                            p.1,
                        ) by {
                        if s.contains(p) {
                            let i = choose|i: int| 0 <= i < s.len() && s[i] == p;
                            if i < prev.len() {
                                assert(prev.contains(p));
                            }
                        }
                        if p.0 == a && a < p.1 && row_nodes(m[a], k).contains(p.1) {
                            if p.1 == b {
                                assert(s[s.len() - 1] == p);
                            } else {
                                assert(prev.contains(p));
                                let i = choose|i: int| 0 <= i < prev.len() && prev[i] == p;
                                assert(s[i] == p);
                            }
                        }
                    }
                } else {
                    assert(s == prev);
                }
            },
            None => {
                assert(s == prev);
            },
        }
    } else {
        lemma_row_nodes(m[a], k);
    }
}

/// What the nodes before `a` report: each pair of a lower and a higher
/// number of which the lower holds the higher, once.
proof fn lemma_edges_before(m: Mesh, a: int)
    requires
        well_formed(m),
        0 <= a <= m.len(),
    ensures
        edges_before(m, a).no_duplicates(),
        forall|p: (u32, u32)| #[trigger]
            edges_before(m, a).contains(p) <==> p.0 < a && p.0 < p.1 && row_nodes(
                m[p.0 as int],
                6,
            ).contains(p.1),
    decreases a,
{
    let s = edges_before(m, a);
    if a > 0 {
        let prev = edges_before(m, a - 1);
        let row = row_edges(m, a - 1, 6);
        lemma_edges_before(m, a - 1);
        lemma_row_edges(m, a - 1, 6);
        assert(s == prev + row);
        assert forall|i: int, j: int|
            0 <= i < s.len() && 0 <= j < s.len() && i != j implies s[i] != s[j] by {
            if i < prev.len() {
                assert(prev.contains(prev[i]));
            } else {
                assert(row.contains(row[i - prev.len()]));
            }
            if j < prev.len() {
                assert(prev.contains(prev[j]));
            } else {
                assert(row.contains(row[j - prev.len()]));
            }
        }
        assert forall|p: (u32, u32)| #[trigger]
            s.contains(p) <==> p.0 < a && p.0 < p.1 && row_nodes(m[p.0 as int], 6).contains(
                p.1,
            ) by {
            if s.contains(p) {
                let i = choose|i: int| 0 <= i < s.len() && s[i] == p;
                if i < prev.len() {
                    assert(prev.contains(p));
                } else {
                    assert(row[i - prev.len()] == p);
                    assert(row.contains(p));
                }
            }
            if p.0 < a && p.0 < p.1 && row_nodes(m[p.0 as int], 6).contains(p.1) {
                if p.0 < a - 1 {
                    assert(prev.contains(p));
                    let i = choose|i: int| 0 <= i < prev.len() && prev[i] == p;
                    assert(s[i] == p);
                } else {
                    assert(row.contains(p));
                    let i = choose|i: int| 0 <= i < row.len() && row[i] == p;
                    assert(s[prev.len() + i] == p);
                }
            }
        }
    }
}

/// The pair of two numbers, the lower first.
pub open spec fn ordered(a: u32, b: u32) -> (u32, u32) {
    if a < b {
        (a, b)
    } else {
        (b, a)
    }
}

/// The list of the edges of a mesh holds no pair twice, and it holds a
/// pair if and only if its first node has the lower number and holds the
/// second. So an edge, however often and from whichever side it was
/// linked, is listed once, as the pair of the lower and the higher number.
pub proof fn lemma_edge_list(m: Mesh)
    requires
        well_formed(m),
    ensures
        edge_list(m).no_duplicates(),
        forall|a: u32, b: u32| #[trigger]
            edge_list(m).contains((a, b)) <==> a < b && a < m.len() && adjacent(
                m,
                a as int,
                b as int,
            ),
        symmetric(m) ==> forall|a: u32, b: u32|
            a < m.len() && b < m.len() && a != b && (adjacent(m, a as int, b as int) || adjacent(
                m,
                b as int,
                a as int,
            )) ==> edge_list(m).contains(#[trigger] ordered(a, b)),
{
    lemma_edges_before(m, m.len() as int);
    assert forall|a: u32, b: u32| #[trigger]
        edge_list(m).contains((a, b)) <==> a < b && a < m.len() && adjacent(
            m,
            a as int,
            b as int,
        ) by {
        if a < m.len() {
            lemma_row_nodes(m[a as int], 6);
            if adjacent(m, a as int, b as int) {
                let d = choose|d: int|
                    0 <= d < 6 && #[trigger] link(m, a as int, d) == Some(b as int as u32) && 0
                        <= b as int <= u32::MAX;
                assert(m[a as int][d] == Some(b));
            }
            if row_nodes(m[a as int], 6).contains(b) {
                let d = choose|d: int| 0 <= d < 6 && #[trigger] m[a as int][d] == Some(b);
                assert(link(m, a as int, d) == Some(b));
            }
        }
    }
    if symmetric(m) {
        assert forall|a: u32, b: u32|
            a < m.len() && b < m.len() && a != b && (adjacent(m, a as int, b as int) || adjacent(
                m,
                b as int,
                a as int,
            )) implies edge_list(m).contains(#[trigger] ordered(a, b)) by {
            lemma_adjacent_symmetric(m, a as int, b as int);
            lemma_adjacent_symmetric(m, b as int, a as int);
        }
    }
}

/// In a symmetric mesh, a node that holds another is held by it.
pub proof fn lemma_adjacent_symmetric(m: Mesh, a: int, b: int)
    requires
        well_formed(m),
        symmetric(m),
        0 <= a < m.len(),
        adjacent(m, a, b),
    ensures
        adjacent(m, b, a),
{
    let d = choose|d: int|
        0 <= d < 6 && #[trigger] link(m, a, d) == Some(b as u32) && 0 <= b <= u32::MAX;
    assert(link(m, link(m, a, d).unwrap() as int, opp(d)) == Some(a as u32));
    assert(link(m, b, opp(d)) == Some(a as u32));
}

} // verus!
