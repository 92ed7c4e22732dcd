use vstd::prelude::*;
use crate::direction::{opp, turn};
use crate::neighbor::stored;
use crate::mesh::{
    Mesh, link, set_link, empty_mesh, well_formed, present, linked, held, row_nodes, removed,
    walked, inserted, row_links, row_edges, edges_before, edge_list, step_round, valid,
};

pub use crate::direction::Direction;
pub use crate::neighbor::Neighbor;

verus! {

/// A triangular mesh on a fixed set of nodes, numbered from zero. Each node
/// has six neighbour slots, one for each direction.
pub struct Lattice {
    conn: Vec<[Neighbor; 6]>,
}

/// The content of one node's slots.
pub open spec fn slots_view(s: [Neighbor; 6]) -> Seq<Option<u32>> {
    Seq::new(6, |d: int| s@[d]@)
}

/// The content of a sequence of nodes.
pub open spec fn mesh_of(conn: Seq<[Neighbor; 6]>) -> Mesh {
    Seq::new(conn.len(), |a: int| slots_view(conn[a]))
}

/// Replaces slot `d` of node `a`.
fn write_slot(conn: &mut Vec<[Neighbor; 6]>, a: usize, d: usize, nb: Neighbor)
    requires
        well_formed(mesh_of(old(conn)@)),
        a < old(conn)@.len(),
        a <= u32::MAX,
        d < 6,
        nb@ is Some ==> nb@.unwrap() < old(conn)@.len(),
    ensures
        mesh_of(final(conn)@) == set_link(mesh_of(old(conn)@), a as int, d as int, nb@),
        well_formed(mesh_of(final(conn)@)),
    no_unwind
{
    let ghost before = mesh_of(conn@);
    let mut row = conn[a];
    row[d] = nb;
    conn[a] = row;
    proof {
        nb.lemma_view(nb);
        let after = mesh_of(conn@);
        assert(after =~~= set_link(before, a as int, d as int, nb@));
        assert forall|x: int, e: int| 0 <= x < after.len() && 0 <= e < 6 implies match #[trigger] link(
            after,
            x,
            e,
        ) {
            Some(b) => b < after.len() && b != u32::MAX && x <= u32::MAX,
            None => true,
        } by {
            if x == a && e == d {
            } else {
                assert(link(after, x, e) == link(before, x, e));
            }
        }
    }
}

/// Empties every slot of every node.
fn wipe(conn: &mut Vec<[Neighbor; 6]>)
    ensures
        mesh_of(final(conn)@) == empty_mesh(old(conn)@.len()),
        well_formed(mesh_of(final(conn)@)),
    no_unwind
{
    let n = conn.len();
    let mut i: usize = 0;
    while i < n
        invariant
            i <= n,
            n == conn@.len(),
            forall|a: int, d: int| 0 <= a < i && 0 <= d < 6 ==> (#[trigger] conn@[a]@[d])@ is None,
        decreases n - i,
    {
        let e = Neighbor::empty();
        conn[i] = [e, e, e, e, e, e];
        i += 1;
    }
    assert(mesh_of(conn@) =~~= empty_mesh(n as nat));
}

impl View for Lattice {
    type V = Mesh;

    closed spec fn view(&self) -> Mesh {
        mesh_of(self.conn@)
    }
}

impl Lattice {
    /// What holds of every lattice: its content is a well-formed mesh.
    #[verifier::type_invariant]
    spec fn inv(&self) -> bool {
        well_formed(self@)
    }

    /// A mesh of `num_nodes` nodes without any link.
    pub fn new(num_nodes: usize) -> (l: Lattice)
        ensures
            l@ == empty_mesh(num_nodes as nat),
            well_formed(l@),
    {
        let mut conn: Vec<[Neighbor; 6]> = Vec::new();
        let mut i: usize = 0;
        while i < num_nodes
            invariant
                i <= num_nodes,
                conn@.len() == i,
                forall|a: int, d: int| 0 <= a < i && 0 <= d < 6 ==> (#[trigger] conn@[a]@[d])@ is None,
            decreases num_nodes - i,
        {
            conn.push([Neighbor::empty(); 6]);
            i += 1;
        }
        let l = Lattice { conn };
        assert(l@ =~~= empty_mesh(num_nodes as nat));
        l
    }

    /// The number of nodes, present or not.
    pub fn len(&self) -> (n: usize)
        ensures
            n == self@.len(),
            well_formed(self@),
    {
        proof {
            use_type_invariant(self);
        }
        self.conn.len()
    }

    /// What node `from` holds in direction `dir`.
    pub fn neighbor(&self, from: u32, dir: Direction) -> (r: Option<u32>)
        requires
            from < self@.len(),
        ensures
            r == link(self@, from as int, dir.index()),
    {
        self.conn[from as usize][dir.ordinal()].get()
    }
}

impl Lattice {
    /// Replaces the slot of node `a` in direction `dir`.
    fn write(&mut self, a: u32, dir: Direction, nb: Neighbor)
        requires
            a < old(self)@.len(),
            nb@ is Some ==> nb@.unwrap() < old(self)@.len(),
        ensures
            final(self)@ == set_link(old(self)@, a as int, dir.index(), nb@),
            well_formed(final(self)@),
    {
        proof {
            use_type_invariant(&*self);
        }
        write_slot(&mut self.conn, a as usize, dir.ordinal(), nb);
    }

    /// Writes `id` into the slot of node `a` in direction `dir`.
    fn put_link(&mut self, a: u32, dir: Direction, id: u32)
        requires
            a < old(self)@.len(),
            id < old(self)@.len(),
        ensures
            final(self)@ == set_link(old(self)@, a as int, dir.index(), stored(id)),
            well_formed(final(self)@),
    {
        proof {
            use_type_invariant(&*self);
        }
        let mut nb = Neighbor::empty();
        nb.put(id);
        self.write(a, dir, nb);
    }

    /// Empties the slot of node `a` in direction `dir`.
    fn clear_link(&mut self, a: u32, dir: Direction)
        requires
            a < old(self)@.len(),
        ensures
            final(self)@ == set_link(old(self)@, a as int, dir.index(), None),
            well_formed(final(self)@),
    {
        proof {
            use_type_invariant(&*self);
        }
        self.write(a, dir, Neighbor::empty());
    }

    /// Drops every link and keeps the nodes.
    pub fn clear(&mut self)
        ensures
            final(self)@ == empty_mesh(old(self)@.len()),
            well_formed(final(self)@),
    {
        proof {
            use_type_invariant(&*self);
        }
        wipe(&mut self.conn);
    }

    /// Whether node `id` is part of the mesh: whether it has a neighbour.
    pub fn contains(&self, id: u32) -> (r: bool)
        requires
            id < self@.len(),
        ensures
            r == present(self@, id as int),
    {
        let mut k: usize = 0;
        while k < 6
            invariant
                k <= 6,
                id < self@.len(),
                forall|d: int| 0 <= d < k ==> !linked(self@, id as int, d),
            decreases 6 - k,
        {
            if self.neighbor(id, Direction::from_ordinal(k)).is_some() {
                return true;
            }
            k += 1;
        }
        false
    }

    /// The neighbours of node `id`, in order of direction.
    pub fn neighbors(&self, id: u32) -> (r: Vec<u32>)
        requires
            id < self@.len(),
        ensures
            r@ == held(self@, id as int),
    {
        let mut r: Vec<u32> = Vec::new();
        let mut k: usize = 0;
        while k < 6
            invariant
                k <= 6,
                id < self@.len(),
                r@ == row_nodes(self@[id as int], k as int),
            decreases 6 - k,
        {
            if let Some(b) = self.neighbor(id, Direction::from_ordinal(k)) {
                r.push(b);
            }
            k += 1;
        }
        r
    }
}

impl Lattice {
    /// Takes node `id` out of the mesh: empties its slots and, for every
    /// neighbour it held, the slot of that neighbour that lies opposite.
    pub fn remove(&mut self, id: u32)
        requires
            id < old(self)@.len(),
        ensures
            final(self)@ == removed(old(self)@, id as int),
            well_formed(final(self)@),
    {
        proof {
            use_type_invariant(&*self);
        }
        let ghost m0 = self@;
        let row = self.conn[id as usize];
        let mut k: usize = 0;
        while k < 6
            invariant
                k <= 6,
                id < m0.len(),
                self@.len() == m0.len(),
                well_formed(m0),
                well_formed(self@),
                slots_view(row) == m0[id as int],
                forall|a: int, e: int|
                    0 <= a < m0.len() && 0 <= e < 6 ==> #[trigger] link(self@, a, e) == (if (a == id
                        && e < k) || (opp(e) < k && a <= u32::MAX && link(m0, id as int, opp(e))
                        == Some(a as u32)) {
                        None
                    } else {
                        link(m0, a, e)
                    }),
            decreases 6 - k,
        {
            let dir = Direction::from_ordinal(k);
            if let Some(nb) = row[k].get() {
                assert(link(m0, id as int, k as int) == Some(nb));
                self.clear_link(id, dir);
                self.clear_link(nb, dir.opposite());
            }
            k += 1;
        }
        assert forall|a: int, e: int| 0 <= a < m0.len() && 0 <= e < 6 implies self@[a][e] == removed(
            m0,
            id as int,
        )[a][e] by {
            assert(link(self@, a, e) == self@[a][e]);
        }
        assert(self@ =~~= removed(m0, id as int));
    }

    /// One of the two walks that close the faces round the new node `newid`:
    /// it starts at node `start`, looking in direction `dir`, and turns
    /// counter-clockwise where `ccw` is set, clockwise where it is not.
    fn close_faces(&mut self, start: u32, dir: Direction, newid: u32, ccw: bool)
        requires
            start < old(self)@.len(),
            newid < old(self)@.len(),
        ensures
            final(self)@ == walked(
                old(self)@,
                start as int,
                dir.index(),
                newid,
                if ccw {
                    1
                } else {
                    5
                },
                6,
            ),
            well_formed(final(self)@),
            final(self)@.len() == old(self)@.len(),
    {
        proof {
            use_type_invariant(&*self);
        }
        let ghost m0 = self@;
        let ghost t: int = if ccw {
            1
        } else {
            5
        };
        let mut cur = start;
        let mut d = dir;
        let mut steps: usize = 0;
        let mut going = true;
        while going && steps < 6
            invariant
                steps <= 6,
                cur < self@.len(),
                newid < self@.len(),
                self@.len() == m0.len(),
                well_formed(self@),
                t == (if ccw {
                    1int
                } else {
                    5int
                }),
                walked(m0, start as int, dir.index(), newid, t, 6) == (if going {
                    walked(self@, cur as int, d.index(), newid, t, (6 - steps) as nat)
                } else {
                    self@
                }),
            decreases (if going { 1int } else { 0int }), 6 - steps,
        {
            match self.neighbor(cur, d) {
                Some(next) => {
                    let back = if ccw {
                        d.opposite().rotate_ccw()
                    } else {
                        d.opposite().rotate_cw()
                    };
                    self.put_link(next, back, newid);
                    self.put_link(newid, back.opposite(), next);
                    d = if ccw {
                        back.rotate_ccw()
                    } else {
                        back.rotate_cw()
                    };
                    cur = next;
                    steps += 1;
                },
                None => {
                    going = false;
                },
            }
        }
    }

    /// Inserts node `newid` next to node `id` in direction `dir`. Nothing
    /// happens where the two are the same node. Else whatever `id` held in
    /// that direction and whatever `newid` held in the opposite one are taken
    /// out of the mesh, the two nodes are linked, and `newid` is linked with
    /// every node that shares a face with the new link. Each of the two walks
    /// that close the faces makes at most six steps.
    pub fn insert(&mut self, id: u32, dir: Direction, newid: u32)
        requires
            id < old(self)@.len(),
            newid < old(self)@.len(),
        ensures
            final(self)@ == inserted(old(self)@, id, dir.index(), newid),
            well_formed(final(self)@),
    {
        proof {
            use_type_invariant(&*self);
        }
        if id == newid {
            return ;
        }
        if let Some(nb) = self.neighbor(id, dir) {
            self.remove(nb);
        }
        if let Some(nb) = self.neighbor(newid, dir.opposite()) {
            self.remove(nb);
        }
        self.put_link(id, dir, newid);
        self.put_link(newid, dir.opposite(), id);
        self.close_faces(id, dir.rotate_ccw(), newid, true);
        self.close_faces(id, dir.rotate_cw(), newid, false);
    }
}

impl Clone for Lattice {
    /// A copy of the mesh.
    fn clone(&self) -> (r: Lattice)
        ensures
            r@ == self@,
            well_formed(r@),
    {
        proof {
            use_type_invariant(self);
        }
        let n = self.conn.len();
        let mut conn: Vec<[Neighbor; 6]> = Vec::new();
        let mut i: usize = 0;
        while i < n
            invariant
                i <= n,
                n == self.conn@.len(),
                conn@.len() == i,
                forall|a: int| 0 <= a < i ==> #[trigger] conn@[a] == self.conn@[a],
            decreases n - i,
        {
            conn.push(self.conn[i]);
            i += 1;
        }
        assert(conn@ =~= self.conn@);
        Lattice { conn }
    }
}

impl Lattice {
    /// The neighbours of node `id`, each with the direction in which it
    /// lies, in order of direction.
    pub fn neighbors_with_dirs(&self, id: u32) -> (r: Vec<(u32, Direction)>)
        requires
            id < self@.len(),
        ensures
            r@ == row_links(self@[id as int], 6),
    {
        let mut r: Vec<(u32, Direction)> = Vec::new();
        let mut k: usize = 0;
        while k < 6
            invariant
                k <= 6,
                id < self@.len(),
                r@ == row_links(self@[id as int], k as int),
            decreases 6 - k,
        {
            let dir = Direction::from_ordinal(k);
            if let Some(b) = self.neighbor(id, dir) {
                r.push((b, dir));
            }
            k += 1;
        }
        r
    }

    /// Whether node `a` holds node `b` in a direction before `k`.
    fn holds_before(&self, a: u32, k: usize, b: u32) -> (r: bool)
        requires
            a < self@.len(),
            k <= 6,
        ensures
            r == row_nodes(self@[a as int], k as int).contains(b),
    {
        let mut d: usize = 0;
        while d < k
            invariant
                d <= k <= 6,
                a < self@.len(),
                forall|e: int| 0 <= e < d ==> self@[a as int][e] != Some(b),
            decreases k - d,
        {
            if let Some(x) = self.neighbor(a, Direction::from_ordinal(d)) {
                if x == b {
                    proof {
                        crate::mesh::lemma_row_nodes(self@[a as int], k as int);
                        assert(self@[a as int][d as int] == Some(b));
                    }
                    return true;
                }
            }
            d += 1;
        }
        proof {
            crate::mesh::lemma_row_nodes(self@[a as int], k as int);
        }
        false
    }

    /// The edges of the mesh, each once, as the pair of the lower and the
    /// higher number of its two nodes, in order of the lower number and then
    /// of the direction in which the lower holds the higher.
    pub fn edges(&self) -> (r: Vec<(u32, u32)>)
        ensures
            r@ == edge_list(self@),
    {
        let n = self.len();
        let mut r: Vec<(u32, u32)> = Vec::new();
        let mut a: usize = 0;
        while a < n
            invariant
                a <= n,
                n == self@.len(),
                well_formed(self@),
                r@ == edges_before(self@, a as int),
            decreases n - a,
        {
            let ghost start = r@;
            let mut k: usize = 0;
            assert(r@ =~= start + row_edges(self@, a as int, 0));
            while k < 6
                invariant
                    k <= 6,
                    a < n,
                    n == self@.len(),
                    well_formed(self@),
                    r@ == start + row_edges(self@, a as int, k as int),
                decreases 6 - k,
            {
                if a <= u32::MAX as usize {
                    if let Some(b) = self.neighbor(a as u32, Direction::from_ordinal(k)) {
                        if a < b as usize && !self.holds_before(a as u32, k, b) {
                            r.push((a as u32, b));
                        }
                    }
                } else {
                    assert(link(self@, a as int, k as int) is None);
                }
                assert(r@ =~= start + row_edges(self@, a as int, k as int + 1));
                k += 1;
            }
            a += 1;
        }
        r
    }

    /// One step along the boundary: from node `node_id` along `direction` to
    /// its neighbour, and there to the first direction that is taken,
    /// turning clockwise if `cw` is set and counter-clockwise if not, and
    /// starting next to the direction that leads back. Gives the neighbour,
    /// the direction found, and the number of turns made, which is 6 where
    /// only the way back is taken; nothing where `node_id` has no neighbour
    /// in `direction`.
    fn step_loop(&self, node_id: u32, direction: Direction, cw: bool) -> (r: Option<
        (u32, Direction, u8),
    >)
        requires
            node_id < self@.len(),
        ensures
            match r {
                Some((nb, dir, rot)) => {
                    &&& step_round(
                        self@,
                        node_id as int,
                        direction.index(),
                        if cw {
                            5
                        } else {
                            1
                        },
                        1,
                    ) == Some((nb, dir.index(), rot as int))
                    &&& link(self@, node_id as int, direction.index()) == Some(nb)
                    &&& nb < self@.len()
                    &&& 1 <= rot <= 6
                    &&& rot == 1 <==> linked(
                        self@,
                        nb as int,
                        turn(opp(direction.index()), if cw { 5 } else { 1 }),
                    )
                    &&& rot == 1 ==> dir.index() == turn(
                        opp(direction.index()),
                        if cw {
                            5
                        } else {
                            1
                        },
                    )
                },
                None => {
                    &&& step_round(
                        self@,
                        node_id as int,
                        direction.index(),
                        if cw {
                            5
                        } else {
                            1
                        },
                        1,
                    ) is None
                    &&& link(self@, node_id as int, direction.index()) is None
                },
            },
    {
        let _ = self.len();
        let nb = match self.neighbor(node_id, direction) {
            Some(nb) => nb,
            None => {
                return None;
            },
        };
        let stop = direction.opposite();
        let ghost t: int = if cw {
            5
        } else {
            1
        };
        let mut rotations: u8 = 1;
        while rotations < 6
            invariant
                1 <= rotations <= 6,
                node_id < self@.len(),
                nb < self@.len(),
                well_formed(self@),
                t == (if cw {
                    5int
                } else {
                    1int
                }),
                stop.index() == opp(direction.index()),
                link(self@, node_id as int, direction.index()) == Some(nb),
                rotations > 1 ==> !linked(self@, nb as int, turn(opp(direction.index()), t)),
                step_round(self@, node_id as int, direction.index(), t, 1) == step_round(
                    self@,
                    node_id as int,
                    direction.index(),
                    t,
                    rotations as int,
                ),
            decreases 6 - rotations,
        {
            let dir = if cw {
                stop.turned(6 - rotations as usize)
            } else {
                stop.turned(rotations as usize)
            };
            if self.neighbor(nb, dir).is_some() {
                return Some((nb, dir, rotations));
            }
            rotations += 1;
        }
        Some((nb, stop, 6))
    }

    /// One step along the boundary, turning clockwise at the neighbour.
    pub fn step_loop_cw(&self, node_id: u32, direction: Direction) -> (r: Option<
        (u32, Direction, u8),
    >)
        requires
            node_id < self@.len(),
        ensures
            match r {
                Some((nb, dir, rot)) => step_round(self@, node_id as int, direction.index(), 5, 1)
                    == Some((nb, dir.index(), rot as int)),
                None => step_round(self@, node_id as int, direction.index(), 5, 1) is None,
            },
    {
        self.step_loop(node_id, direction, true)
    }

    /// One step along the boundary, turning counter-clockwise at the neighbour.
    pub fn step_loop_ccw(&self, node_id: u32, direction: Direction) -> (r: Option<
        (u32, Direction, u8),
    >)
        requires
            node_id < self@.len(),
        ensures
            match r {
                Some((nb, dir, rot)) => step_round(self@, node_id as int, direction.index(), 1, 1)
                    == Some((nb, dir.index(), rot as int)),
                None => step_round(self@, node_id as int, direction.index(), 1, 1) is None,
            },
    {
        self.step_loop(node_id, direction, false)
    }

    /// Whether the invariants of the mesh hold of what node `node` holds in
    /// direction `dir`.
    fn check_link(&self, node: u32, dir: Direction) -> (ok: bool)
        requires
            node < self@.len(),
        ensures
            ok == node_valid(self@, node as int, dir.index()),
    {
        let _ = self.len();
        match self.neighbor(node, dir) {
            None => true,
            Some(nb) => {
                if nb == node {
                    return false;
                }
                if !same_node(self.neighbor(nb, dir.opposite()), node) {
                    return false;
                }
                match self.neighbor(node, dir.rotate_ccw()) {
                    Some(third) => same_node(self.neighbor(nb, dir.turned(2)), third),
                    None => true,
                }
            },
        }
    }

    /// The first link of which the invariants of the mesh do not hold, in
    /// order of node and then of direction: the node and the direction in
    /// which it holds the link. Nothing where the invariants hold.
    pub fn first_violation(&self) -> (r: Option<(u32, Direction)>)
        ensures
            match r {
                Some((a, dir)) => {
                    &&& a < self@.len()
                    &&& !node_valid(self@, a as int, dir.index())
                    &&& forall|x: int, d: int|
                        0 <= x < self@.len() && 0 <= d < 6 && (x < a || (x == a && d
                            < dir.index())) ==> #[trigger] node_valid(self@, x, d)
                },
                None => valid(self@),
            },
    {
        let n = self.len();
        let mut a: usize = 0;
        while a < n
            invariant
                a <= n,
                n == self@.len(),
                well_formed(self@),
                forall|x: int, d: int|
                    0 <= x < a && 0 <= d < 6 ==> #[trigger] node_valid(self@, x, d),
            decreases n - a,
        {
            if a <= u32::MAX as usize {
                let mut k: usize = 0;
                while k < 6
                    invariant
                        k <= 6,
                        a < n,
                        a <= u32::MAX,
                        n == self@.len(),
                        well_formed(self@),
                        forall|x: int, d: int|
                            0 <= x < a && 0 <= d < 6 ==> #[trigger] node_valid(self@, x, d),
                        forall|d: int| 0 <= d < k ==> #[trigger] node_valid(self@, a as int, d),
                    decreases 6 - k,
                {
                    let dir = Direction::from_ordinal(k);
                    if !self.check_link(a as u32, dir) {
                        return Some((a as u32, dir));
                    }
                    k += 1;
                }
            } else {
                assert forall|d: int| 0 <= d < 6 implies #[trigger] node_valid(
                    self@,
                    a as int,
                    d,
                ) by {
                    assert(link(self@, a as int, d) is None);
                }
            }
            a += 1;
        }
        proof {
            lemma_node_valid(self@);
        }
        None
    }

    /// Whether the invariants of the mesh hold: every link has its reverse,
    /// no node is linked to itself, and no corner is left open.
    pub fn validate(&self) -> (ok: bool)
        ensures
            ok == valid(self@),
    {
        let _ = self.len();
        let first = self.first_violation();
        proof {
            lemma_node_valid(self@);
        }
        first.is_none()
    }
}

/// The invariants of a mesh hold if and only if they hold of every link.
pub proof fn lemma_node_valid(m: Mesh)
    requires
        well_formed(m),
    ensures
        valid(m) <==> forall|a: int, d: int|
            0 <= a < m.len() && 0 <= d < 6 ==> #[trigger] node_valid(m, a, d),
{
    if valid(m) {
        assert forall|a: int, d: int| 0 <= a < m.len() && 0 <= d < 6 implies #[trigger] node_valid(
            m,
            a,
            d,
        ) by {
            if link(m, a, d) is Some {
                assert(linked(m, a, d));
            }
        }
    }
    if forall|a: int, d: int| 0 <= a < m.len() && 0 <= d < 6 ==> #[trigger] node_valid(m, a, d) {
        assert forall|a: int, d: int|
            0 <= a < m.len() && 0 <= d < 6 && (#[trigger] link(m, a, d)) is Some implies link(
            m,
            link(m, a, d).unwrap() as int,
            opp(d),
        ) == Some(a as u32) by {
            assert(node_valid(m, a, d));
        }
        assert forall|a: int, d: int| 0 <= a < m.len() && 0 <= d < 6 implies #[trigger] link(
            m,
            a,
            d,
        ) != Some(a as u32) by {
            assert(node_valid(m, a, d));
        }
        assert forall|a: int, d: int|
            0 <= a < m.len() && 0 <= d < 6 && #[trigger] linked(m, a, d) && linked(
                m,
                a,
                turn(d, 1),
            ) implies link(m, link(m, a, d).unwrap() as int, turn(d, 2)) == link(
            m,
            a,
            turn(d, 1),
        ) by {
            assert(node_valid(m, a, d));
        }
    }
}

/// Whether a slot holds the node `id`.
fn same_node(slot: Option<u32>, id: u32) -> (r: bool)
    ensures
        r == (slot == Some(id)),
{
    match slot {
        Some(x) => x == id,
        None => false,
    }
}

/// The invariants of the mesh hold of what node `a` holds in direction
/// `d`: the neighbour is another node, it holds `a` in the opposite
/// direction, and it holds what `a` holds in the next direction.
pub open spec fn node_valid(m: Mesh, a: int, d: int) -> bool {
    match link(m, a, d) {
        Some(b) => {
            &&& b != a
            &&& link(m, b as int, opp(d)) == Some(a as u32)
            &&& linked(m, a, turn(d, 1)) ==> link(m, b as int, turn(d, 2)) == link(
                m,
                a,
                turn(d, 1),
            )
        },
        None => true,
    }
}

} // verus!
