use vstd::prelude::*;
use crate::direction::offset_of;
use crate::mesh::{Mesh, link, linked, present};

verus! {

/// A node of a component with its place on the lattice: the two
/// coordinates, in the system in which the axes meet at sixty degrees, and
/// the number of the node.
pub type Placed = (i128, i128, u32);

/// The number of entries of `v` that are not set.
pub open spec fn unmarked(v: Seq<bool>) -> nat
    decreases v.len(),
{
    if v.len() == 0 {
        0
    } else {
        unmarked(v.drop_last()) + (if v.last() {
            0nat
        } else {
            1nat
        })
    }
}

/// Setting an entry that was not set leaves one entry less that is not set.
pub proof fn lemma_mark(v: Seq<bool>, i: int)
    requires
        0 <= i < v.len(),
        !v[i],
    ensures
        unmarked(v.update(i, true)) + 1 == unmarked(v),
        unmarked(v) <= v.len(),
    decreases v.len(),
{
    let w = v.update(i, true);
    if i == v.len() - 1 {
        assert(w.drop_last() =~= v.drop_last());
        lemma_unmarked_bound(v.drop_last());
    } else {
        assert(w.drop_last() =~= v.drop_last().update(i, true));
        lemma_mark(v.drop_last(), i);
    }
}

/// No more entries are unset than there are entries.
pub proof fn lemma_unmarked_bound(v: Seq<bool>)
    ensures
        unmarked(v) <= v.len(),
    decreases v.len(),
{
    if v.len() > 0 {
        lemma_unmarked_bound(v.drop_last());
    }
}

/// The bytes of which the picture of a mesh is made: digits, blanks, line
/// ends, and the strokes for the links to the right, the bottom left and the
/// bottom right.
pub open spec fn picture_byte(b: u8) -> bool {
    (48 <= b <= 57) || b == 32 || b == 10 || b == 45 || b == 47 || b == 92
}

/// Every byte of `s` is one of which pictures are made.
pub open spec fn picture_bytes(s: Seq<u8>) -> bool {
    forall|i: int| 0 <= i < s.len() ==> picture_byte(#[trigger] s[i])
}

/// The text that is made of the given bytes, each a character of its own.
pub open spec fn text_of(bytes: Seq<u8>) -> Seq<char> {
    Seq::new(bytes.len(), |i: int| bytes[i] as char)
}

/// As many blanks as `count` says, none where it is not positive.
pub open spec fn blanks(count: int) -> Seq<u8> {
    Seq::new(
        (if count > 0 {
            count
        } else {
            0
        }) as nat,
        |i: int| 32u8,
    )
}

/// The decimal digits of a number, the highest first.
pub open spec fn digits(id: nat) -> Seq<u8>
    decreases id,
{
    if id < 10 {
        seq![(48 + id) as u8]
    } else {
        digits(id / 10).push((48 + id % 10) as u8)
    }
}

/// The number of a node as it stands in the picture: its digits, centred
/// in three columns where they are fewer, with the odd blank to the right.
pub open spec fn centred(id: u32) -> Seq<u8> {
    if id < 10 {
        seq![32u8] + digits(id as nat) + seq![32u8]
    } else if id < 100 {
        digits(id as nat) + seq![32u8]
    } else {
        digits(id as nat)
    }
}

/// The byte `b` where there is a link to draw, a blank where not.
pub open spec fn stroke(there: bool, b: u8) -> u8 {
    if there {
        b
    } else {
        32
    }
}

/// The four columns of a node: in the upper line its number and the stroke
/// to the right, in the lower line the strokes to the bottom left and to
/// the bottom right.
pub open spec fn cell(m: Mesh, node: u32, upper: bool) -> Seq<u8> {
    if upper {
        centred(node).push(stroke(linked(m, node as int, 0), 45))
    } else {
        seq![
            stroke(linked(m, node as int, 4), 47),
            32u8,
            stroke(linked(m, node as int, 5), 92),
            32u8,
        ]
    }
}

/// The column in which a node stands, counted from `xmin`: four columns
/// for a step to the right, two for a step upwards.
pub open spec fn column(p: Placed, xmin: int) -> int {
    4 * p.0 + 2 * p.1 - xmin
}

/// One line of a row of the picture, from node `k` of the row on: every
/// node up to, not including, node `end`, in its column, with blanks in
/// front from column `xoff` on, and the line end.
pub open spec fn line_of(
    m: Mesh,
    nodes: Seq<Placed>,
    k: int,
    end: int,
    xmin: int,
    xoff: int,
    upper: bool,
) -> Seq<u8>
    decreases end - k,
{
    if k >= end {
        seq![10u8]
    } else {
        blanks(column(nodes[k], xmin) - xoff) + cell(m, nodes[k].2, upper) + line_of(
            m,
            nodes,
            k + 1,
            end,
            xmin,
            column(nodes[k], xmin) + 4,
            upper,
        )
    }
}

/// Where the row ends that holds the nodes at height `y` before `end`: at
/// the first node from `end` on that lies at another height.
pub open spec fn row_end(nodes: Seq<Placed>, y: i128, end: int) -> int
    decreases nodes.len() - end,
{
    if 0 <= end < nodes.len() && nodes[end].1 == y {
        row_end(nodes, y, end + 1)
    } else {
        end
    }
}

/// The rows of the picture of a component from node `row` on, which begins
/// a row: for each row its two lines; and an empty line at the end.
pub open spec fn rows_of(m: Mesh, nodes: Seq<Placed>, row: int, xmin: int) -> Seq<u8>
    decreases nodes.len() - row,
{
    if row < 0 || row >= nodes.len() {
        seq![10u8]
    } else if row < row_end(nodes, nodes[row].1, row + 1) <= nodes.len() {
        line_of(m, nodes, row, row_end(nodes, nodes[row].1, row + 1), xmin, 0, true) + line_of(
            m,
            nodes,
            row,
            row_end(nodes, nodes[row].1, row + 1),
            xmin,
            0,
            false,
        ) + rows_of(m, nodes, row_end(nodes, nodes[row].1, row + 1), xmin)
    } else {
        seq![10u8]
    }
}

/// One column to the left of the leftmost of the first `k` nodes.
pub open spec fn leftmost(nodes: Seq<Placed>, k: int) -> int
    decreases k,
{
    if k <= 0 {
        i128::MAX as int
    } else if 4 * nodes[k - 1].0 + 2 * nodes[k - 1].1 - 1 < leftmost(nodes, k - 1) {
        4 * nodes[k - 1].0 + 2 * nodes[k - 1].1 - 1
    } else {
        leftmost(nodes, k - 1)
    }
}

/// The picture of one component, given its nodes in the order of the
/// picture: its rows, the leftmost node one column from the left.
pub open spec fn component_picture(m: Mesh, nodes: Seq<Placed>) -> Seq<u8> {
    rows_of(m, nodes, 0, leftmost(nodes, nodes.len() as int))
}

/// Node `a` comes before node `b` in the picture: it lies higher, or as
/// high and further left.
pub open spec fn draws_before(a: Placed, b: Placed) -> bool {
    a.1 > b.1 || (a.1 == b.1 && a.0 + a.1 < b.0 + b.1)
}

/// The list `sorted` with the node `e` put in: behind every node that it
/// does not come before, and so behind every node at the same place.
pub open spec fn placed_in(sorted: Seq<Placed>, e: Placed) -> Seq<Placed>
    decreases sorted.len(),
{
    if sorted.len() == 0 {
        sorted.push(e)
    } else if draws_before(e, sorted.last()) {
        placed_in(sorted.drop_last(), e).push(sorted.last())
    } else {
        sorted.push(e)
    }
}

/// The nodes of `s` in the order of the picture: rows from the top, each
/// from the left, and nodes at the same place in the order they have in `s`.
pub open spec fn arranged(s: Seq<Placed>) -> Seq<Placed>
    decreases s.len(),
{
    if s.len() == 0 {
        s
    } else {
        placed_in(arranged(s.drop_last()), s.last())
    }
}

/// Every node of the list lies within `bound` steps of the origin, and is
/// a node of a mesh of `n` nodes.
pub open spec fn within(nodes: Seq<Placed>, bound: int, n: nat) -> bool {
    forall|i: int|
        0 <= i < nodes.len() ==> -bound <= (#[trigger] nodes[i]).0 <= bound && -bound
            <= nodes[i].1 <= bound && nodes[i].2 < n
}

/// What the search has to follow, and what it has met, after it looked from
/// `node`, which stands at `x` and `y`, in the directions from `k` on: each
/// neighbour that was not met before is marked and put on top of the nodes
/// to follow, with its place.
pub open spec fn spread(
    m: Mesh,
    node: u32,
    x: i128,
    y: i128,
    k: int,
    stack: Seq<Placed>,
    visited: Seq<bool>,
) -> (Seq<Placed>, Seq<bool>)
    decreases 6 - k,
{
    if k < 0 || k >= 6 {
        (stack, visited)
    } else {
        match link(m, node as int, k) {
            Some(nb) => if nb < visited.len() && !visited[nb as int] {
                spread(
                    m,
                    node,
                    x,
                    y,
                    k + 1,
                    stack.push(((x + offset_of(k).0) as i128, (y + offset_of(k).1) as i128, nb)),
                    visited.update(nb as int, true),
                )
            } else {
                spread(m, node, x, y, k + 1, stack, visited)
            },
            None => spread(m, node, x, y, k + 1, stack, visited),
        }
    }
}

/// The nodes that the search finds, in the order in which it finds them,
/// and the nodes that it has met: the search takes the node on top of
/// `stack`, adds it to those `found`, looks round from it, and goes on until
/// there is no node left to follow.
pub open spec fn searched(m: Mesh, stack: Seq<Placed>, visited: Seq<bool>, found: Seq<Placed>) -> (
    Seq<Placed>,
    Seq<bool>,
)
    decreases stack.len() + unmarked(visited),
{
    if stack.len() == 0 {
        (found, visited)
    } else {
        let top = stack.last();
        let next = spread(m, top.2, top.0, top.1, 0, stack.drop_last(), visited);
        if next.0.len() + unmarked(next.1) < stack.len() + unmarked(visited) {
            searched(m, next.0, next.1, found.push(top))
        } else {
            (found.push(top), next.1)
        }
    }
}

/// The nodes of the component of node `start`, each with its place
/// relative to `start`, in the order in which the search finds them, and
/// the nodes met, given those that were met before.
pub open spec fn component_of(m: Mesh, start: u32, visited: Seq<bool>) -> (Seq<Placed>, Seq<bool>) {
    searched(m, seq![(0i128, 0i128, start)], visited, Seq::empty())
}

/// The pictures of the components that begin at a node from `start` on, one
/// after the other, given the nodes that were met before.
pub open spec fn drawn(m: Mesh, start: int, visited: Seq<bool>) -> Seq<u8>
    decreases m.len() - start,
{
    if start < 0 || start >= m.len() {
        Seq::empty()
    } else if start <= u32::MAX && !visited[start] && present(m, start) {
        component_picture(
            m,
            arranged(component_of(m, start as u32, visited.update(start, true)).0),
        ) + drawn(m, start + 1, component_of(m, start as u32, visited.update(start, true)).1)
    } else {
        drawn(m, start + 1, visited.update(start, true))
    }
}

/// The picture of a mesh in bytes: the pictures of its components, in
/// order of the lowest number in each.
pub open spec fn picture(m: Mesh) -> Seq<u8> {
    drawn(m, 0, Seq::new(m.len(), |i: int| false))
}

} // verus!
