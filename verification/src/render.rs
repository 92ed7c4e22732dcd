use vstd::prelude::*;
use crate::direction::Direction;
use crate::lattice::Lattice;
use crate::mesh::{present, well_formed};
use crate::picture::{
    Placed, arranged, blanks, cell, centred, column, component_of, component_picture, digits,
    draws_before, drawn, leftmost, lemma_mark, lemma_unmarked_bound, line_of, picture,
    picture_bytes, placed_in, row_end, rows_of, searched, spread, stroke, text_of,
    unmarked, within,
};

verus! {

/// `String::from_utf8` on bytes below 128, each of which is a character
/// of its own in UTF-8: it succeeds, with the text made of these characters.
#[verifier::external_body]
fn ascii_text(bytes: Vec<u8>) -> (r: Option<String>)
    requires
        forall|i: int| 0 <= i < bytes@.len() ==> bytes@[i] < 128,
    ensures
        r is Some,
        r.unwrap()@ == text_of(bytes@),
{
    match String::from_utf8(bytes) {
        Ok(s) => Some(s),
        Err(_) => None,
    }
}

/// Appends `count` blanks, none where `count` is not positive.
fn push_blanks(out: &mut Vec<u8>, count: i128)
    requires
        picture_bytes(old(out)@),
    ensures
        final(out)@ == old(out)@ + blanks(count as int),
        picture_bytes(final(out)@),
        final(out)@.len() >= old(out)@.len(),
{
    let mut k: i128 = 0;
    assert(out@ =~= old(out)@ + blanks(0));
    while k < count
        invariant
            0 <= k,
            k <= count || k == 0,
            out@ == old(out)@ + blanks(k as int),
            picture_bytes(out@),
            out@.len() >= old(out)@.len(),
        decreases count - k,
    {
        out.push(32);
        assert(out@ =~= old(out)@ + blanks(k + 1));
        k += 1;
    }
    assert(blanks(k as int) =~= blanks(count as int));
}

/// Appends the decimal digits of the number `id`, the highest first.
fn push_digits(out: &mut Vec<u8>, id: u32)
    requires
        picture_bytes(old(out)@),
    ensures
        final(out)@ == old(out)@ + digits(id as nat),
        picture_bytes(final(out)@),
    decreases id,
{
    if id >= 10 {
        push_digits(out, id / 10);
    }
    out.push(48 + (id % 10) as u8);
    assert(out@ =~= old(out)@ + digits(id as nat));
}

/// Appends the number `id` in decimal digits, centred in three columns
/// where it has fewer digits, with the odd blank to the right.
fn push_number(out: &mut Vec<u8>, id: u32)
    requires
        picture_bytes(old(out)@),
    ensures
        final(out)@ == old(out)@ + centred(id),
        picture_bytes(final(out)@),
{
    if id < 10 {
        out.push(32);
    }
    push_digits(out, id);
    if id < 100 {
        out.push(32);
    }
    assert(out@ =~= old(out)@ + centred(id));
}

/// Whether node `a` comes before node `b` in the picture: it lies higher,
/// or as high and further left.
fn drawn_before(a: &Placed, b: &Placed) -> (r: bool)
    requires
        -0x1_0000_0000_0000_0000 <= a.0 <= 0x1_0000_0000_0000_0000,
        -0x1_0000_0000_0000_0000 <= a.1 <= 0x1_0000_0000_0000_0000,
        -0x1_0000_0000_0000_0000 <= b.0 <= 0x1_0000_0000_0000_0000,
        -0x1_0000_0000_0000_0000 <= b.1 <= 0x1_0000_0000_0000_0000,
    ensures
        r == draws_before(*a, *b),
{
    a.1 > b.1 || (a.1 == b.1 && a.0 + a.1 < b.0 + b.1)
}

/// Brings the nodes of a component into the order of the picture: rows
/// from the top, each from the left. Nodes at the same place keep their order.
fn arrange(nodes: &mut Vec<Placed>, Ghost(n): Ghost<nat>)
    requires
        within(old(nodes)@, 0x1_0000_0000_0000_0000, n),
    ensures
        final(nodes)@ == arranged(old(nodes)@),
        within(final(nodes)@, 0x1_0000_0000_0000_0000, n),
        final(nodes)@.len() == old(nodes)@.len(),
{
    let len = nodes.len();
    let ghost start = nodes@;
    if len == 0 {
        return ;
    }
    let mut i: usize = 1;
    proof {
        let one = start.take(1);
        assert(one.drop_last() =~= Seq::<Placed>::empty());
        assert(arranged(one.drop_last()) =~= Seq::<Placed>::empty());
        assert(nodes@.take(1) =~= arranged(one));
    }
    while i < len
        invariant
            1 <= i <= len,
            len == nodes@.len(),
            len == start.len(),
            within(nodes@, 0x1_0000_0000_0000_0000, n),
            nodes@.take(i as int) == arranged(start.take(i as int)),
            nodes@.skip(i as int) == start.skip(i as int),
        decreases len - i,
    {
        let ghost sorted = nodes@.take(i as int);
        let ghost e = nodes@[i as int];
        let mut j: usize = i;
        let mut going = true;
        proof {
            assert(e == start.skip(i as int)[0]);
            assert(sorted.take(i as int) =~= sorted);
            assert(nodes@.take(i + 1) =~= sorted.take(i as int).push(e) + sorted.skip(i as int));
            assert(placed_in(sorted.take(i as int), e) + sorted.skip(i as int) =~= placed_in(
                sorted,
                e,
            ));
            assert(nodes@.skip(i + 1) =~= start.skip(i + 1)) by {
                assert forall|k: int| 0 <= k < len - i - 1 implies #[trigger] nodes@.skip(
                    i + 1,
                )[k] == start.skip(i + 1)[k] by {
                    assert(nodes@.skip(i as int)[k + 1] == start.skip(i as int)[k + 1]);
                }
            }
        }
        while going && j > 0
            invariant
                j <= i < len,
                len == nodes@.len(),
                len == start.len(),
                sorted.len() == i,
                within(nodes@, 0x1_0000_0000_0000_0000, n),
                nodes@[j as int] == e,
                nodes@.take(i + 1) == sorted.take(j as int).push(e) + sorted.skip(j as int),
                nodes@.skip(i + 1) == start.skip(i + 1),
                placed_in(sorted, e) == placed_in(sorted.take(j as int), e) + sorted.skip(
                    j as int,
                ),
                !going ==> placed_in(sorted.take(j as int), e) == sorted.take(j as int).push(e),
            decreases (if going { 1int } else { 0int }), j,
        {
            let cur = nodes[j];
            let prev = nodes[j - 1];
            let ghost before = nodes@;
            proof {
                assert(before.take(i + 1)[j - 1] == sorted[j - 1]);
                assert(prev == sorted[j - 1]);
                assert(sorted.take(j as int).last() == sorted[j - 1]);
                assert(sorted.take(j as int).drop_last() =~= sorted.take(j - 1));
            }
            if drawn_before(&cur, &prev) {
                nodes[j] = prev;
                nodes[j - 1] = cur;
                proof {
                    assert(nodes@.take(i + 1) =~= sorted.take(j - 1).push(e) + sorted.skip(j - 1)) by {
                        assert forall|k: int| 0 <= k < i + 1 implies #[trigger] nodes@.take(
                            i + 1,
                        )[k] == (sorted.take(j - 1).push(e) + sorted.skip(j - 1))[k] by {
                            if k != j && k != j - 1 {
                                assert(nodes@[k] == before[k]);
                                assert(before.take(i + 1)[k] == before[k]);
                            }
                        }
                    }
                    assert(nodes@.skip(i + 1) =~= start.skip(i + 1)) by {
                        assert forall|k: int| 0 <= k < len - i - 1 implies #[trigger] nodes@.skip(
                            i + 1,
                        )[k] == start.skip(i + 1)[k] by {
                            assert(before.skip(i + 1)[k] == start.skip(i + 1)[k]);
                        }
                    }
                    assert(placed_in(sorted.take(j as int), e) == placed_in(
                        sorted.take(j - 1),
                        e,
                    ).push(sorted[j - 1]));
                    assert(placed_in(sorted.take(j - 1), e).push(sorted[j - 1]) + sorted.skip(
                        j as int,
                    ) =~= placed_in(sorted.take(j - 1), e) + sorted.skip(j - 1));
                }
                j -= 1;
            } else {
                going = false;
            }
        }
        proof {
            if j == 0 {
                assert(sorted.take(0) =~= Seq::<Placed>::empty());
            }
            assert(nodes@.take(i + 1) == placed_in(sorted, e));
            let upto = start.take(i + 1);
            assert(upto.drop_last() =~= start.take(i as int));
            assert(upto.last() == e);
            assert(arranged(upto) == placed_in(arranged(start.take(i as int)), e));
        }
        i += 1;
    }
    proof {
        assert(nodes@.take(len as int) =~= nodes@);
        assert(start.take(len as int) =~= start);
    }
}

impl Lattice {
    /// The nodes of the component of node `start`, each with its place
    /// relative to `start`, in the order in which a search that follows
    /// the last node found first finds them. `visited` marks the nodes that
    /// were met.
    fn component(&self, start: u32, visited: &mut Vec<bool>) -> (nodes: Vec<Placed>)
        requires
            start < self@.len(),
            old(visited)@.len() == self@.len(),
            self@.len() <= 0x1_0000_0000_0000_0000,
        ensures
            (nodes@, final(visited)@) == component_of(self@, start, old(visited)@),
            final(visited)@.len() == self@.len(),
            within(nodes@, self@.len() as int, self@.len()),
            nodes@.len() >= 1,
            forall|i: int|
                0 <= i < self@.len() && old(visited)@[i] ==> #[trigger] final(visited)@[i],
    {
        let n = self.len();
        let mut nodes: Vec<Placed> = Vec::new();
        let mut stack: Vec<Placed> = Vec::new();
        stack.push((0, 0, start));
        let mut first = true;
        let ghost goal = component_of(self@, start, visited@);
        proof {
            lemma_unmarked_bound(visited@);
            assert(stack@ =~= seq![(0i128, 0i128, start)]);
            assert(nodes@ =~= Seq::<Placed>::empty());
        }
        while stack.len() > 0
            invariant
                n == self@.len(),
                n <= 0x1_0000_0000_0000_0000,
                well_formed(self@),
                visited@.len() == n,
                unmarked(visited@) <= n,
                within(stack@, n - unmarked(visited@), n as nat),
                within(nodes@, n - unmarked(visited@), n as nat),
                !first ==> nodes@.len() >= 1,
                first ==> stack@.len() == 1,
                forall|i: int| 0 <= i < n && old(visited)@[i] ==> #[trigger] visited@[i],
                searched(self@, stack@, visited@, nodes@) == goal,
            decreases stack@.len() + unmarked(visited@),
        {
            let ghost whole = stack@;
            let ghost below = stack@.drop_last();
            let ghost met = visited@;
            let ghost found = nodes@;
            let (x, y, node) = stack.pop().unwrap();
            nodes.push((x, y, node));
            first = false;
            let ghost left = unmarked(visited@);
            let ghost height = stack@.len();
            let ghost target = spread(self@, node, x, y, 0, below, met);
            assert(stack@ == below);
            let mut k: usize = 0;
            while k < 6
                invariant
                    k <= 6,
                    node < n,
                    n == self@.len(),
                    n <= 0x1_0000_0000_0000_0000,
                    well_formed(self@),
                    visited@.len() == n,
                    unmarked(visited@) <= n,
                    -(n - unmarked(visited@)) <= x <= n - unmarked(visited@),
                    -(n - unmarked(visited@)) <= y <= n - unmarked(visited@),
                    within(stack@, n - unmarked(visited@), n as nat),
                    within(nodes@, n - unmarked(visited@), n as nat),
                    nodes@.len() >= 1,
                    forall|i: int| 0 <= i < n && old(visited)@[i] ==> #[trigger] visited@[i],
                    stack@.len() + unmarked(visited@) == height + left,
                    spread(self@, node, x, y, k as int, stack@, visited@) == target,
                decreases 6 - k,
            {
                let dir = Direction::from_ordinal(k);
                if let Some(nb) = self.neighbor(node, dir) {
                    if !visited[nb as usize] {
                        proof {
                            lemma_mark(visited@, nb as int);
                        }
                        visited[nb as usize] = true;
                        let (dx, dy) = dir.offset();
                        stack.push((x + dx as i128, y + dy as i128, nb));
                    }
                }
                k += 1;
            }
            proof {
                assert(whole.last() == (x, y, node));
                assert(target == (stack@, visited@));
                assert(nodes@ == found.push((x, y, node)));
                assert(searched(self@, whole, met, found) == searched(
                    self@,
                    stack@,
                    visited@,
                    nodes@,
                ));
            }
        }
        nodes
    }

    /// One line of a row of the picture of a component: the nodes from
    /// `row` up to, not including, `end`, each in its column; their numbers
    /// and the strokes to the right if `upper` is set, the strokes to the
    /// bottom left and the bottom right if not.
    fn draw_line(
        &self,
        nodes: &Vec<Placed>,
        row: usize,
        end: usize,
        xmin: i128,
        upper: bool,
        out: &mut Vec<u8>,
    )
        requires
            row <= end <= nodes@.len(),
            within(nodes@, 0x1_0000_0000_0000_0000, self@.len()),
            -0x7_0000_0000_0000_0000 <= xmin <= 0x7_0000_0000_0000_0000,
            forall|k: int|
                0 <= k < nodes@.len() ==> xmin <= 4 * (#[trigger] nodes@[k]).0 + 2 * nodes@[k].1
                    - 1,
            picture_bytes(old(out)@),
        ensures
            final(out)@ == old(out)@ + line_of(
                self@,
                nodes@,
                row as int,
                end as int,
                xmin as int,
                0,
                upper,
            ),
            picture_bytes(final(out)@),
    {
        let ghost line = line_of(self@, nodes@, row as int, end as int, xmin as int, 0, upper);
        let mut xoff: i128 = 0;
        let mut k: usize = row;
        assert(out@ + line =~= old(out)@ + line);
        while k < end
            invariant
                row <= k <= end <= nodes@.len(),
                within(nodes@, 0x1_0000_0000_0000_0000, self@.len()),
                picture_bytes(out@),
                forall|q: int|
                    0 <= q < nodes@.len() ==> xmin <= 4 * (#[trigger] nodes@[q]).0 + 2
                        * nodes@[q].1 - 1,
                -0x7_0000_0000_0000_0000 <= xmin <= 0x7_0000_0000_0000_0000,
                0 <= xoff <= 0x10_0000_0000_0000_0000,
                out@ + line_of(self@, nodes@, k as int, end as int, xmin as int, xoff as int, upper)
                    == old(out)@ + line,
            decreases end - k,
        {
            let ghost before = out@;
            let ghost rest = line_of(
                self@,
                nodes@,
                k + 1,
                end as int,
                xmin as int,
                column(nodes@[k as int], xmin as int) + 4,
                upper,
            );
            let (ix, iy, node) = nodes[k];
            let x = ix * 4 + 2 * iy - xmin;
            assert(x == column(nodes@[k as int], xmin as int));
            push_blanks(out, x - xoff);
            if upper {
                push_number(out, node);
                if self.neighbor(node, Direction::RIGHT).is_some() {
                    out.push(45);
                } else {
                    out.push(32);
                }
            } else {
                if self.neighbor(node, Direction::BOTTOM_LEFT).is_some() {
                    out.push(47);
                } else {
                    out.push(32);
                }
                out.push(32);
                if self.neighbor(node, Direction::BOTTOM_RIGHT).is_some() {
                    out.push(92);
                } else {
                    out.push(32);
                }
                out.push(32);
            }
            proof {
                assert(out@ =~= before + blanks(x - xoff) + cell(self@, node, upper));
                assert(out@ + rest =~= before + (blanks(x - xoff) + cell(self@, node, upper)
                    + rest));
            }
            xoff = x + 4;
            k += 1;
        }
        let ghost before = out@;
        out.push(10);
        assert(out@ =~= before + seq![10u8]);
    }

    /// The picture of one component, given its nodes in the order of the
    /// picture: for each row of nodes a line with their numbers, with a
    /// stroke after each that has a neighbour to the right, then a line with
    /// the strokes to the neighbours at the bottom left and bottom right;
    /// and an empty line at the end.
    fn draw_component(&self, nodes: &Vec<Placed>, out: &mut Vec<u8>)
        requires
            within(nodes@, 0x1_0000_0000_0000_0000, self@.len()),
            nodes@.len() >= 1,
            picture_bytes(old(out)@),
        ensures
            final(out)@ == old(out)@ + component_picture(self@, nodes@),
            picture_bytes(final(out)@),
            final(out)@.len() > old(out)@.len(),
    {
        let len = nodes.len();
        let mut xmin: i128 = i128::MAX;
        let mut i: usize = 0;
        while i < len
            invariant
                i <= len,
                len == nodes@.len(),
                within(nodes@, 0x1_0000_0000_0000_0000, self@.len()),
                xmin == leftmost(nodes@, i as int),
                i == 0 ==> xmin == i128::MAX,
                i > 0 ==> -0x7_0000_0000_0000_0000 <= xmin <= 0x7_0000_0000_0000_0000,
                forall|k: int|
                    0 <= k < i ==> xmin <= 4 * (#[trigger] nodes@[k]).0 + 2 * nodes@[k].1 - 1,
            decreases len - i,
        {
            assert(-0x1_0000_0000_0000_0000 <= nodes@[i as int].0 <= 0x1_0000_0000_0000_0000);
            assert(-0x1_0000_0000_0000_0000 <= nodes@[i as int].1 <= 0x1_0000_0000_0000_0000);
            let at = nodes[i].0 * 4 + 2 * nodes[i].1 - 1;
            assert(-0x7_0000_0000_0000_0000 <= at <= 0x7_0000_0000_0000_0000);
            if at < xmin {
                xmin = at;
            }
            i += 1;
        }
        let ghost whole = component_picture(self@, nodes@);
        let mut row: usize = 0;
        assert(out@ + rows_of(self@, nodes@, 0, xmin as int) =~= old(out)@ + whole);
        while row < len
            invariant
                row <= len,
                len == nodes@.len(),
                within(nodes@, 0x1_0000_0000_0000_0000, self@.len()),
                picture_bytes(out@),
                out@.len() >= old(out)@.len(),
                forall|k: int|
                    0 <= k < len ==> xmin <= 4 * (#[trigger] nodes@[k]).0 + 2 * nodes@[k].1 - 1,
                -0x7_0000_0000_0000_0000 <= xmin <= 0x7_0000_0000_0000_0000,
                out@ + rows_of(self@, nodes@, row as int, xmin as int) == old(out)@ + whole,
            decreases len - row,
        {
            let y = nodes[row].1;
            let mut end: usize = row + 1;
            while end < len && nodes[end].1 == y
                invariant
                    row < end <= len,
                    len == nodes@.len(),
                    row_end(nodes@, y, end as int) == row_end(nodes@, y, row + 1),
                decreases len - end,
            {
                end += 1;
            }
            assert(row_end(nodes@, y, row + 1) == end);
            let ghost before = out@;
            let ghost first = line_of(self@, nodes@, row as int, end as int, xmin as int, 0, true);
            let ghost second = line_of(
                self@,
                nodes@,
                row as int,
                end as int,
                xmin as int,
                0,
                false,
            );
            let ghost rest = rows_of(self@, nodes@, end as int, xmin as int);
            assert(rows_of(self@, nodes@, row as int, xmin as int) == first + second + rest);
            self.draw_line(nodes, row, end, xmin, true, out);
            self.draw_line(nodes, row, end, xmin, false, out);
            assert(out@ + rest =~= before + (first + second + rest));
            row = end;
        }
        let ghost before = out@;
        out.push(10);
        assert(out@ =~= before + seq![10u8]);
    }

    /// The picture of the mesh in bytes: the pictures of its components,
    /// in order of the lowest number in each. A mesh without links has an
    /// empty picture.
    pub fn draw(&self) -> (out: Vec<u8>)
        ensures
            out@ == picture(self@),
            picture_bytes(out@),
            out@.len() == 0 <==> forall|a: int| 0 <= a < self@.len() ==> !present(self@, a),
    {
        let n = self.len();
        let mut out: Vec<u8> = Vec::new();
        let mut visited: Vec<bool> = Vec::new();
        let mut i: usize = 0;
        while i < n
            invariant
                i <= n,
                visited@.len() == i,
                forall|a: int| 0 <= a < i ==> !#[trigger] visited@[a],
            decreases n - i,
        {
            visited.push(false);
            i += 1;
        }
        let mut start: usize = 0;
        proof {
            assert(visited@ =~= Seq::new(n as nat, |i: int| false));
            assert(out@ + drawn(self@, 0, visited@) =~= picture(self@));
        }
        while start < n
            invariant
                start <= n,
                n == self@.len(),
                well_formed(self@),
                visited@.len() == n,
                picture_bytes(out@),
                out@.len() == 0 <==> forall|a: int| 0 <= a < start ==> !present(self@, a),
                out@.len() == 0 ==> forall|a: int| start <= a < n ==> !#[trigger] visited@[a],
                out@ + drawn(self@, start as int, visited@) == picture(self@),
            decreases n - start,
        {
            let ghost before = out@;
            let ghost met = visited@;
            let was = visited[start];
            visited[start] = true;
            let ghost marked = visited@;
            assert(marked == met.update(start as int, true));
            if start <= u32::MAX as usize && !was && self.contains(start as u32) {
                let mut nodes = self.component(start as u32, &mut visited);
                arrange(&mut nodes, Ghost(n as nat));
                self.draw_component(&nodes, &mut out);
                proof {
                    let found = component_of(self@, start as u32, marked);
                    let one = component_picture(self@, arranged(found.0));
                    let rest = drawn(self@, start + 1, found.1);
                    assert(drawn(self@, start as int, met) == one + rest);
                    assert(out@ + rest =~= before + (one + rest));
                }
            } else {
                proof {
                    if start > u32::MAX {
                        assert(!present(self@, start as int));
                    }
                    assert(drawn(self@, start as int, met) == drawn(self@, start + 1, marked));
                }
            }
            start += 1;
        }
        assert(out@ + drawn(self@, n as int, visited@) =~= out@);
        out
    }

    /// The picture of the mesh as text. Each component is drawn on the
    /// lattice with the axes at sixty degrees: a line with the numbers of
    /// the nodes of a row, a stroke after each that has a neighbour to the
    /// right, then a line with the strokes to the neighbours below.
    pub fn to_string(&self) -> (s: String)
        ensures
            s@ == text_of(picture(self@)),
            s@.len() == 0 <==> forall|a: int| 0 <= a < self@.len() ==> !present(self@, a),
    {
        let bytes = self.draw();
        match ascii_text(bytes) {
            Some(s) => s,
            None => String::new(),
        }
    }
}

} // verus!
