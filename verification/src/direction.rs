use vstd::prelude::*;

verus! {

/// One of the six directions in which a node of the triangular mesh can have a
/// neighbour, listed counter-clockwise starting at `RIGHT`.
#[allow(non_camel_case_types)]
#[derive(Copy, Clone, Debug, PartialEq, Eq, Structural)]
pub enum Direction {
    RIGHT,
    TOP_RIGHT,
    TOP_LEFT,
    LEFT,
    BOTTOM_LEFT,
    BOTTOM_RIGHT,
}

/// The direction index reached from index `d` by `k` counter-clockwise
/// steps, for up to eleven steps.
pub open spec fn turn(d: int, k: int) -> int {
    if d + k < 6 {
        d + k
    } else if d + k < 12 {
        d + k - 6
    } else {
        d + k - 12
    }
}

/// The index of the direction opposite to index `d`.
pub open spec fn opp(d: int) -> int {
    turn(d, 3)
}

/// The direction with the given index, `RIGHT` for indices outside `0..6`.
pub open spec fn direction_at(i: int) -> Direction {
    if i == 1 {
        Direction::TOP_RIGHT
    } else if i == 2 {
        Direction::TOP_LEFT
    } else if i == 3 {
        Direction::LEFT
    } else if i == 4 {
        Direction::BOTTOM_LEFT
    } else if i == 5 {
        Direction::BOTTOM_RIGHT
    } else {
        Direction::RIGHT
    }
}

/// The lattice offset of the direction with index `d`, in the skewed
/// coordinate system in which the two axes meet at sixty degrees.
pub open spec fn offset_of(d: int) -> (int, int) {
    if d == 0 {
        (1, 0)
    } else if d == 1 {
        (0, 1)
    } else if d == 2 {
        (-1, 1)
    } else if d == 3 {
        (-1, 0)
    } else if d == 4 {
        (0, -1)
    } else {
        (1, -1)
    }
}

impl Direction {
    /// Position of the direction in the counter-clockwise cycle, `0` for `RIGHT`.
    pub open spec fn index(self) -> int {
        match self {
            Direction::RIGHT => 0,
            Direction::TOP_RIGHT => 1,
            Direction::TOP_LEFT => 2,
            Direction::LEFT => 3,
            Direction::BOTTOM_LEFT => 4,
            Direction::BOTTOM_RIGHT => 5,
        }
    }

    /// The position of the direction in the cycle, as a machine integer.
    pub fn ordinal(self) -> (i: usize)
        ensures
            i == self.index(),
            i < 6,
    {
        match self {
            Direction::RIGHT => 0,
            Direction::TOP_RIGHT => 1,
            Direction::TOP_LEFT => 2,
            Direction::LEFT => 3,
            Direction::BOTTOM_LEFT => 4,
            Direction::BOTTOM_RIGHT => 5,
        }
    }

    /// The direction at position `i` of the cycle.
    pub fn from_ordinal(i: usize) -> (d: Direction)
        requires
            i < 6,
        ensures
            d.index() == i,
            d == direction_at(i as int),
    {
        if i == 0 {
            Direction::RIGHT
        } else if i == 1 {
            Direction::TOP_RIGHT
        } else if i == 2 {
            Direction::TOP_LEFT
        } else if i == 3 {
            Direction::LEFT
        } else if i == 4 {
            Direction::BOTTOM_LEFT
        } else {
            Direction::BOTTOM_RIGHT
        }
    }

    /// The direction reached by `k` counter-clockwise steps, for up to eleven steps.
    pub fn turned(self, k: usize) -> (r: Direction)
        requires
            k < 12,
        ensures
            r.index() == turn(self.index(), k as int),
    {
        Direction::from_ordinal((self.ordinal() + k) % 6)
    }

    /// The direction pointing the other way.
    pub fn opposite(self) -> (r: Direction)
        ensures
            r.index() == opp(self.index()),
    {
        Direction::from_ordinal((self.ordinal() + 3) % 6)
    }

    /// The next direction counter-clockwise.
    pub fn rotate_ccw(self) -> (r: Direction)
        ensures
            r.index() == turn(self.index(), 1),
    {
        Direction::from_ordinal((self.ordinal() + 1) % 6)
    }

    /// The next direction clockwise.
    pub fn rotate_cw(self) -> (r: Direction)
        ensures
            r.index() == turn(self.index(), 5),
    {
        Direction::from_ordinal((self.ordinal() + 5) % 6)
    }

    /// The step that the direction makes on the lattice.
    pub fn offset(&self) -> (o: (isize, isize))
        ensures
            o.0 == offset_of(self.index()).0,
            o.1 == offset_of(self.index()).1,
    {
        match self {
            Direction::RIGHT => (1, 0),
            Direction::TOP_RIGHT => (0, 1),
            Direction::TOP_LEFT => (-1, 1),
            Direction::LEFT => (-1, 0),
            Direction::BOTTOM_LEFT => (0, -1),
            Direction::BOTTOM_RIGHT => (1, -1),
        }
    }

    /// The name of the direction as a sequence of characters.
    pub open spec fn name(self) -> Seq<char> {
        match self {
            Direction::RIGHT => "RIGHT"@,
            Direction::TOP_RIGHT => "TOP_RIGHT"@,
            Direction::TOP_LEFT => "TOP_LEFT"@,
            Direction::LEFT => "LEFT"@,
            Direction::BOTTOM_LEFT => "BOTTOM_LEFT"@,
            Direction::BOTTOM_RIGHT => "BOTTOM_RIGHT"@,
        }
    }

    /// The name of the direction.
    pub fn as_str(&self) -> (s: &'static str)
        ensures
            s@ == self.name(),
    {
        match self {
            Direction::RIGHT => "RIGHT",
            Direction::TOP_RIGHT => "TOP_RIGHT",
            Direction::TOP_LEFT => "TOP_LEFT",
            Direction::LEFT => "LEFT",
            Direction::BOTTOM_LEFT => "BOTTOM_LEFT",
            Direction::BOTTOM_RIGHT => "BOTTOM_RIGHT",
        }
    }
}

} // verus!
