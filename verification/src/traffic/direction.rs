//! The four sides of the intersection and the three ways through it.

use vstd::prelude::*;

verus! {

/// A side of the intersection: the one a car enters from, or the one it leaves
/// by. The sides are numbered clockwise from the north.
#[derive(Clone, Copy, Debug, PartialEq, Eq, Structural)]
pub enum Direction {
    North,
    East,
    South,
    West,
}

/// What a car does at the intersection.
#[derive(Clone, Copy, Debug, PartialEq, Eq, Structural)]
pub enum Going {
    Straight,
    Right,
    Left,
}

impl Going {
    /// The number by which the queues of a line are indexed.
    pub open spec fn ordinal(self) -> int {
        match self {
            Going::Straight => 0,
            Going::Right => 1,
            Going::Left => 2,
        }
    }

    /// How many sides further, clockwise, a car leaves than it entered.
    pub open spec fn quarter_turns(self) -> int {
        match self {
            Going::Left => 1,
            Going::Straight => 2,
            Going::Right => 3,
        }
    }

    /// The ordinal, as an index.
    pub fn index(self) -> (i: usize)
        ensures
            i == self.ordinal(),
            i < 3,
    {
        match self {
            Going::Straight => 0,
            Going::Right => 1,
            Going::Left => 2,
        }
    }
}

impl Direction {
    /// The number of the side, clockwise from the north.
    pub open spec fn ordinal(self) -> int {
        match self {
            Direction::North => 0,
            Direction::East => 1,
            Direction::South => 2,
            Direction::West => 3,
        }
    }

    /// The side with the given number.
    pub open spec fn of_ordinal(n: int) -> Direction {
        if n == 0 {
            Direction::North
        } else if n == 1 {
            Direction::East
        } else if n == 2 {
            Direction::South
        } else {
            Direction::West
        }
    }

    /// The side that lies `quarters` sides further clockwise.
    pub open spec fn turned(self, quarters: int) -> Direction {
        Direction::of_ordinal((self.ordinal() + quarters) % 4)
    }

    /// The side by which a car leaves that entered from `self` and goes
    /// `going_to`.
    pub open spec fn spec_destination(&self, going_to: Going) -> Direction {
        self.turned(going_to.quarter_turns())
    }

    /// The ordinal, as an index.
    pub fn index(self) -> (i: usize)
        ensures
            i == self.ordinal(),
            i < 4,
    {
        match self {
            Direction::North => 0,
            Direction::East => 1,
            Direction::South => 2,
            Direction::West => 3,
        }
    }

    /// The side by which a car leaves that entered from `self` and goes
    /// `going_to`.
    #[verifier::when_used_as_spec(spec_destination)]
    pub fn destination(&self, going_to: Going) -> (exit: Direction)
        ensures
            exit == self.spec_destination(going_to),
    {
        match (*self, going_to) {
            (Direction::North, Going::Straight) => Direction::South,
            (Direction::North, Going::Left) => Direction::East,
            (Direction::North, Going::Right) => Direction::West,
            (Direction::East, Going::Straight) => Direction::West,
            (Direction::East, Going::Left) => Direction::South,
            (Direction::East, Going::Right) => Direction::North,
            (Direction::South, Going::Straight) => Direction::North,
            (Direction::South, Going::Left) => Direction::West,
            (Direction::South, Going::Right) => Direction::East,
            (Direction::West, Going::Straight) => Direction::East,
            (Direction::West, Going::Left) => Direction::North,
            (Direction::West, Going::Right) => Direction::South,
        }
    }
}

/// A side is the side of its number.
pub proof fn lemma_ordinal_round_trip(d: Direction)
    ensures
        0 <= d.ordinal() < 4,
        Direction::of_ordinal(d.ordinal()) == d,
{
}

/// Four turns of the same kind, left or right, lead back to the side they
/// started from.
pub proof fn lemma_four_turns_return(d: Direction, going_to: Going)
    requires
        going_to == Going::Left || going_to == Going::Right,
    ensures
        d.destination(going_to).destination(going_to).destination(going_to).destination(going_to)
            == d,
{
}

/// Going straight twice leads back to the side one started from.
pub proof fn lemma_straight_twice_returns(d: Direction)
    ensures
        d.destination(Going::Straight).destination(Going::Straight) == d,
{
}

/// Going straight leads to the opposite side, and a left and a right turn
/// from the same side lead to opposite sides.
pub proof fn lemma_destinations_differ(d: Direction)
    ensures
        d.destination(Going::Straight) != d,
        d.destination(Going::Left) != d,
        d.destination(Going::Right) != d,
        d.destination(Going::Left) == d.destination(Going::Right).destination(Going::Straight),
{
}

/// A right turn undoes a left turn.
pub proof fn lemma_right_undoes_left(d: Direction)
    ensures
        d.destination(Going::Left).destination(Going::Right) == d,
        d.destination(Going::Right).destination(Going::Left) == d,
{
}

} // verus!
