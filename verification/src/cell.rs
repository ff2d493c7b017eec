//! Directions and the states a grid position can hold.

use vstd::prelude::*;

verus! {

/// One of the four unit steps on the grid. The x axis grows to the right and
/// the y axis grows downwards, so `Up` is the step `(0, -1)`.
#[derive(Clone, Copy, Debug, PartialEq, Eq, Structural)]
pub enum Direction {
    Up,
    Down,
    Left,
    Right,
}

impl Direction {
    /// Horizontal component of the step.
    pub open spec fn dx(self) -> int {
        match self {
            Direction::Up => 0,
            Direction::Down => 0,
            Direction::Left => -1,
            Direction::Right => 1,
        }
    }

    /// Vertical component of the step.
    pub open spec fn dy(self) -> int {
        match self {
            Direction::Up => -1,
            Direction::Down => 1,
            Direction::Left => 0,
            Direction::Right => 0,
        }
    }

    /// The step as a `(dx, dy)` pair: exactly one component is non-zero, and
    /// it is `1` or `-1`.
    pub fn delta(self) -> (d: (isize, isize))
        ensures
            d.0 == self.dx(),
            d.1 == self.dy(),
            (d.0 == 0) != (d.1 == 0),
            -1 <= d.0 <= 1,
            -1 <= d.1 <= 1,
    {
        match self {
            Direction::Up => (0, -1),
            Direction::Down => (0, 1),
            Direction::Left => (-1, 0),
            Direction::Right => (1, 0),
        }
    }
}

/// The four directions in the order in which they are listed before they
/// are shuffled.
pub open spec fn compass() -> Seq<Direction> {
    seq![Direction::Up, Direction::Down, Direction::Left, Direction::Right]
}

/// The directions a walk tries, given the shuffled compass and the outcome of
/// the momentum draw: with momentum and a previous direction, that direction
/// alone; otherwise the shuffled compass.
pub open spec fn candidate_list(
    shuffled: Seq<Direction>,
    momentum: bool,
    prev_direction: Option<Direction>,
) -> Seq<Direction> {
    if momentum && prev_direction is Some {
        seq![prev_direction->0]
    } else {
        shuffled
    }
}

/// Any reordering of the compass still holds every direction.
pub proof fn lemma_shuffled_compass_is_complete(shuffled: Seq<Direction>)
    requires
        shuffled.to_multiset() == compass().to_multiset(),
    ensures
        forall|d: Direction| shuffled.contains(d),
{
    shuffled.to_multiset_ensures();
    compass().to_multiset_ensures();
    assert forall|d: Direction| shuffled.contains(d) by {
        match d {
            Direction::Up => assert(compass()[0] == d),
            Direction::Down => assert(compass()[1] == d),
            Direction::Left => assert(compass()[2] == d),
            Direction::Right => assert(compass()[3] == d),
        }
        assert(compass().contains(d));
        assert(shuffled.to_multiset().count(d) > 0);
    }
}

/// The four directions, unshuffled.
pub fn all_directions() -> (v: Vec<Direction>)
    ensures
        v@ == compass(),
{
    let mut v: Vec<Direction> = Vec::new();
    v.push(Direction::Up);
    v.push(Direction::Down);
    v.push(Direction::Left);
    v.push(Direction::Right);
    assert(v@ =~= compass());
    v
}

/// Settles which directions a walk tries once the random draws are known.
pub fn choose_candidates(
    shuffled: Vec<Direction>,
    momentum: bool,
    prev_direction: Option<Direction>,
) -> (v: Vec<Direction>)
    ensures
        v@ == candidate_list(shuffled@, momentum, prev_direction),
{
    match prev_direction {
        Some(d) => {
            if momentum {
                let mut v: Vec<Direction> = Vec::new();
                v.push(d);
                assert(v@ =~= seq![d]);
                v
            } else {
                shuffled
            }
        },
        None => shuffled,
    }
}

/// What a grid position holds. The variants exclude one another: a cell is in
/// exactly one of these states.
#[derive(Clone, Copy, Debug, PartialEq, Eq, Structural)]
pub enum Cell {
    /// Untouched.
    Empty,
    /// Impassable; remembers the direction of the corridor it was made from.
    Wall(Direction),
    /// A corridor cell. The flag tells the solution path from decorative
    /// corridors; the direction is the step that produced the cell.
    Path(bool, Direction),
    /// The origin, once it is part of the solution path.
    Start,
    /// The destination, once the solution path has reached it.
    End,
    /// Answer to a query outside the grid; never stored.
    Invalid,
}

impl Default for Cell {
    /// `Empty`.
    fn default() -> (c: Cell)
        ensures
            c == Cell::Empty,
    {
        Cell::Empty
    }
}

impl Cell {
    /// A wall of any direction.
    pub open spec fn spec_is_wall(&self) -> bool {
        *self is Wall
    }

    /// Untouched.
    pub open spec fn spec_is_empty(&self) -> bool {
        *self is Empty
    }

    /// Occupied: anything but `Empty`.
    pub open spec fn spec_is_some(&self) -> bool {
        !(*self is Empty)
    }

    /// A corridor cell of the solution path. `Start` and `End` are not.
    pub open spec fn spec_is_winning_path(&self) -> bool {
        *self matches Cell::Path(winning, _) && winning
    }

    /// Whether this is a wall.
    #[verifier::when_used_as_spec(spec_is_wall)]
    pub fn is_wall(&self) -> (b: bool)
        ensures
            b == self.spec_is_wall(),
    {
        match self {
            Cell::Wall(_) => true,
            _ => false,
        }
    }

    /// Whether this is `Empty`.
    #[verifier::when_used_as_spec(spec_is_empty)]
    pub fn is_empty(&self) -> (b: bool)
        ensures
            b == self.spec_is_empty(),
    {
        match self {
            Cell::Empty => true,
            _ => false,
        }
    }

    /// Whether this is occupied: anything but `Empty`, the sentinel included.
    #[verifier::when_used_as_spec(spec_is_some)]
    pub fn is_some(&self) -> (b: bool)
        ensures
            b == self.spec_is_some(),
    {
        !self.is_empty()
    }

    /// Whether this is a corridor cell of the solution path.
    #[verifier::when_used_as_spec(spec_is_winning_path)]
    pub fn is_winning_path(&self) -> (b: bool)
        ensures
            b == self.spec_is_winning_path(),
    {
        match self {
            Cell::Path(true, _) => true,
            _ => false,
        }
    }
}

/// A cell is in exactly one state: of the six variants one and only one
/// applies.
pub proof fn lemma_variants_exclusive(c: Cell)
    ensures
        (if c is Empty {
            1int
        } else {
            0int
        }) + (if c is Wall {
            1int
        } else {
            0int
        }) + (if c is Path {
            1int
        } else {
            0int
        }) + (if c is Start {
            1int
        } else {
            0int
        }) + (if c is End {
            1int
        } else {
            0int
        }) + (if c is Invalid {
            1int
        } else {
            0int
        }) == 1,
{
}

} // verus!
