//! The mathematical model of a maze: what the contracts of the generator
//! speak about.

use crate::cell::{Cell, Direction};
use crate::flat2darr::lemma_index_in_range;
use vstd::prelude::*;

verus! {

/// The cell that the solution search leaves behind when it departs from
/// `(x, y)` in direction `d`: `Start` at the origin, a winning path cell
/// that remembers `d` anywhere else.
pub open spec fn trail_mark(x: int, y: int, d: Direction) -> Cell {
    if x == 0 && y == 0 {
        Cell::Start
    } else {
        Cell::Path(true, d)
    }
}

/// Whether `c` is the mark that the solution search leaves at `(x, y)` for a
/// departure in some direction.
pub open spec fn departed(c: Cell, x: int, y: int) -> bool {
    if x == 0 && y == 0 {
        c is Start
    } else {
        c matches Cell::Path(winning, _) && winning
    }
}

/// Whether a neighbour in state `c` turns a corridor cell into a wall: it is
/// occupied and not part of the winning path.
pub open spec fn blocks(c: Cell) -> bool {
    c.is_some() && !c.is_winning_path()
}

/// Whether a cell in state `c` adds to the density count around a position.
pub open spec fn counts(c: Cell, count_winning_path: bool) -> bool {
    c.is_some() && (count_winning_path || !c.is_winning_path())
}

/// Manhattan distance between two positions.
pub open spec fn distance(x1: int, y1: int, x2: int, y2: int) -> int {
    (if x1 <= x2 {
        x2 - x1
    } else {
        x1 - x2
    }) + (if y1 <= y2 {
        y2 - y1
    } else {
        y1 - y2
    })
}

/// The positions that a trail of moves goes through, the starting position
/// first.
pub open spec fn positions(x: int, y: int, moves: Seq<Direction>) -> Seq<(int, int)>
    decreases moves.len(),
{
    if moves.len() == 0 {
        seq![(x, y)]
    } else {
        seq![(x, y)] + positions(x + moves[0].dx(), y + moves[0].dy(), moves.drop_first())
    }
}

/// A maze as plain data. Position `(x, y)` is column `x` of row `y`; rows are
/// stored one after another.
pub struct MazeView {
    pub width: nat,
    pub height: nat,
    pub max_depth: nat,
    pub cells: Seq<Cell>,
    pub visited: Seq<bool>,
}

impl MazeView {
    /// Both grids cover the whole area, the area is not empty, and no stored
    /// cell is the out-of-bounds sentinel.
    pub open spec fn wf(self) -> bool {
        &&& self.width > 0
        &&& self.height > 0
        &&& self.cells.len() == self.height * self.width
        &&& self.visited.len() == self.height * self.width
        &&& forall|i: int| 0 <= i < self.cells.len() ==> !(#[trigger] self.cells[i] is Invalid)
    }

    /// Whether `(x, y)` is a position of the grid.
    pub open spec fn in_bounds(self, x: int, y: int) -> bool {
        0 <= x < self.width && 0 <= y < self.height
    }

    /// Where position `(x, y)` is stored.
    pub open spec fn index(self, x: int, y: int) -> int {
        y * self.width + x
    }

    /// The state of position `(x, y)`; the sentinel outside the grid.
    pub open spec fn cell(self, x: int, y: int) -> Cell {
        if self.in_bounds(x, y) {
            self.cells[self.index(x, y)]
        } else {
            Cell::Invalid
        }
    }

    /// Whether `(x, y)` is inside the grid and flagged as visited.
    pub open spec fn seen(self, x: int, y: int) -> bool {
        self.in_bounds(x, y) && self.visited[self.index(x, y)]
    }

    /// The maze with `c` stored at `(x, y)`; the same maze when `(x, y)` is
    /// outside the grid.
    pub open spec fn with_cell(self, x: int, y: int, c: Cell) -> MazeView {
        if self.in_bounds(x, y) {
            MazeView { cells: self.cells.update(self.index(x, y), c), ..self }
        } else {
            self
        }
    }

    /// The maze with `(x, y)` flagged as visited; the same maze when `(x, y)`
    /// is outside the grid.
    pub open spec fn with_seen(self, x: int, y: int) -> MazeView {
        if self.in_bounds(x, y) {
            MazeView { visited: self.visited.update(self.index(x, y), true), ..self }
        } else {
            self
        }
    }

    /// A maze in which nothing has happened yet.
    pub open spec fn blank(width: nat, height: nat, max_depth: nat) -> MazeView {
        MazeView {
            width,
            height,
            max_depth,
            cells: Seq::new(height * width, |i: int| Cell::Empty),
            visited: Seq::new(height * width, |i: int| false),
        }
    }

    /// The same width, height and depth limit.
    pub open spec fn same_shape(self, other: MazeView) -> bool {
        &&& self.width == other.width
        &&& self.height == other.height
        &&& self.max_depth == other.max_depth
    }

    /// Every occupied cell has been visited.
    pub open spec fn occupied_is_seen(self) -> bool {
        forall|x: int, y: int|
            self.in_bounds(x, y) && (#[trigger] self.cell(x, y)).is_some() ==> self.seen(x, y)
    }

    /// Whether `(x, y)` is inside the grid and adds to a density count.
    pub open spec fn counted_at(self, x: int, y: int, count_winning_path: bool) -> bool {
        self.in_bounds(x, y) && counts(self.cell(x, y), count_winning_path)
    }

    /// How many of the eight positions around `(x, y)` lie inside the grid
    /// and are occupied. Winning path cells are left out unless
    /// `count_winning_path` is set.
    pub open spec fn count_around(self, x: int, y: int, count_winning_path: bool) -> int {
        let one = |b: bool| -> int {
            if b {
                1int
            } else {
                0int
            }
        };
        one(self.counted_at(x - 1, y - 1, count_winning_path)) + one(
            self.counted_at(x, y - 1, count_winning_path),
        ) + one(self.counted_at(x + 1, y - 1, count_winning_path)) + one(
            self.counted_at(x - 1, y, count_winning_path),
        ) + one(self.counted_at(x + 1, y, count_winning_path)) + one(
            self.counted_at(x - 1, y + 1, count_winning_path),
        ) + one(self.counted_at(x, y + 1, count_winning_path)) + one(
            self.counted_at(x + 1, y + 1, count_winning_path),
        )
    }

    /// The part of the density count that comes from row `y + dy`, from the
    /// columns to the left of column `x + dx`, the centre left out.
    pub open spec fn count_row(
        self,
        x: int,
        y: int,
        count_winning_path: bool,
        dy: int,
        dx: int,
    ) -> int
        decreases dx + 1,
    {
        if dx <= -1 {
            0
        } else {
            self.count_row(x, y, count_winning_path, dy, dx - 1) + if !(dx - 1 == 0 && dy == 0)
                && self.counted_at(x + dx - 1, y + dy, count_winning_path) {
                1int
            } else {
                0int
            }
        }
    }

    /// The part of the density count that comes from the rows above row
    /// `y + dy`.
    pub open spec fn count_rows(self, x: int, y: int, count_winning_path: bool, dy: int) -> int
        decreases dy + 1,
    {
        if dy <= -1 {
            0
        } else {
            self.count_rows(x, y, count_winning_path, dy - 1) + self.count_row(
                x,
                y,
                count_winning_path,
                dy - 1,
                2,
            )
        }
    }

    /// Counting row by row gives the density count.
    pub proof fn lemma_count_rows(self, x: int, y: int, count_winning_path: bool)
        ensures
            self.count_rows(x, y, count_winning_path, 2) == self.count_around(
                x,
                y,
                count_winning_path,
            ),
    {
        reveal_with_fuel(MazeView::count_row, 4);
        reveal_with_fuel(MazeView::count_rows, 4);
    }

    /// Whether `(x, y)` is inside the grid and holds a cell that turns an
    /// adjacent corridor into a wall.
    pub open spec fn blocking_at(self, x: int, y: int) -> bool {
        self.in_bounds(x, y) && blocks(self.cell(x, y))
    }

    /// Whether one of the four orthogonal neighbours of `(x, y)` is inside
    /// the grid, occupied, and not part of the winning path.
    pub open spec fn blocked(self, x: int, y: int) -> bool {
        ||| self.blocking_at(x - 1, y)
        ||| self.blocking_at(x + 1, y)
        ||| self.blocking_at(x, y - 1)
        ||| self.blocking_at(x, y + 1)
    }

    /// Wall derivation at one position: a corridor cell with a blocking
    /// neighbour becomes a wall that keeps the corridor's direction.
    pub open spec fn wall_step(self, x: int, y: int) -> MazeView {
        match self.cell(x, y) {
            Cell::Path(_, d) => if self.blocked(x, y) {
                self.with_cell(x, y, Cell::Wall(d))
            } else {
                self
            },
            _ => self,
        }
    }

    /// The maze after wall derivation has gone through rows `0..y` and
    /// through the first `x` positions of row `y`, each position seeing what
    /// the positions before it left behind.
    pub open spec fn walls_through(self, y: nat, x: nat) -> MazeView
        decreases y, x,
    {
        if x > 0 {
            self.walls_through(y, (x - 1) as nat).wall_step(x - 1, y as int)
        } else if y > 0 {
            self.walls_through((y - 1) as nat, self.width)
        } else {
            self
        }
    }

    /// The maze after one full pass of wall derivation, top to bottom and
    /// left to right.
    pub open spec fn with_walls(self) -> MazeView {
        self.walls_through(self.height, 0)
    }

    /// No flag is cleared on the way from `self` to `after`.
    pub open spec fn flags_kept(self, after: MazeView) -> bool {
        forall|x: int, y: int| #[trigger] self.seen(x, y) ==> after.seen(x, y)
    }

    /// Whether at most one of the eight positions around `(x, y)` is
    /// occupied, the winning path left out: a walk may go on from here.
    #[verifier::opaque]
    pub open spec fn sparse(self, x: int, y: int) -> bool {
        self.count_around(x, y, false) <= 1
    }

    /// How far a walk may get from where it stands when it is `depth` steps
    /// into its corridor, of which `max_depth` are allowed. The bound on the
    /// depth is `max_depth` or the depth limit of the maze, whichever is
    /// less; a walk whose depth has reached the bound does nothing, and its
    /// reach is negative.
    pub open spec fn reach(self, depth: int, max_depth: int) -> int {
        if max_depth <= self.max_depth {
            max_depth - depth - 1
        } else {
            self.max_depth - depth - 1
        }
    }

    /// Whether a walk that stands at `(x, y)` goes on towards `d`: the
    /// neighbour in that direction is inside the grid and sparse.
    pub open spec fn beckoning(self, x: int, y: int, d: Direction) -> bool {
        &&& self.in_bounds(x + d.dx(), y + d.dy())
        &&& self.sparse(x + d.dx(), y + d.dy())
    }

    /// Whether a walk that stands at `(x, y)` carves a corridor towards `d`:
    /// the neighbour in that direction is inside the grid, sparse and empty.
    pub open spec fn inviting(self, x: int, y: int, d: Direction) -> bool {
        &&& self.beckoning(x, y, d)
        &&& self.cell(x + d.dx(), y + d.dy()) is Empty
    }

    /// Whether a walk that stands at `(x, y)` has nowhere to go: every
    /// neighbour is outside the grid or not sparse.
    pub open spec fn hemmed_in(self, x: int, y: int) -> bool {
        forall|d: Direction| !#[trigger] self.beckoning(x, y, d)
    }

    /// Whether a walk that stands at `(x, y)` carves a corridor wherever it
    /// goes on: every neighbour that is inside the grid and sparse is empty.
    pub open spec fn open_ground(self, x: int, y: int) -> bool {
        forall|d: Direction| #[trigger] self.beckoning(x, y, d) ==> self.inviting(x, y, d)
    }

    /// What corridor scattering may do on the way from `self` to `after`:
    /// flags are only ever set, and a cell either stays as it was or becomes
    /// a decorative corridor, at a visited position, in a direction that was
    /// inviting in `self`.
    #[verifier::opaque]
    pub open spec fn scattered_into(self, after: MazeView) -> bool {
        &&& self.same_shape(after)
        &&& self.flags_kept(after)
        &&& forall|x: int, y: int|
            #![trigger after.cell(x, y)]
            #![trigger self.cell(x, y)]
            after.cell(x, y) == self.cell(x, y) || (after.cell(x, y) matches Cell::Path(false, d)
                && after.seen(x, y) && self.inviting(x, y, d))
    }

    /// What one walk from `(x, y)` may do on the way from `self` to `after`:
    /// what scattering may do, and any position it flags, other than
    /// `(x, y)` itself, was sparse in `self`.
    #[verifier::opaque]
    pub open spec fn walked_into(self, after: MazeView, x: int, y: int) -> bool {
        &&& self.scattered_into(after)
        &&& forall|x2: int, y2: int|
            #![trigger after.seen(x2, y2)]
            after.seen(x2, y2) && !self.seen(x2, y2) ==> (x2 == x && y2 == y) || self.sparse(
                x2,
                y2,
            )
    }

    /// Nothing differs between `self` and `after` at positions more than
    /// `reach` steps away from `(x, y)`.
    #[verifier::opaque]
    pub open spec fn same_beyond(self, after: MazeView, x: int, y: int, reach: int) -> bool {
        forall|x2: int, y2: int|
            #![trigger after.cell(x2, y2)]
            #![trigger after.seen(x2, y2)]
            distance(x, y, x2, y2) > reach ==> after.cell(x2, y2) == self.cell(x2, y2)
                && after.seen(x2, y2) == self.seen(x2, y2)
    }

    /// Whether `(x, y)` is the destination, the bottom right corner.
    pub open spec fn is_goal(self, x: int, y: int) -> bool {
        x == self.width - 1 && y == self.height - 1
    }

    /// Whether `c` is something the solution search writes at `(x, y)`:
    /// `Empty` when it backtracks, the mark of a departure, or `End` at the
    /// destination.
    pub open spec fn carved(self, c: Cell, x: int, y: int) -> bool {
        ||| c is Empty
        ||| departed(c, x, y)
        ||| c is End && self.is_goal(x, y)
    }

    /// `moves` leads from `(x, y)` to the destination along the winning
    /// path: every position on the way holds the mark of the move that
    /// leaves it, and the destination holds `End`.
    pub open spec fn trail(self, x: int, y: int, moves: Seq<Direction>) -> bool
        decreases moves.len(),
    {
        if moves.len() == 0 {
            self.is_goal(x, y) && self.cell(x, y) is End
        } else {
            &&& self.in_bounds(x, y)
            &&& self.cell(x, y) == trail_mark(x, y, moves[0])
            &&& self.trail(x + moves[0].dx(), y + moves[0].dy(), moves.drop_first())
        }
    }

    /// The winning path leads from `(x, y)` to the destination in at most
    /// `budget` moves.
    pub open spec fn solvable_within(self, x: int, y: int, budget: int) -> bool {
        exists|moves: Seq<Direction>| #[trigger] self.trail(x, y, moves) && moves.len() <= budget
    }

    /// Whether the solution search may step on `(x, y)`: the position is
    /// inside the grid, not visited, and not on the winning path.
    pub open spec fn fresh(self, x: int, y: int) -> bool {
        self.in_bounds(x, y) && !self.seen(x, y) && !self.cell(x, y).is_winning_path()
    }

    /// Whether the solution search may step from `(x, y)` towards `d`.
    pub open spec fn enterable(self, x: int, y: int, d: Direction) -> bool {
        self.fresh(x + d.dx(), y + d.dy())
    }

    /// Whether the solution search has nowhere to go from `(x, y)`: it may
    /// step on none of the four neighbours.
    pub open spec fn boxed_in(self, x: int, y: int) -> bool {
        forall|d: Direction| !#[trigger] self.enterable(x, y, d)
    }

    /// Whether every position that `moves` leads to from `(x, y)` is one the
    /// solution search may step on.
    pub open spec fn fresh_ahead(self, x: int, y: int, moves: Seq<Direction>) -> bool
        decreases moves.len(),
    {
        moves.len() > 0 ==> {
            &&& self.fresh(x + moves[0].dx(), y + moves[0].dy())
            &&& self.fresh_ahead(x + moves[0].dx(), y + moves[0].dy(), moves.drop_first())
        }
    }

    /// Whether every position that `moves` does not go through from
    /// `(x, y)` holds in `after` what it held in `self`, or `Empty`.
    pub open spec fn clear_off(self, after: MazeView, x: int, y: int, moves: Seq<Direction>) -> bool {
        forall|px: int, py: int|
            #![trigger after.cell(px, py)]
            !positions(x, y, moves).contains((px, py)) ==> after.cell(px, py) == self.cell(px, py)
                || after.cell(px, py) is Empty
    }

    /// In `after`, the winning path leads from `(x, y)` to the destination
    /// in at most `budget` moves, over positions that the search might step
    /// on in `self`; off that path every position holds what it held in
    /// `self`, or `Empty`.
    pub open spec fn solved_into(self, after: MazeView, x: int, y: int, budget: int) -> bool {
        exists|moves: Seq<Direction>|
            #[trigger] after.trail(x, y, moves) && moves.len() <= budget && self.fresh_ahead(
                x,
                y,
                moves,
            ) && self.clear_off(after, x, y, moves)
    }

    /// The maze after the search has marked its departure from `(x, y)`
    /// towards `d`.
    pub open spec fn departing(self, x: int, y: int, d: Direction) -> MazeView {
        self.with_cell(x, y, trail_mark(x, y, d))
    }

    /// Whether `dirs[k]` is the first direction in `dirs` that the search
    /// may step towards from `(x, y)`.
    pub open spec fn first_enterable(self, x: int, y: int, dirs: Seq<Direction>, k: int) -> bool {
        &&& 0 <= k < dirs.len()
        &&& self.enterable(x, y, dirs[k])
        &&& forall|j: int| 0 <= j < k ==> !self.enterable(x, y, #[trigger] dirs[j])
    }

    /// Whether a search that arrived at `(x, y)` by `prev` has no choice but
    /// to leave towards `d`: that direction is among those it tries whatever
    /// is drawn, it may step there, and it may step nowhere else.
    pub open spec fn forced(self, x: int, y: int, prev: Option<Direction>, d: Direction) -> bool {
        &&& prev is None || prev == Some(d)
        &&& self.enterable(x, y, d)
        &&& forall|e: Direction| e != d ==> !#[trigger] self.enterable(x, y, e)
    }

    /// Whether a search from `(x, y)`, arrived at by `prev` with `budget`
    /// moves left, succeeds whatever is drawn: it stands at the destination,
    /// or it has no choice of direction and the same holds where that
    /// direction leads.
    pub open spec fn bound_to_succeed(
        self,
        x: int,
        y: int,
        prev: Option<Direction>,
        budget: int,
    ) -> bool
        decreases budget,
    {
        if budget < 0 || !self.in_bounds(x, y) {
            false
        } else if self.is_goal(x, y) {
            true
        } else {
            exists|d: Direction|
                #[trigger] self.forced(x, y, prev, d) && budget > 0 && self.with_seen(
                    x,
                    y,
                ).departing(x, y, d).bound_to_succeed(x + d.dx(), y + d.dy(), Some(d), budget - 1)
        }
    }

    /// What a solution search from `(x, y)` may do on the way from `self` to
    /// `after`. Flags are only ever set, and never at the destination. Any
    /// other position that was visited or on the winning path beforehand
    /// keeps its cell, and the rest keep theirs or hold something the search
    /// writes. A position that has come to be on the winning path is
    /// visited. The position `(x, y)` itself keeps its cell, or holds the
    /// mark of a departure, or `End` if it is the destination.
    #[verifier::opaque]
    pub open spec fn searched_into(self, after: MazeView, x: int, y: int) -> bool {
        &&& self.same_shape(after)
        &&& self.flags_kept(after)
        &&& after.seen(self.width - 1, self.height - 1) == self.seen(
            self.width - 1,
            self.height - 1,
        )
        &&& forall|x2: int, y2: int|
            #![trigger after.cell(x2, y2)]
            after.cell(x2, y2).is_winning_path() && !self.cell(x2, y2).is_winning_path()
                ==> after.seen(x2, y2)
        &&& forall|x2: int, y2: int|
            #![trigger after.cell(x2, y2)]
            #![trigger self.seen(x2, y2)]
            (x2 != x || y2 != y) && (self.seen(x2, y2) || self.cell(x2, y2).is_winning_path())
                ==> after.cell(x2, y2) == self.cell(x2, y2)
        &&& forall|x2: int, y2: int|
            #![trigger after.cell(x2, y2)]
            (x2 != x || y2 != y) ==> after.cell(x2, y2) == self.cell(x2, y2) || after.carved(
                after.cell(x2, y2),
                x2,
                y2,
            )
        &&& {
            ||| after.cell(x, y) == self.cell(x, y)
            ||| departed(after.cell(x, y), x, y)
            ||| after.cell(x, y) is End && self.is_goal(x, y)
        }
    }

    /// What a failed solution search from `(x, y)` leaves behind: every
    /// other position keeps its cell or has been reset to `Empty`.
    #[verifier::opaque]
    pub open spec fn search_undone(self, after: MazeView, x: int, y: int) -> bool {
        forall|x2: int, y2: int|
            #![trigger after.cell(x2, y2)]
            (x2 != x || y2 != y) ==> after.cell(x2, y2) == self.cell(x2, y2) || after.cell(
                x2,
                y2,
            ) is Empty
    }

    /// A finished maze: the winning path leads from the origin to the
    /// destination in at most `max_depth` moves, the destination holds
    /// `End`, the origin holds `Start` unless it is the destination itself,
    /// and every wall is supported.
    pub open spec fn finished(self) -> bool {
        &&& self.wf()
        &&& self.solvable_within(0, 0, self.max_depth as int)
        &&& self.cell(self.width - 1, self.height - 1) is End
        &&& !self.is_goal(0, 0) ==> self.cell(0, 0) is Start
        &&& self.walls_supported()
    }

    /// The maze after a walk that stands at `(x, y)` has decided to go on
    /// towards `d`: where the neighbour in that direction is empty, the cell
    /// being left is a decorative corridor in direction `d`.
    pub open spec fn stamped(self, x: int, y: int, d: Direction) -> MazeView {
        if self.cell(x + d.dx(), y + d.dy()) is Empty {
            self.with_cell(x, y, Cell::Path(false, d))
        } else {
            self
        }
    }

    /// Whether `dirs[k]` is the first direction in `dirs` towards which a
    /// walk that stands at `(x, y)` goes on.
    pub open spec fn first_beckoning(self, x: int, y: int, dirs: Seq<Direction>, k: int) -> bool {
        &&& 0 <= k < dirs.len()
        &&& self.beckoning(x, y, dirs[k])
        &&& forall|j: int| 0 <= j < k ==> !self.beckoning(x, y, #[trigger] dirs[j])
    }

    /// What a walk that stands at the flagged position `(x, y)` and may get
    /// `reach` steps away does on the way from `self` to `after` when it
    /// tries the directions `dirs` in turn.
    ///
    /// It does what a walk may do, within its reach. If none of the
    /// directions beckons, nothing changes. Otherwise the walk goes on
    /// towards the first direction that beckons: with a step to spare the
    /// neighbour there ends up visited, and if that neighbour was empty,
    /// `(x, y)` ends up a decorative corridor.
    pub open spec fn walked_among(
        self,
        after: MazeView,
        x: int,
        y: int,
        reach: int,
        dirs: Seq<Direction>,
    ) -> bool {
        &&& self.walked_into(after, x, y)
        &&& self.same_beyond(after, x, y, reach)
        &&& (forall|j: int| 0 <= j < dirs.len() ==> !self.beckoning(x, y, #[trigger] dirs[j]))
            ==> after == self
        &&& forall|k: int|
            #![trigger dirs[k]]
            self.first_beckoning(x, y, dirs, k) ==> {
                &&& reach >= 1 ==> after.seen(x + dirs[k].dx(), y + dirs[k].dy())
                &&& self.in_bounds(x, y) && self.cell(x + dirs[k].dx(), y + dirs[k].dy()) is Empty
                    ==> after.cell(x, y) matches Cell::Path(false, _)
            }
    }

    /// What holds while a walk that stands at the flagged position `(x, y)`
    /// and may get `reach` steps away, which began in `self`, stands in
    /// `now` and has gone through the directions `tried`: what
    /// `walked_among` says of them.
    #[verifier::opaque]
    pub open spec fn walking(
        self,
        now: MazeView,
        x: int,
        y: int,
        reach: int,
        tried: Seq<Direction>,
    ) -> bool {
        &&& self.wf()
        &&& now.wf()
        &&& now.same_shape(self)
        &&& reach >= 0
        &&& self.in_bounds(x, y) ==> self.seen(x, y)
        &&& self.walked_among(now, x, y, reach, tried)
    }

    /// What a search that stands at the flagged position `(x, y)`, away from
    /// the destination, with `budget` moves left, does on the way from
    /// `self` to `after` when it tries the directions `dirs` in turn.
    ///
    /// It does what a search may do, and on failure undoes what a search
    /// undoes. If it may step towards none of the directions, it fails and
    /// changes nothing. Otherwise `(x, y)` ends up with the mark of a
    /// departure towards one of those it might step towards. With a move to
    /// spare, the first direction it may step towards leads to a position
    /// that ends up visited, unless that is the destination; and where the
    /// search fails, the same holds of every direction it might step
    /// towards, none of which leads to the destination. If the search from
    /// that first direction is bound to succeed, this one succeeds.
    pub open spec fn searched_among(
        self,
        after: MazeView,
        x: int,
        y: int,
        budget: int,
        dirs: Seq<Direction>,
        found: bool,
    ) -> bool {
        &&& self.searched_into(after, x, y)
        &&& found ==> self.solved_into(after, x, y, budget)
        &&& !found ==> self.search_undone(after, x, y)
        &&& (forall|j: int| 0 <= j < dirs.len() ==> !self.enterable(x, y, #[trigger] dirs[j]))
            ==> !found && after == self
        &&& (exists|j: int| 0 <= j < dirs.len() && self.enterable(x, y, #[trigger] dirs[j]))
            ==> exists|j: int|
            0 <= j < dirs.len() && self.enterable(x, y, #[trigger] dirs[j]) && after.cell(x, y)
                == trail_mark(x, y, dirs[j])
        &&& !found && budget > 0 ==> forall|j: int|
            0 <= j < dirs.len() && self.enterable(x, y, #[trigger] dirs[j]) ==> after.seen(
                x + dirs[j].dx(),
                y + dirs[j].dy(),
            ) && !self.is_goal(x + dirs[j].dx(), y + dirs[j].dy())
        &&& budget > 0 ==> forall|k: int|
            #![trigger dirs[k]]
            self.first_enterable(x, y, dirs, k) ==> after.seen(x + dirs[k].dx(), y + dirs[k].dy())
                || self.is_goal(x + dirs[k].dx(), y + dirs[k].dy())
        &&& forall|k: int|
            #![trigger dirs[k]]
            self.first_enterable(x, y, dirs, k) && self.departing(x, y, dirs[k]).bound_to_succeed(
                x + dirs[k].dx(),
                y + dirs[k].dy(),
                Some(dirs[k]),
                budget - 1,
            ) ==> found
    }

    /// What holds while a search that stands at the flagged position
    /// `(x, y)`, away from the destination, with `budget` moves left, which
    /// began in `self`, stands in `now` and has gone through the directions
    /// `tried` without success.
    ///
    /// It has done what a failed search may do. Either none of the
    /// directions tried could be entered and nothing has changed, or
    /// `(x, y)` holds the mark of a departure towards one that could. With a
    /// move to spare, every direction tried that could be entered at the
    /// outset leads to a position that is now visited and is not the
    /// destination. The search from the first such direction was not bound
    /// to succeed.
    #[verifier::opaque]
    pub open spec fn searching(
        self,
        now: MazeView,
        x: int,
        y: int,
        budget: int,
        tried: Seq<Direction>,
    ) -> bool {
        &&& self.wf()
        &&& now.wf()
        &&& now.same_shape(self)
        &&& self.in_bounds(x, y)
        &&& !self.is_goal(x, y)
        &&& self.seen(x, y)
        &&& budget >= 0
        &&& self.searched_into(now, x, y)
        &&& self.search_undone(now, x, y)
        &&& {
            ||| now == self && forall|j: int|
                0 <= j < tried.len() ==> !self.enterable(x, y, #[trigger] tried[j])
            ||| exists|j: int|
                0 <= j < tried.len() && self.enterable(x, y, #[trigger] tried[j]) && now.cell(x, y)
                    == trail_mark(x, y, tried[j])
        }
        &&& budget > 0 ==> forall|j: int|
            0 <= j < tried.len() && self.enterable(x, y, #[trigger] tried[j]) ==> now.seen(
                x + tried[j].dx(),
                y + tried[j].dy(),
            ) && !self.is_goal(x + tried[j].dx(), y + tried[j].dy())
        &&& forall|k: int|
            #![trigger tried[k]]
            self.first_enterable(x, y, tried, k) ==> !self.departing(
                x,
                y,
                tried[k],
            ).bound_to_succeed(x + tried[k].dx(), y + tried[k].dy(), Some(tried[k]), budget - 1)
    }

    /// Every wall has an orthogonal neighbour that is occupied and not part
    /// of the winning path.
    pub open spec fn walls_supported(self) -> bool {
        forall|x: int, y: int|
            self.in_bounds(x, y) && (#[trigger] self.cell(x, y)) is Wall ==> self.blocked(x, y)
    }
}

/// Inside a well-formed maze every position has a slot of its own.
pub proof fn lemma_slot(m: MazeView, x: int, y: int)
    requires
        m.wf(),
        m.in_bounds(x, y),
    ensures
        0 <= m.index(x, y) < m.cells.len(),
        m.index(x, y) < m.visited.len(),
        m.index(x, y) / (m.width as int) == y,
        m.index(x, y) % (m.width as int) == x,
{
    lemma_index_in_range(y, x, m.height as int, m.width as int);
}

/// Two distinct positions never share a slot.
pub proof fn lemma_slots_differ(m: MazeView, x1: int, y1: int, x2: int, y2: int)
    requires
        m.wf(),
        m.in_bounds(x1, y1),
        m.in_bounds(x2, y2),
        x1 != x2 || y1 != y2,
    ensures
        m.index(x1, y1) != m.index(x2, y2),
{
    lemma_slot(m, x1, y1);
    lemma_slot(m, x2, y2);
}

/// Storing a cell changes that position and nothing else.
pub proof fn lemma_with_cell(m: MazeView, x: int, y: int, c: Cell)
    requires
        m.wf(),
    ensures
        m.with_cell(x, y, c).same_shape(m),
        m.with_cell(x, y, c).visited == m.visited,
        !(c is Invalid) || !m.in_bounds(x, y) ==> m.with_cell(x, y, c).wf(),
        !m.in_bounds(x, y) ==> m.with_cell(x, y, c) == m,
        m.in_bounds(x, y) ==> m.with_cell(x, y, c).cell(x, y) == c,
        forall|x2: int, y2: int|
            (x2 != x || y2 != y) ==> #[trigger] m.with_cell(x, y, c).cell(x2, y2) == m.cell(x2, y2),
        forall|x2: int, y2: int| #[trigger] m.with_cell(x, y, c).seen(x2, y2) == m.seen(x2, y2),
{
    if m.in_bounds(x, y) {
        lemma_slot(m, x, y);
        let n = m.with_cell(x, y, c);
        assert forall|x2: int, y2: int| (x2 != x || y2 != y) implies #[trigger] n.cell(x2, y2)
            == m.cell(x2, y2) by {
            if m.in_bounds(x2, y2) {
                lemma_slot(m, x2, y2);
                lemma_slots_differ(m, x, y, x2, y2);
            }
        }
    }
}

/// Flagging a position changes that flag and nothing else.
pub proof fn lemma_with_seen(m: MazeView, x: int, y: int)
    requires
        m.wf(),
    ensures
        m.with_seen(x, y).same_shape(m),
        m.with_seen(x, y).cells == m.cells,
        m.with_seen(x, y).wf(),
        !m.in_bounds(x, y) ==> m.with_seen(x, y) == m,
        m.in_bounds(x, y) ==> m.with_seen(x, y).seen(x, y),
        forall|x2: int, y2: int|
            (x2 != x || y2 != y) ==> #[trigger] m.with_seen(x, y).seen(x2, y2) == m.seen(x2, y2),
        forall|x2: int, y2: int| #[trigger] m.with_seen(x, y).cell(x2, y2) == m.cell(x2, y2),
{
    if m.in_bounds(x, y) {
        lemma_slot(m, x, y);
        let n = m.with_seen(x, y);
        assert forall|x2: int, y2: int| (x2 != x || y2 != y) implies #[trigger] n.seen(x2, y2)
            == m.seen(x2, y2) by {
            if m.in_bounds(x2, y2) {
                lemma_slot(m, x2, y2);
                lemma_slots_differ(m, x, y, x2, y2);
            }
        }
    }
}

/// A blank maze is well formed, empty everywhere and visited nowhere.
pub proof fn lemma_blank(width: nat, height: nat, max_depth: nat)
    requires
        width > 0,
        height > 0,
    ensures
        MazeView::blank(width, height, max_depth).wf(),
        MazeView::blank(width, height, max_depth).occupied_is_seen(),
        forall|x: int, y: int|
            MazeView::blank(width, height, max_depth).in_bounds(x, y)
                ==> #[trigger] MazeView::blank(width, height, max_depth).cell(x, y) == Cell::Empty,
        forall|x: int, y: int| !#[trigger] MazeView::blank(width, height, max_depth).seen(x, y),
{
    let m = MazeView::blank(width, height, max_depth);
    assert(m.cells.len() == height * width);
    assert forall|x: int, y: int| m.in_bounds(x, y) implies #[trigger] m.cell(x, y)
        == Cell::Empty by {
        lemma_index_in_range(y, x, height as int, width as int);
    }
    assert forall|x: int, y: int| !#[trigger] m.seen(x, y) by {
        if m.in_bounds(x, y) {
            lemma_index_in_range(y, x, height as int, width as int);
        }
    }
}

/// Inside a well-formed maze a position holds exactly one of `Empty`,
/// `Wall`, `Path`, `Start` and `End`; outside, the sentinel.
pub proof fn lemma_stored_variants_exclusive(m: MazeView, x: int, y: int)
    requires
        m.wf(),
    ensures
        m.in_bounds(x, y) ==> (if m.cell(x, y) is Empty {
            1int
        } else {
            0int
        }) + (if m.cell(x, y) is Wall {
            1int
        } else {
            0int
        }) + (if m.cell(x, y) is Path {
            1int
        } else {
            0int
        }) + (if m.cell(x, y) is Start {
            1int
        } else {
            0int
        }) + (if m.cell(x, y) is End {
            1int
        } else {
            0int
        }) == 1,
        !m.in_bounds(x, y) ==> m.cell(x, y) is Invalid,
{
    if m.in_bounds(x, y) {
        lemma_slot(m, x, y);
    }
}

} // verus!
