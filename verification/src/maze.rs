//! The maze and its generator.

use crate::cell::{
    all_directions, candidate_list, choose_candidates, compass, lemma_shuffled_compass_is_complete,
    Cell, Direction,
};
use crate::flat2darr::Flat2DArray;
use crate::model::{
    departed, distance, lemma_blank, lemma_slot, lemma_with_cell, lemma_with_seen, trail_mark,
    MazeView,
};
use crate::scatter::{
    lemma_blank_is_open, lemma_scattered_adds_no_winning_path, lemma_scattered_keeps_occupied_seen,
    lemma_scattered_keeps_walls_supported, lemma_scattered_refl, lemma_scattered_trans,
    lemma_walk_begins, lemma_walk_ends, lemma_walk_from_flag, lemma_walk_goes_on, lemma_walk_keeps,
    lemma_walk_skips, open_everywhere,
};
use crate::search::{
    lemma_goal_reached, lemma_search_backtracked, lemma_search_begins, lemma_search_ends,
    lemma_search_from_flag, lemma_search_keeps_walls_supported, lemma_search_refl,
    lemma_search_skips, lemma_search_succeeded, lemma_solved_is_near, lemma_trail_ends,
};
use crate::walls::{lemma_blank_has_no_walls, lemma_with_walls, no_winning_path};
use crate::random;
use rand::rngs::StdRng;
use vstd::prelude::*;

verus! {

/// Depth limit that suits a grid of 100 by 100 cells.
pub const MAX_DEPTH: usize = 2000;

/// Bound on the depth of a decorative walk.
pub const CORRIDOR_DEPTH: usize = 5;

/// How often, out of `SEARCH_MOMENTUM_OUT_OF` times, the search for the
/// winning path tries only the direction it came by.
pub const SEARCH_MOMENTUM: u32 = 4;

/// What `SEARCH_MOMENTUM` is counted out of.
pub const SEARCH_MOMENTUM_OUT_OF: u32 = 5;

/// How often, out of `WALK_MOMENTUM_OUT_OF` times, a decorative walk tries
/// only the direction it came by.
pub const WALK_MOMENTUM: u32 = 1;

/// What `WALK_MOMENTUM` is counted out of.
pub const WALK_MOMENTUM_OUT_OF: u32 = 2;

/// A grid of cells, the flags of the positions already visited, and the
/// random source that drives generation.
pub struct Maze {
    width: usize,
    height: usize,
    max_depth: usize,
    cells: Flat2DArray<Cell>,
    visited: Flat2DArray<bool>,
    rng: StdRng,
}

impl View for Maze {
    type V = MazeView;

    closed spec fn view(&self) -> MazeView {
        MazeView {
            width: self.width as nat,
            height: self.height as nat,
            max_depth: self.max_depth as nat,
            cells: self.cells@,
            visited: self.visited@,
        }
    }
}

impl Maze {
    /// The representation is consistent. Every maze this library hands out
    /// satisfies it, and every operation preserves it.
    pub closed spec fn wf(&self) -> bool {
        &&& self.cells.cols() == self.width
        &&& self.cells.rows() == self.height
        &&& self.visited.cols() == self.width
        &&& self.visited.rows() == self.height
        &&& self.max_depth < usize::MAX
        &&& self@.wf()
    }

    /// The random source as it stands. A draw changes it; nothing else
    /// does.
    pub closed spec fn source(&self) -> StdRng {
        self.rng
    }

    /// What consistency means for the model.
    pub proof fn lemma_wf(&self)
        requires
            self.wf(),
        ensures
            self@.wf(),
            self@.width <= usize::MAX,
            self@.height <= usize::MAX,
            self@.max_depth < usize::MAX,
    {
    }

    /// A blank maze of `width` columns and `height` rows whose searches give
    /// up beyond `max_depth` steps. The seed starts the random source.
    pub fn new(width: usize, height: usize, max_depth: usize, seed: u64) -> (maze: Maze)
        requires
            width > 0,
            height > 0,
            width * height <= usize::MAX,
            max_depth < usize::MAX,
        ensures
            maze.wf(),
            maze@ == MazeView::blank(width as nat, height as nat, max_depth as nat),
    {
        let cells = Flat2DArray::<Cell>::new(width, height);
        let visited = Flat2DArray::<bool>::new(width, height);
        let rng = random::seeded(seed);
        proof {
            lemma_blank(width as nat, height as nat, max_depth as nat);
            assert(cells@ =~= MazeView::blank(width as nat, height as nat, max_depth as nat).cells);
            assert(visited@ =~= MazeView::blank(
                width as nat,
                height as nat,
                max_depth as nat,
            ).visited);
        }
        Maze { width, height, max_depth, cells, visited, rng }
    }

    /// Number of columns.
    pub fn width(&self) -> (w: usize)
        ensures
            w == self@.width,
    {
        self.width
    }

    /// Number of rows.
    pub fn height(&self) -> (h: usize)
        ensures
            h == self@.height,
    {
        self.height
    }

    /// The depth beyond which a search gives up.
    pub fn max_depth(&self) -> (d: usize)
        ensures
            d == self@.max_depth,
    {
        self.max_depth
    }

    /// The cell at column `x` of row `y`, or `Cell::Invalid` outside the grid.
    pub fn get(&self, x: usize, y: usize) -> (c: Cell)
        requires
            self.wf(),
        ensures
            c == self@.cell(x as int, y as int),
            c is Invalid <==> !self@.in_bounds(x as int, y as int),
    {
        match self.cells.get(y, x) {
            Some(c) => {
                proof {
                    lemma_slot(self@, x as int, y as int);
                }
                *c
            },
            None => Cell::Invalid,
        }
    }

    /// Whether the position has been visited; `false` outside the grid.
    pub fn is_visited(&self, x: usize, y: usize) -> (b: bool)
        requires
            self.wf(),
        ensures
            b == self@.seen(x as int, y as int),
    {
        match self.visited.get(y, x) {
            Some(b) => *b,
            None => false,
        }
    }

    /// Stores `value` at column `x` of row `y`. Outside the grid nothing
    /// happens.
    pub fn set(&mut self, x: usize, y: usize, value: Cell)
        requires
            old(self).wf(),
            old(self)@.in_bounds(x as int, y as int) ==> !(value is Invalid),
        ensures
            final(self).wf(),
            final(self)@ == old(self)@.with_cell(x as int, y as int, value),
            !old(self)@.in_bounds(x as int, y as int) ==> final(self)@ == old(self)@,
            final(self).source() == old(self).source(),
    {
        proof {
            lemma_with_cell(self@, x as int, y as int, value);
        }
        self.cells.set(y, x, value);
    }

    /// Flags the position as visited. Outside the grid nothing happens.
    pub fn mark_visited(&mut self, x: usize, y: usize)
        requires
            old(self).wf(),
        ensures
            final(self).wf(),
            final(self)@ == old(self)@.with_seen(x as int, y as int),
            final(self).source() == old(self).source(),
    {
        proof {
            lemma_with_seen(self@, x as int, y as int);
        }
        self.visited.set(y, x, true);
    }

    /// The position `(x + dx, y + dy)` if it lies inside the grid.
    fn offset(&self, x: usize, y: usize, dx: isize, dy: isize) -> (r: Option<(usize, usize)>)
        requires
            self.wf(),
            -1 <= dx <= 1,
            -1 <= dy <= 1,
        ensures
            self@.in_bounds(x + dx, y + dy) ==> r == Some(((x + dx) as usize, (y + dy) as usize)),
            !self@.in_bounds(x + dx, y + dy) ==> r is None,
    {
        let nx: usize = if dx < 0 {
            if x == 0 {
                return None;
            }
            x - 1
        } else if dx > 0 {
            if x >= self.width - 1 {
                return None;
            }
            x + 1
        } else {
            x
        };
        let ny: usize = if dy < 0 {
            if y == 0 {
                return None;
            }
            y - 1
        } else if dy > 0 {
            if y >= self.height - 1 {
                return None;
            }
            y + 1
        } else {
            y
        };
        if nx < self.width && ny < self.height {
            Some((nx, ny))
        } else {
            None
        }
    }

    /// The neighbour of `(x, y)` in direction `dir`, if it lies inside the
    /// grid.
    pub fn neighbor(&self, x: usize, y: usize, dir: Direction) -> (r: Option<(usize, usize)>)
        requires
            self.wf(),
        ensures
            self@.in_bounds(x + dir.dx(), y + dir.dy()) ==> r == Some(
                ((x + dir.dx()) as usize, (y + dir.dy()) as usize),
            ),
            !self@.in_bounds(x + dir.dx(), y + dir.dy()) ==> r is None,
    {
        let d = dir.delta();
        self.offset(x, y, d.0, d.1)
    }

    /// Whether `(x + dx, y + dy)` lies inside the grid and adds to a density
    /// count.
    fn counted(
        &self,
        x: usize,
        y: usize,
        dx: isize,
        dy: isize,
        count_winning_path: bool,
    ) -> (b: bool)
        requires
            self.wf(),
            -1 <= dx <= 1,
            -1 <= dy <= 1,
        ensures
            b == self@.counted_at(x + dx, y + dy, count_winning_path),
    {
        match self.offset(x, y, dx, dy) {
            Some((nx, ny)) => {
                let c = self.get(nx, ny);
                c.is_some() && (count_winning_path || !c.is_winning_path())
            },
            None => false,
        }
    }

    /// How many of the eight positions around `(x, y)` lie inside the grid
    /// and are occupied; winning path cells are counted only on request.
    pub fn count_surrounding_walls(
        &self,
        x: usize,
        y: usize,
        count_winning_path: bool,
    ) -> (n: usize)
        requires
            self.wf(),
        ensures
            n == self@.count_around(x as int, y as int, count_winning_path),
            n <= 8,
    {
        let mut count: usize = 0;
        let mut dy: isize = -1;
        while dy <= 1
            invariant
                self.wf(),
                -1 <= dy <= 2,
                count <= 3 * (dy + 1),
                count == self@.count_rows(x as int, y as int, count_winning_path, dy as int),
            decreases 2 - dy,
        {
            let mut dx: isize = -1;
            while dx <= 1
                invariant
                    self.wf(),
                    -1 <= dy <= 1,
                    -1 <= dx <= 2,
                    count <= 3 * (dy + 1) + (dx + 1),
                    count == self@.count_rows(x as int, y as int, count_winning_path, dy as int)
                        + self@.count_row(
                        x as int,
                        y as int,
                        count_winning_path,
                        dy as int,
                        dx as int,
                    ),
                decreases 2 - dx,
            {
                if !(dx == 0 && dy == 0) && self.counted(x, y, dx, dy, count_winning_path) {
                    count = count + 1;
                }
                dx = dx + 1;
            }
            dy = dy + 1;
        }
        proof {
            self@.lemma_count_rows(x as int, y as int, count_winning_path);
        }
        count
    }

    /// Whether `(x + dx, y + dy)` lies inside the grid and holds a cell that
    /// is occupied and not part of the winning path.
    fn blocking(&self, x: usize, y: usize, dx: isize, dy: isize) -> (b: bool)
        requires
            self.wf(),
            -1 <= dx <= 1,
            -1 <= dy <= 1,
        ensures
            b == self@.blocking_at(x + dx, y + dy),
    {
        match self.offset(x, y, dx, dy) {
            Some((nx, ny)) => {
                let c = self.get(nx, ny);
                c.is_some() && !c.is_winning_path()
            },
            None => false,
        }
    }

    /// Turns every corridor cell that touches an occupied cell off the
    /// winning path into a wall, in one pass from the top row down and from
    /// left to right within a row. A wall keeps the direction of the corridor
    /// it replaces.
    pub fn generate_walls(&mut self)
        requires
            old(self).wf(),
        ensures
            final(self).wf(),
            final(self)@ == old(self)@.with_walls(),
            final(self).source() == old(self).source(),
    {
        let ghost start = self@;
        let mut y: usize = 0;
        while y < self.height
            invariant
                self.wf(),
                self.source() == old(self).source(),
                self@.same_shape(start),
                y <= self.height,
                self@ == start.walls_through(y as nat, 0),
            decreases self.height - y,
        {
            let mut x: usize = 0;
            while x < self.width
                invariant
                    self.wf(),
                    self.source() == old(self).source(),
                    self@.same_shape(start),
                    y < self.height,
                    x <= self.width,
                    self@ == start.walls_through(y as nat, x as nat),
                decreases self.width - x,
            {
                match self.get(x, y) {
                    Cell::Path(_, dir) => {
                        let left = self.blocking(x, y, -1, 0);
                        let right = self.blocking(x, y, 1, 0);
                        let top = self.blocking(x, y, 0, -1);
                        let bottom = self.blocking(x, y, 0, 1);
                        if left || right || top || bottom {
                            self.set(x, y, Cell::Wall(dir));
                        }
                    },
                    _ => {},
                }
                x = x + 1;
            }
            y = y + 1;
        }
    }

    /// Draws the directions for the next steps of a walk: the compass in
    /// random order, cut down to the previous direction when the momentum
    /// draw, which succeeds `numerator` times in `denominator`, says so.
    /// Both draws are always made. The grid is left alone.
    pub fn candidates(
        &mut self,
        prev_direction: Option<Direction>,
        numerator: u32,
        denominator: u32,
    ) -> (v: Vec<Direction>)
        requires
            old(self).wf(),
            denominator > 0,
            numerator <= denominator,
        ensures
            final(self).wf(),
            final(self)@ == old(self)@,
            exists|shuffled: Seq<Direction>, momentum: bool|
                {
                    &&& shuffled.to_multiset() == compass().to_multiset()
                    &&& numerator == 0 ==> !momentum
                    &&& numerator == denominator ==> momentum
                    &&& v@ == #[trigger] candidate_list(shuffled, momentum, prev_direction)
                },
            prev_direction is Some && numerator == denominator ==> v@ == seq![prev_direction->0],
            prev_direction is None || numerator == 0 ==> v@.to_multiset()
                == compass().to_multiset(),
            prev_direction is None ==> forall|d: Direction| v@.contains(d),
            prev_direction matches Some(d) ==> v@.contains(d),
    {
        let mut directions = all_directions();
        random::shuffle(&mut directions, &mut self.rng);
        let momentum = random::ratio(&mut self.rng, numerator, denominator);
        let ghost shuffled = directions@;
        let v = choose_candidates(directions, momentum, prev_direction);
        proof {
            assert(v@ == candidate_list(shuffled, momentum, prev_direction));
            lemma_shuffled_compass_is_complete(shuffled);
            if prev_direction is Some {
                let d = prev_direction->0;
                assert(shuffled.contains(d));
                if momentum {
                    assert(v@[0] == d);
                }
            }
        }
        v
    }

    /// One decorative walk from `(x, y)`, `depth` steps into its corridor.
    ///
    /// Once `depth` has reached `max_depth` or the maze's own depth limit,
    /// the walk does nothing and draws nothing. Otherwise it flags `(x, y)`,
    /// draws the directions to try, `WALK_MOMENTUM` times out of
    /// `WALK_MOMENTUM_OUT_OF` only the previous one, and goes through them
    /// as `walk_among` says. Nothing is ever undone.
    pub fn generate_other_paths(
        &mut self,
        x: usize,
        y: usize,
        prev_direction: Option<Direction>,
        depth: usize,
        max_depth: usize,
    )
        requires
            old(self).wf(),
        ensures
            final(self).wf(),
            final(self)@.same_shape(old(self)@),
            old(self)@.walked_into(final(self)@, x as int, y as int),
            old(self)@.same_beyond(
                final(self)@,
                x as int,
                y as int,
                old(self)@.reach(depth as int, max_depth as int),
            ),
            max_depth == 0 ==> final(self)@ == old(self)@,
            old(self)@.reach(depth as int, max_depth as int) < 0 ==> final(self)@ == old(self)@
                && final(self).source() == old(self).source(),
            old(self)@.reach(depth as int, max_depth as int) >= 0 ==> {
                &&& old(self)@.in_bounds(x as int, y as int)
                    ==> final(self)@.seen(x as int, y as int)
                &&& old(self)@.hemmed_in(x as int, y as int)
                    ==> final(self)@ == old(self)@.with_seen(x as int, y as int)
                &&& prev_direction is None && old(self)@.in_bounds(x as int, y as int)
                    && !old(self)@.hemmed_in(x as int, y as int)
                    && old(self)@.open_ground(x as int, y as int)
                    ==> final(self)@.cell(x as int, y as int) matches Cell::Path(false, _)
            },
            old(self)@.reach(depth as int, max_depth as int) >= 1 && prev_direction is None
                && !old(self)@.hemmed_in(x as int, y as int) ==> exists|d: Direction| #[trigger]
                old(self)@.beckoning(x as int, y as int, d) && final(self)@.seen(
                    x + d.dx(),
                    y + d.dy(),
                ),
        decreases max_depth + 1 - depth, 1int,
    {
        let ghost start = self@;
        let ghost reach = start.reach(depth as int, max_depth as int);
        proof {
            self.lemma_wf();
            lemma_scattered_refl(start);
        }
        if depth >= self.max_depth || depth >= max_depth {
            return ;
        }
        self.mark_visited(x, y);
        proof {
            lemma_with_seen(start, x as int, y as int);
        }
        let directions = self.candidates(prev_direction, WALK_MOMENTUM, WALK_MOMENTUM_OUT_OF);
        self.walk_among(x, y, directions, depth, max_depth);
        proof {
            self.lemma_wf();
            lemma_walk_from_flag(
                start,
                self@,
                x as int,
                y as int,
                prev_direction,
                reach,
                directions@,
            );
        }
    }

    /// Goes on with a decorative walk from the flagged position `(x, y)`,
    /// trying the directions in `directions` in turn.
    ///
    /// A neighbour outside the grid, or with more than one occupied cell
    /// around it, is left alone. For any other neighbour the walk goes on
    /// from there, one step deeper, and where that neighbour is still empty
    /// the cell being left becomes a decorative corridor in that direction.
    pub fn walk_among(
        &mut self,
        x: usize,
        y: usize,
        directions: Vec<Direction>,
        depth: usize,
        max_depth: usize,
    )
        requires
            old(self).wf(),
            old(self)@.reach(depth as int, max_depth as int) >= 0,
            old(self)@.in_bounds(x as int, y as int) ==> old(self)@.seen(x as int, y as int),
        ensures
            final(self).wf(),
            final(self)@.same_shape(old(self)@),
            old(self)@.walked_among(
                final(self)@,
                x as int,
                y as int,
                old(self)@.reach(depth as int, max_depth as int),
                directions@,
            ),
        decreases max_depth + 1 - depth, 0int,
    {
        let ghost start = self@;
        let ghost reach = start.reach(depth as int, max_depth as int);
        proof {
            self.lemma_wf();
            lemma_walk_begins(start, x as int, y as int, reach);
        }
        let mut i: usize = 0;
        assert(directions@.take(0) =~= Seq::<Direction>::empty());
        while i < directions.len()
            invariant
                self.wf(),
                i <= directions.len(),
                0 <= reach == start.reach(depth as int, max_depth as int),
                depth < max_depth,
                self@.max_depth == start.max_depth,
                start.walking(self@, x as int, y as int, reach, directions@.take(i as int)),
            decreases directions.len() - i,
        {
            let dir = directions[i];
            let ghost now = self@;
            let ghost tried = directions@.take(i as int);
            proof {
                assert(directions@.take(i + 1) =~= tried.push(dir));
            }
            let mut goes_on = false;
            match self.neighbor(x, y, dir) {
                Some((nx, ny)) => {
                    if self.count_surrounding_walls(nx, ny, false) <= 1 {
                        proof {
                            assert(now.sparse(nx as int, ny as int)) by {
                                reveal(MazeView::sparse);
                            }
                        }
                        if self.get(nx, ny).is_empty() {
                            self.set(x, y, Cell::Path(false, dir));
                        }
                        assert(self@ == now.stamped(x as int, y as int, dir));
                        proof {
                            lemma_with_cell(now, x as int, y as int, Cell::Path(false, dir));
                        }
                        self.generate_other_paths(nx, ny, Some(dir), depth + 1, max_depth);
                        proof {
                            assert(now.stamped(x as int, y as int, dir).reach(
                                depth + 1,
                                max_depth as int,
                            ) == reach - 1);
                            lemma_walk_goes_on(
                                start,
                                now,
                                self@,
                                x as int,
                                y as int,
                                reach,
                                tried,
                                dir,
                            );
                        }
                        goes_on = true;
                    } else {
                        proof {
                            assert(!now.sparse(nx as int, ny as int)) by {
                                reveal(MazeView::sparse);
                            }
                        }
                    }
                },
                None => {},
            }
            proof {
                if !goes_on {
                    lemma_walk_skips(start, now, x as int, y as int, reach, tried, dir);
                }
            }
            i = i + 1;
        }
        proof {
            assert(directions@.take(i as int) =~= directions@);
            lemma_walk_ends(start, self@, x as int, y as int, reach, directions@);
        }
    }

    /// Searches for the winning path from `(x, y)`, `depth` steps away from
    /// where the search began, and marks it on the grid.
    ///
    /// Beyond the depth limit the search fails at once and changes nothing.
    /// At the destination it stores `End` and succeeds. In neither case is
    /// anything drawn. Anywhere else it flags `(x, y)`, draws the directions
    /// to try, `SEARCH_MOMENTUM` times out of `SEARCH_MOMENTUM_OUT_OF` only
    /// the previous one, and goes through them as `search_among` says.
    pub fn generate_winning_path(
        &mut self,
        x: usize,
        y: usize,
        prev_direction: Option<Direction>,
        depth: usize,
    ) -> (found: bool)
        requires
            old(self).wf(),
            old(self)@.in_bounds(x as int, y as int),
        ensures
            final(self).wf(),
            final(self)@.same_shape(old(self)@),
            old(self)@.searched_into(final(self)@, x as int, y as int),
            found ==> old(self)@.solved_into(
                final(self)@,
                x as int,
                y as int,
                old(self)@.max_depth - depth,
            ),
            !found ==> old(self)@.search_undone(final(self)@, x as int, y as int),
            depth > old(self)@.max_depth ==> !found && final(self)@ == old(self)@
                && final(self).source() == old(self).source(),
            distance(x as int, y as int, old(self)@.width - 1, old(self)@.height - 1)
                > old(self)@.max_depth - depth ==> !found,
            depth <= old(self)@.max_depth && old(self)@.is_goal(x as int, y as int) ==> found
                && final(self)@ == old(self)@.with_cell(x as int, y as int, Cell::End)
                && final(self).source() == old(self).source(),
            depth <= old(self)@.max_depth && !old(self)@.is_goal(x as int, y as int) ==> {
                &&& final(self)@.seen(x as int, y as int)
                &&& old(self)@.boxed_in(x as int, y as int)
                    ==> !found && final(self)@ == old(self)@.with_seen(x as int, y as int)
                &&& prev_direction is None && !old(self)@.boxed_in(x as int, y as int)
                    ==> departed(final(self)@.cell(x as int, y as int), x as int, y as int)
            },
            old(self)@.bound_to_succeed(
                x as int,
                y as int,
                prev_direction,
                old(self)@.max_depth - depth,
            ) ==> found,
            !found && depth < old(self)@.max_depth ==> forall|d: Direction|
                (prev_direction is None || prev_direction == Some(d))
                    && #[trigger] old(self)@.enterable(x as int, y as int, d)
                    ==> final(self)@.seen(x + d.dx(), y + d.dy())
                    && !old(self)@.is_goal(x + d.dx(), y + d.dy()),
        decreases old(self)@.max_depth + 1 - depth, 1int,
    {
        let ghost start = self@;
        let ghost budget = start.max_depth - depth;
        proof {
            self.lemma_wf();
            lemma_search_refl(start, x as int, y as int);
        }
        if depth > self.max_depth {
            return false;
        }
        if x == self.width - 1 && y == self.height - 1 {
            self.set(x, y, Cell::End);
            proof {
                lemma_goal_reached(start, x as int, y as int, budget);
                lemma_solved_is_near(start, self@, x as int, y as int, budget);
            }
            return true;
        }
        self.mark_visited(x, y);
        proof {
            lemma_with_seen(start, x as int, y as int);
        }
        let directions = self.candidates(
            prev_direction,
            SEARCH_MOMENTUM,
            SEARCH_MOMENTUM_OUT_OF,
        );
        let found = self.search_among(x, y, directions, depth);
        proof {
            self.lemma_wf();
            lemma_search_from_flag(
                start,
                self@,
                x as int,
                y as int,
                prev_direction,
                budget,
                directions@,
                found,
            );
        }
        found
    }

    /// Goes on with the search for the winning path from the flagged
    /// position `(x, y)`, trying the directions in `directions` in turn.
    ///
    /// A neighbour that is outside the grid, already visited, or already on
    /// the winning path is skipped. For any other neighbour the position
    /// being left is marked, `Start` at the origin and a winning path cell
    /// elsewhere, and the search goes on from the neighbour. If that
    /// succeeds, so does this search, at once. If it fails, the neighbour is
    /// reset to `Empty`, its flag is kept, and the next direction is tried.
    /// With no direction left the search fails.
    pub fn search_among(
        &mut self,
        x: usize,
        y: usize,
        directions: Vec<Direction>,
        depth: usize,
    ) -> (found: bool)
        requires
            old(self).wf(),
            old(self)@.in_bounds(x as int, y as int),
            !old(self)@.is_goal(x as int, y as int),
            old(self)@.seen(x as int, y as int),
            depth <= old(self)@.max_depth,
        ensures
            final(self).wf(),
            final(self)@.same_shape(old(self)@),
            old(self)@.searched_among(
                final(self)@,
                x as int,
                y as int,
                old(self)@.max_depth - depth,
                directions@,
                found,
            ),
        decreases old(self)@.max_depth + 1 - depth, 0int,
    {
        let ghost start = self@;
        let ghost budget = start.max_depth - depth;
        proof {
            self.lemma_wf();
            lemma_search_begins(start, x as int, y as int, budget);
        }
        let mut i: usize = 0;
        assert(directions@.take(0) =~= Seq::<Direction>::empty());
        while i < directions.len()
            invariant
                self.wf(),
                i <= directions.len(),
                start == old(self)@,
                start.in_bounds(x as int, y as int),
                depth <= start.max_depth < usize::MAX,
                budget == start.max_depth - depth,
                self@.same_shape(start),
                start.searching(self@, x as int, y as int, budget, directions@.take(i as int)),
            decreases directions.len() - i,
        {
            let dir = directions[i];
            let ghost now = self@;
            let ghost tried = directions@.take(i as int);
            proof {
                assert(directions@.take(i + 1) =~= tried.push(dir));
            }
            let mut entered = false;
            match self.neighbor(x, y, dir) {
                Some((nx, ny)) => {
                    if !self.is_visited(nx, ny) && !self.get(nx, ny).is_winning_path() {
                        assert(now.enterable(x as int, y as int, dir));
                        let mark = if x == 0 && y == 0 {
                            Cell::Start
                        } else {
                            Cell::Path(true, dir)
                        };
                        assert(mark == trail_mark(x as int, y as int, dir));
                        self.set(x, y, mark);
                        if self.generate_winning_path(nx, ny, Some(dir), depth + 1) {
                            proof {
                                lemma_search_succeeded(
                                    start,
                                    now,
                                    self@,
                                    x as int,
                                    y as int,
                                    budget,
                                    directions@,
                                    i as int,
                                );
                            }
                            return true;
                        }
                        proof {
                            lemma_search_backtracked(
                                start,
                                now,
                                self@,
                                x as int,
                                y as int,
                                budget,
                                tried,
                                dir,
                            );
                        }
                        self.set(nx, ny, Cell::Empty);
                        entered = true;
                    }
                },
                None => {},
            }
            proof {
                if !entered {
                    assert(!now.enterable(x as int, y as int, dir));
                    lemma_search_skips(start, now, x as int, y as int, budget, tried, dir);
                }
            }
            i = i + 1;
        }
        proof {
            assert(directions@.take(i as int) =~= directions@);
            lemma_search_ends(start, self@, x as int, y as int, budget, directions@);
        }
        false
    }

    /// Turns two random numbers into a position of the grid, the first into
    /// its column and the second into its row.
    pub fn position_from(&self, a: usize, b: usize) -> (p: (usize, usize))
        requires
            self.wf(),
        ensures
            p.0 == a % (self@.width as usize),
            p.1 == b % (self@.height as usize),
            self@.in_bounds(p.0 as int, p.1 as int),
    {
        (a % self.width, b % self.height)
    }

    /// Starts `walks` decorative walks at random positions, each followed
    /// for fewer than `corridor_depth` steps. Where that, or the depth limit
    /// of the maze, is zero, nothing happens. Otherwise every walk flags at
    /// least the position where it starts, and on a grid that is open
    /// everywhere the first walk leaves a decorative corridor there.
    pub fn scatter(&mut self, walks: usize, corridor_depth: usize)
        requires
            old(self).wf(),
        ensures
            final(self).wf(),
            final(self)@.same_shape(old(self)@),
            old(self)@.scattered_into(final(self)@),
            walks == 0 || corridor_depth == 0 || old(self)@.max_depth == 0
                ==> final(self)@ == old(self)@,
            walks > 0 && corridor_depth > 0 && old(self)@.max_depth > 0 ==> {
                &&& exists|x: int, y: int| #[trigger] final(self)@.seen(x, y)
                &&& open_everywhere(old(self)@) ==> exists|x: int, y: int|
                    (#[trigger] final(self)@.cell(x, y)) matches Cell::Path(false, _)
            },
    {
        let ghost start = self@;
        let ghost mut first: (int, int) = (0, 0);
        let ghost idle = corridor_depth == 0 || start.max_depth == 0;
        proof {
            lemma_scattered_refl(start);
        }
        let mut i: usize = 0;
        while i < walks
            invariant
                self.wf(),
                i <= walks,
                self@.same_shape(start),
                start.scattered_into(self@),
                idle == (corridor_depth == 0 || start.max_depth == 0),
                i == 0 || idle ==> self@ == start,
                i > 0 && !idle ==> self@.seen(first.0, first.1),
                i > 0 && !idle && open_everywhere(start) ==> self@.cell(
                    first.0,
                    first.1,
                ) matches Cell::Path(false, _),
            decreases walks - i,
        {
            let ghost before = self@;
            let a = random::next_usize(&mut self.rng);
            let b = random::next_usize(&mut self.rng);
            let (x, y) = self.position_from(a, b);
            self.generate_other_paths(x, y, None, 0, corridor_depth);
            proof {
                lemma_walk_keeps(before, self@, x as int, y as int, first.0, first.1);
                lemma_scattered_trans(start, before, self@);
                if i == 0 {
                    first = (x as int, y as int);
                    if !idle && open_everywhere(start) {
                        assert(start.open_ground(x as int, y as int));
                    }
                }
            }
            i = i + 1;
        }
    }

    /// Puts the cells and the flags of a snapshot back.
    fn restore(&mut self, cells: &Flat2DArray<Cell>, visited: &Flat2DArray<bool>)
        requires
            old(self).wf(),
            cells.cols() == old(self)@.width,
            cells.rows() == old(self)@.height,
            visited.cols() == old(self)@.width,
            visited.rows() == old(self)@.height,
            (MazeView { cells: cells@, visited: visited@, ..old(self)@ }).wf(),
        ensures
            final(self).wf(),
            final(self)@ == (MazeView { cells: cells@, visited: visited@, ..old(self)@ }),
    {
        self.cells = cells.clone();
        self.visited = visited.clone();
    }

    /// Searches for the winning path from the origin until a search succeeds
    /// or `max_retries` failed searches have been followed by one more.
    /// After each failure the cells and the flags are put back as they were
    /// on entry; the random source moves on, so the next search differs.
    ///
    /// Returns the number of failed searches before the successful one, or
    /// `None` if none succeeded. A grid of a single cell is solved at once.
    pub fn carve_with_retries(&mut self, max_retries: usize) -> (retries: Option<usize>)
        requires
            old(self).wf(),
        ensures
            final(self).wf(),
            final(self)@.same_shape(old(self)@),
            old(self)@.searched_into(final(self)@, 0, 0),
            retries is None ==> final(self)@ == old(self)@,
            retries matches Some(n) ==> {
                &&& n <= max_retries
                &&& old(self)@.solved_into(final(self)@, 0, 0, old(self)@.max_depth as int)
                &&& final(self)@.solvable_within(0, 0, old(self)@.max_depth as int)
                &&& final(self)@.cell(old(self)@.width - 1, old(self)@.height - 1) is End
                &&& !old(self)@.is_goal(0, 0) ==> final(self)@.cell(0, 0) is Start
            },
            old(self)@.is_goal(0, 0) ==> retries == Some(0usize),
            old(self)@.bound_to_succeed(0, 0, None, old(self)@.max_depth as int) ==> retries
                == Some(0usize),
            old(self)@.max_depth >= 1 && (exists|d: Direction| #[trigger]
                old(self)@.enterable(0, 0, d) && old(self)@.is_goal(d.dx(), d.dy())) ==> retries
                == Some(0usize),
            old(self)@.width + old(self)@.height - 2 > old(self)@.max_depth ==> retries is None,
            !old(self)@.is_goal(0, 0) && old(self)@.boxed_in(0, 0) ==> retries is None,
            old(self)@.occupied_is_seen() && old(self)@.walls_supported()
                ==> final(self)@.walls_supported(),
    {
        let ghost start = self@;
        proof {
            self.lemma_wf();
            lemma_search_refl(start, 0, 0);
        }
        let cells = self.cells.clone();
        let visited = self.visited.clone();
        let mut failed: usize = 0;
        loop
            invariant
                self.wf(),
                start.wf(),
                start == old(self)@,
                self@ == start,
                start.searched_into(start, 0, 0),
                failed <= max_retries,
                start.is_goal(0, 0) ==> failed == 0,
                start.bound_to_succeed(0, 0, None, start.max_depth as int) ==> failed == 0,
                start.max_depth >= 1 && (exists|d: Direction| #[trigger]
                    start.enterable(0, 0, d) && start.is_goal(d.dx(), d.dy())) ==> failed == 0,
                cells@ == start.cells,
                visited@ == start.visited,
                cells.cols() == start.width,
                cells.rows() == start.height,
                visited.cols() == start.width,
                visited.rows() == start.height,
            decreases max_retries - failed,
        {
            if self.generate_winning_path(0, 0, None, 0) {
                proof {
                    self.lemma_wf();
                    lemma_solved_is_near(start, self@, 0, 0, start.max_depth - 0);
                    let moves = choose|moves: Seq<Direction>| #[trigger]
                        self@.trail(0, 0, moves) && moves.len() <= start.max_depth - 0;
                    lemma_trail_ends(self@, 0, 0, moves);
                    if start.occupied_is_seen() && start.walls_supported() {
                        lemma_search_keeps_walls_supported(start, self@);
                    }
                }
                return Some(failed);
            }
            self.restore(&cells, &visited);
            if failed == max_retries {
                return None;
            }
            failed = failed + 1;
        }
    }

    /// Generates a maze from scratch.
    ///
    /// On a blank grid, `walks` decorative walks of fewer than
    /// `corridor_depth` steps are scattered, corridors that touch something
    /// become walls, and the winning path is searched for until it is found
    /// or `max_retries` retries are used up.
    ///
    /// Returns the maze, and the number of retries it took or `None` if the
    /// winning path was not found; the maze then holds the corridors and
    /// walls only.
    pub fn generate(
        width: usize,
        height: usize,
        max_depth: usize,
        seed: u64,
        walks: usize,
        corridor_depth: usize,
        max_retries: usize,
    ) -> (r: (Maze, Option<usize>))
        requires
            width > 0,
            height > 0,
            width * height <= usize::MAX,
            max_depth < usize::MAX,
        ensures
            r.0.wf(),
            r.0@.same_shape(MazeView::blank(width as nat, height as nat, max_depth as nat)),
            r.1 matches Some(n) ==> n <= max_retries && r.0@.finished(),
            width == 1 && height == 1 ==> r.1 == Some(0usize),
            walks == 0 && width + height == 3 && max_depth >= 1 ==> r.1 == Some(0usize),
            width + height - 2 > max_depth ==> r.1 is None,
            r.0@.walls_supported(),
            exists|scattered: MazeView|
                {
                    &&& #[trigger] MazeView::blank(
                        width as nat,
                        height as nat,
                        max_depth as nat,
                    ).scattered_into(scattered)
                    &&& walks == 0 || corridor_depth == 0 || max_depth == 0 ==> scattered
                        == MazeView::blank(width as nat, height as nat, max_depth as nat)
                    &&& walks > 0 && corridor_depth > 0 && max_depth > 0 ==> {
                        &&& exists|x: int, y: int| #[trigger] scattered.seen(x, y)
                        &&& width > 1 || height > 1 ==> exists|x: int, y: int|
                            (#[trigger] scattered.cell(x, y)) matches Cell::Path(false, _)
                    }
                    &&& no_winning_path(scattered.with_walls())
                    &&& scattered.with_walls().searched_into(r.0@, 0, 0)
                    &&& scattered.with_walls().bound_to_succeed(0, 0, None, max_depth as int)
                        ==> r.1 == Some(0usize)
                    &&& r.1 is None ==> r.0@ == scattered.with_walls()
                    &&& r.1 is Some ==> scattered.with_walls().solved_into(
                        r.0@,
                        0,
                        0,
                        max_depth as int,
                    )
                },
    {
        let mut maze = Maze::new(width, height, max_depth, seed);
        let ghost blank = maze@;
        proof {
            lemma_blank(width as nat, height as nat, max_depth as nat);
            assert(blank.walls_supported()) by {
                assert forall|x: int, y: int|
                    blank.in_bounds(x, y) && (#[trigger] blank.cell(x, y)) is Wall
                implies blank.blocked(x, y) by {
                    assert(blank.cell(x, y) == Cell::Empty);
                }
            }
            if width > 1 || height > 1 {
                lemma_blank_is_open(width as nat, height as nat, max_depth as nat);
            }
            lemma_blank_has_no_walls(width as nat, height as nat, max_depth as nat);
        }
        maze.scatter(walks, corridor_depth);
        let ghost scattered = maze@;
        proof {
            maze.lemma_wf();
            lemma_scattered_keeps_occupied_seen(blank, scattered);
            lemma_scattered_keeps_walls_supported(blank, scattered);
            lemma_scattered_adds_no_winning_path(blank, scattered);
            lemma_with_walls(scattered);
            assert(no_winning_path(scattered.with_walls())) by {
                assert forall|x: int, y: int|
                    !(#[trigger] scattered.with_walls().cell(x, y)).is_winning_path() by {
                    let c = scattered.cell(x, y);
                }
            }
            if walks == 0 && width + height == 3 && max_depth >= 1 {
                let d = if width == 2 {
                    Direction::Right
                } else {
                    Direction::Down
                };
                assert(blank.is_goal(d.dx(), d.dy()));
                assert(blank.cell(d.dx(), d.dy()) == Cell::Empty);
                assert(!blank.seen(d.dx(), d.dy()));
                assert(blank.enterable(0, 0, d));
            }
        }
        maze.generate_walls();
        let retries = maze.carve_with_retries(max_retries);
        (maze, retries)
    }
}

} // verus!
