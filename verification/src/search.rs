//! The search for the winning path: how the steps of a search add up, and
//! what a trail is.

use crate::cell::{Cell, Direction};
use crate::model::{
    departed, distance, lemma_blank, lemma_with_cell, lemma_with_seen, positions, trail_mark,
    MazeView,
};
use crate::walls::no_winning_path;
use vstd::prelude::*;

verus! {

/// A search that does nothing is a search.
pub proof fn lemma_search_refl(m: MazeView, x: int, y: int)
    ensures
        m.searched_into(m, x, y),
        m.search_undone(m, x, y),
{
    reveal(MazeView::searched_into);
    reveal(MazeView::search_undone);
}

/// Arriving at the destination: storing `End` there is a search that has
/// succeeded with no move left to make.
pub proof fn lemma_goal_reached(m: MazeView, x: int, y: int, budget: int)
    requires
        m.wf(),
        m.in_bounds(x, y),
        m.is_goal(x, y),
        budget >= 0,
    ensures
        m.searched_into(m.with_cell(x, y, Cell::End), x, y),
        m.solved_into(m.with_cell(x, y, Cell::End), x, y, budget),
{
    reveal(MazeView::searched_into);
    lemma_with_cell(m, x, y, Cell::End);
    let n = m.with_cell(x, y, Cell::End);
    let none = Seq::<Direction>::empty();
    assert(n.trail(x, y, none));
    assert(m.fresh_ahead(x, y, none));
    assert(positions(x, y, none)[0] == (x, y));
    assert(m.clear_off(n, x, y, none));
}

/// What lies ahead and may be stepped on in a later state could be stepped
/// on in an earlier one, if that holds of every single position.
pub proof fn lemma_fresh_ahead_earlier(
    earlier: MazeView,
    later: MazeView,
    x: int,
    y: int,
    moves: Seq<Direction>,
)
    requires
        forall|px: int, py: int| #[trigger] later.fresh(px, py) ==> earlier.fresh(px, py),
        later.fresh_ahead(x, y, moves),
    ensures
        earlier.fresh_ahead(x, y, moves),
    decreases moves.len(),
{
    if moves.len() > 0 {
        lemma_fresh_ahead_earlier(
            earlier,
            later,
            x + moves[0].dx(),
            y + moves[0].dy(),
            moves.drop_first(),
        );
    }
}

/// A trail makes at least as many moves as the destination is steps away.
pub proof fn lemma_trail_length(m: MazeView, x: int, y: int, moves: Seq<Direction>)
    requires
        m.trail(x, y, moves),
    ensures
        moves.len() >= distance(x, y, m.width - 1, m.height - 1),
    decreases moves.len(),
{
    if moves.len() > 0 {
        lemma_trail_length(m, x + moves[0].dx(), y + moves[0].dy(), moves.drop_first());
    }
}

/// A search that succeeded from `(x, y)` within `budget` moves did not
/// start farther than that from the destination.
pub proof fn lemma_solved_is_near(a: MazeView, b: MazeView, x: int, y: int, budget: int)
    requires
        a.solved_into(b, x, y, budget),
    ensures
        distance(x, y, b.width - 1, b.height - 1) <= budget,
        b.solvable_within(x, y, budget),
{
    let moves = choose|moves: Seq<Direction>|
        #[trigger] b.trail(x, y, moves) && moves.len() <= budget && a.fresh_ahead(x, y, moves)
            && a.clear_off(b, x, y, moves);
    lemma_trail_length(b, x, y, moves);
}

/// One failed attempt inside a search from `(x, y)`. The search so far led
/// from `start` to `tried`. It then marked its departure towards the
/// unvisited neighbour `(nx, ny)`, the search from there failed, and the
/// neighbour was reset. All of it together is still a failed search from
/// `(x, y)`.
proof fn lemma_backtracked(
    start: MazeView,
    tried: MazeView,
    entered: MazeView,
    x: int,
    y: int,
    nx: int,
    ny: int,
    d: Direction,
)
    requires
        start.wf(),
        tried.wf(),
        entered.wf(),
        start.searched_into(tried, x, y),
        start.search_undone(tried, x, y),
        tried.seen(x, y),
        !start.is_goal(x, y),
        tried.fresh(nx, ny),
        nx != x || ny != y,
        tried.with_cell(x, y, trail_mark(x, y, d)).searched_into(entered, nx, ny),
        tried.with_cell(x, y, trail_mark(x, y, d)).search_undone(entered, nx, ny),
    ensures
        entered.with_cell(nx, ny, Cell::Empty).wf(),
        entered.with_cell(nx, ny, Cell::Empty).same_shape(start),
        start.searched_into(entered.with_cell(nx, ny, Cell::Empty), x, y),
        start.search_undone(entered.with_cell(nx, ny, Cell::Empty), x, y),
        entered.with_cell(nx, ny, Cell::Empty).seen(x, y),
        entered.with_cell(nx, ny, Cell::Empty).cell(x, y) == trail_mark(x, y, d),
        forall|px: int, py: int|
            tried.seen(px, py) || entered.seen(px, py) ==> #[trigger] entered.with_cell(
                nx,
                ny,
                Cell::Empty,
            ).seen(px, py),
        start.fresh(nx, ny),
{
    reveal(MazeView::searched_into);
    reveal(MazeView::search_undone);
    let marked = tried.with_cell(x, y, trail_mark(x, y, d));
    let reset = entered.with_cell(nx, ny, Cell::Empty);
    let gx = start.width - 1;
    let gy = start.height - 1;
    assert(reset.seen(gx, gy) == start.seen(gx, gy)) by {
        lemma_with_cell(tried, x, y, trail_mark(x, y, d));
        lemma_with_cell(entered, nx, ny, Cell::Empty);
        assert(marked.seen(gx, gy) == tried.seen(gx, gy));
        assert(reset.seen(gx, gy) == entered.seen(gx, gy));
    }
    assert forall|px: int, py: int|
        tried.seen(px, py) || entered.seen(px, py) implies #[trigger] reset.seen(px, py) by {
        lemma_with_cell(tried, x, y, trail_mark(x, y, d));
        lemma_with_cell(entered, nx, ny, Cell::Empty);
        if tried.seen(px, py) {
            assert(marked.seen(px, py));
            assert(entered.seen(px, py));
        }
    }
    assert(start.fresh(nx, ny)) by {
        if start.seen(nx, ny) {
            assert(tried.seen(nx, ny));
        }
        if start.cell(nx, ny).is_winning_path() {
            assert(tried.cell(nx, ny) == start.cell(nx, ny));
        }
    }
    assert forall|x2: int, y2: int|
        #![trigger reset.cell(x2, y2)]
        reset.cell(x2, y2).is_winning_path() && !start.cell(x2, y2).is_winning_path() implies reset.seen(
        x2,
        y2,
    ) by {
        lemma_with_cell(tried, x, y, trail_mark(x, y, d));
        lemma_with_cell(entered, nx, ny, Cell::Empty);
        if x2 == x && y2 == y {
            assert(marked.seen(x, y));
            assert(entered.seen(x, y));
        } else if x2 == nx && y2 == ny {
        } else {
            assert(reset.cell(x2, y2) == entered.cell(x2, y2));
            assert(marked.cell(x2, y2) == tried.cell(x2, y2));
            if tried.cell(x2, y2).is_winning_path() {
                assert(tried.seen(x2, y2));
                assert(marked.seen(x2, y2));
                assert(entered.seen(x2, y2));
            } else {
                assert(entered.seen(x2, y2));
            }
            assert(reset.seen(x2, y2));
        }
    }
    lemma_with_cell(tried, x, y, trail_mark(x, y, d));
    lemma_with_cell(entered, nx, ny, Cell::Empty);
    assert(marked.seen(x, y));
    assert(entered.seen(x, y));
    assert(reset.seen(x, y));
    assert forall|x2: int, y2: int| #[trigger] start.seen(x2, y2) implies reset.seen(x2, y2) by {
        assert(tried.seen(x2, y2));
        assert(marked.seen(x2, y2));
        assert(entered.seen(x2, y2));
    }
    assert(entered.cell(x, y) == marked.cell(x, y));
    assert(reset.cell(x, y) == trail_mark(x, y, d));
    assert forall|x2: int, y2: int|
        #![trigger reset.cell(x2, y2)]
        (x2 != x || y2 != y) implies (reset.cell(x2, y2) == start.cell(x2, y2) || reset.cell(
        x2,
        y2,
    ) is Empty) && (start.seen(x2, y2) || start.cell(x2, y2).is_winning_path() ==> reset.cell(
        x2,
        y2,
    ) == start.cell(x2, y2)) by {
        if x2 == nx && y2 == ny {
            assert(!start.seen(x2, y2)) by {
                if start.seen(x2, y2) {
                    assert(tried.seen(x2, y2));
                }
            }
            assert(!start.cell(x2, y2).is_winning_path()) by {
                if start.cell(x2, y2).is_winning_path() {
                    assert(tried.cell(x2, y2) == start.cell(x2, y2));
                }
            }
        } else {
            assert(reset.cell(x2, y2) == entered.cell(x2, y2));
            assert(marked.cell(x2, y2) == tried.cell(x2, y2));
            assert(entered.cell(x2, y2) == marked.cell(x2, y2) || entered.cell(x2, y2) is Empty);
            assert(tried.cell(x2, y2) == start.cell(x2, y2) || tried.cell(x2, y2) is Empty);
            if start.seen(x2, y2) || start.cell(x2, y2).is_winning_path() {
                assert(start.seen(x2, y2) ==> tried.seen(x2, y2));
                assert(tried.seen(x2, y2) ==> marked.seen(x2, y2));
                assert(tried.cell(x2, y2) == start.cell(x2, y2));
                assert(entered.cell(x2, y2) == marked.cell(x2, y2));
            }
        }
    }
}

/// The successful attempt inside a search from `(x, y)`. The search so far
/// led from `start` to `tried`. It then marked its departure in direction
/// `d` towards an unvisited neighbour, and the search from there reached the
/// destination. The whole is a search from `(x, y)` that reaches the
/// destination with one more move.
proof fn lemma_succeeded(
    start: MazeView,
    tried: MazeView,
    entered: MazeView,
    x: int,
    y: int,
    d: Direction,
    budget: int,
)
    requires
        start.wf(),
        tried.wf(),
        entered.wf(),
        start.searched_into(tried, x, y),
        start.search_undone(tried, x, y),
        tried.seen(x, y),
        !start.is_goal(x, y),
        tried.fresh(x + d.dx(), y + d.dy()),
        tried.with_cell(x, y, trail_mark(x, y, d)).searched_into(
            entered,
            x + d.dx(),
            y + d.dy(),
        ),
        tried.with_cell(x, y, trail_mark(x, y, d)).solved_into(
            entered,
            x + d.dx(),
            y + d.dy(),
            budget - 1,
        ),
    ensures
        start.searched_into(entered, x, y),
        start.solved_into(entered, x, y, budget),
        entered.seen(x, y),
        entered.cell(x, y) == trail_mark(x, y, d),
        forall|px: int, py: int| tried.seen(px, py) ==> #[trigger] entered.seen(px, py),
        start.fresh(x + d.dx(), y + d.dy()),
{
    reveal(MazeView::searched_into);
    reveal(MazeView::search_undone);
    let nx = x + d.dx();
    let ny = y + d.dy();
    let marked = tried.with_cell(x, y, trail_mark(x, y, d));
    lemma_with_cell(tried, x, y, trail_mark(x, y, d));
    let gx = start.width - 1;
    let gy = start.height - 1;
    assert(entered.seen(gx, gy) == start.seen(gx, gy)) by {
        assert(marked.seen(gx, gy) == tried.seen(gx, gy));
    }
    assert forall|px: int, py: int| tried.seen(px, py) implies #[trigger] entered.seen(px, py) by {
        assert(marked.seen(px, py));
    }
    assert forall|x2: int, y2: int|
        #![trigger entered.cell(x2, y2)]
        entered.cell(x2, y2).is_winning_path() && !start.cell(x2, y2).is_winning_path() implies entered.seen(
        x2,
        y2,
    ) by {
        if x2 == x && y2 == y {
            assert(marked.seen(x, y));
        } else {
            assert(marked.cell(x2, y2) == tried.cell(x2, y2));
            if tried.cell(x2, y2).is_winning_path() {
                assert(tried.seen(x2, y2));
                assert(marked.seen(x2, y2));
            }
        }
    }
    assert(marked.seen(x, y));
    assert(entered.seen(x, y));
    assert forall|x2: int, y2: int| #[trigger] start.seen(x2, y2) implies entered.seen(x2, y2) by {
        assert(tried.seen(x2, y2));
        assert(marked.seen(x2, y2));
    }
    assert(entered.cell(x, y) == marked.cell(x, y));
    assert(entered.cell(x, y) == trail_mark(x, y, d));
    assert forall|x2: int, y2: int|
        #![trigger entered.cell(x2, y2)]
        (x2 != x || y2 != y) implies (entered.cell(x2, y2) == start.cell(x2, y2) || entered.carved(
        entered.cell(x2, y2),
        x2,
        y2,
    )) && (start.seen(x2, y2) || start.cell(x2, y2).is_winning_path() ==> entered.cell(x2, y2)
        == start.cell(x2, y2)) by {
        assert(marked.cell(x2, y2) == tried.cell(x2, y2));
        assert(tried.cell(x2, y2) == start.cell(x2, y2) || tried.cell(x2, y2) is Empty);
        if x2 == nx && y2 == ny {
            assert(!start.seen(x2, y2)) by {
                if start.seen(x2, y2) {
                    assert(tried.seen(x2, y2));
                }
            }
            assert(!start.cell(x2, y2).is_winning_path()) by {
                if start.cell(x2, y2).is_winning_path() {
                    assert(tried.cell(x2, y2) == start.cell(x2, y2));
                }
            }
        } else {
            if start.seen(x2, y2) || start.cell(x2, y2).is_winning_path() {
                assert(start.seen(x2, y2) ==> tried.seen(x2, y2));
                assert(tried.seen(x2, y2) ==> marked.seen(x2, y2));
                assert(tried.cell(x2, y2) == start.cell(x2, y2));
                assert(entered.cell(x2, y2) == marked.cell(x2, y2));
            }
        }
    }
    let rest = choose|moves: Seq<Direction>|
        #[trigger] entered.trail(nx, ny, moves) && moves.len() <= budget - 1 && marked.fresh_ahead(
            nx,
            ny,
            moves,
        ) && marked.clear_off(entered, nx, ny, moves);
    assert forall|px: int, py: int| #[trigger] marked.fresh(px, py) implies start.fresh(px, py) by {
        assert(px != x || py != y);
        assert(marked.cell(px, py) == tried.cell(px, py));
        assert(!tried.seen(px, py));
        if start.seen(px, py) {
            assert(tried.seen(px, py));
        }
        if start.cell(px, py).is_winning_path() {
            assert(tried.cell(px, py) == start.cell(px, py));
        }
    }
    lemma_fresh_ahead_earlier(start, marked, nx, ny, rest);
    assert(start.fresh(nx, ny)) by {
        if start.seen(nx, ny) {
            assert(tried.seen(nx, ny));
        }
        if start.cell(nx, ny).is_winning_path() {
            assert(tried.cell(nx, ny) == start.cell(nx, ny));
        }
    }
    let moves = seq![d] + rest;
    assert(moves[0] == d);
    assert(moves.drop_first() =~= rest);
    assert(entered.trail(x, y, moves));
    assert(start.fresh_ahead(x, y, moves));
    let way = positions(x, y, moves);
    let tail = positions(nx, ny, rest);
    assert(way == seq![(x, y)] + tail);
    assert forall|px: int, py: int|
        #![trigger entered.cell(px, py)]
        !way.contains((px, py)) implies entered.cell(px, py) == start.cell(px, py) || entered.cell(
        px,
        py,
    ) is Empty by {
        assert(way[0] == (x, y));
        assert(px != x || py != y);
        if tail.contains((px, py)) {
            let i = choose|i: int| 0 <= i < tail.len() && tail[i] == (px, py);
            assert(way[i + 1] == (px, py));
        }
        assert(marked.cell(px, py) == tried.cell(px, py));
        assert(tried.cell(px, py) == start.cell(px, py) || tried.cell(px, py) is Empty);
    }
    assert(start.clear_off(entered, x, y, moves));
}

/// A solution search from the origin keeps every wall supported, provided
/// that every occupied cell was among the visited when it began: the search
/// steps only on unvisited positions, so it overwrites neither a wall nor
/// what supports one, except at the origin, where what it writes supports
/// as well.
pub proof fn lemma_search_keeps_walls_supported(a: MazeView, b: MazeView)
    requires
        a.wf(),
        b.wf(),
        a.searched_into(b, 0, 0),
        a.occupied_is_seen(),
        a.walls_supported(),
    ensures
        b.walls_supported(),
{
    reveal(MazeView::searched_into);
    assert forall|x: int, y: int|
        #![trigger b.cell(x, y)]
        b.blocking_at(x, y) || !a.blocking_at(x, y) by {
        if a.blocking_at(x, y) {
            assert(a.cell(x, y).is_some());
            assert(a.seen(x, y));
            if x != 0 || y != 0 {
                assert(b.cell(x, y) == a.cell(x, y));
            }
        }
    }
    assert forall|x: int, y: int|
        b.in_bounds(x, y) && (#[trigger] b.cell(x, y)) is Wall
    implies b.blocked(x, y) by {
        assert(a.cell(x, y) is Wall);
        assert(a.blocked(x, y));
        assert(b.blocking_at(x - 1, y) || !a.blocking_at(x - 1, y)) by {
            let c = b.cell(x - 1, y);
        }
        assert(b.blocking_at(x + 1, y) || !a.blocking_at(x + 1, y)) by {
            let c = b.cell(x + 1, y);
        }
        assert(b.blocking_at(x, y - 1) || !a.blocking_at(x, y - 1)) by {
            let c = b.cell(x, y - 1);
        }
        assert(b.blocking_at(x, y + 1) || !a.blocking_at(x, y + 1)) by {
            let c = b.cell(x, y + 1);
        }
    }
}

/// Where a trail exists the destination holds `End`, and a trail with a
/// move to make starts at a cell that holds the mark of that move.
pub proof fn lemma_trail_ends(m: MazeView, x: int, y: int, moves: Seq<Direction>)
    requires
        m.trail(x, y, moves),
    ensures
        m.cell(m.width - 1, m.height - 1) is End,
        moves.len() > 0 ==> m.cell(x, y) == trail_mark(x, y, moves[0]),
        moves.len() == 0 <==> m.is_goal(x, y),
    decreases moves.len(),
{
    if moves.len() > 0 {
        lemma_trail_ends(m, x + moves[0].dx(), y + moves[0].dy(), moves.drop_first());
    }
}

/// Whether two positions are orthogonal neighbours.
pub open spec fn adjacent(a: (int, int), b: (int, int)) -> bool {
    distance(a.0, a.1, b.0, b.1) == 1
}

/// A trail is a connected sequence of cells. It has one position more than
/// it has moves, starts where the trail starts and ends at the destination;
/// consecutive positions are orthogonal neighbours; every position lies
/// inside the grid; the last holds `End` and each one before it holds
/// `Start` or a winning path cell.
pub proof fn lemma_trail_is_connected(m: MazeView, x: int, y: int, moves: Seq<Direction>)
    requires
        m.wf(),
        m.trail(x, y, moves),
    ensures
        positions(x, y, moves).len() == moves.len() + 1,
        positions(x, y, moves)[0] == (x, y),
        positions(x, y, moves).last() == (m.width - 1, m.height - 1),
        forall|i: int|
            0 <= i < moves.len() ==> adjacent(
                #[trigger] positions(x, y, moves)[i],
                positions(x, y, moves)[i + 1],
            ),
        forall|i: int|
            0 <= i <= moves.len() ==> m.in_bounds(
                (#[trigger] positions(x, y, moves)[i]).0,
                positions(x, y, moves)[i].1,
            ),
        forall|i: int|
            0 <= i < moves.len() ==> {
                let p = #[trigger] positions(x, y, moves)[i];
                m.cell(p.0, p.1) is Start || m.cell(p.0, p.1).is_winning_path()
            },
        m.cell(positions(x, y, moves).last().0, positions(x, y, moves).last().1) is End,
    decreases moves.len(),
{
    let ps = positions(x, y, moves);
    if moves.len() > 0 {
        let nx = x + moves[0].dx();
        let ny = y + moves[0].dy();
        let rest = moves.drop_first();
        let tail = positions(nx, ny, rest);
        lemma_trail_is_connected(m, nx, ny, rest);
        assert(ps == seq![(x, y)] + tail);
        assert(ps[0] == (x, y));
        assert forall|i: int| 1 <= i < ps.len() implies #[trigger] ps[i] == tail[i - 1] by {}
        assert(ps.last() == tail.last());
        assert forall|i: int| 0 <= i < moves.len() implies adjacent(
            #[trigger] ps[i],
            ps[i + 1],
        ) by {
            if i == 0 {
                assert(ps[1] == tail[0]);
            } else {
                assert(ps[i] == tail[i - 1]);
                assert(ps[i + 1] == tail[i]);
                assert(adjacent(tail[i - 1], tail[i]));
            }
        }
        assert forall|i: int| 0 <= i <= moves.len() implies m.in_bounds(
            (#[trigger] ps[i]).0,
            ps[i].1,
        ) by {
            if i > 0 {
                assert(ps[i] == tail[i - 1]);
            }
        }
        assert forall|i: int| 0 <= i < moves.len() implies {
            let p = #[trigger] ps[i];
            m.cell(p.0, p.1) is Start || m.cell(p.0, p.1).is_winning_path()
        } by {
            if i > 0 {
                assert(ps[i] == tail[i - 1]);
            }
        }
    } else {
        assert(ps == seq![(x, y)]);
    }
}

/// Whether `route` is a way through the maze: a sequence of positions
/// inside the grid, from the origin to the destination, each an orthogonal
/// neighbour of the one before, the last holding `End` and every other one
/// `Start` or a winning path cell.
pub open spec fn winning_route(m: MazeView, route: Seq<(int, int)>) -> bool {
    &&& route.len() >= 1
    &&& route[0] == (0int, 0int)
    &&& route.last() == (m.width - 1, m.height - 1)
    &&& forall|i: int| 0 <= i < route.len() - 1 ==> adjacent(#[trigger] route[i], route[i + 1])
    &&& forall|i: int|
        0 <= i < route.len() ==> m.in_bounds((#[trigger] route[i]).0, route[i].1)
    &&& forall|i: int|
        0 <= i < route.len() - 1 ==> {
            let p = #[trigger] route[i];
            m.cell(p.0, p.1) is Start || m.cell(p.0, p.1).is_winning_path()
        }
    &&& m.cell(route.last().0, route.last().1) is End
}

/// A finished maze has a way through that makes no more moves than the
/// depth limit allows: it goes through at most one position more than that.
pub proof fn lemma_finished_has_route(m: MazeView)
    requires
        m.finished(),
    ensures
        exists|route: Seq<(int, int)>| #[trigger]
            winning_route(m, route) && route.len() <= m.max_depth + 1,
{
    let moves = choose|moves: Seq<Direction>| #[trigger]
        m.trail(0, 0, moves) && moves.len() <= m.max_depth as int;
    let route = positions(0, 0, moves);
    lemma_trail_is_connected(m, 0, 0, moves);
    assert(winning_route(m, route));
}

/// The positions that hold a winning path cell.
pub open spec fn winning_cells(m: MazeView) -> Set<(int, int)> {
    Set::new(|p: (int, int)| m.in_bounds(p.0, p.1) && m.cell(p.0, p.1).is_winning_path())
}

/// A search that succeeds on a grid without winning path cells leaves
/// winning path cells on its trail only, whatever it tried on the way. There
/// are no more of them than the trail has moves, and one less where the
/// trail starts at the origin, which holds `Start`.
pub proof fn lemma_winning_cells_are_on_the_trail(
    before: MazeView,
    after: MazeView,
    x: int,
    y: int,
    budget: int,
)
    requires
        after.wf(),
        before.solved_into(after, x, y, budget),
        no_winning_path(before),
    ensures
        exists|moves: Seq<Direction>|
            #[trigger] after.trail(x, y, moves) && moves.len() <= budget && forall|
                px: int,
                py: int,
            |
                (#[trigger] after.cell(px, py)).is_winning_path() ==> positions(
                    x,
                    y,
                    moves,
                ).contains((px, py)),
        winning_cells(after).finite(),
        winning_cells(after).len() <= budget,
        x == 0 && y == 0 && !after.is_goal(0, 0) ==> winning_cells(after).len() + 1 <= budget,
{
    let moves = choose|moves: Seq<Direction>|
        #[trigger] after.trail(x, y, moves) && moves.len() <= budget && before.fresh_ahead(
            x,
            y,
            moves,
        ) && before.clear_off(after, x, y, moves);
    let way = positions(x, y, moves);
    lemma_trail_is_connected(after, x, y, moves);
    lemma_trail_ends(after, x, y, moves);
    assert forall|px: int, py: int| (#[trigger] after.cell(px, py)).is_winning_path() implies way.contains(
        (px, py),
    ) by {
        if !way.contains((px, py)) {
            assert(after.cell(px, py) == before.cell(px, py) || after.cell(px, py) is Empty);
        }
    }
    let skip: int = if x == 0 && y == 0 && !after.is_goal(0, 0) {
        1
    } else {
        0
    };
    let inner = way.subrange(skip, moves.len() as int);
    let cells = winning_cells(after);
    assert forall|p: (int, int)| cells.contains(p) implies inner.to_set().contains(p) by {
        assert(after.cell(p.0, p.1).is_winning_path());
        assert(way.contains(p));
        let i = choose|i: int| 0 <= i < way.len() && way[i] == p;
        assert(i != moves.len()) by {
            if i == moves.len() {
                assert(way[i] == way.last());
            }
        }
        assert(i >= skip) by {
            if i == 0 && skip == 1 {
                assert(way[0] == (0int, 0int));
                assert(after.cell(0, 0) == trail_mark(0, 0, moves[0]));
            }
        }
        assert(inner[i - skip] == p);
        assert(inner.contains(p));
    }
    assert(cells.subset_of(inner.to_set()));
    inner.lemma_cardinality_of_set();
    vstd::seq_lib::seq_to_set_is_finite(inner);
    vstd::set_lib::lemma_len_subset(cells, inner.to_set());
}

/// Among directions of which one may be entered, one is the first.
pub proof fn lemma_first_enterable(m: MazeView, x: int, y: int, dirs: Seq<Direction>, j: int)
    requires
        0 <= j < dirs.len(),
        m.enterable(x, y, dirs[j]),
    ensures
        exists|k: int| 0 <= k <= j && #[trigger] m.first_enterable(x, y, dirs, k),
    decreases j,
{
    if exists|i: int| 0 <= i < j && m.enterable(x, y, #[trigger] dirs[i]) {
        let i = choose|i: int| 0 <= i < j && m.enterable(x, y, #[trigger] dirs[i]);
        lemma_first_enterable(m, x, y, dirs, i);
    } else {
        assert(m.first_enterable(x, y, dirs, j));
    }
}

/// A search that stands at a flagged position away from the destination
/// has, before it tries any direction, done nothing.
pub proof fn lemma_search_begins(start: MazeView, x: int, y: int, budget: int)
    requires
        start.wf(),
        start.in_bounds(x, y),
        !start.is_goal(x, y),
        start.seen(x, y),
        budget >= 0,
    ensures
        start.searching(start, x, y, budget, Seq::<Direction>::empty()),
{
    reveal(MazeView::searching);
    lemma_search_refl(start, x, y);
}

/// Once the search has flagged or marked, a position it may still step on
/// was one it might step on at the outset.
proof fn lemma_still_enterable(start: MazeView, now: MazeView, x: int, y: int, d: Direction)
    requires
        start.searched_into(now, x, y),
        now.enterable(x, y, d),
    ensures
        start.enterable(x, y, d),
{
    reveal(MazeView::searched_into);
    let nx = x + d.dx();
    let ny = y + d.dy();
    if start.seen(nx, ny) {
        assert(now.seen(nx, ny));
    }
    if start.cell(nx, ny).is_winning_path() {
        assert(now.cell(nx, ny) == start.cell(nx, ny));
    }
}

/// A search that skips a direction, because it may not step on the
/// neighbour there, has gone through that direction.
pub proof fn lemma_search_skips(
    start: MazeView,
    now: MazeView,
    x: int,
    y: int,
    budget: int,
    tried: Seq<Direction>,
    d: Direction,
)
    requires
        start.searching(now, x, y, budget, tried),
        !now.enterable(x, y, d),
    ensures
        start.searching(now, x, y, budget, tried.push(d)),
{
    reveal(MazeView::searching);
    let more = tried.push(d);
    let nx = x + d.dx();
    let ny = y + d.dy();
    assert forall|j: int| 0 <= j < tried.len() implies #[trigger] more[j] == tried[j] by {}
    assert(more[tried.len() as int] == d);
    if now == start && (forall|j: int|
        0 <= j < tried.len() ==> !start.enterable(x, y, #[trigger] tried[j])) {
        assert forall|j: int| 0 <= j < more.len() implies !start.enterable(
            x,
            y,
            #[trigger] more[j],
        ) by {
            if j < tried.len() {
                assert(more[j] == tried[j]);
            }
        }
    } else {
        let j = choose|j: int|
            0 <= j < tried.len() && start.enterable(x, y, #[trigger] tried[j]) && now.cell(x, y)
                == trail_mark(x, y, tried[j]);
        assert(more[j] == tried[j]);
    }
    if start.enterable(x, y, d) {
        reveal(MazeView::searched_into);
        assert(start.in_bounds(nx, ny));
        let c = now.cell(nx, ny);
        assert(now.seen(nx, ny));
        assert(!start.is_goal(nx, ny));
    }
    assert forall|j: int|
        0 <= j < more.len() && start.enterable(x, y, #[trigger] more[j]) && budget > 0 implies now.seen(
        x + more[j].dx(),
        y + more[j].dy(),
    ) && !start.is_goal(x + more[j].dx(), y + more[j].dy()) by {
        if j < tried.len() {
            assert(more[j] == tried[j]);
        }
    }
    assert forall|k: int|
        #![trigger more[k]]
        start.first_enterable(x, y, more, k) implies !start.departing(
        x,
        y,
        more[k],
    ).bound_to_succeed(x + more[k].dx(), y + more[k].dy(), Some(more[k]), budget - 1) by {
        if k < tried.len() {
            assert(more[k] == tried[k]);
            assert forall|j: int| 0 <= j < k implies !start.enterable(x, y, #[trigger] tried[j]) by {
                assert(more[j] == tried[j]);
            }
            assert(start.first_enterable(x, y, tried, k));
        } else {
            assert forall|j: int| 0 <= j < tried.len() implies !start.enterable(
                x,
                y,
                #[trigger] tried[j],
            ) by {
                assert(more[j] == tried[j]);
            }
            assert(now == start);
        }
    }
}

/// A search that marks its departure towards a neighbour it may step on,
/// fails from there, and resets the neighbour, has gone through that
/// direction.
pub proof fn lemma_search_backtracked(
    start: MazeView,
    now: MazeView,
    entered: MazeView,
    x: int,
    y: int,
    budget: int,
    tried: Seq<Direction>,
    d: Direction,
)
    requires
        start.searching(now, x, y, budget, tried),
        now.enterable(x, y, d),
        entered.wf(),
        now.departing(x, y, d).searched_into(entered, x + d.dx(), y + d.dy()),
        now.departing(x, y, d).search_undone(entered, x + d.dx(), y + d.dy()),
        !now.departing(x, y, d).bound_to_succeed(x + d.dx(), y + d.dy(), Some(d), budget - 1),
        budget > 0 ==> entered.seen(x + d.dx(), y + d.dy()) && !start.is_goal(
            x + d.dx(),
            y + d.dy(),
        ),
    ensures
        start.searching(
            entered.with_cell(x + d.dx(), y + d.dy(), Cell::Empty),
            x,
            y,
            budget,
            tried.push(d),
        ),
{
    reveal(MazeView::searching);
    let more = tried.push(d);
    let nx = x + d.dx();
    let ny = y + d.dy();
    let reset = entered.with_cell(nx, ny, Cell::Empty);
    lemma_still_enterable(start, now, x, y, d);
    assert(now.seen(x, y)) by {
        reveal(MazeView::searched_into);
    }
    lemma_backtracked(start, now, entered, x, y, nx, ny, d);
    assert forall|j: int| 0 <= j < tried.len() implies #[trigger] more[j] == tried[j] by {}
    assert(more[tried.len() as int] == d);
    assert(start.enterable(x, y, more[tried.len() as int]) && reset.cell(x, y) == trail_mark(
        x,
        y,
        more[tried.len() as int],
    ));
    assert forall|j: int|
        0 <= j < more.len() && start.enterable(x, y, #[trigger] more[j]) && budget > 0 implies reset.seen(
        x + more[j].dx(),
        y + more[j].dy(),
    ) && !start.is_goal(x + more[j].dx(), y + more[j].dy()) by {
        if j < tried.len() {
            assert(more[j] == tried[j]);
            assert(now.seen(x + tried[j].dx(), y + tried[j].dy()));
        }
    }
    assert forall|k: int|
        #![trigger more[k]]
        start.first_enterable(x, y, more, k) implies !start.departing(
        x,
        y,
        more[k],
    ).bound_to_succeed(x + more[k].dx(), y + more[k].dy(), Some(more[k]), budget - 1) by {
        if k < tried.len() {
            assert(more[k] == tried[k]);
            assert forall|j: int| 0 <= j < k implies !start.enterable(x, y, #[trigger] tried[j]) by {
                assert(more[j] == tried[j]);
            }
            assert(start.first_enterable(x, y, tried, k));
        } else {
            assert forall|j: int| 0 <= j < tried.len() implies !start.enterable(
                x,
                y,
                #[trigger] tried[j],
            ) by {
                assert(more[j] == tried[j]);
            }
            assert(now == start);
        }
    }
}

/// A search that marks its departure towards a neighbour it may step on,
/// and succeeds from there, has succeeded with one more move, and leaves
/// the mark of that departure behind.
pub proof fn lemma_search_succeeded(
    start: MazeView,
    now: MazeView,
    entered: MazeView,
    x: int,
    y: int,
    budget: int,
    dirs: Seq<Direction>,
    i: int,
)
    requires
        0 <= i < dirs.len(),
        start.searching(now, x, y, budget, dirs.take(i)),
        now.enterable(x, y, dirs[i]),
        entered.wf(),
        now.departing(x, y, dirs[i]).searched_into(entered, x + dirs[i].dx(), y + dirs[i].dy()),
        now.departing(x, y, dirs[i]).solved_into(
            entered,
            x + dirs[i].dx(),
            y + dirs[i].dy(),
            budget - 1,
        ),
        start.is_goal(x + dirs[i].dx(), y + dirs[i].dy()) || entered.seen(
            x + dirs[i].dx(),
            y + dirs[i].dy(),
        ),
    ensures
        start.searched_among(entered, x, y, budget, dirs, true),
{
    reveal(MazeView::searching);
    let tried = dirs.take(i);
    let d = dirs[i];
    let more = tried.push(d);
    lemma_still_enterable(start, now, x, y, d);
    assert(now.seen(x, y)) by {
        reveal(MazeView::searched_into);
    }
    lemma_succeeded(start, now, entered, x, y, d, budget);
    assert(start.enterable(x, y, dirs[i]));
    assert forall|k: int|
        #![trigger dirs[k]]
        start.first_enterable(x, y, dirs, k) && budget > 0 implies entered.seen(
        x + dirs[k].dx(),
        y + dirs[k].dy(),
    ) || start.is_goal(x + dirs[k].dx(), y + dirs[k].dy()) by {
        assert(k <= i);
        if k < i {
            assert(tried[k] == dirs[k]);
            assert(now.seen(x + tried[k].dx(), y + tried[k].dy()));
        }
    }
}

/// What a search has done once it has gone through all its directions
/// without success.
pub proof fn lemma_search_ends(
    start: MazeView,
    now: MazeView,
    x: int,
    y: int,
    budget: int,
    tried: Seq<Direction>,
)
    requires
        start.searching(now, x, y, budget, tried),
    ensures
        now.wf(),
        now.same_shape(start),
        start.searched_into(now, x, y),
        start.search_undone(now, x, y),
        (forall|j: int| 0 <= j < tried.len() ==> !start.enterable(x, y, #[trigger] tried[j]))
            ==> now == start,
        (exists|j: int| 0 <= j < tried.len() && start.enterable(x, y, #[trigger] tried[j]))
            ==> exists|j: int|
            0 <= j < tried.len() && start.enterable(x, y, #[trigger] tried[j]) && now.cell(x, y)
                == trail_mark(x, y, tried[j]),
        budget > 0 ==> forall|j: int|
            0 <= j < tried.len() && start.enterable(x, y, #[trigger] tried[j]) ==> now.seen(
                x + tried[j].dx(),
                y + tried[j].dy(),
            ) && !start.is_goal(x + tried[j].dx(), y + tried[j].dy()),
        forall|k: int|
            #![trigger tried[k]]
            start.first_enterable(x, y, tried, k) ==> !start.departing(
                x,
                y,
                tried[k],
            ).bound_to_succeed(x + tried[k].dx(), y + tried[k].dy(), Some(tried[k]), budget - 1),
        start.searched_among(now, x, y, budget, tried, false),
{
    reveal(MazeView::searching);
}

/// Setting the flag at `(x, y)` makes no difference to where a search
/// from there may step.
proof fn lemma_flag_keeps_enterable(before: MazeView, x: int, y: int)
    requires
        before.wf(),
    ensures
        forall|d: Direction| #[trigger]
            before.with_seen(x, y).enterable(x, y, d) == before.enterable(x, y, d),
        forall|px: int, py: int| #[trigger]
            before.with_seen(x, y).fresh(px, py) ==> before.fresh(px, py),
{
    let flagged = before.with_seen(x, y);
    lemma_with_seen(before, x, y);
    assert forall|d: Direction| #[trigger]
        flagged.enterable(x, y, d) == before.enterable(x, y, d) by {
        assert(flagged.seen(x + d.dx(), y + d.dy()) == before.seen(x + d.dx(), y + d.dy()));
        assert(flagged.cell(x + d.dx(), y + d.dy()) == before.cell(x + d.dx(), y + d.dy()));
    }
    assert forall|px: int, py: int| #[trigger] flagged.fresh(px, py) implies before.fresh(
        px,
        py,
    ) by {
        assert(flagged.cell(px, py) == before.cell(px, py));
        if before.seen(px, py) {
            assert(flagged.seen(px, py));
        }
    }
}

/// A search from `(x, y)` that flags `(x, y)` and then does what a search
/// may do has done what a search may do.
proof fn lemma_searched_from_flag(before: MazeView, after: MazeView, x: int, y: int)
    requires
        before.wf(),
        before.in_bounds(x, y),
        !before.is_goal(x, y),
        before.with_seen(x, y).searched_into(after, x, y),
    ensures
        before.searched_into(after, x, y),
        after.seen(x, y),
        before.with_seen(x, y).search_undone(after, x, y) ==> before.search_undone(after, x, y),
{
    reveal(MazeView::searched_into);
    reveal(MazeView::search_undone);
    let flagged = before.with_seen(x, y);
    lemma_with_seen(before, x, y);
    assert forall|x2: int, y2: int| #[trigger] before.seen(x2, y2) implies after.seen(x2, y2) by {
        assert(flagged.seen(x2, y2));
    }
    assert(flagged.seen(x, y));
    assert forall|x2: int, y2: int|
        #![trigger after.cell(x2, y2)]
        (x2 != x || y2 != y) && (before.seen(x2, y2) || before.cell(x2, y2).is_winning_path())
    implies after.cell(x2, y2) == before.cell(x2, y2) by {
        assert(flagged.cell(x2, y2) == before.cell(x2, y2));
        assert(before.seen(x2, y2) ==> flagged.seen(x2, y2));
    }
    assert forall|x2: int, y2: int|
        #![trigger after.cell(x2, y2)]
        (x2 != x || y2 != y) implies after.cell(x2, y2) == before.cell(x2, y2) || after.carved(
        after.cell(x2, y2),
        x2,
        y2,
    ) by {
        assert(flagged.cell(x2, y2) == before.cell(x2, y2));
    }
    assert forall|x2: int, y2: int|
        #![trigger after.cell(x2, y2)]
        after.cell(x2, y2).is_winning_path() && !before.cell(x2, y2).is_winning_path()
    implies after.seen(x2, y2) by {
        assert(flagged.cell(x2, y2) == before.cell(x2, y2));
    }
    assert(flagged.cell(x, y) == before.cell(x, y));
    assert(flagged.seen(before.width - 1, before.height - 1) == before.seen(
        before.width - 1,
        before.height - 1,
    ));
    if flagged.search_undone(after, x, y) {
        assert forall|x2: int, y2: int|
            #![trigger after.cell(x2, y2)]
            (x2 != x || y2 != y) implies after.cell(x2, y2) == before.cell(x2, y2) || after.cell(
            x2,
            y2,
        ) is Empty by {
            assert(flagged.cell(x2, y2) == before.cell(x2, y2));
        }
    }
}

/// A search from `(x, y)` that flags `(x, y)` and then succeeds has
/// succeeded.
proof fn lemma_solved_from_flag(before: MazeView, after: MazeView, x: int, y: int, budget: int)
    requires
        before.wf(),
        before.with_seen(x, y).solved_into(after, x, y, budget),
    ensures
        before.solved_into(after, x, y, budget),
{
    let flagged = before.with_seen(x, y);
    lemma_with_seen(before, x, y);
    lemma_flag_keeps_enterable(before, x, y);
    let moves = choose|moves: Seq<Direction>|
        #[trigger] after.trail(x, y, moves) && moves.len() <= budget && flagged.fresh_ahead(
            x,
            y,
            moves,
        ) && flagged.clear_off(after, x, y, moves);
    lemma_fresh_ahead_earlier(before, flagged, x, y, moves);
    assert(before.clear_off(after, x, y, moves)) by {
        assert forall|px: int, py: int|
            #![trigger after.cell(px, py)]
            !positions(x, y, moves).contains((px, py)) implies after.cell(px, py) == before.cell(
            px,
            py,
        ) || after.cell(px, py) is Empty by {
            assert(flagged.cell(px, py) == before.cell(px, py));
        }
    }
}

/// What a search from `(x, y)` has done, seen from before it flagged
/// `(x, y)`, given what it did among the directions `dirs` once the flag was
/// set. The directions hold every direction if the search came from
/// nowhere, and the direction it came by otherwise.
pub proof fn lemma_search_from_flag(
    before: MazeView,
    after: MazeView,
    x: int,
    y: int,
    prev: Option<Direction>,
    budget: int,
    dirs: Seq<Direction>,
    found: bool,
)
    requires
        before.wf(),
        before.in_bounds(x, y),
        !before.is_goal(x, y),
        budget >= 0,
        after.wf(),
        after.same_shape(before),
        prev is None ==> forall|d: Direction| dirs.contains(d),
        prev is Some ==> dirs.contains(prev->0),
        before.with_seen(x, y).searched_among(after, x, y, budget, dirs, found),
    ensures
        before.searched_into(after, x, y),
        found ==> before.solved_into(after, x, y, budget),
        !found ==> before.search_undone(after, x, y),
        after.seen(x, y),
        before.boxed_in(x, y) ==> !found && after == before.with_seen(x, y),
        prev is None && !before.boxed_in(x, y) ==> departed(after.cell(x, y), x, y),
        before.bound_to_succeed(x, y, prev, budget) ==> found,
        !found && budget > 0 ==> forall|d: Direction|
            (prev is None || prev == Some(d)) && #[trigger] before.enterable(x, y, d) ==> after.seen(
                x + d.dx(),
                y + d.dy(),
            ) && !before.is_goal(x + d.dx(), y + d.dy()),
        distance(x, y, before.width - 1, before.height - 1) > budget ==> !found,
{
    let flagged = before.with_seen(x, y);
    lemma_flag_keeps_enterable(before, x, y);
    lemma_searched_from_flag(before, after, x, y);
    if found {
        lemma_solved_from_flag(before, after, x, y, budget);
        lemma_solved_is_near(before, after, x, y, budget);
    }
    if before.boxed_in(x, y) {
        assert forall|j: int| 0 <= j < dirs.len() implies !flagged.enterable(
            x,
            y,
            #[trigger] dirs[j],
        ) by {
            assert(!before.enterable(x, y, dirs[j]));
        }
    }
    if prev is None && !before.boxed_in(x, y) {
        let d = choose|d: Direction| #[trigger] before.enterable(x, y, d);
        assert(dirs.contains(d));
        let j = choose|j: int| 0 <= j < dirs.len() && dirs[j] == d;
        assert(flagged.enterable(x, y, dirs[j]));
    }
    if before.bound_to_succeed(x, y, prev, budget) {
        let d = choose|d: Direction|
            #[trigger] before.forced(x, y, prev, d) && budget > 0 && before.with_seen(
                x,
                y,
            ).departing(x, y, d).bound_to_succeed(x + d.dx(), y + d.dy(), Some(d), budget - 1);
        assert(dirs.contains(d));
        let j = choose|j: int| 0 <= j < dirs.len() && dirs[j] == d;
        assert(flagged.enterable(x, y, dirs[j]));
        lemma_first_enterable(flagged, x, y, dirs, j);
        let k = choose|k: int| 0 <= k <= j && #[trigger] flagged.first_enterable(x, y, dirs, k);
        assert(before.enterable(x, y, dirs[k]));
        assert(dirs[k] == d);
    }
    if !found && budget > 0 {
        assert forall|d: Direction|
            (prev is None || prev == Some(d)) && #[trigger] before.enterable(x, y, d) implies after.seen(
            x + d.dx(),
            y + d.dy(),
        ) && !before.is_goal(x + d.dx(), y + d.dy()) by {
            assert(dirs.contains(d));
            let j = choose|j: int| 0 <= j < dirs.len() && dirs[j] == d;
            assert(flagged.enterable(x, y, dirs[j]));
        }
    }
}

/// A blank maze of a single row after the search has gone `k` steps along
/// it from the origin.
pub open spec fn row_after(width: nat, max_depth: nat, k: nat) -> MazeView
    decreases k,
{
    if k == 0 {
        MazeView::blank(width, 1, max_depth)
    } else {
        row_after(width, max_depth, (k - 1) as nat).with_seen(k - 1, 0).departing(
            k - 1,
            0,
            Direction::Right,
        )
    }
}

/// After `k` steps along a blank row, the positions behind are visited and
/// those ahead are untouched.
proof fn lemma_row_after(width: nat, max_depth: nat, k: nat)
    requires
        k < width,
    ensures
        row_after(width, max_depth, k).wf(),
        row_after(width, max_depth, k).same_shape(MazeView::blank(width, 1, max_depth)),
        forall|j: int|
            0 <= j < k ==> #[trigger] row_after(width, max_depth, k).seen(j, 0),
        forall|j: int|
            k <= j < width ==> !(#[trigger] row_after(width, max_depth, k).seen(j, 0))
                && row_after(width, max_depth, k).cell(j, 0) is Empty,
    decreases k,
{
    let now = row_after(width, max_depth, k);
    if k == 0 {
        lemma_blank(width, 1, max_depth);
    } else {
        let prev = row_after(width, max_depth, (k - 1) as nat);
        lemma_row_after(width, max_depth, (k - 1) as nat);
        let flagged = prev.with_seen(k - 1, 0);
        lemma_with_seen(prev, k - 1, 0);
        lemma_with_cell(flagged, k - 1, 0, trail_mark(k - 1, 0, Direction::Right));
        assert forall|j: int| 0 <= j < k implies #[trigger] now.seen(j, 0) by {
            assert(now.seen(j, 0) == flagged.seen(j, 0));
            if j < k - 1 {
                assert(prev.seen(j, 0));
            }
        }
        assert forall|j: int| k <= j < width implies !(#[trigger] now.seen(j, 0)) && now.cell(
            j,
            0,
        ) is Empty by {
            assert(now.seen(j, 0) == flagged.seen(j, 0));
            assert(flagged.seen(j, 0) == prev.seen(j, 0));
            assert(now.cell(j, 0) == flagged.cell(j, 0));
            assert(flagged.cell(j, 0) == prev.cell(j, 0));
        }
    }
}

/// From any position along a blank row the search is bound to succeed, if
/// it has as many moves left as the row is long from there.
proof fn lemma_row_from(width: nat, max_depth: nat, k: nat, budget: int)
    requires
        k < width,
        budget >= width - 1 - k,
    ensures
        row_after(width, max_depth, k).bound_to_succeed(
            k as int,
            0,
            if k == 0 {
                None
            } else {
                Some(Direction::Right)
            },
            budget,
        ),
    decreases width - k,
{
    let now = row_after(width, max_depth, k);
    let prev = if k == 0 {
        None
    } else {
        Some(Direction::Right)
    };
    lemma_row_after(width, max_depth, k);
    if k < width - 1 {
        lemma_row_from(width, max_depth, (k + 1) as nat, budget - 1);
        assert(now.forced(k as int, 0, prev, Direction::Right)) by {
            assert(!now.seen(k as int + 1, 0));
            assert(now.enterable(k as int, 0, Direction::Right));
            assert forall|e: Direction| e != Direction::Right implies !#[trigger] now.enterable(
                k as int,
                0,
                e,
            ) by {
                if e == Direction::Left && k > 0 {
                    assert(now.seen(k - 1, 0));
                }
            }
        }
        assert(row_after(width, max_depth, (k + 1) as nat) == now.with_seen(k as int, 0).departing(
            k as int,
            0,
            Direction::Right,
        ));
    }
}

/// In a blank maze of a single row the search from the origin succeeds
/// whatever is drawn, if the depth limit allows as many moves as lead to
/// the end of the row.
pub proof fn lemma_blank_row_is_bound_to_succeed(width: nat, max_depth: nat)
    requires
        width > 0,
        max_depth >= width - 1,
    ensures
        MazeView::blank(width, 1, max_depth).bound_to_succeed(0, 0, None, max_depth as int),
{
    lemma_row_from(width, max_depth, 0, max_depth as int);
}

} // verus!
