//! Wall derivation: what one pass does, and what a second pass finds.

use crate::cell::Cell;
use crate::model::{lemma_blank, lemma_with_cell, MazeView};
use vstd::prelude::*;

verus! {

/// Whether `(x1, y1)` comes before `(x2, y2)` in the order of a pass over
/// the grid, top to bottom and left to right.
pub open spec fn comes_before(x1: int, y1: int, x2: int, y2: int) -> bool {
    y1 < y2 || (y1 == y2 && x1 < x2)
}

/// Wall derivation at one position keeps the shape and the flags, turns at
/// most that one corridor cell into a wall of the same direction, and keeps
/// every wall supported.
pub proof fn lemma_wall_step(m: MazeView, x: int, y: int)
    requires
        m.wf(),
    ensures
        m.wall_step(x, y).wf(),
        m.wall_step(x, y).same_shape(m),
        m.wall_step(x, y).visited == m.visited,
        forall|x2: int, y2: int|
            (x2 != x || y2 != y) ==> #[trigger] m.wall_step(x, y).cell(x2, y2) == m.cell(x2, y2),
        m.wall_step(x, y).cell(x, y) == m.cell(x, y) || (m.blocked(x, y) && m.in_bounds(x, y) && (
        m.cell(x, y) matches Cell::Path(_, d) && m.wall_step(x, y).cell(x, y) == Cell::Wall(d))),
        forall|x2: int, y2: int|
            #![trigger m.wall_step(x, y).blocking_at(x2, y2)]
            m.blocking_at(x2, y2) ==> m.wall_step(x, y).blocking_at(x2, y2),
        forall|x2: int, y2: int|
            #![trigger m.wall_step(x, y).blocking_at(x2, y2)]
            m.wall_step(x, y).blocking_at(x2, y2) && !m.blocking_at(x2, y2) ==> x2 == x && y2 == y
                && m.cell(x, y).is_winning_path() && m.wall_step(x, y).cell(x, y) is Wall,
        m.walls_supported() ==> m.wall_step(x, y).walls_supported(),
        m.occupied_is_seen() ==> m.wall_step(x, y).occupied_is_seen(),
{
    let n = m.wall_step(x, y);
    match m.cell(x, y) {
        Cell::Path(_, d) => {
            lemma_with_cell(m, x, y, Cell::Wall(d));
        },
        _ => {},
    }
    assert forall|x2: int, y2: int|
        #![trigger n.blocking_at(x2, y2)]
        m.blocking_at(x2, y2) implies n.blocking_at(x2, y2) by {
        if x2 == x && y2 == y {
        } else {
            assert(n.cell(x2, y2) == m.cell(x2, y2));
        }
    }
    assert forall|x2: int, y2: int|
        #![trigger n.blocking_at(x2, y2)]
        n.blocking_at(x2, y2) && !m.blocking_at(x2, y2) implies x2 == x && y2 == y && m.cell(
        x,
        y,
    ).is_winning_path() && n.cell(x, y) is Wall by {
        if x2 == x && y2 == y {
        } else {
            assert(n.cell(x2, y2) == m.cell(x2, y2));
        }
    }
    if m.walls_supported() {
        assert forall|x2: int, y2: int|
            n.in_bounds(x2, y2) && (#[trigger] n.cell(x2, y2)) is Wall implies n.blocked(
            x2,
            y2,
        ) by {
            if x2 == x && y2 == y && !(m.cell(x, y) is Wall) {
                assert(m.blocked(x, y));
            } else {
                assert(m.cell(x2, y2) is Wall);
                assert(m.blocked(x2, y2));
            }
            assert(m.blocking_at(x2 - 1, y2) ==> n.blocking_at(x2 - 1, y2));
            assert(m.blocking_at(x2 + 1, y2) ==> n.blocking_at(x2 + 1, y2));
            assert(m.blocking_at(x2, y2 - 1) ==> n.blocking_at(x2, y2 - 1));
            assert(m.blocking_at(x2, y2 + 1) ==> n.blocking_at(x2, y2 + 1));
        }
    }
    if m.occupied_is_seen() {
        assert forall|x2: int, y2: int|
            n.in_bounds(x2, y2) && (#[trigger] n.cell(x2, y2)).is_some() implies n.seen(
            x2,
            y2,
        ) by {
            if x2 == x && y2 == y {
                assert(m.cell(x, y).is_some());
            } else {
                assert(n.cell(x2, y2) == m.cell(x2, y2));
            }
            assert(m.seen(x2, y2));
        }
    }
}

/// What a pass of wall derivation has done by the time it reaches position
/// `x` of row `y`. The shape and the flags are as before. A position still
/// to come holds what it held at the outset. Any position holds what it held
/// at the outset, or a wall where it held a corridor of the same direction.
pub proof fn lemma_walls_through(m: MazeView, y: nat, x: nat)
    requires
        m.wf(),
    ensures
        m.walls_through(y, x).wf(),
        m.walls_through(y, x).same_shape(m),
        m.walls_through(y, x).visited == m.visited,
        forall|x2: int, y2: int|
            #![trigger m.walls_through(y, x).cell(x2, y2)]
            !comes_before(x2, y2, x as int, y as int) ==> m.walls_through(y, x).cell(x2, y2)
                == m.cell(x2, y2),
        forall|x2: int, y2: int|
            #![trigger m.walls_through(y, x).cell(x2, y2)]
            m.walls_through(y, x).cell(x2, y2) == m.cell(x2, y2) || (m.cell(
                x2,
                y2,
            ) matches Cell::Path(_, d) && m.walls_through(y, x).cell(x2, y2) == Cell::Wall(d)),
        m.walls_supported() ==> m.walls_through(y, x).walls_supported(),
        m.occupied_is_seen() ==> m.walls_through(y, x).occupied_is_seen(),
    decreases y, x,
{
    if x > 0 {
        let prev = m.walls_through(y, (x - 1) as nat);
        lemma_walls_through(m, y, (x - 1) as nat);
        lemma_wall_step(prev, x - 1, y as int);
        let now = m.walls_through(y, x);
        assert(now == prev.wall_step(x - 1, y as int));
        assert forall|x2: int, y2: int|
            #![trigger now.cell(x2, y2)]
            (!comes_before(x2, y2, x as int, y as int) ==> now.cell(x2, y2) == m.cell(x2, y2)) && (
            now.cell(x2, y2) == m.cell(x2, y2) || (m.cell(x2, y2) matches Cell::Path(_, d)
                && now.cell(x2, y2) == Cell::Wall(d))) by {
            if x2 == x - 1 && y2 == y {
                assert(prev.cell(x2, y2) == m.cell(x2, y2));
            } else {
                assert(now.cell(x2, y2) == prev.cell(x2, y2));
            }
        }
    } else if y > 0 {
        lemma_walls_through(m, (y - 1) as nat, m.width);
        let now = m.walls_through(y, x);
        assert(now == m.walls_through((y - 1) as nat, m.width));
        assert forall|x2: int, y2: int|
            #![trigger now.cell(x2, y2)]
            !comes_before(x2, y2, x as int, y as int) implies now.cell(x2, y2) == m.cell(
            x2,
            y2,
        ) by {
            if now.in_bounds(x2, y2) {
                assert(!comes_before(x2, y2, m.width as int, y - 1));
            }
        }
    }
}

/// One pass of wall derivation keeps the shape, the flags and every empty
/// cell; it only ever turns a corridor into a wall of the same direction. It
/// keeps every wall supported, and every occupied cell among the visited.
pub proof fn lemma_with_walls(m: MazeView)
    requires
        m.wf(),
    ensures
        m.with_walls().wf(),
        m.with_walls().same_shape(m),
        m.with_walls().visited == m.visited,
        forall|x: int, y: int|
            #![trigger m.with_walls().cell(x, y)]
            m.with_walls().cell(x, y) == m.cell(x, y) || (m.cell(x, y) matches Cell::Path(_, d)
                && m.with_walls().cell(x, y) == Cell::Wall(d)),
        m.walls_supported() ==> m.with_walls().walls_supported(),
        m.occupied_is_seen() ==> m.with_walls().occupied_is_seen(),
{
    lemma_walls_through(m, m.height, 0);
}

/// Whether a pass that stands at position `x1` of row `y1` has yet to reach,
/// or stands at, position `x2` of row `y2`.
pub open spec fn at_or_before(x1: int, y1: int, x2: int, y2: int) -> bool {
    y1 < y2 || (y1 == y2 && x1 <= x2)
}

/// A pass of wall derivation never comes back to a position: what a
/// position holds once the pass has gone by, it holds from then on.
pub proof fn lemma_walls_settled(m: MazeView, y: nat, x: nat, y2: nat, x2: nat)
    requires
        m.wf(),
        x <= m.width,
        x2 <= m.width,
        at_or_before(x as int, y as int, x2 as int, y2 as int),
    ensures
        forall|px: int, py: int|
            #![trigger m.walls_through(y2, x2).cell(px, py)]
            comes_before(px, py, x as int, y as int) ==> m.walls_through(y2, x2).cell(px, py)
                == m.walls_through(y, x).cell(px, py),
    decreases y2, x2,
{
    if y2 == y && x2 == x {
    } else if x2 > 0 {
        let prev = m.walls_through(y2, (x2 - 1) as nat);
        lemma_walls_settled(m, y, x, y2, (x2 - 1) as nat);
        lemma_walls_through(m, y2, (x2 - 1) as nat);
        lemma_wall_step(prev, x2 - 1, y2 as int);
        let later = m.walls_through(y2, x2);
        assert(later == prev.wall_step(x2 - 1, y2 as int));
        assert forall|px: int, py: int|
            #![trigger later.cell(px, py)]
            comes_before(px, py, x as int, y as int) implies later.cell(px, py) == m.walls_through(
            y,
            x,
        ).cell(px, py) by {
            assert(later.cell(px, py) == prev.cell(px, py));
        }
    } else {
        lemma_walls_settled(m, y, x, (y2 - 1) as nat, m.width);
    }
}

/// The winning path cells of `m` come through a pass of wall derivation
/// unchanged.
pub open spec fn walls_spare_winning_path(m: MazeView) -> bool {
    forall|x: int, y: int|
        #![trigger m.cell(x, y)]
        m.cell(x, y).is_winning_path() ==> m.with_walls().cell(x, y) == m.cell(x, y)
}

/// If a pass of wall derivation spares the winning path, then wherever the
/// pass has gone by and left a corridor, that corridor has no blocking
/// neighbour.
proof fn lemma_corridors_left_are_free(m: MazeView, y: nat, x: nat)
    requires
        m.wf(),
        walls_spare_winning_path(m),
        x <= m.width,
        at_or_before(x as int, y as int, 0, m.height as int),
    ensures
        forall|px: int, py: int|
            #![trigger m.walls_through(y, x).cell(px, py)]
            m.in_bounds(px, py) && comes_before(px, py, x as int, y as int) && m.walls_through(
                y,
                x,
            ).cell(px, py) is Path ==> !m.walls_through(y, x).blocked(px, py),
    decreases y, x,
{
    let now = m.walls_through(y, x);
    if x > 0 {
        let prev = m.walls_through(y, (x - 1) as nat);
        lemma_corridors_left_are_free(m, y, (x - 1) as nat);
        lemma_walls_through(m, y, (x - 1) as nat);
        lemma_wall_step(prev, x - 1, y as int);
        assert(now == prev.wall_step(x - 1, y as int));
        lemma_walls_settled(m, y, x, m.height, 0);
        assert forall|px: int, py: int|
            #![trigger now.cell(px, py)]
            m.in_bounds(px, py) && comes_before(px, py, x as int, y as int) && now.cell(
                px,
                py,
            ) is Path implies !now.blocked(px, py) by {
            if px == x - 1 && py == y {
                match prev.cell(px, py) {
                    Cell::Path(_, d) => {
                        lemma_with_cell(prev, px, py, Cell::Wall(d));
                    },
                    _ => {},
                }
                assert(!prev.blocked(px, py));
            } else {
                assert(now.cell(px, py) == prev.cell(px, py));
                assert(!prev.blocked(px, py));
            }
            assert forall|qx: int, qy: int| now.blocking_at(qx, qy) implies prev.blocking_at(
                qx,
                qy,
            ) by {
                if !prev.blocking_at(qx, qy) {
                    assert(qx == x - 1 && qy == y);
                    assert(prev.cell(qx, qy).is_winning_path());
                    assert(prev.cell(qx, qy) == m.cell(qx, qy));
                    assert(m.with_walls().cell(qx, qy) == now.cell(qx, qy));
                    assert(m.with_walls().cell(qx, qy) == m.cell(qx, qy));
                }
            }
        }
    } else if y > 0 {
        lemma_corridors_left_are_free(m, (y - 1) as nat, m.width);
        assert(now == m.walls_through((y - 1) as nat, m.width));
    }
}

/// Whether no corridor of `m` has a blocking neighbour: there is nothing
/// for wall derivation to do.
pub open spec fn corridors_are_free(m: MazeView) -> bool {
    forall|x: int, y: int|
        m.in_bounds(x, y) && (#[trigger] m.cell(x, y)) is Path ==> !m.blocked(x, y)
}

/// Where no corridor has a blocking neighbour, a pass of wall derivation
/// changes nothing at any position.
proof fn lemma_idle_pass(m: MazeView, y: nat, x: nat)
    requires
        m.wf(),
        corridors_are_free(m),
    ensures
        m.walls_through(y, x) == m,
    decreases y, x,
{
    if x > 0 {
        lemma_idle_pass(m, y, (x - 1) as nat);
        if m.in_bounds(x - 1, y as int) && m.cell(x - 1, y as int) is Path {
            assert(!m.blocked(x - 1, y as int));
        }
    } else if y > 0 {
        lemma_idle_pass(m, (y - 1) as nat, m.width);
    }
}

/// A corridor with a blocking neighbour does not come through a pass of
/// wall derivation: by the time the pass reaches it, the neighbour still
/// blocks, and the corridor becomes a wall for good.
proof fn lemma_blocked_corridor_becomes_wall(m: MazeView, x: int, y: int)
    requires
        m.wf(),
        m.in_bounds(x, y),
        m.cell(x, y) is Path,
        m.blocked(x, y),
    ensures
        m.with_walls().cell(x, y) is Wall,
{
    let before = m.walls_through(y as nat, x as nat);
    let after = m.walls_through(y as nat, (x + 1) as nat);
    lemma_walls_through(m, y as nat, x as nat);
    assert(before.cell(x, y) == m.cell(x, y));
    assert forall|qx: int, qy: int| m.blocking_at(qx, qy) implies before.blocking_at(qx, qy) by {
        let c = before.cell(qx, qy);
    }
    assert(before.blocked(x, y));
    assert(after == before.wall_step(x, y));
    match before.cell(x, y) {
        Cell::Path(_, d) => {
            lemma_with_cell(before, x, y, Cell::Wall(d));
        },
        _ => {},
    }
    assert(after.cell(x, y) is Wall);
    lemma_walls_settled(m, y as nat, (x + 1) as nat, m.height, 0);
    assert(m.with_walls().cell(x, y) == after.cell(x, y));
}

/// A pass of wall derivation changes nothing exactly where no corridor has a
/// blocking neighbour.
pub proof fn lemma_pass_is_idle_exactly(m: MazeView)
    requires
        m.wf(),
    ensures
        m.with_walls() == m <==> corridors_are_free(m),
{
    if corridors_are_free(m) {
        lemma_idle_pass(m, m.height, 0);
    } else {
        let (x, y) = choose|x: int, y: int|
            m.in_bounds(x, y) && (#[trigger] m.cell(x, y)) is Path && m.blocked(x, y);
        lemma_blocked_corridor_becomes_wall(m, x, y);
    }
}

/// Wall derivation is idempotent wherever it spares the winning path: a
/// second pass right after the first finds nothing left to do. On a grid
/// without winning path cells, as it is when the walls are derived during
/// generation, that always holds.
pub proof fn lemma_walls_idempotent(m: MazeView)
    requires
        m.wf(),
        walls_spare_winning_path(m),
    ensures
        m.with_walls().with_walls() == m.with_walls(),
{
    lemma_with_walls(m);
    lemma_corridors_left_are_free(m, m.height, 0);
    let once = m.with_walls();
    assert(corridors_are_free(once)) by {
        assert forall|x: int, y: int|
            once.in_bounds(x, y) && (#[trigger] once.cell(x, y)) is Path
        implies !once.blocked(x, y) by {
            assert(comes_before(x, y, 0, m.height as int));
        }
    }
    lemma_pass_is_idle_exactly(once);
}

/// Whatever the grid, a second pass of wall derivation right after the
/// first changes nothing exactly where the first pass left no corridor with
/// a blocking neighbour.
pub proof fn lemma_walls_idempotent_exactly(m: MazeView)
    requires
        m.wf(),
    ensures
        m.with_walls().with_walls() == m.with_walls() <==> corridors_are_free(m.with_walls()),
{
    lemma_with_walls(m);
    lemma_pass_is_idle_exactly(m.with_walls());
}

/// Whether `m` holds no winning path cell, as it is when walls are derived
/// during generation.
pub open spec fn no_winning_path(m: MazeView) -> bool {
    forall|x: int, y: int| !(#[trigger] m.cell(x, y)).is_winning_path()
}

/// What wall derivation makes of position `(x, y)` when the order of the
/// pass does not matter: a corridor with a blocking neighbour becomes a wall
/// of the same direction, and anything else stays.
pub open spec fn derived(m: MazeView, x: int, y: int) -> Cell {
    match m.cell(x, y) {
        Cell::Path(_, d) => if m.blocked(x, y) {
            Cell::Wall(d)
        } else {
            m.cell(x, y)
        },
        c => c,
    }
}

/// On a grid without winning path cells, a pass that has reached position
/// `x` of row `y` has made of every position behind it what wall derivation
/// makes of it in the grid as it was at the outset.
proof fn lemma_walls_through_pointwise(m: MazeView, y: nat, x: nat)
    requires
        m.wf(),
        no_winning_path(m),
        x <= m.width,
    ensures
        forall|px: int, py: int|
            #![trigger m.walls_through(y, x).cell(px, py)]
            m.in_bounds(px, py) && comes_before(px, py, x as int, y as int) ==> m.walls_through(
                y,
                x,
            ).cell(px, py) == derived(m, px, py),
        forall|px: int, py: int|
            #![trigger m.walls_through(y, x).blocking_at(px, py)]
            m.walls_through(y, x).blocking_at(px, py) == m.blocking_at(px, py),
    decreases y, x,
{
    let now = m.walls_through(y, x);
    lemma_walls_through(m, y, x);
    assert forall|px: int, py: int|
        #![trigger now.blocking_at(px, py)]
        now.blocking_at(px, py) == m.blocking_at(px, py) by {
        let c = m.cell(px, py);
        let e = now.cell(px, py);
    }
    if x > 0 {
        let prev = m.walls_through(y, (x - 1) as nat);
        lemma_walls_through_pointwise(m, y, (x - 1) as nat);
        lemma_walls_through(m, y, (x - 1) as nat);
        lemma_wall_step(prev, x - 1, y as int);
        assert(now == prev.wall_step(x - 1, y as int));
        assert forall|px: int, py: int|
            #![trigger now.cell(px, py)]
            m.in_bounds(px, py) && comes_before(px, py, x as int, y as int) implies now.cell(
            px,
            py,
        ) == derived(m, px, py) by {
            if px == x - 1 && py == y {
                assert(prev.cell(px, py) == m.cell(px, py));
                assert(prev.blocking_at(px - 1, py) == m.blocking_at(px - 1, py));
                assert(prev.blocking_at(px + 1, py) == m.blocking_at(px + 1, py));
                assert(prev.blocking_at(px, py - 1) == m.blocking_at(px, py - 1));
                assert(prev.blocking_at(px, py + 1) == m.blocking_at(px, py + 1));
                match prev.cell(px, py) {
                    Cell::Path(_, d) => {
                        lemma_with_cell(prev, px, py, Cell::Wall(d));
                    },
                    _ => {},
                }
            } else {
                assert(now.cell(px, py) == prev.cell(px, py));
            }
        }
    } else if y > 0 {
        lemma_walls_through_pointwise(m, (y - 1) as nat, m.width);
        assert(now == m.walls_through((y - 1) as nat, m.width));
    }
}

/// On a grid without winning path cells the order of the pass does not
/// matter: wall derivation turns exactly the corridors that have an occupied
/// orthogonal neighbour inside the grid into walls of the same direction,
/// and leaves everything else as it is. Such a pass spares the winning
/// path, there being none.
pub proof fn lemma_walls_pointwise(m: MazeView)
    requires
        m.wf(),
        no_winning_path(m),
    ensures
        m.with_walls().same_shape(m),
        m.with_walls().visited == m.visited,
        forall|x: int, y: int| #[trigger] m.with_walls().cell(x, y) == derived(m, x, y),
        walls_spare_winning_path(m),
{
    lemma_with_walls(m);
    lemma_walls_through_pointwise(m, m.height, 0);
    let once = m.with_walls();
    assert forall|x: int, y: int| #[trigger] once.cell(x, y) == derived(m, x, y) by {
        if m.in_bounds(x, y) {
            assert(comes_before(x, y, 0, m.height as int));
        }
    }
}

/// Wall derivation leaves a blank maze as it is.
pub proof fn lemma_blank_has_no_walls(width: nat, height: nat, max_depth: nat)
    requires
        width > 0,
        height > 0,
    ensures
        MazeView::blank(width, height, max_depth).with_walls() == MazeView::blank(
            width,
            height,
            max_depth,
        ),
{
    let m = MazeView::blank(width, height, max_depth);
    lemma_blank(width, height, max_depth);
    assert(corridors_are_free(m)) by {
        assert forall|x: int, y: int|
            m.in_bounds(x, y) && (#[trigger] m.cell(x, y)) is Path
        implies !m.blocked(x, y) by {
            assert(m.cell(x, y) == Cell::Empty);
        }
    }
    lemma_pass_is_idle_exactly(m);
}

} // verus!
