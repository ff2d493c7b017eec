//! Decorative walks: how the steps of a walk add up to what the walk may do.

use crate::cell::{Cell, Direction};
use crate::model::{blocks, distance, lemma_blank, lemma_with_cell, lemma_with_seen, MazeView};
use vstd::prelude::*;

verus! {

/// Scattering only ever fills cells: what is empty afterwards was empty
/// before, what counted before counts afterwards, and so a position that is
/// sparse or a direction that is inviting afterwards was so before.
pub proof fn lemma_scattered_fills(a: MazeView, b: MazeView)
    requires
        a.scattered_into(b),
    ensures
        forall|x: int, y: int| #[trigger] b.cell(x, y) is Empty ==> a.cell(x, y) is Empty,
        forall|x: int, y: int|
            #![trigger b.counted_at(x, y, false)]
            a.counted_at(x, y, false) ==> b.counted_at(x, y, false),
        forall|x: int, y: int| #[trigger] b.sparse(x, y) ==> a.sparse(x, y),
        forall|x: int, y: int, d: Direction| #[trigger] b.inviting(x, y, d) ==> a.inviting(x, y, d),
{
    reveal(MazeView::scattered_into);
    assert forall|x: int, y: int| #[trigger] b.cell(x, y) is Empty implies a.cell(
        x,
        y,
    ) is Empty by {}
    assert forall|x: int, y: int|
        #![trigger b.counted_at(x, y, false)]
        a.counted_at(x, y, false) implies b.counted_at(x, y, false) by {
        let c = b.cell(x, y);
    }
    assert forall|x: int, y: int| #[trigger] b.sparse(x, y) implies a.sparse(x, y) by {
        reveal(MazeView::sparse);
        assert(a.counted_at(x - 1, y - 1, false) ==> b.counted_at(x - 1, y - 1, false));
        assert(a.counted_at(x, y - 1, false) ==> b.counted_at(x, y - 1, false));
        assert(a.counted_at(x + 1, y - 1, false) ==> b.counted_at(x + 1, y - 1, false));
        assert(a.counted_at(x - 1, y, false) ==> b.counted_at(x - 1, y, false));
        assert(a.counted_at(x + 1, y, false) ==> b.counted_at(x + 1, y, false));
        assert(a.counted_at(x - 1, y + 1, false) ==> b.counted_at(x - 1, y + 1, false));
        assert(a.counted_at(x, y + 1, false) ==> b.counted_at(x, y + 1, false));
        assert(a.counted_at(x + 1, y + 1, false) ==> b.counted_at(x + 1, y + 1, false));
    }
    assert forall|x: int, y: int, d: Direction| #[trigger] b.inviting(x, y, d) implies a.inviting(
        x,
        y,
        d,
    ) by {
        assert(b.sparse(x + d.dx(), y + d.dy()));
        assert(b.cell(x + d.dx(), y + d.dy()) is Empty);
    }
}

/// Scattering twice in a row is scattering.
pub proof fn lemma_scattered_trans(a: MazeView, b: MazeView, c: MazeView)
    requires
        a.scattered_into(b),
        b.scattered_into(c),
    ensures
        a.scattered_into(c),
{
    reveal(MazeView::scattered_into);
    lemma_scattered_fills(a, b);
    assert forall|x: int, y: int| #[trigger] a.seen(x, y) implies c.seen(x, y) by {
        assert(b.seen(x, y));
    }
    assert forall|x: int, y: int|
        #![trigger c.cell(x, y)]
        #![trigger a.cell(x, y)]
        c.cell(x, y) == a.cell(x, y) || (c.cell(x, y) matches Cell::Path(false, d) && c.seen(
            x,
            y,
        ) && a.inviting(x, y, d)) by {
        if c.cell(x, y) == b.cell(x, y) {
            if b.cell(x, y) != a.cell(x, y) {
                assert(b.seen(x, y));
                assert(c.seen(x, y));
            }
        } else {
            match c.cell(x, y) {
                Cell::Path(_, d) => {
                    assert(b.inviting(x, y, d));
                },
                _ => {},
            }
        }
    }
}

/// A walk from `(x, y)` so far, followed by more of it or by a walk that
/// goes on from a position that was sparse at the outset, is a walk from
/// `(x, y)`.
pub proof fn lemma_walked_on(
    a: MazeView,
    b: MazeView,
    c: MazeView,
    x: int,
    y: int,
    nx: int,
    ny: int,
)
    requires
        a.walked_into(b, x, y),
        b.walked_into(c, nx, ny),
        (nx == x && ny == y) || a.sparse(nx, ny),
    ensures
        a.walked_into(c, x, y),
{
    reveal(MazeView::scattered_into);
    reveal(MazeView::walked_into);
    lemma_scattered_trans(a, b, c);
    lemma_scattered_fills(a, b);
    assert forall|x2: int, y2: int|
        #![trigger c.seen(x2, y2)]
        c.seen(x2, y2) && !a.seen(x2, y2) implies (x2 == x && y2 == y) || a.sparse(x2, y2) by {
        if b.seen(x2, y2) {
        } else if x2 == nx && y2 == ny {
        } else {
            assert(b.sparse(x2, y2));
        }
    }
}

/// What a walk keeps at any one position: a flag that is set, and a
/// decorative corridor. A walk is also a scattering and keeps the shape.
pub proof fn lemma_walk_keeps(a: MazeView, b: MazeView, x: int, y: int, px: int, py: int)
    requires
        a.walked_into(b, x, y),
    ensures
        a.scattered_into(b),
        a.same_shape(b),
        a.seen(px, py) ==> b.seen(px, py),
        a.cell(px, py) matches Cell::Path(false, _) ==> b.cell(px, py) matches Cell::Path(false, _),
{
    reveal(MazeView::scattered_into);
    reveal(MazeView::walked_into);
    let c = b.cell(px, py);
}

/// Scattering keeps the occupied cells inside the visited positions.
pub proof fn lemma_scattered_keeps_occupied_seen(a: MazeView, b: MazeView)
    requires
        a.scattered_into(b),
        a.occupied_is_seen(),
    ensures
        b.occupied_is_seen(),
{
    reveal(MazeView::scattered_into);
    assert forall|x: int, y: int|
        b.in_bounds(x, y) && (#[trigger] b.cell(x, y)).is_some()
    implies b.seen(x, y) by {
        if b.cell(x, y) == a.cell(x, y) {
            assert(a.seen(x, y));
        }
    }
}

/// Flagging the position where a walk stands is something that walk may
/// do, and it changes nothing away from that position.
pub proof fn lemma_flag_is_walking(m: MazeView, x: int, y: int, reach: int)
    requires
        m.wf(),
        reach >= 0,
    ensures
        m.walked_into(m.with_seen(x, y), x, y),
        m.same_beyond(m.with_seen(x, y), x, y, reach),
{
    reveal(MazeView::scattered_into);
    reveal(MazeView::walked_into);
    reveal(MazeView::same_beyond);
    lemma_with_seen(m, x, y);
}

/// Turning the visited position where a walk stands into a decorative
/// corridor towards an inviting direction is something that walk may do,
/// and it changes nothing away from that position.
pub proof fn lemma_stamp_is_walking(m: MazeView, x: int, y: int, d: Direction, reach: int)
    requires
        m.wf(),
        m.in_bounds(x, y) ==> m.seen(x, y),
        m.inviting(x, y, d),
        reach >= 0,
    ensures
        m.walked_into(m.with_cell(x, y, Cell::Path(false, d)), x, y),
        m.same_beyond(m.with_cell(x, y, Cell::Path(false, d)), x, y, reach),
{
    reveal(MazeView::scattered_into);
    reveal(MazeView::walked_into);
    reveal(MazeView::same_beyond);
    lemma_with_cell(m, x, y, Cell::Path(false, d));
    let n = m.with_cell(x, y, Cell::Path(false, d));
    assert forall|x2: int, y2: int|
        #![trigger n.cell(x2, y2)]
        #![trigger m.cell(x2, y2)]
        n.cell(x2, y2) == m.cell(x2, y2) || (n.cell(x2, y2) matches Cell::Path(false, e) && n.seen(
            x2,
            y2,
        ) && m.inviting(x2, y2, e)) by {
        if x2 == x && y2 == y && m.in_bounds(x, y) {
            assert(n.seen(x, y) == m.seen(x, y));
        }
    }
}

/// What stays out of reach of a walk stays out of reach of the walk that
/// continues it from a neighbouring position with one step less to go.
pub proof fn lemma_same_beyond_step(
    a: MazeView,
    b: MazeView,
    c: MazeView,
    x: int,
    y: int,
    nx: int,
    ny: int,
    reach: int,
)
    requires
        a.same_beyond(b, x, y, reach),
        b.same_beyond(c, nx, ny, reach - 1),
        distance(x, y, nx, ny) <= 1,
    ensures
        a.same_beyond(c, x, y, reach),
{
    reveal(MazeView::same_beyond);
    assert forall|x2: int, y2: int|
        #![trigger c.cell(x2, y2)]
        #![trigger c.seen(x2, y2)]
        distance(x, y, x2, y2) > reach implies c.cell(x2, y2) == a.cell(x2, y2) && c.seen(x2, y2)
        == a.seen(x2, y2) by {
        assert(distance(nx, ny, x2, y2) > reach - 1);
        assert(c.cell(x2, y2) == b.cell(x2, y2));
        assert(c.seen(x2, y2) == b.seen(x2, y2));
        assert(b.cell(x2, y2) == a.cell(x2, y2));
        assert(b.seen(x2, y2) == a.seen(x2, y2));
    }
}

/// Two changes that both stay within reach of a position stay within reach
/// of it together.
pub proof fn lemma_same_beyond_trans(
    a: MazeView,
    b: MazeView,
    c: MazeView,
    x: int,
    y: int,
    reach: int,
)
    requires
        a.same_beyond(b, x, y, reach),
        b.same_beyond(c, x, y, reach),
    ensures
        a.same_beyond(c, x, y, reach),
{
    reveal(MazeView::same_beyond);
    assert forall|x2: int, y2: int|
        #![trigger c.cell(x2, y2)]
        #![trigger c.seen(x2, y2)]
        distance(x, y, x2, y2) > reach implies c.cell(x2, y2) == a.cell(x2, y2) && c.seen(x2, y2)
        == a.seen(x2, y2) by {
        assert(c.cell(x2, y2) == b.cell(x2, y2));
        assert(c.seen(x2, y2) == b.seen(x2, y2));
        assert(b.cell(x2, y2) == a.cell(x2, y2));
        assert(b.seen(x2, y2) == a.seen(x2, y2));
    }
}

/// A maze is a scattering of itself, and the work of a walk that did
/// nothing.
pub proof fn lemma_scattered_refl(m: MazeView)
    ensures
        m.scattered_into(m),
        forall|x: int, y: int| #[trigger] m.walked_into(m, x, y),
        forall|x: int, y: int, reach: int| #[trigger] m.same_beyond(m, x, y, reach),
{
    reveal(MazeView::scattered_into);
    reveal(MazeView::walked_into);
    reveal(MazeView::same_beyond);
}

/// Among directions of which one beckons, one is the first.
pub proof fn lemma_first_beckoning(m: MazeView, x: int, y: int, dirs: Seq<Direction>, j: int)
    requires
        0 <= j < dirs.len(),
        m.beckoning(x, y, dirs[j]),
    ensures
        exists|k: int| 0 <= k <= j && #[trigger] m.first_beckoning(x, y, dirs, k),
    decreases j,
{
    if exists|i: int| 0 <= i < j && m.beckoning(x, y, #[trigger] dirs[i]) {
        let i = choose|i: int| 0 <= i < j && m.beckoning(x, y, #[trigger] dirs[i]);
        lemma_first_beckoning(m, x, y, dirs, i);
    } else {
        assert(m.first_beckoning(x, y, dirs, j));
    }
}

/// A walk that stands at a flagged position has, before it tries any
/// direction, done nothing.
pub proof fn lemma_walk_begins(start: MazeView, x: int, y: int, reach: int)
    requires
        start.wf(),
        reach >= 0,
        start.in_bounds(x, y) ==> start.seen(x, y),
    ensures
        start.walking(start, x, y, reach, Seq::<Direction>::empty()),
{
    reveal(MazeView::walking);
    lemma_scattered_refl(start);
}

/// A walk that leaves a direction alone, because the neighbour there is
/// outside the grid or not sparse, has gone through that direction.
pub proof fn lemma_walk_skips(
    start: MazeView,
    now: MazeView,
    x: int,
    y: int,
    reach: int,
    tried: Seq<Direction>,
    d: Direction,
)
    requires
        start.walking(now, x, y, reach, tried),
        !now.beckoning(x, y, d),
    ensures
        start.walking(now, x, y, reach, tried.push(d)),
{
    reveal(MazeView::walking);
    let more = tried.push(d);
    assert forall|j: int| 0 <= j < tried.len() implies #[trigger] more[j] == tried[j] by {}
    assert(more[tried.len() as int] == d);
    if forall|j: int| 0 <= j < more.len() ==> !start.beckoning(x, y, #[trigger] more[j]) {
        assert forall|j: int| 0 <= j < tried.len() implies !start.beckoning(
            x,
            y,
            #[trigger] tried[j],
        ) by {
            assert(more[j] == tried[j]);
        }
    }
    assert forall|k: int| #![trigger more[k]] start.first_beckoning(x, y, more, k) implies {
        &&& reach >= 1 ==> now.seen(x + more[k].dx(), y + more[k].dy())
        &&& start.in_bounds(x, y) && start.cell(x + more[k].dx(), y + more[k].dy()) is Empty
            ==> now.cell(x, y) matches Cell::Path(false, _)
    } by {
        if k < tried.len() {
            assert(more[k] == tried[k]);
            assert forall|j: int| 0 <= j < k implies !start.beckoning(x, y, #[trigger] tried[j]) by {
                assert(more[j] == tried[j]);
            }
            assert(start.first_beckoning(x, y, tried, k));
        } else {
            assert forall|j: int| 0 <= j < tried.len() implies !start.beckoning(
                x,
                y,
                #[trigger] tried[j],
            ) by {
                assert(more[j] == tried[j]);
            }
            assert(now == start);
        }
    }
}

/// A walk that goes on towards a beckoning direction, stamping the cell it
/// leaves where the neighbour is empty, and is then continued by a walk from
/// that neighbour with one step less to go, has gone through that direction.
pub proof fn lemma_walk_goes_on(
    start: MazeView,
    now: MazeView,
    after: MazeView,
    x: int,
    y: int,
    reach: int,
    tried: Seq<Direction>,
    d: Direction,
)
    requires
        start.walking(now, x, y, reach, tried),
        now.beckoning(x, y, d),
        after.wf(),
        after.same_shape(now),
        now.stamped(x, y, d).walked_into(after, x + d.dx(), y + d.dy()),
        now.stamped(x, y, d).same_beyond(after, x + d.dx(), y + d.dy(), reach - 1),
        reach >= 1 ==> after.seen(x + d.dx(), y + d.dy()),
    ensures
        start.walking(after, x, y, reach, tried.push(d)),
{
    reveal(MazeView::walking);
    let nx = x + d.dx();
    let ny = y + d.dy();
    let more = tried.push(d);
    let stamped = now.stamped(x, y, d);
    assert forall|j: int| 0 <= j < tried.len() implies #[trigger] more[j] == tried[j] by {}
    assert(more[tried.len() as int] == d);
    lemma_walk_keeps(start, now, x, y, x, y);
    lemma_scattered_fills(start, now);
    assert(start.sparse(nx, ny));
    assert(start.beckoning(x, y, d));
    lemma_with_cell(now, x, y, Cell::Path(false, d));
    if now.cell(nx, ny) is Empty {
        assert(now.inviting(x, y, d));
        lemma_stamp_is_walking(now, x, y, d, reach);
    } else {
        lemma_scattered_refl(now);
    }
    lemma_walked_on(start, now, stamped, x, y, x, y);
    lemma_walked_on(start, stamped, after, x, y, nx, ny);
    lemma_same_beyond_step(now, stamped, after, x, y, nx, ny, reach);
    lemma_same_beyond_trans(start, now, after, x, y, reach);
    lemma_walk_keeps(now, stamped, x, y, x, y);
    lemma_walk_keeps(stamped, after, nx, ny, x, y);
    assert(start.beckoning(x, y, more[tried.len() as int]));
    assert forall|k: int| #![trigger more[k]] start.first_beckoning(x, y, more, k) implies {
        &&& reach >= 1 ==> after.seen(x + more[k].dx(), y + more[k].dy())
        &&& start.in_bounds(x, y) && start.cell(x + more[k].dx(), y + more[k].dy()) is Empty
            ==> after.cell(x, y) matches Cell::Path(false, _)
    } by {
        if k < tried.len() {
            assert(more[k] == tried[k]);
            assert forall|j: int| 0 <= j < k implies !start.beckoning(x, y, #[trigger] tried[j]) by {
                assert(more[j] == tried[j]);
            }
            assert(start.first_beckoning(x, y, tried, k));
            let kx = x + tried[k].dx();
            let ky = y + tried[k].dy();
            lemma_walk_keeps(now, stamped, x, y, kx, ky);
            lemma_walk_keeps(stamped, after, nx, ny, kx, ky);
            if start.in_bounds(x, y) && start.cell(kx, ky) is Empty {
                assert(now.cell(x, y) matches Cell::Path(false, _));
                assert(stamped.cell(x, y) matches Cell::Path(false, _));
            }
        } else {
            assert forall|j: int| 0 <= j < tried.len() implies !start.beckoning(
                x,
                y,
                #[trigger] tried[j],
            ) by {
                assert(more[j] == tried[j]);
            }
            assert(now == start);
            if start.in_bounds(x, y) && start.cell(nx, ny) is Empty {
                assert(stamped.cell(x, y) matches Cell::Path(false, _));
            }
        }
    }
}

/// What a walk has done once it has gone through all its directions.
pub proof fn lemma_walk_ends(
    start: MazeView,
    now: MazeView,
    x: int,
    y: int,
    reach: int,
    tried: Seq<Direction>,
)
    requires
        start.walking(now, x, y, reach, tried),
    ensures
        now.wf(),
        now.same_shape(start),
        start.walked_among(now, x, y, reach, tried),
{
    reveal(MazeView::walking);
}

/// Setting the flag at `(x, y)` makes no difference to where a walk from
/// there goes on, nor to where it carves.
proof fn lemma_flag_keeps_beckoning(before: MazeView, x: int, y: int)
    requires
        before.wf(),
    ensures
        forall|px: int, py: int, d: Direction| #[trigger]
            before.with_seen(x, y).beckoning(px, py, d) == before.beckoning(px, py, d),
        forall|px: int, py: int| #[trigger]
            before.with_seen(x, y).cell(px, py) == before.cell(px, py),
{
    let flagged = before.with_seen(x, y);
    lemma_with_seen(before, x, y);
    assert(flagged.cells == before.cells);
    assert forall|px: int, py: int, d: Direction| #[trigger]
        flagged.beckoning(px, py, d) == before.beckoning(px, py, d) by {
        reveal(MazeView::sparse);
    }
}

/// What a walk from `(x, y)` has done, seen from before it flagged `(x, y)`,
/// given what it did among the directions `dirs` once the flag was set. The
/// directions hold every direction if the walk came from nowhere.
pub proof fn lemma_walk_from_flag(
    before: MazeView,
    after: MazeView,
    x: int,
    y: int,
    prev: Option<Direction>,
    reach: int,
    dirs: Seq<Direction>,
)
    requires
        before.wf(),
        after.wf(),
        reach >= 0,
        prev is None ==> forall|d: Direction| dirs.contains(d),
        before.with_seen(x, y).walked_among(after, x, y, reach, dirs),
    ensures
        before.walked_into(after, x, y),
        before.same_beyond(after, x, y, reach),
        before.in_bounds(x, y) ==> after.seen(x, y),
        before.hemmed_in(x, y) ==> after == before.with_seen(x, y),
        prev is None && before.in_bounds(x, y) && !before.hemmed_in(x, y) && before.open_ground(
            x,
            y,
        ) ==> after.cell(x, y) matches Cell::Path(false, _),
        reach >= 1 && prev is None && !before.hemmed_in(x, y) ==> exists|d: Direction| #[trigger]
            before.beckoning(x, y, d) && after.seen(x + d.dx(), y + d.dy()),
{
    let flagged = before.with_seen(x, y);
    lemma_with_seen(before, x, y);
    lemma_flag_keeps_beckoning(before, x, y);
    lemma_flag_is_walking(before, x, y, reach);
    lemma_walked_on(before, flagged, after, x, y, x, y);
    lemma_same_beyond_trans(before, flagged, after, x, y, reach);
    lemma_walk_keeps(flagged, after, x, y, x, y);
    if before.hemmed_in(x, y) {
        assert forall|j: int| 0 <= j < dirs.len() implies !flagged.beckoning(
            x,
            y,
            #[trigger] dirs[j],
        ) by {
            assert(!before.beckoning(x, y, dirs[j]));
        }
    }
    if prev is None && !before.hemmed_in(x, y) {
        let d = choose|d: Direction| #[trigger] before.beckoning(x, y, d);
        assert(dirs.contains(d));
        let j = choose|j: int| 0 <= j < dirs.len() && dirs[j] == d;
        assert(flagged.beckoning(x, y, dirs[j]));
        lemma_first_beckoning(flagged, x, y, dirs, j);
        let k = choose|k: int| 0 <= k <= j && #[trigger] flagged.first_beckoning(x, y, dirs, k);
        assert(before.beckoning(x, y, dirs[k]));
        if before.in_bounds(x, y) && before.open_ground(x, y) {
            assert(before.inviting(x, y, dirs[k]));
            assert(flagged.cell(x + dirs[k].dx(), y + dirs[k].dy()) is Empty);
        }
    }
}

/// Scattering keeps every wall supported: it adds no wall, and a cell it
/// changes becomes a decorative corridor, which supports as well as
/// whatever was there.
pub proof fn lemma_scattered_keeps_walls_supported(a: MazeView, b: MazeView)
    requires
        a.scattered_into(b),
        a.walls_supported(),
    ensures
        b.walls_supported(),
{
    reveal(MazeView::scattered_into);
    assert forall|x: int, y: int|
        b.in_bounds(x, y) && (#[trigger] b.cell(x, y)) is Wall
    implies b.blocked(x, y) by {
        assert(a.cell(x, y) is Wall);
        assert(a.blocked(x, y));
        assert(b.cell(x - 1, y) == a.cell(x - 1, y) || blocks(b.cell(x - 1, y)));
        assert(b.cell(x + 1, y) == a.cell(x + 1, y) || blocks(b.cell(x + 1, y)));
        assert(b.cell(x, y - 1) == a.cell(x, y - 1) || blocks(b.cell(x, y - 1)));
        assert(b.cell(x, y + 1) == a.cell(x, y + 1) || blocks(b.cell(x, y + 1)));
    }
}

/// Scattering adds no winning path cell.
pub proof fn lemma_scattered_adds_no_winning_path(a: MazeView, b: MazeView)
    requires
        a.scattered_into(b),
        forall|x: int, y: int| !(#[trigger] a.cell(x, y)).is_winning_path(),
    ensures
        forall|x: int, y: int| !(#[trigger] b.cell(x, y)).is_winning_path(),
{
    reveal(MazeView::scattered_into);
    assert forall|x: int, y: int| !(#[trigger] b.cell(x, y)).is_winning_path() by {
        let c = a.cell(x, y);
    }
}

/// Whether a walk that stands anywhere in `m` goes on from there and carves
/// as it goes: every position is on open ground and not hemmed in.
pub open spec fn open_everywhere(m: MazeView) -> bool {
    forall|x: int, y: int|
        m.in_bounds(x, y) ==> #[trigger] m.open_ground(x, y) && !m.hemmed_in(x, y)
}

/// A blank maze of more than one cell is open everywhere: nothing is
/// occupied, and every position has a neighbour.
pub proof fn lemma_blank_is_open(width: nat, height: nat, max_depth: nat)
    requires
        width > 0,
        height > 0,
        width > 1 || height > 1,
    ensures
        open_everywhere(MazeView::blank(width, height, max_depth)),
{
    let m = MazeView::blank(width, height, max_depth);
    lemma_blank(width, height, max_depth);
    assert forall|px: int, py: int| #[trigger] m.sparse(px, py) by {
        reveal(MazeView::sparse);
        assert(!m.counted_at(px - 1, py - 1, false));
        assert(!m.counted_at(px, py - 1, false));
        assert(!m.counted_at(px + 1, py - 1, false));
        assert(!m.counted_at(px - 1, py, false));
        assert(!m.counted_at(px + 1, py, false));
        assert(!m.counted_at(px - 1, py + 1, false));
        assert(!m.counted_at(px, py + 1, false));
        assert(!m.counted_at(px + 1, py + 1, false));
    }
    assert forall|x: int, y: int| m.in_bounds(x, y) implies #[trigger] m.open_ground(x, y)
        && !m.hemmed_in(x, y) by {
        assert forall|d: Direction| #[trigger] m.beckoning(x, y, d) implies m.inviting(x, y, d) by {
            assert(m.cell(x + d.dx(), y + d.dy()) == Cell::Empty);
        }
        let d = if width > 1 {
            if x + 1 < width {
                Direction::Right
            } else {
                Direction::Left
            }
        } else {
            if y + 1 < height {
                Direction::Down
            } else {
                Direction::Up
            }
        };
        assert(m.in_bounds(x + d.dx(), y + d.dy()));
        assert(m.sparse(x + d.dx(), y + d.dy()));
        assert(m.beckoning(x, y, d));
    }
}

} // verus!
