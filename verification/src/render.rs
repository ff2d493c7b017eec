//! How a maze is shown: one glyph and one colour per cell. Writing them to
//! a terminal or into an image file is left to the caller.

use crate::cell::{Cell, Direction};
use crate::maze::Maze;
use vstd::prelude::*;

verus! {

/// The glyph for a cell. Walls are drawn as `#`, or, when `oriented` is set,
/// as a full block for a vertical corridor and a bar for a horizontal one.
pub open spec fn glyph_of(c: Cell, oriented: bool) -> char {
    match c {
        Cell::Empty => ' ',
        Cell::Wall(d) => if !oriented {
            '#'
        } else if d is Up || d is Down {
            '\u{2588}'
        } else {
            '\u{25ac}'
        },
        Cell::Path(winning, _) => if winning {
            '.'
        } else {
            ','
        },
        Cell::Start => 'S',
        Cell::End => 'E',
        Cell::Invalid => 'X',
    }
}

/// The colour for a cell, as red, green and blue. Walls are white, the
/// origin green, the destination blue and the sentinel yellow. The winning
/// path is red when `show_win_path` is set; everything else is black.
pub open spec fn color_of(c: Cell, show_win_path: bool) -> (u8, u8, u8) {
    match c {
        Cell::Empty => (0u8, 0u8, 0u8),
        Cell::Wall(_) => (255u8, 255u8, 255u8),
        Cell::Path(winning, _) => if winning && show_win_path {
            (255u8, 0u8, 0u8)
        } else {
            (0u8, 0u8, 0u8)
        },
        Cell::Start => (0u8, 255u8, 0u8),
        Cell::End => (0u8, 0u8, 255u8),
        Cell::Invalid => (255u8, 255u8, 0u8),
    }
}

impl Cell {
    /// The glyph that stands for this cell in a text rendering.
    pub fn glyph(&self, oriented: bool) -> (g: char)
        ensures
            g == glyph_of(*self, oriented),
    {
        match self {
            Cell::Empty => ' ',
            Cell::Wall(d) => {
                if !oriented {
                    '#'
                } else {
                    match d {
                        Direction::Up | Direction::Down => '\u{2588}',
                        Direction::Left | Direction::Right => '\u{25ac}',
                    }
                }
            },
            Cell::Path(winning, _) => {
                if *winning {
                    '.'
                } else {
                    ','
                }
            },
            Cell::Start => 'S',
            Cell::End => 'E',
            Cell::Invalid => 'X',
        }
    }

    /// The colour that stands for this cell in an image.
    pub fn color(&self, show_win_path: bool) -> (rgb: (u8, u8, u8))
        ensures
            rgb == color_of(*self, show_win_path),
    {
        match self {
            Cell::Empty => (0, 0, 0),
            Cell::Wall(_) => (255, 255, 255),
            Cell::Path(winning, _) => {
                if *winning && show_win_path {
                    (255, 0, 0)
                } else {
                    (0, 0, 0)
                }
            },
            Cell::Start => (0, 255, 0),
            Cell::End => (0, 0, 255),
            Cell::Invalid => (255, 255, 0),
        }
    }
}

impl Maze {
    /// The maze as rows of glyphs, top row first.
    pub fn glyphs(&self, oriented: bool) -> (rows: Vec<Vec<char>>)
        requires
            self.wf(),
        ensures
            rows@.len() == self@.height,
            forall|y: int|
                0 <= y < self@.height ==> (#[trigger] rows@[y])@.len() == self@.width,
            forall|x: int, y: int|
                0 <= y < self@.height && 0 <= x < self@.width ==> #[trigger] rows@[y]@[x]
                    == glyph_of(self@.cell(x, y), oriented),
    {
        let mut rows: Vec<Vec<char>> = Vec::new();
        let mut y: usize = 0;
        while y < self.height()
            invariant
                self.wf(),
                y <= self@.height,
                rows@.len() == y,
                forall|j: int| 0 <= j < y ==> (#[trigger] rows@[j])@.len() == self@.width,
                forall|i: int, j: int|
                    0 <= j < y && 0 <= i < self@.width ==> #[trigger] rows@[j]@[i] == glyph_of(
                        self@.cell(i, j),
                        oriented,
                    ),
            decreases self@.height - y,
        {
            let mut row: Vec<char> = Vec::new();
            let mut x: usize = 0;
            while x < self.width()
                invariant
                    self.wf(),
                    x <= self@.width,
                    row@.len() == x,
                    forall|i: int|
                        0 <= i < x ==> #[trigger] row@[i] == glyph_of(
                            self@.cell(i, y as int),
                            oriented,
                        ),
                decreases self@.width - x,
            {
                row.push(self.get(x, y).glyph(oriented));
                x = x + 1;
            }
            rows.push(row);
            y = y + 1;
        }
        rows
    }

    /// The maze as rows of colours, top row first.
    pub fn colors(&self, show_win_path: bool) -> (rows: Vec<Vec<(u8, u8, u8)>>)
        requires
            self.wf(),
        ensures
            rows@.len() == self@.height,
            forall|y: int|
                0 <= y < self@.height ==> (#[trigger] rows@[y])@.len() == self@.width,
            forall|x: int, y: int|
                0 <= y < self@.height && 0 <= x < self@.width ==> #[trigger] rows@[y]@[x]
                    == color_of(self@.cell(x, y), show_win_path),
    {
        let mut rows: Vec<Vec<(u8, u8, u8)>> = Vec::new();
        let mut y: usize = 0;
        while y < self.height()
            invariant
                self.wf(),
                y <= self@.height,
                rows@.len() == y,
                forall|j: int| 0 <= j < y ==> (#[trigger] rows@[j])@.len() == self@.width,
                forall|i: int, j: int|
                    0 <= j < y && 0 <= i < self@.width ==> #[trigger] rows@[j]@[i] == color_of(
                        self@.cell(i, j),
                        show_win_path,
                    ),
            decreases self@.height - y,
        {
            let mut row: Vec<(u8, u8, u8)> = Vec::new();
            let mut x: usize = 0;
            while x < self.width()
                invariant
                    self.wf(),
                    x <= self@.width,
                    row@.len() == x,
                    forall|i: int|
                        0 <= i < x ==> #[trigger] row@[i] == color_of(
                            self@.cell(i, y as int),
                            show_win_path,
                        ),
                decreases self@.width - x,
            {
                row.push(self.get(x, y).color(show_win_path));
                x = x + 1;
            }
            rows.push(row);
            y = y + 1;
        }
        rows
    }
}

} // verus!
