//! The board as a mathematical value, and what each command makes of it.
use vstd::prelude::*;
use crate::line::{Slide, slide_line, slides_gain, saturate, is_pow2};
use crate::settings::Settings;
use crate::tile::{Tile, TileState};

verus! {

/// The wall that a move pushes the tiles toward.
#[derive(Clone, Copy, Debug, PartialEq, Eq, Structural)]
pub enum Direction {
    /// Toward column 0.
    Left,
    /// Toward the last column.
    Right,
    /// Toward row 0.
    Up,
    /// Toward the last row.
    Down,
}

/// A value that a tile may carry: a power of two, at least 2.
pub open spec fn is_tile_value(v: u64) -> bool {
    v >= 2 && is_pow2(v as nat)
}

/// The board as a value: `grid[y][x]` is the cell at column `x`, row `y`.
pub struct BoardView {
    pub grid: Seq<Seq<Option<Tile>>>,
    pub score: u64,
    pub settings: Settings,
}

impl BoardView {
    pub open spec fn width(self) -> int {
        self.settings.tile_width as int
    }

    pub open spec fn height(self) -> int {
        self.settings.tile_height as int
    }

    pub open spec fn in_grid(self, x: int, y: int) -> bool {
        0 <= x < self.width() && 0 <= y < self.height()
    }

    pub open spec fn cell(self, x: int, y: int) -> Option<Tile> {
        self.grid[y][x]
    }

    /// The grid has the configured size, and each tile knows its own cell and
    /// carries a power of two.
    pub open spec fn wf(self) -> bool {
        &&& self.settings.wf()
        &&& self.grid.len() == self.height()
        &&& forall|y: int| 0 <= y < self.height() ==> #[trigger] self.grid[y].len() == self.width()
        &&& forall|x: int, y: int|
            self.in_grid(x, y) && (#[trigger] self.cell(x, y)) is Some ==> {
                let t = self.cell(x, y).unwrap();
                &&& t.tile_x == x
                &&& t.tile_y == y
                &&& is_tile_value(t.score)
            }
    }

    /// Some tile is still animating: the board takes no move.
    pub open spec fn locked(self) -> bool {
        exists|x: int, y: int|
            self.in_grid(x, y) && (#[trigger] self.cell(x, y)) is Some && self.cell(
                x,
                y,
            ).unwrap().status != TileState::TileStatic
    }

    /// How many cells a line has in direction `dir`.
    pub open spec fn line_len(self, dir: Direction) -> int {
        match dir {
            Direction::Left | Direction::Right => self.width(),
            Direction::Up | Direction::Down => self.height(),
        }
    }

    /// How many lines the grid has in direction `dir`.
    pub open spec fn line_count(self, dir: Direction) -> int {
        match dir {
            Direction::Left | Direction::Right => self.height(),
            Direction::Up | Direction::Down => self.width(),
        }
    }

    /// The (column, row) of the cell `k` steps from the wall on line `l`.
    pub open spec fn cell_of(self, dir: Direction, l: int, k: int) -> (int, int) {
        match dir {
            Direction::Left => (k, l),
            Direction::Right => (self.width() - 1 - k, l),
            Direction::Up => (l, k),
            Direction::Down => (l, self.height() - 1 - k),
        }
    }

    /// The (line, steps from the wall) of the cell at (`x`, `y`).
    pub open spec fn line_pos(self, dir: Direction, x: int, y: int) -> (int, int) {
        match dir {
            Direction::Left => (y, x),
            Direction::Right => (y, self.width() - 1 - x),
            Direction::Up => (x, y),
            Direction::Down => (x, self.height() - 1 - y),
        }
    }

    pub open spec fn value_at(self, x: int, y: int) -> Option<u64> {
        match self.cell(x, y) {
            Some(t) => Some(t.score),
            None => None,
        }
    }

    /// No two cells side by side, in a row or in a column, hold one value.
    pub open spec fn no_equal_neighbours(self) -> bool {
        &&& forall|x: int, y: int|
            self.in_grid(x, y) && self.in_grid(x + 1, y) ==> #[trigger] self.value_at(x, y)
                != self.value_at(x + 1, y)
        &&& forall|x: int, y: int|
            self.in_grid(x, y) && self.in_grid(x, y + 1) ==> #[trigger] self.value_at(x, y)
                != self.value_at(x, y + 1)
    }

    /// The values on line `l`, from the wall outward.
    pub open spec fn line_values(self, dir: Direction, l: int) -> Seq<Option<u64>> {
        Seq::new(
            self.line_len(dir) as nat,
            |k: int| { self.value_at(self.cell_of(dir, l, k).0, self.cell_of(dir, l, k).1) },
        )
    }

    pub open spec fn line_slides(self, dir: Direction, l: int) -> Seq<Slide> {
        slide_line(self.line_values(dir, l))
    }

    /// What fills the cell `k` steps from the wall on line `l` after a move: a
    /// tile that stays is left as it is, one that slides is moving from its
    /// old cell, and one made by a merge is new.
    pub open spec fn slid_tile(self, dir: Direction, l: int, k: int) -> Option<Tile> {
        let sl = self.line_slides(dir, l);
        let x = self.cell_of(dir, l, k).0;
        let y = self.cell_of(dir, l, k).1;
        if 0 <= k < sl.len() {
            Some(
                match sl[k] {
                    Slide::Kept(src, v) => if src == k {
                        self.cell(x, y).unwrap()
                    } else {
                        Tile {
                            tile_x: x as i32,
                            tile_y: y as i32,
                            score: v,
                            status: TileState::TileMoving(
                                self.settings.tile_move_time,
                                self.cell_of(dir, l, src as int).0 as i32,
                                self.cell_of(dir, l, src as int).1 as i32,
                                x as i32,
                                y as i32,
                            ),
                        }
                    },
                    Slide::Merged(_, _, v) => Tile {
                        tile_x: x as i32,
                        tile_y: y as i32,
                        score: v,
                        status: TileState::TileNew(self.settings.tile_new_time, 0),
                    },
                },
            )
        } else {
            None
        }
    }

    /// The grid after a move in direction `dir`.
    pub open spec fn shifted_grid(self, dir: Direction) -> Seq<Seq<Option<Tile>>> {
        Seq::new(
            self.height() as nat,
            |y: int|
                Seq::new(
                    self.width() as nat,
                    |x: int|
                        self.slid_tile(
                            dir,
                            self.line_pos(dir, x, y).0,
                            self.line_pos(dir, x, y).1,
                        ),
                ),
        )
    }

    /// What the first `n` lines score in a move in direction `dir`.
    pub open spec fn lines_gain(self, dir: Direction, n: int) -> int
        decreases n,
    {
        if n <= 0 {
            0
        } else {
            self.lines_gain(dir, n - 1) + slides_gain(self.line_slides(dir, n - 1))
        }
    }

    /// What a move in direction `dir` scores: the sum of the merged values.
    pub open spec fn gain(self, dir: Direction) -> int {
        self.lines_gain(dir, self.line_count(dir))
    }

    /// The board after a move in direction `dir`, before a new tile appears.
    pub open spec fn shifted(self, dir: Direction) -> BoardView {
        BoardView {
            grid: self.shifted_grid(dir),
            score: saturate(self.score + self.gain(dir)),
            settings: self.settings,
        }
    }

    /// A move in direction `dir` changes the grid: some tile slides or merges.
    pub open spec fn moves(self, dir: Direction) -> bool {
        self.shifted_grid(dir) != self.grid
    }
}

/// The empty cells among the first `n` of `row` (row number `y`), as (column, row).
pub open spec fn row_empties(row: Seq<Option<Tile>>, y: int, n: int) -> Seq<(int, int)>
    decreases n,
{
    if n <= 0 {
        seq![]
    } else {
        row_empties(row, y, n - 1) + if row[n - 1] is None {
            seq![(n - 1, y)]
        } else {
            seq![]
        }
    }
}

/// The empty cells of the first `m` rows of `grid`, row by row, left to right.
pub open spec fn grid_empties(grid: Seq<Seq<Option<Tile>>>, m: int) -> Seq<(int, int)>
    decreases m,
{
    if m <= 0 {
        seq![]
    } else {
        grid_empties(grid, m - 1) + row_empties(grid[m - 1], m - 1, grid[m - 1].len() as int)
    }
}

/// The tiles among the first `n` cells of `row`, in order.
pub open spec fn row_tiles(row: Seq<Option<Tile>>, n: int) -> Seq<Tile>
    decreases n,
{
    if n <= 0 {
        seq![]
    } else {
        row_tiles(row, n - 1) + match row[n - 1] {
            Some(t) => seq![t],
            None => seq![],
        }
    }
}

/// The tiles of the first `m` rows of `grid`, row by row, left to right.
pub open spec fn grid_tiles(grid: Seq<Seq<Option<Tile>>>, m: int) -> Seq<Tile>
    decreases m,
{
    if m <= 0 {
        seq![]
    } else {
        grid_tiles(grid, m - 1) + row_tiles(grid[m - 1], grid[m - 1].len() as int)
    }
}

/// The value of a new tile, from a uniform draw: 4 one time in ten, else 2.
pub open spec fn spawn_value(draw: u32) -> u64 {
    if draw % 10 == 0 {
        4
    } else {
        2
    }
}

impl BoardView {
    /// A board of the given settings with no tile and no score.
    pub open spec fn empty(settings: Settings) -> BoardView {
        BoardView {
            grid: Seq::new(
                settings.tile_height as nat,
                |y: int| Seq::new(settings.tile_width as nat, |x: int| None),
            ),
            score: 0,
            settings,
        }
    }

    /// The empty cells, row by row, left to right.
    pub open spec fn empty_cells(self) -> Seq<(int, int)> {
        grid_empties(self.grid, self.grid.len() as int)
    }

    /// The tiles, row by row, left to right.
    pub open spec fn tiles(self) -> Seq<Tile> {
        grid_tiles(self.grid, self.grid.len() as int)
    }

    pub open spec fn tile_count(self) -> int {
        self.tiles().len() as int
    }

    /// Every cell holds a tile.
    pub open spec fn is_full(self) -> bool {
        forall|x: int, y: int| self.in_grid(x, y) ==> (#[trigger] self.cell(x, y)) is Some
    }

    /// A tile of value `v` that starts to appear at (`x`, `y`).
    pub open spec fn new_tile(self, x: int, y: int, v: u64) -> Tile {
        Tile {
            tile_x: x as i32,
            tile_y: y as i32,
            score: v,
            status: TileState::TileNew(self.settings.tile_new_time, 0),
        }
    }

    /// This board with a new tile of value `v` at (`x`, `y`).
    pub open spec fn with_new_tile(self, x: int, y: int, v: u64) -> BoardView {
        BoardView {
            grid: self.grid.update(y, self.grid[y].update(x, Some(self.new_tile(x, y, v)))),
            ..self
        }
    }

    /// The board after a new tile appears where the draws say: in the empty
    /// cell numbered `cell_draw` modulo their count, with the value that
    /// `value_draw` gives. A full board stays as it is.
    pub open spec fn spawned(self, cell_draw: u32, value_draw: u32) -> BoardView {
        let e = self.empty_cells();
        if e.len() == 0 {
            self
        } else {
            let c = e[cell_draw as int % e.len() as int];
            self.with_new_tile(c.0, c.1, spawn_value(value_draw))
        }
    }

    /// `after` is what a random new tile can make of this board: a 2 or a 4
    /// in one of its empty cells, or the board itself where none is empty.
    pub open spec fn spawns_into(self, after: BoardView) -> bool {
        let e = self.empty_cells();
        ||| e.len() == 0 && after == self
        ||| exists|j: int, v: u64|
            0 <= j < e.len() && (v == 2 || v == 4) && after == #[trigger] self.with_new_tile(
                e[j].0,
                e[j].1,
                v,
            )
    }

    /// The board after `dt` more milliseconds of animation.
    pub open spec fn advanced(self, dt: u64) -> BoardView {
        BoardView {
            grid: Seq::new(
                self.grid.len(),
                |y: int|
                    Seq::new(
                        self.grid[y].len(),
                        |x: int|
                            match self.grid[y][x] {
                                Some(t) => Some(t.advanced(self.settings.tile_size, dt)),
                                None => None,
                            },
                    ),
            ),
            ..self
        }
    }
}

/// `a` comes before `b` reading row by row, left to right.
pub open spec fn reads_before(a: Tile, b: Tile) -> bool {
    a.tile_y < b.tile_y || (a.tile_y == b.tile_y && a.tile_x < b.tile_x)
}

/// What the player and the clock do to a board.
#[derive(Clone, Copy, Debug, PartialEq, Eq, Structural)]
pub enum Command {
    /// A move toward a wall, with the two draws that place the new tile.
    Move(Direction, u32, u32),
    /// Time passing, in milliseconds.
    Tick(u64),
}

impl BoardView {
    /// The board after one command: a move does nothing while a tile
    /// animates or when nothing can slide; otherwise the tiles slide and a
    /// new tile appears.
    pub open spec fn after(self, c: Command) -> BoardView {
        match c {
            Command::Move(dir, cell_draw, value_draw) => if self.locked() || !self.moves(dir) {
                self
            } else {
                self.shifted(dir).spawned(cell_draw, value_draw)
            },
            Command::Tick(dt) => self.advanced(dt),
        }
    }

    /// The board after the commands `cs`, in order.
    pub open spec fn after_all(self, cs: Seq<Command>) -> BoardView
        decreases cs.len(),
    {
        if cs.len() == 0 {
            self
        } else {
            self.after_all(cs.drop_last()).after(cs.last())
        }
    }
}

} // verus!
