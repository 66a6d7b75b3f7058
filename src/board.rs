//! The board: a grid of cells, each empty or holding one tile, and the score.
//! A move slides every line of the grid toward one wall; see `line`.
use vstd::prelude::*;
use crate::laws::{
    lemma_shifted_wf, lemma_still_move_gains_nothing, lemma_empty_cells, lemma_new_tile,
    lemma_spawn_values, lemma_advanced_wf,
};
use crate::line::{Slide, saturate, slide_values, lemma_slide_line, slide_fits};
use crate::model::{BoardView, Command, Direction, grid_empties, row_empties, grid_tiles, row_tiles, spawn_value};
use crate::settings::Settings;
use crate::tile::{Tile, TileState};

verus! {

/// Relies on `rand::random`: a uniformly drawn `u32`, of which nothing more
/// is promised.
#[verifier::external_body]
fn random_u32() -> u32 {
    rand::random::<u32>()
}

/// The game's board: its cells, row by row, the score, and the settings it
/// was made with. Its value is a `BoardView`.
pub struct Board {
    rows: Vec<Vec<Option<Tile>>>,
    score: u64,
    settings: Settings,
}

impl View for Board {
    type V = BoardView;

    closed spec fn view(&self) -> BoardView {
        BoardView {
            grid: self.rows@.map_values(|r: Vec<Option<Tile>>| r@),
            score: self.score,
            settings: self.settings,
        }
    }
}

fn same_cell(a: &Option<Tile>, b: &Option<Tile>) -> (r: bool)
    ensures
        r == (*a == *b),
{
    match (a, b) {
        (Some(s), Some(t)) => *s == *t,
        (None, None) => true,
        _ => false,
    }
}

impl Board {
    proof fn lemma_rows(&self)
        ensures
            self.rows@.len() == self@.grid.len(),
            forall|y: int| 0 <= y < self.rows@.len() ==> #[trigger] self.rows@[y]@ == self@.grid[y],
    {
    }

    /// The (column, row) of the cell `k` steps from the wall on line `l`.
    fn cell_of(&self, dir: Direction, l: usize, k: usize) -> (r: (usize, usize))
        requires
            self@.wf(),
            l < self@.line_count(dir),
            k < self@.line_len(dir),
        ensures
            r.0 as int == self@.cell_of(dir, l as int, k as int).0,
            r.1 as int == self@.cell_of(dir, l as int, k as int).1,
            self@.in_grid(r.0 as int, r.1 as int),
    {
        let w = self.settings.tile_width as usize;
        let h = self.settings.tile_height as usize;
        match dir {
            Direction::Left => (k, l),
            Direction::Right => (w - 1 - k, l),
            Direction::Up => (l, k),
            Direction::Down => (l, h - 1 - k),
        }
    }

    /// The (line, steps from the wall) of the cell at (`x`, `y`).
    fn line_pos(&self, dir: Direction, x: usize, y: usize) -> (r: (usize, usize))
        requires
            self@.wf(),
            self@.in_grid(x as int, y as int),
        ensures
            r.0 as int == self@.line_pos(dir, x as int, y as int).0,
            r.1 as int == self@.line_pos(dir, x as int, y as int).1,
            r.0 < self@.line_count(dir),
            r.1 < self@.line_len(dir),
            self@.cell_of(dir, r.0 as int, r.1 as int) == (x as int, y as int),
    {
        let w = self.settings.tile_width as usize;
        let h = self.settings.tile_height as usize;
        match dir {
            Direction::Left => (y, x),
            Direction::Right => (y, w - 1 - x),
            Direction::Up => (x, y),
            Direction::Down => (x, h - 1 - y),
        }
    }

    fn line_values(&self, dir: Direction, l: usize) -> (r: Vec<Option<u64>>)
        requires
            self@.wf(),
            l < self@.line_count(dir),
        ensures
            r@ == self@.line_values(dir, l as int),
    {
        let len: usize = match dir {
            Direction::Left | Direction::Right => self.settings.tile_width as usize,
            Direction::Up | Direction::Down => self.settings.tile_height as usize,
        };
        let mut vals: Vec<Option<u64>> = Vec::new();
        let mut k: usize = 0;
        while k < len
            invariant
                self@.wf(),
                l < self@.line_count(dir),
                len == self@.line_len(dir),
                k <= len,
                vals@.len() == k,
                forall|i: int| 0 <= i < k ==> vals@[i] == self@.line_values(dir, l as int)[i],
            decreases len - k,
        {
            let (x, y) = self.cell_of(dir, l, k);
            proof {
                self.lemma_rows();
            }
            let v = match &self.rows[y][x] {
                Some(t) => Some(t.score),
                None => None,
            };
            vals.push(v);
            k += 1;
        }
        assert(vals@ =~= self@.line_values(dir, l as int));
        vals
    }

    /// The tile that slide `s`, the `k`-th of line `l`, leaves in its cell.
    fn slid_tile(&self, dir: Direction, l: usize, k: usize, s: Slide) -> (t: Tile)
        requires
            self@.wf(),
            l < self@.line_count(dir),
            k < self@.line_slides(dir, l as int).len(),
            s == self@.line_slides(dir, l as int)[k as int],
        ensures
            self@.slid_tile(dir, l as int, k as int) == Some(t),
    {
        let ghost line = self@.line_values(dir, l as int);
        proof {
            lemma_slide_line(line);
            assert(slide_fits(s, line));
        }
        let (x, y) = self.cell_of(dir, l, k);
        match s {
            Slide::Kept(src, v) => {
                if src == k {
                    proof {
                        self.lemma_rows();
                    }
                    self.rows[y][x].unwrap()
                } else {
                    let (sx, sy) = self.cell_of(dir, l, src);
                    Tile {
                        tile_x: x as i32,
                        tile_y: y as i32,
                        score: v,
                        status: TileState::TileMoving(
                            self.settings.tile_move_time,
                            sx as i32,
                            sy as i32,
                            x as i32,
                            y as i32,
                        ),
                    }
                }
            },
            Slide::Merged(_, _, v) => Tile {
                tile_x: x as i32,
                tile_y: y as i32,
                score: v,
                status: TileState::TileNew(self.settings.tile_new_time, 0),
            },
        }
    }

    /// Computes a move in direction `dir` without applying it: the new rows,
    /// the new score, and whether the grid changes.
    fn shifted_rows(&self, dir: Direction) -> (r: (Vec<Vec<Option<Tile>>>, u64, bool))
        requires
            self@.wf(),
        ensures
            r.0@.map_values(|row: Vec<Option<Tile>>| row@) == self@.shifted_grid(dir),
            r.1 == self@.shifted(dir).score,
            r.2 == self@.moves(dir),
            self@.gain(dir) >= 0,
    {
        let w = self.settings.tile_width as usize;
        let h = self.settings.tile_height as usize;
        let n_lines: usize = match dir {
            Direction::Left | Direction::Right => h,
            Direction::Up | Direction::Down => w,
        };
        let mut all: Vec<Vec<Slide>> = Vec::new();
        let mut score: u64 = self.score;
        let mut l: usize = 0;
        while l < n_lines
            invariant
                self@.wf(),
                n_lines == self@.line_count(dir),
                l <= n_lines,
                all@.len() == l,
                forall|j: int| 0 <= j < l ==> (#[trigger] all@[j])@ == self@.line_slides(dir, j),
                self@.lines_gain(dir, l as int) >= 0,
                score == saturate(self@.score + self@.lines_gain(dir, l as int)),
            decreases n_lines - l,
        {
            let vals = self.line_values(dir, l);
            let (sl, g) = slide_values(&vals);
            all.push(sl);
            score = score.saturating_add(g);
            l += 1;
        }
        let ghost grid = self@.grid;
        let ghost target = self@.shifted_grid(dir);
        let mut new_rows: Vec<Vec<Option<Tile>>> = Vec::new();
        let mut changed = false;
        let mut y: usize = 0;
        while y < h
            invariant
                self@.wf(),
                grid == self@.grid,
                target == self@.shifted_grid(dir),
                w == self@.width(),
                h == self@.height(),
                all@.len() == self@.line_count(dir),
                forall|j: int|
                    0 <= j < self@.line_count(dir) ==> (#[trigger] all@[j])@ == self@.line_slides(
                        dir,
                        j,
                    ),
                y <= h,
                new_rows@.len() == y,
                forall|j: int| 0 <= j < y ==> (#[trigger] new_rows@[j])@ == target[j],
                changed == exists|i: int, j: int|
                    0 <= j < y && 0 <= i < w && #[trigger] target[j][i] != grid[j][i],
            decreases h - y,
        {
            let mut row: Vec<Option<Tile>> = Vec::new();
            let mut x: usize = 0;
            while x < w
                invariant
                    self@.wf(),
                    grid == self@.grid,
                    target == self@.shifted_grid(dir),
                    w == self@.width(),
                    h == self@.height(),
                    y < h,
                    all@.len() == self@.line_count(dir),
                    forall|j: int|
                        0 <= j < self@.line_count(dir) ==> (#[trigger] all@[j])@
                            == self@.line_slides(dir, j),
                    x <= w,
                    row@.len() == x,
                    forall|i: int| 0 <= i < x ==> #[trigger] row@[i] == target[y as int][i],
                    changed == ((exists|i: int, j: int|
                        0 <= j < y && 0 <= i < w && #[trigger] target[j][i] != grid[j][i]) || (
                    exists|i: int| 0 <= i < x && #[trigger] target[y as int][i] != grid[y as int][i])),
                decreases w - x,
            {
                let (l, k) = self.line_pos(dir, x, y);
                let c = if k < all[l].len() {
                    Some(self.slid_tile(dir, l, k, all[l][k]))
                } else {
                    None
                };
                assert(c == target[y as int][x as int]);
                proof {
                    self.lemma_rows();
                }
                if !same_cell(&c, &self.rows[y][x]) {
                    changed = true;
                }
                row.push(c);
                x += 1;
            }
            assert(row@ =~= target[y as int]);
            proof {
                if exists|i: int| 0 <= i < w && #[trigger] target[y as int][i] != grid[y as int][i] {
                    let i = choose|i: int| 0 <= i < w && #[trigger] target[y as int][i] != grid[y as int][i];
                    assert(0 <= y < y + 1 && 0 <= i < w && target[y as int][i] != grid[y as int][i]);
                }
                if exists|i: int, j: int|
                    0 <= j < y + 1 && 0 <= i < w && #[trigger] target[j][i] != grid[j][i] {
                    let (i, j) = choose|i: int, j: int|
                        0 <= j < y + 1 && 0 <= i < w && #[trigger] target[j][i] != grid[j][i];
                    if j < y {
                        assert(0 <= j < y && 0 <= i < w && target[j][i] != grid[j][i]);
                    } else {
                        assert(0 <= i < w && target[y as int][i] != grid[y as int][i]);
                    }
                }
            }
            new_rows.push(row);
            y += 1;
        }
        assert(new_rows@.map_values(|row: Vec<Option<Tile>>| row@) =~= target);
        proof {
            if !changed {
                assert forall|j: int| 0 <= j < h implies #[trigger] target[j] =~= grid[j] by {
                    assert forall|i: int| 0 <= i < w implies target[j][i] == grid[j][i] by {
                        assert(!(target[j][i] != grid[j][i]));
                    }
                }
                assert(target =~= grid);
            }
        }
        (new_rows, score, changed)
    }

    /// Whether some tile is still animating; while it is, moves are ignored.
    pub fn is_locking(&self) -> (r: bool)
        requires
            self@.wf(),
        ensures
            r == self@.locked(),
    {
        let w = self.settings.tile_width as usize;
        let h = self.settings.tile_height as usize;
        proof {
            self.lemma_rows();
        }
        let mut y: usize = 0;
        while y < h
            invariant
                self@.wf(),
                w == self@.width(),
                h == self@.height(),
                y <= h,
                self.rows@.len() == h,
                forall|j: int| 0 <= j < h ==> #[trigger] self.rows@[j]@ == self@.grid[j],
                forall|i: int, j: int|
                    0 <= i < w && 0 <= j < y && (#[trigger] self@.cell(i, j)) is Some ==> self@.cell(
                        i,
                        j,
                    ).unwrap().status == TileState::TileStatic,
            decreases h - y,
        {
            let mut x: usize = 0;
            while x < w
                invariant
                    self@.wf(),
                    w == self@.width(),
                    h == self@.height(),
                    y < h,
                    x <= w,
                    self.rows@.len() == h,
                    forall|j: int| 0 <= j < h ==> #[trigger] self.rows@[j]@ == self@.grid[j],
                    forall|i: int, j: int|
                        0 <= i < w && 0 <= j < y && (#[trigger] self@.cell(i, j)) is Some
                            ==> self@.cell(i, j).unwrap().status == TileState::TileStatic,
                    forall|i: int|
                        0 <= i < x && (#[trigger] self@.cell(i, y as int)) is Some ==> self@.cell(
                            i,
                            y as int,
                        ).unwrap().status == TileState::TileStatic,
                decreases w - x,
            {
                match &self.rows[y][x] {
                    Some(t) => {
                        if !t.is_static() {
                            assert(self@.in_grid(x as int, y as int) && self@.cell(
                                x as int,
                                y as int,
                            ) is Some && self@.cell(x as int, y as int).unwrap().status
                                != TileState::TileStatic);
                            return true;
                        }
                    },
                    None => {},
                }
                x += 1;
            }
            y += 1;
        }
        false
    }

    /// Moves every tile toward the wall `dir` without a new tile appearing:
    /// nothing happens while a tile animates; otherwise the board becomes its
    /// shifted self. Returns whether the grid changed.
    pub fn slide(&mut self, dir: Direction) -> (moved: bool)
        requires
            old(self)@.wf(),
        ensures
            final(self)@.wf(),
            old(self)@.locked() ==> !moved && final(self)@ == old(self)@,
            !old(self)@.locked() ==> moved == old(self)@.moves(dir) && final(self)@ == old(
                self,
            )@.shifted(dir),
            !moved ==> final(self)@ == old(self)@,
            final(self)@.score >= old(self)@.score,
    {
        if self.is_locking() {
            return false;
        }
        let (rows, score, moved) = self.shifted_rows(dir);
        proof {
            lemma_shifted_wf(self@, dir);
            if !moved {
                lemma_still_move_gains_nothing(self@, dir);
            }
        }
        self.rows = rows;
        self.score = score;
        moved
    }

    /// A board of the given settings with no tile and no score.
    pub fn empty(settings: &Settings) -> (b: Board)
        requires
            settings.wf(),
        ensures
            b@ == BoardView::empty(*settings),
            b@.wf(),
    {
        let w = settings.tile_width as usize;
        let h = settings.tile_height as usize;
        let ghost target = BoardView::empty(*settings).grid;
        let mut rows: Vec<Vec<Option<Tile>>> = Vec::new();
        let mut y: usize = 0;
        while y < h
            invariant
                w == settings.tile_width,
                h == settings.tile_height,
                target == BoardView::empty(*settings).grid,
                y <= h,
                rows@.len() == y,
                forall|j: int| 0 <= j < y ==> (#[trigger] rows@[j])@ == target[j],
            decreases h - y,
        {
            let mut row: Vec<Option<Tile>> = Vec::new();
            let mut x: usize = 0;
            while x < w
                invariant
                    w == settings.tile_width,
                    x <= w,
                    row@.len() == x,
                    forall|i: int| 0 <= i < x ==> (#[trigger] row@[i]) is None,
                decreases w - x,
            {
                row.push(None);
                x += 1;
            }
            assert(row@ =~= target[y as int]);
            rows.push(row);
            y += 1;
        }
        let b = Board { rows, score: 0, settings: *settings };
        assert(b@.grid =~= target);
        b
    }

    /// The empty cells, row by row, left to right, as (column, row).
    fn empty_cells(&self) -> (r: Vec<(usize, usize)>)
        requires
            self@.wf(),
        ensures
            r@.len() == self@.empty_cells().len(),
            forall|j: int|
                0 <= j < r@.len() ==> (#[trigger] r@[j]).0 as int == self@.empty_cells()[j].0
                    && r@[j].1 as int == self@.empty_cells()[j].1,
    {
        let w = self.settings.tile_width as usize;
        let h = self.settings.tile_height as usize;
        let ghost grid = self@.grid;
        proof {
            self.lemma_rows();
        }
        let mut r: Vec<(usize, usize)> = Vec::new();
        let mut y: usize = 0;
        while y < h
            invariant
                self@.wf(),
                grid == self@.grid,
                w == self@.width(),
                h == self@.height(),
                y <= h,
                self.rows@.len() == h,
                forall|j: int| 0 <= j < h ==> #[trigger] self.rows@[j]@ == grid[j],
                r@.len() == grid_empties(grid, y as int).len(),
                forall|j: int|
                    0 <= j < r@.len() ==> (#[trigger] r@[j]).0 as int == grid_empties(
                        grid,
                        y as int,
                    )[j].0 && r@[j].1 as int == grid_empties(grid, y as int)[j].1,
            decreases h - y,
        {
            let mut x: usize = 0;
            assert(grid[y as int].len() == w);
            let ghost before = grid_empties(grid, y as int);
            while x < w
                invariant
                    self@.wf(),
                    grid == self@.grid,
                    w == self@.width(),
                    h == self@.height(),
                    y < h,
                    x <= w,
                    self.rows@.len() == h,
                    forall|j: int| 0 <= j < h ==> #[trigger] self.rows@[j]@ == grid[j],
                    before == grid_empties(grid, y as int),
                    r@.len() == before.len() + row_empties(grid[y as int], y as int, x as int).len(),
                    forall|j: int|
                        0 <= j < r@.len() ==> (#[trigger] r@[j]).0 as int == (before
                            + row_empties(grid[y as int], y as int, x as int))[j].0 && r@[j].1 as int
                            == (before + row_empties(grid[y as int], y as int, x as int))[j].1,
                decreases w - x,
            {
                let ghost old_r = r@;
                if self.rows[y][x].is_none() {
                    r.push((x, y));
                }
                assert(before + row_empties(grid[y as int], y as int, x + 1) =~= (before
                    + row_empties(grid[y as int], y as int, x as int)) + if grid[y as int][x as int] is None {
                    seq![(x as int, y as int)]
                } else {
                    seq![]
                });
                x += 1;
            }
            assert(grid_empties(grid, y + 1) =~= before + row_empties(
                grid[y as int],
                y as int,
                w as int,
            ));
            y += 1;
        }
        r
    }

    /// Puts `c` in the cell at (`x`, `y`).
    fn set_cell(&mut self, x: usize, y: usize, c: Option<Tile>)
        requires
            old(self)@.wf(),
            old(self)@.in_grid(x as int, y as int),
        ensures
            final(self)@ == (BoardView {
                grid: old(self)@.grid.update(y as int, old(self)@.grid[y as int].update(x as int, c)),
                ..old(self)@
            }),
    {
        proof {
            self.lemma_rows();
        }
        let mut row: Vec<Option<Tile>> = Vec::new();
        std::mem::swap(&mut row, &mut self.rows[y]);
        row.set(x, c);
        std::mem::swap(&mut row, &mut self.rows[y]);
        assert(self@.grid =~= old(self)@.grid.update(
            y as int,
            old(self)@.grid[y as int].update(x as int, c),
        ));
    }

    /// Puts a new tile where the draws say (see `BoardView::spawned`).
    /// Returns false, changing nothing, when the board is full.
    pub fn spawn_from_draws(&mut self, cell_draw: u32, value_draw: u32) -> (r: bool)
        requires
            old(self)@.wf(),
        ensures
            final(self)@ == old(self)@.spawned(cell_draw, value_draw),
            final(self)@.wf(),
            r == !old(self)@.is_full(),
            r ==> final(self)@.tile_count() == old(self)@.tile_count() + 1,
            !r ==> final(self)@ == old(self)@,
    {
        proof {
            lemma_empty_cells(self@);
        }
        let empties = self.empty_cells();
        if empties.len() == 0 {
            return false;
        }
        let j = (cell_draw as usize) % empties.len();
        let (x, y) = empties[j];
        let value: u64 = if value_draw % 10 == 0 {
            4
        } else {
            2
        };
        proof {
            assert(self@.empty_cells()[j as int] == (x as int, y as int));
            lemma_spawn_values(value_draw);
            lemma_new_tile(self@, x as int, y as int, value);
        }
        let t = Tile::new(&self.settings, value, x as i32, y as i32);
        self.set_cell(x, y, Some(t));
        true
    }

    /// Puts a new tile, a 2 nine times in ten and else a 4, in an empty cell
    /// drawn at random. Returns false, changing nothing, when the board is full.
    pub fn generate_tile(&mut self) -> (r: bool)
        requires
            old(self)@.wf(),
        ensures
            old(self)@.spawns_into(final(self)@),
            final(self)@.wf(),
            r == !old(self)@.is_full(),
            r ==> final(self)@.tile_count() == old(self)@.tile_count() + 1,
            !r ==> final(self)@ == old(self)@,
    {
        let cell_draw = random_u32();
        let value_draw = random_u32();
        let ghost before = self@;
        let r = self.spawn_from_draws(cell_draw, value_draw);
        proof {
            let e = before.empty_cells();
            if e.len() > 0 {
                let j = cell_draw as int % e.len() as int;
                let v = spawn_value(value_draw);
                assert(0 <= j < e.len() && (v == 2 || v == 4) && self@ == before.with_new_tile(
                    e[j].0,
                    e[j].1,
                    v,
                ));
            }
        }
        r
    }

    /// Advances every tile's animation by `dt` milliseconds; no tile moves
    /// to another cell and the score stays.
    pub fn update(&mut self, dt: u64)
        requires
            old(self)@.wf(),
        ensures
            final(self)@ == old(self)@.advanced(dt),
            final(self)@.wf(),
    {
        let w = self.settings.tile_width as usize;
        let h = self.settings.tile_height as usize;
        let ghost target = self@.advanced(dt).grid;
        proof {
            self.lemma_rows();
        }
        let mut rows: Vec<Vec<Option<Tile>>> = Vec::new();
        let mut y: usize = 0;
        while y < h
            invariant
                self@.wf(),
                target == self@.advanced(dt).grid,
                w == self@.width(),
                h == self@.height(),
                y <= h,
                self.rows@.len() == h,
                forall|j: int| 0 <= j < h ==> #[trigger] self.rows@[j]@ == self@.grid[j],
                rows@.len() == y,
                forall|j: int| 0 <= j < y ==> (#[trigger] rows@[j])@ == target[j],
            decreases h - y,
        {
            let mut row: Vec<Option<Tile>> = Vec::new();
            let mut x: usize = 0;
            assert(self@.grid[y as int].len() == w);
            while x < w
                invariant
                    self@.wf(),
                    target == self@.advanced(dt).grid,
                    w == self@.width(),
                    h == self@.height(),
                    y < h,
                    x <= w,
                    self.rows@.len() == h,
                    forall|j: int| 0 <= j < h ==> #[trigger] self.rows@[j]@ == self@.grid[j],
                    row@.len() == x,
                    forall|i: int| 0 <= i < x ==> #[trigger] row@[i] == target[y as int][i],
                decreases w - x,
            {
                let c = match &self.rows[y][x] {
                    Some(t) => {
                        let mut t2 = *t;
                        t2.update(&self.settings, dt);
                        Some(t2)
                    },
                    None => None,
                };
                row.push(c);
                x += 1;
            }
            assert(row@ =~= target[y as int]);
            rows.push(row);
            y += 1;
        }
        let ghost before = self@;
        self.rows = rows;
        assert(self@.grid =~= target);
        proof {
            lemma_advanced_wf(before, dt);
        }
    }

    /// A new game: an empty board on which two tiles appear at random.
    pub fn new(settings: &Settings) -> (b: Board)
        requires
            settings.wf(),
        ensures
            b@.wf(),
            b@.score == 0,
            b@.settings == *settings,
            exists|first: BoardView|
                BoardView::empty(*settings).spawns_into(first) && #[trigger] first.spawns_into(b@),
    {
        let mut board = Board::empty(settings);
        board.generate_tile();
        let ghost first = board@;
        board.generate_tile();
        assert(BoardView::empty(*settings).spawns_into(first) && first.spawns_into(board@));
        board
    }

    /// A move toward the wall `dir` with the draws that place the new tile:
    /// nothing happens while a tile animates or when no tile can slide or
    /// merge; otherwise the tiles slide and merge and a new tile appears.
    pub fn play(&mut self, dir: Direction, cell_draw: u32, value_draw: u32)
        requires
            old(self)@.wf(),
        ensures
            final(self)@ == old(self)@.after(Command::Move(dir, cell_draw, value_draw)),
            final(self)@.wf(),
            old(self)@.locked() ==> final(self)@ == old(self)@,
            !old(self)@.moves(dir) ==> final(self)@ == old(self)@,
            final(self)@.score >= old(self)@.score,
    {
        let moved = self.slide(dir);
        if moved {
            self.spawn_from_draws(cell_draw, value_draw);
        }
    }

    /// A move toward the wall `dir`, as the player makes it: `play` with
    /// random draws.
    pub fn merge_row(&mut self, dir: Direction)
        requires
            old(self)@.wf(),
        ensures
            exists|cell_draw: u32, value_draw: u32|
                final(self)@ == #[trigger] old(self)@.after(
                    Command::Move(dir, cell_draw, value_draw),
                ),
            final(self)@.wf(),
            old(self)@.locked() ==> final(self)@ == old(self)@,
            !old(self)@.moves(dir) ==> final(self)@ == old(self)@,
            final(self)@.score >= old(self)@.score,
    {
        let cell_draw = random_u32();
        let value_draw = random_u32();
        self.play(dir, cell_draw, value_draw);
    }

    /// The move toward the last column.
    pub fn merge_from_left_to_right(&mut self)
        requires
            old(self)@.wf(),
        ensures
            final(self)@.wf(),
            old(self)@.locked() ==> final(self)@ == old(self)@,
            !old(self)@.moves(Direction::Right) ==> final(self)@ == old(self)@,
            exists|cell_draw: u32, value_draw: u32|
                final(self)@ == #[trigger] old(self)@.after(
                    Command::Move(Direction::Right, cell_draw, value_draw),
                ),
            final(self)@.score >= old(self)@.score,
    {
        self.merge_row(Direction::Right)
    }

    /// The move toward column 0.
    pub fn merge_from_right_to_left(&mut self)
        requires
            old(self)@.wf(),
        ensures
            final(self)@.wf(),
            old(self)@.locked() ==> final(self)@ == old(self)@,
            !old(self)@.moves(Direction::Left) ==> final(self)@ == old(self)@,
            exists|cell_draw: u32, value_draw: u32|
                final(self)@ == #[trigger] old(self)@.after(
                    Command::Move(Direction::Left, cell_draw, value_draw),
                ),
            final(self)@.score >= old(self)@.score,
    {
        self.merge_row(Direction::Left)
    }

    /// The move toward the last row.
    pub fn merge_from_top_to_bottom(&mut self)
        requires
            old(self)@.wf(),
        ensures
            final(self)@.wf(),
            old(self)@.locked() ==> final(self)@ == old(self)@,
            !old(self)@.moves(Direction::Down) ==> final(self)@ == old(self)@,
            exists|cell_draw: u32, value_draw: u32|
                final(self)@ == #[trigger] old(self)@.after(
                    Command::Move(Direction::Down, cell_draw, value_draw),
                ),
            final(self)@.score >= old(self)@.score,
    {
        self.merge_row(Direction::Down)
    }

    /// The move toward row 0.
    pub fn merge_from_bottom_to_top(&mut self)
        requires
            old(self)@.wf(),
        ensures
            final(self)@.wf(),
            old(self)@.locked() ==> final(self)@ == old(self)@,
            !old(self)@.moves(Direction::Up) ==> final(self)@ == old(self)@,
            exists|cell_draw: u32, value_draw: u32|
                final(self)@ == #[trigger] old(self)@.after(
                    Command::Move(Direction::Up, cell_draw, value_draw),
                ),
            final(self)@.score >= old(self)@.score,
    {
        self.merge_row(Direction::Up)
    }

    pub fn score(&self) -> (r: u64)
        ensures
            r == self@.score,
    {
        self.score
    }

    pub fn settings(&self) -> (r: Settings)
        ensures
            r == self@.settings,
    {
        self.settings
    }

    /// The tile at (`x`, `y`), if any; none outside the grid.
    pub fn get_tile(&self, x: i32, y: i32) -> (r: Option<Tile>)
        requires
            self@.wf(),
        ensures
            r == if self@.in_grid(x as int, y as int) {
                self@.cell(x as int, y as int)
            } else {
                None
            },
    {
        if x < 0 || y < 0 || x >= self.settings.tile_width || y >= self.settings.tile_height {
            return None;
        }
        proof {
            self.lemma_rows();
        }
        self.rows[y as usize][x as usize]
    }

    /// Every tile, row by row, left to right.
    pub fn tiles(&self) -> (r: Vec<Tile>)
        requires
            self@.wf(),
        ensures
            r@ == self@.tiles(),
    {
        let w = self.settings.tile_width as usize;
        let h = self.settings.tile_height as usize;
        let ghost grid = self@.grid;
        proof {
            self.lemma_rows();
        }
        let mut r: Vec<Tile> = Vec::new();
        let mut y: usize = 0;
        while y < h
            invariant
                self@.wf(),
                grid == self@.grid,
                w == self@.width(),
                h == self@.height(),
                y <= h,
                self.rows@.len() == h,
                forall|j: int| 0 <= j < h ==> #[trigger] self.rows@[j]@ == grid[j],
                r@ == grid_tiles(grid, y as int),
            decreases h - y,
        {
            let mut x: usize = 0;
            assert(grid[y as int].len() == w);
            let ghost before = grid_tiles(grid, y as int);
            while x < w
                invariant
                    self@.wf(),
                    grid == self@.grid,
                    w == self@.width(),
                    h == self@.height(),
                    y < h,
                    x <= w,
                    self.rows@.len() == h,
                    forall|j: int| 0 <= j < h ==> #[trigger] self.rows@[j]@ == grid[j],
                    before == grid_tiles(grid, y as int),
                    r@ == before + row_tiles(grid[y as int], x as int),
                decreases w - x,
            {
                match &self.rows[y][x] {
                    Some(t) => r.push(*t),
                    None => {},
                }
                assert(before + row_tiles(grid[y as int], x + 1) =~= r@);
                x += 1;
            }
            y += 1;
        }
        r
    }

    /// Whether some move would slide or merge a tile; when none would on a
    /// board at rest, the game is over.
    pub fn has_any_legal_move(&self) -> (r: bool)
        requires
            self@.wf(),
        ensures
            r == (self@.moves(Direction::Left) || self@.moves(Direction::Right) || self@.moves(
                Direction::Up,
            ) || self@.moves(Direction::Down)),
    {
        let (_, _, left) = self.shifted_rows(Direction::Left);
        let (_, _, right) = self.shifted_rows(Direction::Right);
        let (_, _, up) = self.shifted_rows(Direction::Up);
        let (_, _, down) = self.shifted_rows(Direction::Down);
        left || right || up || down
    }
}

} // verus!
