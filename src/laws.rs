//! What holds of every board: the laws of moves, new tiles and the score.
use vstd::prelude::*;
use crate::line::{
    Slide, slides_gain, lemma_slide_line, slide_fits, is_pow2, lemma_double_pow2,
    lemma_gain_without_merge, lemma_slides_gain_nonneg, lemma_packed_line_stays, can_merge,
};
use crate::model::{
    BoardView, Command, Direction, is_tile_value, spawn_value, row_empties, grid_empties, row_tiles,
    grid_tiles, reads_before,
};
use crate::tile::{Tile, TileState};

verus! {

/// A move keeps the board well formed: every tile it leaves stands in its own
/// cell and carries a power of two.
pub(crate) proof fn lemma_shifted_wf(b: BoardView, dir: Direction)
    requires
        b.wf(),
    ensures
        b.shifted(dir).wf(),
{
    let s = b.shifted(dir);
    assert forall|y: int| 0 <= y < s.height() implies #[trigger] s.grid[y].len() == s.width() by {}
    assert forall|x: int, y: int| s.in_grid(x, y) && (#[trigger] s.cell(x, y)) is Some implies {
        let t = s.cell(x, y).unwrap();
        &&& t.tile_x == x
        &&& t.tile_y == y
        &&& is_tile_value(t.score)
    } by {
        let l = b.line_pos(dir, x, y).0;
        let k = b.line_pos(dir, x, y).1;
        let line = b.line_values(dir, l);
        let sl = b.line_slides(dir, l);
        lemma_slide_line(line);
        assert(s.cell(x, y) == b.slid_tile(dir, l, k));
        assert(b.cell_of(dir, l, k) == (x, y));
        assert(slide_fits(sl[k], line));
        match sl[k] {
            Slide::Kept(src, v) => {
                let c = b.cell_of(dir, l, src as int);
                assert(line[src as int] == b.value_at(c.0, c.1));
                assert(b.in_grid(c.0, c.1));
                assert(b.cell(c.0, c.1) is Some);
            },
            Slide::Merged(a, _, v) => {
                let c = b.cell_of(dir, l, a as int);
                assert(line[a as int] == b.value_at(c.0, c.1));
                assert(b.in_grid(c.0, c.1));
                assert(b.cell(c.0, c.1) is Some);
                lemma_double_pow2(line[a as int].unwrap() as nat);
            },
        }
    }
}

/// On a board at rest, a move that changes no cell merges nothing, so it
/// scores nothing.
pub proof fn lemma_still_move_gains_nothing(b: BoardView, dir: Direction)
    requires
        b.wf(),
        !b.locked(),
        !b.moves(dir),
    ensures
        b.gain(dir) == 0,
{
    assert forall|l: int| 0 <= l < b.line_count(dir) implies slides_gain(
        #[trigger] b.line_slides(dir, l),
    ) == 0 by {
        let sl = b.line_slides(dir, l);
        lemma_slide_line(b.line_values(dir, l));
        assert forall|k: int| 0 <= k < sl.len() implies (#[trigger] sl[k]) is Kept by {
            let c = b.cell_of(dir, l, k);
            assert(b.in_grid(c.0, c.1));
            assert(b.line_pos(dir, c.0, c.1) == (l, k));
            assert(b.shifted_grid(dir)[c.1][c.0] == b.slid_tile(dir, l, k));
            assert(b.grid[c.1][c.0] == b.shifted_grid(dir)[c.1][c.0]);
            if sl[k] is Merged {
                assert(b.cell(c.0, c.1) is Some);
                assert(b.cell(c.0, c.1).unwrap().status != TileState::TileStatic);
            }
        }
        lemma_gain_without_merge(sl);
    }
    lemma_lines_gain_zero(b, dir, b.line_count(dir));
}

/// A full board on which no two neighbours hold one value takes no move: in
/// every direction the board stays exactly as it is, and the game is over.
pub proof fn lemma_stuck_board_takes_no_move(b: BoardView, dir: Direction)
    requires
        b.wf(),
        b.is_full(),
        b.no_equal_neighbours(),
    ensures
        !b.moves(dir),
        b.shifted(dir) == b,
{
    assert forall|l: int| 0 <= l < b.line_count(dir) implies #[trigger] b.line_slides(dir, l)
        == Seq::new(
        b.line_len(dir) as nat,
        |k: int| Slide::Kept(k as usize, b.line_values(dir, l)[k].unwrap()),
    ) by {
        let line = b.line_values(dir, l);
        assert forall|k: int| 0 <= k < line.len() implies (#[trigger] line[k]) is Some by {
            let c = b.cell_of(dir, l, k);
            assert(b.in_grid(c.0, c.1));
            assert(b.cell(c.0, c.1) is Some);
        }
        assert forall|k: int| 0 <= k < line.len() - 1 implies !can_merge(
            #[trigger] line[k].unwrap(),
            line[k + 1].unwrap(),
        ) by {
            let c = b.cell_of(dir, l, k);
            let d = b.cell_of(dir, l, k + 1);
            assert(b.in_grid(c.0, c.1) && b.in_grid(d.0, d.1));
            assert(b.cell(c.0, c.1) is Some && b.cell(d.0, d.1) is Some);
            match dir {
                Direction::Left => assert(b.value_at(c.0, c.1) != b.value_at(c.0 + 1, c.1)),
                Direction::Right => assert(b.value_at(d.0, d.1) != b.value_at(d.0 + 1, d.1)),
                Direction::Up => assert(b.value_at(c.0, c.1) != b.value_at(c.0, c.1 + 1)),
                Direction::Down => assert(b.value_at(d.0, d.1) != b.value_at(d.0, d.1 + 1)),
            }
        }
        lemma_packed_line_stays(line);
    }
    let g = b.shifted_grid(dir);
    assert forall|y: int| 0 <= y < b.height() implies #[trigger] g[y] =~= b.grid[y] by {
        assert(b.grid[y].len() == b.width());
        assert forall|x: int| 0 <= x < b.width() implies g[y][x] == b.grid[y][x] by {
            let l = b.line_pos(dir, x, y).0;
            let k = b.line_pos(dir, x, y).1;
            assert(b.cell_of(dir, l, k) == (x, y));
            assert(b.line_slides(dir, l)[k] == Slide::Kept(
                k as usize,
                b.line_values(dir, l)[k].unwrap(),
            ));
        }
    }
    assert(g =~= b.grid);
    assert forall|l: int| 0 <= l < b.line_count(dir) implies slides_gain(
        #[trigger] b.line_slides(dir, l),
    ) == 0 by {
        let sl = b.line_slides(dir, l);
        assert(sl == Seq::new(
            b.line_len(dir) as nat,
            |k: int| Slide::Kept(k as usize, b.line_values(dir, l)[k].unwrap()),
        ));
        assert forall|k: int| 0 <= k < sl.len() implies (#[trigger] sl[k]) is Kept by {}
        lemma_gain_without_merge(sl);
    }
    lemma_lines_gain_zero(b, dir, b.line_count(dir));
}

pub(crate) proof fn lemma_lines_gain_zero(b: BoardView, dir: Direction, n: int)
    requires
        n <= b.line_count(dir),
        forall|l: int|
            0 <= l < b.line_count(dir) ==> slides_gain(#[trigger] b.line_slides(dir, l)) == 0,
    ensures
        b.lines_gain(dir, n) == 0,
    decreases n,
{
    if n > 0 {
        lemma_lines_gain_zero(b, dir, n - 1);
    }
}

pub(crate) proof fn lemma_row_empties(row: Seq<Option<Tile>>, y: int, n: int)
    requires
        0 <= n <= row.len(),
    ensures
        forall|j: int|
            0 <= j < row_empties(row, y, n).len() ==> {
                let c = #[trigger] row_empties(row, y, n)[j];
                &&& 0 <= c.0 < n
                &&& c.1 == y
                &&& row[c.0] is None
            },
        forall|i: int| 0 <= i < n && row[i] is None ==> row_empties(row, y, n).contains((i, y)),
    decreases n,
{
    if n > 0 {
        lemma_row_empties(row, y, n - 1);
        let prev = row_empties(row, y, n - 1);
        let e = row_empties(row, y, n);
        assert forall|j: int| 0 <= j < e.len() implies {
            let c = #[trigger] e[j];
            &&& 0 <= c.0 < n
            &&& c.1 == y
            &&& row[c.0] is None
        } by {
            if j < prev.len() {
                assert(e[j] == prev[j]);
            }
        }
        assert forall|i: int| 0 <= i < n && row[i] is None implies e.contains((i, y)) by {
            if i < n - 1 {
                let j = choose|j: int| 0 <= j < prev.len() && prev[j] == (i, y);
                assert(e[j] == prev[j]);
            } else {
                assert(e[prev.len() as int] == (i, y));
            }
        }
    }
}

pub(crate) proof fn lemma_grid_empties(b: BoardView, m: int)
    requires
        b.wf(),
        0 <= m <= b.height(),
    ensures
        forall|j: int|
            0 <= j < grid_empties(b.grid, m).len() ==> {
                let c = #[trigger] grid_empties(b.grid, m)[j];
                &&& b.in_grid(c.0, c.1)
                &&& c.1 < m
                &&& b.cell(c.0, c.1) is None
            },
        forall|x: int, y: int|
            b.in_grid(x, y) && y < m && (#[trigger] b.cell(x, y)) is None ==> grid_empties(
                b.grid,
                m,
            ).contains((x, y)),
    decreases m,
{
    if m > 0 {
        lemma_grid_empties(b, m - 1);
        let prev = grid_empties(b.grid, m - 1);
        let r = row_empties(b.grid[m - 1], m - 1, b.width());
        lemma_row_empties(b.grid[m - 1], m - 1, b.width());
        let e = grid_empties(b.grid, m);
        assert(e == prev + r);
        assert forall|j: int| 0 <= j < e.len() implies {
            let c = #[trigger] e[j];
            &&& b.in_grid(c.0, c.1)
            &&& c.1 < m
            &&& b.cell(c.0, c.1) is None
        } by {
            if j < prev.len() {
                assert(e[j] == prev[j]);
            } else {
                assert(e[j] == r[j - prev.len()]);
            }
        }
        assert forall|x: int, y: int|
            b.in_grid(x, y) && y < m && (#[trigger] b.cell(x, y)) is None implies e.contains(
            (x, y),
        ) by {
            if y < m - 1 {
                let j = choose|j: int| 0 <= j < prev.len() && prev[j] == (x, y);
                assert(e[j] == prev[j]);
            } else {
                let j = choose|j: int| 0 <= j < r.len() && r[j] == (x, y);
                assert(e[j + prev.len()] == r[j]);
            }
        }
    }
}

/// The empty cells are exactly the cells without a tile; there are none
/// just when the board is full.
pub(crate) proof fn lemma_empty_cells(b: BoardView)
    requires
        b.wf(),
    ensures
        forall|j: int|
            0 <= j < b.empty_cells().len() ==> {
                let c = #[trigger] b.empty_cells()[j];
                &&& b.in_grid(c.0, c.1)
                &&& b.cell(c.0, c.1) is None
            },
        forall|x: int, y: int|
            b.in_grid(x, y) && (#[trigger] b.cell(x, y)) is None ==> b.empty_cells().contains(
                (x, y),
            ),
        b.empty_cells().len() == 0 <==> b.is_full(),
{
    lemma_grid_empties(b, b.height());
    if b.empty_cells().len() > 0 {
        let c = b.empty_cells()[0];
        assert(b.in_grid(c.0, c.1) && b.cell(c.0, c.1) is None);
    }
    if !b.is_full() {
        let (x, y) = choose|x: int, y: int| b.in_grid(x, y) && !(b.cell(x, y) is Some);
        assert(b.empty_cells().contains((x, y)));
    }
}

pub(crate) proof fn lemma_row_tiles_fill(row: Seq<Option<Tile>>, x: int, t: Tile, n: int)
    requires
        0 <= x < row.len(),
        row[x] is None,
        0 <= n <= row.len(),
    ensures
        row_tiles(row.update(x, Some(t)), n).len() == row_tiles(row, n).len() + if x < n {
            1int
        } else {
            0int
        },
    decreases n,
{
    if n > 0 {
        lemma_row_tiles_fill(row, x, t, n - 1);
    }
}

pub(crate) proof fn lemma_grid_tiles_fill(grid: Seq<Seq<Option<Tile>>>, x: int, y: int, t: Tile, m: int)
    requires
        0 <= y < grid.len(),
        0 <= x < grid[y].len(),
        grid[y][x] is None,
        0 <= m <= grid.len(),
    ensures
        grid_tiles(grid.update(y, grid[y].update(x, Some(t))), m).len() == grid_tiles(grid, m).len()
            + if y < m {
            1int
        } else {
            0int
        },
    decreases m,
{
    if m > 0 {
        lemma_grid_tiles_fill(grid, x, y, t, m - 1);
        if m - 1 == y {
            lemma_row_tiles_fill(grid[y], x, t, grid[y].len() as int);
        }
    }
}

/// A new tile in an empty cell leaves the board well formed, with one tile more.
pub(crate) proof fn lemma_new_tile(b: BoardView, x: int, y: int, v: u64)
    requires
        b.wf(),
        b.in_grid(x, y),
        b.cell(x, y) is None,
        is_tile_value(v),
    ensures
        b.with_new_tile(x, y, v).wf(),
        b.with_new_tile(x, y, v).tile_count() == b.tile_count() + 1,
        b.with_new_tile(x, y, v).score == b.score,
{
    let a = b.with_new_tile(x, y, v);
    assert forall|j: int| 0 <= j < a.height() implies #[trigger] a.grid[j].len() == a.width() by {
        assert(b.grid[j].len() == b.width());
    }
    assert forall|i: int, j: int| a.in_grid(i, j) && (#[trigger] a.cell(i, j)) is Some implies {
        let t = a.cell(i, j).unwrap();
        &&& t.tile_x == i
        &&& t.tile_y == j
        &&& is_tile_value(t.score)
    } by {
        if i != x || j != y {
            assert(a.cell(i, j) == b.cell(i, j));
        }
    }
    lemma_grid_tiles_fill(b.grid, x, y, b.new_tile(x, y, v), b.grid.len() as int);
}

/// A new tile is a 2 or a 4.
pub(crate) proof fn lemma_spawn_values(draw: u32)
    ensures
        is_tile_value(spawn_value(draw)),
{
    assert(is_pow2(1));
    assert(is_pow2(2));
    assert(is_pow2(4)) by {
        assert(is_pow2(2));
    }
}

pub(crate) proof fn lemma_row_tiles_sorted(b: BoardView, y: int, n: int)
    requires
        b.wf(),
        0 <= y < b.height(),
        0 <= n <= b.width(),
    ensures
        forall|j: int|
            0 <= j < row_tiles(b.grid[y], n).len() ==> {
                let t = #[trigger] row_tiles(b.grid[y], n)[j];
                &&& t.tile_y == y
                &&& 0 <= t.tile_x < n
            },
        forall|i: int, j: int|
            0 <= i < j < row_tiles(b.grid[y], n).len() ==> reads_before(
                #[trigger] row_tiles(b.grid[y], n)[i],
                #[trigger] row_tiles(b.grid[y], n)[j],
            ),
    decreases n,
{
    if n > 0 {
        lemma_row_tiles_sorted(b, y, n - 1);
        let prev = row_tiles(b.grid[y], n - 1);
        let r = row_tiles(b.grid[y], n);
        assert(b.grid[y].len() == b.width());
        if b.grid[y][n - 1] is Some {
            assert(b.cell(n - 1, y) is Some);
            assert(r == prev.push(b.grid[y][n - 1].unwrap()));
        } else {
            assert(r =~= prev);
        }
        assert forall|j: int| 0 <= j < r.len() implies {
            let t = #[trigger] r[j];
            &&& t.tile_y == y
            &&& 0 <= t.tile_x < n
        } by {
            if j < prev.len() {
                assert(r[j] == prev[j]);
            }
        }
        assert forall|i: int, j: int| 0 <= i < j < r.len() implies reads_before(
            #[trigger] r[i],
            #[trigger] r[j],
        ) by {
            assert(r[i] == prev[i]);
            if j < prev.len() {
                assert(r[j] == prev[j]);
            }
        }
    }
}

pub(crate) proof fn lemma_grid_tiles_sorted(b: BoardView, m: int)
    requires
        b.wf(),
        0 <= m <= b.height(),
    ensures
        forall|j: int|
            0 <= j < grid_tiles(b.grid, m).len() ==> {
                let t = #[trigger] grid_tiles(b.grid, m)[j];
                &&& 0 <= t.tile_y < m
            },
        forall|i: int, j: int|
            0 <= i < j < grid_tiles(b.grid, m).len() ==> reads_before(
                #[trigger] grid_tiles(b.grid, m)[i],
                #[trigger] grid_tiles(b.grid, m)[j],
            ),
    decreases m,
{
    if m > 0 {
        lemma_grid_tiles_sorted(b, m - 1);
        lemma_row_tiles_sorted(b, m - 1, b.width());
        assert(b.grid[m - 1].len() == b.width());
        let prev = grid_tiles(b.grid, m - 1);
        let r = row_tiles(b.grid[m - 1], b.width());
        let g = grid_tiles(b.grid, m);
        assert(g == prev + r);
        assert forall|j: int| 0 <= j < g.len() implies {
            let t = #[trigger] g[j];
            &&& 0 <= t.tile_y < m
        } by {
            if j < prev.len() {
                assert(g[j] == prev[j]);
            } else {
                assert(g[j] == r[j - prev.len()]);
            }
        }
        assert forall|i: int, j: int| 0 <= i < j < g.len() implies reads_before(
            #[trigger] g[i],
            #[trigger] g[j],
        ) by {
            if j < prev.len() {
                assert(g[i] == prev[i]);
                assert(g[j] == prev[j]);
            } else if i < prev.len() {
                assert(g[i] == prev[i]);
                assert(g[j] == r[j - prev.len()]);
            } else {
                assert(g[i] == r[i - prev.len()]);
                assert(g[j] == r[j - prev.len()]);
            }
        }
    }
}

/// No two tiles share a cell: on a well-formed board the tiles, read row by
/// row, stand at distinct positions.
pub proof fn lemma_tiles_in_distinct_cells(b: BoardView)
    requires
        b.wf(),
    ensures
        forall|i: int, j: int|
            0 <= i < j < b.tiles().len() ==> ((#[trigger] b.tiles()[i]).tile_x, b.tiles()[i].tile_y)
                != ((#[trigger] b.tiles()[j]).tile_x, b.tiles()[j].tile_y),
{
    lemma_grid_tiles_sorted(b, b.height());
    assert forall|i: int, j: int| 0 <= i < j < b.tiles().len() implies ((#[trigger] b.tiles()[i]).tile_x,
        b.tiles()[i].tile_y) != ((#[trigger] b.tiles()[j]).tile_x, b.tiles()[j].tile_y) by {
        assert(reads_before(b.tiles()[i], b.tiles()[j]));
    }
}

/// A new tile on a board that is not full adds exactly one tile, and the tiles
/// still stand in distinct cells.
pub proof fn lemma_spawn_adds_one_tile(b: BoardView, cell_draw: u32, value_draw: u32)
    requires
        b.wf(),
        !b.is_full(),
    ensures
        b.spawned(cell_draw, value_draw).wf(),
        b.spawned(cell_draw, value_draw).tile_count() == b.tile_count() + 1,
        forall|i: int, j: int|
            0 <= i < j < b.spawned(cell_draw, value_draw).tiles().len() ==> ((#[trigger] b.spawned(
                cell_draw,
                value_draw,
            ).tiles()[i]).tile_x, b.spawned(cell_draw, value_draw).tiles()[i].tile_y) != ((
            #[trigger] b.spawned(cell_draw, value_draw).tiles()[j]).tile_x, b.spawned(
                cell_draw,
                value_draw,
            ).tiles()[j].tile_y),
{
    lemma_empty_cells(b);
    let e = b.empty_cells();
    let c = e[cell_draw as int % e.len() as int];
    lemma_spawn_values(value_draw);
    lemma_new_tile(b, c.0, c.1, spawn_value(value_draw));
    lemma_tiles_in_distinct_cells(b.spawned(cell_draw, value_draw));
}

/// Animation keeps the board well formed.
pub(crate) proof fn lemma_advanced_wf(b: BoardView, dt: u64)
    requires
        b.wf(),
    ensures
        b.advanced(dt).wf(),
        b.advanced(dt).score == b.score,
{
    let a = b.advanced(dt);
    assert forall|j: int| 0 <= j < a.height() implies #[trigger] a.grid[j].len() == a.width() by {
        assert(b.grid[j].len() == b.width());
    }
    assert forall|i: int, j: int| a.in_grid(i, j) && (#[trigger] a.cell(i, j)) is Some implies {
        let t = a.cell(i, j).unwrap();
        &&& t.tile_x == i
        &&& t.tile_y == j
        &&& is_tile_value(t.score)
    } by {
        assert(b.grid[j].len() == b.width());
        assert(b.cell(i, j) is Some);
    }
}

/// The score never falls: after any sequence of moves and ticks it is at
/// least what it was, and the board stays well formed.
pub proof fn lemma_score_never_falls(b: BoardView, cs: Seq<Command>)
    requires
        b.wf(),
    ensures
        b.after_all(cs).wf(),
        b.after_all(cs).score >= b.score,
    decreases cs.len(),
{
    if cs.len() > 0 {
        lemma_score_never_falls(b, cs.drop_last());
        let p = b.after_all(cs.drop_last());
        match cs.last() {
            Command::Move(dir, cell_draw, value_draw) => {
                if !p.locked() && p.moves(dir) {
                    let s = p.shifted(dir);
                    lemma_shifted_wf(p, dir);
                    assert(p.gain(dir) >= 0) by {
                        lemma_gain_nonneg(p, dir, p.line_count(dir));
                    }
                    if !s.is_full() {
                        lemma_spawn_adds_one_tile(s, cell_draw, value_draw);
                        lemma_empty_cells(s);
                    } else {
                        lemma_empty_cells(s);
                    }
                }
            },
            Command::Tick(dt) => {
                lemma_advanced_wf(p, dt);
            },
        }
    }
}

pub(crate) proof fn lemma_gain_nonneg(b: BoardView, dir: Direction, n: int)
    ensures
        b.lines_gain(dir, n) >= 0,
    decreases n,
{
    if n > 0 {
        lemma_gain_nonneg(b, dir, n - 1);
        lemma_slides_gain_nonneg(b.line_slides(dir, n - 1));
    }
}

} // verus!
