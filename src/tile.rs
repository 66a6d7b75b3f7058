//! A single numbered tile: where it stands on the grid, its value, and where
//! it is in its animation.
use vstd::prelude::*;
use crate::settings::Settings;

verus! {

#[derive(Clone, Copy, Debug, PartialEq, Eq, Structural)]
pub enum TileState {
    /// Appearing: time left, and the size it is displayed at now.
    TileNew(u64, u64),
    /// At rest: it may move or merge.
    TileStatic,
    /// Sliding: time left, the column and row it left, and those it goes to.
    TileMoving(u64, i32, i32, i32, i32),
}

#[derive(Clone, Copy, Debug, PartialEq, Eq, Structural)]
pub struct Tile {
    /// Column; during a slide, already the column the tile goes to.
    pub tile_x: i32,
    /// Row; during a slide, already the row the tile goes to.
    pub tile_y: i32,
    /// The number on the tile.
    pub score: u64,
    pub status: TileState,
}

/// The displayed size of an appearing tile after `dt` of its `remaining`
/// time: it covers that share of the distance to `full`.
pub open spec fn grown_size(size: u64, full: u64, dt: u64, remaining: u64) -> u64 {
    if size < full && remaining > 0 {
        (size + (full - size) as int * dt as int / remaining as int) as u64
    } else {
        size
    }
}

impl Tile {
    /// The tile after `dt` more milliseconds of animation, where `full` is
    /// the size of a tile that has finished appearing.
    pub open spec fn advanced(self, full: u64, dt: u64) -> Tile {
        match self.status {
            TileState::TileNew(remaining, size) => if dt >= remaining {
                Tile { status: TileState::TileStatic, ..self }
            } else {
                Tile {
                    status: TileState::TileNew(
                        (remaining - dt) as u64,
                        grown_size(size, full, dt, remaining),
                    ),
                    ..self
                }
            },
            TileState::TileMoving(remaining, ox, oy, tx, ty) => if dt >= remaining {
                Tile { status: TileState::TileStatic, ..self }
            } else {
                Tile {
                    status: TileState::TileMoving((remaining - dt) as u64, ox, oy, tx, ty),
                    ..self
                }
            },
            TileState::TileStatic => self,
        }
    }

    /// A tile that starts to appear at (`tile_x`, `tile_y`).
    pub fn new(settings: &Settings, score: u64, tile_x: i32, tile_y: i32) -> (t: Tile)
        ensures
            t == (Tile {
                tile_x,
                tile_y,
                score,
                status: TileState::TileNew(settings.tile_new_time, 0),
            }),
    {
        Tile { tile_x, tile_y, score, status: TileState::TileNew(settings.tile_new_time, 0) }
    }

    pub fn is_static(&self) -> (r: bool)
        ensures
            r == (self.status == TileState::TileStatic),
    {
        match self.status {
            TileState::TileStatic => true,
            _ => false,
        }
    }

    /// Sends a tile at rest toward (`destination_x`, `destination_y`): its grid
    /// position becomes the destination at once, and it remembers where it
    /// came from. A tile that is not at rest is left as it is.
    pub fn start_moving(&mut self, settings: &Settings, destination_x: i32, destination_y: i32)
        ensures
            old(self).status == TileState::TileStatic ==> *final(self) == (Tile {
                tile_x: destination_x,
                tile_y: destination_y,
                score: old(self).score,
                status: TileState::TileMoving(
                    settings.tile_move_time,
                    old(self).tile_x,
                    old(self).tile_y,
                    destination_x,
                    destination_y,
                ),
            }),
            old(self).status != TileState::TileStatic ==> *final(self) == *old(self),
    {
        if self.is_static() {
            self.status =
            TileState::TileMoving(
                settings.tile_move_time,
                self.tile_x,
                self.tile_y,
                destination_x,
                destination_y,
            );
            self.tile_x = destination_x;
            self.tile_y = destination_y;
        }
    }

    /// Advances the tile's animation by `dt` milliseconds.
    pub fn update(&mut self, settings: &Settings, dt: u64)
        ensures
            *final(self) == old(self).advanced(settings.tile_size, dt),
    {
        match self.status {
            TileState::TileNew(remaining, size) => {
                if dt >= remaining {
                    self.status = TileState::TileStatic;
                } else {
                    let size2 = grow(size, settings.tile_size, dt, remaining);
                    self.status = TileState::TileNew(remaining - dt, size2);
                }
            },
            TileState::TileMoving(remaining, ox, oy, tx, ty) => {
                if dt >= remaining {
                    self.status = TileState::TileStatic;
                } else {
                    self.status = TileState::TileMoving(remaining - dt, ox, oy, tx, ty);
                }
            },
            TileState::TileStatic => {},
        }
    }
}

fn grow(size: u64, full: u64, dt: u64, remaining: u64) -> (r: u64)
    requires
        dt < remaining,
    ensures
        r == grown_size(size, full, dt, remaining),
{
    if size < full {
        let d: u64 = full - size;
        proof {
            lemma_share_below(d as int, dt as int, remaining as int);
        }
        let prod: u128 = (d as u128) * (dt as u128);
        let q: u128 = prod / (remaining as u128);
        size + (q as u64)
    } else {
        size
    }
}

proof fn lemma_share_below(d: int, dt: int, remaining: int)
    requires
        0 <= d,
        0 <= dt < remaining,
        d <= u64::MAX,
        remaining <= u64::MAX,
    ensures
        d * dt <= u128::MAX,
        d * dt / remaining <= d,
        0 <= d * dt,
        d * dt <= d * remaining,
{
    assert(0 <= d * dt) by (nonlinear_arith)
        requires
            0 <= d,
            0 <= dt,
    ;
    assert(d * dt <= d * remaining) by (nonlinear_arith)
        requires
            0 <= d,
            dt < remaining,
    ;
    assert(d * dt <= u64::MAX * u64::MAX) by (nonlinear_arith)
        requires
            0 <= d <= u64::MAX,
            0 <= dt <= u64::MAX,
    ;
    assert(d * dt / remaining <= d) by (nonlinear_arith)
        requires
            0 <= d * dt,
            d * dt <= d * remaining,
            0 < remaining,
    ;
}

} // verus!
