//! What the game logic reads of the configuration: the grid's size and the
//! animation timings. Times are in milliseconds, sizes in pixels.
use vstd::prelude::*;

verus! {

#[derive(Clone, Copy, Debug, PartialEq, Eq, Structural)]
pub struct Settings {
    /// Number of columns.
    pub tile_width: i32,
    /// Number of rows.
    pub tile_height: i32,
    /// Displayed size of a tile that has finished appearing.
    pub tile_size: u64,
    /// How long a tile takes to slide to its new cell.
    pub tile_move_time: u64,
    /// How long a new tile takes to appear.
    pub tile_new_time: u64,
}

impl Settings {
    /// A grid has at least one row and one column.
    pub open spec fn wf(&self) -> bool {
        self.tile_width >= 1 && self.tile_height >= 1
    }

    /// The classic game: four by four, tiles of 72 pixels, 100 ms animations.
    pub fn default_settings() -> (s: Settings)
        ensures
            s == (Settings {
                tile_width: 4,
                tile_height: 4,
                tile_size: 72,
                tile_move_time: 100,
                tile_new_time: 100,
            }),
            s.wf(),
    {
        Settings {
            tile_width: 4,
            tile_height: 4,
            tile_size: 72,
            tile_move_time: 100,
            tile_new_time: 100,
        }
    }
}

} // verus!
