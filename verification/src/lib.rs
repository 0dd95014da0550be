//! rim_sim: the deterministic core of a colony simulation.
//!
//! Grid geometry, the world's random numbers, the tile map and its
//! reachability regions and rooms, A* path finding, stockpile zones,
//! climate terms in fixed point, and the framing of save files.
use vstd::prelude::*;

pub mod rng;
pub mod snapshot;
pub mod savefile;
pub mod terms;
pub mod text;
pub mod world;
pub mod defs;
pub mod map;
pub mod path;
pub mod zone;
pub mod field;
pub mod look;
pub mod modloader;
pub mod script;
pub mod rules;
pub mod savetext;
pub mod modtest;
pub mod command;
pub mod data;
pub mod calendar;
pub mod shelter;
pub mod order;
pub mod ai;
pub mod priority;
pub mod tools;
pub mod snapframe;
pub mod restore;
pub mod deftree;
pub mod finalize;

verus! {

/// Simulation ticks per in-game day. At 1x speed the sim runs 60 ticks/sec.
pub const TICKS_PER_DAY: u64 = 20_000;

/// Plugin API version. Mods declare `api = "MAJOR.MINOR"` in `mod.toml`.
pub const API_VERSION: (u32, u32) = (0, 6);

/// A cell of the grid, or an offset between two cells.
#[derive(Clone, Copy, PartialEq, Eq, Hash, Debug, Default, PartialOrd, Ord, Structural)]
pub struct IVec {
    pub x: i32,
    pub y: i32,
}

/// Absolute value of an integer.
pub open spec fn abs_int(v: int) -> int {
    if v < 0 { -v } else { v }
}

/// The larger of two integers.
pub open spec fn max_int(a: int, b: int) -> int {
    if a < b { b } else { a }
}

/// The smaller of two integers.
pub open spec fn min_int(a: int, b: int) -> int {
    if a < b { a } else { b }
}

/// King-move distance between two points.
pub open spec fn chebyshev_spec(a: IVec, b: IVec) -> int {
    max_int(abs_int(a.x - b.x), abs_int(a.y - b.y))
}

/// Octile distance in path-cost units: 14 per diagonal step, 10 per
/// straight one.
pub open spec fn octile_spec(a: IVec, b: IVec) -> int {
    let dx = abs_int(a.x - b.x);
    let dy = abs_int(a.y - b.y);
    14 * min_int(dx, dy) + 10 * (max_int(dx, dy) - min_int(dx, dy))
}

/// A coordinate fits in an `i32`.
pub open spec fn fits_i32(v: int) -> bool {
    i32::MIN <= v <= i32::MAX
}

impl IVec {
    pub fn new(x: i32, y: i32) -> (r: Self)
        ensures
            r.x == x,
            r.y == y,
    {
        IVec { x, y }
    }

    pub fn offset(self, dx: i32, dy: i32) -> (r: Self)
        requires
            fits_i32(self.x + dx),
            fits_i32(self.y + dy),
        ensures
            r.x == self.x + dx,
            r.y == self.y + dy,
    {
        IVec::new(self.x + dx, self.y + dy)
    }

    /// King-move distance: 1 means touching (including diagonals).
    pub fn chebyshev(self, o: IVec) -> (r: i32)
        requires
            fits_i32(self.x - o.x),
            fits_i32(self.y - o.y),
            abs_int(self.x - o.x) <= i32::MAX,
            abs_int(self.y - o.y) <= i32::MAX,
        ensures
            r == chebyshev_spec(self, o),
    {
        let dx = self.x - o.x;
        let dy = self.y - o.y;
        let ax = if dx < 0 { -dx } else { dx };
        let ay = if dy < 0 { -dy } else { dy };
        if ax < ay { ay } else { ax }
    }

    /// Octile distance in path-cost units (10 straight, 14 diagonal).
    pub fn octile(self, o: IVec) -> (r: u32)
        requires
            fits_i32(self.x - o.x),
            fits_i32(self.y - o.y),
            octile_spec(self, o) <= u32::MAX,
        ensures
            r == octile_spec(self, o),
    {
        let ddx: i64 = self.x as i64 - o.x as i64;
        let ddy: i64 = self.y as i64 - o.y as i64;
        let dx: u32 = if ddx < 0 { (-ddx) as u32 } else { ddx as u32 };
        let dy: u32 = if ddy < 0 { (-ddy) as u32 } else { ddy as u32 };
        let (lo, hi) = if dx < dy { (dx, dy) } else { (dy, dx) };
        14 * lo + 10 * (hi - lo)
    }
}

} // verus!
