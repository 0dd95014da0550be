//! The tile grid: terrain, one fixture layer (plants, rocks, buildings,
//! blueprints) and one item layer (stacks). Plus reachability regions.
use vstd::prelude::*;
use vstd::arithmetic::div_mod::*;
use crate::defs::DefId;
use crate::world::Faction;
use crate::IVec;
use crate::path::Goal;
use hecs::Entity;

verus! {

/// An entity of the world's ECS: a handle the library stores and hands
/// back, never looks into.
#[verifier::external_type_specification]
#[verifier::external_body]
pub struct ExEntity(hecs::Entity);

/// `hecs::Entity` derives `Clone` beside `Copy`: a clone is the same
/// handle.
pub assume_specification[ <hecs::Entity as Clone>::clone ](e: &hecs::Entity) -> (r: hecs::Entity)
    ensures
        r == *e,
;

/// Side of a chunk, in cells: the one unit caches and incremental updates
/// key on.
pub const CHUNK: i32 = 32;

/// Enclosed areas larger than this count as outdoors: a valley ringed by
/// mountains is not a house.
pub const MAX_ROOM_CELLS: u32 = 400;

/// A connected area bounded by walls, doors, rock, water or the map edge.
#[derive(Clone, Copy, Debug, PartialEq, Eq, Structural)]
pub struct Room {
    pub id: u32,
    pub cells: u32,
    pub touches_edge: bool,
}

impl Room {
    /// Shelter: cut off from the map edge, and small enough to be a building.
    pub fn enclosed(&self) -> (r: bool)
        ensures
            r == (!self.touches_edge && self.cells <= MAX_ROOM_CELLS),
    {
        !self.touches_edge && self.cells <= MAX_ROOM_CELLS
    }
}

/// The eight neighbours of a cell: the four straight ones first.
pub const NEIGHBORS8: [(i32, i32); 8] = [(1, 0), (-1, 0), (0, 1), (0, -1), (1, 1), (-1, 1), (1, -1), (-1, -1)];

/// The eight neighbour offsets, as a sequence.
pub open spec fn neighbors8_spec() -> Seq<(i32, i32)> {
    seq![(1i32, 0i32), (-1i32, 0i32), (0i32, 1i32), (0i32, -1i32), (1i32, 1i32), (-1i32, 1i32), (1i32, -1i32), (-1i32, -1i32)]
}

/// What the contracts see of a map.
pub struct MapView {
    pub w: int,
    pub h: int,
    pub terrain: Seq<DefId>,
    pub terrain_cost: Seq<u16>,
    pub fixture: Seq<Option<Entity>>,
    pub item: Seq<Option<Entity>>,
    pub floor: Seq<Option<Entity>>,
    pub floor_cost: Seq<u16>,
    pub fix_block: Seq<bool>,
    pub fix_cost: Seq<u16>,
    pub fix_door: Seq<bool>,
    pub fix_owner: Seq<u8>,
    pub room: Seq<u32>,
    pub rooms: Seq<Room>,
    pub regions: Seq<Seq<u32>>,
    pub regions_dirty: bool,
    pub rooms_dirty: bool,
    pub revision: u64,
    pub room_rebuilds: u64,
    pub changed: Seq<u32>,
    pub terrain_rev: Seq<u64>,
    pub things_rev: Seq<u64>,
    pub prev_room: Seq<u32>,
    pub room_boundary: Seq<Seq<u32>>,
}

impl MapView {
    pub open spec fn cells(self) -> int {
        self.w * self.h
    }

    pub open spec fn inb(self, p: IVec) -> bool {
        0 <= p.x < self.w && 0 <= p.y < self.h
    }

    pub open spec fn idx(self, p: IVec) -> int {
        p.y * self.w + p.x
    }

    pub open spec fn pos_x(self, i: int) -> int {
        i % self.w
    }

    pub open spec fn pos_y(self, i: int) -> int {
        i / self.w
    }

    /// Ground that can be walked on, whoever is walking.
    pub open spec fn passable_i(self, i: int) -> bool {
        self.terrain_cost[i] > 0 && !self.fix_block[i]
    }

    /// A door that `who` does not own.
    pub open spec fn locked_against(self, i: int, who: Faction) -> bool {
        self.fix_door[i] && self.fix_owner[i] != 0 && self.fix_owner[i] != who.index_spec() + 1
    }

    /// A cell `who` can walk into.
    pub open spec fn open_for(self, i: int, who: Faction) -> bool {
        self.passable_i(i) && !self.locked_against(i, who)
    }

    /// Open floor that belongs to a room: passable and not a doorway.
    pub open spec fn room_cell(self, i: int) -> bool {
        self.passable_i(i) && !self.fix_door[i]
    }

    /// Cells `i` and `j` share a side.
    pub open spec fn adjacent4(self, i: int, j: int) -> bool {
        &&& 0 <= i < self.cells()
        &&& 0 <= j < self.cells()
        &&& {
            let (xi, yi, xj, yj) = (self.pos_x(i), self.pos_y(i), self.pos_x(j), self.pos_y(j));
            ||| (xj == xi + 1 && yj == yi)
            ||| (xj == xi - 1 && yj == yi)
            ||| (xj == xi && yj == yi + 1)
            ||| (xj == xi && yj == yi - 1)
        }
    }

    /// `who`'s region labels: 0 on cells `who` can't walk into, and the
    /// same label on any two open cells that share a side.
    pub open spec fn regions_sound_for(self, f: int) -> bool {
        let who = Faction::at_spec(f);
        let r = self.regions[f];
        &&& r.len() == self.cells()
        &&& forall|i: int| 0 <= i < self.cells() ==> (#[trigger] r[i] == 0 <==> !self.open_for(i, who))
        &&& forall|i: int, j: int|
            #![trigger r[i], r[j]]
            self.adjacent4(i, j) && self.open_for(i, who) && self.open_for(j, who) ==> r[i] == r[j]
    }

    /// Region labels are sound for every faction.
    pub open spec fn regions_sound(self) -> bool {
        &&& self.regions.len() == 3
        &&& forall|f: int| 0 <= f < 3 ==> #[trigger] self.regions_sound_for(f)
    }

    /// A walk of side-sharing cells that `who` can step into.
    pub open spec fn is_walk(self, who: Faction, path: Seq<int>) -> bool {
        &&& path.len() >= 1
        &&& forall|k: int| 0 <= k < path.len() ==> 0 <= #[trigger] path[k] < self.cells() && self.open_for(path[k], who)
        &&& forall|k: int| 0 <= k < path.len() - 1 ==> self.adjacent4(#[trigger] path[k], path[k + 1])
    }
}

pub struct TileMap {
    pub w: i32,
    pub h: i32,
    pub terrain: Vec<DefId>,
    pub terrain_cost: Vec<u16>,
    pub fixture: Vec<Option<Entity>>,
    pub item: Vec<Option<Entity>>,
    /// Built ground, under both. A floor never blocks, bounds or stops a
    /// field; it only changes what a step costs.
    pub floor: Vec<Option<Entity>>,
    /// The floor's move cost, standing in for the terrain's; 0 = no floor.
    floor_cost: Vec<u16>,
    fix_block: Vec<bool>,
    fix_cost: Vec<u16>,
    fix_door: Vec<bool>,
    /// Who owns the fixture here, as the faction's index + 1; 0 is nobody.
    /// Only doors read it: a door opens for its owner and blocks everyone
    /// else, which is what makes a wall with a door in it still a wall.
    fix_owner: Vec<u8>,
    /// Room id per cell (0 = wall, door or impassable).
    room: Vec<u32>,
    /// Room ids from before the last rebuild, so state can carry over.
    prev_room: Vec<u32>,
    /// Cells whose walls or doors changed since the last `take_changed_cells`.
    changed: Vec<u32>,
    rooms: Vec<Room>,
    /// Boundary cells per room (walls, doors, rock, water), indexed by
    /// room id - 1. Collected during the room flood fill.
    room_boundary: Vec<Vec<u32>>,
    rooms_dirty: bool,
    /// How many times rooms have been rebuilt (they only are when walls change).
    pub room_rebuilds: u64,
    /// Connected-component id per cell (0 = impassable), one layer per
    /// faction, in faction order. They differ only where an owned door
    /// stands: what a raider can walk to is not what the owner can.
    regions: Vec<Vec<u32>>,
    regions_dirty: bool,
    /// Bumped whenever passability changes; renderers can use it to cache.
    pub revision: u64,
    /// Chunks across (see `CHUNK`).
    chunks_w: i32,
    /// Per chunk: bumped when a cell's terrain changes.
    terrain_rev: Vec<u64>,
    /// Per chunk: bumped when anything drawn in a cell changes.
    things_rev: Vec<u64>,
}

/// Chunks needed to cover `n` cells.
pub open spec fn chunks_across(n: int) -> int {
    (n + CHUNK - 1) / (CHUNK as int)
}

proof fn lemma_pos_idx(w: int, h: int, i: int)
    requires
        w >= 0,
        h >= 0,
        0 <= i < w * h,
    ensures
        w > 0,
        0 <= i % w < w,
        0 <= i / w < h,
        (i / w) * w + i % w == i,
{
    assert(w > 0) by (nonlinear_arith)
        requires
            w >= 0,
            h >= 0,
            0 <= i < w * h,
    ;
    lemma_fundamental_div_mod(i, w);
    assert(0 <= i % w < w) by {
        lemma_mod_pos_bound(i, w);
    }
    assert(0 <= i / w) by {
        lemma_div_pos_is_pos(i, w);
    }
    assert(i / w < h) by (nonlinear_arith)
        requires
            i == w * (i / w) + i % w,
            0 <= i % w,
            i < w * h,
            w > 0,
    ;
    assert((i / w) * w == w * (i / w)) by (nonlinear_arith);
}

/// A cell's point gives the cell back.
pub(crate) proof fn lemma_pos_idx_pub(w: int, h: int, i: int)
    requires
        w >= 0,
        h >= 0,
        0 <= i < w * h,
    ensures
        w > 0,
        0 <= i % w < w,
        0 <= i / w < h,
        (i / w) * w + i % w == i,
{
    lemma_pos_idx(w, h, i);
}

/// A point's index names the point again.
pub(crate) proof fn lemma_idx_pos_pub(w: int, h: int, x: int, y: int)
    requires
        0 <= x < w,
        0 <= y < h,
    ensures
        0 <= y * w + x < w * h,
        (y * w + x) % w == x,
        (y * w + x) / w == y,
{
    lemma_idx_pos(w, h, x, y);
}

proof fn lemma_idx_pos(w: int, h: int, x: int, y: int)
    requires
        0 <= x < w,
        0 <= y < h,
    ensures
        0 <= y * w + x < w * h,
        (y * w + x) % w == x,
        (y * w + x) / w == y,
{
    assert(0 <= y * w + x < w * h) by (nonlinear_arith)
        requires
            0 <= x < w,
            0 <= y < h,
    ;
    lemma_fundamental_div_mod_converse(y * w + x, w, y, x);
}

impl TileMap {
    /// The map as the contracts see it.
    pub closed spec fn view(&self) -> MapView {
        MapView {
            w: self.w as int,
            h: self.h as int,
            terrain: self.terrain@,
            terrain_cost: self.terrain_cost@,
            fixture: self.fixture@,
            item: self.item@,
            floor: self.floor@,
            floor_cost: self.floor_cost@,
            fix_block: self.fix_block@,
            fix_cost: self.fix_cost@,
            fix_door: self.fix_door@,
            fix_owner: self.fix_owner@,
            room: self.room@,
            rooms: self.rooms@,
            regions: self.regions@.map_values(|r: Vec<u32>| r@),
            regions_dirty: self.regions_dirty,
            rooms_dirty: self.rooms_dirty,
            revision: self.revision,
            room_rebuilds: self.room_rebuilds,
            changed: self.changed@,
            terrain_rev: self.terrain_rev@,
            things_rev: self.things_rev@,
            prev_room: self.prev_room@,
            room_boundary: bnd_views(self.room_boundary@),
        }
    }

    /// The per-cell layers all cover the grid, and derived state is in step.
    pub closed spec fn wf(&self) -> bool {
        let n = self.w * self.h;
        &&& self.w >= 0
        &&& self.h >= 0
        &&& self.w * self.h <= i32::MAX
        &&& self.w + CHUNK <= i32::MAX
        &&& self.h + CHUNK <= i32::MAX
        &&& self.terrain@.len() == n
        &&& self.terrain_cost@.len() == n
        &&& self.fixture@.len() == n
        &&& self.item@.len() == n
        &&& self.floor@.len() == n
        &&& self.floor_cost@.len() == n
        &&& self.fix_block@.len() == n
        &&& self.fix_cost@.len() == n
        &&& self.fix_door@.len() == n
        &&& self.fix_owner@.len() == n
        &&& self.room@.len() == n
        &&& self.prev_room@.len() == n
        &&& self.regions@.len() == 3
        &&& forall|f: int| 0 <= f < 3 ==> (#[trigger] self.regions@[f])@.len() == n
        &&& self.chunks_w == chunks_across(self.w as int)
        &&& chunks_across(self.w as int) * chunks_across(self.h as int) <= i32::MAX
        &&& self.terrain_rev@.len() == chunks_across(self.w as int) * chunks_across(self.h as int)
        &&& self.things_rev@.len() == chunks_across(self.w as int) * chunks_across(self.h as int)
        &&& forall|i: int| 0 <= i < n ==> #[trigger] self.fix_owner@[i] <= 3
        &&& self.room_boundary@.len() == self.rooms@.len()
        &&& forall|i: int| 0 <= i < n ==> #[trigger] self.room@[i] <= self.rooms@.len()
        &&& forall|k: int| 0 <= k < self.rooms@.len() ==> (#[trigger] self.rooms@[k]).id == k + 1
        &&& !self.regions_dirty ==> self.view().regions_sound()
        &&& !self.rooms_dirty ==> self.view().rooms_sound()
    }

    /// The cost layers cover the grid.
    pub proof fn lemma_wf_lengths(&self)
        requires
            self.wf(),
        ensures
            self.view().floor_cost.len() == self.view().cells(),
            self.view().terrain_cost.len() == self.view().cells(),
            self.view().fix_cost.len() == self.view().cells(),
    {
    }

    /// The grid's size is sane and its cells can be counted in an `i32`.
    pub proof fn lemma_cells_bound(&self)
        requires
            self.wf(),
        ensures
            self.view().w >= 0,
            self.view().h >= 0,
            0 <= self.view().cells() <= i32::MAX,
    {
        assert(0 <= self.w * self.h) by (nonlinear_arith)
            requires
                self.w >= 0,
                self.h >= 0,
        ;
    }

    /// Width and height.
    pub fn dims(&self) -> (r: (i32, i32))
        ensures
            r.0 == self.view().w,
            r.1 == self.view().h,
    {
        (self.w, self.h)
    }

    /// How many cells the grid has.
    pub(crate) fn cell_count(&self) -> (r: usize)
        requires
            self.wf(),
        ensures
            r == self.view().cells(),
            r <= i32::MAX,
    {
        proof {
            self.lemma_cells_bound();
        }
        (self.w * self.h) as usize
    }

    #[inline]
    pub fn inb(&self, p: IVec) -> (r: bool)
        ensures
            r == self.view().inb(p),
    {
        p.x >= 0 && p.y >= 0 && p.x < self.w && p.y < self.h
    }

    #[inline]
    pub fn idx(&self, p: IVec) -> (r: usize)
        requires
            self.wf(),
            self.view().inb(p),
        ensures
            r == self.view().idx(p),
            r < self.view().cells(),
    {
        proof {
            lemma_idx_pos(self.w as int, self.h as int, p.x as int, p.y as int);
        }
        (p.y * self.w + p.x) as usize
    }

    #[inline]
    pub fn pos(&self, i: usize) -> (r: IVec)
        requires
            self.wf(),
            i < self.view().cells(),
        ensures
            r.x == self.view().pos_x(i as int),
            r.y == self.view().pos_y(i as int),
            self.view().inb(r),
            self.view().idx(r) == i,
    {
        proof {
            lemma_pos_idx(self.w as int, self.h as int, i as int);
        }
        IVec::new(i as i32 % self.w, i as i32 / self.w)
    }

    #[inline]
    pub fn passable_i(&self, i: usize) -> (r: bool)
        requires
            self.wf(),
            i < self.view().cells(),
        ensures
            r == self.view().passable_i(i as int),
    {
        self.terrain_cost[i] > 0 && !self.fix_block[i]
    }

    #[inline]
    pub fn passable(&self, p: IVec) -> (r: bool)
        requires
            self.wf(),
        ensures
            r == (self.view().inb(p) && self.view().passable_i(self.view().idx(p))),
    {
        self.inb(p) && self.passable_i(self.idx(p))
    }

    /// Movement cost in percent (100 = open ground): the floor's, or else
    /// the terrain's, plus the fixture's.
    #[inline]
    pub fn cost(&self, p: IVec) -> (r: u32)
        requires
            self.wf(),
            self.view().inb(p),
        ensures
            r == (if self.view().floor_cost[self.view().idx(p)] > 0 {
                self.view().floor_cost[self.view().idx(p)]
            } else {
                self.view().terrain_cost[self.view().idx(p)]
            }) + self.view().fix_cost[self.view().idx(p)],
    {
        let i = self.idx(p);
        let ground = if self.floor_cost[i] > 0 { self.floor_cost[i] } else { self.terrain_cost[i] };
        ground as u32 + self.fix_cost[i] as u32
    }

    /// A door that `who` does not own. Passable to its owner, a wall to
    /// everyone else, and the only thing the region layers disagree about.
    #[inline]
    pub fn locked_against(&self, i: usize, who: Faction) -> (r: bool)
        requires
            self.wf(),
            i < self.view().cells(),
        ensures
            r == self.view().locked_against(i as int, who),
    {
        self.fix_door[i] && self.fix_owner[i] != 0 && self.fix_owner[i] as usize != who.index() + 1
    }

    /// Can `who` walk into `p` without breaking something?
    #[inline]
    pub fn passable_for(&self, p: IVec, who: Faction) -> (r: bool)
        requires
            self.wf(),
        ensures
            r == (self.view().inb(p) && self.view().open_for(self.view().idx(p), who)),
    {
        self.inb(p) && self.passable_i(self.idx(p)) && !self.locked_against(self.idx(p), who)
    }

    /// Heat, light and the like stop at walls, doors and impassable ground.
    pub fn blocks_fields(&self, i: usize) -> (r: bool)
        requires
            self.wf(),
            i < self.view().cells(),
        ensures
            r == (!self.view().passable_i(i as int) || self.view().fix_door[i as int]),
    {
        !self.passable_i(i) || self.fix_door[i]
    }

    /// Open floor that belongs to a room: passable and not a doorway.
    fn room_cell(&self, i: usize) -> (r: bool)
        requires
            self.wf(),
            i < self.view().cells(),
        ensures
            r == self.view().room_cell(i as int),
    {
        self.passable_i(i) && !self.fix_door[i]
    }
}

/// `n` copies of `v`.
pub(crate) fn filled<T: Copy>(v: T, n: usize) -> (r: Vec<T>)
    ensures
        r@.len() == n,
        forall|i: int| 0 <= i < n ==> r@[i] == v,
{
    let mut r: Vec<T> = Vec::with_capacity(n);
    let mut k: usize = 0;
    while k < n
        invariant
            k <= n,
            r@.len() == k,
            forall|i: int| 0 <= i < k ==> r@[i] == v,
        decreases n - k,
    {
        r.push(v);
        k += 1;
    }
    r
}

impl TileMap {
    /// A `w` by `h` map of open ground (terrain 0 at cost 100), with nothing
    /// on it, and rooms and regions still to be worked out.
    pub fn new(w: i32, h: i32) -> (m: Self)
        requires
            w >= 0,
            h >= 0,
            w * h <= i32::MAX,
            w + CHUNK <= i32::MAX,
            h + CHUNK <= i32::MAX,
            chunks_across(w as int) * chunks_across(h as int) <= i32::MAX,
        ensures
            m.wf(),
            m.view().w == w,
            m.view().h == h,
            m.view().regions_dirty,
            m.view().rooms_dirty,
            forall|i: int| 0 <= i < w * h ==> {
                &&& #[trigger] m.view().terrain[i] == 0
                &&& m.view().terrain_cost[i] == 100
                &&& m.view().fixture[i] is None
                &&& m.view().item[i] is None
                &&& m.view().floor[i] is None
                &&& m.view().floor_cost[i] == 0
                &&& !m.view().fix_block[i]
                &&& m.view().fix_cost[i] == 0
                &&& !m.view().fix_door[i]
                &&& m.view().fix_owner[i] == 0
                &&& m.view().room[i] == 0
            },
            m.view().rooms.len() == 0,
            m.view().room_rebuilds == 0,
            m.view().revision == 0,
    {
        let n = (w * h) as usize;
        let cw = (w + CHUNK - 1) / CHUNK;
        let ch = (h + CHUNK - 1) / CHUNK;
        assert(cw as int == chunks_across(w as int) && ch as int == chunks_across(h as int));
        let chunks = Self::chunk_count(w, h);
        let m = TileMap {
            w,
            h,
            terrain: filled(0u16, n),
            terrain_cost: filled(100u16, n),
            fixture: filled(None, n),
            item: filled(None, n),
            floor: filled(None, n),
            floor_cost: filled(0u16, n),
            fix_block: filled(false, n),
            fix_cost: filled(0u16, n),
            fix_door: filled(false, n),
            fix_owner: filled(0u8, n),
            room: filled(0u32, n),
            prev_room: filled(0u32, n),
            changed: Vec::new(),
            rooms: Vec::new(),
            room_boundary: Vec::new(),
            rooms_dirty: true,
            room_rebuilds: 0,
            regions: vec![filled(0u32, n), filled(0u32, n), filled(0u32, n)],
            regions_dirty: true,
            revision: 0,
            chunks_w: cw,
            terrain_rev: filled(0u64, chunks),
            things_rev: filled(0u64, chunks),
        };
        assert(m.regions@.len() == 3);
        m
    }

    fn chunk_count(w: i32, h: i32) -> (r: usize)
        requires
            w >= 0,
            h >= 0,
            w + CHUNK <= i32::MAX,
            h + CHUNK <= i32::MAX,
            chunks_across(w as int) * chunks_across(h as int) <= i32::MAX,
        ensures
            r == chunks_across(w as int) * chunks_across(h as int),
    {
        let cw = (w + CHUNK - 1) / CHUNK;
        let ch = (h + CHUNK - 1) / CHUNK;
        (cw * ch) as usize
    }

    /// Chunks across and down.
    pub fn chunks(&self) -> (r: (i32, i32))
        requires
            self.wf(),
        ensures
            r.0 == chunks_across(self.view().w),
            r.1 == chunks_across(self.view().h),
    {
        (self.chunks_w, (self.h + CHUNK - 1) / CHUNK)
    }

    /// The chunk a cell is in, counted row by row.
    pub fn chunk_of(&self, p: IVec) -> (r: usize)
        requires
            self.wf(),
            self.view().inb(p),
        ensures
            r == (p.y as int / CHUNK as int) * chunks_across(self.view().w) + p.x as int / CHUNK as int,
            r < chunks_across(self.view().w) * chunks_across(self.view().h),
    {
        let cx = p.x / CHUNK;
        let cy = p.y / CHUNK;
        proof {
            let a = chunks_across(self.w as int);
            let b = chunks_across(self.h as int);
            assert(0 <= cx < a && 0 <= cy < b);
            assert(cy * a + cx < a * b) by (nonlinear_arith)
                requires
                    0 <= cx < a,
                    0 <= cy < b,
            ;
        }
        ((cy * self.chunks_w) + cx) as usize
    }
}

/// The four straight neighbour offsets, in the order the fills visit them.
pub open spec fn dir4_spec(k: int) -> (int, int) {
    if k == 0 {
        (1, 0)
    } else if k == 1 {
        (-1, 0)
    } else if k == 2 {
        (0, 1)
    } else {
        (0, -1)
    }
}

fn dir4(k: usize) -> (r: (i32, i32))
    requires
        k < 4,
    ensures
        r.0 == dir4_spec(k as int).0,
        r.1 == dir4_spec(k as int).1,
        r.0 == neighbors8_spec()[k as int].0,
        r.1 == neighbors8_spec()[k as int].1,
{
    if k == 0 {
        (1, 0)
    } else if k == 1 {
        (-1, 0)
    } else if k == 2 {
        (0, 1)
    } else {
        (0, -1)
    }
}

impl MapView {
    /// The index of straight neighbour `k` of cell `i`, or -1 off the map.
    pub open spec fn nb(self, i: int, k: int) -> int {
        let x = self.pos_x(i) + dir4_spec(k).0;
        let y = self.pos_y(i) + dir4_spec(k).1;
        if 0 <= x < self.w && 0 <= y < self.h {
            y * self.w + x
        } else {
            -1
        }
    }

    /// Every labelled cell is open to `who`.
    pub open spec fn labels_open(self, who: Faction, r: Seq<u32>) -> bool {
        forall|i: int| 0 <= i < self.cells() ==> #[trigger] r[i] != 0 ==> self.open_for(i, who)
    }

    /// Every open cell next to `i` carries `i`'s label.
    pub open spec fn closed_at(self, who: Faction, r: Seq<u32>, i: int) -> bool {
        forall|j: int| #[trigger] self.adjacent4(i, j) && self.open_for(j, who) ==> r[j] == r[i]
    }
}

proof fn lemma_nb_adjacent(m: MapView, i: int, j: int)
    requires
        m.w >= 0,
        m.h >= 0,
        0 <= i < m.cells(),
    ensures
        forall|k: int| 0 <= k < 4 && m.nb(i, k) >= 0 ==> #[trigger] m.adjacent4(i, m.nb(i, k)),
        m.adjacent4(i, j) ==> exists|k: int| 0 <= k < 4 && #[trigger] m.nb(i, k) == j,
{
    lemma_pos_idx(m.w, m.h, i);
    assert forall|k: int| 0 <= k < 4 && m.nb(i, k) >= 0 implies #[trigger] m.adjacent4(i, m.nb(i, k)) by {
        let x = m.pos_x(i) + dir4_spec(k).0;
        let y = m.pos_y(i) + dir4_spec(k).1;
        lemma_idx_pos(m.w, m.h, x, y);
    }
    if m.adjacent4(i, j) {
        lemma_pos_idx(m.w, m.h, j);
        let (xi, yi, xj, yj) = (m.pos_x(i), m.pos_y(i), m.pos_x(j), m.pos_y(j));
        let k = if xj == xi + 1 && yj == yi {
            0int
        } else if xj == xi - 1 && yj == yi {
            1int
        } else if xj == xi && yj == yi + 1 {
            2int
        } else {
            3int
        };
        assert(m.nb(i, k) == j);
    }
}

impl TileMap {
    /// Labels the cells `who` can walk into with connected-component ids.
    fn flood_regions(&self, who: Faction) -> (region: Vec<u32>)
        requires
            self.wf(),
        ensures
            region@.len() == self.view().cells(),
            forall|i: int| 0 <= i < self.view().cells() ==> (#[trigger] region@[i] == 0 <==> !self.view().open_for(i, who)),
            forall|i: int, j: int|
                #![trigger region@[i], region@[j]]
                self.view().adjacent4(i, j) && self.view().open_for(i, who) && self.view().open_for(j, who) ==> region@[i] == region@[j],
    {
        let ghost m = self.view();
        let n = (self.w * self.h) as usize;
        let mut region = filled(0u32, n);
        let mut stack: Vec<usize> = Vec::new();
        let mut next: u32 = 1;
        let mut start: usize = 0;
        while start < n
            invariant
                self.wf(),
                m == self.view(),
                n == m.cells(),
                start <= n,
                region@.len() == n,
                1 <= next <= start + 1,
                stack@.len() == 0,
                m.labels_open(who, region@),
                forall|i: int| 0 <= i < start && m.open_for(i, who) ==> #[trigger] region@[i] != 0,
                forall|i: int| 0 <= i < n && #[trigger] region@[i] != 0 ==> m.closed_at(who, region@, i),
            decreases n - start,
        {
            if region[start] != 0 || !(self.passable_i(start) && !self.locked_against(start, who)) {
                start += 1;
                continue;
            }
            proof {
                assert forall|x: int| 0 <= x < n && #[trigger] region@[x] != 0 implies !m.adjacent4(x, start as int) by {
                    if m.adjacent4(x, start as int) {
                        assert(m.closed_at(who, region@, x));
                    }
                }
            }
            let ghost r_pre = region@;
            region.set(start, next);
            stack.push(start);
            proof {
                assert forall|x: int|
                    0 <= x < n && #[trigger] region@[x] != 0 && !stack@.contains(x as usize) implies m.closed_at(who, region@, x) by {
                    if x != start {
                        assert(r_pre[x] != 0);
                        assert(m.closed_at(who, r_pre, x));
                        assert forall|j: int| #[trigger] m.adjacent4(x, j) && m.open_for(j, who) implies region@[j] == region@[x] by {
                            if j == start {
                                assert(m.adjacent4(start as int, x)) by {
                                    lemma_pos_idx(m.w, m.h, x);
                                    lemma_pos_idx(m.w, m.h, j);
                                }
                            }
                        }
                    } else {
                        assert(stack@[0] == start);
                    }
                }
            }
            while stack.len() > 0
                invariant
                    self.wf(),
                    m == self.view(),
                    n == m.cells(),
                    start < n,
                    region@.len() == n,
                    1 <= next <= start + 1,
                    region@[start as int] == next,
                    m.labels_open(who, region@),
                    forall|i: int| 0 <= i < start && m.open_for(i, who) ==> #[trigger] region@[i] != 0,
                    forall|k: int| 0 <= k < stack@.len() ==> #[trigger] stack@[k] < n && region@[stack@[k] as int] == next,
                    forall|i: int|
                        0 <= i < n && #[trigger] region@[i] != 0 && !stack@.contains(i as usize) ==> m.closed_at(who, region@, i),
                decreases n - count_labelled(region@, n as int), stack@.len(),
            {
                let ghost s0 = stack@;
                let ghost before = region@;
                let i = stack.pop().unwrap();
                let ghost s1 = stack@;
                assert(s0 == s1.push(i));
                let p = self.pos(i);
                proof {
                    lemma_nb_adjacent(m, i as int, 0);
                    lemma_count_labelled_bound(before, n as int);
                }
                let mut k: usize = 0;
                while k < 4
                    invariant
                        self.wf(),
                        m == self.view(),
                        n == m.cells(),
                        i < n,
                        1 <= next,
                        p.x == m.pos_x(i as int) && p.y == m.pos_y(i as int),
                        m.inb(p),
                        k <= 4,
                        region@.len() == n,
                        before.len() == n,
                        region@[i as int] == next,
                        m.labels_open(who, region@),
                        forall|x: int| 0 <= x < n && before[x] != 0 ==> #[trigger] region@[x] == before[x],
                        forall|x: int|
                            0 <= x < n && #[trigger] region@[x] != before[x] ==> before[x] == 0 && region@[x] == next
                                && stack@.contains(x as usize),
                        forall|x: usize| s1.contains(x) ==> #[trigger] stack@.contains(x),
                        forall|kk: int|
                            0 <= kk < k && m.nb(i as int, kk) >= 0 && m.open_for(m.nb(i as int, kk), who) ==> #[trigger] region@[m.nb(
                                i as int,
                                kk,
                            )] == next,
                        forall|q: int| 0 <= q < stack@.len() ==> #[trigger] stack@[q] < n && region@[stack@[q] as int] == next,
                        count_labelled(region@, n as int) >= count_labelled(before, n as int),
                        stack@.len() <= s1.len() + count_labelled(region@, n as int) - count_labelled(before, n as int),
                        s0 == s1.push(i),
                        before[i as int] == next,
                        forall|kk: int| 0 <= kk < 4 && m.nb(i as int, kk) >= 0 ==> #[trigger] m.adjacent4(i as int, m.nb(i as int, kk)),
                        forall|q: int| 0 <= q < s1.len() ==> #[trigger] s1[q] < n && before[s1[q] as int] == next,
                        forall|x: int|
                            0 <= x < n && #[trigger] before[x] != 0 && !s0.contains(x as usize) ==> m.closed_at(who, before, x),
                    decreases 4 - k,
                {
                    let (dx, dy) = dir4(k);
                    let q = IVec::new(p.x + dx, p.y + dy);
                    assert(!m.inb(q) ==> m.nb(i as int, k as int) == -1);
                    if self.inb(q) {
                        let j = self.idx(q);
                        assert(j == m.nb(i as int, k as int));
                        proof {
                            if region@[j as int] != 0 && m.open_for(j as int, who) {
                                if before[j as int] == 0 {
                                    assert(region@[j as int] == next);
                                } else if j == i {
                                } else if s0.contains(j as usize) {
                                    let q = choose|q: int| 0 <= q < s0.len() && s0[q] == j as usize;
                                    if q < s1.len() {
                                        assert(s1[q] == j);
                                    }
                                } else {
                                    assert(m.adjacent4(i as int, j as int));
                                    assert(m.adjacent4(j as int, i as int)) by {
                                        lemma_pos_idx(m.w, m.h, i as int);
                                        lemma_pos_idx(m.w, m.h, j as int);
                                    }
                                    assert(m.closed_at(who, before, j as int));
                                    assert(before[i as int] == before[j as int]);
                                }
                            }
                        }
                        if region[j] == 0 && self.passable_i(j) && !self.locked_against(j, who) {
                            proof {
                                lemma_count_labelled_grows(region@, n as int, j as int, next);
                            }
                            let ghost st = stack@;
                            let ghost rb = region@;
                            assert(forall|kk: int| 0 <= kk < k && m.nb(i as int, kk) >= 0 && m.open_for(m.nb(i as int, kk), who) ==> #[trigger] rb[m.nb(
                                i as int,
                                kk,
                            )] == next);
                            region.set(j, next);
                            assert(region@[m.nb(i as int, k as int)] == next);
                            assert forall|kk: int| 0 <= kk < k && m.nb(i as int, kk) >= 0 && m.open_for(m.nb(i as int, kk), who) implies #[trigger] region@[m.nb(
                                i as int,
                                kk,
                            )] == next by {
                                let t = m.nb(i as int, kk);
                                assert(rb[t] == next);
                                assert(region@ == rb.update(j as int, next));
                                if t == j as int {
                                } else {
                                    assert(m.adjacent4(i as int, t));
                                    assert(region@[t] == rb[t]);
                                }
                            }
                            stack.push(j);
                            proof {
                                assert(stack@[stack@.len() - 1] == j);
                                assert forall|x: usize| st.contains(x) implies #[trigger] stack@.contains(x) by {
                                    let q = choose|q: int| 0 <= q < st.len() && st[q] == x;
                                    assert(stack@[q] == x);
                                }
                            }
                        }
                    }
                    k += 1;
                }
                proof {
                    lemma_count_labelled_bound(region@, n as int);
                    assert(m.closed_at(who, region@, i as int)) by {
                        assert forall|j: int| #[trigger] m.adjacent4(i as int, j) && m.open_for(j, who) implies region@[j]
                            == region@[i as int] by {
                            lemma_nb_adjacent(m, i as int, j);
                            let kk = choose|kk: int| 0 <= kk < 4 && #[trigger] m.nb(i as int, kk) == j;
                            assert(region@[m.nb(i as int, kk)] == next);
                        }
                    }
                    assert forall|x: int|
                        0 <= x < n && #[trigger] region@[x] != 0 && !stack@.contains(x as usize) implies m.closed_at(
                        who,
                        region@,
                        x,
                    ) by {
                        if x != i {
                            assert(before[x] != 0);
                            assert(!s1.contains(x as usize));
                            assert(!s0.contains(x as usize)) by {
                                if s0.contains(x as usize) {
                                    let q = choose|q: int| 0 <= q < s0.len() && s0[q] == x as usize;
                                    if q < s1.len() {
                                        assert(s1[q] == x as usize);
                                    }
                                }
                            }
                            assert(m.closed_at(who, before, x));
                            assert forall|j: int| #[trigger] m.adjacent4(x, j) && m.open_for(j, who) implies region@[j]
                                == region@[x] by {
                                assert(before[j] == before[x]);
                            }
                        }
                    }
                }
            }
            proof {
                assert forall|i: int| 0 <= i < start + 1 && m.open_for(i, who) implies #[trigger] region@[i] != 0 by {}
                assert forall|i: int| 0 <= i < n && #[trigger] region@[i] != 0 implies m.closed_at(who, region@, i) by {
                    assert(!stack@.contains(i as usize));
                }
            }
            next = next + 1;
            start += 1;
        }
        region
    }
}

impl TileMap {
    /// Recomputes every faction's regions if passability changed since the
    /// last call.
    pub fn ensure_regions(&mut self)
        requires
            old(self).wf(),
        ensures
            final(self).wf(),
            !final(self).view().regions_dirty,
            final(self).view().regions_sound(),
            final(self).view() == (MapView { regions: final(self).view().regions, regions_dirty: false, ..old(self).view() }),
    {
        if !self.regions_dirty {
            return;
        }
        let r0 = self.flood_regions(Faction::Wild);
        let r1 = self.flood_regions(Faction::Player);
        let r2 = self.flood_regions(Faction::Hostile);
        let ghost before = self.view();
        self.regions = vec![r0, r1, r2];
        self.regions_dirty = false;
        proof {
            let v = self.view();
            if !before.rooms_dirty {
                lemma_rooms_frame(before, v);
            }
            assert(v.regions.len() == 3);
            assert forall|f: int| 0 <= f < 3 implies #[trigger] v.regions_sound_for(f) by {
                assert(v.regions[f] == self.regions@[f]@);
            }
        }
    }
}

/// Region soundness reads only the grid's size, what can be walked on,
/// and the labels.
proof fn lemma_sound_frame(a: MapView, b: MapView)
    requires
        a.regions_sound(),
        a.w == b.w,
        a.h == b.h,
        a.terrain_cost == b.terrain_cost,
        a.fix_block == b.fix_block,
        a.fix_door == b.fix_door,
        a.fix_owner == b.fix_owner,
        a.regions == b.regions,
    ensures
        b.regions_sound(),
{
    assert forall|f: int| 0 <= f < 3 implies #[trigger] b.regions_sound_for(f) by {
        assert(a.regions_sound_for(f));
        let who = Faction::at_spec(f);
        assert forall|i: int| 0 <= i < b.cells() implies (#[trigger] b.regions[f][i] == 0 <==> !b.open_for(i, who)) by {
            assert(a.regions[f][i] == 0 <==> !a.open_for(i, who));
        }
        assert forall|i: int, j: int|
            #![trigger b.regions[f][i], b.regions[f][j]]
            b.adjacent4(i, j) && b.open_for(i, who) && b.open_for(j, who) implies b.regions[f][i] == b.regions[f][j] by {
            assert(a.adjacent4(i, j));
        }
    }
}

/// A revision counter after one more change (wrapping, as release builds
/// of counters do).
pub open spec fn bump(v: u64) -> u64 {
    vstd::wrapping::u64_specs::wrapping_add(v, 1)
}

/// Counters after bumping each listed one in turn.
pub open spec fn bump_all(revs: Seq<u64>, list: Seq<int>) -> Seq<u64>
    decreases list.len(),
{
    if list.len() == 0 {
        revs
    } else {
        let r = bump_all(revs, list.drop_last());
        r.update(list.last(), bump(r[list.last()]))
    }
}

impl MapView {
    /// The chunk a cell is in.
    pub open spec fn chunk_of(self, p: IVec) -> int {
        (p.y as int / CHUNK as int) * chunks_across(self.w) + p.x as int / CHUNK as int
    }

    /// The chunks a change at `p` redraws: its own, then each neighbouring
    /// chunk across a border from it, right, left, down, up.
    pub open spec fn touch_list(self, p: IVec) -> Seq<int> {
        seq![self.chunk_of(p)] + self.touch_step(p, 0) + self.touch_step(p, 1) + self.touch_step(p, 2)
            + self.touch_step(p, 3)
    }

    /// The chunk redrawn for neighbour `k` of `p`, if it is across a border.
    pub open spec fn touch_step(self, p: IVec, k: int) -> Seq<int> {
        let q = IVec { x: (p.x + dir4_spec(k).0) as i32, y: (p.y + dir4_spec(k).1) as i32 };
        if self.inb(q) && self.chunk_of(q) != self.chunk_of(p) {
            seq![self.chunk_of(q)]
        } else {
            Seq::<int>::empty()
        }
    }

    /// Region label of `p` for `who`; 0 off the map.
    pub open spec fn region_label(self, p: IVec, who: Faction) -> u32 {
        if self.inb(p) {
            self.regions[who.index_spec()][self.idx(p)]
        } else {
            0
        }
    }
}

impl TileMap {
    pub fn terrain_rev(&self, chunk: usize) -> (r: u64)
        requires
            self.wf(),
            chunk < chunks_across(self.view().w) * chunks_across(self.view().h),
        ensures
            r == self.view().terrain_rev[chunk as int],
    {
        self.terrain_rev[chunk]
    }

    pub fn things_rev(&self, chunk: usize) -> (r: u64)
        requires
            self.wf(),
            chunk < chunks_across(self.view().w) * chunks_across(self.view().h),
        ensures
            r == self.view().things_rev[chunk as int],
    {
        self.things_rev[chunk]
    }

    /// Something drawn at `p` changed. Call it for changes the map can't
    /// see: a stack's count, a designation, a plant picked clean.
    pub fn touch(&mut self, p: IVec)
        requires
            old(self).wf(),
        ensures
            final(self).wf(),
            old(self).view().inb(p) ==> final(self).view() == (MapView {
                things_rev: bump_all(old(self).view().things_rev, old(self).view().touch_list(p)),
                ..old(self).view()
            }),
            !old(self).view().inb(p) ==> final(self).view() == old(self).view(),
    {
        if !self.inb(p) {
            return;
        }
        let ghost v = self.view();
        let c = self.chunk_of(p);
        self.things_rev.set(c, self.things_rev[c].wrapping_add(1));
        let ghost mut list: Seq<int> = seq![c as int];
        assert(self.things_rev@ == bump_all(v.things_rev, list)) by {
            assert(list.drop_last() =~= Seq::<int>::empty());
            reveal_with_fuel(bump_all, 2);
        }
        proof {
            if !v.regions_dirty {
                lemma_sound_frame(v, self.view());
            }
            if !v.rooms_dirty {
                lemma_rooms_frame(v, self.view());
            }
        }
        let mut k: usize = 0;
        while k < 4
            invariant
                self.wf(),
                v.inb(p),
                c == v.chunk_of(p),
                k <= 4,
                self.view() == (MapView { things_rev: self.things_rev@, ..v }),
                self.things_rev@ == bump_all(v.things_rev, list),
                list == seq![c as int] + (if k > 0 { v.touch_step(p, 0) } else { Seq::empty() }) + (if k > 1 { v.touch_step(p, 1) } else { Seq::empty() })
                    + (if k > 2 { v.touch_step(p, 2) } else { Seq::empty() }) + (if k > 3 { v.touch_step(p, 3) } else { Seq::empty() }),
            decreases 4 - k,
        {
            let (dx, dy) = dir4(k);
            let q = IVec::new(p.x + dx, p.y + dy);
            if self.inb(q) && self.chunk_of(q) != c {
                let d = self.chunk_of(q);
                let ghost old_list = list;
                let ghost before = self.view();
                self.things_rev.set(d, self.things_rev[d].wrapping_add(1));
                proof {
                    if !before.regions_dirty {
                        lemma_sound_frame(before, self.view());
                    }
                    if !before.rooms_dirty {
                        lemma_rooms_frame(before, self.view());
                    }
                    list = list.push(d as int);
                    assert(list.drop_last() == old_list);
                }
            }
            proof {
                if k == 0 { assert(list =~= seq![c as int] + v.touch_step(p, 0)); }
                else if k == 1 { assert(list =~= seq![c as int] + v.touch_step(p, 0) + v.touch_step(p, 1)); }
                else if k == 2 { assert(list =~= seq![c as int] + v.touch_step(p, 0) + v.touch_step(p, 1) + v.touch_step(p, 2)); }
                else { assert(list =~= seq![c as int] + v.touch_step(p, 0) + v.touch_step(p, 1) + v.touch_step(p, 2) + v.touch_step(p, 3)); }
            }
            k += 1;
        }
        assert(list =~= v.touch_list(p));
    }
}

/// How many of the first `n` entries equal `v`.
pub open spec fn count_eq(r: Seq<u32>, v: u32, n: int) -> int
    decreases n,
{
    if n <= 0 {
        0
    } else {
        count_eq(r, v, n - 1) + (if r[n - 1] == v { 1int } else { 0int })
    }
}

/// A cost clamped to what a cell stores.
pub open spec fn clamp16(v: u32) -> u16 {
    if v > u16::MAX { u16::MAX } else { v as u16 }
}

impl MapView {
    /// The room at `p`; none off the map or on walls, doors and impassable ground.
    pub open spec fn room_at(self, p: IVec) -> Option<Room> {
        if !self.inb(p) {
            None
        } else {
            let id = self.room[self.idx(p)];
            if id > 0 { Some(self.rooms[id - 1]) } else { None }
        }
    }
}

impl TileMap {
    /// Put `e` in the item slot at `p`.
    pub fn set_item(&mut self, p: IVec, e: Option<Entity>)
        requires
            old(self).wf(),
            old(self).view().inb(p),
        ensures
            final(self).wf(),
            final(self).view() == (MapView {
                item: old(self).view().item.update(old(self).view().idx(p), e),
                things_rev: bump_all(old(self).view().things_rev, old(self).view().touch_list(p)),
                ..old(self).view()
            }),
    {
        let ghost v = self.view();
        let i = self.idx(p);
        self.item.set(i, e);
        proof {
            if !v.regions_dirty {
                lemma_sound_frame(v, self.view());
            }
            if !v.rooms_dirty {
                lemma_rooms_frame(v, self.view());
            }
        }
        self.touch(p);
    }

    pub fn set_terrain(&mut self, p: IVec, def: DefId, cost: u32)
        requires
            old(self).wf(),
            old(self).view().inb(p),
        ensures
            final(self).wf(),
            final(self).view() == (MapView {
                terrain: old(self).view().terrain.update(old(self).view().idx(p), def),
                terrain_cost: old(self).view().terrain_cost.update(old(self).view().idx(p), clamp16(cost)),
                regions_dirty: true,
                rooms_dirty: true,
                changed: old(self).view().changed.push(old(self).view().idx(p) as u32),
                revision: bump(old(self).view().revision),
                terrain_rev: old(self).view().terrain_rev.update(
                    old(self).view().chunk_of(p),
                    bump(old(self).view().terrain_rev[old(self).view().chunk_of(p)]),
                ),
                ..old(self).view()
            }),
    {
        let i = self.idx(p);
        self.terrain.set(i, def);
        let c16: u16 = if cost > 0xffff { 0xffff } else { cost as u16 };
        self.terrain_cost.set(i, c16);
        self.regions_dirty = true;
        self.rooms_dirty = true;
        self.changed.push(i as u32);
        self.revision = self.revision.wrapping_add(1);
        let c = self.chunk_of(p);
        self.terrain_rev.set(c, self.terrain_rev[c].wrapping_add(1));
    }

    pub fn set_fixture(&mut self, p: IVec, e: Option<Entity>, blocks: bool, cost: u32, door: bool)
        requires
            old(self).wf(),
            old(self).view().inb(p),
        ensures
            final(self).wf(),
            ({
                let v = old(self).view();
                let i = v.idx(p);
                let moved = v.fix_block[i] != blocks || v.fix_door[i] != door;
                let mid = MapView {
                    fixture: v.fixture.update(i, e),
                    fix_block: v.fix_block.update(i, blocks),
                    fix_door: v.fix_door.update(i, door),
                    fix_cost: v.fix_cost.update(i, clamp16(cost)),
                    regions_dirty: v.regions_dirty || moved,
                    rooms_dirty: v.rooms_dirty || moved,
                    changed: if moved { v.changed.push(i as u32) } else { v.changed },
                    revision: bump(v.revision),
                    ..v
                };
                final(self).view() == (MapView { things_rev: bump_all(mid.things_rev, mid.touch_list(p)), ..mid })
            }),
    {
        let ghost v = self.view();
        let i = self.idx(p);
        self.fixture.set(i, e);
        if self.fix_block[i] != blocks {
            self.regions_dirty = true;
            self.rooms_dirty = true;
        }
        if self.fix_door[i] != door {
            self.rooms_dirty = true;
            // An owned door is a wall to everyone but its owner, so gaining
            // or losing one changes who can reach what.
            self.regions_dirty = true;
        }
        if self.fix_block[i] != blocks || self.fix_door[i] != door {
            self.changed.push(i as u32);
        }
        self.fix_block.set(i, blocks);
        self.fix_door.set(i, door);
        let c16: u16 = if cost > 0xffff { 0xffff } else { cost as u16 };
        self.fix_cost.set(i, c16);
        self.revision = self.revision.wrapping_add(1);
        proof {
            if !self.regions_dirty {
                assert(self.view().fix_block =~= v.fix_block);
                assert(self.view().fix_door =~= v.fix_door);
                lemma_sound_frame(v, self.view());
            }
            if !self.rooms_dirty {
                assert(self.view().fix_block =~= v.fix_block);
                assert(self.view().fix_door =~= v.fix_door);
                lemma_rooms_frame(v, self.view());
            }
        }
        self.touch(p);
    }

    pub fn fixture_at(&self, p: IVec) -> (r: Option<Entity>)
        requires
            self.wf(),
        ensures
            r == (if self.view().inb(p) { self.view().fixture[self.view().idx(p)] } else { None }),
    {
        if self.inb(p) {
            self.fixture[self.idx(p)]
        } else {
            None
        }
    }

    pub fn item_at(&self, p: IVec) -> (r: Option<Entity>)
        requires
            self.wf(),
        ensures
            r == (if self.view().inb(p) { self.view().item[self.view().idx(p)] } else { None }),
    {
        if self.inb(p) {
            self.item[self.idx(p)]
        } else {
            None
        }
    }

    pub fn floor_at(&self, p: IVec) -> (r: Option<Entity>)
        requires
            self.wf(),
        ensures
            r == (if self.view().inb(p) { self.view().floor[self.view().idx(p)] } else { None }),
    {
        if self.inb(p) {
            self.floor[self.idx(p)]
        } else {
            None
        }
    }

    /// Lay or lift a floor. `cost` 0 is a floor that changes nothing yet
    /// (a blueprint). Passability never changes, so no region rebuild.
    pub fn set_floor(&mut self, p: IVec, e: Option<Entity>, cost: u32)
        requires
            old(self).wf(),
            old(self).view().inb(p),
        ensures
            final(self).wf(),
            ({
                let v = old(self).view();
                let i = v.idx(p);
                let mid = MapView {
                    floor: v.floor.update(i, e),
                    floor_cost: v.floor_cost.update(i, if e is Some { clamp16(cost) } else { 0 }),
                    revision: bump(v.revision),
                    ..v
                };
                final(self).view() == (MapView { things_rev: bump_all(mid.things_rev, mid.touch_list(p)), ..mid })
            }),
    {
        let ghost v = self.view();
        let i = self.idx(p);
        self.floor.set(i, e);
        let c16: u16 = if e.is_some() {
            if cost > 0xffff { 0xffff } else { cost as u16 }
        } else {
            0
        };
        self.floor_cost.set(i, c16);
        self.revision = self.revision.wrapping_add(1);
        proof {
            if !v.regions_dirty {
                lemma_sound_frame(v, self.view());
            }
            if !v.rooms_dirty {
                lemma_rooms_frame(v, self.view());
            }
        }
        self.touch(p);
    }

    /// Give the fixture at `p` an owner, or take ownership away.
    pub fn set_owner(&mut self, p: IVec, owner: Option<Faction>)
        requires
            old(self).wf(),
            old(self).view().inb(p),
        ensures
            final(self).wf(),
            ({
                let v = old(self).view();
                let i = v.idx(p);
                let val: u8 = match owner {
                    None => 0,
                    Some(f) => (f.index_spec() + 1) as u8,
                };
                if v.fix_owner[i] == val {
                    final(self).view() == v
                } else {
                    final(self).view() == (MapView {
                        fix_owner: v.fix_owner.update(i, val),
                        regions_dirty: true,
                        revision: bump(v.revision),
                        ..v
                    })
                }
            }),
    {
        let i = self.idx(p);
        let v: u8 = match owner {
            None => 0,
            Some(f) => (f.index() + 1) as u8,
        };
        if self.fix_owner[i] == v {
            return;
        }
        let ghost before = self.view();
        self.fix_owner.set(i, v);
        self.regions_dirty = true;
        self.revision = self.revision.wrapping_add(1);
        proof {
            if !before.rooms_dirty {
                lemma_rooms_frame(before, self.view());
            }
        }
    }

    pub fn owner_at(&self, p: IVec) -> (r: Option<Faction>)
        requires
            self.wf(),
            self.view().inb(p),
        ensures
            ({
                let v = self.view().fix_owner[self.view().idx(p)];
                r == (if v > 0 { Some(Faction::at_spec(v - 1)) } else { None })
            }),
    {
        let v = self.fix_owner[self.idx(p)];
        if v == 0 {
            None
        } else if v == 1 {
            Some(Faction::Wild)
        } else if v == 2 {
            Some(Faction::Player)
        } else {
            Some(Faction::Hostile)
        }
    }

    /// Region id as `who` sees it. Call `ensure_regions` first.
    pub fn region_at_for(&self, p: IVec, who: Faction) -> (r: u32)
        requires
            self.wf(),
        ensures
            r == self.view().region_label(p, who),
    {
        if self.inb(p) {
            let i = self.idx(p);
            let layer = &self.regions[who.index()];
            assert(layer@ == self.view().regions[who.index_spec()]);
            layer[i]
        } else {
            0
        }
    }

    /// Region id ignoring ownership, for callers that only care about the
    /// shape of the land (map generation, plant spread).
    pub fn region_at(&self, p: IVec) -> (r: u32)
        requires
            self.wf(),
        ensures
            r == self.view().region_label(p, Faction::Player),
    {
        self.region_at_for(p, Faction::Player)
    }

    /// Cells whose walls, doors or terrain changed since the last call.
    pub fn take_changed_cells(&mut self) -> (r: Vec<u32>)
        requires
            old(self).wf(),
        ensures
            final(self).wf(),
            r@ == old(self).view().changed,
            final(self).view() == (MapView { changed: Seq::empty(), ..old(self).view() }),
    {
        let ghost v = self.view();
        let mut out: Vec<u32> = Vec::new();
        std::mem::swap(&mut out, &mut self.changed);
        proof {
            if !v.regions_dirty {
                lemma_sound_frame(v, self.view());
            }
            if !v.rooms_dirty {
                lemma_rooms_frame(v, self.view());
            }
        }
        out
    }

    pub fn room_count(&self) -> (r: usize)
        requires
            self.wf(),
        ensures
            r == self.view().rooms.len(),
    {
        self.rooms.len()
    }

    pub fn room_by_id(&self, id: u32) -> (r: Room)
        requires
            self.wf(),
            1 <= id <= self.view().rooms.len(),
        ensures
            r == self.view().rooms[id - 1],
    {
        self.rooms[id as usize - 1]
    }

    /// (current, previous) room id of a cell; previous is from before the last rebuild.
    pub fn room_ids(&self, i: usize) -> (r: (u32, u32))
        requires
            self.wf(),
            i < self.view().cells(),
        ensures
            r == (self.view().room[i as int], self.view().prev_room[i as int]),
    {
        (self.room[i], self.prev_room[i])
    }

    /// The room at `p`. Call `ensure_rooms` first. Walls and doors have none.
    pub fn room_at(&self, p: IVec) -> (r: Option<Room>)
        requires
            self.wf(),
        ensures
            r == self.view().room_at(p),
    {
        if !self.inb(p) {
            return None;
        }
        let id = self.room[self.idx(p)];
        if id > 0 {
            Some(self.rooms[id as usize - 1])
        } else {
            None
        }
    }

    /// Sheltered: inside an enclosed room. Call `ensure_rooms` first.
    pub fn indoors(&self, p: IVec) -> (r: bool)
        requires
            self.wf(),
        ensures
            r == (self.view().room_at(p) matches Some(room) && !room.touches_edge && room.cells <= MAX_ROOM_CELLS),
    {
        match self.room_at(p) {
            Some(r) => r.enclosed(),
            None => false,
        }
    }

    /// The cells enclosing room `id`: walls, doors, rock, water.
    pub fn room_boundary(&self, id: u32) -> (r: &[u32])
        requires
            self.wf(),
            id >= 1,
        ensures
            r@ == (if id - 1 < self.view().room_boundary.len() { self.view().room_boundary[id - 1] } else { Seq::empty() }),
    {
        let k = id as usize - 1;
        if k < self.room_boundary.len() {
            self.room_boundary[k].as_slice()
        } else {
            &[]
        }
    }

    /// Size of the region containing `p` (used by map gen to pick a start).
    pub fn region_size(&self, p: IVec) -> (r: usize)
        requires
            self.wf(),
        ensures
            ({
                let lab = self.view().region_label(p, Faction::Player);
                r == if lab == 0 { 0 } else { count_eq(self.view().regions[1], lab, self.view().cells()) }
            }),
    {
        let r = self.region_at(p);
        if r == 0 {
            return 0;
        }
        let layer = &self.regions[1];
        assert(layer@ == self.view().regions[1]);
        let n = layer.len();
        let mut c: usize = 0;
        let mut i: usize = 0;
        while i < n
            invariant
                i <= n,
                n == layer@.len(),
                c == count_eq(layer@, r, i as int),
                c <= i,
            decreases n - i,
        {
            if layer[i] == r {
                c += 1;
            }
            i += 1;
        }
        c
    }
}

impl MapView {
    /// The cheap reachability answer: yes when `from` has no region (let
    /// the search decide), else whether the goal cell, or for `Touch` any
    /// cell around it, shares `from`'s region.
    pub open spec fn reach_spec(self, from: IVec, goal: Goal, who: Faction) -> bool {
        let rf = self.region_label(from, who);
        if rf == 0 {
            true
        } else {
            match goal {
                Goal::Cell(c) => self.region_label(c, who) == rf,
                Goal::Touch(c) => self.touches_label(c, who, rf),
            }
        }
    }

    /// Some cell on or around `c` carries `who`'s label `rf`.
    pub open spec fn touches_label(self, c: IVec, who: Faction, rf: u32) -> bool {
        exists|dx: int, dy: int|
            -1 <= dx <= 1 && -1 <= dy <= 1 && #[trigger] self.region_label(
                IVec { x: (c.x + dx) as i32, y: (c.y + dy) as i32 },
                who,
            ) == rf
    }
}

impl TileMap {
    /// Cheap reachability test for a colonist. Call `ensure_regions` first.
    pub fn can_reach(&self, from: IVec, goal: Goal) -> (r: bool)
        requires
            self.wf(),
            goal matches Goal::Touch(c) ==> c.x - 1 >= i32::MIN && c.x + 1 <= i32::MAX && c.y - 1 >= i32::MIN && c.y + 1
                <= i32::MAX,
        ensures
            r == self.view().reach_spec(from, goal, Faction::Player),
    {
        self.can_reach_for(from, goal, Faction::Player)
    }

    /// Cheap reachability test, from `who`'s side of the doors.
    pub fn can_reach_for(&self, from: IVec, goal: Goal, who: Faction) -> (r: bool)
        requires
            self.wf(),
            goal matches Goal::Touch(c) ==> c.x - 1 >= i32::MIN && c.x + 1 <= i32::MAX && c.y - 1 >= i32::MIN && c.y + 1
                <= i32::MAX,
        ensures
            r == self.view().reach_spec(from, goal, who),
    {
        let rf = self.region_at_for(from, who);
        if rf == 0 {
            return true;
        }
        match goal {
            Goal::Cell(c) => self.region_at_for(c, who) == rf,
            Goal::Touch(c) => {
                let mut dy: i32 = -1;
                while dy <= 1
                    invariant
                        -1 <= dy <= 2,
                        self.wf(),
                        rf == self.view().region_label(from, who),
                        rf != 0,
                        goal == Goal::Touch(c),
                        c.x - 1 >= i32::MIN && c.x + 1 <= i32::MAX && c.y - 1 >= i32::MIN && c.y + 1 <= i32::MAX,
                        forall|ddx: int, ddy: int|
                            -1 <= ddx <= 1 && -1 <= ddy < dy ==> #[trigger] self.view().region_label(
                                IVec { x: (c.x + ddx) as i32, y: (c.y + ddy) as i32 },
                                who,
                            ) != rf,
                    decreases 2 - dy,
                {
                    let mut dx: i32 = -1;
                    while dx <= 1
                        invariant
                            -1 <= dx <= 2,
                            -1 <= dy <= 1,
                            self.wf(),
                            rf == self.view().region_label(from, who),
                            rf != 0,
                            goal == Goal::Touch(c),
                            c.x - 1 >= i32::MIN && c.x + 1 <= i32::MAX && c.y - 1 >= i32::MIN && c.y + 1 <= i32::MAX,
                            forall|ddx: int, ddy: int|
                                -1 <= ddx <= 1 && -1 <= ddy < dy ==> #[trigger] self.view().region_label(
                                    IVec { x: (c.x + ddx) as i32, y: (c.y + ddy) as i32 },
                                    who,
                                ) != rf,
                            forall|ddx: int|
                                -1 <= ddx < dx ==> #[trigger] self.view().region_label(
                                    IVec { x: (c.x + ddx) as i32, y: (c.y + dy) as i32 },
                                    who,
                                ) != rf,
                        decreases 2 - dx,
                    {
                        let q = c.offset(dx, dy);
                        assert(q == IVec { x: (c.x + dx as int) as i32, y: (c.y + dy as int) as i32 });
                        if self.region_at_for(q, who) == rf {
                            assert(self.view().region_label(IVec { x: (c.x + dx as int) as i32, y: (c.y + dy as int) as i32 }, who) == rf);
                            assert(exists|ddx: int, ddy: int|
                                -1 <= ddx <= 1 && -1 <= ddy <= 1 && #[trigger] self.view().region_label(
                                    IVec { x: (c.x + ddx) as i32, y: (c.y + ddy) as i32 },
                                    who,
                                ) == rf);
                            assert(self.view().region_label(from, who) != 0);
                            let ghost vv = self.view();
                            assert(vv.reach_spec(from, Goal::Touch(c), who)) by {
                                let rf2 = vv.region_label(from, who);
                                assert(rf2 == rf);
                                assert(exists|ddx: int, ddy: int|
                                    -1 <= ddx <= 1 && -1 <= ddy <= 1 && #[trigger] vv.region_label(
                                        IVec { x: (c.x + ddx) as i32, y: (c.y + ddy) as i32 },
                                        who,
                                    ) == rf2);
                            }
                            return true;
                        }
                        dx += 1;
                    }
                    dy += 1;
                }
                false
            },
        }
    }
}

/// Walking never leaves a region: every cell of a walk `who` can take
/// carries the label its first cell does, and that label is not 0.
pub proof fn law_walk_stays_in_region(v: MapView, who: Faction, path: Seq<int>)
    requires
        v.w >= 0,
        v.h >= 0,
        v.regions_sound(),
        v.is_walk(who, path),
    ensures
        forall|k: int| 0 <= k < path.len() ==> #[trigger] v.regions[who.index_spec()][path[k]] == v.regions[who.index_spec()][path[0]],
        v.regions[who.index_spec()][path[0]] != 0,
{
    let f = who.index_spec();
    assert(v.regions_sound_for(f));
    assert(Faction::at_spec(f) == who);
    assert forall|k: int| 0 <= k < path.len() implies #[trigger] v.regions[f][path[k]] == v.regions[f][path[0]] by {
        lemma_walk_prefix(v, who, path, k);
    }
    assert(v.open_for(path[0], who));
}

proof fn lemma_walk_prefix(v: MapView, who: Faction, path: Seq<int>, k: int)
    requires
        v.regions_sound_for(who.index_spec()),
        Faction::at_spec(who.index_spec()) == who,
        v.is_walk(who, path),
        0 <= k < path.len(),
    ensures
        v.regions[who.index_spec()][path[k]] == v.regions[who.index_spec()][path[0]],
    decreases k,
{
    if k > 0 {
        lemma_walk_prefix(v, who, path, k - 1);
        let r = v.regions[who.index_spec()];
        assert(v.adjacent4(path[k - 1], path[(k - 1) + 1]));
        assert(r[path[k - 1]] == r[path[k]]);
    }
}

/// When regions are current and the cheap test says no, there is no walk
/// from `from` to the goal cell: rejecting it without a search is right.
pub proof fn law_no_reach_means_no_walk(v: MapView, who: Faction, from: IVec, c: IVec, path: Seq<int>)
    requires
        v.w >= 0,
        v.h >= 0,
        v.regions_sound(),
        !v.reach_spec(from, Goal::Cell(c), who),
        path.len() >= 1,
        path[0] == v.idx(from),
        path.last() == v.idx(c),
        v.inb(from),
        v.inb(c),
    ensures
        !v.is_walk(who, path),
{
    if v.is_walk(who, path) {
        law_walk_stays_in_region(v, who, path);
        assert(v.regions[who.index_spec()][path[path.len() - 1]] == v.regions[who.index_spec()][path[0]]);
    }
}

/// How many of the first `n` cells carry a label.
pub open spec fn count_labelled(r: Seq<u32>, n: int) -> int
    decreases n,
{
    if n <= 0 {
        0
    } else {
        count_labelled(r, n - 1) + (if r[n - 1] != 0 { 1int } else { 0int })
    }
}

proof fn lemma_count_labelled_bound(r: Seq<u32>, n: int)
    requires
        n >= 0,
    ensures
        0 <= count_labelled(r, n) <= n,
    decreases n,
{
    if n > 0 {
        lemma_count_labelled_bound(r, n - 1);
    }
}

proof fn lemma_count_labelled_grows(r: Seq<u32>, n: int, j: int, v: u32)
    requires
        0 <= j < n <= r.len(),
        r[j] == 0,
        v != 0,
    ensures
        count_labelled(r.update(j, v), n) == count_labelled(r, n) + 1,
    decreases n,
{
    if n - 1 == j {
        lemma_count_same(r, r.update(j, v), n - 1);
    } else {
        lemma_count_labelled_grows(r, n - 1, j, v);
    }
}

proof fn lemma_count_same(a: Seq<u32>, b: Seq<u32>, n: int)
    requires
        n <= a.len(),
        n <= b.len(),
        forall|i: int| 0 <= i < n ==> (a[i] != 0) == (b[i] != 0),
    ensures
        count_labelled(a, n) == count_labelled(b, n),
    decreases n,
{
    if n > 0 {
        lemma_count_same(a, b, n - 1);
    }
}


/// The eight neighbour offsets, straight ones first, in the order the room
/// fill visits them.
pub open spec fn dir8_spec(k: int) -> (int, int) {
    if k < 4 {
        dir4_spec(k)
    } else if k == 4 {
        (1, 1)
    } else if k == 5 {
        (-1, 1)
    } else if k == 6 {
        (1, -1)
    } else {
        (-1, -1)
    }
}

pub(crate) fn dir8(k: usize) -> (r: (i32, i32))
    requires
        k < 8,
    ensures
        r.0 == dir8_spec(k as int).0,
        r.1 == dir8_spec(k as int).1,
        r.0 == neighbors8_spec()[k as int].0,
        r.1 == neighbors8_spec()[k as int].1,
{
    if k < 4 {
        dir4(k)
    } else if k == 4 {
        (1, 1)
    } else if k == 5 {
        (-1, 1)
    } else if k == 6 {
        (1, -1)
    } else {
        (-1, -1)
    }
}

impl MapView {
    /// The index of neighbour `k` (of eight) of cell `i`, or -1 off the map.
    pub open spec fn nb8(self, i: int, k: int) -> int {
        let x = self.pos_x(i) + dir8_spec(k).0;
        let y = self.pos_y(i) + dir8_spec(k).1;
        if 0 <= x < self.w && 0 <= y < self.h {
            y * self.w + x
        } else {
            -1
        }
    }

    /// Cell `i` lies on the map's outer ring.
    pub open spec fn on_edge(self, i: int) -> bool {
        self.pos_x(i) == 0 || self.pos_y(i) == 0 || self.pos_x(i) == self.w - 1 || self.pos_y(i) == self.h - 1
    }

    /// Every room cell next to `i` carries `i`'s room label.
    pub open spec fn room_closed(self, r: Seq<u32>, i: int) -> bool {
        forall|j: int| #[trigger] self.adjacent4(i, j) && self.room_cell(j) ==> r[j] == r[i]
    }

    /// `j` is not room floor and is one of the eight cells around a cell
    /// labelled `id`: a piece of that room's enclosure.
    pub open spec fn bounds_room(self, r: Seq<u32>, id: u32, j: int) -> bool {
        &&& 0 <= j < self.cells()
        &&& !self.room_cell(j)
        &&& exists|i: int, k: int|
            #![trigger r[i], self.nb8(i, k)]
            0 <= i < self.cells() && 0 <= k < 8 && r[i] == id && self.nb8(i, k) == j
    }

    /// Room `k + 1`: its record counts its cells and says whether one is on
    /// the map edge, and its boundary lists each enclosing cell once.
    pub open spec fn room_ok(self, r: Seq<u32>, rooms: Seq<Room>, bnd: Seq<Seq<u32>>, k: int) -> bool {
        let id = (k + 1) as u32;
        &&& rooms[k].id == id
        &&& rooms[k].cells == count_eq(r, id, self.cells())
        &&& rooms[k].cells > 0
        &&& (rooms[k].touches_edge <==> exists|i: int| 0 <= i < self.cells() && #[trigger] r[i] == id && self.on_edge(i))
        &&& bnd[k].no_duplicates()
        &&& forall|t: int| 0 <= t < bnd[k].len() ==> self.bounds_room(r, id, #[trigger] bnd[k][t] as int)
        &&& forall|j: int| #[trigger] self.bounds_room(r, id, j) ==> bnd[k].contains(j as u32)
    }

    /// Room labels `r`, room records and boundaries describe this map: 0
    /// exactly off room floor, one label across floor cells that share a
    /// side, and each record right about its room.
    pub open spec fn rooms_sound_with(self, r: Seq<u32>, rooms: Seq<Room>, bnd: Seq<Seq<u32>>) -> bool {
        &&& r.len() == self.cells()
        &&& rooms.len() == bnd.len()
        &&& rooms.len() <= self.cells()
        &&& forall|i: int| 0 <= i < self.cells() ==> (#[trigger] r[i] == 0 <==> !self.room_cell(i))
        &&& forall|i: int| 0 <= i < self.cells() ==> #[trigger] r[i] <= rooms.len()
        &&& forall|i: int, j: int|
            #![trigger r[i], r[j]]
            self.adjacent4(i, j) && self.room_cell(i) && self.room_cell(j) ==> r[i] == r[j]
        &&& forall|k: int| 0 <= k < rooms.len() ==> #[trigger] self.room_ok(r, rooms, bnd, k)
    }

    /// The map's own rooms are up to date with its walls.
    pub open spec fn rooms_sound(self) -> bool {
        self.rooms_sound_with(self.room, self.rooms, self.room_boundary)
    }

    /// Boundary bookkeeping for room `id` while it fills: `seen` marks with
    /// `id` exactly the cells listed in `bnd`, each listed once and each a
    /// piece of the room's enclosure.
    pub open spec fn bnd_ok(self, r: Seq<u32>, id: u32, seen: Seq<u32>, bnd: Seq<u32>) -> bool {
        &&& seen.len() == self.cells()
        &&& forall|j: int| 0 <= j < self.cells() ==> #[trigger] seen[j] <= id
        &&& forall|j: int| 0 <= j < self.cells() ==> (#[trigger] seen[j] == id <==> bnd.contains(j as u32))
        &&& bnd.no_duplicates()
        &&& forall|t: int| 0 <= t < bnd.len() ==> self.bounds_room(r, id, #[trigger] bnd[t] as int)
    }

    /// Every enclosing cell around `x` has been marked for room `id`.
    pub open spec fn bnd_closed(self, x: int, id: u32, seen: Seq<u32>) -> bool {
        forall|k: int| 0 <= k < 8 && self.nb8(x, k) >= 0 && !self.room_cell(#[trigger] self.nb8(x, k)) ==> seen[self.nb8(x, k)] == id
    }
}

pub(crate) proof fn lemma_count_eq_bound(r: Seq<u32>, u: u32, n: int)
    requires
        n >= 0,
    ensures
        0 <= count_eq(r, u, n) <= n,
    decreases n,
{
    if n > 0 {
        lemma_count_eq_bound(r, u, n - 1);
    }
}

pub(crate) proof fn lemma_count_eq_update(r: Seq<u32>, u: u32, n: int, j: int, v: u32)
    requires
        0 <= j < n <= r.len(),
    ensures
        count_eq(r.update(j, v), u, n) == count_eq(r, u, n) - (if r[j] == u { 1int } else { 0int }) + (if v == u { 1int } else { 0int }),
    decreases n,
{
    if n - 1 == j {
        lemma_count_eq_ext(r, r.update(j, v), u, n - 1);
    } else {
        lemma_count_eq_update(r, u, n - 1, j, v);
    }
}

proof fn lemma_count_eq_ext(a: Seq<u32>, b: Seq<u32>, u: u32, n: int)
    requires
        n <= a.len(),
        n <= b.len(),
        forall|i: int| 0 <= i < n ==> (a[i] == u) == (b[i] == u),
    ensures
        count_eq(a, u, n) == count_eq(b, u, n),
    decreases n,
{
    if n > 0 {
        lemma_count_eq_ext(a, b, u, n - 1);
    }
}

pub(crate) proof fn lemma_count_eq_zero(r: Seq<u32>, u: u32, n: int)
    requires
        n <= r.len(),
        forall|i: int| 0 <= i < n ==> r[i] != u,
    ensures
        count_eq(r, u, n) == 0,
    decreases n,
{
    if n > 0 {
        lemma_count_eq_zero(r, u, n - 1);
    }
}

/// A finished room's record stays right while other cells get other labels.
proof fn lemma_room_ok_stable(m: MapView, r: Seq<u32>, r2: Seq<u32>, rooms: Seq<Room>, bnd: Seq<Seq<u32>>, k: int)
    requires
        r.len() == m.cells(),
        r2.len() == m.cells(),
        m.room_ok(r, rooms, bnd, k),
        forall|x: int| 0 <= x < m.cells() ==> (r[x] == (k + 1) as u32) == (#[trigger] r2[x] == (k + 1) as u32),
    ensures
        m.room_ok(r2, rooms, bnd, k),
{
    let id = (k + 1) as u32;
    lemma_count_eq_ext(r, r2, id, m.cells());
    if rooms[k].touches_edge {
        let i = choose|i: int| 0 <= i < m.cells() && #[trigger] r[i] == id && m.on_edge(i);
        assert(r2[i] == id);
    }
    if exists|i: int| 0 <= i < m.cells() && #[trigger] r2[i] == id && m.on_edge(i) {
        let i = choose|i: int| 0 <= i < m.cells() && #[trigger] r2[i] == id && m.on_edge(i);
        assert(r[i] == id);
    }
    assert forall|j: int| m.bounds_room(r, id, j) implies #[trigger] m.bounds_room(r2, id, j) by {
        let (i, kk) = choose|i: int, kk: int|
            #![trigger r[i], m.nb8(i, kk)]
            0 <= i < m.cells() && 0 <= kk < 8 && r[i] == id && m.nb8(i, kk) == j;
        assert(r2[i] == id);
    }
    assert forall|j: int| m.bounds_room(r2, id, j) implies #[trigger] m.bounds_room(r, id, j) by {
        let (i, kk) = choose|i: int, kk: int|
            #![trigger r2[i], m.nb8(i, kk)]
            0 <= i < m.cells() && 0 <= kk < 8 && r2[i] == id && m.nb8(i, kk) == j;
        assert(r[i] == id);
    }
    assert forall|t: int| 0 <= t < bnd[k].len() implies m.bounds_room(r2, id, #[trigger] bnd[k][t] as int) by {
        assert(m.bounds_room(r, id, bnd[k][t] as int));
    }
    assert forall|j: int| #[trigger] m.bounds_room(r2, id, j) implies bnd[k].contains(j as u32) by {
        assert(m.bounds_room(r, id, j));
    }
}

/// Boundary bookkeeping survives more cells joining the room.
proof fn lemma_bnd_ok_grow(m: MapView, r: Seq<u32>, r2: Seq<u32>, id: u32, seen: Seq<u32>, bnd: Seq<u32>)
    requires
        m.bnd_ok(r, id, seen, bnd),
        r.len() == m.cells(),
        r2.len() == m.cells(),
        forall|x: int| 0 <= x < m.cells() && r[x] == id ==> #[trigger] r2[x] == id,
    ensures
        m.bnd_ok(r2, id, seen, bnd),
{
    assert forall|t: int| 0 <= t < bnd.len() implies m.bounds_room(r2, id, #[trigger] bnd[t] as int) by {
        let j = bnd[t] as int;
        assert(m.bounds_room(r, id, j));
        let (i, kk) = choose|i: int, kk: int|
            #![trigger r[i], m.nb8(i, kk)]
            0 <= i < m.cells() && 0 <= kk < 8 && r[i] == id && m.nb8(i, kk) == j;
        assert(r2[i] == id);
    }
}

proof fn lemma_nb8_in(m: MapView, i: int)
    requires
        m.w >= 0,
        m.h >= 0,
        0 <= i < m.cells(),
    ensures
        forall|k: int| 0 <= k < 8 && m.nb8(i, k) >= 0 ==> #[trigger] m.nb8(i, k) < m.cells(),
        forall|k: int| 0 <= k < 4 ==> #[trigger] m.nb8(i, k) == m.nb(i, k),
{
    lemma_pos_idx(m.w, m.h, i);
    assert forall|k: int| 0 <= k < 8 && m.nb8(i, k) >= 0 implies #[trigger] m.nb8(i, k) < m.cells() by {
        let x = m.pos_x(i) + dir8_spec(k).0;
        let y = m.pos_y(i) + dir8_spec(k).1;
        lemma_idx_pos(m.w, m.h, x, y);
    }
}

impl TileMap {
    /// Marks and lists, for room `id`, the enclosing cells around cell `i`.
    fn mark_boundary(&self, i: usize, id: u32, seen: &mut Vec<u32>, bnd: &mut Vec<u32>, Ghost(r): Ghost<Seq<u32>>)
        requires
            self.wf(),
            i < self.view().cells(),
            r.len() == self.view().cells(),
            r[i as int] == id,
            self.view().bnd_ok(r, id, old(seen)@, old(bnd)@),
        ensures
            self.view().bnd_ok(r, id, final(seen)@, final(bnd)@),
            self.view().bnd_closed(i as int, id, final(seen)@),
            forall|j: int| 0 <= j < self.view().cells() && old(seen)@[j] == id ==> #[trigger] final(seen)@[j] == id,
    {
        let ghost m = self.view();
        let ghost seen0 = seen@;
        let p = self.pos(i);
        proof {
            lemma_nb8_in(m, i as int);
        }
        let mut k: usize = 0;
        while k < 8
            invariant
                self.wf(),
                m == self.view(),
                i < m.cells(),
                r.len() == m.cells(),
                r[i as int] == id,
                p.x == m.pos_x(i as int),
                p.y == m.pos_y(i as int),
                m.inb(p),
                k <= 8,
                seen0.len() == m.cells(),
                forall|kk: int| 0 <= kk < 8 && m.nb8(i as int, kk) >= 0 ==> #[trigger] m.nb8(i as int, kk) < m.cells(),
                m.bnd_ok(r, id, seen@, bnd@),
                forall|kk: int|
                    0 <= kk < k && m.nb8(i as int, kk) >= 0 && !m.room_cell(#[trigger] m.nb8(i as int, kk)) ==> seen@[m.nb8(
                        i as int,
                        kk,
                    )] == id,
                forall|j: int| 0 <= j < m.cells() && seen0[j] == id ==> #[trigger] seen@[j] == id,
            decreases 8 - k,
        {
            let ghost s_top = seen@;
            let (dx, dy) = dir8(k);
            let q = IVec::new(p.x + dx, p.y + dy);
            assert(!m.inb(q) ==> m.nb8(i as int, k as int) == -1);
            if self.inb(q) {
                let j = self.idx(q);
                assert(j == m.nb8(i as int, k as int));
                if !self.room_cell(j) && seen[j] != id {
                    let ghost s_pre = seen@;
                    let ghost b_pre = bnd@;
                    seen.set(j, id);
                    bnd.push(j as u32);
                    proof {
                        assert(!b_pre.contains(j as u32));
                        assert(m.bounds_room(r, id, j as int)) by {
                            assert(r[i as int] == id && m.nb8(i as int, k as int) == j);
                        }
                        assert forall|x: int| 0 <= x < m.cells() implies (#[trigger] seen@[x] == id <==> bnd@.contains(x as u32)) by {
                            if x != j {
                                assert(seen@[x] == s_pre[x]);
                                if bnd@.contains(x as u32) {
                                    let t = choose|t: int| 0 <= t < bnd@.len() && bnd@[t] == x as u32;
                                    if t < b_pre.len() {
                                        assert(b_pre[t] == x as u32);
                                    }
                                }
                                if b_pre.contains(x as u32) {
                                    let t = choose|t: int| 0 <= t < b_pre.len() && b_pre[t] == x as u32;
                                    assert(bnd@[t] == x as u32);
                                }
                            } else {
                                assert(bnd@[bnd@.len() - 1] == j as u32);
                            }
                        }
                        assert forall|t: int| 0 <= t < bnd@.len() implies m.bounds_room(r, id, #[trigger] bnd@[t] as int) by {
                            if t < b_pre.len() {
                                assert(bnd@[t] == b_pre[t]);
                            }
                        }
                        assert(bnd@.no_duplicates()) by {
                            assert forall|a: int, b: int| 0 <= a < bnd@.len() && 0 <= b < bnd@.len() && a != b implies bnd@[a]
                                != bnd@[b] by {
                                if a < b_pre.len() && b < b_pre.len() {
                                } else if a < b_pre.len() {
                                    assert(b_pre.contains(bnd@[a]));
                                } else if b < b_pre.len() {
                                    assert(b_pre.contains(bnd@[b]));
                                }
                            }
                        }
                    }
                }
            }
            proof {
                assert forall|kk: int|
                    0 <= kk < k + 1 && m.nb8(i as int, kk) >= 0 && !m.room_cell(#[trigger] m.nb8(i as int, kk)) implies seen@[m.nb8(
                        i as int,
                        kk,
                    )] == id by {
                    let x = m.nb8(i as int, kk);
                    if kk < k {
                        assert(s_top[x] == id);
                    }
                }
            }
            k += 1;
        }
    }
}


/// Room soundness reads only the grid's size, what is room floor, and the
/// room records.
proof fn lemma_rooms_frame(a: MapView, b: MapView)
    requires
        a.rooms_sound(),
        a.w == b.w,
        a.h == b.h,
        a.terrain_cost == b.terrain_cost,
        a.fix_block == b.fix_block,
        a.fix_door == b.fix_door,
        a.room == b.room,
        a.rooms == b.rooms,
        a.room_boundary == b.room_boundary,
    ensures
        b.rooms_sound(),
{
    lemma_rooms_with_frame(a, b, b.room, b.rooms, b.room_boundary);
}

/// Whether labels and records describe a map depends only on the grid's
/// size and what is room floor.
proof fn lemma_rooms_with_frame(a: MapView, b: MapView, r: Seq<u32>, rooms: Seq<Room>, bnd: Seq<Seq<u32>>)
    requires
        a.rooms_sound_with(r, rooms, bnd),
        a.w == b.w,
        a.h == b.h,
        a.terrain_cost == b.terrain_cost,
        a.fix_block == b.fix_block,
        a.fix_door == b.fix_door,
    ensures
        b.rooms_sound_with(r, rooms, bnd),
{
    assert forall|i: int| 0 <= i < b.cells() implies (#[trigger] r[i] == 0 <==> !b.room_cell(i)) by {
        assert(r[i] == 0 <==> !a.room_cell(i));
    }
    assert forall|i: int, j: int|
        #![trigger r[i], r[j]]
        b.adjacent4(i, j) && b.room_cell(i) && b.room_cell(j) implies r[i] == r[j] by {
        assert(a.adjacent4(i, j));
    }
    assert forall|k: int| 0 <= k < rooms.len() implies #[trigger] b.room_ok(r, rooms, bnd, k) by {
        assert(a.room_ok(r, rooms, bnd, k));
        let id = (k + 1) as u32;
        let bk = bnd[k];
        assert forall|j: int| #[trigger] b.bounds_room(r, id, j) <==> a.bounds_room(r, id, j) by {
            if b.bounds_room(r, id, j) {
                let (i, kk) = choose|i: int, kk: int|
                    #![trigger r[i], b.nb8(i, kk)]
                    0 <= i < b.cells() && 0 <= kk < 8 && r[i] == id && b.nb8(i, kk) == j;
                assert(a.nb8(i, kk) == j);
            }
            if a.bounds_room(r, id, j) {
                let (i, kk) = choose|i: int, kk: int|
                    #![trigger r[i], a.nb8(i, kk)]
                    0 <= i < a.cells() && 0 <= kk < 8 && r[i] == id && a.nb8(i, kk) == j;
                assert(b.nb8(i, kk) == j);
            }
        }
        assert forall|t: int| 0 <= t < bk.len() implies b.bounds_room(r, id, #[trigger] bk[t] as int) by {
            assert(a.bounds_room(r, id, bk[t] as int));
        }
        if rooms[k].touches_edge {
            let i = choose|i: int| 0 <= i < a.cells() && #[trigger] r[i] == id && a.on_edge(i);
            assert(b.on_edge(i));
        }
        if exists|i: int| 0 <= i < b.cells() && #[trigger] r[i] == id && b.on_edge(i) {
            let i = choose|i: int| 0 <= i < b.cells() && #[trigger] r[i] == id && b.on_edge(i);
            assert(a.on_edge(i));
        }
    }
}


/// What each boundary list holds.
pub open spec fn bnd_views(b: Seq<Vec<u32>>) -> Seq<Seq<u32>> {
    b.map_values(|v: Vec<u32>| v@)
}

impl TileMap {
    /// Labels room floor with room ids, in order of each room's first cell,
    /// and counts, edges and encloses each room as it fills.
    fn flood_rooms(&self) -> (res: (Vec<u32>, Vec<Room>, Vec<Vec<u32>>))
        requires
            self.wf(),
        ensures
            self.view().rooms_sound_with(res.0@, res.1@, bnd_views(res.2@)),
    {
        let ghost m = self.view();
        let n = (self.w * self.h) as usize;
        let mut room = filled(0u32, n);
        let mut seen = filled(0u32, n);
        let mut rooms: Vec<Room> = Vec::new();
        let mut bnds: Vec<Vec<u32>> = Vec::new();
        let mut stack: Vec<usize> = Vec::new();
        let mut start: usize = 0;
        while start < n
            invariant
                self.wf(),
                m == self.view(),
                n == m.cells(),
                start <= n,
                room@.len() == n,
                seen@.len() == n,
                rooms@.len() == bnds@.len(),
                rooms@.len() <= start,
                stack@.len() == 0,
                forall|i: int| 0 <= i < n ==> #[trigger] room@[i] != 0 ==> m.room_cell(i),
                forall|i: int| 0 <= i < n ==> #[trigger] room@[i] <= rooms@.len(),
                forall|j: int| 0 <= j < n ==> #[trigger] seen@[j] <= rooms@.len(),
                forall|i: int| 0 <= i < start && m.room_cell(i) ==> #[trigger] room@[i] != 0,
                forall|i: int| 0 <= i < n && #[trigger] room@[i] != 0 ==> m.room_closed(room@, i),
                forall|k: int|
                    0 <= k < rooms@.len() ==> #[trigger] m.room_ok(room@, rooms@, bnd_views(bnds@), k),
            decreases n - start,
        {
            if room[start] != 0 || !self.room_cell(start) {
                start += 1;
                continue;
            }
            let id: u32 = rooms.len() as u32 + 1;
            let ghost r0 = room@;
            let ghost gb = bnd_views(bnds@);
            proof {
                lemma_count_eq_zero(r0, id, n as int);
                assert forall|x: int| 0 <= x < n && #[trigger] room@[x] != 0 implies !m.adjacent4(x, start as int) by {
                    if m.adjacent4(x, start as int) {
                        assert(m.room_closed(room@, x));
                    }
                }
            }
            room.set(start, id);
            stack.push(start);
            proof {
                lemma_count_eq_update(r0, id, n as int, start as int, id);
                assert(stack@[0] == start);
                assert forall|x: int|
                    0 <= x < n && #[trigger] room@[x] != 0 && !stack@.contains(x as usize) implies m.room_closed(room@, x) by {
                    if x != start {
                        assert(r0[x] != 0);
                        assert(m.room_closed(r0, x));
                        assert forall|j: int| #[trigger] m.adjacent4(x, j) && m.room_cell(j) implies room@[j] == room@[x] by {
                            if j == start {
                                assert(m.adjacent4(start as int, x)) by {
                                    lemma_pos_idx(m.w, m.h, x);
                                    lemma_pos_idx(m.w, m.h, j);
                                }
                            }
                        }
                    }
                }
                assert forall|x: int| 0 <= x < n && #[trigger] room@[x] == id implies x == start by {
                    if x != start {
                        assert(r0[x] <= rooms@.len());
                    }
                }
            }
            let mut cells: u32 = 0;
            let mut touches = false;
            let mut bnd: Vec<u32> = Vec::new();
            while stack.len() > 0
                invariant
                    self.wf(),
                    m == self.view(),
                    n == m.cells(),
                    start < n,
                    room@.len() == n,
                    r0.len() == n,
                    id == rooms@.len() + 1,
                    rooms@.len() == bnds@.len(),
                    rooms@.len() <= start,
                    gb == bnd_views(bnds@),
                    room@[start as int] == id,
                    forall|x: int| 0 <= x < n ==> #[trigger] r0[x] <= rooms@.len(),
                    forall|x: int| 0 <= x < n && r0[x] != 0 ==> #[trigger] room@[x] == r0[x],
                    forall|x: int| 0 <= x < n && #[trigger] room@[x] != r0[x] ==> r0[x] == 0 && room@[x] == id,
                    forall|k: int| 0 <= k < rooms@.len() ==> #[trigger] m.room_ok(r0, rooms@, gb, k),
                    forall|i: int| 0 <= i < n ==> #[trigger] room@[i] != 0 ==> m.room_cell(i),
                    forall|i: int| 0 <= i < start && m.room_cell(i) ==> #[trigger] room@[i] != 0,
                    forall|q: int| 0 <= q < stack@.len() ==> #[trigger] stack@[q] < n && room@[stack@[q] as int] == id,
                    stack@.no_duplicates(),
                    forall|i: int|
                        0 <= i < n && #[trigger] room@[i] != 0 && !stack@.contains(i as usize) ==> m.room_closed(room@, i),
                    m.bnd_ok(room@, id, seen@, bnd@),
                    forall|x: int|
                        0 <= x < n && #[trigger] room@[x] == id && !stack@.contains(x as usize) ==> m.bnd_closed(x, id, seen@),
                    cells + stack@.len() == count_eq(room@, id, n as int),
                    cells + stack@.len() >= 1,
                    touches <==> exists|x: int|
                        0 <= x < n && #[trigger] room@[x] == id && !stack@.contains(x as usize) && m.on_edge(x),
                decreases n - count_labelled(room@, n as int), stack@.len(),
            {
                let ghost s0 = stack@;
                let ghost before = room@;
                let ghost seen_b = seen@;
                let ghost touched_b = touches;
                let i = stack.pop().unwrap();
                let ghost s1 = stack@;
                assert(s0 == s1.push(i));
                proof {
                    lemma_count_eq_bound(before, id, n as int);
                    assert(!s1.contains(i)) by {
                        if s1.contains(i) {
                            let q = choose|q: int| 0 <= q < s1.len() && s1[q] == i;
                            assert(s0[q] == s0[s0.len() - 1]);
                        }
                    }
                    assert(s1.no_duplicates()) by {
                        assert forall|a: int, b: int| 0 <= a < s1.len() && 0 <= b < s1.len() && a != b implies s1[a] != s1[b] by {
                            assert(s1[a] == s0[a] && s1[b] == s0[b]);
                        }
                    }
                    assert forall|q: int| 0 <= q < s1.len() implies #[trigger] s1[q] < n && before[s1[q] as int] == id by {
                        assert(s1[q] == s0[q]);
                    }
                }
                cells += 1;
                let p = self.pos(i);
                let edge = p.x == 0 || p.y == 0 || p.x == self.w - 1 || p.y == self.h - 1;
                if edge {
                    touches = true;
                }
                assert(edge == m.on_edge(i as int));
                self.mark_boundary(i, id, &mut seen, &mut bnd, Ghost(room@));
                let ghost seen_m = seen@;
                proof {
                    lemma_nb_adjacent(m, i as int, 0);
                    lemma_count_labelled_bound(before, n as int);
                }
                let mut k: usize = 0;
                while k < 4
                    invariant
                        self.wf(),
                        m == self.view(),
                        n == m.cells(),
                        i < n,
                        1 <= id,
                        p.x == m.pos_x(i as int) && p.y == m.pos_y(i as int),
                        m.inb(p),
                        k <= 4,
                        room@.len() == n,
                        before.len() == n,
                        room@[i as int] == id,
                        forall|x: int| 0 <= x < n ==> #[trigger] room@[x] != 0 ==> m.room_cell(x),
                        forall|x: int| 0 <= x < n && before[x] != 0 ==> #[trigger] room@[x] == before[x],
                        forall|x: int|
                            0 <= x < n && #[trigger] room@[x] != before[x] ==> before[x] == 0 && room@[x] == id
                                && stack@.contains(x as usize),
                        forall|x: usize| s1.contains(x) ==> #[trigger] stack@.contains(x),
                        forall|q: int|
                            0 <= q < stack@.len() ==> s1.contains(#[trigger] stack@[q]) || before[stack@[q] as int] == 0,
                        forall|kk: int|
                            0 <= kk < k && m.nb(i as int, kk) >= 0 && m.room_cell(m.nb(i as int, kk)) ==> #[trigger] room@[m.nb(
                                i as int,
                                kk,
                            )] == id,
                        forall|q: int| 0 <= q < stack@.len() ==> #[trigger] stack@[q] < n && room@[stack@[q] as int] == id,
                        stack@.no_duplicates(),
                        cells + stack@.len() == count_eq(room@, id, n as int),
                        count_labelled(room@, n as int) >= count_labelled(before, n as int),
                        stack@.len() <= s1.len() + count_labelled(room@, n as int) - count_labelled(before, n as int),
                        s0 == s1.push(i),
                        before[i as int] == id,
                        forall|kk: int| 0 <= kk < 4 && m.nb(i as int, kk) >= 0 ==> #[trigger] m.adjacent4(i as int, m.nb(i as int, kk)),
                        forall|q: int| 0 <= q < s1.len() ==> #[trigger] s1[q] < n && before[s1[q] as int] == id,
                        forall|x: int|
                            0 <= x < n && #[trigger] before[x] != 0 && !s0.contains(x as usize) ==> m.room_closed(before, x),
                    decreases 4 - k,
                {
                    let (dx, dy) = dir4(k);
                    let q = IVec::new(p.x + dx, p.y + dy);
                    assert(!m.inb(q) ==> m.nb(i as int, k as int) == -1);
                    if self.inb(q) {
                        let j = self.idx(q);
                        assert(j == m.nb(i as int, k as int));
                        proof {
                            if room@[j as int] != 0 && m.room_cell(j as int) {
                                if before[j as int] == 0 {
                                    assert(room@[j as int] == id);
                                } else if j == i {
                                } else if s0.contains(j as usize) {
                                    let q = choose|q: int| 0 <= q < s0.len() && s0[q] == j as usize;
                                    if q < s1.len() {
                                        assert(s1[q] == j);
                                    }
                                } else {
                                    assert(m.adjacent4(i as int, j as int));
                                    assert(m.adjacent4(j as int, i as int)) by {
                                        lemma_pos_idx(m.w, m.h, i as int);
                                        lemma_pos_idx(m.w, m.h, j as int);
                                    }
                                    assert(m.room_closed(before, j as int));
                                    assert(before[i as int] == before[j as int]);
                                }
                            }
                        }
                        if room[j] == 0 && self.room_cell(j) {
                            proof {
                                lemma_count_labelled_grows(room@, n as int, j as int, id);
                                lemma_count_eq_update(room@, id, n as int, j as int, id);
                                assert(!stack@.contains(j)) by {
                                    if stack@.contains(j) {
                                        let q = choose|q: int| 0 <= q < stack@.len() && stack@[q] == j;
                                        assert(room@[stack@[q] as int] == id);
                                    }
                                }
                            }
                            let ghost st = stack@;
                            let ghost rb = room@;
                            assert(forall|kk: int|
                                0 <= kk < k && m.nb(i as int, kk) >= 0 && m.room_cell(m.nb(i as int, kk)) ==> #[trigger] rb[m.nb(
                                    i as int,
                                    kk,
                                )] == id);
                            room.set(j, id);
                            assert(room@[m.nb(i as int, k as int)] == id);
                            assert forall|kk: int|
                                0 <= kk < k && m.nb(i as int, kk) >= 0 && m.room_cell(m.nb(i as int, kk)) implies #[trigger] room@[m.nb(
                                i as int,
                                kk,
                            )] == id by {
                                let t = m.nb(i as int, kk);
                                assert(rb[t] == id);
                                assert(room@ == rb.update(j as int, id));
                                if t == j as int {
                                } else {
                                    assert(m.adjacent4(i as int, t));
                                    assert(room@[t] == rb[t]);
                                }
                            }
                            stack.push(j);
                            proof {
                                assert(stack@[stack@.len() - 1] == j);
                                assert(before[j as int] == 0);
                                assert forall|x: usize| st.contains(x) implies #[trigger] stack@.contains(x) by {
                                    let q = choose|q: int| 0 <= q < st.len() && st[q] == x;
                                    assert(stack@[q] == x);
                                }
                                assert forall|q: int| 0 <= q < stack@.len() implies s1.contains(#[trigger] stack@[q])
                                    || before[stack@[q] as int] == 0 by {
                                    if q < st.len() {
                                        assert(stack@[q] == st[q]);
                                    }
                                }
                                assert(stack@.no_duplicates()) by {
                                    assert forall|a: int, b: int|
                                        0 <= a < stack@.len() && 0 <= b < stack@.len() && a != b implies stack@[a] != stack@[b] by {
                                        if a < st.len() && b < st.len() {
                                            assert(stack@[a] == st[a] && stack@[b] == st[b]);
                                        } else if a < st.len() {
                                            assert(stack@[a] == st[a]);
                                            assert(st.contains(stack@[a]));
                                        } else if b < st.len() {
                                            assert(stack@[b] == st[b]);
                                            assert(st.contains(stack@[b]));
                                        }
                                    }
                                }
                                assert forall|x: int|
                                    0 <= x < n && #[trigger] room@[x] != before[x] implies before[x] == 0 && room@[x] == id
                                        && stack@.contains(x as usize) by {
                                    if x != j {
                                        assert(rb[x] != before[x]);
                                        assert(st.contains(x as usize));
                                    }
                                }
                            }
                        }
                    }
                    k += 1;
                }
                proof {
                    lemma_count_labelled_bound(room@, n as int);
                    assert(m.room_closed(room@, i as int)) by {
                        assert forall|j: int| #[trigger] m.adjacent4(i as int, j) && m.room_cell(j) implies room@[j]
                            == room@[i as int] by {
                            lemma_nb_adjacent(m, i as int, j);
                            let kk = choose|kk: int| 0 <= kk < 4 && #[trigger] m.nb(i as int, kk) == j;
                            assert(room@[m.nb(i as int, kk)] == id);
                        }
                    }
                    // cells no longer on the stack, and what they are known to be
                    assert forall|x: int| 0 <= x < n && #[trigger] room@[x] != 0 && !stack@.contains(x as usize) implies
                        before[x] == room@[x] && !s1.contains(x as usize) by {
                        if s1.contains(x as usize) {
                            assert(stack@.contains(x as usize));
                        }
                    }
                    assert forall|x: int|
                        0 <= x < n && #[trigger] room@[x] != 0 && !stack@.contains(x as usize) implies m.room_closed(room@, x) by {
                        if x != i {
                            assert(before[x] != 0);
                            assert(!s1.contains(x as usize));
                            assert(!s0.contains(x as usize)) by {
                                if s0.contains(x as usize) {
                                    let q = choose|q: int| 0 <= q < s0.len() && s0[q] == x as usize;
                                    if q < s1.len() {
                                        assert(s1[q] == x as usize);
                                    }
                                }
                            }
                            assert(m.room_closed(before, x));
                            assert forall|j: int| #[trigger] m.adjacent4(x, j) && m.room_cell(j) implies room@[j] == room@[x] by {
                                assert(before[j] == before[x]);
                            }
                        }
                    }
                    lemma_bnd_ok_grow(m, before, room@, id, seen@, bnd@);
                    assert forall|x: int|
                        0 <= x < n && #[trigger] room@[x] == id && !stack@.contains(x as usize) implies m.bnd_closed(x, id, seen@) by {
                        if x != i {
                            assert(before[x] == id);
                            assert(!s1.contains(x as usize));
                            assert(!s0.contains(x as usize)) by {
                                if s0.contains(x as usize) {
                                    let q = choose|q: int| 0 <= q < s0.len() && s0[q] == x as usize;
                                    if q < s1.len() {
                                        assert(s1[q] == x as usize);
                                    }
                                }
                            }
                            assert(m.bnd_closed(x, id, seen_b));
                            lemma_nb8_in(m, x);
                        }
                    }
                    assert(!stack@.contains(i)) by {
                        if stack@.contains(i) {
                            let q = choose|q: int| 0 <= q < stack@.len() && stack@[q] == i;
                            assert(s1.contains(stack@[q]) || before[stack@[q] as int] == 0);
                        }
                    }
                    if touches {
                        if touched_b {
                            let x = choose|x: int|
                                0 <= x < n && #[trigger] before[x] == id && !s0.contains(x as usize) && m.on_edge(x);
                            assert(room@[x] == id);
                            assert(!s1.contains(x as usize)) by {
                                if s1.contains(x as usize) {
                                    let q = choose|q: int| 0 <= q < s1.len() && s1[q] == x as usize;
                                    assert(s0[q] == x as usize);
                                }
                            }
                            assert(!stack@.contains(x as usize)) by {
                                if stack@.contains(x as usize) {
                                    let q = choose|q: int| 0 <= q < stack@.len() && stack@[q] == x as usize;
                                    assert(s1.contains(stack@[q]) || before[stack@[q] as int] == 0);
                                }
                            }
                        } else {
                            assert(m.on_edge(i as int));
                            assert(room@[i as int] == id);
                        }
                    }
                    if exists|x: int| 0 <= x < n && #[trigger] room@[x] == id && !stack@.contains(x as usize) && m.on_edge(x) {
                        let x = choose|x: int| 0 <= x < n && #[trigger] room@[x] == id && !stack@.contains(x as usize) && m.on_edge(x);
                        assert(before[x] == id);
                        assert(!s1.contains(x as usize));
                        if x != i {
                            assert(!s0.contains(x as usize)) by {
                                if s0.contains(x as usize) {
                                    let q = choose|q: int| 0 <= q < s0.len() && s0[q] == x as usize;
                                    if q < s1.len() {
                                        assert(s1[q] == x as usize);
                                    }
                                }
                            }
                            assert(touched_b);
                        }
                    }
                    assert forall|x: int| 0 <= x < n && #[trigger] room@[x] != r0[x] implies r0[x] == 0 && room@[x] == id by {
                        if room@[x] != before[x] {
                        } else {
                            assert(before[x] != r0[x]);
                        }
                    }
                }
            }
            proof {
                assert forall|k: int| 0 <= k < rooms@.len() implies #[trigger] m.room_ok(room@, rooms@, gb, k) by {
                    assert forall|x: int| 0 <= x < m.cells() implies (r0[x] == (k + 1) as u32) == (#[trigger] room@[x] == (k
                        + 1) as u32) by {
                        if room@[x] != r0[x] {
                            assert(r0[x] == 0 && room@[x] == id);
                        }
                    }
                    lemma_room_ok_stable(m, r0, room@, rooms@, gb, k);
                }
            }
            let ghost bnd_v = bnd@;
            let ghost rooms_pre = rooms@;
            rooms.push(Room { id, cells, touches_edge: touches });
            bnds.push(bnd);
            proof {
                let gb2 = bnd_views(bnds@);
                assert(gb2 =~= gb.push(bnd_v));
                assert(stack@ =~= Seq::<usize>::empty());
                assert forall|k: int| 0 <= k < rooms@.len() implies #[trigger] m.room_ok(room@, rooms@, gb2, k) by {
                    if k < rooms_pre.len() {
                        assert(m.room_ok(room@, rooms_pre, gb, k));
                        assert(rooms@[k] == rooms_pre[k]);
                        assert(gb2[k] == gb[k]);
                    } else {
                        assert(k + 1 == id);
                        assert(rooms@[k] == Room { id, cells, touches_edge: touches });
                        assert(gb2[k] == bnd_v);
                        if touches {
                            let x = choose|x: int| 0 <= x < n && #[trigger] room@[x] == id && !stack@.contains(x as usize) && m.on_edge(x);
                        }
                        if exists|x: int| 0 <= x < n && #[trigger] room@[x] == id && m.on_edge(x) {
                            let x = choose|x: int| 0 <= x < n && #[trigger] room@[x] == id && m.on_edge(x);
                            assert(!stack@.contains(x as usize));
                        }
                        assert forall|j: int| #[trigger] m.bounds_room(room@, id, j) implies bnd_v.contains(j as u32) by {
                            let (c, kk) = choose|c: int, kk: int|
                                #![trigger room@[c], m.nb8(c, kk)]
                                0 <= c < m.cells() && 0 <= kk < 8 && room@[c] == id && m.nb8(c, kk) == j;
                            assert(!stack@.contains(c as usize));
                            assert(m.bnd_closed(c, id, seen@));
                            assert(seen@[j] == id);
                        }
                    }
                }
                assert forall|x: int| 0 <= x < n implies #[trigger] room@[x] <= rooms@.len() by {
                    if room@[x] != r0[x] {
                    }
                }
                assert forall|i: int| 0 <= i < n && #[trigger] room@[i] != 0 implies m.room_closed(room@, i) by {
                    assert(!stack@.contains(i as usize));
                }
            }
            start += 1;
        }
        proof {
            let gbf = bnd_views(bnds@);
            assert forall|i: int, j: int|
                #![trigger room@[i], room@[j]]
                m.adjacent4(i, j) && m.room_cell(i) && m.room_cell(j) implies room@[i] == room@[j] by {
                assert(room@[i] != 0);
                assert(m.room_closed(room@, i));
            }
        }
        (room, rooms, bnds)
    }

    /// Rebuild rooms if a wall, door or terrain changed since the last call;
    /// the labels from before the rebuild are kept as the previous ones.
    pub fn ensure_rooms(&mut self)
        requires
            old(self).wf(),
        ensures
            final(self).wf(),
            !final(self).view().rooms_dirty,
            final(self).view().rooms_sound(),
            !old(self).view().rooms_dirty ==> final(self).view() == old(self).view(),
            old(self).view().rooms_dirty ==> final(self).view() == (MapView {
                room: final(self).view().room,
                rooms: final(self).view().rooms,
                room_boundary: final(self).view().room_boundary,
                prev_room: old(self).view().room,
                rooms_dirty: false,
                room_rebuilds: bump(old(self).view().room_rebuilds),
                ..old(self).view()
            }),
    {
        if !self.rooms_dirty {
            return;
        }
        let ghost v = self.view();
        let (room, rooms, bnds) = self.flood_rooms();
        let mut prev = room;
        std::mem::swap(&mut self.room, &mut prev);
        self.prev_room = prev;
        self.rooms = rooms;
        self.room_boundary = bnds;
        self.rooms_dirty = false;
        self.room_rebuilds = self.room_rebuilds.wrapping_add(1);
        proof {
            if !v.regions_dirty {
                lemma_sound_frame(v, self.view());
            }
            lemma_rooms_with_frame(v, self.view(), self.room@, self.rooms@, bnd_views(self.room_boundary@));
            let fv = self.view();
            assert forall|k: int| 0 <= k < self.rooms@.len() implies (#[trigger] self.rooms@[k]).id == k + 1 by {
                assert(fv.room_ok(fv.room, fv.rooms, fv.room_boundary, k));
            }
            assert(self.room_boundary@.len() == bnd_views(self.room_boundary@).len());
        }
    }
}

} // verus!
