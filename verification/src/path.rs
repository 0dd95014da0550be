//! A* over the tile grid: a search for a walk to a goal, and the goals.
use vstd::prelude::*;
use crate::IVec;
use crate::map::{TileMap, MapView, count_eq, dir8, lemma_count_eq_bound, lemma_count_eq_update, lemma_count_eq_zero};
use crate::world::Faction;

verus! {

#[derive(Clone, Copy, PartialEq, Eq, Debug, Structural)]
pub enum Goal {
    /// Stand on this cell.
    Cell(IVec),
    /// Stand on or next to this cell (to work on it, attack it, etc.).
    Touch(IVec),
}

/// The cell a goal is about.
pub open spec fn goal_target(g: Goal) -> IVec {
    match g {
        Goal::Cell(c) => c,
        Goal::Touch(c) => c,
    }
}

/// Standing at `p` meets the goal.
pub open spec fn goal_met(g: Goal, p: IVec) -> bool {
    match g {
        Goal::Cell(c) => p == c,
        Goal::Touch(c) => crate::chebyshev_spec(p, c) <= 1,
    }
}

/// Checking a goal at `p` stays within `i32`.
pub open spec fn goal_checkable(g: Goal, p: IVec) -> bool {
    match g {
        Goal::Cell(_) => true,
        Goal::Touch(c) => crate::fits_i32(p.x - c.x) && crate::fits_i32(p.y - c.y) && crate::abs_int(
            p.x - c.x,
        ) <= i32::MAX && crate::abs_int(p.y - c.y) <= i32::MAX,
    }
}

impl Goal {
    pub fn satisfied(self, p: IVec) -> (r: bool)
        requires
            goal_checkable(self, p),
        ensures
            r == goal_met(self, p),
    {
        match self {
            Goal::Cell(c) => p == c,
            Goal::Touch(c) => p.chebyshev(c) <= 1,
        }
    }

    pub fn target(self) -> (r: IVec)
        ensures
            r == goal_target(self),
    {
        match self {
            Goal::Cell(c) => c,
            Goal::Touch(c) => c,
        }
    }
}


/// `p` is on the map and `who` may step into it.
pub open spec fn open_at(m: MapView, who: Faction, p: IVec) -> bool {
    m.inb(p) && m.open_for(m.idx(p), who)
}

/// One king step from `a` to `b` that `who` may take: onto open ground,
/// and diagonally only when both cells beside the corner are open too.
pub open spec fn step_ok(m: MapView, who: Faction, a: IVec, b: IVec) -> bool {
    let dx = b.x - a.x;
    let dy = b.y - a.y;
    &&& -1 <= dx <= 1
    &&& -1 <= dy <= 1
    &&& !(dx == 0 && dy == 0)
    &&& open_at(m, who, b)
    &&& (dx != 0 && dy != 0) ==> open_at(m, who, IVec { x: b.x, y: a.y }) && open_at(m, who, IVec { x: a.x, y: b.y })
}

/// `path` read from its last entry back to its first is a walk from
/// `start`: each cell one step from the one before it.
pub open spec fn route_ok(m: MapView, who: Faction, start: IVec, path: Seq<IVec>) -> bool {
    forall|t: int|
        0 <= t < path.len() ==> step_ok(m, who, if t + 1 == path.len() { start } else { path[t + 1] }, #[trigger] path[t])
}

/// Where a route ends: its first entry, or `start` for an empty one.
pub open spec fn route_end(start: IVec, path: Seq<IVec>) -> IVec {
    if path.len() == 0 { start } else { path[0] }
}

/// How far, along one axis, the map's cells `0..len` reach from `t`: the
/// farther of its two ends.
pub open spec fn far_along(len: int, t: int) -> int {
    crate::max_int(crate::abs_int(t), crate::abs_int(len - 1 - t))
}

/// The goal lies near enough the map that distances to it fit the search's
/// arithmetic: from every cell, the difference of coordinates fits in an
/// `i32` and the octile distance in a `u32` (the farthest corner decides).
pub open spec fn goal_in_range(m: MapView, goal: Goal) -> bool {
    let t = goal_target(goal);
    let fx = far_along(m.w as int, t.x as int);
    let fy = far_along(m.h as int, t.y as int);
    &&& fx <= i32::MAX
    &&& fy <= i32::MAX
    &&& 10 * crate::max_int(fx, fy) + 4 * crate::min_int(fx, fy) <= u32::MAX
}

/// The cell at index `c`, as a point.
pub open spec fn cellpos(m: MapView, c: int) -> IVec {
    IVec { x: m.pos_x(c) as i32, y: m.pos_y(c) as i32 }
}

/// The cell one king step from `cp` in direction `k` (see `dir8`).
pub open spec fn nb_at(cp: IVec, k: int) -> IVec {
    IVec { x: (cp.x + crate::map::dir8_spec(k).0) as i32, y: (cp.y + crate::map::dir8_spec(k).1) as i32 }
}

/// The step from `cp` in direction `k` is one `who` may take: into open
/// ground, and on a diagonal past two open corners.
pub open spec fn step_open(m: MapView, who: Faction, cp: IVec, k: int) -> bool {
    let d = crate::map::dir8_spec(k);
    &&& open_at(m, who, nb_at(cp, k))
    &&& k >= 4 ==> open_at(m, who, IVec { x: (cp.x + d.0) as i32, y: cp.y }) && open_at(
        m,
        who,
        IVec { x: cp.x, y: (cp.y + d.1) as i32 },
    )
}

/// Movement cost, in percent, of an on-map cell.
pub open spec fn cell_cost(m: MapView, q: IVec) -> int {
    (if m.floor_cost[m.idx(q)] > 0 {
        m.floor_cost[m.idx(q)]
    } else {
        m.terrain_cost[m.idx(q)]
    }) + m.fix_cost[m.idx(q)]
}

/// What reaching the neighbour in direction `k` through `cp`, reached at
/// `cg`, costs: 10 a straight step and 14 a diagonal one, scaled by the
/// ground, and at least 1.
pub open spec fn via_cost(m: MapView, cp: IVec, cg: int, k: int) -> int {
    let c = (if k >= 4 { 14int } else { 10int }) * cell_cost(m, nb_at(cp, k)) / 100;
    cg + if c < 1 { 1 } else { c }
}

/// What stepping from `a` into the neighbouring cell `b` costs: 10 for a
/// straight step and 14 for a diagonal one, times the percent `b` costs to
/// enter, over 100; at least 1.
#[verifier::opaque]
pub open spec fn step_price(m: MapView, a: IVec, b: IVec) -> int {
    let base = if a.x != b.x && a.y != b.y { 14int } else { 10int };
    let c = base * cell_cost(m, b) / 100;
    if c < 1 { 1 } else { c }
}

/// What walking a route costs: the sum of its steps' prices, the route read
/// as `route_ok` reads it (from its last entry, stepped to from `start`, to
/// its first).
pub open spec fn route_cost(m: MapView, start: IVec, path: Seq<IVec>) -> int
    decreases path.len(),
{
    if path.len() == 0 {
        0
    } else {
        let rest = path.drop_first();
        route_cost(m, start, rest) + step_price(m, route_end(start, rest), path[0])
    }
}

/// Every cell of the map costs at least 100% to enter, so no step costs
/// less than the octile estimate says.
pub open spec fn costs_at_least_full(m: MapView) -> bool {
    forall|q: IVec| m.inb(q) ==> #[trigger] cell_cost(m, q) >= 100
}

/// Some route `who` can walk from `start` ends where the goal is met.
pub open spec fn route_exists(m: MapView, who: Faction, start: IVec, goal: Goal) -> bool {
    exists|path: Seq<IVec>| route_ok(m, who, start, path) && goal_met(goal, route_end(start, path))
}

/// The most cells a map can have for every search on it to be complete:
/// a step costs at most 18,349 (a diagonal step into the costliest
/// ground), and on this many cells no route's cost passes `u32::MAX`.
pub const SEARCH_CELLS_MAX: u32 = 200_000;

/// The most one step can cost.
pub open spec fn step_cost_max() -> int {
    18349
}

/// What `e` more expansions make of the counter `a` (wrapping).
pub open spec fn bumped_by(a: u64, e: int) -> u64 {
    if a + e > u64::MAX {
        (a + e - 0x1_0000_0000_0000_0000int) as u64
    } else {
        (a + e) as u64
    }
}

/// Open-list order: by estimate, then by when the entry was made.
pub open spec fn key_le(a: (u64, u64, u32), b: (u64, u64, u32)) -> bool {
    a.0 < b.0 || (a.0 == b.0 && a.1 <= b.1)
}

proof fn lemma_goal_fits(m: MapView, goal: Goal, p: IVec)
    requires
        m.inb(p),
        goal_in_range(m, goal),
    ensures
        goal_checkable(goal, p),
        crate::fits_i32(p.x - goal_target(goal).x),
        crate::fits_i32(p.y - goal_target(goal).y),
        crate::octile_spec(p, goal_target(goal)) <= u32::MAX,
{
    let t = goal_target(goal);
    let dx = crate::abs_int(p.x - t.x);
    let dy = crate::abs_int(p.y - t.y);
    let fx = far_along(m.w as int, t.x as int);
    let fy = far_along(m.h as int, t.y as int);
    // A cell's distance along an axis is no more than the farther end's.
    assert(dx <= fx && dy <= fy);
    assert(crate::octile_spec(p, t) == 10 * crate::max_int(dx, dy) + 4 * crate::min_int(dx, dy));
    assert(10 * crate::max_int(dx, dy) + 4 * crate::min_int(dx, dy) <= 10 * crate::max_int(fx, fy) + 4 * crate::min_int(fx, fy));
}

/// Takes the entry with the least estimate out of the open list; among
/// equal estimates, the one made first.
fn pop_min(heap: &mut Vec<(u64, u64, u32)>) -> (r: (u64, u64, u32))
    requires
        old(heap)@.len() > 0,
    ensures
        old(heap)@.contains(r),
        exists|b: int| 0 <= b < old(heap)@.len() && old(heap)@[b] == r && final(heap)@ == old(heap)@.remove(b),
        final(heap)@.len() == old(heap)@.len() - 1,
        forall|e: (u64, u64, u32)| final(heap)@.contains(e) ==> old(heap)@.contains(e),
        forall|t: int| 0 <= t < old(heap)@.len() ==> key_le(r, #[trigger] old(heap)@[t]),
{
    let ghost h0 = heap@;
    let mut best: usize = 0;
    let mut k: usize = 1;
    while k < heap.len()
        invariant
            heap@ == h0,
            h0.len() > 0,
            best < k <= h0.len(),
            forall|t: int| 0 <= t < k ==> key_le(h0[best as int], #[trigger] h0[t]),
        decreases h0.len() - k,
    {
        let e = heap[k];
        let b = heap[best];
        if e.0 < b.0 || (e.0 == b.0 && e.1 < b.1) {
            best = k;
        }
        k += 1;
    }
    let r = heap.remove(best);
    proof {
        assert(h0[best as int] == r);
        assert(heap@ == h0.remove(best as int));
        assert forall|e: (u64, u64, u32)| heap@.contains(e) implies h0.contains(e) by {
            let t = choose|t: int| 0 <= t < heap@.len() && heap@[t] == e;
            if t < best {
                assert(h0[t] == e);
            } else {
                assert(h0[t + 1] == e);
            }
        }
    }
    r
}

/// Sets every entry to 0.
fn zero_all(v: &mut Vec<u32>)
    ensures
        final(v)@.len() == old(v)@.len(),
        forall|i: int| 0 <= i < final(v)@.len() ==> #[trigger] final(v)@[i] == 0,
{
    let mut k: usize = 0;
    while k < v.len()
        invariant
            k <= v@.len(),
            v@.len() == old(v)@.len(),
            forall|i: int| 0 <= i < k ==> #[trigger] v@[i] == 0,
        decreases v@.len() - k,
    {
        v.set(k, 0);
        k += 1;
    }
}

/// A* search state. Scratch buffers are generation-stamped, so a search
/// allocates nothing beyond the returned path and its open list.
pub struct Pathfinder {
    g: Vec<u32>,
    parent: Vec<u32>,
    open_gen: Vec<u32>,
    closed_gen: Vec<u32>,
    gen: u32,
    /// Open entries: (estimate, order made, cell).
    heap: Vec<(u64, u64, u32)>,
    pub searches: u64,
    pub expanded: u64,
}

impl Default for Pathfinder {
    fn default() -> (r: Self)
        ensures
            r.wf(),
            r.searches_spec() == 0,
            r.expanded_spec() == 0,
    {
        Pathfinder {
            g: Vec::new(),
            parent: Vec::new(),
            open_gen: Vec::new(),
            closed_gen: Vec::new(),
            gen: 0,
            heap: Vec::new(),
            searches: 0,
            expanded: 0,
        }
    }
}

impl Pathfinder {
    /// Searches run so far (wrapping).
    pub closed spec fn searches_spec(&self) -> u64 {
        self.searches
    }

    /// Cells expanded so far over all searches (wrapping).
    pub closed spec fn expanded_spec(&self) -> u64 {
        self.expanded
    }

    /// The scratch buffers agree in size and no stamp is ahead of the
    /// current generation.
    pub closed spec fn wf(&self) -> bool {
        &&& self.parent@.len() == self.g@.len()
        &&& self.open_gen@.len() == self.g@.len()
        &&& self.closed_gen@.len() == self.g@.len()
        &&& forall|i: int| 0 <= i < self.g@.len() ==> #[trigger] self.open_gen@[i] <= self.gen
        &&& forall|i: int| 0 <= i < self.g@.len() ==> #[trigger] self.closed_gen@[i] <= self.gen
    }

    /// Cell `c` was reached from a finished cell one legal step away that
    /// costs strictly less to reach.
    closed spec fn parent_ok(&self, m: MapView, who: Faction, c: int) -> bool {
        let p = self.parent@[c] as int;
        &&& 0 <= p < m.cells()
        &&& self.closed_gen@[p] == self.gen
        &&& self.g@[p] < self.g@[c]
        &&& self.g@[c] == self.g@[p] + step_price(m, cellpos(m, p), cellpos(m, c))
        &&& step_ok(m, who, cellpos(m, p), cellpos(m, c))
    }

    /// The search's bookkeeping for this generation: the start is reached
    /// at no cost, finished cells were reached, every other reached cell has
    /// a parent as above, and the open list names reached cells.
    closed spec fn search_ok(&self, m: MapView, who: Faction, si: int) -> bool {
        let n = m.cells();
        &&& self.g@.len() == n
        &&& self.parent@.len() == n
        &&& self.open_gen@.len() == n
        &&& self.closed_gen@.len() == n
        &&& self.gen >= 1
        &&& forall|i: int| 0 <= i < n ==> #[trigger] self.open_gen@[i] <= self.gen
        &&& forall|i: int| 0 <= i < n ==> #[trigger] self.closed_gen@[i] <= self.gen
        &&& 0 <= si < n
        &&& self.open_gen@[si] == self.gen
        &&& self.g@[si] == 0
        &&& self.parent@[si] == si
        &&& forall|c: int| 0 <= c < n && #[trigger] self.closed_gen@[c] == self.gen ==> self.open_gen@[c] == self.gen
        &&& forall|c: int| 0 <= c < n && c != si && #[trigger] self.open_gen@[c] == self.gen ==> self.parent_ok(m, who, c)
        &&& forall|t: int| 0 <= t < self.heap@.len() ==> (#[trigger] self.heap@[t]).2 < n && self.open_gen@[self.heap@[t].2 as int] == self.gen
    }

    /// Follows parents from `ci` back to the start; the cells on the way,
    /// `ci` first, start left out.
    fn walk_back(&self, map: &TileMap, ci: usize, si: usize, Ghost(who): Ghost<Faction>, Ghost(start): Ghost<IVec>) -> (path: Vec<IVec>)
        requires
            map.wf(),
            self.search_ok(map.view(), who, si as int),
            ci < map.view().cells(),
            self.open_gen@[ci as int] == self.gen,
            si == map.view().idx(start),
            map.view().inb(start),
        ensures
            route_ok(map.view(), who, start, path@),
            route_end(start, path@) == cellpos(map.view(), ci as int),
            route_cost(map.view(), start, path@) == self.g@[ci as int],
    {
        let ghost m = map.view();
        let mut path: Vec<IVec> = Vec::new();
        let mut i = ci;
        while i != si
            invariant
                map.wf(),
                m == map.view(),
                self.search_ok(m, who, si as int),
                i < m.cells(),
                self.open_gen@[i as int] == self.gen,
                path@.len() == 0 ==> i == ci,
                route_cost(m, cellpos(m, i as int), path@) == self.g@[ci as int] - self.g@[i as int],
                path@.len() > 0 ==> path@[0] == cellpos(m, ci as int) && step_ok(m, who, cellpos(m, i as int), path@.last()),
                forall|t: int| 0 <= t < path@.len() - 1 ==> step_ok(m, who, path@[t + 1], #[trigger] path@[t]),
            decreases self.g@[i as int],
        {
            let p = map.pos(i);
            assert(self.parent_ok(m, who, i as int));
            let ghost before = path@;
            path.push(p);
            let next = self.parent[i] as usize;
            proof {
                assert(p == cellpos(m, i as int));
                lemma_route_cost_push(m, cellpos(m, next as int), before, p);
                assert(route_end(p, before) == if before.len() == 0 { p } else { before[0] });
                assert forall|t: int| 0 <= t < path@.len() - 1 implies step_ok(m, who, path@[t + 1], #[trigger] path@[t]) by {
                    if t + 1 < before.len() {
                        assert(path@[t] == before[t] && path@[t + 1] == before[t + 1]);
                    } else {
                        assert(path@[t] == before.last());
                    }
                }
            }
            i = next;
        }
        proof {
            lemma_start_pos(m, start);
            assert(cellpos(m, si as int) == start);
            assert(self.g@[si as int] == 0);
        }
        path
    }

    /// The neighbour of `cp` in direction `k` takes the way in through
    /// `cp`, reached at `cg`: a step `who` may take, into a cell not yet
    /// finished, within `u32`, and cheaper than any way in it has.
    closed spec fn takes(&self, m: MapView, who: Faction, cp: IVec, cg: int, k: int) -> bool {
        let qi = m.idx(nb_at(cp, k));
        &&& step_open(m, who, cp, k)
        &&& self.closed_gen@[qi] != self.gen
        &&& via_cost(m, cp, cg, k) <= u32::MAX
        &&& (self.open_gen@[qi] != self.gen || via_cost(m, cp, cg, k) < self.g@[qi])
    }

    /// The directions among the first `k` whose neighbours take the way in.
    closed spec fn taken(&self, m: MapView, who: Faction, cp: IVec, cg: int, k: int) -> Seq<int>
        decreases k,
    {
        if k <= 0 {
            Seq::empty()
        } else if self.takes(m, who, cp, cg, k - 1) {
            self.taken(m, who, cp, cg, k - 1).push(k - 1)
        } else {
            self.taken(m, who, cp, cg, k - 1)
        }
    }

    /// Each direction taken is below `k`, its neighbour takes the way in,
    /// and they come in order.
    proof fn lemma_taken(&self, m: MapView, who: Faction, cp: IVec, cg: int, k: int)
        requires
            k >= 0,
        ensures
            forall|j: int| 0 <= j < self.taken(m, who, cp, cg, k).len() ==> 0 <= #[trigger] self.taken(m, who, cp, cg, k)[j] < k
                && self.takes(m, who, cp, cg, self.taken(m, who, cp, cg, k)[j]),
        decreases k,
    {
        if k > 0 {
            self.lemma_taken(m, who, cp, cg, k - 1);
            let t = self.taken(m, who, cp, cg, k - 1);
            assert forall|j: int| 0 <= j < self.taken(m, who, cp, cg, k).len() implies 0 <= #[trigger] self.taken(m, who, cp, cg, k)[j] < k
                && self.takes(m, who, cp, cg, self.taken(m, who, cp, cg, k)[j]) by {
                if j < t.len() {
                    assert(self.taken(m, who, cp, cg, k)[j] == t[j]);
                }
            }
        }
    }

    /// After the first `k` directions, the way in through `cp` (cell `ci`,
    /// reached at `cg`) is what each neighbour that took it has: the new cost,
    /// `ci` as its parent and a place on the open list, made after those
    /// already there, in direction order, the order counter running on from
    /// `seq`. Every other cell is as it was in `pre`.
    #[verifier::opaque]
    closed spec fn relaxed(&self, pre: Pathfinder, m: MapView, who: Faction, ci: int, cp: IVec, cg: int, seq: int, target: IVec, k: int) -> bool {
        let t = pre.taken(m, who, cp, cg, k);
        let h = pre.heap@.len();
        &&& self.heap@.len() == h + t.len()
        &&& forall|j: int| 0 <= j < h ==> #[trigger] self.heap@[j] == pre.heap@[j]
        &&& forall|j: int|
            0 <= j < t.len() ==> {
                let q = nb_at(cp, #[trigger] t[j]);
                let qi = m.idx(q);
                let ng = via_cost(m, cp, cg, t[j]);
                &&& self.g@[qi] == ng && self.parent@[qi] == ci && self.open_gen@[qi] == pre.gen
                &&& self.heap@[h + j] == ((ng + crate::octile_spec(q, target)) as u64, (seq + j + 1) as u64, qi as u32)
            }
        &&& forall|c: int|
            0 <= c < m.cells() && (forall|j: int| 0 <= j < t.len() ==> m.idx(nb_at(cp, #[trigger] t[j])) != c) ==> {
                &&& self.g@[c] == pre.g@[c]
                &&& self.parent@[c] == pre.parent@[c]
                &&& self.open_gen@[c] == pre.open_gen@[c]
            }
    }

    /// Nothing changes for a direction whose neighbour doesn't take the way in.
    proof fn lemma_relaxed_skip(&self, o: Pathfinder, m: MapView, who: Faction, ci: int, cp: IVec, cg: int, seq: int, target: IVec, k: int)
        requires
            k >= 0,
            self.relaxed(o, m, who, ci, cp, cg, seq, target, k),
            !o.takes(m, who, cp, cg, k),
        ensures
            self.relaxed(o, m, who, ci, cp, cg, seq, target, k + 1),
            o.taken(m, who, cp, cg, k + 1) == o.taken(m, who, cp, cg, k),
    {
        reveal(Pathfinder::relaxed);
    }

    /// A cell no neighbour taken so far is, is as it was.
    proof fn lemma_relaxed_fresh(&self, o: Pathfinder, m: MapView, who: Faction, ci: int, cp: IVec, cg: int, seq: int, target: IVec, k: int, c: int)
        requires
            self.relaxed(o, m, who, ci, cp, cg, seq, target, k),
            0 <= c < m.cells(),
            forall|j: int| 0 <= j < o.taken(m, who, cp, cg, k).len() ==> m.idx(nb_at(cp, #[trigger] o.taken(m, who, cp, cg, k)[j])) != c,
        ensures
            self.g@[c] == o.g@[c],
            self.parent@[c] == o.parent@[c],
            self.open_gen@[c] == o.open_gen@[c],
            self.heap@.len() == o.heap@.len() + o.taken(m, who, cp, cg, k).len(),
    {
        reveal(Pathfinder::relaxed);
    }

    /// Nothing has changed before the first direction.
    proof fn lemma_relaxed_start(&self, m: MapView, who: Faction, ci: int, cp: IVec, cg: int, seq: int, target: IVec)
        ensures
            self.relaxed(*self, m, who, ci, cp, cg, seq, target, 0),
    {
        reveal(Pathfinder::relaxed);
    }

    /// The neighbour in direction `k` took the way in: `self` is `pre` with
    /// its new cost, parent and open-list entry.
    proof fn lemma_relaxed_take(&self, pre: Pathfinder, o: Pathfinder, m: MapView, who: Faction, ci: int, cp: IVec, cg: int, seq: int, target: IVec, k: int, qi: int, ng: int)
        requires
            k >= 0,
            pre.relaxed(o, m, who, ci, cp, cg, seq, target, k),
            o.takes(m, who, cp, cg, k),
            qi == m.idx(nb_at(cp, k)),
            0 <= qi < pre.g@.len(),
            pre.g@.len() == m.cells(),
            0 <= ci < m.cells() <= i32::MAX,
            0 <= cg,
            pre.g@.len() == pre.parent@.len() && pre.g@.len() == pre.open_gen@.len(),
            ng == via_cost(m, cp, cg, k),
            forall|j: int| 0 <= j < o.taken(m, who, cp, cg, k).len() ==> m.idx(nb_at(cp, #[trigger] o.taken(m, who, cp, cg, k)[j])) != qi,
            self.g@ == pre.g@.update(qi, ng as u32),
            self.parent@ == pre.parent@.update(qi, ci as u32),
            self.open_gen@ == pre.open_gen@.update(qi, o.gen),
            self.heap@ == pre.heap@.push(
                ((ng + crate::octile_spec(nb_at(cp, k), target)) as u64, (seq + o.taken(m, who, cp, cg, k).len() + 1) as u64, qi as u32),
            ),
        ensures
            self.relaxed(o, m, who, ci, cp, cg, seq, target, k + 1),
            o.taken(m, who, cp, cg, k + 1) == o.taken(m, who, cp, cg, k).push(k),
    {
        reveal(Pathfinder::relaxed);
        let t = o.taken(m, who, cp, cg, k);
        let t1 = t.push(k);
        o.lemma_taken(m, who, cp, cg, k);
        let hl = o.heap@.len();
        assert(pre.heap@.len() == hl + t.len());
        assert forall|j: int| 0 <= j < hl implies #[trigger] self.heap@[j] == o.heap@[j] by {
            assert(self.heap@[j] == pre.heap@[j]);
        }
        assert forall|j: int| 0 <= j < t1.len() implies {
            let qq = nb_at(cp, #[trigger] t1[j]);
            let qqi = m.idx(qq);
            let ng2 = via_cost(m, cp, cg, t1[j]);
            &&& self.g@[qqi] == ng2 && self.parent@[qqi] == ci && self.open_gen@[qqi] == o.gen
            &&& self.heap@[hl + j] == ((ng2 + crate::octile_spec(qq, target)) as u64, (seq + j + 1) as u64, qqi as u32)
        } by {
            if j < t.len() {
                assert(t1[j] == t[j]);
                assert(o.takes(m, who, cp, cg, t[j]));
                lemma_pos_of_idx(m, nb_at(cp, t[j]));
                assert(m.idx(nb_at(cp, t[j])) != qi);
                assert(self.heap@[hl + j] == pre.heap@[hl + j]);
            } else {
                assert(t1[j] == k);
                assert(self.g@[qi] == ng);
                assert(self.parent@[qi] == ci);
                assert(self.heap@[hl + j] == ((ng + crate::octile_spec(nb_at(cp, k), target)) as u64, (seq + j + 1) as u64, qi as u32));
            }
        }
        assert forall|c: int| 0 <= c < m.cells() && (forall|j: int| 0 <= j < t1.len() ==> m.idx(nb_at(cp, #[trigger] t1[j])) != c) implies {
            &&& self.g@[c] == o.g@[c]
            &&& self.parent@[c] == o.parent@[c]
            &&& self.open_gen@[c] == o.open_gen@[c]
        } by {
            assert(t1[t.len() as int] == k);
            assert(c != qi);
            assert forall|j: int| 0 <= j < t.len() implies m.idx(nb_at(cp, #[trigger] t[j])) != c by {
                assert(t1[j] == t[j]);
            }
        }
    }

    /// What makes the search complete: every reached cell not yet finished
    /// has an entry on the open list; no finished cell meets the goal; and,
    /// on a map of at most `SEARCH_CELLS_MAX` cells, every cell one legal
    /// step from a finished cell is reached, and no reached cell costs more
    /// than `step_cost_max()` per finished cell.
    #[verifier::opaque]
    closed spec fn frontier_ok(&self, m: MapView, who: Faction, goal: Goal) -> bool {
        let n = m.cells();
        let gen = self.gen;
        &&& forall|c: int|
            0 <= c < n && #[trigger] self.open_gen@[c] == gen && self.closed_gen@[c] != gen ==> exists|t: int|
                0 <= t < self.heap@.len() && self.heap@[t].2 == c
        &&& forall|c: int| 0 <= c < n && #[trigger] self.closed_gen@[c] == gen ==> !goal_met(goal, cellpos(m, c))
        &&& n <= SEARCH_CELLS_MAX ==> forall|c: int, k: int|
            0 <= c < n && 0 <= k < 8 && self.closed_gen@[c] == gen && #[trigger] step_open(m, who, cellpos(m, c), k)
                ==> self.open_gen@[m.idx(nb_at(cellpos(m, c), k))] == gen
        &&& n <= SEARCH_CELLS_MAX ==> forall|c: int|
            0 <= c < n && #[trigger] self.open_gen@[c] == gen ==> self.g@[c] <= step_cost_max() * count_eq(self.closed_gen@, gen, n)
    }

    /// What relaxing every direction did: reached cells stay reached; a cell
    /// newly reached or given a new cost took the way in, at its new cost
    /// and with an entry on the open list; the old open list is kept; and a
    /// neighbour that didn't take it is as it was.
    proof fn lemma_after_relax(&self, o: Pathfinder, m: MapView, who: Faction, ci: int, cp: IVec, cg: int, seq: int, target: IVec)
        requires
            self.relaxed(o, m, who, ci, cp, cg, seq, target, 8),
            m.inb(cp),
            m.cells() <= i32::MAX,
            o.g@.len() == m.cells() && o.open_gen@.len() == m.cells() && o.parent@.len() == m.cells(),
        ensures
            forall|c: int| 0 <= c < m.cells() && o.open_gen@[c] == o.gen ==> #[trigger] self.open_gen@[c] == o.gen,
            forall|c: int|
                0 <= c < m.cells() && #[trigger] self.open_gen@[c] == o.gen ==> (o.open_gen@[c] == o.gen && self.g@[c] == o.g@[c])
                    || exists|k: int| 0 <= k < 8 && o.takes(m, who, cp, cg, k) && m.idx(nb_at(cp, k)) == c && self.g@[c] == via_cost(m, cp, cg, k)
                        && exists|t: int| 0 <= t < self.heap@.len() && self.heap@[t].2 == c,
            self.heap@.len() >= o.heap@.len(),
            forall|t: int| 0 <= t < o.heap@.len() ==> #[trigger] self.heap@[t] == o.heap@[t],
            forall|k: int| 0 <= k < 8 && o.takes(m, who, cp, cg, k) ==> self.open_gen@[m.idx(#[trigger] nb_at(cp, k))] == o.gen,
            forall|k: int| 0 <= k < 8 && step_open(m, who, cp, k) && !o.takes(m, who, cp, cg, k) ==> self.open_gen@[m.idx(#[trigger] nb_at(cp, k))] == o.open_gen@[m.idx(nb_at(cp, k))],
    {
        reveal(Pathfinder::relaxed);
        let t = o.taken(m, who, cp, cg, 8);
        o.lemma_taken(m, who, cp, cg, 8);
        let h = o.heap@.len();
        assert forall|c: int| 0 <= c < m.cells() && o.open_gen@[c] == o.gen implies #[trigger] self.open_gen@[c] == o.gen by {
            if exists|j: int| 0 <= j < t.len() && m.idx(nb_at(cp, #[trigger] t[j])) == c {
                let j = choose|j: int| 0 <= j < t.len() && m.idx(nb_at(cp, #[trigger] t[j])) == c;
            }
        }
        assert forall|c: int|
            0 <= c < m.cells() && #[trigger] self.open_gen@[c] == o.gen implies (o.open_gen@[c] == o.gen && self.g@[c] == o.g@[c])
                || exists|k: int| 0 <= k < 8 && o.takes(m, who, cp, cg, k) && m.idx(nb_at(cp, k)) == c && self.g@[c] == via_cost(m, cp, cg, k)
                    && exists|tt: int| 0 <= tt < self.heap@.len() && self.heap@[tt].2 == c by {
            if exists|j: int| 0 <= j < t.len() && m.idx(nb_at(cp, #[trigger] t[j])) == c {
                let j = choose|j: int| 0 <= j < t.len() && m.idx(nb_at(cp, #[trigger] t[j])) == c;
                let k = t[j];
                lemma_pos_of_idx(m, nb_at(cp, k));
                assert(self.heap@[h + j].2 == c);
            }
        }
        assert forall|k: int| 0 <= k < 8 && o.takes(m, who, cp, cg, k) implies self.open_gen@[m.idx(#[trigger] nb_at(cp, k))] == o.gen by {
            o.lemma_taken_has(m, who, cp, cg, 8, k);
            let j = choose|j: int| 0 <= j < t.len() && t[j] == k;
            assert(m.idx(nb_at(cp, t[j])) == m.idx(nb_at(cp, k)));
        }
        assert forall|k: int| 0 <= k < 8 && step_open(m, who, cp, k) && !o.takes(m, who, cp, cg, k) implies self.open_gen@[m.idx(#[trigger] nb_at(cp, k))] == o.open_gen@[m.idx(nb_at(cp, k))] by {
            let c = m.idx(nb_at(cp, k));
            lemma_pos_of_idx(m, nb_at(cp, k));
            assert forall|j: int| 0 <= j < t.len() implies m.idx(nb_at(cp, #[trigger] t[j])) != c by {
                assert(t[j] != k);
                lemma_nb_distinct(m, cp, t[j], k);
            }
        }
    }

    /// Every direction below `k` whose neighbour takes the way in is taken.
    proof fn lemma_taken_has(&self, m: MapView, who: Faction, cp: IVec, cg: int, k: int, d: int)
        requires
            0 <= d < k,
            self.takes(m, who, cp, cg, d),
        ensures
            exists|j: int| 0 <= j < self.taken(m, who, cp, cg, k).len() && self.taken(m, who, cp, cg, k)[j] == d,
        decreases k,
    {
        let t = self.taken(m, who, cp, cg, k - 1);
        if d == k - 1 {
            assert(self.taken(m, who, cp, cg, k)[t.len() as int] == d);
        } else {
            self.lemma_taken_has(m, who, cp, cg, k - 1, d);
            let j = choose|j: int| 0 <= j < t.len() && t[j] == d;
            assert(self.taken(m, who, cp, cg, k)[j] == d);
        }
    }

    /// A search that has reached only its start, finished nothing, and has
    /// the start on its open list is complete so far.
    proof fn lemma_frontier_start(&self, m: MapView, who: Faction, goal: Goal, si: int)
        requires
            0 <= si < m.cells(),
            self.open_gen@.len() == m.cells() && self.closed_gen@.len() == m.cells(),
            forall|c: int| 0 <= c < m.cells() ==> #[trigger] self.closed_gen@[c] != self.gen,
            forall|c: int| 0 <= c < m.cells() && #[trigger] self.open_gen@[c] == self.gen ==> c == si,
            self.g@[si] == 0,
            self.heap@.len() == 1 && self.heap@[0].2 == si,
        ensures
            self.frontier_ok(m, who, goal),
    {
        reveal(Pathfinder::frontier_ok);
        crate::map::lemma_count_eq_zero(self.closed_gen@, self.gen, m.cells());
        assert forall|c: int|
            0 <= c < m.cells() && #[trigger] self.open_gen@[c] == self.gen && self.closed_gen@[c] != self.gen implies exists|t: int|
                0 <= t < self.heap@.len() && self.heap@[t].2 == c by {
            assert(self.heap@[0].2 == c);
        }
        assert forall|c: int| 0 <= c < m.cells() && #[trigger] self.open_gen@[c] == self.gen implies self.g@[c] <= step_cost_max() * count_eq(self.closed_gen@, self.gen, m.cells()) by {
            assert(c == si);
        }
    }

    /// Dropping the open-list entry of a finished cell keeps the search
    /// complete.
    proof fn lemma_frontier_skip(&self, pre: Pathfinder, m: MapView, who: Faction, goal: Goal, b: int)
        requires
            pre.frontier_ok(m, who, goal),
            0 <= b < pre.heap@.len(),
            self.heap@ == pre.heap@.remove(b),
            pre.closed_gen@.len() == m.cells(),
            pre.heap@[b].2 < m.cells(),
            pre.closed_gen@[pre.heap@[b].2 as int] == pre.gen,
            self.gen == pre.gen && self.g == pre.g && self.open_gen == pre.open_gen && self.closed_gen == pre.closed_gen,
        ensures
            self.frontier_ok(m, who, goal),
    {
        reveal(Pathfinder::frontier_ok);
        assert forall|c: int|
            0 <= c < m.cells() && #[trigger] self.open_gen@[c] == self.gen && self.closed_gen@[c] != self.gen implies exists|t: int|
                0 <= t < self.heap@.len() && self.heap@[t].2 == c by {
            let t = choose|t: int| 0 <= t < pre.heap@.len() && pre.heap@[t].2 == c;
            assert(t != b);
            if t < b {
                assert(self.heap@[t] == pre.heap@[t]);
            } else {
                assert(self.heap@[t - 1] == pre.heap@[t]);
            }
        }
    }

    /// Finishing the popped cell `ci`, which doesn't meet the goal, and
    /// relaxing its neighbours keeps the search complete.
    #[verifier::spinoff_prover]
    #[verifier::rlimit(80)]
    proof fn lemma_frontier_step(
        &self,
        pre: Pathfinder,
        p1: Pathfinder,
        m: MapView,
        who: Faction,
        goal: Goal,
        si: int,
        b: int,
        ci: int,
        seq: int,
        target: IVec,
    )
        requires
            pre.frontier_ok(m, who, goal),
            pre.search_ok(m, who, si),
            0 <= b < pre.heap@.len(),
            pre.heap@[b].2 == ci,
            0 <= ci < m.cells(),
            m.cells() <= i32::MAX,
            pre.closed_gen@[ci] != pre.gen,
            p1.heap@ == pre.heap@.remove(b),
            p1.gen == pre.gen && p1.g == pre.g && p1.open_gen == pre.open_gen,
            p1.closed_gen@ == pre.closed_gen@.update(ci, pre.gen),
            p1.search_ok(m, who, si),
            !goal_met(goal, cellpos(m, ci)),
            m.inb(cellpos(m, ci)),
            m.floor_cost.len() == m.cells() && m.terrain_cost.len() == m.cells() && m.fix_cost.len() == m.cells(),
            self.relaxed(p1, m, who, ci, cellpos(m, ci), p1.g@[ci] as int, seq, target, 8),
            self.closed_gen@ == p1.closed_gen@,
            self.gen == p1.gen,
        ensures
            self.frontier_ok(m, who, goal),
    {
        reveal(Pathfinder::frontier_ok);
        let n = m.cells();
        let gen = pre.gen;
        let cp = cellpos(m, ci);
        let cg = p1.g@[ci] as int;
        self.lemma_after_relax(p1, m, who, ci, cp, cg, seq, target);
        crate::map::lemma_count_eq_update(pre.closed_gen@, gen, n, ci, gen);
        let before = count_eq(pre.closed_gen@, gen, n);
        let after = count_eq(self.closed_gen@, gen, n);
        assert(after == before + 1);
        crate::map::lemma_count_eq_bound(self.closed_gen@, gen, n);
        // Reached cells not finished are on the open list.
        assert forall|c: int|
            0 <= c < n && #[trigger] self.open_gen@[c] == gen && self.closed_gen@[c] != gen implies exists|t: int|
                0 <= t < self.heap@.len() && self.heap@[t].2 == c by {
            if p1.open_gen@[c] == gen && self.g@[c] == p1.g@[c] {
                assert(c != ci);
                assert(pre.open_gen@[c] == gen && pre.closed_gen@[c] != gen);
                let t = choose|t: int| 0 <= t < pre.heap@.len() && pre.heap@[t].2 == c;
                assert(t != b);
                let t1 = if t < b { t } else { t - 1 };
                assert(p1.heap@[t1] == pre.heap@[t]);
                assert(self.heap@[t1] == p1.heap@[t1]);
            }
        }
        // No finished cell meets the goal.
        assert forall|c: int| 0 <= c < n && #[trigger] self.closed_gen@[c] == gen implies !goal_met(goal, cellpos(m, c)) by {
            if c != ci {
                assert(pre.closed_gen@[c] == gen);
            }
        }
        if n <= SEARCH_CELLS_MAX {
            // Reaching the popped cell cost at most the bound for what was finished before it.
            assert(pre.open_gen@[ci] == gen) by {
                assert(pre.heap@[b].2 == ci);
            }
            assert(cg <= step_cost_max() * before);
            assert(step_cost_max() * after <= step_cost_max() * n) by (nonlinear_arith)
                requires
                    after <= n,
            ;
            assert forall|k: int| 0 <= k < 8 && step_open(m, who, cp, k) implies via_cost(m, cp, cg, k) <= step_cost_max() * after by {
                lemma_step_cost(m, cp, k);
            }
            assert forall|c: int, k: int|
                0 <= c < n && 0 <= k < 8 && self.closed_gen@[c] == gen && #[trigger] step_open(m, who, cellpos(m, c), k)
                    implies self.open_gen@[m.idx(nb_at(cellpos(m, c), k))] == gen by {
                let q = nb_at(cellpos(m, c), k);
                lemma_pos_of_idx(m, q);
                if c == ci {
                    lemma_step_cost(m, cp, k);
                    if !p1.takes(m, who, cp, cg, k) {
                        let qi = m.idx(q);
                        if p1.closed_gen@[qi] == gen {
                            assert(p1.open_gen@[qi] == gen);
                        }
                    }
                } else {
                    assert(pre.closed_gen@[c] == gen);
                    assert(pre.open_gen@[m.idx(q)] == gen);
                }
            }
            assert forall|c: int| 0 <= c < n && #[trigger] self.open_gen@[c] == gen implies self.g@[c] <= step_cost_max() * after by {
                if p1.open_gen@[c] == gen && self.g@[c] == p1.g@[c] {
                    assert(pre.open_gen@[c] == gen);
                } else {
                    let k = choose|k: int| 0 <= k < 8 && p1.takes(m, who, cp, cg, k) && m.idx(nb_at(cp, k)) == c && self.g@[c] == via_cost(m, cp, cg, k)
                        && exists|t: int| 0 <= t < self.heap@.len() && self.heap@[t].2 == c;
                    lemma_step_cost(m, cp, k);
                }
            }
        }
    }

    /// What makes the search's answer the cheapest: every open-list entry's
    /// estimate is at least its cell's cost so far plus the octile distance
    /// on to `target`, and every reached, unfinished cell has an entry with
    /// exactly that; on a map of at most `SEARCH_CELLS_MAX` cells, a step
    /// from a finished cell to an unfinished one was offered; and where
    /// every cell costs at least 100%, no route from `start` to a finished
    /// cell costs less than what the search recorded for it.
    #[verifier::opaque]
    closed spec fn costs_ok(&self, m: MapView, who: Faction, start: IVec, target: IVec) -> bool {
        &&& self.heap_costs_ok(m, target)
        &&& m.cells() <= SEARCH_CELLS_MAX ==> self.offers_ok(m, who)
        &&& (m.cells() <= SEARCH_CELLS_MAX && costs_at_least_full(m)) ==> self.finished_cheapest(m, who, start)
    }

    /// Open-list estimates: none below its cell's cost plus distance on,
    /// and each reached, unfinished cell has one of exactly that.
    closed spec fn heap_costs_ok(&self, m: MapView, target: IVec) -> bool {
        let n = m.cells();
        let gen = self.gen;
        &&& forall|t: int|
            0 <= t < self.heap@.len() ==> (#[trigger] self.heap@[t]).0 >= self.g@[self.heap@[t].2 as int] + crate::octile_spec(
                cellpos(m, self.heap@[t].2 as int),
                target,
            )
        &&& forall|c: int|
            0 <= c < n && #[trigger] self.open_gen@[c] == gen && self.closed_gen@[c] != gen ==> exists|t: int|
                0 <= t < self.heap@.len() && self.heap@[t].2 == c && self.heap@[t].0 == self.g@[c] + crate::octile_spec(cellpos(m, c), target)
    }

    /// Every step from a finished cell to an unfinished one was offered.
    closed spec fn offers_ok(&self, m: MapView, who: Faction) -> bool {
        let n = m.cells();
        let gen = self.gen;
        forall|c: int, k: int|
            0 <= c < n && 0 <= k < 8 && self.closed_gen@[c] == gen && #[trigger] step_open(m, who, cellpos(m, c), k)
                && self.closed_gen@[m.idx(nb_at(cellpos(m, c), k))] != gen ==> self.g@[m.idx(nb_at(cellpos(m, c), k))] <= via_cost(
                m,
                cellpos(m, c),
                self.g@[c] as int,
                k,
            )
    }

    /// No route from `start` to a finished cell costs less than the cost
    /// recorded for it.
    closed spec fn finished_cheapest(&self, m: MapView, who: Faction, start: IVec) -> bool {
        forall|c: int, path: Seq<IVec>|
            0 <= c < m.cells() && #[trigger] self.closed_gen@[c] == self.gen && route_ok(m, who, start, path) && #[trigger] route_end(
                start,
                path,
            ) == cellpos(m, c) ==> self.g@[c] <= route_cost(m, start, path)
    }

    /// On any route from `start`, either its end is finished, or some
    /// reached, unfinished cell's cost so far plus its distance on is at
    /// most the route's cost plus the distance on from its end.
    proof fn lemma_route_frontier(&self, m: MapView, who: Faction, start: IVec, goal: Goal, target: IVec, path: Seq<IVec>)
        requires
            self.search_ok(m, who, m.idx(start)),
            self.frontier_ok(m, who, goal),
            self.costs_ok(m, who, start, target),
            costs_at_least_full(m),
            m.cells() <= SEARCH_CELLS_MAX,
            m.inb(start),
            route_ok(m, who, start, path),
        ensures
            m.inb(route_end(start, path)),
            self.closed_gen@[m.idx(route_end(start, path))] == self.gen || exists|c: int|
                0 <= c < m.cells() && self.open_gen@[c] == self.gen && self.closed_gen@[c] != self.gen && self.g@[c] + crate::octile_spec(
                    cellpos(m, c),
                    target,
                ) <= route_cost(m, start, path) + crate::octile_spec(route_end(start, path), target),
        decreases path.len(),
    {
        let gen = self.gen;
        let n = m.cells();
        let si = m.idx(start);
        lemma_pos_of_idx(m, start);
        if path.len() == 0 {
            if self.closed_gen@[si] != gen {
                assert(self.open_gen@[si] == gen);
                assert(cellpos(m, si) == start);
            }
        } else {
            let rest = path.drop_first();
            assert(route_ok(m, who, start, rest)) by {
                assert forall|t: int| 0 <= t < rest.len() implies step_ok(
                    m,
                    who,
                    if t + 1 == rest.len() { start } else { rest[t + 1] },
                    #[trigger] rest[t],
                ) by {
                    assert(rest[t] == path[t + 1]);
                    assert(step_ok(m, who, if t + 2 == path.len() { start } else { path[t + 2] }, path[t + 1]));
                    if t + 1 < rest.len() {
                        assert(rest[t + 1] == path[t + 2]);
                    }
                }
            }
            self.lemma_route_frontier(m, who, start, goal, target, rest);
            let x = route_end(start, rest);
            let w = path[0];
            assert(step_ok(m, who, x, w)) by {
                assert(step_ok(m, who, if 1 == path.len() { start } else { path[1] }, path[0]));
                if path.len() > 1 {
                    assert(rest[0] == path[1]);
                }
            }
            assert(route_end(start, path) == w);
            assert(route_cost(m, start, path) == route_cost(m, start, rest) + step_price(m, x, w));
            assert(m.inb(w));
            lemma_pos_of_idx(m, w);
            lemma_pos_of_idx(m, x);
            assert(cell_cost(m, w) >= 100);
            lemma_octile_step(m, x, w, target);
            let cx = m.idx(x);
            let cw = m.idx(w);
            if self.closed_gen@[cx] == gen && self.closed_gen@[cw] != gen {
                lemma_step_dir(m, who, x, w);
                let k = choose|k: int| 0 <= k < 8 && nb_at(x, k) == w && step_open(m, who, x, k);
                assert(cellpos(m, cx) == x);
                reveal(Pathfinder::frontier_ok);
                reveal(Pathfinder::costs_ok);
                assert(step_open(m, who, cellpos(m, cx), k));
                assert(self.open_gen@[cw] == gen);
                assert(self.g@[cw] <= via_cost(m, cellpos(m, cx), self.g@[cx] as int, k));
                assert(m.w <= i32::MAX && m.h <= i32::MAX) by (nonlinear_arith)
                    requires
                        0 <= x.x < m.w,
                        0 <= x.y < m.h,
                        m.w * m.h <= i32::MAX,
                ;
                lemma_via_price(m, x, self.g@[cx] as int, k);
                assert(self.g@[cx] <= route_cost(m, start, rest));
                assert(cellpos(m, cw) == w);
            }
        }
    }

    /// The entry popped, the least on the open list, is for a cell whose
    /// cost so far plus its distance on is at most that of any route to a
    /// cell not yet finished, plus the distance on from there.
    proof fn lemma_pop_bound(&self, m: MapView, who: Faction, start: IVec, goal: Goal, target: IVec, b: int, path: Seq<IVec>)
        requires
            self.search_ok(m, who, m.idx(start)),
            self.frontier_ok(m, who, goal),
            self.costs_ok(m, who, start, target),
            costs_at_least_full(m),
            m.cells() <= SEARCH_CELLS_MAX,
            m.inb(start),
            route_ok(m, who, start, path),
            0 <= b < self.heap@.len(),
            forall|t: int| 0 <= t < self.heap@.len() ==> key_le(self.heap@[b], #[trigger] self.heap@[t]),
            self.closed_gen@[m.idx(route_end(start, path))] != self.gen,
        ensures
            self.g@[self.heap@[b].2 as int] + crate::octile_spec(cellpos(m, self.heap@[b].2 as int), target) <= route_cost(m, start, path)
                + crate::octile_spec(route_end(start, path), target),
    {
        self.lemma_route_frontier(m, who, start, goal, target, path);
        reveal(Pathfinder::costs_ok);
        let c = choose|c: int|
            0 <= c < m.cells() && self.open_gen@[c] == self.gen && self.closed_gen@[c] != self.gen && self.g@[c] + crate::octile_spec(
                cellpos(m, c),
                target,
            ) <= route_cost(m, start, path) + crate::octile_spec(route_end(start, path), target);
        assert(self.open_gen@[c] == self.gen);
        let t = choose|t: int|
            0 <= t < self.heap@.len() && self.heap@[t].2 == c && self.heap@[t].0 == self.g@[c] + crate::octile_spec(cellpos(m, c), target);
        assert(key_le(self.heap@[b], self.heap@[t]));
        assert(self.heap@[b].0 >= self.g@[self.heap@[b].2 as int] + crate::octile_spec(cellpos(m, self.heap@[b].2 as int), target));
    }

    /// A finished cell never meets the goal.
    proof fn lemma_finished_not_goal(&self, m: MapView, who: Faction, goal: Goal, c: int)
        requires
            self.frontier_ok(m, who, goal),
            0 <= c < m.cells(),
            goal_met(goal, cellpos(m, c)),
        ensures
            self.closed_gen@[c] != self.gen,
    {
        reveal(Pathfinder::frontier_ok);
    }

    /// The search as it starts, with only `start` reached and on the open
    /// list, estimated at its distance to `target`.
    proof fn lemma_costs_start(&self, m: MapView, who: Faction, start: IVec, target: IVec)
        requires
            m.inb(start),
            self.g@.len() == m.cells() && self.open_gen@.len() == m.cells() && self.closed_gen@.len() == m.cells(),
            forall|c: int| 0 <= c < m.cells() ==> #[trigger] self.closed_gen@[c] != self.gen,
            forall|c: int| 0 <= c < m.cells() && #[trigger] self.open_gen@[c] == self.gen ==> c == m.idx(start),
            self.g@[m.idx(start)] == 0,
            self.heap@.len() == 1 && self.heap@[0].2 == m.idx(start) && self.heap@[0].0 == crate::octile_spec(start, target),
        ensures
            self.costs_ok(m, who, start, target),
    {
        reveal(Pathfinder::costs_ok);
        lemma_pos_of_idx(m, start);
        assert forall|c: int|
            0 <= c < m.cells() && #[trigger] self.open_gen@[c] == self.gen && self.closed_gen@[c] != self.gen implies exists|t: int|
                0 <= t < self.heap@.len() && self.heap@[t].2 == c && self.heap@[t].0 == self.g@[c] + crate::octile_spec(cellpos(m, c), target) by {
            assert(c == m.idx(start));
            assert(self.heap@[0].2 == c);
        }
    }

    /// Dropping the entry of a finished cell keeps the costs as they were.
    proof fn lemma_costs_skip(&self, pre: Pathfinder, m: MapView, who: Faction, start: IVec, target: IVec, b: int)
        requires
            pre.costs_ok(m, who, start, target),
            0 <= b < pre.heap@.len(),
            self.heap@ == pre.heap@.remove(b),
            pre.closed_gen@.len() == m.cells(),
            pre.heap@[b].2 < m.cells(),
            pre.closed_gen@[pre.heap@[b].2 as int] == pre.gen,
            self.gen == pre.gen && self.g == pre.g && self.open_gen == pre.open_gen && self.closed_gen == pre.closed_gen,
        ensures
            self.costs_ok(m, who, start, target),
    {
        reveal(Pathfinder::costs_ok);
        assert forall|t: int| 0 <= t < self.heap@.len() implies (#[trigger] self.heap@[t]).0 >= self.g@[self.heap@[t].2 as int]
            + crate::octile_spec(cellpos(m, self.heap@[t].2 as int), target) by {
            if t < b {
                assert(self.heap@[t] == pre.heap@[t]);
            } else {
                assert(self.heap@[t] == pre.heap@[t + 1]);
            }
        }
        assert forall|c: int|
            0 <= c < m.cells() && #[trigger] self.open_gen@[c] == self.gen && self.closed_gen@[c] != self.gen implies exists|t: int|
                0 <= t < self.heap@.len() && self.heap@[t].2 == c && self.heap@[t].0 == self.g@[c] + crate::octile_spec(cellpos(m, c), target) by {
            let t = choose|t: int|
                0 <= t < pre.heap@.len() && pre.heap@[t].2 == c && pre.heap@[t].0 == pre.g@[c] + crate::octile_spec(cellpos(m, c), target);
            assert(t != b);
            if t < b {
                assert(self.heap@[t] == pre.heap@[t]);
            } else {
                assert(self.heap@[t - 1] == pre.heap@[t]);
            }
        }
    }

    /// What relaxing the neighbours of `cp` did to costs and the open list:
    /// a reached cell costs no more than before, a finished one the same; a
    /// cell reached anew or more cheaply has a new entry estimated at its
    /// cost plus its distance on; the old entries stay; and each neighbour
    /// one step away, unfinished, costs at most the way in through `cp`
    /// where that fits.
    proof fn lemma_relax_facts(&self, o: Pathfinder, m: MapView, who: Faction, ci: int, cp: IVec, cg: int, seq: int, goal: Goal, target: IVec)
        requires
            self.relaxed(o, m, who, ci, cp, cg, seq, target, 8),
            m.inb(cp),
            m.cells() <= i32::MAX,
            o.g@.len() == m.cells() && o.open_gen@.len() == m.cells() && o.parent@.len() == m.cells(),
            o.closed_gen@.len() == m.cells(),
            goal_in_range(m, goal),
            target == goal_target(goal),
        ensures
            forall|c: int| 0 <= c < m.cells() && o.open_gen@[c] == o.gen ==> #[trigger] self.g@[c] <= o.g@[c],
            forall|c: int| 0 <= c < m.cells() && o.closed_gen@[c] == o.gen ==> #[trigger] self.g@[c] == o.g@[c],
            forall|c: int|
                0 <= c < m.cells() && #[trigger] self.open_gen@[c] == o.gen && !(o.open_gen@[c] == o.gen && self.g@[c] == o.g@[c])
                    ==> exists|t: int|
                    o.heap@.len() <= t < self.heap@.len() && self.heap@[t].2 == c && self.heap@[t].0 == self.g@[c] + crate::octile_spec(
                        cellpos(m, c),
                        target,
                    ),
            self.heap@.len() >= o.heap@.len(),
            forall|t: int| 0 <= t < o.heap@.len() ==> #[trigger] self.heap@[t] == o.heap@[t],
            forall|t: int|
                o.heap@.len() <= t < self.heap@.len() ==> (#[trigger] self.heap@[t]).0 == self.g@[self.heap@[t].2 as int]
                    + crate::octile_spec(cellpos(m, self.heap@[t].2 as int), target),
            forall|k: int|
                0 <= k < 8 && #[trigger] step_open(m, who, cp, k) && o.closed_gen@[m.idx(nb_at(cp, k))] != o.gen && via_cost(m, cp, cg, k)
                    <= u32::MAX ==> self.g@[m.idx(nb_at(cp, k))] <= via_cost(m, cp, cg, k),
    {
        reveal(Pathfinder::relaxed);
        let n = m.cells();
        let t = o.taken(m, who, cp, cg, 8);
        o.lemma_taken(m, who, cp, cg, 8);
        let h = o.heap@.len();
        assert forall|j: int| 0 <= j < t.len() implies {
            let q = nb_at(cp, #[trigger] t[j]);
            &&& m.inb(q)
            &&& cellpos(m, m.idx(q)) == q
            &&& 0 <= m.idx(q) < n
            &&& crate::octile_spec(q, target) <= u32::MAX
            &&& via_cost(m, cp, cg, t[j]) <= u32::MAX
        } by {
            let q = nb_at(cp, t[j]);
            assert(o.takes(m, who, cp, cg, t[j]));
            lemma_pos_of_idx(m, q);
            lemma_goal_fits(m, goal, q);
        }
        assert forall|c: int| 0 <= c < n && o.open_gen@[c] == o.gen implies #[trigger] self.g@[c] <= o.g@[c] by {
            if exists|j: int| 0 <= j < t.len() && m.idx(nb_at(cp, #[trigger] t[j])) == c {
                let j = choose|j: int| 0 <= j < t.len() && m.idx(nb_at(cp, #[trigger] t[j])) == c;
                assert(o.takes(m, who, cp, cg, t[j]));
            }
        }
        assert forall|c: int| 0 <= c < n && o.closed_gen@[c] == o.gen implies #[trigger] self.g@[c] == o.g@[c] by {
            if exists|j: int| 0 <= j < t.len() && m.idx(nb_at(cp, #[trigger] t[j])) == c {
                let j = choose|j: int| 0 <= j < t.len() && m.idx(nb_at(cp, #[trigger] t[j])) == c;
                assert(o.takes(m, who, cp, cg, t[j]));
            }
        }
        assert forall|tt: int| o.heap@.len() <= tt < self.heap@.len() implies (#[trigger] self.heap@[tt]).0 == self.g@[self.heap@[tt].2 as int]
            + crate::octile_spec(cellpos(m, self.heap@[tt].2 as int), target) by {
            let j = tt - h;
            assert(0 <= j < t.len());
            let q = nb_at(cp, t[j]);
            assert(self.heap@[h + j].2 as int == m.idx(q));
        }
        assert forall|c: int|
            0 <= c < n && #[trigger] self.open_gen@[c] == o.gen && !(o.open_gen@[c] == o.gen && self.g@[c] == o.g@[c]) implies exists|tt: int|
                o.heap@.len() <= tt < self.heap@.len() && self.heap@[tt].2 == c && self.heap@[tt].0 == self.g@[c] + crate::octile_spec(
                    cellpos(m, c),
                    target,
                ) by {
            if exists|j: int| 0 <= j < t.len() && m.idx(nb_at(cp, #[trigger] t[j])) == c {
                let j = choose|j: int| 0 <= j < t.len() && m.idx(nb_at(cp, #[trigger] t[j])) == c;
                assert(self.heap@[h + j].2 as int == c);
                assert(self.heap@[h + j].2 == c);
            }
        }
        assert forall|k: int|
            0 <= k < 8 && #[trigger] step_open(m, who, cp, k) && o.closed_gen@[m.idx(nb_at(cp, k))] != o.gen && via_cost(m, cp, cg, k)
                <= u32::MAX implies self.g@[m.idx(nb_at(cp, k))] <= via_cost(m, cp, cg, k) by {
            let c = m.idx(nb_at(cp, k));
            lemma_pos_of_idx(m, nb_at(cp, k));
            if o.takes(m, who, cp, cg, k) {
                o.lemma_taken_has(m, who, cp, cg, 8, k);
                let j = choose|j: int| 0 <= j < t.len() && t[j] == k;
                assert(m.idx(nb_at(cp, t[j])) == c);
            } else {
                assert forall|j: int| 0 <= j < t.len() implies m.idx(nb_at(cp, #[trigger] t[j])) != c by {
                    assert(t[j] != k);
                    lemma_nb_distinct(m, cp, t[j], k);
                }
            }
        }
    }

    /// After finishing the popped cell and relaxing its neighbours, the open
    /// list's estimates are still what `heap_costs_ok` asks.
    #[verifier::spinoff_prover]
    #[verifier::rlimit(60)]
    proof fn lemma_costs_heap(
        &self,
        pre: Pathfinder,
        p1: Pathfinder,
        m: MapView,
        who: Faction,
        goal: Goal,
        start: IVec,
        target: IVec,
        b: int,
        ci: int,
        seq: int,
    )
        requires
            pre.search_ok(m, who, m.idx(start)),
            pre.costs_ok(m, who, start, target),
            0 <= b < pre.heap@.len(),
            pre.heap@[b].2 == ci,
            0 <= ci < m.cells(),
            m.cells() <= i32::MAX,
            m.inb(start),
            pre.closed_gen@[ci] != pre.gen,
            p1.heap@ == pre.heap@.remove(b),
            p1.gen == pre.gen && p1.g == pre.g && p1.open_gen == pre.open_gen && p1.parent == pre.parent,
            p1.closed_gen@ == pre.closed_gen@.update(ci, pre.gen),
            m.inb(cellpos(m, ci)),
            m.idx(cellpos(m, ci)) == ci,
            m.floor_cost.len() == m.cells() && m.terrain_cost.len() == m.cells() && m.fix_cost.len() == m.cells(),
            self.relaxed(p1, m, who, ci, cellpos(m, ci), p1.g@[ci] as int, seq, target, 8),
            self.closed_gen@ == p1.closed_gen@,
            self.gen == p1.gen,
            goal_in_range(m, goal),
            target == goal_target(goal),
        ensures
            self.heap_costs_ok(m, target),
    {
        let n = m.cells();
        let gen = pre.gen;
        let cp = cellpos(m, ci);
        let cg = p1.g@[ci] as int;
        self.lemma_relax_facts(p1, m, who, ci, cp, cg, seq, goal, target);
        assert(pre.heap_costs_ok(m, target)) by {
            reveal(Pathfinder::costs_ok);
        }
        let hp = p1.heap@.len();
        assert forall|t: int| 0 <= t < self.heap@.len() implies (#[trigger] self.heap@[t]).0 >= self.g@[self.heap@[t].2 as int]
            + crate::octile_spec(cellpos(m, self.heap@[t].2 as int), target) by {
            if t < hp {
                let tp = if t < b { t } else { t + 1 };
                assert(self.heap@[t] == p1.heap@[t]);
                assert(p1.heap@[t] == pre.heap@[tp]);
                let c = pre.heap@[tp].2 as int;
                assert(pre.open_gen@[c] == gen);
                assert(self.g@[c] <= p1.g@[c]);
            }
        }
        assert forall|c: int|
            0 <= c < n && #[trigger] self.open_gen@[c] == gen && self.closed_gen@[c] != gen implies exists|t: int|
                0 <= t < self.heap@.len() && self.heap@[t].2 == c && self.heap@[t].0 == self.g@[c] + crate::octile_spec(cellpos(m, c), target) by {
            if p1.open_gen@[c] == gen && self.g@[c] == p1.g@[c] {
                assert(c != ci);
                assert(pre.closed_gen@[c] != gen);
                let t = choose|t: int|
                    0 <= t < pre.heap@.len() && pre.heap@[t].2 == c && pre.heap@[t].0 == pre.g@[c] + crate::octile_spec(cellpos(m, c), target);
                assert(t != b);
                let t1 = if t < b { t } else { t - 1 };
                assert(p1.heap@[t1] == pre.heap@[t]);
                assert(self.heap@[t1] == p1.heap@[t1]);
            }
        }
    }

    /// After finishing the popped cell and relaxing its neighbours, every
    /// step from a finished cell to an unfinished one has been offered.
    #[verifier::spinoff_prover]
    #[verifier::rlimit(40)]
    proof fn lemma_costs_offers(
        &self,
        pre: Pathfinder,
        p1: Pathfinder,
        m: MapView,
        who: Faction,
        goal: Goal,
        start: IVec,
        target: IVec,
        b: int,
        ci: int,
        seq: int,
    )
        requires
            pre.frontier_ok(m, who, goal),
            m.cells() <= SEARCH_CELLS_MAX,
            pre.search_ok(m, who, m.idx(start)),
            pre.costs_ok(m, who, start, target),
            0 <= b < pre.heap@.len(),
            pre.heap@[b].2 == ci,
            0 <= ci < m.cells(),
            m.cells() <= i32::MAX,
            m.inb(start),
            pre.closed_gen@[ci] != pre.gen,
            p1.heap@ == pre.heap@.remove(b),
            p1.gen == pre.gen && p1.g == pre.g && p1.open_gen == pre.open_gen && p1.parent == pre.parent,
            p1.closed_gen@ == pre.closed_gen@.update(ci, pre.gen),
            m.inb(cellpos(m, ci)),
            m.idx(cellpos(m, ci)) == ci,
            m.floor_cost.len() == m.cells() && m.terrain_cost.len() == m.cells() && m.fix_cost.len() == m.cells(),
            self.relaxed(p1, m, who, ci, cellpos(m, ci), p1.g@[ci] as int, seq, target, 8),
            self.closed_gen@ == p1.closed_gen@,
            self.gen == p1.gen,
            goal_in_range(m, goal),
            target == goal_target(goal),
        ensures
            self.offers_ok(m, who),
    {
        let n = m.cells();
        let gen = pre.gen;
        let cp = cellpos(m, ci);
        let cg = p1.g@[ci] as int;
        self.lemma_relax_facts(p1, m, who, ci, cp, cg, seq, goal, target);
        reveal(Pathfinder::costs_ok);
        reveal(Pathfinder::frontier_ok);
        crate::map::lemma_count_eq_update(pre.closed_gen@, gen, n, ci, gen);
        crate::map::lemma_count_eq_bound(self.closed_gen@, gen, n);
        let before = count_eq(pre.closed_gen@, gen, n);
        assert(pre.open_gen@[ci] == gen);
        assert(cg <= step_cost_max() * before);
        assert(step_cost_max() * (before + 1) <= step_cost_max() * n) by (nonlinear_arith)
            requires
                before + 1 <= n,
        ;
        assert forall|c: int, k: int|
            0 <= c < n && 0 <= k < 8 && self.closed_gen@[c] == gen && #[trigger] step_open(m, who, cellpos(m, c), k)
                && self.closed_gen@[m.idx(nb_at(cellpos(m, c), k))] != gen implies self.g@[m.idx(nb_at(cellpos(m, c), k))] <= via_cost(
                m,
                cellpos(m, c),
                self.g@[c] as int,
                k,
            ) by {
            let q = nb_at(cellpos(m, c), k);
            lemma_pos_of_idx(m, q);
            if c == ci {
                lemma_step_cost(m, cp, k);
                assert(via_cost(m, cp, cg, k) == cg + via_cost(m, cp, 0, k));
                assert(self.g@[ci] == p1.g@[ci]);
            } else {
                assert(pre.closed_gen@[c] == gen);
                assert(pre.closed_gen@[m.idx(q)] != gen);
                assert(pre.open_gen@[m.idx(q)] == gen);
                assert(self.g@[m.idx(q)] <= p1.g@[m.idx(q)]);
                assert(self.g@[c] == p1.g@[c]);
            }
        }
    }

    /// After finishing the popped cell, the least on the open list, no
    /// route to a finished cell costs less than recorded for it.
    #[verifier::spinoff_prover]
    proof fn lemma_costs_cheapest(
        &self,
        pre: Pathfinder,
        p1: Pathfinder,
        m: MapView,
        who: Faction,
        goal: Goal,
        start: IVec,
        target: IVec,
        b: int,
        ci: int,
        seq: int,
    )
        requires
            pre.frontier_ok(m, who, goal),
            m.cells() <= SEARCH_CELLS_MAX,
            costs_at_least_full(m),
            forall|t: int| 0 <= t < pre.heap@.len() ==> key_le(pre.heap@[b], #[trigger] pre.heap@[t]),
            pre.search_ok(m, who, m.idx(start)),
            pre.costs_ok(m, who, start, target),
            0 <= b < pre.heap@.len(),
            pre.heap@[b].2 == ci,
            0 <= ci < m.cells(),
            m.cells() <= i32::MAX,
            m.inb(start),
            pre.closed_gen@[ci] != pre.gen,
            p1.heap@ == pre.heap@.remove(b),
            p1.gen == pre.gen && p1.g == pre.g && p1.open_gen == pre.open_gen && p1.parent == pre.parent,
            p1.closed_gen@ == pre.closed_gen@.update(ci, pre.gen),
            m.inb(cellpos(m, ci)),
            m.idx(cellpos(m, ci)) == ci,
            m.floor_cost.len() == m.cells() && m.terrain_cost.len() == m.cells() && m.fix_cost.len() == m.cells(),
            self.relaxed(p1, m, who, ci, cellpos(m, ci), p1.g@[ci] as int, seq, target, 8),
            self.closed_gen@ == p1.closed_gen@,
            self.gen == p1.gen,
            goal_in_range(m, goal),
            target == goal_target(goal),
        ensures
            self.finished_cheapest(m, who, start),
    {
        let n = m.cells();
        let gen = pre.gen;
        let cp = cellpos(m, ci);
        let cg = p1.g@[ci] as int;
        self.lemma_relax_facts(p1, m, who, ci, cp, cg, seq, goal, target);
        assert(pre.finished_cheapest(m, who, start)) by {
            reveal(Pathfinder::costs_ok);
        }
        assert forall|c: int, path: Seq<IVec>|
            0 <= c < n && #[trigger] self.closed_gen@[c] == gen && route_ok(m, who, start, path) && #[trigger] route_end(start, path)
                == cellpos(m, c) implies self.g@[c] <= route_cost(m, start, path) by {
            if c == ci {
                pre.lemma_pop_bound(m, who, start, goal, target, b, path);
                assert(self.g@[ci] == p1.g@[ci]);
            } else {
                assert(pre.closed_gen@[c] == gen);
                assert(self.g@[c] == p1.g@[c]);
            }
        }
    }

    /// Finishing the popped cell `ci` and relaxing its neighbours keeps the
    /// costs the search records the cheapest.
    proof fn lemma_costs_step(
        &self,
        pre: Pathfinder,
        p1: Pathfinder,
        m: MapView,
        who: Faction,
        goal: Goal,
        start: IVec,
        target: IVec,
        b: int,
        ci: int,
        seq: int,
    )
        requires
            pre.frontier_ok(m, who, goal),
            forall|t: int| 0 <= t < pre.heap@.len() ==> key_le(pre.heap@[b], #[trigger] pre.heap@[t]),
            pre.search_ok(m, who, m.idx(start)),
            pre.costs_ok(m, who, start, target),
            0 <= b < pre.heap@.len(),
            pre.heap@[b].2 == ci,
            0 <= ci < m.cells(),
            m.cells() <= i32::MAX,
            m.inb(start),
            pre.closed_gen@[ci] != pre.gen,
            p1.heap@ == pre.heap@.remove(b),
            p1.gen == pre.gen && p1.g == pre.g && p1.open_gen == pre.open_gen && p1.parent == pre.parent,
            p1.closed_gen@ == pre.closed_gen@.update(ci, pre.gen),
            m.inb(cellpos(m, ci)),
            m.idx(cellpos(m, ci)) == ci,
            m.floor_cost.len() == m.cells() && m.terrain_cost.len() == m.cells() && m.fix_cost.len() == m.cells(),
            self.relaxed(p1, m, who, ci, cellpos(m, ci), p1.g@[ci] as int, seq, target, 8),
            self.closed_gen@ == p1.closed_gen@,
            self.gen == p1.gen,
            goal_in_range(m, goal),
            target == goal_target(goal),
        ensures
            self.costs_ok(m, who, start, target),
    {
        self.lemma_costs_heap(pre, p1, m, who, goal, start, target, b, ci, seq);
        if m.cells() <= SEARCH_CELLS_MAX {
            self.lemma_costs_offers(pre, p1, m, who, goal, start, target, b, ci, seq);
            if costs_at_least_full(m) {
                self.lemma_costs_cheapest(pre, p1, m, who, goal, start, target, b, ci, seq);
            }
        }
        reveal(Pathfinder::costs_ok);
    }

    /// With the open list empty, a complete search on a small enough map
    /// leaves no route to the goal.
    proof fn lemma_no_route(&self, m: MapView, who: Faction, start: IVec, goal: Goal, si: int)
        requires
            self.search_ok(m, who, si),
            self.frontier_ok(m, who, goal),
            self.heap@.len() == 0,
            m.cells() <= SEARCH_CELLS_MAX,
            m.inb(start),
            si == m.idx(start),
        ensures
            !route_exists(m, who, start, goal),
    {
        reveal(Pathfinder::frontier_ok);
        let n = m.cells();
        let gen = self.gen;
        assert forall|c: int| 0 <= c < n && #[trigger] self.open_gen@[c] == gen implies self.closed_gen@[c] == gen by {
            if self.closed_gen@[c] != gen {
                let t = choose|t: int| 0 <= t < self.heap@.len() && self.heap@[t].2 == c;
            }
        }
        assert forall|c: int, k: int|
            0 <= c < n && 0 <= k < 8 && self.closed_gen@[c] == gen && #[trigger] step_open(m, who, cellpos(m, c), k)
                implies self.closed_gen@[m.idx(nb_at(cellpos(m, c), k))] == gen by {
            let q = nb_at(cellpos(m, c), k);
            lemma_pos_of_idx(m, q);
            assert(self.open_gen@[m.idx(q)] == gen);
        }
        lemma_pos_of_idx(m, start);
        if route_exists(m, who, start, goal) {
            let path = choose|path: Seq<IVec>| route_ok(m, who, start, path) && goal_met(goal, route_end(start, path));
            if path.len() == 0 {
                assert(self.closed_gen@[si] == gen);
                assert(cellpos(m, si) == start);
            } else {
                self.lemma_route_closed(m, who, start, path, 0);
                lemma_pos_of_idx(m, path[0]);
                assert(self.closed_gen@[m.idx(path[0])] == gen);
            }
        }
    }

    /// Every cell of a route from a finished start is finished, when every
    /// cell one legal step from a finished cell is.
    proof fn lemma_route_closed(&self, m: MapView, who: Faction, start: IVec, path: Seq<IVec>, t: int)
        requires
            m.cells() <= i32::MAX,
            m.inb(start),
            self.closed_gen@.len() == m.cells(),
            self.closed_gen@[m.idx(start)] == self.gen,
            forall|c: int, k: int|
                0 <= c < m.cells() && 0 <= k < 8 && self.closed_gen@[c] == self.gen && #[trigger] step_open(m, who, cellpos(m, c), k)
                    ==> self.closed_gen@[m.idx(nb_at(cellpos(m, c), k))] == self.gen,
            route_ok(m, who, start, path),
            0 <= t < path.len(),
        ensures
            m.inb(path[t]),
            self.closed_gen@[m.idx(path[t])] == self.gen,
        decreases path.len() - t,
    {
        let prev = if t + 1 == path.len() { start } else { path[t + 1] };
        if t + 1 < path.len() {
            self.lemma_route_closed(m, who, start, path, t + 1);
        }
        assert(step_ok(m, who, prev, path[t]));
        lemma_step_dir(m, who, prev, path[t]);
        let k = choose|k: int| 0 <= k < 8 && nb_at(prev, k) == path[t] && step_open(m, who, prev, k);
        lemma_pos_of_idx(m, prev);
        let c = m.idx(prev);
        assert(cellpos(m, c) == prev);
        assert(step_open(m, who, cellpos(m, c), k));
    }

    /// Offers each neighbour of the finished cell `ci` a cheaper way in, and
    /// lists those that take it. Returns the order counter after.
    fn relax_all(
        &mut self,
        map: &TileMap,
        ci: usize,
        cp: IVec,
        cg: u32,
        seq: u64,
        who: Faction,
        target: IVec,
        Ghost(si): Ghost<int>,
        Ghost(goal): Ghost<Goal>,
    ) -> (s: u64)
        requires
            map.wf(),
            old(self).search_ok(map.view(), who, si),
            ci < map.view().cells(),
            cp == cellpos(map.view(), ci as int),
            map.view().inb(cp),
            old(self).closed_gen@[ci as int] == old(self).gen,
            old(self).g@[ci as int] == cg,
            goal_in_range(map.view(), goal),
            target == goal_target(goal),
            seq <= 0x1_0000_0000_0000,
        ensures
            final(self).search_ok(map.view(), who, si),
            final(self).gen == old(self).gen,
            final(self).closed_gen@ == old(self).closed_gen@,
            final(self).searches == old(self).searches,
            final(self).expanded == old(self).expanded,
            seq <= s <= seq + 8,
            s == seq + old(self).taken(map.view(), who, cp, cg as int, 8).len(),
            final(self).relaxed(*old(self), map.view(), who, ci as int, cp, cg as int, seq as int, target, 8),
    {
        let ghost m = map.view();
        let ghost o = *self;
        proof {
            map.lemma_cells_bound();
            self.lemma_relaxed_start(m, who, ci as int, cp, cg as int, seq as int, target);
        }
        let gen = self.gen;
        let mut s = seq;
        let mut k: usize = 0;
        while k < 8
            invariant
                map.wf(),
                m == map.view(),
                o == *old(self),
                self.search_ok(m, who, si),
                self.gen == gen,
                gen == o.gen,
                self.closed_gen@ == old(self).closed_gen@,
                self.searches == old(self).searches,
                self.expanded == old(self).expanded,
                ci < m.cells(),
                cp == cellpos(m, ci as int),
                m.inb(cp),
                self.closed_gen@[ci as int] == gen,
                self.g@[ci as int] == cg,
                goal_in_range(m, goal),
                target == goal_target(goal),
                k <= 8,
                m.cells() <= i32::MAX,
                seq <= s <= seq + k,
                seq <= 0x1_0000_0000_0000,
                s == seq + o.taken(m, who, cp, cg as int, k as int).len(),
                self.relaxed(o, m, who, ci as int, cp, cg as int, seq as int, target, k as int),
            decreases 8 - k,
        {
            let ghost t = o.taken(m, who, cp, cg as int, k as int);
            let ghost pre_it = *self;
            proof {
                o.lemma_taken(m, who, cp, cg as int, k as int);
                o.lemma_taken(m, who, cp, cg as int, k + 1);
            }
            let (dx, dy) = dir8(k);
            let q = IVec::new(cp.x + dx, cp.y + dy);
            assert(q == nb_at(cp, k as int));
            if map.passable_for(q, who) {
                let diag = k >= 4;
                let corner_ok = !diag || (map.passable_for(IVec::new(cp.x + dx, cp.y), who) && map.passable_for(
                    IVec::new(cp.x, cp.y + dy),
                    who,
                ));
                let qi = map.idx(q);
                proof {
                    // No neighbour taken so far is this one, so it is as it was.
                    assert forall|j: int| 0 <= j < t.len() implies m.idx(nb_at(cp, #[trigger] t[j])) != qi as int by {
                        lemma_nb_distinct(m, cp, t[j], k as int);
                    }
                    self.lemma_relaxed_fresh(o, m, who, ci as int, cp, cg as int, seq as int, target, k as int, qi as int);
                }
                if corner_ok {
                    if self.closed_gen[qi] != gen {
                        let base: u32 = if diag { 14 } else { 10 };
                        let step = base * map.cost(q) / 100;
                        let step1 = if step < 1 { 1 } else { step };
                        assert(cg + step1 == via_cost(m, cp, cg as int, k as int));
                        match cg.checked_add(step1) {
                            Some(ng) => {
                                if self.open_gen[qi] != gen || ng < self.g[qi] {
                                    proof {
                                        lemma_pos_of_idx(m, q);
                                        lemma_goal_fits(m, goal, q);
                                        assert(qi != si);
                                        assert(o.takes(m, who, cp, cg as int, k as int));
                                    }
                                    let ghost pre = *self;
                                    self.open_gen.set(qi, gen);
                                    self.g.set(qi, ng);
                                    self.parent.set(qi, ci as u32);
                                    s = s + 1;
                                    let h = q.octile(target);
                                    self.heap.push((ng as u64 + h as u64, s, qi as u32));
                                    proof {
                                        assert(step_ok(m, who, cp, q));
                                        assert(cellpos(m, qi as int) == q);
                                        lemma_via_price(m, cp, cg as int, k as int);
                                        lemma_pos_of_idx(m, cp);
                                        assert forall|c: int| 0 <= c < m.cells() && c != si && #[trigger] self.open_gen@[c] == gen implies self.parent_ok(m, who, c) by {
                                            if c != qi {
                                                assert(pre.open_gen@[c] == gen);
                                                assert(pre.parent_ok(m, who, c));
                                                let p = pre.parent@[c] as int;
                                                assert(p != qi);
                                            }
                                        }
                                        assert forall|t2: int| 0 <= t2 < self.heap@.len() implies (#[trigger] self.heap@[t2]).2 < m.cells() && self.open_gen@[self.heap@[t2].2 as int] == gen by {
                                            if t2 < pre.heap@.len() {
                                                assert(self.heap@[t2] == pre.heap@[t2]);
                                            }
                                        }
                                        assert forall|c: int| 0 <= c < m.cells() && #[trigger] self.closed_gen@[c] == gen implies self.open_gen@[c] == gen by {
                                            assert(pre.closed_gen@[c] == gen);
                                        }
                                        self.lemma_relaxed_take(pre, o, m, who, ci as int, cp, cg as int, seq as int, target, k as int, qi as int, ng as int);

                                    }
                                } else {
                                    proof {
                    assert(!o.takes(m, who, cp, cg as int, k as int));
                    self.lemma_relaxed_skip(o, m, who, ci as int, cp, cg as int, seq as int, target, k as int);
                }
                                }
                            },
                            None => {
                                proof {
                    assert(!o.takes(m, who, cp, cg as int, k as int));
                    self.lemma_relaxed_skip(o, m, who, ci as int, cp, cg as int, seq as int, target, k as int);
                }
                            },
                        }
                    } else {
                        proof {
                    assert(!o.takes(m, who, cp, cg as int, k as int));
                    self.lemma_relaxed_skip(o, m, who, ci as int, cp, cg as int, seq as int, target, k as int);
                }
                    }
                } else {
                    proof {
                    assert(!o.takes(m, who, cp, cg as int, k as int));
                    self.lemma_relaxed_skip(o, m, who, ci as int, cp, cg as int, seq as int, target, k as int);
                }
                }
            } else {
                proof {
                    assert(!o.takes(m, who, cp, cg as int, k as int));
                    self.lemma_relaxed_skip(o, m, who, ci as int, cp, cg as int, seq as int, target, k as int);
                }
            }
            k += 1;
        }
        s
    }

    /// Returns the path as a stack: `last()` is the next step. Excludes
    /// `start`. Doors `who` does not own are walls to this search.
    ///
    /// A path it returns is a walk `who` can take from `start`, ending where
    /// the goal is met. A goal met at `start` gives the empty path. It gives
    /// `None` only after expanding `max_nodes + 1` cells, or when no route
    /// exists; on a map of more than `SEARCH_CELLS_MAX` cells a step whose
    /// running cost would pass `u32::MAX` is not taken, so there a route may
    /// also go unfound.
    pub fn find(&mut self, map: &TileMap, start: IVec, goal: Goal, max_nodes: u32, who: Faction) -> (r: Option<Vec<IVec>>)
        requires
            old(self).wf(),
            map.wf(),
            map.view().inb(start),
            goal_in_range(map.view(), goal),
        ensures
            final(self).wf(),
            final(self).searches_spec() == crate::map::bump(old(self).searches_spec()),
            match r {
                Some(path) => route_ok(map.view(), who, start, path@) && goal_met(goal, route_end(start, path@)),
                None => true,
            },
            goal_met(goal, start) ==> (r matches Some(path) && path@.len() == 0),
            r matches Some(path) ==> ((map.view().cells() <= SEARCH_CELLS_MAX && costs_at_least_full(map.view())) ==> forall|other: Seq<IVec>|
                route_ok(map.view(), who, start, other) && goal_met(goal, #[trigger] route_end(start, other)) ==> route_cost(
                    map.view(),
                    start,
                    path@,
                ) <= route_cost(map.view(), start, other) + crate::octile_spec(route_end(start, other), goal_target(goal))),
            r matches Some(path) ==> ((goal is Cell && map.view().cells() <= SEARCH_CELLS_MAX && costs_at_least_full(map.view()))
                ==> forall|other: Seq<IVec>|
                route_ok(map.view(), who, start, other) && goal_met(goal, #[trigger] route_end(start, other)) ==> route_cost(
                    map.view(),
                    start,
                    path@,
                ) <= route_cost(map.view(), start, other)),
            exists|e: int|
                0 <= e <= max_nodes + 1 && e <= map.view().cells() && final(self).expanded_spec() == bumped_by(old(self).expanded_spec(), e) && (r is None
                    ==> e == max_nodes + 1 || map.view().cells() > SEARCH_CELLS_MAX || !route_exists(map.view(), who, start, goal)),
    {
        let ghost m = map.view();
        let ghost e0 = self.expanded;
        assert(e0 == old(self).expanded_spec());
        let n = map.cell_count();
        proof {
            map.lemma_cells_bound();
        }
        if self.g.len() != n {
            self.g = crate::map::filled(0u32, n);
            self.parent = crate::map::filled(0u32, n);
            self.open_gen = crate::map::filled(0u32, n);
            self.closed_gen = crate::map::filled(0u32, n);
        }
        if self.gen == u32::MAX {
            zero_all(&mut self.open_gen);
            zero_all(&mut self.closed_gen);
            self.gen = 1;
        } else {
            self.gen = self.gen + 1;
        }
        self.searches = self.searches.wrapping_add(1);
        let gen = self.gen;
        let target = goal.target();
        self.heap.clear();
        let si = map.idx(start);
        self.g.set(si, 0);
        self.parent.set(si, si as u32);
        self.open_gen.set(si, gen);
        let mut seq: u64 = 0;
        proof {
            lemma_goal_fits(m, goal, start);
        }
        self.heap.push((start.octile(target) as u64, seq, si as u32));
        let mut expanded: u64 = 0;
        proof {
            lemma_count_eq_zero(self.closed_gen@, gen, n as int);
            assert forall|c: int| 0 <= c < n && c != si && #[trigger] self.open_gen@[c] == gen implies self.parent_ok(m, who, c) by {
                assert(self.open_gen@[c] < gen);
            }
            assert forall|c: int| 0 <= c < n && #[trigger] self.closed_gen@[c] == gen implies self.open_gen@[c] == gen by {
                assert(self.closed_gen@[c] < gen);
            }
            assert(self.heap@.len() == 1 && self.heap@[0].2 == si);
            assert(self.search_ok(m, who, si as int));
            assert forall|c: int| 0 <= c < n as int implies #[trigger] self.closed_gen@[c] != gen by {
                assert(self.closed_gen@[c] < gen);
            }
            assert forall|c: int| 0 <= c < n as int && #[trigger] self.open_gen@[c] == gen implies c == si by {
                if c != si {
                    assert(self.open_gen@[c] < gen);
                }
            }
            self.lemma_frontier_start(m, who, goal, si as int);
            self.lemma_costs_start(m, who, start, target);
        }
        if goal.satisfied(start) {
            // Met where it starts: an empty route.
            assert(self.expanded_spec() == bumped_by(old(self).expanded_spec(), 0));
            let empty: Vec<IVec> = Vec::new();
            proof {
                assert forall|other: Seq<IVec>|
                    route_ok(m, who, start, other) && goal_met(goal, #[trigger] route_end(start, other)) implies route_cost(m, start, empty@)
                        <= route_cost(m, start, other) + crate::octile_spec(route_end(start, other), goal_target(goal)) by {
                    lemma_route_cost_nonneg(m, start, other);
                }
                assert(goal is Cell ==> forall|other: Seq<IVec>|
                    route_ok(m, who, start, other) && goal_met(goal, #[trigger] route_end(start, other)) ==> route_cost(m, start, empty@)
                        <= route_cost(m, start, other)) by {
                    assert forall|other: Seq<IVec>|
                        route_ok(m, who, start, other) && goal_met(goal, #[trigger] route_end(start, other)) implies route_cost(m, start, empty@)
                            <= route_cost(m, start, other) by {
                        lemma_route_cost_nonneg(m, start, other);
                    }
                }
            }
            return Some(empty);
        }
        while self.heap.len() > 0
            invariant_except_break
                expanded <= max_nodes,
                self.frontier_ok(m, who, goal),
                self.costs_ok(m, who, start, target),
            invariant
                n == m.cells(),
                map.wf(),
                m == map.view(),
                goal_in_range(m, goal),
                target == goal_target(goal),
                self.gen == gen,
                si == m.idx(start),
                m.inb(start),
                self.search_ok(m, who, si as int),
                expanded == count_eq(self.closed_gen@, gen, n as int),
                expanded <= n,
                seq <= 8 * expanded,
                self.searches == crate::map::bump(old(self).searches),
                self.expanded == e0,
                e0 == old(self).expanded_spec(),
                !goal_met(goal, start),
            ensures
                expanded <= max_nodes + 1,
                expanded <= n,
                expanded == max_nodes + 1 || (self.heap@.len() == 0 && self.frontier_ok(m, who, goal)),
            decreases n - count_eq(self.closed_gen@, gen, n as int), self.heap@.len(),
        {
            let ghost h_pre = self.heap@;
            let ghost pre = *self;
            let top = pop_min(&mut self.heap);
            let ci = top.2 as usize;
            let ghost b = choose|b: int| 0 <= b < h_pre.len() && h_pre[b] == top && self.heap@ == h_pre.remove(b);
            proof {
                let t = choose|t: int| 0 <= t < h_pre.len() && h_pre[t] == top;
                assert(h_pre[t].2 < n);
                assert forall|t2: int| 0 <= t2 < self.heap@.len() implies (#[trigger] self.heap@[t2]).2 < n
                    && self.open_gen@[self.heap@[t2].2 as int] == gen by {
                    assert(self.heap@.contains(self.heap@[t2]));
                    let u = choose|u: int| 0 <= u < h_pre.len() && h_pre[u] == self.heap@[t2];
                    assert(h_pre[u].2 < n);
                }
                assert(self.search_ok(m, who, si as int));
                lemma_count_eq_bound(self.closed_gen@, gen, n as int);
                assert(self.open_gen@[ci as int] == gen);
            }
            if self.closed_gen[ci] != gen {
                let ghost pre2 = *self;
                proof {
                    lemma_count_eq_update(pre2.closed_gen@, gen, n as int, ci as int, gen);
                }
                self.closed_gen.set(ci, gen);
                proof {
                    assert forall|c: int| 0 <= c < n && c != si && #[trigger] self.open_gen@[c] == gen implies self.parent_ok(m, who, c) by {
                        assert(pre2.parent_ok(m, who, c));
                    }
                    assert forall|c: int| 0 <= c < n && #[trigger] self.closed_gen@[c] == gen implies self.open_gen@[c] == gen by {
                        if c != ci {
                            assert(pre2.closed_gen@[c] == gen);
                        }
                    }
                    assert(self.search_ok(m, who, si as int));
                    lemma_count_eq_bound(self.closed_gen@, gen, n as int);
                }
                let ghost p1 = *self;
                let cp = map.pos(ci);
                proof {
                    lemma_goal_fits(m, goal, cp);
                }
                if goal.satisfied(cp) {
                    let path = self.walk_back(map, ci, si, Ghost(who), Ghost(start));
                    proof {
                        lemma_pos_of_idx(m, cp);
                        assert(cellpos(m, ci as int) == cp);
                        assert(pre.heap@[b].2 == ci);
                        assert forall|t: int| 0 <= t < pre.heap@.len() implies key_le(pre.heap@[b], #[trigger] pre.heap@[t]) by {
                            assert(pre.heap@ == h_pre);
                        }
                        if m.cells() <= SEARCH_CELLS_MAX && costs_at_least_full(m) {
                            assert forall|other: Seq<IVec>|
                                route_ok(m, who, start, other) && goal_met(goal, #[trigger] route_end(start, other)) implies route_cost(m, start, path@)
                                    <= route_cost(m, start, other) + crate::octile_spec(route_end(start, other), goal_target(goal)) by {
                                let w = route_end(start, other);
                                if other.len() > 0 {
                                    assert(step_ok(m, who, if 1 == other.len() { start } else { other[1] }, other[0]));
                                }
                                assert(m.inb(w));
                                lemma_pos_of_idx(m, w);
                                pre.lemma_finished_not_goal(m, who, goal, m.idx(w));
                                pre.lemma_pop_bound(m, who, start, goal, target, b, other);
                            }
                            if goal is Cell {
                                assert forall|other: Seq<IVec>|
                                    route_ok(m, who, start, other) && goal_met(goal, #[trigger] route_end(start, other)) implies route_cost(
                                        m,
                                        start,
                                        path@,
                                    ) <= route_cost(m, start, other) by {
                                    let w = route_end(start, other);
                                    assert(route_cost(m, start, path@) <= route_cost(m, start, other) + crate::octile_spec(w, goal_target(goal)));
                                    assert(w == goal_target(goal));
                                    assert(crate::octile_spec(w, w) == 0);
                                }
                            }
                        }
                    }
                    self.expanded = self.expanded.wrapping_add(expanded);
                    assert(0 <= expanded <= max_nodes + 1 && expanded <= n && self.expanded_spec() == bumped_by(old(self).expanded_spec(), expanded as int));
                    return Some(path);
                }
                expanded += 1;
                if expanded > max_nodes as u64 {
                    break;
                }
                let cg = self.g[ci];
                let ghost seq0 = seq;
                seq = self.relax_all(map, ci, cp, cg, seq, who, target, Ghost(si as int), Ghost(goal));
                proof {
                    map.lemma_cells_bound();
                    lemma_pos_of_idx(m, cp);
                    map.lemma_wf_lengths();
                    self.lemma_frontier_step(pre, p1, m, who, goal, si as int, b, ci as int, seq0 as int, target);
                    assert forall|t: int| 0 <= t < pre.heap@.len() implies key_le(pre.heap@[b], #[trigger] pre.heap@[t]) by {
                        assert(pre.heap@ == h_pre);
                    }
                    self.lemma_costs_step(pre, p1, m, who, goal, start, target, b, ci as int, seq0 as int);
                }
            } else {
                proof {
                    self.lemma_frontier_skip(pre, m, who, goal, b);
                    self.lemma_costs_skip(pre, m, who, start, target, b);
                }
            }
        }
        proof {
            if expanded != max_nodes + 1 && n <= SEARCH_CELLS_MAX {
                self.lemma_no_route(m, who, start, goal, si as int);
            }
        }
        self.expanded = self.expanded.wrapping_add(expanded);
        assert(0 <= expanded <= max_nodes + 1 && expanded <= n && self.expanded_spec() == bumped_by(old(self).expanded_spec(), expanded as int) && (expanded == max_nodes
            + 1 || m.cells() > SEARCH_CELLS_MAX || !route_exists(m, who, start, goal)));
        None
    }
}

/// Two king steps in different directions from one cell end on different
/// cells.
proof fn lemma_nb_distinct(m: MapView, cp: IVec, a: int, b: int)
    requires
        0 <= a < 8,
        0 <= b < 8,
        a != b,
        m.inb(cp),
        m.cells() <= i32::MAX,
        m.inb(nb_at(cp, a)),
        m.inb(nb_at(cp, b)),
    ensures
        m.idx(nb_at(cp, a)) != m.idx(nb_at(cp, b)),
{
    lemma_pos_of_idx(m, nb_at(cp, a));
    lemma_pos_of_idx(m, nb_at(cp, b));
    let da = crate::map::dir8_spec(a);
    let db = crate::map::dir8_spec(b);
    assert(da != db);
    assert(-1 <= da.0 <= 1 && -1 <= da.1 <= 1 && -1 <= db.0 <= 1 && -1 <= db.1 <= 1);
    assert(m.w <= i32::MAX && m.h <= i32::MAX) by (nonlinear_arith)
        requires
            0 <= cp.x < m.w,
            0 <= cp.y < m.h,
            m.w * m.h <= i32::MAX,
    ;
    assert(nb_at(cp, a).x == cp.x + da.0 && nb_at(cp, a).y == cp.y + da.1);
    assert(nb_at(cp, b).x == cp.x + db.0 && nb_at(cp, b).y == cp.y + db.1);
}

/// A legal step goes to one of the eight neighbours, by a direction that
/// is open to `who`.
proof fn lemma_step_dir(m: MapView, who: Faction, a: IVec, b: IVec)
    requires
        step_ok(m, who, a, b),
        m.inb(a),
        m.cells() <= i32::MAX,
    ensures
        exists|k: int| 0 <= k < 8 && nb_at(a, k) == b && step_open(m, who, a, k),
{
    assert(m.w <= i32::MAX && m.h <= i32::MAX) by (nonlinear_arith)
        requires
            0 <= a.x < m.w,
            0 <= a.y < m.h,
            m.w * m.h <= i32::MAX,
    ;
    let dx = b.x - a.x;
    let dy = b.y - a.y;
    let k: int = if dx == 1 && dy == 0 {
        0
    } else if dx == -1 && dy == 0 {
        1
    } else if dx == 0 && dy == 1 {
        2
    } else if dx == 0 && dy == -1 {
        3
    } else if dx == 1 && dy == 1 {
        4
    } else if dx == -1 && dy == 1 {
        5
    } else if dx == 1 && dy == -1 {
        6
    } else {
        7
    };
    assert(crate::map::dir8_spec(k) == (dx, dy));
    assert(nb_at(a, k) == b);
    assert(step_open(m, who, a, k));
}

/// A step costs at most `step_cost_max`.
proof fn lemma_step_cost(m: MapView, cp: IVec, k: int)
    requires
        m.inb(nb_at(cp, k)),
        m.floor_cost.len() == m.cells() && m.terrain_cost.len() == m.cells() && m.fix_cost.len() == m.cells(),
    ensures
        via_cost(m, cp, 0, k) <= step_cost_max(),
        via_cost(m, cp, 0, k) >= 1,
{
    let q = nb_at(cp, k);
    lemma_pos_of_idx(m, q);
    let c = cell_cost(m, q);
    assert(0 <= c <= 131070);
    assert((if k >= 4 { 14int } else { 10int }) * c / 100 <= 18349) by (nonlinear_arith)
        requires
            0 <= c <= 131070,
    ;
}

/// With the entered cell costing at least 100%, a step costs at least what
/// it shortens the octile distance to any target by.
proof fn lemma_octile_step(m: MapView, a: IVec, b: IVec, t: IVec)
    requires
        -1 <= b.x - a.x <= 1,
        -1 <= b.y - a.y <= 1,
        cell_cost(m, b) >= 100,
    ensures
        crate::octile_spec(a, t) <= step_price(m, a, b) + crate::octile_spec(b, t),
{
    reveal(step_price);
    let c = cell_cost(m, b);
    assert(14 * c / 100 >= 14 && 10 * c / 100 >= 10) by (nonlinear_arith)
        requires
            c >= 100,
    ;
}

/// With the entered cell costing at least 100%, a step costs at least what
/// it lengthens the octile distance from any point by.
proof fn lemma_octile_step_back(m: MapView, a: IVec, b: IVec, t: IVec)
    requires
        -1 <= b.x - a.x <= 1,
        -1 <= b.y - a.y <= 1,
        cell_cost(m, b) >= 100,
    ensures
        crate::octile_spec(b, t) <= step_price(m, a, b) + crate::octile_spec(a, t),
{
    reveal(step_price);
    let c = cell_cost(m, b);
    assert(14 * c / 100 >= 14 && 10 * c / 100 >= 10) by (nonlinear_arith)
        requires
            c >= 100,
    ;
}

/// Where every cell costs at least 100% to enter, no route costs less than
/// the octile distance between its ends: 10 a straight step, 14 a diagonal
/// one. So a straight step into ground of 500% costs at least 10, and a
/// diagonal step at least 14.
pub proof fn law_route_costs_at_least_octile(m: MapView, who: Faction, start: IVec, path: Seq<IVec>)
    requires
        costs_at_least_full(m),
        route_ok(m, who, start, path),
    ensures
        crate::octile_spec(route_end(start, path), start) <= route_cost(m, start, path),
    decreases path.len(),
{
    if path.len() == 0 {
        assert(crate::octile_spec(start, start) == 0);
    } else {
        let rest = path.drop_first();
        assert(route_ok(m, who, start, rest)) by {
            assert forall|t: int| 0 <= t < rest.len() implies step_ok(
                m,
                who,
                if t + 1 == rest.len() { start } else { rest[t + 1] },
                #[trigger] rest[t],
            ) by {
                assert(rest[t] == path[t + 1]);
                assert(step_ok(m, who, if t + 2 == path.len() { start } else { path[t + 2] }, path[t + 1]));
                if t + 1 < rest.len() {
                    assert(rest[t + 1] == path[t + 2]);
                }
            }
        }
        law_route_costs_at_least_octile(m, who, start, rest);
        let x = route_end(start, rest);
        let w = path[0];
        assert(step_ok(m, who, x, w)) by {
            assert(step_ok(m, who, if 1 == path.len() { start } else { path[1] }, path[0]));
            if path.len() > 1 {
                assert(rest[0] == path[1]);
            }
        }
        assert(m.inb(w));
        assert(cell_cost(m, w) >= 100);
        lemma_octile_step_back(m, x, w, start);
    }
}

/// Every route costs something, none less than nothing.
proof fn lemma_route_cost_nonneg(m: MapView, start: IVec, path: Seq<IVec>)
    ensures
        route_cost(m, start, path) >= 0,
    decreases path.len(),
{
    reveal(step_price);
    if path.len() > 0 {
        lemma_route_cost_nonneg(m, start, path.drop_first());
    }
}

/// Reaching a neighbour through `cp` costs what reaching `cp` did and the/// Reaching a neighbour through `cp` costs what reaching `cp` did and the
/// price of the step.
proof fn lemma_via_price(m: MapView, cp: IVec, cg: int, k: int)
    requires
        0 <= k < 8,
        i32::MIN < cp.x < i32::MAX,
        i32::MIN < cp.y < i32::MAX,
    ensures
        via_cost(m, cp, cg, k) == cg + step_price(m, cp, nb_at(cp, k)),
{
    let d = crate::map::dir8_spec(k);
    assert(k < 4 ==> (d.0 == 0 || d.1 == 0));
    assert(k >= 4 ==> (d.0 != 0 && d.1 != 0));
    let q = nb_at(cp, k);
    assert(q.x == cp.x + d.0 && q.y == cp.y + d.1);
    reveal(step_price);
}

/// A route with one more step at its beginning, from `a` to what was its
/// start `s`, costs that step more.
proof fn lemma_route_cost_push(m: MapView, a: IVec, path: Seq<IVec>, s: IVec)
    ensures
        route_cost(m, a, path.push(s)) == step_price(m, a, s) + route_cost(m, s, path),
    decreases path.len(),
{
    let pp = path.push(s);
    if path.len() == 0 {
        assert(pp.drop_first() =~= Seq::<IVec>::empty());
        assert(route_cost(m, a, pp) == route_cost(m, a, pp.drop_first()) + step_price(m, route_end(a, pp.drop_first()), pp[0]));
    } else {
        let r = path.drop_first();
        assert(pp.drop_first() =~= r.push(s));
        lemma_route_cost_push(m, a, r, s);
        assert(route_end(a, r.push(s)) == route_end(s, r)) by {
            if r.len() > 0 {
                assert(r.push(s)[0] == r[0]);
            }
        }
        assert(pp[0] == path[0]);
        assert(route_cost(m, a, pp) == route_cost(m, a, r.push(s)) + step_price(m, route_end(a, r.push(s)), path[0]));
        assert(route_cost(m, s, path) == route_cost(m, s, r) + step_price(m, route_end(s, r), path[0]));
    }
}

/// The point of a cell's index is the cell.
proof fn lemma_pos_of_idx(m: MapView, p: IVec)
    requires
        m.inb(p),
    ensures
        cellpos(m, m.idx(p)) == p,
        0 <= m.idx(p) < m.cells(),
{
    crate::map::lemma_idx_pos_pub(m.w, m.h, p.x as int, p.y as int);
}

proof fn lemma_start_pos(m: MapView, p: IVec)
    requires
        m.inb(p),
    ensures
        cellpos(m, m.idx(p)) == p,
{
    lemma_pos_of_idx(m, p);
}

} // verus!
