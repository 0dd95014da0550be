//! Stockpile zones: cells the player paints, and which items each takes.
//! They are the player's, so they change only by commands; hauling fills
//! them.
use vstd::prelude::*;
use crate::defs::{Category, DefId};
use crate::map::{TileMap, MapView};
use crate::rng::{mix, mix_spec};
use crate::IVec;

verus! {

#[derive(Clone, Debug)]
pub struct Zone {
    /// Stable for the zone's life, never reused.
    pub id: u32,
    pub name: String,
    /// The item defs it takes, sorted.
    pub allows: Vec<DefId>,
}

/// Each entry no larger than the next.
pub open spec fn sorted(s: Seq<DefId>) -> bool {
    forall|i: int, j: int| 0 <= i <= j < s.len() ==> s[i] <= s[j]
}

/// Each entry smaller than the next: sorted, without repeats.
pub open spec fn strictly_sorted(s: Seq<DefId>) -> bool {
    forall|i: int, j: int| 0 <= i < j < s.len() ==> s[i] < s[j]
}

/// `r` is `a`'s entries, sorted, each once.
pub open spec fn sorted_set_of(r: Seq<DefId>, a: Seq<DefId>) -> bool {
    strictly_sorted(r) && forall|d: DefId| r.contains(d) <==> a.contains(d)
}

impl Zone {
    /// Whether the zone takes items of `def`. Its filter is kept sorted.
    pub fn takes(&self, def: DefId) -> (r: bool)
        requires
            sorted(self.allows@),
        ensures
            r == self.allows@.contains(def),
    {
        let a = &self.allows;
        let mut lo: usize = 0;
        let mut hi: usize = a.len();
        while lo < hi
            invariant
                a@ == self.allows@,
                lo <= hi <= a@.len(),
                sorted(a@),
                forall|i: int| 0 <= i < lo ==> a@[i] < def,
                forall|i: int| hi <= i < a@.len() ==> a@[i] > def,
            decreases hi - lo,
        {
            let mid = lo + (hi - lo) / 2;
            if a[mid] == def {
                assert(self.allows@[mid as int] == def);
                assert(self.allows@.contains(def)) by {
                    assert(0 <= mid < self.allows@.len());
                }
                return true;
            } else if a[mid] < def {
                lo = mid + 1;
            } else {
                hi = mid;
            }
        }
        proof {
            if a@.contains(def) {
                let t = choose|t: int| 0 <= t < a@.len() && a@[t] == def;
            }
        }
        false
    }
}

/// The indices, below `n`, of the cells in zone `id`, in map order.
pub open spec fn cells_with(cells: Seq<u32>, id: u32, n: int) -> Seq<u32>
    decreases n,
{
    if n <= 0 {
        Seq::empty()
    } else if cells[n - 1] == id {
        cells_with(cells, id, n - 1).push((n - 1) as u32)
    } else {
        cells_with(cells, id, n - 1)
    }
}

/// No zone before the `k`th has its id.
pub open spec fn first_of(list: Seq<Zone>, k: int) -> bool {
    forall|j: int| 0 <= j < k ==> list[j].id != list[k].id
}

/// The member cells listed for the `k`th zone: all of its cells, unless an
/// earlier zone has the same id and took them.
pub open spec fn member_cells(list: Seq<Zone>, cells: Seq<u32>, k: int) -> Seq<u32> {
    if first_of(list, k) {
        cells_with(cells, list[k].id, cells.len() as int)
    } else {
        Seq::empty()
    }
}

/// Every zone's cells, oldest zone first, cells in map order, each with its
/// zone's id.
pub open spec fn members_flat(list: Seq<Zone>, cells: Seq<u32>, k: int) -> Seq<(u32, u32)>
    decreases k,
{
    if k <= 0 {
        Seq::empty()
    } else {
        members_flat(list, cells, k - 1) + member_cells(list, cells, k - 1).map_values(|c: u32| (list[k - 1].id, c))
    }
}

/// How many member entries name cell `c`.
pub open spec fn entries_for(mf: Seq<(u32, u32)>, c: u32) -> int
    decreases mf.len(),
{
    if mf.len() == 0 {
        0
    } else {
        entries_for(mf.drop_last(), c) + if mf.last().1 == c { 1int } else { 0int }
    }
}

/// Counting over two lists one after the other adds up.
proof fn lemma_entries_concat(a: Seq<(u32, u32)>, b: Seq<(u32, u32)>, c: u32)
    ensures
        entries_for(a + b, c) == entries_for(a, c) + entries_for(b, c),
    decreases b.len(),
{
    if b.len() > 0 {
        assert((a + b).drop_last() =~= a + b.drop_last());
        lemma_entries_concat(a, b.drop_last(), c);
    } else {
        assert(a + b =~= a);
    }
}

/// A zone's cells name cell `c` once when `c` is one of them, else never.
proof fn lemma_entries_cells_with(cells: Seq<u32>, id: u32, n: int, c: int)
    requires
        0 <= n <= cells.len() <= u32::MAX + 1,
        0 <= c < cells.len(),
    ensures
        entries_for(cells_with(cells, id, n).map_values(|x: u32| (id, x)), c as u32) == if c < n && cells[c] == id { 1int } else { 0int },
    decreases n,
{
    if n > 0 {
        lemma_entries_cells_with(cells, id, n - 1, c);
        let before = cells_with(cells, id, n - 1).map_values(|x: u32| (id, x));
        if cells[n - 1] == id {
            assert(cells_with(cells, id, n).map_values(|x: u32| (id, x)) =~= before.push((id, (n - 1) as u32)));
            assert(before.push((id, (n - 1) as u32)).drop_last() =~= before);
        } else {
            assert(cells_with(cells, id, n).map_values(|x: u32| (id, x)) =~= before);
        }
    }
}

/// Some zone among the first `k` has id `id`.
pub open spec fn zone_among(list: Seq<Zone>, id: u32, k: int) -> bool {
    exists|j: int| 0 <= j < k && list[j].id == id
}

/// The member entries of the first `k` zones name a cell once when one of
/// those zones has the cell's id, and never otherwise.
proof fn lemma_entries_members(list: Seq<Zone>, cells: Seq<u32>, k: int, c: int)
    requires
        0 <= k <= list.len(),
        cells.len() <= u32::MAX + 1,
        0 <= c < cells.len(),
    ensures
        entries_for(members_flat(list, cells, k), c as u32) == if zone_among(list, cells[c], k) { 1int } else { 0int },
    decreases k,
{
    if k > 0 {
        lemma_entries_members(list, cells, k - 1, c);
        let id = list[k - 1].id;
        let seg = member_cells(list, cells, k - 1).map_values(|x: u32| (list[k - 1].id, x));
        lemma_entries_concat(members_flat(list, cells, k - 1), seg, c as u32);
        if first_of(list, k - 1) {
            assert(seg =~= cells_with(cells, id, cells.len() as int).map_values(|x: u32| (id, x)));
            lemma_entries_cells_with(cells, id, cells.len() as int, c);
            if zone_among(list, cells[c], k - 1) && id == cells[c] {
                let j = choose|j: int| 0 <= j < k - 1 && list[j].id == cells[c];
                assert(list[j].id == list[k - 1].id);
            }
        } else {
            assert(seg =~= Seq::<(u32, u32)>::empty());
            if id == cells[c] {
                let j = choose|j: int| 0 <= j < k - 1 && #[trigger] list[j].id == list[k - 1].id;
                assert(zone_among(list, cells[c], k - 1));
            }
        }
        if zone_among(list, cells[c], k) && !zone_among(list, cells[c], k - 1) {
            let j = choose|j: int| 0 <= j < k && list[j].id == cells[c];
            assert(j == k - 1);
        }
    }
}

/// Each cell of a zone in the list appears among the members exactly
/// once, with that zone's id; a cell no listed zone has, never.
pub proof fn law_members_once(list: Seq<Zone>, cells: Seq<u32>, c: int)
    requires
        cells.len() <= u32::MAX + 1,
        0 <= c < cells.len(),
    ensures
        entries_for(members_flat(list, cells, list.len() as int), c as u32) == if has_zone(list, cells[c]) { 1int } else { 0int },
{
    lemma_entries_members(list, cells, list.len() as int, c);
}

/// The zones' order and ids in a list.
pub open spec fn ids_of(list: Seq<Zone>) -> Seq<u32> {
    list.map_values(|z: Zone| z.id)
}

/// The zones of `list` that still have a cell.
pub open spec fn with_cells(list: Seq<Zone>, cells: Seq<u32>) -> Seq<Zone>
    decreases list.len(),
{
    if list.len() == 0 {
        Seq::empty()
    } else if cells.contains(list.last().id) {
        with_cells(list.drop_last(), cells).push(list.last())
    } else {
        with_cells(list.drop_last(), cells)
    }
}

#[derive(Clone, Debug)]
pub struct Zones {
    /// In the order they were made.
    pub list: Vec<Zone>,
    pub next_id: u32,
    /// The zone each cell belongs to; 0 for none.
    pub cells: Vec<u32>,
    /// Each zone's cells, by map index, rebuilt whenever cells change so a
    /// search walks a zone rather than the map. Derived, never saved.
    members: Vec<(u32, Vec<u32>)>,
}

impl Default for Zones {
    fn default() -> (r: Self)
        ensures
            r.wf(),
            r.is_blank(),
    {
        Zones { list: Vec::new(), next_id: 0, cells: Vec::new(), members: Vec::new() }
    }
}

/// A cell index lies between `a` and `b`, corners included.
pub open spec fn in_rect(m: MapView, a: IVec, b: IVec, i: int) -> bool {
    &&& crate::min_int(a.x as int, b.x as int) <= m.pos_x(i) <= crate::max_int(a.x as int, b.x as int)
    &&& crate::min_int(a.y as int, b.y as int) <= m.pos_y(i) <= crate::max_int(a.y as int, b.y as int)
}

/// A cell after painting: in the rectangle, it joins `id` if it was in no
/// zone, or leaves its zone when `id` is none; outside, it stays.
pub open spec fn painted(m: MapView, a: IVec, b: IVec, id: Option<u32>, cells: Seq<u32>, i: int) -> u32 {
    if in_rect(m, a, b, i) {
        match id {
            Some(z) => if cells[i] == 0 { z } else { cells[i] },
            None => 0,
        }
    } else {
        cells[i]
    }
}

/// Painting into a zone never takes a cell from another zone: a cell
/// already in a zone stays in it.
pub proof fn law_paint_keeps_other_zones(m: MapView, a: IVec, b: IVec, z: u32, cells: Seq<u32>, i: int)
    requires
        0 <= i < cells.len(),
        cells[i] != 0,
    ensures
        painted(m, a, b, Some(z), cells, i) == cells[i],
{
}

/// Some zone in the list has this id.
pub open spec fn has_zone(list: Seq<Zone>, id: u32) -> bool {
    exists|k: int| 0 <= k < list.len() && list[k].id == id
}

/// What the contracts see of the zones.
pub struct ZonesView {
    pub list: Seq<Zone>,
    pub next_id: u32,
    pub cells: Seq<u32>,
}

impl Zones {
    /// The zones as the contracts see them.
    pub closed spec fn view(&self) -> ZonesView {
        ZonesView { list: self.list@, next_id: self.next_id, cells: self.cells@ }
    }

    /// No zones, no cells, and no id handed out yet.
    pub closed spec fn is_blank(&self) -> bool {
        self.list@.len() == 0 && self.next_id == 0 && self.cells@.len() == 0
    }

    /// The member lists are in step with the zones and their cells.
    pub closed spec fn wf(&self) -> bool {
        &&& self.members@.len() == self.list@.len()
        &&& forall|k: int| 0 <= k < self.list@.len() ==> (#[trigger] self.members@[k]).0 == self.list@[k].id
            && self.members@[k].1@ == member_cells(self.list@, self.cells@, k)
    }

    /// No zones, and `cells` cells in none.
    pub fn new(cells: usize) -> (z: Zones)
        ensures
            z.wf(),
            z.view().list.len() == 0,
            z.view().next_id == 1,
            z.view().cells.len() == cells,
            forall|i: int| 0 <= i < cells ==> z.view().cells[i] == 0,
    {
        Zones { list: Vec::new(), next_id: 1, cells: crate::map::filled(0u32, cells), members: Vec::new() }
    }

    /// Where the first zone with this id is.
    fn find(&self, id: u32) -> (r: Option<usize>)
        ensures
            match r {
                Some(k) => k < self.list@.len() && self.list@[k as int].id == id && forall|j: int|
                    0 <= j < k ==> self.list@[j].id != id,
                None => !has_zone(self.list@, id),
            },
    {
        let mut k: usize = 0;
        while k < self.list.len()
            invariant
                k <= self.list@.len(),
                forall|j: int| 0 <= j < k ==> self.list@[j].id != id,
            decreases self.list@.len() - k,
        {
            if self.list[k].id == id {
                return Some(k);
            }
            k += 1;
        }
        None
    }

    /// The first zone with this id.
    pub fn get(&self, id: u32) -> (r: Option<&Zone>)
        ensures
            match r {
                Some(z) => exists|k: int|
                    0 <= k < self.view().list.len() && self.view().list[k] == *z && z.id == id && forall|j: int|
                        0 <= j < k ==> self.view().list[j].id != id,
                None => !has_zone(self.view().list, id),
            },
    {
        match self.find(id) {
            Some(k) => {
                let r = &self.list[k];
                assert(self.view().list[k as int] == *r);
                Some(r)
            },
            None => None,
        }
    }

    /// The zone a cell is in.
    pub fn at(&self, map: &TileMap, p: IVec) -> (r: Option<&Zone>)
        requires
            map.wf(),
            self.view().cells.len() == map.view().cells(),
        ensures
            !map.view().inb(p) ==> r is None,
            map.view().inb(p) && self.view().cells[map.view().idx(p)] == 0 ==> r is None,
            map.view().inb(p) && self.view().cells[map.view().idx(p)] != 0 ==> match r {
                Some(z) => z.id == self.view().cells[map.view().idx(p)] && exists|k: int|
                    0 <= k < self.view().list.len() && self.view().list[k] == *z && forall|j: int| 0 <= j < k ==> self.view().list[j].id != z.id,
                None => !has_zone(self.view().list, self.view().cells[map.view().idx(p)]),
            },
    {
        if !map.inb(p) {
            return None;
        }
        let c = self.cells[map.idx(p)];
        if c == 0 {
            None
        } else {
            self.get(c)
        }
    }

    /// Every zone's cells, oldest zone first, cells in map order: the zone's
    /// id, then the cell.
    pub fn members(&self) -> (r: Vec<(u32, u32)>)
        requires
            self.wf(),
        ensures
            r@ == members_flat(self.view().list, self.view().cells, self.view().list.len() as int),
    {
        let mut r: Vec<(u32, u32)> = Vec::new();
        let mut k: usize = 0;
        while k < self.members.len()
            invariant
                self.wf(),
                k <= self.list@.len(),
                r@ == members_flat(self.list@, self.cells@, k as int),
            decreases self.list@.len() - k,
        {
            let id = self.members[k].0;
            let cs = &self.members[k].1;
            let ghost base = r@;
            let mut t: usize = 0;
            while t < cs.len()
                invariant
                    self.wf(),
                    k < self.list@.len(),
                    id == self.list@[k as int].id,
                    cs@ == member_cells(self.list@, self.cells@, k as int),
                    t <= cs@.len(),
                    r@ == base + cs@.take(t as int).map_values(|c: u32| (id, c)),
                decreases cs@.len() - t,
            {
                r.push((id, cs[t]));
                t += 1;
                assert(r@ =~= base + cs@.take(t as int).map_values(|c: u32| (id, c)));
            }
            assert(cs@.take(t as int) =~= cs@);
            k += 1;
        }
        r
    }

    /// The cells, in map order, of zone `id`.
    fn collect_cells(&self, id: u32) -> (v: Vec<u32>)
        requires
            self.cells@.len() <= u32::MAX,
        ensures
            v@ == cells_with(self.cells@, id, self.cells@.len() as int),
    {
        let mut v: Vec<u32> = Vec::new();
        let mut i: usize = 0;
        while i < self.cells.len()
            invariant
                i <= self.cells@.len() <= u32::MAX,
                v@ == cells_with(self.cells@, id, i as int),
            decreases self.cells@.len() - i,
        {
            if self.cells[i] == id {
                v.push(i as u32);
            }
            i += 1;
        }
        v
    }

    /// Rebuild the member lists.
    fn index(&mut self)
        requires
            old(self).cells@.len() <= u32::MAX,
        ensures
            final(self).wf(),
            final(self).list == old(self).list,
            final(self).cells == old(self).cells,
            final(self).next_id == old(self).next_id,
    {
        let mut members: Vec<(u32, Vec<u32>)> = Vec::new();
        let mut k: usize = 0;
        while k < self.list.len()
            invariant
                self.list == old(self).list,
                self.cells == old(self).cells,
                self.next_id == old(self).next_id,
                self.cells@.len() <= u32::MAX,
                k <= self.list@.len(),
                members@.len() == k,
                forall|j: int| 0 <= j < k ==> (#[trigger] members@[j]).0 == self.list@[j].id
                    && members@[j].1@ == member_cells(self.list@, self.cells@, j),
            decreases self.list@.len() - k,
        {
            let id = self.list[k].id;
            let mut first = true;
            let mut j: usize = 0;
            while j < k
                invariant
                    k < self.list@.len(),
                    id == self.list@[k as int].id,
                    j <= k,
                    first == forall|t: int| 0 <= t < j ==> self.list@[t].id != id,
                decreases k - j,
            {
                if self.list[j].id == id {
                    first = false;
                }
                j += 1;
            }
            let cs = if first { self.collect_cells(id) } else { Vec::new() };
            members.push((id, cs));
            k += 1;
        }
        self.members = members;
    }

    /// Whether some cell is in zone `id`.
    fn has_cell(&self, id: u32) -> (r: bool)
        ensures
            r == self.cells@.contains(id),
    {
        let mut i: usize = 0;
        while i < self.cells.len()
            invariant
                i <= self.cells@.len(),
                forall|t: int| 0 <= t < i ==> self.cells@[t] != id,
            decreases self.cells@.len() - i,
        {
            if self.cells[i] == id {
                return true;
            }
            i += 1;
        }
        false
    }

    /// Drop the zones left without a cell, keeping the others in order.
    fn drop_empty(&mut self)
        ensures
            final(self).list@ == with_cells(old(self).list@, old(self).cells@),
            final(self).cells == old(self).cells,
            final(self).next_id == old(self).next_id,
    {
        let ghost l0 = self.list@;
        let mut out: Vec<Zone> = Vec::new();
        let mut k: usize = 0;
        let n = self.list.len();
        while k < n
            invariant
                n == l0.len(),
                k <= n,
                self.list@ == l0.skip(k as int),
                self.cells == old(self).cells,
                self.next_id == old(self).next_id,
                l0 == old(self).list@,
                out@ == with_cells(l0.take(k as int), self.cells@),
            decreases n - k,
        {
            let z = self.list.remove(0);
            proof {
                assert(z == l0[k as int]);
                assert(l0.take(k as int + 1).drop_last() =~= l0.take(k as int));
                assert(self.list@ =~= l0.skip(k as int + 1));
            }
            if self.has_cell(z.id) {
                out.push(z);
            }
            k += 1;
        }
        assert(l0.take(n as int) =~= l0);
        self.list = out;
    }

    /// Put the cells from `a` to `b` in zone `id`, or in none. Painting
    /// never takes a cell from another zone: clear it first. A zone left
    /// with no cells is gone. Painting into a zone that doesn't exist does
    /// nothing.
    pub fn paint(&mut self, map: &TileMap, a: IVec, b: IVec, id: Option<u32>)
        requires
            old(self).wf(),
            map.wf(),
            old(self).view().cells.len() == map.view().cells(),
        ensures
            final(self).wf(),
            final(self).view().next_id == old(self).view().next_id,
            id matches Some(z) && !has_zone(old(self).view().list, z) ==> final(self).view() == old(self).view(),
            !(id matches Some(z) && !has_zone(old(self).view().list, z)) ==> {
                &&& final(self).view().cells.len() == old(self).view().cells.len()
                &&& forall|i: int|
                    0 <= i < old(self).view().cells.len() ==> #[trigger] final(self).view().cells[i] == painted(
                        map.view(),
                        a,
                        b,
                        id,
                        old(self).view().cells,
                        i,
                    )
                &&& final(self).view().list == with_cells(old(self).view().list, final(self).view().cells)
            },
    {
        if let Some(z) = id {
            if self.find(z).is_none() {
                return;
            }
        }
        let ghost m = map.view();
        let ghost c0 = self.cells@;
        let ghost l0 = self.list@;
        let ghost ms0 = self.members@;
        proof {
            map.lemma_cells_bound();
        }
        let (w, h) = map.dims();
        let x0 = if a.x < b.x { a.x } else { b.x };
        let x0 = if x0 < 0 { 0 } else { x0 };
        let x1 = if a.x < b.x { b.x } else { a.x };
        let x1 = if x1 > w - 1 { w - 1 } else { x1 };
        let y0 = if a.y < b.y { a.y } else { b.y };
        let y0 = if y0 < 0 { 0 } else { y0 };
        let y1 = if a.y < b.y { b.y } else { a.y };
        let y1 = if y1 > h - 1 { h - 1 } else { y1 };
        let mut y = y0;
        proof {
            assert forall|i: int| 0 <= i < c0.len() implies #[trigger] self.cells@[i] == (if m.pos_y(i) < y { painted(m, a, b, id, c0, i) } else { c0[i] }) by {
                crate::map::lemma_pos_idx_pub(m.w, m.h, i);
            }
        }
        while y <= y1
            invariant
                m.w >= 0,
                m.h >= 0,
                self.list@ == l0,
                self.members@ == ms0,
                self.next_id == old(self).next_id,
                map.wf(),
                m == map.view(),
                w == m.w,
                h == m.h,
                0 <= m.cells() <= i32::MAX,
                0 <= y0,
                y1 <= h - 1,
                y0 <= y <= y1 + 1 || (y == y0 && y0 > y1),
                0 <= x0,
                x1 <= w - 1,
                x0 == crate::max_int(crate::min_int(a.x as int, b.x as int), 0),
                x1 == crate::min_int(crate::max_int(a.x as int, b.x as int), w - 1),
                y0 == crate::max_int(crate::min_int(a.y as int, b.y as int), 0),
                y1 == crate::min_int(crate::max_int(a.y as int, b.y as int), h - 1),
                c0.len() == m.cells(),
                self.cells@.len() == c0.len(),
                forall|i: int|
                    0 <= i < c0.len() ==> #[trigger] self.cells@[i] == (if m.pos_y(i) < y { painted(m, a, b, id, c0, i) } else { c0[i] }),
            decreases y1 + 1 - y,
        {
            let mut x = x0;
            while x <= x1
                invariant
                    m.w >= 0,
                    m.h >= 0,
                    self.list@ == l0,
                    self.members@ == ms0,
                    self.next_id == old(self).next_id,
                    map.wf(),
                    m == map.view(),
                    w == m.w,
                    h == m.h,
                    0 <= m.cells() <= i32::MAX,
                    0 <= y0 <= y <= y1,
                    y1 <= h - 1,
                    x0 <= x <= x1 + 1 || (x == x0 && x0 > x1),
                    0 <= x0,
                    x1 <= w - 1,
                    x0 == crate::max_int(crate::min_int(a.x as int, b.x as int), 0),
                    x1 == crate::min_int(crate::max_int(a.x as int, b.x as int), w - 1),
                    y0 == crate::max_int(crate::min_int(a.y as int, b.y as int), 0),
                    y1 == crate::min_int(crate::max_int(a.y as int, b.y as int), h - 1),
                    c0.len() == m.cells(),
                    self.cells@.len() == c0.len(),
                    forall|i: int|
                        0 <= i < c0.len() ==> #[trigger] self.cells@[i] == (if m.pos_y(i) < y || (m.pos_y(i) == y && m.pos_x(i)
                            < x) {
                            painted(m, a, b, id, c0, i)
                        } else {
                            c0[i]
                        }),
                decreases x1 + 1 - x,
            {
                let p = IVec::new(x, y);
                let i = map.idx(p);
                proof {
                    crate::map::lemma_idx_pos_pub(m.w, m.h, x as int, y as int);
                    assert(in_rect(m, a, b, i as int));
                }
                match id {
                    Some(z) => {
                        if self.cells[i] == 0 {
                            self.cells.set(i, z);
                        }
                    },
                    None => {
                        self.cells.set(i, 0);
                    },
                }
                proof {
                    assert forall|t: int| 0 <= t < c0.len() implies #[trigger] self.cells@[t] == (if m.pos_y(t) < y || (m.pos_y(t)
                        == y && m.pos_x(t) < x + 1) {
                        painted(m, a, b, id, c0, t)
                    } else {
                        c0[t]
                    }) by {
                        crate::map::lemma_pos_idx_pub(m.w, m.h, t);
                        if t != i {
                            assert(m.pos_x(t) != x || m.pos_y(t) != y) by {
                                if m.pos_x(t) == x && m.pos_y(t) == y {
                                    assert(t == m.pos_y(t) * m.w + m.pos_x(t));
                                }
                            }
                        }
                    }
                }
                x += 1;
            }
            proof {
                assert forall|t: int| 0 <= t < c0.len() implies #[trigger] self.cells@[t] == (if m.pos_y(t) < y + 1 {
                    painted(m, a, b, id, c0, t)
                } else {
                    c0[t]
                }) by {
                    crate::map::lemma_pos_idx_pub(m.w, m.h, t);
                    if m.pos_y(t) == y && (m.pos_x(t) < x0 || m.pos_x(t) > x1) {
                        assert(!in_rect(m, a, b, t));
                    }
                }
            }
            y += 1;
        }
        proof {
            assert forall|t: int| 0 <= t < c0.len() implies #[trigger] self.cells@[t] == painted(m, a, b, id, c0, t) by {
                crate::map::lemma_pos_idx_pub(m.w, m.h, t);
                if m.pos_y(t) >= y {
                    assert(!in_rect(m, a, b, t));
                }
            }
        }
        self.drop_empty();
        self.index();
    }

    /// A new zone over the free cells from `a` to `b`, taking every item
    /// there is now (the things whose category is `Item`, by def id); an
    /// item a mod adds later is the player's to allow. Returns its id.
    pub fn create(&mut self, categories: &[Category], map: &TileMap, a: IVec, b: IVec) -> (id: u32)
        requires
            old(self).wf(),
            map.wf(),
            old(self).view().cells.len() == map.view().cells(),
            old(self).view().next_id < u32::MAX,
            categories@.len() <= DefId::MAX + 1,
        ensures
            id == old(self).view().next_id,
            final(self).wf(),
            final(self).view().next_id == old(self).view().next_id + 1,
            forall|i: int|
                0 <= i < old(self).view().cells.len() ==> #[trigger] final(self).view().cells[i] == painted(
                    map.view(),
                    a,
                    b,
                    Some(id),
                    old(self).view().cells,
                    i,
                ),
            exists|z: Zone|
                {
                    &&& z.id == id
                    &&& z.name@ == "Stockpile "@ + crate::text::decimal_spec(id as nat)
                    &&& z.allows@ == items_below(categories@, categories@.len() as int)
                    &&& final(self).view().list == with_cells(old(self).view().list.push(z), final(self).view().cells)
                },
    {
        let id = self.next_id;
        self.next_id = self.next_id + 1;
        let mut allows: Vec<DefId> = Vec::new();
        let mut d: usize = 0;
        while d < categories.len()
            invariant
                d <= categories@.len() <= DefId::MAX + 1,
                allows@ == items_below(categories@, d as int),
            decreases categories@.len() - d,
        {
            if categories[d] == Category::Item {
                allows.push(d as DefId);
            }
            d += 1;
        }
        let name = String::from_str("Stockpile ").concat(crate::text::decimal(id as u64).as_str());
        let zone = Zone { id, name, allows };
        let ghost zg = zone;
        let ghost l0 = self.list@;
        self.list.push(zone);
        proof {
            map.lemma_cells_bound();
        }
        self.index();
        proof {
            assert(has_zone(self.list@, id)) by {
                assert(self.list@[self.list@.len() - 1].id == id);
            }
        }
        self.paint(map, a, b, Some(id));
        assert(l0.push(zg) == old(self).view().list.push(zg));
        assert(zg.id == id && zg.name@ == "Stockpile "@ + crate::text::decimal_spec(id as nat)
            && zg.allows@ == items_below(categories@, categories@.len() as int)
            && self.view().list == with_cells(old(self).view().list.push(zg), self.view().cells));
        id
    }
}

/// The item defs below `d`, in order.
pub open spec fn items_below(categories: Seq<Category>, d: int) -> Seq<DefId>
    decreases d,
{
    if d <= 0 {
        Seq::empty()
    } else if categories[d - 1] == Category::Item {
        items_below(categories, d - 1).push((d - 1) as DefId)
    } else {
        items_below(categories, d - 1)
    }
}


/// `z` is the one zone that cells between `a` and `b` are in.
pub open spec fn rect_zone(m: MapView, a: IVec, b: IVec, cells: Seq<u32>, z: u32) -> bool {
    &&& z != 0
    &&& exists|i: int| 0 <= i < m.cells() && in_rect(m, a, b, i) && cells[i] == z
    &&& forall|i: int| 0 <= i < m.cells() && in_rect(m, a, b, i) ==> cells[i] == 0 || cells[i] == z
}

/// `r` lists exactly the members of `s`, sorted, each once.
pub open spec fn sorted_set_is(r: Seq<DefId>, s: Set<DefId>) -> bool {
    strictly_sorted(r) && forall|d: DefId| r.contains(d) <==> s.contains(d)
}

/// `l1` is `l0` with the first zone of id `id` letting `def` in (`on`) or
/// keeping it out, and every other zone as it was.
pub open spec fn allowed(l0: Seq<Zone>, l1: Seq<Zone>, id: u32, def: DefId, on: bool) -> bool {
    &&& l1.len() == l0.len()
    &&& forall|k: int|
        0 <= k < l0.len() ==> {
            let z0 = l0[k];
            let z1 = #[trigger] l1[k];
            if z0.id == id && first_of(l0, k) {
                &&& z1.id == z0.id
                &&& z1.name == z0.name
                &&& sorted_set_is(z1.allows@, if on { z0.allows@.to_set().insert(def) } else { z0.allows@.to_set().remove(def) })
            } else {
                z1 == z0
            }
        }
}

/// Two lists each sorted without repeats that hold the same items are the
/// same list.
proof fn lemma_sorted_sets_equal(a: Seq<DefId>, b: Seq<DefId>)
    requires
        strictly_sorted(a),
        strictly_sorted(b),
        forall|d: DefId| a.contains(d) <==> b.contains(d),
    ensures
        a == b,
    decreases a.len(),
{
    if a.len() == 0 {
        if b.len() > 0 {
            assert(b.contains(b[0]));
        }
    } else if b.len() == 0 {
        assert(a.contains(a[0]));
    } else {
        // The last items are the greatest of each, so they agree.
        let x = a.last();
        let y = b.last();
        assert(a.contains(x));
        assert(b.contains(y));
        let i = choose|i: int| 0 <= i < b.len() && b[i] == x;
        let j = choose|j: int| 0 <= j < a.len() && a[j] == y;
        assert(x == y) by {
            if x < y {
                assert(a[j] <= x);
            } else if y < x {
                assert(b[i] <= y);
            }
        }
        assert forall|d: DefId| a.drop_last().contains(d) <==> b.drop_last().contains(d) by {
            if a.drop_last().contains(d) {
                let p = choose|p: int| 0 <= p < a.len() - 1 && a[p] == d;
                assert(b.contains(d));
                let q = choose|q: int| 0 <= q < b.len() && b[q] == d;
                assert(q != b.len() - 1);
                assert(b.drop_last()[q] == d);
            }
            if b.drop_last().contains(d) {
                let q = choose|q: int| 0 <= q < b.len() - 1 && b[q] == d;
                assert(a.contains(d));
                let p = choose|p: int| 0 <= p < a.len() && a[p] == d;
                assert(p != a.len() - 1);
                assert(a.drop_last()[p] == d);
            }
        }
        lemma_sorted_sets_equal(a.drop_last(), b.drop_last());
        assert(a =~= a.drop_last().push(x));
        assert(b =~= b.drop_last().push(y));
    }
}

/// Letting an item in (or keeping it out) twice does what doing it once
/// does.
pub proof fn law_allow_twice_is_once(l0: Seq<Zone>, l1: Seq<Zone>, l2: Seq<Zone>, id: u32, def: DefId, on: bool)
    requires
        allowed(l0, l1, id, def, on),
        allowed(l1, l2, id, def, on),
    ensures
        l2.len() == l1.len(),
        forall|k: int| 0 <= k < l1.len() ==> (#[trigger] l2[k]).id == l1[k].id && l2[k].name == l1[k].name && l2[k].allows@ == l1[k].allows@,
{
    assert forall|k: int| 0 <= k < l1.len() implies (#[trigger] l2[k]).id == l1[k].id && l2[k].name == l1[k].name && l2[k].allows@ == l1[k].allows@ by {
        let z0 = l0[k];
        let z1 = l1[k];
        assert(first_of(l1, k) == first_of(l0, k)) by {
            assert forall|j: int| 0 <= j < k implies (l1[j].id == l1[k].id <==> l0[j].id == l0[k].id) by {
                let a = l0[j];
                let b = l1[j];
            }
        }
        if z0.id == id && first_of(l0, k) {
            let s1 = if on { z0.allows@.to_set().insert(def) } else { z0.allows@.to_set().remove(def) };
            let s2 = if on { z1.allows@.to_set().insert(def) } else { z1.allows@.to_set().remove(def) };
            assert forall|d: DefId| l2[k].allows@.contains(d) <==> z1.allows@.contains(d) by {
                assert(z1.allows@.contains(d) <==> z1.allows@.to_set().contains(d));
            }
            lemma_sorted_sets_equal(l2[k].allows@, z1.allows@);
        }
    }
}

/// Every zone's filter is sorted without repeats.
pub open spec fn filters_sorted(list: Seq<Zone>) -> bool {
    forall|k: int| 0 <= k < list.len() ==> strictly_sorted(#[trigger] list[k].allows@)
}

/// The same zone, its filter perhaps rewritten as the sorted set of what it
/// was.
pub open spec fn zone_like(z2: Zone, z1: Zone) -> bool {
    z2.id == z1.id && z2.name@ == z1.name@ && sorted_set_of(z2.allows@, z1.allows@)
}

/// Two lists of the same zones in the same order, filters perhaps rewritten.
pub open spec fn zones_like(l2: Seq<Zone>, l1: Seq<Zone>) -> bool {
    l2.len() == l1.len() && forall|k: int| 0 <= k < l1.len() ==> zone_like(#[trigger] l2[k], l1[k])
}

/// The zones a loaded list keeps: those with an id, each id's first one.
pub open spec fn first_zones(list: Seq<Zone>) -> Seq<Zone>
    decreases list.len(),
{
    if list.len() == 0 {
        Seq::empty()
    } else {
        let last = list.last();
        let rest = first_zones(list.drop_last());
        if last.id != 0 && !has_zone(list.drop_last(), last.id) {
            rest.push(last)
        } else {
            rest
        }
    }
}

/// The largest id in a list; 0 for none.
pub open spec fn max_id(list: Seq<Zone>) -> int
    decreases list.len(),
{
    if list.len() == 0 {
        0
    } else {
        crate::max_int(max_id(list.drop_last()), list.last().id as int)
    }
}

/// A cell after tidying: in no zone if its zone doesn't exist.
pub open spec fn tidied_cell(list: Seq<Zone>, c: u32) -> u32 {
    if c != 0 && !has_zone(list, c) { 0 } else { c }
}

/// Where `def` goes in a filter sorted without repeats: everything before
/// is smaller, everything from there on is at least as large.
fn lower_bound(a: &Vec<DefId>, def: DefId) -> (r: usize)
    requires
        strictly_sorted(a@),
    ensures
        r <= a@.len(),
        forall|i: int| 0 <= i < r ==> a@[i] < def,
        forall|i: int| r <= i < a@.len() ==> a@[i] >= def,
{
    let mut lo: usize = 0;
    let mut hi: usize = a.len();
    while lo < hi
        invariant
            lo <= hi <= a@.len(),
            strictly_sorted(a@),
            forall|i: int| 0 <= i < lo ==> a@[i] < def,
            forall|i: int| hi <= i < a@.len() ==> a@[i] >= def,
        decreases hi - lo,
    {
        let mid = lo + (hi - lo) / 2;
        if a[mid] < def {
            lo = mid + 1;
        } else {
            hi = mid;
        }
    }
    lo
}

/// Adds `def` to a filter sorted without repeats, or takes it out.
fn set_allowed(a: &mut Vec<DefId>, def: DefId, on: bool)
    requires
        strictly_sorted(old(a)@),
    ensures
        sorted_set_is(final(a)@, if on { old(a)@.to_set().insert(def) } else { old(a)@.to_set().remove(def) }),
{
    let i = lower_bound(a, def);
    let ghost a0 = a@;
    let present = i < a.len() && a[i] == def;
    if on && !present {
        a.insert(i, def);
        proof {
            assert forall|x: int, y: int| 0 <= x < y < a@.len() implies a@[x] < a@[y] by {
                if y < i {
                } else if x > i {
                    assert(a@[x] == a0[x - 1] && a@[y] == a0[y - 1]);
                } else if x == i {
                    assert(a@[y] == a0[y - 1]);
                } else if y == i {
                } else {
                    assert(a@[y] == a0[y - 1]);
                    assert(a0[x] < a0[y - 1] || x == y - 1);
                }
            }
            assert forall|d: DefId| a@.contains(d) <==> a0.to_set().insert(def).contains(d) by {
                if a@.contains(d) {
                    let t = choose|t: int| 0 <= t < a@.len() && a@[t] == d;
                    if t < i {
                        assert(a0[t] == d);
                    } else if t > i {
                        assert(a0[t - 1] == d);
                    }
                }
                if a0.contains(d) {
                    let t = choose|t: int| 0 <= t < a0.len() && a0[t] == d;
                    if t < i {
                        assert(a@[t] == d);
                    } else {
                        assert(a@[t + 1] == d);
                    }
                }
                if d == def {
                    assert(a@[i as int] == def);
                }
            }
        }
    } else if !on && present {
        a.remove(i);
        proof {
            assert forall|x: int, y: int| 0 <= x < y < a@.len() implies a@[x] < a@[y] by {
                if y < i {
                } else if x >= i {
                    assert(a@[x] == a0[x + 1] && a@[y] == a0[y + 1]);
                } else {
                    assert(a@[y] == a0[y + 1]);
                }
            }
            assert forall|d: DefId| a@.contains(d) <==> a0.to_set().remove(def).contains(d) by {
                if a@.contains(d) {
                    let t = choose|t: int| 0 <= t < a@.len() && a@[t] == d;
                    if t < i {
                        assert(a0[t] == d);
                        assert(d < def);
                    } else {
                        assert(a0[t + 1] == d);
                        assert(a0[t + 1] > a0[i as int]);
                    }
                }
                if a0.contains(d) && d != def {
                    let t = choose|t: int| 0 <= t < a0.len() && a0[t] == d;
                    if t < i {
                        assert(a@[t] == d);
                    } else {
                        assert(t != i);
                        assert(a@[t - 1] == d);
                    }
                }
            }
        }
    } else {
        proof {
            assert forall|d: DefId| a@.contains(d) <==> (if on { a0.to_set().insert(def) } else { a0.to_set().remove(def) }).contains(d) by {
                if on && d == def {
                    assert(a@[i as int] == def);
                }
                if !on && d == def && a@.contains(d) {
                    let t = choose|t: int| 0 <= t < a@.len() && a@[t] == d;
                    if t >= i {
                        if i < a@.len() {
                            assert(a@[i as int] != def);
                            assert(a@[i as int] > def);
                        }
                    }
                }
            }
        }
    }
}

/// The sorted set of a filter's entries.
fn sorted_unique(a: &Vec<DefId>) -> (r: Vec<DefId>)
    ensures
        sorted_set_of(r@, a@),
{
    let mut r: Vec<DefId> = Vec::new();
    let mut k: usize = 0;
    while k < a.len()
        invariant
            k <= a@.len(),
            sorted_set_is(r@, a@.take(k as int).to_set()),
        decreases a@.len() - k,
    {
        let ghost r0 = r@;
        set_allowed(&mut r, a[k], true);
        proof {
            assert(a@.take(k as int + 1).to_set() =~= a@.take(k as int).to_set().insert(a@[k as int])) by {
                assert forall|d: DefId| a@.take(k as int + 1).to_set().contains(d) <==> a@.take(k as int).to_set().insert(a@[k as int]).contains(d) by {
                    let s1 = a@.take(k as int + 1);
                    let s0 = a@.take(k as int);
                    if s1.contains(d) {
                        let t = choose|t: int| 0 <= t < s1.len() && #[trigger] s1[t] == d;
                        if t < k {
                            assert(s0[t] == d);
                        }
                    }
                    if s0.contains(d) {
                        let t = choose|t: int| 0 <= t < s0.len() && #[trigger] s0[t] == d;
                        assert(s1[t] == d);
                    }
                    if d == a@[k as int] {
                        assert(a@.take(k as int + 1)[k as int] == d);
                    }
                }
            }
        }
        k += 1;
    }
    assert(a@.take(k as int) =~= a@);
    r
}

impl Zones {
    /// Let a zone take an item, or stop it. Nothing happens for an id no
    /// zone has; of zones sharing an id, the first is the one changed.
    pub fn allow(&mut self, id: u32, def: DefId, on: bool)
        requires
            old(self).wf(),
            filters_sorted(old(self).view().list),
        ensures
            final(self).wf(),
            filters_sorted(final(self).view().list),
            final(self).view().cells == old(self).view().cells,
            final(self).view().next_id == old(self).view().next_id,
            !has_zone(old(self).view().list, id) ==> final(self).view() == old(self).view(),
            allowed(old(self).view().list, final(self).view().list, id, def, on),
    {
        let k = match self.find(id) {
            Some(k) => k,
            None => {
                return;
            },
        };
        let ghost l0 = self.list@;
        let mut z = self.list.remove(k);
        assert(z == l0[k as int]);
        set_allowed(&mut z.allows, def, on);
        self.list.insert(k, z);
        proof {
            assert forall|j: int| 0 <= j < l0.len() implies #[trigger] self.list@[j].id == l0[j].id by {
                if j < k {
                    assert(self.list@[j] == l0[j]);
                } else if j > k {
                    assert(self.list@[j] == l0[j]);
                }
            }
            assert forall|j: int| 0 <= j < l0.len() implies member_cells(self.list@, self.cells@, j) == member_cells(l0, self.cells@, j) by {
                assert(self.list@[j].id == l0[j].id);
                assert forall|t: int| 0 <= t < j implies (self.list@[t].id != self.list@[j].id) == (l0[t].id != l0[j].id) by {
                    assert(self.list@[t].id == l0[t].id);
                }
                assert(first_of(self.list@, j) == first_of(l0, j));
            }
            assert forall|j: int| 0 <= j < l0.len() implies strictly_sorted(#[trigger] self.list@[j].allows@) by {
                if j != k {
                    assert(self.list@[j] == l0[j]);
                }
            }
            assert forall|j: int| 0 <= j < l0.len() && j != k implies self.list@[j] == l0[j] by {}
            assert forall|j: int| 0 <= j < l0.len() && l0[j].id == id && first_of(l0, j) implies j == k by {
                if j < k {
                } else if j > k {
                    assert(l0[k as int].id == id);
                }
            }
        }
    }

    /// The single zone the cells from `a` to `b` touch, if exactly one.
    pub fn touched(&self, map: &TileMap, a: IVec, b: IVec) -> (r: Option<u32>)
        requires
            map.wf(),
            self.view().cells.len() == map.view().cells(),
        ensures
            match r {
                Some(z) => rect_zone(map.view(), a, b, self.view().cells, z),
                None => forall|z: u32| !#[trigger] rect_zone(map.view(), a, b, self.view().cells, z),
            },
    {
        let ghost m = map.view();
        proof {
            map.lemma_cells_bound();
        }
        let (w, h) = map.dims();
        let x0 = if a.x < b.x { a.x } else { b.x };
        let x0 = if x0 < 0 { 0 } else { x0 };
        let x1 = if a.x < b.x { b.x } else { a.x };
        let x1 = if x1 > w - 1 { w - 1 } else { x1 };
        let y0 = if a.y < b.y { a.y } else { b.y };
        let y0 = if y0 < 0 { 0 } else { y0 };
        let y1 = if a.y < b.y { b.y } else { a.y };
        let y1 = if y1 > h - 1 { h - 1 } else { y1 };
        let mut found: Option<u32> = None;
        let mut y = y0;
        proof {
            assert forall|i: int| 0 <= i < m.cells() && in_rect(m, a, b, i) && m.pos_y(i) < y implies #[trigger] self.cells@[i] == 0
                || found == Some(self.cells@[i]) by {
                crate::map::lemma_pos_idx_pub(m.w, m.h, i);
            }
        }
        while y <= y1
            invariant
                m.w >= 0,
                m.h >= 0,
                map.wf(),
                m == map.view(),
                w == m.w,
                h == m.h,
                self.cells@.len() == m.cells(),
                0 <= y0,
                y1 <= h - 1,
                y0 <= y <= y1 + 1 || (y == y0 && y0 > y1),
                0 <= x0,
                x1 <= w - 1,
                x0 == crate::max_int(crate::min_int(a.x as int, b.x as int), 0),
                x1 == crate::min_int(crate::max_int(a.x as int, b.x as int), w - 1),
                y0 == crate::max_int(crate::min_int(a.y as int, b.y as int), 0),
                y1 == crate::min_int(crate::max_int(a.y as int, b.y as int), h - 1),
                match found {
                    Some(f) => f != 0 && (exists|i: int| 0 <= i < m.cells() && in_rect(m, a, b, i) && self.cells@[i] == f),
                    None => true,
                },
                forall|i: int|
                    0 <= i < m.cells() && in_rect(m, a, b, i) && m.pos_y(i) < y ==> #[trigger] self.cells@[i] == 0 || found
                        == Some(self.cells@[i]),
            decreases y1 + 1 - y,
        {
            let mut x = x0;
            while x <= x1
                invariant
                    m.w >= 0,
                    m.h >= 0,
                    map.wf(),
                    m == map.view(),
                    w == m.w,
                    h == m.h,
                    self.cells@.len() == m.cells(),
                    0 <= y0 <= y <= y1,
                    y1 <= h - 1,
                    x0 <= x <= x1 + 1 || (x == x0 && x0 > x1),
                    0 <= x0,
                    x1 <= w - 1,
                    x0 == crate::max_int(crate::min_int(a.x as int, b.x as int), 0),
                    x1 == crate::min_int(crate::max_int(a.x as int, b.x as int), w - 1),
                    y0 == crate::max_int(crate::min_int(a.y as int, b.y as int), 0),
                    y1 == crate::min_int(crate::max_int(a.y as int, b.y as int), h - 1),
                    match found {
                        Some(f) => f != 0 && (exists|i: int| 0 <= i < m.cells() && in_rect(m, a, b, i) && self.cells@[i] == f),
                        None => true,
                    },
                    forall|i: int|
                        0 <= i < m.cells() && in_rect(m, a, b, i) && (m.pos_y(i) < y || (m.pos_y(i) == y && m.pos_x(i) < x))
                            ==> #[trigger] self.cells@[i] == 0 || found == Some(self.cells@[i]),
                decreases x1 + 1 - x,
            {
                let i = map.idx(IVec::new(x, y));
                proof {
                    crate::map::lemma_idx_pos_pub(m.w, m.h, x as int, y as int);
                    assert(in_rect(m, a, b, i as int));
                }
                let c = self.cells[i];
                if c != 0 {
                    match found {
                        None => {
                            found = Some(c);
                        },
                        Some(f) => {
                            if c != f {
                                proof {
                                    assert forall|z: u32| !#[trigger] rect_zone(m, a, b, self.cells@, z) by {
                                        if rect_zone(m, a, b, self.cells@, z) {
                                            let j = choose|j: int| 0 <= j < m.cells() && in_rect(m, a, b, j) && self.cells@[j] == f;
                                            assert(self.cells@[j] == 0 || self.cells@[j] == z);
                                            assert(self.cells@[i as int] == 0 || self.cells@[i as int] == z);
                                        }
                                    }
                                }
                                return None;
                            }
                        },
                    }
                }
                proof {
                    assert forall|t: int|
                        0 <= t < m.cells() && in_rect(m, a, b, t) && (m.pos_y(t) < y || (m.pos_y(t) == y && m.pos_x(t) < x + 1))
                            implies #[trigger] self.cells@[t] == 0 || found == Some(self.cells@[t]) by {
                        crate::map::lemma_pos_idx_pub(m.w, m.h, t);
                        if m.pos_y(t) == y && m.pos_x(t) == x {
                            assert(t == m.pos_y(t) * m.w + m.pos_x(t));
                        }
                    }
                }
                x += 1;
            }
            proof {
                assert forall|t: int| 0 <= t < m.cells() && in_rect(m, a, b, t) && m.pos_y(t) < y + 1 implies #[trigger] self.cells@[t]
                    == 0 || found == Some(self.cells@[t]) by {
                    crate::map::lemma_pos_idx_pub(m.w, m.h, t);
                }
            }
            y += 1;
        }
        proof {
            assert forall|t: int| 0 <= t < m.cells() && in_rect(m, a, b, t) implies #[trigger] self.cells@[t] == 0 || found == Some(
                self.cells@[t],
            ) by {
                crate::map::lemma_pos_idx_pub(m.w, m.h, t);
            }
            if found is None {
                assert forall|z: u32| !#[trigger] rect_zone(m, a, b, self.cells@, z) by {
                    if rect_zone(m, a, b, self.cells@, z) {
                        let i = choose|i: int| 0 <= i < m.cells() && in_rect(m, a, b, i) && self.cells@[i] == z;
                        assert(self.cells@[i] == 0 || found == Some(self.cells@[i]));
                    }
                }
            }
        }
        found
    }
}


/// Hash of a filter, folded into `h`.
pub open spec fn fold_allows(h: u64, a: Seq<DefId>) -> u64
    decreases a.len(),
{
    if a.len() == 0 {
        h
    } else {
        mix_spec(fold_allows(h, a.drop_last()) ^ (a.last() as u64))
    }
}

/// Hash of the zones and their filters, folded into `h`.
pub open spec fn fold_zones(h: u64, list: Seq<Zone>) -> u64
    decreases list.len(),
{
    if list.len() == 0 {
        h
    } else {
        fold_allows(mix_spec(fold_zones(h, list.drop_last()) ^ (list.last().id as u64)), list.last().allows@)
    }
}

/// Hash of the zoned cells among the first `n`, folded into `h`.
pub open spec fn fold_cells(h: u64, cells: Seq<u32>, n: int) -> u64
    decreases n,
{
    if n <= 0 {
        h
    } else {
        let h0 = fold_cells(h, cells, n - 1);
        if cells[n - 1] != 0 {
            mix_spec(h0 ^ (((n - 1) as u64) << 20u64) ^ (cells[n - 1] as u64))
        } else {
            h0
        }
    }
}

/// The zones' hash, folded into `h`.
pub open spec fn zones_hash(h: u64, v: ZonesView) -> u64 {
    fold_cells(fold_zones(mix_spec(h ^ (v.next_id as u64)), v.list), v.cells, v.cells.len() as int)
}

proof fn lemma_first_zones_ids(l: Seq<Zone>, c: u32)
    requires
        c != 0,
    ensures
        has_zone(first_zones(l), c) <==> has_zone(l, c),
    decreases l.len(),
{
    if l.len() > 0 {
        let p = l.drop_last();
        lemma_first_zones_ids(p, c);
        let f = first_zones(p);
        if has_zone(l, c) {
            let k = choose|k: int| 0 <= k < l.len() && l[k].id == c;
            if k < p.len() {
                assert(p[k].id == c);
            }
        }
        if has_zone(p, c) {
            let k = choose|k: int| 0 <= k < p.len() && p[k].id == c;
            assert(l[k].id == c);
        }
        if has_zone(f, c) {
            let k = choose|k: int| 0 <= k < f.len() && f[k].id == c;
            if l.last().id != 0 && !has_zone(p, l.last().id) {
                assert(first_zones(l)[k] == f[k]);
            }
        }
        if has_zone(first_zones(l), c) && !has_zone(f, c) {
            let fl = first_zones(l);
            let k = choose|k: int| 0 <= k < fl.len() && fl[k].id == c;
            if l.last().id != 0 && !has_zone(p, l.last().id) {
                if k < f.len() {
                    assert(fl[k] == f[k]);
                }
            }
        }
        if l.last().id == c && !has_zone(p, c) {
            assert(first_zones(l).last() == l.last());
        }
    }
}

proof fn lemma_max_id_bound(l: Seq<Zone>, c: u32)
    requires
        has_zone(l, c),
    ensures
        c <= max_id(l),
    decreases l.len(),
{
    let k = choose|k: int| 0 <= k < l.len() && l[k].id == c;
    if k < l.len() - 1 {
        assert(l.drop_last()[k].id == c);
        lemma_max_id_bound(l.drop_last(), c);
    }
}

proof fn lemma_max_id_first(l: Seq<Zone>)
    ensures
        max_id(first_zones(l)) == max_id(l),
    decreases l.len(),
{
    if l.len() > 0 {
        let p = l.drop_last();
        lemma_max_id_first(p);
        if l.last().id != 0 && !has_zone(p, l.last().id) {
            assert(first_zones(l).drop_last() == first_zones(p));
        } else if l.last().id != 0 {
            lemma_max_id_bound(p, l.last().id);
        }
    }
}

proof fn lemma_max_id_like(a: Seq<Zone>, b: Seq<Zone>)
    requires
        zones_like(a, b),
    ensures
        max_id(a) == max_id(b),
    decreases a.len(),
{
    if a.len() > 0 {
        assert(zones_like(a.drop_last(), b.drop_last())) by {
            assert forall|k: int| 0 <= k < a.len() - 1 implies zone_like(#[trigger] a.drop_last()[k], b.drop_last()[k]) by {
                assert(zone_like(a[k], b[k]));
            }
        }
        lemma_max_id_like(a.drop_last(), b.drop_last());
        assert(zone_like(a[a.len() - 1], b[b.len() - 1]));
    }
}

proof fn lemma_with_cells_like(a: Seq<Zone>, b: Seq<Zone>, cells: Seq<u32>)
    requires
        zones_like(a, b),
    ensures
        zones_like(with_cells(a, cells), with_cells(b, cells)),
    decreases a.len(),
{
    if a.len() > 0 {
        assert(zones_like(a.drop_last(), b.drop_last())) by {
            assert forall|k: int| 0 <= k < a.len() - 1 implies zone_like(#[trigger] a.drop_last()[k], b.drop_last()[k]) by {
                assert(zone_like(a[k], b[k]));
            }
        }
        lemma_with_cells_like(a.drop_last(), b.drop_last(), cells);
        assert(zone_like(a[a.len() - 1], b[b.len() - 1]));
    }
}

impl Zones {
    /// Whether some zone has this id.
    fn has_id(ids: &Vec<u32>, id: u32) -> (r: bool)
        ensures
            r == ids@.contains(id),
    {
        let mut k: usize = 0;
        while k < ids.len()
            invariant
                k <= ids@.len(),
                forall|t: int| 0 <= t < k ==> ids@[t] != id,
            decreases ids@.len() - k,
        {
            if ids[k] == id {
                return true;
            }
            k += 1;
        }
        false
    }

    /// Make a loaded set of zones consistent, whatever a hand-edited save
    /// says: filters sorted without repeats, cells only in zones that exist,
    /// no zone without cells, and ids that won't be handed out again.
    pub fn tidy(&mut self)
        requires
            old(self).view().cells.len() <= u32::MAX,
            max_id(old(self).view().list) < u32::MAX,
        ensures
            final(self).wf(),
            filters_sorted(final(self).view().list),
            final(self).view().cells.len() == old(self).view().cells.len(),
            forall|i: int|
                0 <= i < old(self).view().cells.len() ==> #[trigger] final(self).view().cells[i] == tidied_cell(
                    old(self).view().list,
                    old(self).view().cells[i],
                ),
            zones_like(final(self).view().list, with_cells(first_zones(old(self).view().list), final(self).view().cells)),
            final(self).view().next_id == crate::max_int(old(self).view().next_id as int, max_id(old(self).view().list) + 1),
    {
        let ghost l0 = self.list@;
        let mut out: Vec<Zone> = Vec::new();
        let mut seen: Vec<u32> = Vec::new();
        let n = self.list.len();
        let mut k: usize = 0;
        while k < n
            invariant
                n == l0.len(),
                k <= n,
                self.list@ == l0.skip(k as int),
                self.cells == old(self).cells,
                self.next_id == old(self).next_id,
                l0 == old(self).list@,
                seen@ == ids_of(l0.take(k as int)),
                zones_like(out@, first_zones(l0.take(k as int))),
                filters_sorted(out@),
            decreases n - k,
        {
            let mut z = self.list.remove(0);
            proof {
                assert(z == l0[k as int]);
                assert(self.list@ =~= l0.skip(k as int + 1));
            }
            let fresh = !Self::has_id(&seen, z.id);
            proof {
                let p = l0.take(k as int);
                assert(fresh == !has_zone(p, z.id)) by {
                    if has_zone(p, z.id) {
                        let t = choose|t: int| 0 <= t < p.len() && p[t].id == z.id;
                        assert(seen@[t] == z.id);
                    }
                    if seen@.contains(z.id) {
                        let t = choose|t: int| 0 <= t < seen@.len() && seen@[t] == z.id;
                        assert(p[t].id == z.id);
                    }
                }
                assert(l0.take(k as int + 1).drop_last() =~= p);
                assert(l0.take(k as int + 1).last() == z);
            }
            let id = z.id;
            seen.push(id);
            proof {
                assert(seen@ =~= ids_of(l0.take(k as int + 1)));
            }
            if fresh && id != 0 {
                let ghost z0 = z;
                let s = sorted_unique(&z.allows);
                z.allows = s;
                let ghost o0 = out@;
                out.push(z);
                proof {
                    let f = first_zones(l0.take(k as int + 1));
                    assert(f == first_zones(l0.take(k as int)).push(z0));
                    assert forall|t: int| 0 <= t < out@.len() implies zone_like(#[trigger] out@[t], f[t]) by {
                        if t < o0.len() {
                            assert(out@[t] == o0[t]);
                        }
                    }
                    assert forall|t: int| 0 <= t < out@.len() implies strictly_sorted(#[trigger] out@[t].allows@) by {
                        if t < o0.len() {
                            assert(out@[t] == o0[t]);
                        }
                    }
                }
            }
            k += 1;
        }
        proof {
            assert(l0.take(n as int) =~= l0);
        }
        let mut ids: Vec<u32> = Vec::new();
        let mut top: u32 = 0;
        let mut t: usize = 0;
        while t < out.len()
            invariant
                t <= out@.len(),
                ids@ == ids_of(out@.take(t as int)),
                top == max_id(out@.take(t as int)),
            decreases out@.len() - t,
        {
            ids.push(out[t].id);
            proof {
                assert(out@.take(t as int + 1).drop_last() =~= out@.take(t as int));
                assert(ids@ =~= ids_of(out@.take(t as int + 1)));
            }
            if out[t].id > top {
                top = out[t].id;
            }
            t += 1;
        }
        proof {
            assert(out@.take(t as int) =~= out@);
            lemma_max_id_like(out@, first_zones(l0));
            lemma_max_id_first(l0);
        }
        let ghost c0 = self.cells@;
        let mut i: usize = 0;
        while i < self.cells.len()
            invariant
                i <= self.cells@.len(),
                self.cells@.len() == c0.len(),
                c0 == old(self).cells@,
                ids@ == ids_of(out@),
                zones_like(out@, first_zones(l0)),
                l0 == old(self).list@,
                self.next_id == old(self).next_id,
                forall|j: int| 0 <= j < i ==> #[trigger] self.cells@[j] == tidied_cell(l0, c0[j]),
                forall|j: int| i <= j < c0.len() ==> #[trigger] self.cells@[j] == c0[j],
            decreases self.cells@.len() - i,
        {
            let c = self.cells[i];
            if c != 0 {
                let known = Self::has_id(&ids, c);
                proof {
                    lemma_first_zones_ids(l0, c);
                    let f = first_zones(l0);
                    if has_zone(f, c) {
                        let q = choose|q: int| 0 <= q < f.len() && f[q].id == c;
                        assert(zone_like(out@[q], f[q]));
                        assert(ids@[q] == c);
                    }
                    if ids@.contains(c) {
                        let q = choose|q: int| 0 <= q < ids@.len() && ids@[q] == c;
                        assert(zone_like(out@[q], f[q]));
                        assert(f[q].id == c);
                    }
                }
                if !known {
                    self.cells.set(i, 0);
                }
            }
            i += 1;
        }
        self.list = out;
        let ghost out_v = self.list@;
        self.drop_empty();
        proof {
            lemma_with_cells_like(out_v, first_zones(l0), self.cells@);
        }
        if top >= self.next_id {
            self.next_id = top + 1;
        }
        proof {
            assert(forall|q: int| 0 <= q < out_v.len() ==> strictly_sorted(#[trigger] out_v[q].allows@));
            lemma_with_cells_sorted(out_v, self.cells@);
        }
        self.index();
    }

    /// The zones' hash, folded into `h`.
    pub fn hash(&self, seed: u64) -> (r: u64)
        ensures
            r == zones_hash(seed, self.view()),
    {
        let h = mix(seed ^ self.next_id as u64);
        let h = hash_zones(h, &self.list);
        hash_cells(h, &self.cells)
    }
}

fn hash_allows(h: u64, a: &Vec<DefId>) -> (r: u64)
    ensures
        r == fold_allows(h, a@),
{
    let mut r = h;
    let mut t: usize = 0;
    while t < a.len()
        invariant
            t <= a@.len(),
            r == fold_allows(h, a@.take(t as int)),
        decreases a@.len() - t,
    {
        r = mix(r ^ a[t] as u64);
        proof {
            assert(a@.take(t as int + 1).drop_last() =~= a@.take(t as int));
        }
        t += 1;
    }
    assert(a@.take(t as int) =~= a@);
    r
}

fn hash_zones(h: u64, list: &Vec<Zone>) -> (r: u64)
    ensures
        r == fold_zones(h, list@),
{
    let mut r = h;
    let mut k: usize = 0;
    while k < list.len()
        invariant
            k <= list@.len(),
            r == fold_zones(h, list@.take(k as int)),
        decreases list@.len() - k,
    {
        let z = &list[k];
        let r1 = mix(r ^ z.id as u64);
        r = hash_allows(r1, &z.allows);
        proof {
            assert(list@.take(k as int + 1).drop_last() =~= list@.take(k as int));
        }
        k += 1;
    }
    assert(list@.take(k as int) =~= list@);
    r
}

fn hash_cells(h: u64, cells: &Vec<u32>) -> (r: u64)
    ensures
        r == fold_cells(h, cells@, cells@.len() as int),
{
    let mut r = h;
    let mut i: usize = 0;
    while i < cells.len()
        invariant
            i <= cells@.len(),
            r == fold_cells(h, cells@, i as int),
        decreases cells@.len() - i,
    {
        let c = cells[i];
        if c != 0 {
            r = mix(r ^ (i as u64) << 20 ^ c as u64);
        }
        i += 1;
    }
    r
}

proof fn lemma_with_cells_sorted(l: Seq<Zone>, cells: Seq<u32>)
    requires
        filters_sorted(l),
    ensures
        filters_sorted(with_cells(l, cells)),
    decreases l.len(),
{
    if l.len() > 0 {
        assert(filters_sorted(l.drop_last())) by {
            assert forall|k: int| 0 <= k < l.len() - 1 implies strictly_sorted(#[trigger] l.drop_last()[k].allows@) by {
                assert(strictly_sorted(l[k].allows@));
            }
        }
        lemma_with_cells_sorted(l.drop_last(), cells);
        assert(strictly_sorted(l[l.len() - 1].allows@));
    }
}

} // verus!
