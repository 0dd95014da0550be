use rim_sim::map::{TileMap, CHUNK, MAX_ROOM_CELLS};
use rim_sim::path::{Goal, Pathfinder};
use rim_sim::world::Faction;
use rim_sim::IVec;

/// A 10 by 10 map with a ring of wall from (2,2) to (6,6): a 3 by 3 room inside.
fn walled() -> TileMap {
    let mut m = TileMap::new(10, 10);
    for i in 2..=6 {
        for p in [IVec::new(i, 2), IVec::new(i, 6), IVec::new(2, i), IVec::new(6, i)] {
            m.set_fixture(p, None, true, 0, false);
        }
    }
    m
}

#[test]
fn a_ring_of_wall_makes_an_enclosed_room() {
    let mut m = walled();
    m.ensure_rooms();
    assert_eq!(m.room_count(), 2);
    let inside = m.room_at(IVec::new(4, 4)).unwrap();
    assert_eq!(inside.cells, 9);
    assert!(!inside.touches_edge);
    assert!(inside.enclosed());
    assert!(m.indoors(IVec::new(3, 5)));
    let outside = m.room_at(IVec::new(0, 0)).unwrap();
    assert_eq!(outside.cells, 100 - 25);
    assert!(outside.touches_edge);
    assert!(!m.indoors(IVec::new(8, 8)));
    assert!(m.room_at(IVec::new(2, 2)).is_none());
    assert!(m.room_at(IVec::new(-1, 0)).is_none());
    // The boundary is the whole ring, corners included, each piece once.
    let mut b = m.room_boundary(inside.id).to_vec();
    b.sort();
    assert_eq!(b.len(), 16);
    b.dedup();
    assert_eq!(b.len(), 16);
}

#[test]
fn rooms_rebuild_only_when_walls_change() {
    let mut m = walled();
    m.ensure_rooms();
    let n = m.room_rebuilds;
    m.ensure_rooms();
    assert_eq!(m.room_rebuilds, n);
    m.set_item(IVec::new(4, 4), None);
    m.ensure_rooms();
    assert_eq!(m.room_rebuilds, n);
    // A door in the wall splits nothing but is no room cell.
    m.set_fixture(IVec::new(4, 2), None, false, 0, true);
    m.ensure_rooms();
    assert_eq!(m.room_rebuilds, n + 1);
    assert!(m.room_at(IVec::new(4, 2)).is_none());
    assert!(m.room_at(IVec::new(4, 4)).unwrap().enclosed());
    let before = m.room_at(IVec::new(4, 4)).unwrap().id;
    let i = (4 * 10 + 4) as usize;
    assert_eq!(m.room_ids(i).0, before);
    // Opening the wall joins the room to the outside.
    m.set_fixture(IVec::new(4, 2), None, false, 0, false);
    m.ensure_rooms();
    assert!(m.room_at(IVec::new(4, 4)).unwrap().touches_edge);
    assert_eq!(m.room_ids(i).1, before);
}

#[test]
fn a_big_valley_is_not_indoors() {
    let mut m = TileMap::new(30, 30);
    for i in 0..30 {
        for p in [IVec::new(i, 1), IVec::new(i, 28), IVec::new(1, i), IVec::new(28, i)] {
            m.set_fixture(p, None, true, 0, false);
        }
    }
    m.ensure_rooms();
    let r = m.room_at(IVec::new(10, 10)).unwrap();
    assert_eq!(r.cells, 26 * 26);
    assert!(r.cells > MAX_ROOM_CELLS);
    assert!(!r.touches_edge);
    assert!(!m.indoors(IVec::new(10, 10)));
}

#[test]
fn regions_split_at_walls_and_locked_doors() {
    let mut m = walled();
    m.ensure_regions();
    let out = IVec::new(0, 0);
    let inn = IVec::new(4, 4);
    assert!(!m.can_reach(out, Goal::Cell(inn)));
    assert!(m.can_reach(out, Goal::Cell(IVec::new(9, 9))));
    // Touching the wall from outside counts.
    assert!(m.can_reach(out, Goal::Touch(IVec::new(2, 4))));
    assert_eq!(m.region_at(IVec::new(2, 2)), 0);
    assert_eq!(m.region_size(inn), 9);
    // A player's door: open to the player, a wall to raiders.
    m.set_fixture(IVec::new(4, 2), None, false, 0, true);
    m.set_owner(IVec::new(4, 2), Some(Faction::Player));
    assert_eq!(m.owner_at(IVec::new(4, 2)), Some(Faction::Player));
    m.ensure_regions();
    assert!(m.can_reach_for(out, Goal::Cell(inn), Faction::Player));
    assert!(!m.can_reach_for(out, Goal::Cell(inn), Faction::Hostile));
    assert!(m.passable_for(IVec::new(4, 2), Faction::Player));
    assert!(!m.passable_for(IVec::new(4, 2), Faction::Hostile));
}

#[test]
fn revisions_count_changes_by_chunk() {
    let mut m = TileMap::new(2 * CHUNK, CHUNK);
    assert_eq!(m.chunks(), (2, 1));
    let p = IVec::new(CHUNK - 1, 3);
    assert_eq!(m.chunk_of(p), 0);
    m.touch(p);
    // The cell's own chunk, and the one across the border to its right.
    assert_eq!(m.things_rev(0), 1);
    assert_eq!(m.things_rev(1), 1);
    m.touch(IVec::new(3, 3));
    assert_eq!(m.things_rev(0), 2);
    assert_eq!(m.things_rev(1), 1);
    m.set_terrain(IVec::new(CHUNK, 0), 4, 70000);
    assert_eq!(m.terrain_rev(1), 1);
    assert_eq!(m.cost(IVec::new(CHUNK, 0)), 65535);
    assert_eq!(m.take_changed_cells(), vec![CHUNK as u32]);
    assert!(m.take_changed_cells().is_empty());
}

#[test]
fn costs_take_the_floor_over_the_terrain() {
    let mut m = TileMap::new(4, 4);
    let p = IVec::new(1, 1);
    assert_eq!(m.cost(p), 100);
    m.set_fixture(p, None, false, 20, false);
    assert_eq!(m.cost(p), 120);
    m.set_floor(p, None, 50);
    assert_eq!(m.cost(p), 120);
    assert!(m.floor_at(p).is_none());
    assert!(m.passable(p));
    assert!(!m.passable(IVec::new(9, 9)));
}

/// Checks a path the way a walker would take it.
fn walks(m: &TileMap, start: IVec, path: &[IVec]) -> bool {
    let mut at = start;
    for &p in path.iter().rev() {
        let (dx, dy) = (p.x - at.x, p.y - at.y);
        if dx.abs() > 1 || dy.abs() > 1 || (dx == 0 && dy == 0) || !m.passable(p) {
            return false;
        }
        if dx != 0 && dy != 0 && (!m.passable(IVec::new(p.x, at.y)) || !m.passable(IVec::new(at.x, p.y))) {
            return false;
        }
        at = p;
    }
    true
}

#[test]
fn astar_finds_a_walk_around_walls() {
    let mut m = TileMap::new(10, 10);
    for y in 0..9 {
        m.set_fixture(IVec::new(5, y), None, true, 0, false);
    }
    let mut pf = Pathfinder::default();
    let start = IVec::new(1, 1);
    let goal = IVec::new(8, 1);
    let path = pf.find(&m, start, Goal::Cell(goal), 10_000, Faction::Player).unwrap();
    assert_eq!(path[0], goal);
    assert!(walks(&m, start, &path));
    // Around the wall's end at y = 9: no shorter way exists.
    assert!(path.iter().any(|p| p.y == 9));
    assert_eq!(pf.searches, 1);
    assert!(pf.expanded > 0);
    // Touching a goal stops next to it.
    let path = pf.find(&m, start, Goal::Touch(IVec::new(4, 4)), 10_000, Faction::Player).unwrap();
    assert!(path[0].chebyshev(IVec::new(4, 4)) <= 1);
    assert!(walks(&m, start, &path));
    // Already there: an empty path.
    assert_eq!(pf.find(&m, start, Goal::Cell(start), 10, Faction::Player), Some(vec![]));
}

#[test]
fn astar_gives_up_when_walled_off_or_out_of_budget() {
    let mut m = TileMap::new(10, 10);
    for y in 0..10 {
        m.set_fixture(IVec::new(5, y), None, true, 0, false);
    }
    let mut pf = Pathfinder::default();
    assert_eq!(pf.find(&m, IVec::new(1, 1), Goal::Cell(IVec::new(8, 1)), 10_000, Faction::Player), None);
    let open = TileMap::new(40, 40);
    assert_eq!(pf.find(&open, IVec::new(0, 0), Goal::Cell(IVec::new(39, 39)), 3, Faction::Player), None);
    assert!(pf.find(&open, IVec::new(0, 0), Goal::Cell(IVec::new(39, 39)), 100_000, Faction::Player).is_some());
    assert_eq!(pf.searches, 3);
}

#[test]
fn astar_counts_what_it_expands() {
    let open = TileMap::new(40, 40);
    let mut pf = Pathfinder::default();
    // Out of budget: it expanded one cell more than it may.
    assert_eq!(pf.find(&open, IVec::new(0, 0), Goal::Cell(IVec::new(39, 39)), 3, Faction::Player), None);
    assert_eq!(pf.expanded, 4);
    // A goal met at the start costs nothing, whatever the budget.
    assert_eq!(pf.find(&open, IVec::new(2, 2), Goal::Touch(IVec::new(3, 3)), 0, Faction::Player), Some(vec![]));
    assert_eq!(pf.expanded, 4);
}

#[test]
fn astar_does_not_cut_corners() {
    let mut m = TileMap::new(3, 3);
    m.set_fixture(IVec::new(1, 0), None, true, 0, false);
    let mut pf = Pathfinder::default();
    let path = pf.find(&m, IVec::new(0, 0), Goal::Cell(IVec::new(1, 1)), 100, Faction::Player).unwrap();
    // The diagonal would cut the wall's corner: it steps down, then across.
    assert_eq!(path, vec![IVec::new(1, 1), IVec::new(0, 1)]);
}
