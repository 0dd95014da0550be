use rim_sim::defs::Category;
use rim_sim::map::TileMap;
use rim_sim::zone::{Zone, Zones};
use rim_sim::IVec;

fn cats() -> Vec<Category> {
    vec![Category::Plant, Category::Item, Category::Rock, Category::Item, Category::Floor]
}

#[test]
fn a_new_zone_takes_every_item_and_paints_free_cells() {
    let map = TileMap::new(6, 4);
    let mut z = Zones::new(24);
    let a = z.create(&cats(), &map, IVec::new(0, 0), IVec::new(1, 1));
    assert_eq!(a, 1);
    assert_eq!(z.next_id, 2);
    let zone = z.get(a).unwrap();
    assert_eq!(zone.name, "Stockpile 1");
    assert_eq!(zone.allows, vec![1, 3]);
    assert!(zone.takes(3) && !zone.takes(0));
    // A second zone overlapping the first only gets the free cells.
    let b = z.create(&cats(), &map, IVec::new(1, 1), IVec::new(2, 1));
    assert_eq!(b, 2);
    assert_eq!(z.at(&map, IVec::new(1, 1)).unwrap().id, a);
    assert_eq!(z.at(&map, IVec::new(2, 1)).unwrap().id, b);
    assert!(z.at(&map, IVec::new(5, 3)).is_none());
    assert!(z.at(&map, IVec::new(9, 9)).is_none());
    assert_eq!(z.members(), vec![(1, 0), (1, 1), (1, 6), (1, 7), (2, 8)]);
    assert_eq!(z.touched(&map, IVec::new(0, 0), IVec::new(0, 1)), Some(a));
    assert_eq!(z.touched(&map, IVec::new(1, 1), IVec::new(2, 1)), None);
    assert_eq!(z.touched(&map, IVec::new(4, 2), IVec::new(5, 3)), None);
}

#[test]
fn clearing_every_cell_removes_the_zone() {
    let map = TileMap::new(4, 4);
    let mut z = Zones::new(16);
    let a = z.create(&cats(), &map, IVec::new(-5, -5), IVec::new(1, 0));
    assert_eq!(z.members().len(), 2);
    z.paint(&map, IVec::new(0, 0), IVec::new(0, 0), None);
    assert!(z.get(a).is_some());
    z.paint(&map, IVec::new(1, 0), IVec::new(1, 0), None);
    assert!(z.get(a).is_none());
    assert!(z.list.is_empty());
    assert!(z.members().is_empty());
    // Painting into a zone that doesn't exist does nothing.
    z.paint(&map, IVec::new(0, 0), IVec::new(3, 3), Some(a));
    assert!(z.cells.iter().all(|&c| c == 0));
}

#[test]
fn allowing_keeps_the_filter_sorted() {
    let map = TileMap::new(2, 2);
    let mut z = Zones::new(4);
    let a = z.create(&cats(), &map, IVec::new(0, 0), IVec::new(0, 0));
    z.allow(a, 2, true);
    z.allow(a, 0, true);
    z.allow(a, 2, true);
    assert_eq!(z.get(a).unwrap().allows, vec![0, 1, 2, 3]);
    z.allow(a, 1, false);
    z.allow(a, 7, false);
    assert_eq!(z.get(a).unwrap().allows, vec![0, 2, 3]);
    z.allow(99, 1, true);
    assert_eq!(z.list.len(), 1);
}

#[test]
fn tidy_repairs_a_hand_edited_save() {
    let map = TileMap::new(3, 1);
    let mut z = Zones::new(3);
    let a = z.create(&cats(), &map, IVec::new(0, 0), IVec::new(0, 0));
    z.list.push(Zone { id: a, name: "copy".to_string(), allows: vec![] });
    z.list.push(Zone { id: 0, name: "zero".to_string(), allows: vec![] });
    z.list.push(Zone { id: 9, name: "nine".to_string(), allows: vec![5, 1, 5] });
    z.list.push(Zone { id: 4, name: "empty".to_string(), allows: vec![] });
    z.cells = vec![a, 9, 7];
    z.next_id = 2;
    z.tidy();
    let ids: Vec<u32> = z.list.iter().map(|z| z.id).collect();
    assert_eq!(ids, vec![a, 9]);
    assert_eq!(z.list[0].name, "Stockpile 1");
    assert_eq!(z.list[1].allows, vec![1, 5]);
    assert_eq!(z.cells, vec![a, 9, 0]);
    assert_eq!(z.next_id, 10);
    assert_eq!(z.members(), vec![(a, 0), (9, 1)]);
}

#[test]
fn the_hash_sees_cells_filters_and_ids() {
    let map = TileMap::new(2, 2);
    let mut z = Zones::new(4);
    let h0 = z.hash(7);
    assert_eq!(h0, z.hash(7));
    let a = z.create(&cats(), &map, IVec::new(0, 0), IVec::new(0, 0));
    let h1 = z.hash(7);
    assert_ne!(h0, h1);
    z.allow(a, 0, true);
    assert_ne!(z.hash(7), h1);
}
