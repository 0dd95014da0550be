use rim_sim::ai::{
    advance_movement, go_to, haul_beaten, melee_base, melee_bounds, nearer, nearest_within, pick_work, swing, Go,
};
use rim_sim::map::TileMap;
use rim_sim::path::{Goal, Pathfinder};
use rim_sim::rng::Rng;
use rim_sim::world::Pawn;
use rim_sim::IVec;

fn ent(id: u32) -> hecs::Entity {
    hecs::Entity::from_bits((1u64 << 32) | id as u64).unwrap()
}

fn pawn_at(x: i32, y: i32) -> Pawn {
    Pawn { active: true, pos: IVec::new(x, y), step_ticks: 1, ..Pawn::default() }
}

#[test]
fn melee_scales_with_skill_for_people_only() {
    let mut p = pawn_at(0, 0);
    // Untrained: 80%.
    assert_eq!(melee_base(&p, 10, true, Some(3), 0), 8);
    // An animal, or no melee skill: 100%.
    assert_eq!(melee_base(&p, 10, false, Some(3), 0), 10);
    assert_eq!(melee_base(&p, 10, true, None, 0), 10);
    // Level 5 (30,000 xp): 100%; the founder adds a flat bonus.
    p.skills = vec![(3, 30_000)];
    assert_eq!(melee_base(&p, 10, true, Some(3), 0), 10);
    p.founder = true;
    assert_eq!(melee_base(&p, 10, true, Some(3), 4), 14);
    // Top level: 160%.
    p.skills = vec![(3, 420_000)];
    p.founder = false;
    assert_eq!(melee_base(&p, 10, true, Some(3), 4), 16);
    assert_eq!(melee_base(&p, -10, false, None, 0), -10);
}

#[test]
fn melee_bounds_are_seventy_to_a_hundred_thirty_percent() {
    let p = pawn_at(0, 0);
    assert_eq!(melee_bounds(&p, 10, false, None, 0), (7, 13));
    assert_eq!(melee_bounds(&p, 1, false, None, 0), (1, 1));
    assert_eq!(melee_bounds(&p, 0, false, None, 0), (1, 1));
    assert_eq!(melee_bounds(&p, 100, true, Some(0), 0), (56, 104));
}

#[test]
fn swings_land_within_the_bounds_and_train_melee() {
    let mut rng = Rng::new(7);
    let mut p = pawn_at(0, 0);
    let (lo, hi) = melee_bounds(&p, 20, true, Some(2), 0);
    for _ in 0..200 {
        let before = p.skills.clone();
        let dmg = swing(&mut rng, &mut p, 20, 45, true, Some(2), 0);
        assert!(lo <= dmg && dmg <= hi, "{dmg} outside {lo}..={hi}");
        assert_eq!(p.cooldown, 45);
        let had = before.iter().find(|s| s.0 == 2).map_or(0, |s| s.1);
        assert_eq!(p.skills, vec![(2, had + 20)]);
        if p.skills[0].1 >= 2000 {
            break;
        }
    }
    // An animal learns nothing.
    let mut a = pawn_at(0, 0);
    swing(&mut rng, &mut a, 20, 30, false, Some(2), 0);
    assert!(a.skills.is_empty());
    assert_eq!(a.cooldown, 30);
}

#[test]
fn swing_rolls_follow_the_world_rng() {
    let mut a = Rng::new(99);
    let mut b = Rng::new(99);
    let mut p = pawn_at(0, 0);
    let roll = b.below(61) as i32;
    let dmg = swing(&mut a, &mut p, 50, 10, false, None, 0);
    assert_eq!(dmg, (50 * (70 + roll) / 100).max(1));
    assert_eq!(a.state(), b.state());
}

#[test]
fn a_step_takes_its_ticks_then_lands() {
    let m = TileMap::new(10, 10);
    let mut p = pawn_at(2, 2);
    p.path = vec![IVec::new(4, 3), IVec::new(3, 3)];
    // Starts a diagonal step: speed 20 on open ground, 1.4 times 20.
    advance_movement(&m, 20, &mut p);
    assert_eq!(p.next, Some(IVec::new(3, 3)));
    assert_eq!(p.step_ticks, 28);
    assert_eq!(p.progress, 0);
    assert_eq!(p.pos, IVec::new(2, 2));
    for t in 1..28 {
        advance_movement(&m, 20, &mut p);
        assert_eq!(p.progress, t);
        assert_eq!(p.pos, IVec::new(2, 2));
    }
    // Lands, and starts the straight step on.
    advance_movement(&m, 20, &mut p);
    assert_eq!(p.pos, IVec::new(3, 3));
    assert_eq!(p.next, Some(IVec::new(4, 3)));
    assert_eq!(p.step_ticks, 20);
    assert!(p.path.is_empty());
}

#[test]
fn a_path_into_a_wall_is_dropped() {
    let mut m = TileMap::new(10, 10);
    m.set_fixture(IVec::new(3, 2), None, true, 0, false);
    let mut p = pawn_at(2, 2);
    p.path = vec![IVec::new(4, 2), IVec::new(3, 2)];
    p.path_goal = Some(Goal::Cell(IVec::new(4, 2)));
    advance_movement(&m, 20, &mut p);
    assert!(p.path.is_empty());
    assert_eq!(p.path_goal, None);
    assert_eq!(p.next, None);
    assert_eq!(p.pos, IVec::new(2, 2));
}

#[test]
fn steps_never_take_less_than_a_tick() {
    let m = TileMap::new(4, 4);
    let mut p = pawn_at(0, 0);
    p.path = vec![IVec::new(1, 0)];
    advance_movement(&m, 1, &mut p);
    assert_eq!(p.step_ticks, 1);
}

#[test]
fn going_somewhere_plans_then_arrives() {
    let mut m = TileMap::new(10, 10);
    let mut pf = Pathfinder::default();
    let mut p = pawn_at(1, 1);
    let goal = Goal::Cell(IVec::new(5, 1));
    assert_eq!(go_to(&mut m, &mut pf, &mut p, goal), Go::Moving);
    assert_eq!(p.path_goal, Some(goal));
    assert_eq!(p.path.first(), Some(&IVec::new(5, 1)));
    // Same goal again: keeps the path it has.
    let before = p.path.clone();
    assert_eq!(go_to(&mut m, &mut pf, &mut p, goal), Go::Moving);
    assert_eq!(p.path, before);
    let mut guard = 0;
    while go_to(&mut m, &mut pf, &mut p, goal) != Go::Arrived {
        advance_movement(&m, 10, &mut p);
        guard += 1;
        assert!(guard < 1000);
    }
    assert_eq!(p.pos, IVec::new(5, 1));
    assert!(p.path.is_empty());
    assert_eq!(p.path_goal, None);
}

#[test]
fn walled_off_goals_fail() {
    let mut m = TileMap::new(10, 10);
    for y in 0..10 {
        m.set_fixture(IVec::new(5, y), None, true, 0, false);
    }
    let mut pf = Pathfinder::default();
    let mut p = pawn_at(1, 1);
    assert_eq!(go_to(&mut m, &mut pf, &mut p, Goal::Cell(IVec::new(8, 8))), Go::Failed);
    assert!(p.path.is_empty());
    // Touching a cell next to the wall is fine from this side.
    assert_eq!(go_to(&mut m, &mut pf, &mut p, Goal::Touch(IVec::new(5, 5))), Go::Moving);
}

#[test]
fn a_step_under_way_finishes_before_replanning() {
    let mut m = TileMap::new(10, 10);
    let mut pf = Pathfinder::default();
    let mut p = pawn_at(1, 1);
    p.next = Some(IVec::new(2, 1));
    p.path = vec![IVec::new(3, 1)];
    assert_eq!(go_to(&mut m, &mut pf, &mut p, Goal::Cell(IVec::new(1, 8))), Go::Moving);
    assert!(p.path.is_empty());
    assert_eq!(p.path_goal, None);
    assert_eq!(p.next, Some(IVec::new(2, 1)));
}

#[test]
fn the_nearest_pawn_within_reach_is_sighted() {
    let from = IVec::new(10, 10);
    let cands = vec![(ent(1), IVec::new(20, 10)), (ent(2), IVec::new(13, 13)), (ent(3), IVec::new(14, 10)), (ent(4), IVec::new(10, 14))];
    // (13,13) is 42 away, (14,10) and (10,14) are 40: the first of those.
    assert_eq!(nearest_within(from, 5, &cands), Some((ent(3), IVec::new(14, 10))));
    // Radius 3 leaves only the diagonal one.
    assert_eq!(nearest_within(from, 3, &cands), Some((ent(2), IVec::new(13, 13))));
    assert_eq!(nearest_within(from, 2, &cands), None);
    assert_eq!(nearest_within(from, 20, &[]), None);
}

#[test]
fn nearer_goes_by_distance_then_id() {
    assert!(nearer(None, 100, 7));
    assert!(nearer(Some((10, 5)), 9, 9));
    assert!(!nearer(Some((10, 5)), 11, 1));
    assert!(nearer(Some((10, 5)), 10, 4));
    assert!(!nearer(Some((10, 5)), 10, 5));
}

#[test]
fn work_goes_by_level_then_distance_then_order() {
    // Work type 1 is at level 1: first, though further.
    let level = [2, 1, 1];
    let best = [Some((5, 1)), Some((9, 2)), Some((9, 0))];
    assert_eq!(pick_work(&level, &best, &[0, 1, 2]), Some(1));
    // The order decides between equals.
    assert_eq!(pick_work(&level, &best, &[2, 1, 0]), Some(2));
    // Nearer wins at one level.
    let best = [Some((5, 1)), Some((9, 2)), Some((3, 8))];
    assert_eq!(pick_work(&level, &best, &[0, 1, 2]), Some(2));
    // A type the order leaves out comes after those it lists.
    let best = [None, Some((9, 2)), Some((9, 0))];
    assert_eq!(pick_work(&level, &best, &[2]), Some(2));
    assert_eq!(pick_work(&level, &best, &[1]), Some(1));
    // Nothing found.
    assert_eq!(pick_work(&level, &[None, None, None], &[0, 1, 2]), None);
}

#[test]
fn hauling_waits_for_better_work() {
    let level = [1, 3, 3];
    assert!(haul_beaten(&level, &[Some((4, 1)), None, None], 2));
    assert!(!haul_beaten(&level, &[None, Some((4, 1)), None], 2));
    assert!(!haul_beaten(&level, &[None, None, None], 2));
}
