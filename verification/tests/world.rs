use rim_sim::world::{skill_xp, Faction, Job, Lot, MsgKind, Need, Order, Pawn, Regrow, Side, Work, SKILL_MAX};
use rim_sim::IVec;

#[test]
fn factions_read_back_their_names() {
    for f in [Faction::Wild, Faction::Player, Faction::Hostile] {
        assert_eq!(Faction::parse(f.name()), Some(f));
    }
    assert_eq!(Faction::parse("pirates"), None);
    assert_eq!(Faction::default(), Faction::Wild);
}

#[test]
fn skill_levels_cost_more_each_time() {
    assert_eq!(skill_xp(0), 0);
    assert_eq!(skill_xp(1), 2000);
    assert_eq!(skill_xp(2), 6000);
    assert_eq!(skill_xp(SKILL_MAX), 420_000);
}

#[test]
fn work_needs_at_least_one_unit() {
    let w = Work::new(0, Some(3));
    assert_eq!(w.total, 1);
    assert_eq!(w.done, 0);
    assert_eq!(w.side, Side::West);
    assert!(!w.finished());
    let w = Work { done: 5, ..Work::new(5, None) };
    assert!(w.finished());
}

#[test]
fn sides_go_by_the_longer_axis() {
    let at = IVec::new(5, 5);
    assert_eq!(Side::of(at, IVec::new(6, 5)), Side::East);
    assert_eq!(Side::of(at, IVec::new(4, 6)), Side::West);
    assert_eq!(Side::of(at, IVec::new(5, 6)), Side::South);
    assert_eq!(Side::of(at, IVec::new(5, 4)), Side::North);
    assert_eq!(Side::of(at, IVec::new(6, 7)), Side::South);
    assert_eq!(Side::of(at, at), Side::North);
}

#[test]
fn needs_count_what_arrived() {
    let n = Need { thing: Some(2), tag: None, count: 10, delivered: vec![Lot::new(2, 3), Lot::new(2, 4)] };
    assert_eq!(n.have(), 7);
    assert_eq!(n.missing(), 3);
    let over = Need { thing: None, tag: Some("wood".into()), count: 2, delivered: vec![Lot::new(1, 5)] };
    assert_eq!(over.missing(), 0);
    assert_eq!(Lot::new(4, 9), Lot { def: 4, count: 9, made_of: None, hp: None });
}

#[test]
fn regrowth_ripens_in_order() {
    let mut r = Regrow::new(None, 100);
    r.also.push((Some(3), 50));
    r.also.push((Some(4), 200));
    assert_eq!(r.entries(), vec![(None, 100), (Some(3), 50), (Some(4), 200)]);
    assert!(r.growing(Some(3)));
    assert!(!r.growing(Some(9)));
    assert!(r.ripen(60));
    assert_eq!(r.entries(), vec![(None, 100), (Some(4), 200)]);
    assert!(r.ripen(150));
    assert_eq!(r.entries(), vec![(Some(4), 200)]);
    assert!(!r.ripen(500));
    assert_eq!(r.entries(), vec![(Some(4), 200)]);
    // Renaming as it keeps.
    assert!(r.retain(|h, at| if at > 0 { Some(h.map(|d| d + 1)) } else { None }));
    assert_eq!(r.entries(), vec![(Some(5), 200)]);
}

#[test]
fn message_kinds_parse_with_a_fallback() {
    assert_eq!(MsgKind::parse("good"), MsgKind::Good);
    assert_eq!(MsgKind::parse("threat"), MsgKind::Threat);
    assert_eq!(MsgKind::parse("bad"), MsgKind::Bad);
    assert_eq!(MsgKind::parse("whatever"), MsgKind::Info);
}

#[test]
fn skill_levels_follow_experience() {
    let mut p = Pawn::default();
    assert_eq!(p.skill(1), 0);
    p.skills = vec![(1, 1999), (3, 2000), (5, 6000), (7, 420_000)];
    assert_eq!(p.skill(1), 0);
    assert_eq!(p.skill(3), 1);
    assert_eq!(p.skill(5), 2);
    assert_eq!(p.skill(7), SKILL_MAX);
    p.learn(7, 5);
    p.learn(1, 1);
    p.learn(4, 10);
    p.learn(9, u32::MAX);
    assert_eq!(p.skills, vec![(1, 2000), (3, 2000), (4, 10), (5, 6000), (7, 420_000), (9, 420_000)]);
    assert_eq!(p.skill(1), 1);
}

#[test]
fn work_carries_over_in_hundredths() {
    let mut p = Pawn::default();
    assert_eq!(p.work_amount(None), 1);
    assert_eq!(p.work_amount(Some(2)), 0);
    assert_eq!(p.work_frac, 60);
    assert_eq!(p.work_amount(Some(2)), 1);
    assert_eq!(p.work_frac, 20);
    assert_eq!(p.skills, vec![(2, 2)]);
    p.skills = vec![(2, 420_000)];
    p.work_frac = 0;
    assert_eq!(p.work_amount(Some(2)), 2);
    assert_eq!(p.work_frac, 60);
}

#[test]
fn priorities_stay_in_work_type_order() {
    let mut p = Pawn::default();
    p.set_priority(4, 1);
    p.set_priority(2, 3);
    p.set_priority(4, 0);
    p.set_priority(9, 2);
    assert_eq!(p.priorities, vec![(2, 3), (4, 0), (9, 2)]);
    assert_eq!(p.priority(3, 4, 2), 3);
    assert_eq!(p.priority(3, 4, 4), 0);
    assert_eq!(p.priority(3, 4, 5), 3);
    assert_eq!(p.priority(9, 4, 5), 4, "a default past the scale is its last level");
    p.needs = vec![(1, 500)];
    assert_eq!(p.need(1), Some(500));
    assert_eq!(p.need(2), None);
    assert!(!p.moving());
    p.path = vec![IVec::new(1, 1)];
    assert!(p.moving());
}

#[test]
fn jobs_read_as_the_colonist_bar_shows_them() {
    assert_eq!(Job::Idle.label(), "idle");
    assert_eq!(Job::Sleep { bed: None, spot: IVec::new(0, 0), stage: 1 }.label(), "sleeping");
    assert_eq!(Job::Sleep { bed: None, spot: IVec::new(0, 0), stage: 0 }.label(), "going to sleep");
    assert_eq!(Job::Flee { to: IVec::new(0, 0), until: 5 }.label(), "fleeing");
}

#[test]
fn an_order_names_its_first_short_need() {
    let need = |count: u32, got: u32| Need { thing: Some(1), tag: None, count, delivered: vec![Lot::new(1, got)] };
    let mut o = Order {
        owner: "core".into(),
        label: "hand axe".into(),
        needs: vec![need(2, 2), need(3, 1), need(4, 0)],
        work: 100,
        requires: vec![],
        work_type: 0,
        done: 0,
        total: 0,
    };
    assert_eq!(o.missing(), Some((1, 2)));
    o.needs[1] = need(3, 5);
    assert_eq!(o.missing(), Some((2, 4)));
    o.needs.pop();
    assert_eq!(o.missing(), None);
}

#[test]
fn the_player_sets_a_colonists_priority_capped_at_the_scale() {
    let mut p = Pawn { active: true, faction: Faction::Player, ..Pawn::default() };
    assert!(p.player_sets_priority(3, 9, 5, 4));
    assert!(p.player_sets_priority(1, 2, 5, 4));
    assert_eq!(p.priorities, vec![(1, 2), (3, 4)]);
    assert!(p.player_sets_priority(3, 1, 5, 4));
    assert_eq!(p.priorities, vec![(1, 2), (3, 1)]);
    // No such work type: nothing changes.
    assert!(!p.player_sets_priority(5, 1, 5, 4));
    assert_eq!(p.priorities, vec![(1, 2), (3, 1)]);
}

#[test]
fn only_colonists_take_priorities() {
    let mut wild = Pawn { active: true, faction: Faction::Wild, ..Pawn::default() };
    assert!(!wild.player_sets_priority(0, 1, 5, 4));
    assert!(wild.priorities.is_empty());
    let mut dead = Pawn { active: true, dead: true, faction: Faction::Player, ..Pawn::default() };
    assert!(!dead.player_sets_priority(0, 1, 5, 4));
    assert!(dead.priorities.is_empty());
}
