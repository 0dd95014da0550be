use rim_sim::restore::{check_format, lost_notes, remap_pawn, remap_terrain};
use rim_sim::world::{Job, Lot, Pawn};
use rim_sim::IVec;
use rim_sim::snapshot::{Remap, FORMAT};

fn table(terrain: &[&str]) -> Vec<(String, Vec<String>)> {
    vec![
        ("thing".to_string(), vec!["core:wall".to_string()]),
        ("terrain".to_string(), terrain.iter().map(|s| s.to_string()).collect()),
    ]
}

#[test]
fn only_this_builds_format_restores() {
    assert_eq!(check_format(FORMAT), Ok(()));
    assert_eq!(check_format(7), Err(format!("save format 7 (this build reads {FORMAT})")));
}

#[test]
fn ground_from_a_removed_mod_becomes_the_first_terrain() {
    let saved = table(&["core:grass", "mod:lava", "core:sand", "mod:ash"]);
    let now = table(&["core:sand", "core:grass"]);
    let r = Remap::new(saved, &now);
    let (ground, lost) = remap_terrain(&r, &[0, 1, 2, 1, 3, 0], 2, 6).unwrap();
    assert_eq!(ground, vec![1, 0, 0, 0, 0, 1]);
    assert_eq!(lost, vec![("mod:ash".to_string(), 1), ("mod:lava".to_string(), 2)]);
    assert_eq!(
        lost_notes(&lost, "core:sand"),
        vec!["1 cells of mod:ash became core:sand".to_string(), "2 cells of mod:lava became core:sand".to_string()]
    );
}

#[test]
fn the_same_defs_keep_the_ground() {
    let saved = table(&["core:grass", "core:sand"]);
    let r = Remap::new(saved.clone(), &saved);
    let (ground, lost) = remap_terrain(&r, &[1, 0, 1], 2, 3).unwrap();
    assert_eq!(ground, vec![1, 0, 1]);
    assert!(lost.is_empty());
}

#[test]
fn the_saved_map_must_fit_the_map() {
    let saved = table(&["core:grass"]);
    let r = Remap::new(saved.clone(), &saved);
    assert_eq!(remap_terrain(&r, &[0, 0], 1, 3), Err("engine:map doesn't match the map's size".to_string()));
}

fn kinds(creatures: &[&str], things: &[&str], needs: &[&str]) -> Vec<(String, Vec<String>)> {
    let v = |xs: &[&str]| xs.iter().map(|s| s.to_string()).collect::<Vec<String>>();
    vec![
        ("creature".to_string(), v(creatures)),
        ("thing".to_string(), v(things)),
        ("need".to_string(), v(needs)),
    ]
}

#[test]
fn a_pawn_takes_the_new_ids_and_loses_what_is_gone() {
    let saved = kinds(&["core:human"], &["mod:gem", "core:wood"], &["core:food", "mod:joy", "core:rest"]);
    let now = kinds(&["core:human"], &["core:wood"], &["core:rest", "core:food"]);
    let r = Remap::new(saved, &now);
    let mut p = Pawn {
        name: "Ada".to_string(),
        needs: vec![(0, 50), (1, 60), (2, 70)],
        carry: Some(Lot { def: 0, count: 3, made_of: None, hp: None }),
        job: Job::Comfort { to: IVec::new(1, 2), need: 2, until: 9 },
        ..Pawn::default()
    };
    let mut dropped = Vec::new();
    assert!(remap_pawn(&r, &mut p, &mut dropped));
    assert_eq!(p.def, 0);
    assert_eq!(p.needs, vec![(1, 50), (0, 70)]);
    assert_eq!(p.carry, None);
    assert!(matches!(p.job, Job::Comfort { need: 0, until: 9, .. }));
    assert_eq!(dropped, vec!["need mod:joy".to_string(), "carried mod:gem".to_string()]);
}

#[test]
fn a_pawn_whose_creature_is_gone_is_dropped() {
    let saved = kinds(&["core:human", "mod:elf"], &[], &["mod:joy"]);
    let now = kinds(&["core:human"], &[], &[]);
    let r = Remap::new(saved, &now);
    let mut p = Pawn { def: 1, name: "Lin".to_string(), job: Job::Comfort { to: IVec::new(0, 0), need: 0, until: 1 }, ..Pawn::default() };
    let mut dropped = Vec::new();
    assert!(!remap_pawn(&r, &mut p, &mut dropped));
    assert_eq!(p.def, 1);
    assert_eq!(dropped, vec!["mod:elf (Lin)".to_string()]);
    // Kept, a pawn resting for a need that is gone stands idle.
    let mut q = Pawn { def: 0, job: Job::Comfort { to: IVec::new(0, 0), need: 0, until: 1 }, ..Pawn::default() };
    assert!(remap_pawn(&r, &mut q, &mut dropped));
    assert!(matches!(q.job, Job::Idle));
}
