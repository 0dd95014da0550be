use rim_sim::command::in_rect;
use rim_sim::defs::resolve_in;
use rim_sim::IVec;

fn index() -> Vec<(String, String, u16)> {
    let e = |k: &str, id: &str, d: u16| (k.to_string(), id.to_string(), d);
    vec![
        e("thing", "core:wall", 0),
        e("thing", "core:plank", 1),
        e("thing", "boars:tusk", 2),
        e("thing", "wolves:tusk", 3),
        e("thing", "boars:plank", 4),
        e("terrain", "core:tusk", 0),
    ]
}

#[test]
fn references_resolve_in_their_own_mod_first() {
    let ix = index();
    assert_eq!(resolve_in(&ix, "thing", "wall", "core"), Ok(0));
    assert_eq!(resolve_in(&ix, "thing", "plank", "boars"), Ok(4));
    assert_eq!(resolve_in(&ix, "thing", "core:plank", "boars"), Ok(1));
    assert_eq!(resolve_in(&ix, "terrain", "tusk", "core"), Ok(0));
}

#[test]
fn an_unknown_reference_suggests_the_prefix() {
    let ix = index();
    assert_eq!(resolve_in(&ix, "thing", "door", "core"), Err("unknown thing 'core:door'".to_string()));
    assert_eq!(
        resolve_in(&ix, "thing", "wall", "boars"),
        Err("unknown thing 'boars:wall': another mod's def needs its prefix, \"core:wall\"".to_string())
    );
    assert_eq!(
        resolve_in(&ix, "thing", "tusk", "core"),
        Err("unknown thing 'core:tusk': another mod's def needs its prefix, one of boars:tusk, wolves:tusk".to_string())
    );
    assert_eq!(resolve_in(&ix, "thing", "elk:wall", "core"), Err("unknown thing 'elk:wall'".to_string()));
}

#[test]
fn rectangles_take_either_corner_first() {
    let (a, b) = (IVec::new(3, 1), IVec::new(0, 4));
    assert!(in_rect(IVec::new(0, 1), a, b));
    assert!(in_rect(IVec::new(3, 4), a, b));
    assert!(in_rect(IVec::new(2, 2), b, a));
    assert!(!in_rect(IVec::new(4, 2), a, b));
    assert!(!in_rect(IVec::new(2, 0), a, b));
}

use rim_sim::defs::{settle_work, Exit, PriorityScaleDef, SkillDef, StanceDef, Wear, WorkStyleDef, WorkTypeDef};

fn style(id: &str, every: u32, builds: bool) -> WorkStyleDef {
    WorkStyleDef { id: id.into(), every, strike: vec![], wear: Wear::NoWear, exit: Exit::NoExit, builds }
}

fn work(id: &str, priority: u8, order: i32, jobs: &[&str], skill: &str) -> WorkTypeDef {
    WorkTypeDef {
        id: id.into(),
        label: id.into(),
        icon: String::new(),
        skill: skill.into(),
        skill_r: None,
        priority,
        order,
        jobs: jobs.iter().map(|s| s.to_string()).collect(),
    }
}

fn skill(id: &str, melee: bool) -> SkillDef {
    SkillDef { id: id.into(), label: id.into(), melee }
}

fn stance(id: &str, order: i32) -> StanceDef {
    StanceDef { id: id.into(), label: id.into(), icon: String::new(), order }
}

fn skill_index() -> Vec<(String, String, u16)> {
    vec![("skill".into(), "core:building".into(), 0), ("skill".into(), "core:melee".into(), 1)]
}

#[test]
fn work_defs_settle_in_order() {
    let styles = vec![style("core:chop", 3, false), style("core:build", 2, true)];
    let scale = PriorityScaleDef { id: "core:scale".into(), levels: 4 };
    let mut wt = vec![
        work("core:haul", 3, 5, &["haul"], ""),
        work("core:build", 9, 1, &["build"], "building"),
        work("core:cook", 2, 1, &[], ""),
    ];
    let skills = vec![skill("core:building", false), skill("core:melee", true)];
    let stances = vec![stance("core:work", 2), stance("core:siege", 1), stance("core:rest", 1)];
    let ws = settle_work(&skill_index(), &styles, &scale, &mut wt, &skills, &stances).unwrap();
    assert_eq!(ws.build_style, Some(1));
    assert_eq!(ws.build_work, Some(1));
    assert_eq!(ws.haul_work, Some(0));
    assert_eq!(ws.melee_skill, Some(1));
    assert_eq!(ws.work_order, vec![1, 2, 0]);
    assert_eq!(ws.default_stance, Some(1));
    assert_eq!(wt[1].priority, 4, "clamped to the scale");
    assert_eq!(wt[1].skill_r, Some(0));
    assert_eq!(wt[0].skill_r, None);
}

#[test]
fn work_defs_name_what_is_wrong() {
    let scale = PriorityScaleDef { id: "core:scale".into(), levels: 4 };
    let go = |styles: Vec<WorkStyleDef>, scale: &PriorityScaleDef, mut wt: Vec<WorkTypeDef>, skills: Vec<SkillDef>| {
        settle_work(&skill_index(), &styles, scale, &mut wt, &skills, &[]).err().unwrap()
    };
    assert_eq!(
        go(vec![style("core:chop", 0, false)], &scale, vec![], vec![]),
        "work_style/core:chop: `every` is the work between strikes, at least 1"
    );
    assert_eq!(
        go(vec![style("a:x", 1, true), style("b:y", 1, true)], &scale, vec![], vec![]),
        "work_style/b:y: only one style can be the one builds use, and work_style/a:x already is"
    );
    let big = PriorityScaleDef { id: "m:scale".into(), levels: 12 };
    assert_eq!(go(vec![], &big, vec![], vec![]), "priority_scale/m:scale: levels must be 1 to 9, not 12");
    assert_eq!(
        go(vec![], &scale, vec![work("core:dig", 3, 0, &["dig"], "")], vec![]),
        "work_type/core:dig: no engine job 'dig' (there are: build, haul)"
    );
    assert_eq!(
        go(vec![], &scale, vec![work("a:b", 3, 0, &["build"], ""), work("c:d", 3, 0, &["haul", "build"], "")], vec![]),
        "work_type/c:d: another work type already covers 'build'"
    );
    assert_eq!(
        go(vec![], &scale, vec![work("core:sew", 3, 0, &[], "sewing")], vec![]),
        "work_type/core:sew: unknown skill 'core:sewing'"
    );
    assert_eq!(
        go(vec![], &scale, vec![], vec![skill("a:x", true), skill("a:y", false), skill("a:z", true)]),
        "skill/a:z: only one skill can be the melee skill"
    );
}
