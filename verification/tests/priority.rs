use rim_sim::defs::DefId;
use rim_sim::priority::{settle_rule, settle_rules, RuleDef};

fn index() -> Vec<(String, String, DefId)> {
    vec![
        ("work_type".to_string(), "core:mine".to_string(), 0),
        ("work_type".to_string(), "core:haul".to_string(), 1),
        ("work_type".to_string(), "farm:sow".to_string(), 2),
        ("stance".to_string(), "core:siege".to_string(), 0),
        ("need".to_string(), "core:food".to_string(), 0),
    ]
}

fn seasons() -> Vec<String> {
    ["spring", "summer", "autumn", "winter"].iter().map(|s| s.to_string()).collect()
}

fn rule(id: &str) -> RuleDef {
    RuleDef {
        id: id.to_string(),
        label: String::new(),
        hours: None,
        season: Vec::new(),
        stance: None,
        need: None,
        bounded: false,
        fractions_ok: true,
        set: Vec::new(),
        shift: Vec::new(),
    }
}

#[test]
fn a_rule_settles_in_work_type_order_within_the_scale() {
    let mut r = rule("core:night");
    r.hours = Some((22, 6));
    r.season = vec!["winter".to_string(), "spring".to_string()];
    r.stance = Some("siege".to_string());
    r.set = vec![("haul".to_string(), 3), ("mine".to_string(), 12)];
    r.shift = vec![("farm:sow".to_string(), 2), ("mine".to_string(), -20)];
    let s = settle_rule(&index(), &seasons(), 4, &r).unwrap();
    assert_eq!(s.when.hours, Some((22, 6)));
    assert_eq!(s.when.season_r, vec![3, 0]);
    assert_eq!(s.when.stance_r, Some(0));
    assert_eq!(s.need_r, None);
    // "mine" is work type 0 and its 12 comes down to the scale's 4.
    assert_eq!(s.set_r, vec![(0, 4), (1, 3)]);
    // A shift past the whole scale does no more than crossing it.
    assert_eq!(s.shift_r, vec![(0, -4), (2, 2)]);
}

#[test]
fn a_need_condition_resolves_its_need() {
    let mut r = rule("core:hungry");
    r.need = Some("food".to_string());
    r.bounded = true;
    let s = settle_rule(&index(), &seasons(), 4, &r).unwrap();
    assert_eq!(s.need_r, Some(0));
}

#[test]
fn hours_must_make_a_window() {
    for (a, b) in [(5, 5), (24, 3), (2, 25)] {
        let mut r = rule("core:x");
        r.hours = Some((a, b));
        let e = settle_rule(&index(), &seasons(), 4, &r).unwrap_err();
        assert_eq!(
            e,
            format!("priority_rule/core:x: hours are [from, to] within 0 to 24 and not equal, not [{a}, {b}]")
        );
    }
    let mut r = rule("core:x");
    r.hours = Some((23, 24));
    assert!(settle_rule(&index(), &seasons(), 4, &r).is_ok());
}

#[test]
fn seasons_come_from_the_calendar() {
    let mut r = rule("core:x");
    r.season = vec!["winter".to_string(), "monsoon".to_string()];
    assert_eq!(
        settle_rule(&index(), &seasons(), 4, &r).unwrap_err(),
        "priority_rule/core:x: no season 'monsoon' in the calendar (there are: spring, summer, autumn, winter)"
    );
}

#[test]
fn references_resolve_in_the_rules_own_mod() {
    let mut r = rule("core:x");
    r.stance = Some("peace".to_string());
    assert_eq!(settle_rule(&index(), &seasons(), 4, &r).unwrap_err(), "priority_rule/core:x: unknown stance 'core:peace'");
    let mut r = rule("core:x");
    r.set = vec![("sow".to_string(), 1)];
    assert_eq!(
        settle_rule(&index(), &seasons(), 4, &r).unwrap_err(),
        "priority_rule/core:x: unknown work_type 'core:sow': another mod's def needs its prefix, \"farm:sow\""
    );
    let mut r = rule("farm:x");
    r.set = vec![("sow".to_string(), 1)];
    assert_eq!(settle_rule(&index(), &seasons(), 4, &r).unwrap().set_r, vec![(2, 1)]);
}

#[test]
fn a_need_condition_takes_a_fraction() {
    let msg = "priority_rule/core:x: a `need` condition takes `below` or `above`, a fraction of full from 0 to 1";
    let mut r = rule("core:x");
    r.need = Some("food".to_string());
    assert_eq!(settle_rule(&index(), &seasons(), 4, &r).unwrap_err(), msg);
    let mut r = rule("core:x");
    r.bounded = true;
    assert_eq!(settle_rule(&index(), &seasons(), 4, &r).unwrap_err(), msg);
    let mut r = rule("core:x");
    r.need = Some("food".to_string());
    r.bounded = true;
    r.fractions_ok = false;
    assert_eq!(settle_rule(&index(), &seasons(), 4, &r).unwrap_err(), msg);
}

#[test]
fn all_rules_settle_or_the_first_error_stands() {
    let mut a = rule("core:a");
    a.season = vec!["summer".to_string()];
    let b = rule("core:b");
    let setup = settle_rules(&index(), &seasons(), 4, &[a.clone(), b.clone()]).unwrap();
    assert_eq!(setup.rules.len(), 2);
    assert!(!setup.read_hour);
    assert!(setup.read_season);
    let mut c = rule("core:c");
    c.hours = Some((1, 2));
    let setup = settle_rules(&index(), &seasons(), 4, &[b.clone(), c.clone()]).unwrap();
    assert!(setup.read_hour);
    assert!(!setup.read_season);
    let mut bad = rule("core:bad");
    bad.stance = Some("none".to_string());
    let mut worse = rule("core:worse");
    worse.hours = Some((3, 3));
    let e = settle_rules(&index(), &seasons(), 4, &[a, bad, worse]).unwrap_err();
    assert_eq!(e, "priority_rule/core:bad: unknown stance 'core:none'");
}
