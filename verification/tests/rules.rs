use rim_sim::rules::{explain_steps, ColonyWhen, Part, RuleStep, Rules};

fn when(hours: Option<(u32, u32)>, seasons: &[u32], stance: Option<u16>) -> ColonyWhen {
    ColonyWhen { hours, season_r: seasons.to_vec(), stance_r: stance }
}

#[test]
fn rules_hold_by_hour_season_and_stance() {
    let whens = vec![
        when(Some((22, 6)), &[], None),
        when(Some((8, 18)), &[], None),
        when(None, &[1, 2], None),
        when(None, &[], Some(3)),
        when(None, &[], None),
    ];
    let mut r = Rules::new();
    r.update(&whens, 23, 1, Some(3));
    assert_eq!(r.on, vec![0, 2, 3, 4]);
    assert_eq!(r.evaluations, 1);
    r.update(&whens, 23, 1, Some(3));
    assert_eq!(r.evaluations, 1, "nothing changed, nothing worked out");
    r.update(&whens, 12, 0, None);
    assert_eq!(r.on, vec![1, 4]);
    assert_eq!(r.evaluations, 2);
    r.update(&whens, 5, 2, Some(4));
    assert_eq!(r.on, vec![0, 2, 4]);
}

fn part(label: &str, delta: i32) -> Part {
    Part { label: label.to_string(), delta }
}

#[test]
fn explanations_sum_to_the_value() {
    let work = 2u16;
    let rules = vec![
        // Says nothing of work type 2.
        RuleStep { set_r: vec![(1, 4)], shift_r: vec![], holds: true, label: "night".to_string() },
        // Sets it.
        RuleStep { set_r: vec![(0, 1), (2, 2)], shift_r: vec![], holds: true, label: "drafted".to_string() },
        // Holds for the colony, not the colonist.
        RuleStep { set_r: vec![(2, 4)], shift_r: vec![], holds: false, label: "hungry".to_string() },
        // Shifts past the top: clamped, shown as 0 when it can't move.
        RuleStep { set_r: vec![], shift_r: vec![(2, -5)], holds: true, label: "rush".to_string() },
        RuleStep { set_r: vec![], shift_r: vec![(2, -5)], holds: true, label: "rush again".to_string() },
        RuleStep { set_r: vec![], shift_r: vec![(2, 2)], holds: true, label: "tired".to_string() },
    ];
    let (v, parts) = explain_steps(3, 4, &rules, work);
    assert_eq!(v, 3);
    assert_eq!(
        parts,
        vec![part("base", 3), part("drafted", -1), part("rush", -1), part("rush again", 0), part("tired", 2)]
    );
    assert_eq!(parts.iter().map(|p| p.delta).sum::<i32>(), v as i32);
}

#[test]
fn a_shift_leaves_never_alone() {
    let rules = vec![RuleStep { set_r: vec![], shift_r: vec![(0, 1)], holds: true, label: "x".to_string() }];
    let (v, parts) = explain_steps(0, 4, &rules, 0);
    assert_eq!(v, 0);
    assert_eq!(parts, vec![part("base", 0), part("x", 0)]);
}
