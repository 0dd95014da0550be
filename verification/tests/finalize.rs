use rim_sim::defs::{CalendarDef, DesignationDef, Exit, PriorityScaleDef, SkillDef, StanceDef, Targets, Wear, WorkStyleDef, WorkTypeDef};
use rim_sim::finalize::{
    finalize, BuildDraft, CreatureDraft, DefsDraft, FieldDraft, HarvestDraft, NeedDraft, StartDraft, TerrainDraft, ThingDraft, ToolDraft,
};

fn s(x: &str) -> String {
    x.to_string()
}

fn thing(id: &str) -> ThingDraft {
    ThingDraft {
        id: s(id),
        color: s("#102030"),
        size: [1, 1],
        one_cell: false,
        has_shape: false,
        blocks: false,
        harvest: Vec::new(),
        build: None,
        spawn: None,
        boundary: Vec::new(),
        emit: Vec::new(),
        tool: None,
        stack_limit: 0,
    }
}

fn draft() -> DefsDraft {
    let mut tree = thing("core:tree");
    tree.blocks = true;
    tree.harvest.push(HarvestDraft { designation: s("chop"), yields: vec![(s("wood"), 5)], requires: vec![s("axe")], destroy: true });
    let mut wall = thing("core:wall");
    wall.build = Some(BuildDraft { cost: vec![(s("wood"), 2)], has_stuff: false, free: false });
    wall.boundary.push(s("warmth"));
    let mut axe = thing("core:axe");
    axe.tool = Some(ToolDraft { tags: vec![s("axe")], speed_ok: true, speed_text: s("1") });
    axe.stack_limit = 10;
    DefsDraft {
        terrain: vec![TerrainDraft { id: s("core:grass"), color: s("#00ff00"), rgb: [0, 0, 0] }],
        things: vec![tree, wall, thing("core:wood"), axe],
        creatures: vec![CreatureDraft {
            id: s("core:wolf"),
            color: s("#808080"),
            label: s("wolf"),
            plural: s(""),
            butcher: vec![(s("wood"), 1)],
            needs: vec![s("food")],
            spawn: Some(vec![s("grass")]),
            speed: 0,
            melee_cooldown: 3,
        }],
        needs: vec![NeedDraft {
            id: s("core:food"),
            color: s("#ff0000"),
            rgb: [0, 0, 0],
            say_ok: true,
            by_field: true,
            field: s("warmth"),
            field_r: 0,
        }],
        designations: vec![DesignationDef {
            id: s("core:chop"),
            label: s("Chop"),
            color: s("#aabbcc"),
            targets: Targets::Thing,
            work_type: s("cut"),
            style: Some(s("hack")),
            rgb: [0, 0, 0],
            work_r: 0,
            style_r: None,
        }],
        work_types: vec![WorkTypeDef {
            id: s("core:cut"),
            label: s("Cut"),
            icon: s("c"),
            skill: s(""),
            skill_r: None,
            priority: 7,
            order: 0,
            jobs: Vec::new(),
        }],
        work_styles: vec![WorkStyleDef { id: s("core:hack"), every: 5, strike: Vec::new(), wear: Wear::Cracks, exit: Exit::Fall, builds: false }],
        skills: vec![SkillDef { id: s("core:fight"), label: s("Fight"), melee: true }],
        stances: vec![StanceDef { id: s("core:calm"), label: s("Calm"), icon: s("c"), order: 0 }],
        fields: vec![FieldDraft { id: s("core:warmth"), computed: false }],
        priority_scale: PriorityScaleDef { id: s("core:scale"), levels: 4 },
        calendar: CalendarDef { id: s("core:cal"), year_days: 0, seasons: Vec::new(), start_day: 5 },
        rules: Vec::new(),
        start: Some(StartDraft { id: s("core:start"), creature: s("wolf") }),
    }
}

#[test]
fn defs_settle() {
    let mut d = draft();
    let st = finalize(&mut d).unwrap();
    assert_eq!(st.index.len(), 1 + 4 + 1 + 1 + 1 + 1 + 1 + 1 + 1 + 1);
    assert_eq!(d.terrain[0].rgb, [0, 255, 0]);
    assert_eq!(d.needs[0].rgb, [255, 0, 0]);
    assert_eq!(d.needs[0].field_r, 0);
    assert_eq!(d.designations[0].style_r, Some(0));
    assert_eq!(d.work_types[0].priority, 4);
    assert_eq!(d.calendar.year_days, 1);
    assert_eq!(d.calendar.seasons, vec![s("year")]);
    assert_eq!(d.calendar.start_day, 0);
    assert_eq!(st.tool_tags, vec![s("axe")]);
    assert_eq!(st.masks[0].harvest, vec![1]);
    assert_eq!(st.masks[3].tool, Some(1));
    assert_eq!(st.things[0].harvest[0].0, 0);
    assert_eq!(st.things[0].harvest[0].1, vec![(2, 5)]);
    assert_eq!(st.things[1].cost_r, Some(vec![(2, 2)]));
    assert_eq!(st.things[1].boundary_r, vec![0]);
    assert_eq!(st.things[1].stack_limit, 1);
    assert_eq!(st.things[3].stack_limit, 1);
    assert_eq!(st.creatures[0].plural, "wolfs");
    assert_eq!(st.creatures[0].speed, 1);
    assert_eq!(st.creatures[0].needs_r, vec![0]);
    assert_eq!(st.creatures[0].spawn_r, vec![0]);
    assert_eq!(st.start_creature, 0);
    assert_eq!(st.work.melee_skill, Some(0));
    assert_eq!(st.work.default_stance, Some(0));
}

#[test]
fn settling_errors() {
    let mut d = draft();
    d.terrain[0].color = s("green");
    assert_eq!(finalize(&mut d).unwrap_err(), "terrain/core:grass: bad color 'green' (want #rrggbb)");
    let mut d = draft();
    d.needs[0].say_ok = false;
    assert_eq!(finalize(&mut d).unwrap_err(), "need/core:food: say wants `below` from 0 to 1, at least one line, and `ticks` above 0");
    let mut d = draft();
    d.things[2].size = [9, 1];
    assert_eq!(finalize(&mut d).unwrap_err(), "thing/core:wood: size is [w, h], each 1 to 8, not [9, 1]");
    let mut d = draft();
    d.things[2].size = [2, 1];
    d.things[2].one_cell = true;
    assert_eq!(finalize(&mut d).unwrap_err(), "thing/core:wood: items and floors are one cell; only fixtures have a size");
    let mut d = draft();
    d.things[1].build = Some(BuildDraft { cost: Vec::new(), has_stuff: false, free: false });
    assert_eq!(finalize(&mut d).unwrap_err(), "thing/core:wall: build needs `cost`, `stuff`, or `free = true`");
    let mut d = draft();
    d.fields[0].computed = true;
    assert_eq!(
        finalize(&mut d).unwrap_err(),
        "thing/core:wall: field core:warmth is worked out from others, so nothing can emit into it or bound it"
    );
    let mut d = draft();
    let h = HarvestDraft { designation: s("chop"), yields: Vec::new(), requires: Vec::new(), destroy: false };
    d.things[0].harvest.push(h);
    assert_eq!(finalize(&mut d).unwrap_err(), "thing/core:tree: two harvests use the designation 'chop'; each needs its own");
    let mut d = draft();
    d.work_styles[0].wear = Wear::Grow;
    assert_eq!(
        finalize(&mut d).unwrap_err(),
        "work_style/core:hack: wear = \"grow\" can't take down thing/core:tree, which blocks: it would look open while it still stands. Use \"cracks\" or \"lean\""
    );
    let mut d = draft();
    d.start = None;
    assert_eq!(finalize(&mut d).unwrap_err(), "no [[start]] defined \u{2014} is the core mod installed?");
    let mut d = draft();
    d.start = Some(StartDraft { id: s("core:start"), creature: s("bear") });
    assert_eq!(finalize(&mut d).unwrap_err(), "start/core:start: unknown creature 'core:bear'");
    let mut d = draft();
    d.things[3].tool = Some(ToolDraft { tags: vec![s("axe")], speed_ok: false, speed_text: s("0") });
    assert_eq!(finalize(&mut d).unwrap_err(), "thing/core:axe: tool speed must be above 0 (it's 0)");
}
