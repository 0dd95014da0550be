//! What the pawn AI decides on the values it reads: how hard a melee
//! swing lands, how long a step takes, and which of the jobs a colonist
//! found it takes up.
use vstd::prelude::*;
use crate::defs::DefId;
use crate::world::{Pawn, first_value, level_of};
use crate::map::{TileMap, MapView};
use crate::path::{Goal, Pathfinder, goal_met, goal_in_range, route_ok, route_end};
use crate::IVec;
use hecs::Entity;

verus! {

/// Integer division as Rust does it: the quotient rounded toward zero.
pub open spec fn div_toward_zero(a: int, b: int) -> int {
    if a >= 0 {
        a / b
    } else {
        -((-a) / b)
    }
}

/// A pawn's level at a skill.
pub open spec fn skill_level(p: Pawn, skill: DefId) -> int {
    level_of(
        match first_value(p.skills@, skill) {
            Some(x) => x as int,
            None => 0,
        },
    )
}

/// A person's melee skill as a damage percentage: 80 untrained, 4 more a
/// level, 160 at the top; 100 for an animal and wherever no skill says
/// `melee`.
pub open spec fn skill_pct_spec(p: Pawn, intelligent: bool, melee_skill: Option<DefId>) -> int {
    match melee_skill {
        Some(s) => if intelligent {
            80 + 4 * skill_level(p, s)
        } else {
            100
        },
        None => 100,
    }
}

/// Experience a melee swing is worth.
pub const SWING_XP: u32 = 20;

/// The damage a swing of base `base` does when the roll, 0 to 60, adds
/// that many percent to 70: never below 1.
pub open spec fn swing_spec(base: int, roll: int) -> int {
    crate::max_int(div_toward_zero(base * (70 + roll), 100), 1)
}

/// The base damage of a melee swing: the creature's damage scaled by its
/// melee skill, plus the start's founder bonus when this is the founder.
pub open spec fn melee_base_spec(p: Pawn, damage: int, intelligent: bool, melee_skill: Option<DefId>, founder_bonus: int) -> int {
    div_toward_zero(damage * skill_pct_spec(p, intelligent, melee_skill), 100) + if p.founder {
        founder_bonus
    } else {
        0
    }
}

/// A skill's percentage lies within 80 to 160.
proof fn lemma_pct_range(p: Pawn, intelligent: bool, melee_skill: Option<DefId>)
    ensures
        80 <= skill_pct_spec(p, intelligent, melee_skill) <= 160,
{
    match melee_skill {
        Some(s) => {
            crate::world::lemma_level_at_most(
                match first_value(p.skills@, s) {
                    Some(x) => x as int,
                    None => 0,
                },
                crate::world::SKILL_MAX as int,
            );
        },
        None => {},
    }
}

/// A person's melee skill as a damage percentage.
fn melee_skill_pct(p: &Pawn, intelligent: bool, melee_skill: Option<DefId>) -> (r: i32)
    ensures
        r == skill_pct_spec(*p, intelligent, melee_skill),
        80 <= r <= 160,
{
    proof {
        lemma_pct_range(*p, intelligent, melee_skill);
    }
    match melee_skill {
        Some(s) => if intelligent {
            80 + 4 * p.skill(s) as i32
        } else {
            100
        },
        None => 100,
    }
}

/// The base damage of a melee swing, before the roll: the creature's
/// `melee_damage` scaled by its melee skill (`intelligent` and the def
/// base's melee skill say whether it has one), plus `founder_bonus`, the
/// start's bonus, when this is the founder. The founder matters most when
/// alone, and this is where it shows; the bonus is flat, whatever the
/// founder's skill.
pub fn melee_base(p: &Pawn, melee_damage: i32, intelligent: bool, melee_skill: Option<DefId>, founder_bonus: i32) -> (r: i32)
    requires
        crate::fits_i32(melee_damage * skill_pct_spec(*p, intelligent, melee_skill)),
        crate::fits_i32(melee_base_spec(*p, melee_damage as int, intelligent, melee_skill, founder_bonus as int)),
    ensures
        r == melee_base_spec(*p, melee_damage as int, intelligent, melee_skill, founder_bonus as int),
{
    let bonus = if p.founder { founder_bonus } else { 0 };
    let pct = melee_skill_pct(p, intelligent, melee_skill);
    melee_damage * pct / 100 + bonus
}

/// The least and most a swing can do: the base rolled at 70% and at
/// 130%, and never below 1.
pub fn melee_bounds(p: &Pawn, melee_damage: i32, intelligent: bool, melee_skill: Option<DefId>, founder_bonus: i32) -> (r: (i32, i32))
    requires
        crate::fits_i32(melee_damage * skill_pct_spec(*p, intelligent, melee_skill)),
        crate::fits_i32(melee_base_spec(*p, melee_damage as int, intelligent, melee_skill, founder_bonus as int) * 130),
    ensures
        r.0 == swing_spec(melee_base_spec(*p, melee_damage as int, intelligent, melee_skill, founder_bonus as int), 0),
        r.1 == swing_spec(melee_base_spec(*p, melee_damage as int, intelligent, melee_skill, founder_bonus as int), 60),
{
    let base = melee_base(p, melee_damage, intelligent, melee_skill, founder_bonus);
    let lo = base * 70 / 100;
    let hi = base * 130 / 100;
    (if lo < 1 { 1 } else { lo }, if hi < 1 { 1 } else { hi })
}

/// One melee swing, before it is applied to anything: the swing waits out
/// the creature's `melee_cooldown`, rolls 70% to 130% of the base, and
/// trains a person's melee skill.
pub fn swing(
    rng: &mut crate::rng::Rng,
    p: &mut Pawn,
    melee_damage: i32,
    melee_cooldown: u32,
    intelligent: bool,
    melee_skill: Option<DefId>,
    founder_bonus: i32,
) -> (r: i32)
    requires
        crate::rules::keys_sorted(old(p).skills@),
        crate::fits_i32(melee_damage * skill_pct_spec(*old(p), intelligent, melee_skill)),
        crate::fits_i32(melee_base_spec(*old(p), melee_damage as int, intelligent, melee_skill, founder_bonus as int) * 130),
    ensures
        r == swing_spec(
            melee_base_spec(*old(p), melee_damage as int, intelligent, melee_skill, founder_bonus as int),
            crate::rng::scale_below(crate::rng::draw_spec(old(rng)@), 61) as int,
        ),
        final(rng)@ == crate::rng::advance(old(rng)@),
        final(p).cooldown == melee_cooldown,
        crate::rules::keys_sorted(final(p).skills@),
        forall|x: DefId| #[trigger] crate::rules::lookup(final(p).skills@, x) == if intelligent && melee_skill == Some(x) {
            Some(
                crate::min_int(
                    match crate::rules::lookup(old(p).skills@, x) {
                        Some(o) => o + SWING_XP,
                        None => SWING_XP as int,
                    },
                    crate::world::xp_cap(),
                ) as u32,
            )
        } else {
            crate::rules::lookup(old(p).skills@, x)
        },
{
    let base = melee_base(p, melee_damage, intelligent, melee_skill, founder_bonus);
    let roll = rng.below(61);
    proof {
        lemma_roll_fits(base as int, roll as int);
    }
    let v = base * (70 + roll as i32) / 100;
    let dmg = if v < 1 { 1 } else { v };
    match melee_skill {
        Some(s) => if intelligent {
            p.learn(s, SWING_XP);
        },
        None => {},
    }
    p.cooldown = melee_cooldown;
    dmg
}

/// A roll of 0 to 60 keeps the scaled base within what 130% reaches.
proof fn lemma_roll_fits(base: int, roll: int)
    requires
        0 <= roll <= 60,
        crate::fits_i32(base * 130),
    ensures
        crate::fits_i32(base * (70 + roll)),
{
    assert(crate::fits_i32(base * (70 + roll))) by (nonlinear_arith)
        requires
            0 <= roll <= 60,
            i32::MIN <= base * 130 <= i32::MAX,
    ;
}

/// Whatever the roll, a swing does at least the least and at most the
/// most that `melee_bounds` gives for its base.
pub proof fn law_swing_within_bounds(base: int, roll: int)
    requires
        0 <= roll <= 60,
    ensures
        swing_spec(base, 0) <= swing_spec(base, roll) <= swing_spec(base, 60),
{
    if base >= 0 {
        assert(base * 70 <= base * (70 + roll) <= base * 130) by (nonlinear_arith)
            requires
                base >= 0,
                0 <= roll <= 60,
        ;
        vstd::arithmetic::div_mod::lemma_div_is_ordered(base * 70, base * (70 + roll), 100);
        vstd::arithmetic::div_mod::lemma_div_is_ordered(base * (70 + roll), base * 130, 100);
    } else {
        assert(base * 70 < 0 && base * (70 + roll) < 0 && base * 130 < 0) by (nonlinear_arith)
            requires
                base < 0,
                0 <= roll <= 60,
        ;
    }
}

// ----------------------------------------------------------------- movement

/// Everything about two pawns but where they are and where they are
/// headed is the same.
pub open spec fn same_but_moves(a: Pawn, b: Pawn) -> bool {
    &&& a.active == b.active && a.def == b.def && a.faction == b.faction && a.name == b.name
    &&& a.founder == b.founder && a.repath_at == b.repath_at && a.hp == b.hp && a.needs == b.needs
    &&& a.job == b.job && a.next_think == b.next_think && a.cooldown == b.cooldown && a.drafted == b.drafted
    &&& a.carry == b.carry && a.last_attacker == b.last_attacker && a.asleep == b.asleep
    &&& a.sleep_rate == b.sleep_rate && a.dead == b.dead && a.left == b.left && a.leave_at == b.leave_at
    &&& a.priorities == b.priorities && a.hand == b.hand && a.skills == b.skills && a.work_frac == b.work_frac
}

/// How a move toward a goal went.
#[derive(Clone, Copy, PartialEq, Eq, Debug)]
pub enum Go {
    Arrived,
    Moving,
    Failed,
}

/// The movement cost, in percent, of an on-map cell.
pub open spec fn cost_at(m: MapView, c: IVec) -> int {
    (if m.floor_cost[m.idx(c)] > 0 {
        m.floor_cost[m.idx(c)]
    } else {
        m.terrain_cost[m.idx(c)]
    }) + m.fix_cost[m.idx(c)]
}

/// Ticks a step takes for a creature of `speed` into ground of `cost`
/// percent; a diagonal step is 1.4 times as long. Never below 1.
pub open spec fn step_ticks_spec(speed: int, cost: int, diag: bool) -> int {
    crate::max_int(speed * cost / 100 * (if diag { 14int } else { 10int }) / 10, 1)
}

/// The step time can be worked out in `u32`.
pub open spec fn step_fits(speed: int, cost: int) -> bool {
    speed * cost <= u32::MAX && speed * cost / 100 * 14 <= u32::MAX
}

/// Head for `goal`: arrived when standing where it is met between steps;
/// still moving on a path already made for it; a step under way is
/// finished before the route is made again; else, when the goal can be
/// reached at all, a search for a route (up to 30,000 cells), which fails
/// only when the search used up those cells or no route exists (on a map
/// of at most `SEARCH_CELLS_MAX` cells).
pub fn go_to(map: &mut TileMap, pf: &mut Pathfinder, p: &mut Pawn, goal: Goal) -> (r: Go)
    requires
        old(map).wf(),
        old(pf).wf(),
        old(map).view().inb(old(p).pos),
        goal_in_range(old(map).view(), goal),
    ensures
        final(map).wf(),
        final(pf).wf(),
        final(map).view() == (MapView { regions: final(map).view().regions, regions_dirty: final(map).view().regions_dirty, ..old(map).view() }),
        same_but_moves(*old(p), *final(p)),
        final(p).pos == old(p).pos && final(p).next == old(p).next,
        final(p).progress == old(p).progress && final(p).step_ticks == old(p).step_ticks,
        ({
            let o = *old(p);
            let f = *final(p);
            if o.next is None && goal_met(goal, o.pos) {
                r == Go::Arrived && f.path@.len() == 0 && f.path_goal is None
            } else if o.path_goal == Some(goal) && (o.next is Some || o.path@.len() > 0) {
                r == Go::Moving && f.path@ == o.path@ && f.path_goal == o.path_goal
            } else if o.next is Some {
                r == Go::Moving && f.path@.len() == 0 && f.path_goal is None
            } else if !final(map).view().reach_spec(o.pos, goal, o.faction) {
                r == Go::Failed && f.path@ == o.path@ && f.path_goal == o.path_goal
            } else {
                &&& final(map).view().regions_sound()
                &&& r == Go::Failed ==> f.path@ == o.path@ && f.path_goal == o.path_goal && ((final(pf).expanded_spec()
                    == crate::path::bumped_by(old(pf).expanded_spec(), 30_001) && 30_001 <= final(map).view().cells()) || final(map).view().cells() > crate::path::SEARCH_CELLS_MAX
                    || !crate::path::route_exists(final(map).view(), o.faction, o.pos, goal))
                &&& r == Go::Moving ==> f.path_goal == Some(goal) && route_ok(final(map).view(), o.faction, o.pos, f.path@)
                    && goal_met(goal, route_end(o.pos, f.path@))
                &&& r != Go::Arrived
            }
        }),
{
    if p.next.is_none() && goal.satisfied(p.pos) {
        p.path.clear();
        p.path_goal = None;
        return Go::Arrived;
    }
    let same_goal = match p.path_goal {
        Some(g) => g == goal,
        None => false,
    };
    if same_goal && p.moving() {
        return Go::Moving;
    }
    if p.next.is_some() {
        // Finish the current step, then replan.
        p.path.clear();
        p.path_goal = None;
        return Go::Moving;
    }
    map.ensure_regions();
    if !map.can_reach_for(p.pos, goal, p.faction) {
        return Go::Failed;
    }
    match pf.find(map, p.pos, goal, 30_000, p.faction) {
        Some(path) => {
            p.path = path;
            p.path_goal = Some(goal);
            Go::Moving
        },
        None => Go::Failed,
    }
}

/// Where a pawn stands once the step under way, if any, is done.
pub open spec fn landed(o: Pawn) -> IVec {
    match o.next {
        Some(n) => n,
        None => o.pos,
    }
}

/// One tick of walking for a creature of `speed`: the step under way goes
/// on until its ticks are up, and lands; then, with more path to go, the
/// next step starts, or the path is dropped when that cell has since
/// become impassable.
pub fn advance_movement(map: &TileMap, speed: u32, p: &mut Pawn)
    requires
        map.wf(),
        old(p).next is Some ==> old(p).progress < u32::MAX,
        old(p).path@.len() > 0 && map.view().inb(old(p).path@.last()) ==> step_fits(
            speed as int,
            cost_at(map.view(), old(p).path@.last()),
        ),
    ensures
        same_but_moves(*old(p), *final(p)),
        ({
            let o = *old(p);
            let f = *final(p);
            let m = map.view();
            if o.next is Some && o.progress + 1 < o.step_ticks {
                &&& f.progress == o.progress + 1 && f.pos == o.pos && f.next == o.next
                &&& f.step_ticks == o.step_ticks && f.path@ == o.path@ && f.path_goal == o.path_goal
            } else {
                let progress = if o.next is Some { 0 } else { o.progress as int };
                let at = landed(o);
                &&& f.pos == at
                &&& if o.path@.len() == 0 {
                    &&& f.next is None && f.progress == progress && f.step_ticks == o.step_ticks
                    &&& f.path@ == o.path@ && f.path_goal == o.path_goal
                } else {
                    let n = o.path@.last();
                    if !(m.inb(n) && m.passable_i(m.idx(n))) {
                        &&& f.next is None && f.progress == progress && f.step_ticks == o.step_ticks
                        &&& f.path@.len() == 0 && f.path_goal is None
                    } else {
                        &&& f.next == Some(n) && f.progress == 0
                        &&& f.path@ == o.path@.drop_last() && f.path_goal == o.path_goal
                        &&& f.step_ticks == step_ticks_spec(speed as int, cost_at(m, n), n.x != at.x && n.y != at.y)
                    }
                }
            }
        }),
{
    if let Some(n) = p.next {
        p.progress = p.progress + 1;
        if p.progress < p.step_ticks {
            return;
        }
        p.pos = n;
        p.next = None;
        p.progress = 0;
    }
    let len = p.path.len();
    if len > 0 {
        let n = p.path[len - 1];
        if !map.passable(n) {
            p.path.clear();
            p.path_goal = None;
            return;
        }
        p.path.pop();
        let diag = n.x != p.pos.x && n.y != p.pos.y;
        let ticks = speed * map.cost(n) / 100 * if diag { 14 } else { 10 } / 10;
        p.step_ticks = if ticks < 1 { 1 } else { ticks };
        p.next = Some(n);
        p.progress = 0;
    }
}

// ----------------------------------------------------------------- sighting

/// The distances from `from` to `c` can be worked out.
pub open spec fn near_ok(from: IVec, c: IVec) -> bool {
    &&& crate::fits_i32(c.x - from.x) && crate::fits_i32(c.y - from.y)
    &&& crate::abs_int(c.x - from.x) <= i32::MAX && crate::abs_int(c.y - from.y) <= i32::MAX
    &&& crate::octile_spec(c, from) <= u32::MAX
}

/// The candidate at `i` is the nearest within `radius` (king moves) of
/// `from`, by walking distance: none nearer, and none before it as near.
pub open spec fn nearest_at(from: IVec, radius: int, cands: Seq<(Entity, IVec)>, i: int) -> bool {
    &&& 0 <= i < cands.len()
    &&& crate::chebyshev_spec(cands[i].1, from) <= radius
    &&& forall|j: int| 0 <= j < cands.len() && crate::chebyshev_spec(cands[j].1, from) <= radius
        ==> crate::octile_spec(cands[i].1, from) <= crate::octile_spec(#[trigger] cands[j].1, from)
    &&& forall|j: int| 0 <= j < i && crate::chebyshev_spec(cands[j].1, from) <= radius
        ==> crate::octile_spec(cands[i].1, from) < crate::octile_spec(#[trigger] cands[j].1, from)
}

/// Of the pawns that pass the caller's test (`cands`, in spawn order, with
/// where they stand), the nearest within `radius` king moves of `from`;
/// the first such on a tie.
pub fn nearest_within(from: IVec, radius: i32, cands: &[(Entity, IVec)]) -> (r: Option<(Entity, IVec)>)
    requires
        forall|j: int| 0 <= j < cands@.len() ==> near_ok(from, #[trigger] cands@[j].1),
    ensures
        match r {
            Some(c) => exists|i: int| nearest_at(from, radius as int, cands@, i) && cands@[i] == c,
            None => forall|j: int| 0 <= j < cands@.len() ==> crate::chebyshev_spec(#[trigger] cands@[j].1, from) > radius,
        },
{
    let mut best: Option<(u32, usize)> = None;
    let mut k: usize = 0;
    while k < cands.len()
        invariant
            k <= cands@.len(),
            forall|j: int| 0 <= j < cands@.len() ==> near_ok(from, #[trigger] cands@[j].1),
            match best {
                Some((d, i)) => {
                    &&& i < k
                    &&& d == crate::octile_spec(cands@[i as int].1, from)
                    &&& crate::chebyshev_spec(cands@[i as int].1, from) <= radius
                    &&& forall|j: int| 0 <= j < k && crate::chebyshev_spec(cands@[j].1, from) <= radius
                        ==> d <= crate::octile_spec(#[trigger] cands@[j].1, from)
                    &&& forall|j: int| 0 <= j < i && crate::chebyshev_spec(cands@[j].1, from) <= radius
                        ==> d < crate::octile_spec(#[trigger] cands@[j].1, from)
                },
                None => forall|j: int| 0 <= j < k ==> crate::chebyshev_spec(#[trigger] cands@[j].1, from) > radius,
            },
        decreases cands@.len() - k,
    {
        let c = cands[k].1;
        assert(near_ok(from, cands@[k as int].1));
        if c.chebyshev(from) <= radius {
            let d = c.octile(from);
            let closer = match best {
                None => true,
                Some((bd, _)) => d < bd,
            };
            if closer {
                best = Some((d, k));
            }
        }
        k += 1;
    }
    match best {
        Some((_, i)) => {
            proof {
                assert(nearest_at(from, radius as int, cands@, i as int));
            }
            Some(cands[i])
        },
        None => None,
    }
}

// ------------------------------------------------------------ choosing work

/// Of two jobs found for a work type, the one at distance `d` reserving
/// entity `id` is nearer than `b`, the best so far: by distance, then by
/// entity id, so the choice doesn't depend on the order things were found.
pub open spec fn nearer_spec(b: Option<(u32, u32)>, d: u32, id: u32) -> bool {
    match b {
        None => true,
        Some((bd, bid)) => d < bd || (d == bd && id < bid),
    }
}

/// Whether a job at distance `d` reserving entity `id` beats `b`, the
/// best found so far for its work type (distance, entity to reserve).
pub fn nearer(b: Option<(u32, u32)>, d: u32, id: u32) -> (r: bool)
    ensures
        r == nearer_spec(b, d, id),
{
    match b {
        None => true,
        Some((bd, bid)) => d < bd || (d == bd && id < bid),
    }
}

/// Where a work type stands in the work order: its place, or past every
/// place when the order doesn't list it.
pub open spec fn rank_spec(order: Seq<DefId>, t: int) -> int {
    if exists|i: int| 0 <= i < order.len() && order[i] == t {
        choose|i: int| 0 <= i < order.len() && order[i] == t && forall|j: int| 0 <= j < i ==> order[j] != t
    } else {
        usize::MAX as int
    }
}

/// What ranks the jobs found: the work type's level (1 first), the
/// distance, the work type's place in the order, the entity's id.
pub open spec fn work_key(level: Seq<u8>, best: Seq<Option<(u32, u32)>>, order: Seq<DefId>, t: int) -> (int, int, int, int) {
    (level[t] as int, best[t]->Some_0.0 as int, rank_spec(order, t), best[t]->Some_0.1 as int)
}

/// One key ranks strictly before another.
pub open spec fn key_before(a: (int, int, int, int), b: (int, int, int, int)) -> bool {
    a.0 < b.0 || (a.0 == b.0 && (a.1 < b.1 || (a.1 == b.1 && (a.2 < b.2 || (a.2 == b.2 && a.3 < b.3)))))
}

/// The work type whose job goes first: the first of those with a job whose
/// key no other's key ranks before.
pub open spec fn picked(level: Seq<u8>, best: Seq<Option<(u32, u32)>>, order: Seq<DefId>, t: int) -> bool {
    &&& 0 <= t < best.len()
    &&& best[t] is Some
    &&& forall|u: int| 0 <= u < best.len() && best[u] is Some ==> !key_before(work_key(level, best, order, u), work_key(level, best, order, t))
    &&& forall|u: int| 0 <= u < t && best[u] is Some ==> key_before(work_key(level, best, order, t), work_key(level, best, order, u))
}

fn rank_of(order: &[DefId], t: DefId) -> (r: usize)
    ensures
        r == rank_spec(order@, t as int),
{
    let mut i: usize = 0;
    while i < order.len()
        invariant
            i <= order@.len(),
            forall|j: int| 0 <= j < i ==> order@[j] != t,
        decreases order@.len() - i,
    {
        if order[i] == t {
            proof {
                let c = choose|c: int| 0 <= c < order@.len() && order@[c] == t && forall|j: int| 0 <= j < c ==> order@[j] != t;
                assert(c == i as int) by {
                    if c > i {
                        assert(order@[i as int] == t);
                    }
                }
            }
            return i;
        }
        i += 1;
    }
    usize::MAX
}

fn key_before_exec(a: (u8, u32, usize, u32), b: (u8, u32, usize, u32)) -> (r: bool)
    ensures
        r == key_before((a.0 as int, a.1 as int, a.2 as int, a.3 as int), (b.0 as int, b.1 as int, b.2 as int, b.3 as int)),
{
    a.0 < b.0 || (a.0 == b.0 && (a.1 < b.1 || (a.1 == b.1 && (a.2 < b.2 || (a.2 == b.2 && a.3 < b.3)))))
}

/// Of the jobs found, one per work type at most (`best`: distance and
/// entity to reserve, by work type), the one a colonist takes up: the work
/// type at its lowest `level`, then the nearest job, then the work type
/// first in `order`, then the lowest entity id; the first work type on a
/// full tie. `None` when nothing was found.
pub fn pick_work(level: &[u8], best: &[Option<(u32, u32)>], order: &[DefId]) -> (r: Option<usize>)
    requires
        level@.len() == best@.len(),
        best@.len() <= u16::MAX + 1,
    ensures
        match r {
            Some(t) => picked(level@, best@, order@, t as int),
            None => forall|u: int| 0 <= u < best@.len() ==> best@[u] is None,
        },
{
    let mut pick: Option<usize> = None;
    let mut pick_key: (u8, u32, usize, u32) = (0, 0, 0, 0);
    let mut t: usize = 0;
    while t < best.len()
        invariant
            t <= best@.len(),
            level@.len() == best@.len(),
            best@.len() <= u16::MAX + 1,
            match pick {
                Some(p) => {
                    &&& p < t
                    &&& best@[p as int] is Some
                    &&& work_key(level@, best@, order@, p as int) == (pick_key.0 as int, pick_key.1 as int, pick_key.2 as int, pick_key.3 as int)
                    &&& forall|u: int| 0 <= u < t && best@[u] is Some ==> !key_before(#[trigger] work_key(level@, best@, order@, u), work_key(level@, best@, order@, p as int))
                    &&& forall|u: int| 0 <= u < p && best@[u] is Some ==> key_before(work_key(level@, best@, order@, p as int), #[trigger] work_key(level@, best@, order@, u))
                },
                None => forall|u: int| 0 <= u < t ==> best@[u] is None,
            },
        decreases best@.len() - t,
    {
        match best[t] {
            None => {},
            Some((d, id)) => {
                let k = (level[t], d, rank_of(order, t as DefId), id);
                assert(work_key(level@, best@, order@, t as int) == (k.0 as int, k.1 as int, k.2 as int, k.3 as int));
                let take = match pick {
                    None => true,
                    Some(_) => key_before_exec(k, pick_key),
                };
                if take {
                    pick = Some(t);
                    pick_key = k;
                }
            },
        }
        t += 1;
    }
    pick
}

/// Whether work at a level before the haul work type's (`haul`) was
/// already found, so the costliest search, for loose items to haul, can
/// be skipped.
pub fn haul_beaten(level: &[u8], best: &[Option<(u32, u32)>], haul: usize) -> (r: bool)
    requires
        level@.len() == best@.len(),
        haul < level@.len(),
    ensures
        r == exists|t: int| 0 <= t < best@.len() && best@[t] is Some && level@[t] < level@[haul as int],
{
    let mut t: usize = 0;
    while t < best.len()
        invariant
            t <= best@.len(),
            level@.len() == best@.len(),
            haul < level@.len(),
            forall|u: int| 0 <= u < t ==> !(best@[u] is Some && level@[u] < level@[haul as int]),
        decreases best@.len() - t,
    {
        if best[t].is_some() && level[t] < level[haul] {
            return true;
        }
        t += 1;
    }
    false
}

} // verus!
