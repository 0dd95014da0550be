//! World state: factions, work on things, lots, needs, regrowth, messages.
use vstd::prelude::*;
use crate::defs::{DefId, HarvestKey};
use crate::IVec;
use crate::path::Goal;
use crate::rules::{keys_sorted, lookup, lemma_lookup_at, lemma_lookup_absent};
use hecs::Entity;

verus! {

/// Needs are stored as integers in `0..=NEED_MAX`.
pub const NEED_MAX: i32 = 10_000;

pub const CARRY_CAPACITY: u32 = 75;

#[derive(Clone, Copy, PartialEq, Eq, Debug, Structural)]
pub enum Faction {
    Wild,
    Player,
    Hostile,
}

/// A faction's name, as scripts and saves write it.
pub open spec fn faction_name(f: Faction) -> Seq<char> {
    match f {
        Faction::Wild => "wild"@,
        Faction::Player => "player"@,
        Faction::Hostile => "hostile"@,
    }
}

impl Faction {
    /// Its place in per-faction tables: wild, player, hostile.
    pub open spec fn index_spec(self) -> int {
        match self {
            Faction::Wild => 0,
            Faction::Player => 1,
            Faction::Hostile => 2,
        }
    }

    /// Its place in per-faction tables.
    pub fn index(self) -> (r: usize)
        ensures
            r == self.index_spec(),
    {
        match self {
            Faction::Wild => 0,
            Faction::Player => 1,
            Faction::Hostile => 2,
        }
    }

    /// The faction at a place in per-faction tables.
    pub open spec fn at_spec(i: int) -> Faction {
        if i == 0 {
            Faction::Wild
        } else if i == 1 {
            Faction::Player
        } else {
            Faction::Hostile
        }
    }

    pub fn parse(s: &str) -> (r: Option<Self>)
        ensures
            r == (if s@ == "wild"@ {
                Some(Faction::Wild)
            } else if s@ == "player"@ {
                Some(Faction::Player)
            } else if s@ == "hostile"@ {
                Some(Faction::Hostile)
            } else {
                None
            }),
    {
        if crate::text::str_eq(s, "wild") {
            Some(Faction::Wild)
        } else if crate::text::str_eq(s, "player") {
            Some(Faction::Player)
        } else if crate::text::str_eq(s, "hostile") {
            Some(Faction::Hostile)
        } else {
            None
        }
    }

    pub fn name(self) -> (r: &'static str)
        ensures
            r@ == faction_name(self),
    {
        match self {
            Faction::Wild => "wild",
            Faction::Player => "player",
            Faction::Hostile => "hostile",
        }
    }
}

impl Default for Faction {
    fn default() -> (r: Self)
        ensures
            r == Faction::Wild,
    {
        Faction::Wild
    }
}

/// Parsing a faction's name gives the faction back.
pub proof fn law_faction_name_parses_back(f: Faction)
    ensures
        (if faction_name(f) == "wild"@ {
            Some(Faction::Wild)
        } else if faction_name(f) == "player"@ {
            Some(Faction::Player)
        } else if faction_name(f) == "hostile"@ {
            Some(Faction::Hostile)
        } else {
            None
        }) == Some(f),
{
    reveal_strlit("wild");
    reveal_strlit("player");
    reveal_strlit("hostile");
    assert("wild"@.len() == 4 && "player"@.len() == 6 && "hostile"@.len() == 7);
}


/// The highest skill level.
pub const SKILL_MAX: u32 = 20;

/// Experience a skill level takes, as a number.
pub open spec fn skill_xp_spec(level: int) -> int {
    1000 * level * (level + 1)
}

/// Experience a skill level takes: 2000 for the first, each level a
/// thousand more than the last, so level 20 is about six weeks of work.
pub fn skill_xp(level: u32) -> (r: u32)
    requires
        skill_xp_spec(level as int) <= u32::MAX,
    ensures
        r == skill_xp_spec(level as int),
{
    assert(1000 * level * (level + 1) == 1000 * (level * (level + 1))) by (nonlinear_arith);
    assert(level * (level + 1) <= u32::MAX) by (nonlinear_arith)
        requires
            1000 * (level * (level + 1)) <= u32::MAX,
    ;
    assert(level + 1 <= u32::MAX) by (nonlinear_arith)
        requires
            level * (level + 1) <= u32::MAX,
    ;
    1000 * (level * (level + 1))
}

/// A plant, rock, building, blueprint or item stack.
#[derive(Clone, Copy, Debug, PartialEq, Eq, Structural)]
pub struct Thing {
    pub def: DefId,
    pub pos: IVec,
    pub count: u32,
    pub hp: i32,
}

/// Present on a fixture that is still under construction.
#[derive(Clone, Debug)]
pub struct Blueprint {
    /// What this one costs, resolved when it was placed. A fixed recipe and
    /// a material choice both land here, so nothing downstream has to know
    /// which it was.
    pub cost: Vec<(DefId, u32)>,
    pub delivered: Vec<u32>,
}

/// Progress on a thing someone has started working: chopping, mining,
/// building or taking it down. It lives on the thing, not the job, so it
/// survives the worker leaving, a second worker and a save, and a renderer
/// can draw it.
#[derive(Clone, Copy, Debug, PartialEq, Eq, Structural)]
pub struct Work {
    pub done: u32,
    /// Resolved when work starts, already scaled by the material.
    pub total: u32,
    /// The designation this work is for; None for a build. A different
    /// designation starts over rather than inheriting another job's count.
    pub designation: Option<DefId>,
    /// Which side the last unit of work came from.
    pub side: Side,
    /// Progress toward another designation, shelved when this work took
    /// its place: gathering branches from a half-felled tree doesn't undo
    /// the felling. Coming back to that work picks it up again.
    pub other: Option<Shelved>,
}

/// Work put aside for other work on the same thing.
#[derive(Clone, Copy, Debug, PartialEq, Eq, Structural)]
pub struct Shelved {
    pub designation: Option<DefId>,
    pub done: u32,
    pub total: u32,
}

impl Work {
    /// Fresh work: nothing done, at least one unit to do, last worked from
    /// the west.
    pub fn new(total: u32, designation: Option<DefId>) -> (w: Work)
        ensures
            w == (Work { done: 0, total: if total < 1 { 1 } else { total }, designation, side: Side::West, other: None }),
    {
        Work { done: 0, total: if total < 1 { 1 } else { total }, designation, side: Side::default(), other: None }
    }

    pub fn finished(&self) -> (r: bool)
        ensures
            r == (self.done >= self.total),
    {
        self.done >= self.total
    }
}

/// One of the four sides of a cell.
#[derive(Clone, Copy, Debug, PartialEq, Eq, Structural)]
pub enum Side {
    North,
    East,
    South,
    West,
}

impl Default for Side {
    fn default() -> (r: Self)
        ensures
            r == Side::West,
    {
        Side::West
    }
}

/// The side of `at` that `from` stands on.
pub open spec fn side_of(at: IVec, from: IVec) -> Side {
    let dx = from.x - at.x;
    let dy = from.y - at.y;
    if crate::abs_int(dx) >= crate::abs_int(dy) && dx != 0 {
        if dx > 0 { Side::East } else { Side::West }
    } else if dy > 0 {
        Side::South
    } else {
        Side::North
    }
}

impl Side {
    /// The side of `at` that `from` stands on. A diagonal neighbour counts
    /// as the side along its longer axis, and as east or west on a tie.
    pub fn of(at: IVec, from: IVec) -> (r: Side)
        requires
            i32::MIN < from.x - at.x <= i32::MAX,
            i32::MIN < from.y - at.y <= i32::MAX,
        ensures
            r == side_of(at, from),
    {
        let dx = from.x - at.x;
        let dy = from.y - at.y;
        let ax = if dx < 0 { -dx } else { dx };
        let ay = if dy < 0 { -dy } else { dy };
        if ax >= ay && dx != 0 {
            if dx > 0 {
                Side::East
            } else {
                Side::West
            }
        } else if dy > 0 {
            Side::South
        } else {
            Side::North
        }
    }
}

/// How long a site stays a worksite after its last unit of work, so a pawn
/// stepping aside or a raider between swings (the slowest melee cooldown is
/// 90 ticks) doesn't flicker it in and out of the cache.
pub const WORKSITE_GRACE: u64 = 120;

/// What a built thing is made of. Survives construction, so a finished
/// wall still knows it is stone.
#[derive(Clone, Copy, Debug, PartialEq, Eq, Structural)]
pub struct MadeOf(pub DefId);

/// Which faction built this fixture. Doors read it: a door opens for its
/// owner and stands in everyone else's way.
#[derive(Clone, Copy, Debug, PartialEq, Eq, Structural)]
pub struct Owner(pub Faction);

/// Player has marked this thing or creature for work.
#[derive(Clone, Copy, Debug)]
pub struct Designated(pub DefId);

/// On a natural thing (grass, a tree, rock) where the player planned a
/// building: it's marked to be cleared, and when it's gone the blueprint
/// goes up in its place.
#[derive(Clone, Copy, Debug)]
pub struct Planned {
    pub thing: DefId,
    pub stuff: Option<DefId>,
}

/// Some of one thing off the map: in a pawn's hands, or brought to a work
/// order. It keeps what it's made of and its hp, so a flint axe hauled to a
/// stockpile is set down as that flint axe, and flint and bone stacks stay
/// apart.
#[derive(Clone, Copy, Debug, PartialEq, Eq, Structural)]
pub struct Lot {
    pub def: DefId,
    pub count: u32,
    pub made_of: Option<DefId>,
    /// The hp of the stack it came from. None only in older saves: set down,
    /// it takes its def's hp.
    pub hp: Option<i32>,
}

impl Lot {
    /// Plain things: no material, the def's own hp.
    pub fn new(def: DefId, count: u32) -> (l: Lot)
        ensures
            l == (Lot { def, count, made_of: None, hp: None }),
    {
        Lot { def, count, made_of: None, hp: None }
    }
}

/// The total count of some lots.
pub open spec fn lots_total(d: Seq<Lot>) -> int
    decreases d.len(),
{
    if d.len() == 0 {
        0
    } else {
        lots_total(d.drop_last()) + d.last().count
    }
}

/// One input of a work order: a thing by def, or anything with a tag.
#[derive(Clone, Debug)]
pub struct Need {
    pub thing: Option<DefId>,
    pub tag: Option<String>,
    pub count: u32,
    /// What has arrived so far, one lot per def and material.
    pub delivered: Vec<Lot>,
}

impl Need {
    /// How much has arrived.
    pub fn have(&self) -> (r: u32)
        requires
            lots_total(self.delivered@) <= u32::MAX,
        ensures
            r == lots_total(self.delivered@),
    {
        let mut sum: u32 = 0;
        let mut k: usize = 0;
        while k < self.delivered.len()
            invariant
                k <= self.delivered@.len(),
                sum == lots_total(self.delivered@.take(k as int)),
                lots_total(self.delivered@) <= u32::MAX,
            decreases self.delivered@.len() - k,
        {
            proof {
                let d = self.delivered@;
                assert(d.take(k as int + 1).drop_last() =~= d.take(k as int));
                lemma_lots_total_prefix(d, k as int + 1);
            }
            sum = sum + self.delivered[k].count;
            k += 1;
        }
        assert(self.delivered@.take(k as int) =~= self.delivered@);
        sum
    }

    /// How much is still to come; none once enough has arrived.
    pub fn missing(&self) -> (r: u32)
        requires
            lots_total(self.delivered@) <= u32::MAX,
        ensures
            r == (if self.count >= lots_total(self.delivered@) { self.count - lots_total(self.delivered@) } else { 0 }),
    {
        let h = self.have();
        if self.count >= h { self.count - h } else { 0 }
    }
}

/// A prefix never totals more than the whole.
proof fn lemma_lots_total_prefix(d: Seq<Lot>, k: int)
    requires
        0 <= k <= d.len(),
    ensures
        lots_total(d.take(k)) <= lots_total(d),
    decreases d.len() - k,
{
    if k < d.len() {
        lemma_lots_total_prefix(d, k + 1);
        assert(d.take(k + 1).drop_last() =~= d.take(k));
    } else {
        assert(d.take(k) =~= d);
    }
}

/// Harvests growing back, each named by its key: `harvest` is ready again
/// at `ready_at`, and any others are in `also`.
#[derive(Clone, Debug)]
pub struct Regrow {
    pub ready_at: u64,
    pub harvest: HarvestKey,
    pub also: Vec<(HarvestKey, u64)>,
}

/// Keeps the entries whose kept name is given, renamed.
pub open spec fn kept(e: Seq<(HarvestKey, u64)>, outs: Seq<Option<HarvestKey>>) -> Seq<(HarvestKey, u64)>
    decreases e.len(),
{
    if e.len() == 0 || outs.len() == 0 {
        Seq::empty()
    } else {
        let rest = kept(e.drop_last(), outs.drop_last());
        match outs.last() {
            Some(h) => rest.push((h, e.last().1)),
            None => rest,
        }
    }
}

impl Regrow {
    /// Every harvest growing back, and when it's ready: the first one, then
    /// the others in order.
    pub open spec fn entries_spec(&self) -> Seq<(HarvestKey, u64)> {
        seq![(self.harvest, self.ready_at)] + self.also@
    }

    pub fn new(harvest: HarvestKey, ready_at: u64) -> (r: Regrow)
        ensures
            r.entries_spec() == seq![(harvest, ready_at)],
            r.harvest == harvest,
            r.ready_at == ready_at,
            r.also@.len() == 0,
    {
        let r = Regrow { ready_at, harvest, also: Vec::new() };
        assert(r.entries_spec() =~= seq![(harvest, ready_at)]);
        r
    }

    /// Every harvest growing back, and when it's ready.
    pub fn entries(&self) -> (r: Vec<(HarvestKey, u64)>)
        ensures
            r@ == self.entries_spec(),
    {
        let mut r: Vec<(HarvestKey, u64)> = Vec::new();
        r.push((self.harvest, self.ready_at));
        let mut k: usize = 0;
        while k < self.also.len()
            invariant
                k <= self.also@.len(),
                r@ == seq![(self.harvest, self.ready_at)] + self.also@.take(k as int),
            decreases self.also@.len() - k,
        {
            r.push(self.also[k]);
            k += 1;
            assert(r@ =~= seq![(self.harvest, self.ready_at)] + self.also@.take(k as int));
        }
        assert(self.also@.take(k as int) =~= self.also@);
        r
    }

    /// Whether this harvest is still growing back.
    pub fn growing(&self, harvest: HarvestKey) -> (r: bool)
        ensures
            r == (exists|t: int| 0 <= t < self.entries_spec().len() && (#[trigger] self.entries_spec()[t]).0 == harvest),
    {
        let e = self.entries();
        let mut k: usize = 0;
        while k < e.len()
            invariant
                e@ == self.entries_spec(),
                k <= e@.len(),
                forall|t: int| 0 <= t < k ==> (#[trigger] e@[t]).0 != harvest,
            decreases e@.len() - k,
        {
            if e[k].0 == harvest {
                assert(self.entries_spec()[k as int].0 == harvest);
                return true;
            }
            k += 1;
        }
        false
    }

    /// Keep the entries `keep` accepts, renamed as it says. False when
    /// none is left growing (and then nothing changes).
    pub fn retain<F: Fn(HarvestKey, u64) -> Option<HarvestKey>>(&mut self, keep: F) -> (r: bool)
        requires
            forall|h: HarvestKey, at: u64| keep.requires((h, at)),
        ensures
            exists|outs: Seq<Option<HarvestKey>>|
                {
                    &&& outs.len() == old(self).entries_spec().len()
                    &&& forall|t: int|
                        0 <= t < outs.len() ==> keep.ensures(
                            (old(self).entries_spec()[t].0, old(self).entries_spec()[t].1),
                            #[trigger] outs[t],
                        )
                    &&& r == (kept(old(self).entries_spec(), outs).len() > 0)
                    &&& r ==> final(self).entries_spec() == kept(old(self).entries_spec(), outs)
                    &&& !r ==> final(self).entries_spec() == old(self).entries_spec()
                },
    {
        let e = self.entries();
        let ghost mut outs: Seq<Option<HarvestKey>> = Seq::empty();
        let mut left: Vec<(HarvestKey, u64)> = Vec::new();
        let mut k: usize = 0;
        while k < e.len()
            invariant
                e@ == old(self).entries_spec(),
                *self == *old(self),
                k <= e@.len(),
                outs.len() == k,
                forall|h: HarvestKey, at: u64| keep.requires((h, at)),
                forall|t: int| 0 <= t < k ==> keep.ensures((e@[t].0, e@[t].1), #[trigger] outs[t]),
                left@ == kept(e@.take(k as int), outs),
            decreases e@.len() - k,
        {
            let (h, at) = e[k];
            let o = keep(h, at);
            proof {
                let pre = outs;
                outs = outs.push(o);
                assert(e@.take(k as int + 1).drop_last() =~= e@.take(k as int));
                assert(outs.drop_last() =~= pre);
            }
            match o {
                Some(nh) => {
                    left.push((nh, at));
                },
                None => {},
            }
            k += 1;
        }
        assert(e@.take(k as int) =~= e@);
        if left.len() == 0 {
            return false;
        }
        let first = left.remove(0);
        self.harvest = first.0;
        self.ready_at = first.1;
        self.also = left;
        proof {
            assert(self.entries_spec() =~= kept(old(self).entries_spec(), outs));
        }
        true
    }

    /// Drop the harvests ready by `tick`. False when none is left growing.
    pub fn ripen(&mut self, tick: u64) -> (r: bool)
        ensures
            r == (ripened(old(self).entries_spec(), tick).len() > 0),
            r ==> final(self).entries_spec() == ripened(old(self).entries_spec(), tick),
            !r ==> final(self).entries_spec() == old(self).entries_spec(),
    {
        let keep = |h: HarvestKey, at: u64| -> (o: Option<HarvestKey>)
            ensures
                o == (if at > tick { Some(h) } else { None }),
            {
                if at > tick { Some(h) } else { None }
            };
        let ghost e0 = self.entries_spec();
        let r = self.retain(keep);
        proof {
            let outs = choose|outs: Seq<Option<HarvestKey>>|
                {
                    &&& outs.len() == e0.len()
                    &&& forall|t: int| 0 <= t < outs.len() ==> keep.ensures((e0[t].0, e0[t].1), #[trigger] outs[t])
                    &&& r == (kept(e0, outs).len() > 0)
                    &&& r ==> self.entries_spec() == kept(e0, outs)
                    &&& !r ==> self.entries_spec() == e0
                };
            lemma_ripened_is_kept(e0, outs, tick);
        }
        r
    }
}

/// The entries still growing after `tick`.
pub open spec fn ripened(e: Seq<(HarvestKey, u64)>, tick: u64) -> Seq<(HarvestKey, u64)> {
    e.filter(|x: (HarvestKey, u64)| x.1 > tick)
}

proof fn lemma_ripened_is_kept(e: Seq<(HarvestKey, u64)>, outs: Seq<Option<HarvestKey>>, tick: u64)
    requires
        outs.len() == e.len(),
        forall|t: int| 0 <= t < outs.len() ==> #[trigger] outs[t] == (if e[t].1 > tick { Some(e[t].0) } else { None }),
    ensures
        kept(e, outs) == ripened(e, tick),
    decreases e.len(),
{
    reveal(Seq::filter);
    if e.len() > 0 {
        lemma_ripened_is_kept(e.drop_last(), outs.drop_last(), tick);
        assert(outs.last() == outs[outs.len() - 1]);
    }
}

#[derive(Clone, Copy, Debug, PartialEq, Eq, Structural)]
pub enum MsgKind {
    Info,
    Good,
    Threat,
    Bad,
}

impl MsgKind {
    /// A message kind by name; anything unknown is plain news.
    pub fn parse(s: &str) -> (r: Self)
        ensures
            r == (if s@ == "good"@ {
                MsgKind::Good
            } else if s@ == "threat"@ {
                MsgKind::Threat
            } else if s@ == "bad"@ {
                MsgKind::Bad
            } else {
                MsgKind::Info
            }),
    {
        if crate::text::str_eq(s, "good") {
            MsgKind::Good
        } else if crate::text::str_eq(s, "threat") {
            MsgKind::Threat
        } else if crate::text::str_eq(s, "bad") {
            MsgKind::Bad
        } else {
            MsgKind::Info
        }
    }
}

#[derive(Clone, Debug)]
pub struct Message {
    pub tick: u64,
    pub text: String,
    pub kind: MsgKind,
}

// ------------------------------------------------------------------ pawns

/// What a pawn is doing.
#[derive(Clone, Debug, Default)]
pub enum Job {
    #[default]
    Idle,
    Wander { to: IVec, until: u64 },
    MoveTo { to: IVec },
    Harvest {
        target: Entity,
        /// Work the thing even though nobody designated it: foraging for
        /// food, or a job the player pointed at directly.
        forced: bool,
        /// Which of the thing's harvests.
        harvest: HarvestKey,
        /// A tool to fetch first, when the harvest needs one the pawn
        /// doesn't hold.
        tool: Option<Entity>,
    },
    Deliver { bp: Entity, src: Entity, want: u32, stage: u8 },
    Construct { bp: Entity },
    /// Bring a work order's input: pick up at `src` (stage 0), carry it to
    /// the site (stage 1) and add it to need `need`.
    Supply { site: Entity, src: Entity, need: u8, want: u32, stage: u8 },
    /// Work a work order whose inputs are all in, fetching its tool first.
    Craft { site: Entity, tool: Option<Entity> },
    /// Take a built thing down and get some of it back.
    Deconstruct { target: Entity },
    Eat {
        src: Entity,
        t: u32,
        /// A chair at a table, if one was free: the thing and its spot.
        seat: Option<(Entity, IVec)>,
        /// 0: going to the food. 1: carrying it to the seat.
        stage: u8,
    },
    Sleep {
        bed: Option<Entity>,
        /// Where to lie down without a bed: somewhere warm if possible.
        spot: IVec,
        stage: u8,
    },
    /// Stand somewhere comfortable until a field need (warmth) recovers.
    Comfort { to: IVec, need: DefId, until: u64 },
    Attack { target: Entity, until: u64 },
    /// Break through a piece of wall, door or window that is in the way.
    Breach { target: Entity },
    Flee { to: IVec, until: u64 },
    /// Walk off the map edge and leave the game.
    Leave { to: IVec },
    /// Carry a stack to a stockpile cell: 0 to fetch it, 1 to bring it.
    Haul { src: Entity, to: IVec, stage: u8 },
}

/// How a job reads in the colonist bar.
pub open spec fn job_label_spec(j: Job) -> Seq<char> {
    match j {
        Job::Idle => "idle"@,
        Job::Wander { .. } => "wandering"@,
        Job::MoveTo { .. } => "moving"@,
        Job::Harvest { forced, .. } => if forced { "foraging"@ } else { "harvesting"@ },
        Job::Deliver { .. } => "hauling materials"@,
        Job::Construct { .. } => "building"@,
        Job::Supply { .. } => "fetching materials"@,
        Job::Craft { .. } => "working"@,
        Job::Deconstruct { .. } => "deconstructing"@,
        Job::Eat { .. } => "eating"@,
        Job::Sleep { stage, .. } => if stage == 1 { "sleeping"@ } else { "going to sleep"@ },
        Job::Comfort { .. } => "warming up"@,
        Job::Attack { .. } => "fighting"@,
        Job::Breach { .. } => "breaking in"@,
        Job::Flee { .. } => "fleeing"@,
        Job::Leave { .. } => "leaving"@,
        Job::Haul { .. } => "hauling"@,
    }
}

impl Job {
    pub fn label(&self) -> (r: &'static str)
        ensures
            r@ == job_label_spec(*self),
    {
        match self {
            Job::Idle => "idle",
            Job::Wander { .. } => "wandering",
            Job::MoveTo { .. } => "moving",
            Job::Harvest { forced, .. } => if *forced {
                "foraging"
            } else {
                "harvesting"
            },
            Job::Deliver { .. } => "hauling materials",
            Job::Construct { .. } => "building",
            Job::Supply { .. } => "fetching materials",
            Job::Craft { .. } => "working",
            Job::Deconstruct { .. } => "deconstructing",
            Job::Eat { .. } => "eating",
            Job::Sleep { stage, .. } => if *stage == 1 {
                "sleeping"
            } else {
                "going to sleep"
            },
            Job::Comfort { .. } => "warming up",
            Job::Attack { .. } => "fighting",
            Job::Breach { .. } => "breaking in",
            Job::Flee { .. } => "fleeing",
            Job::Leave { .. } => "leaving",
            Job::Haul { .. } => "hauling",
        }
    }
}

/// A creature. One component holds everything the AI touches each tick,
/// so the hot loop does one lookup per pawn.
#[derive(Clone, Debug, Default)]
pub struct Pawn {
    /// False for the placeholder left behind while the AI works on a pawn.
    pub active: bool,
    pub def: DefId,
    pub faction: Faction,
    pub name: String,
    pub founder: bool,
    pub pos: IVec,
    /// Cell currently being stepped into, with progress in ticks.
    pub next: Option<IVec>,
    pub progress: u32,
    pub step_ticks: u32,
    /// Remaining path as a stack (`last()` is the next step).
    pub path: Vec<IVec>,
    pub path_goal: Option<Goal>,
    pub repath_at: u64,
    pub hp: i32,
    pub needs: Vec<(DefId, i32)>,
    pub job: Job,
    pub next_think: u64,
    pub cooldown: u32,
    pub drafted: bool,
    pub carry: Option<Lot>,
    pub last_attacker: Option<Entity>,
    pub asleep: bool,
    /// Rest-recovery multiplier in percent while asleep.
    pub sleep_rate: u32,
    pub dead: bool,
    /// Walked off the map; removed at the end of the tick.
    pub left: bool,
    /// Hostiles give up and head for the map edge at this tick.
    pub leave_at: Option<u64>,
    /// Work priorities the player set, by work type: 1 first, 0 never. A
    /// work type not here is at its def's default.
    pub priorities: Vec<(DefId, u8)>,
    /// The tool it holds, off the map while it's held.
    pub hand: Option<Entity>,
    /// Experience per skill, by skill def, sorted; a level follows from it.
    pub skills: Vec<(DefId, u32)>,
    /// Work carried over between ticks, in hundredths of a unit, so a
    /// colonist at 150% does three units every two ticks.
    pub work_frac: u32,
}

/// The first value kept for key `k`, in order.
pub open spec fn first_value<T>(s: Seq<(DefId, T)>, k: DefId) -> Option<T> {
    if exists|i: int| 0 <= i < s.len() && s[i].0 == k {
        Some(s[choose|i: int| 0 <= i < s.len() && s[i].0 == k && forall|j: int| 0 <= j < i ==> s[j].0 != k].1)
    } else {
        None
    }
}

/// The skill level some experience gives: the highest level up to
/// `SKILL_MAX` whose experience it reaches, 0 below the first.
pub open spec fn level_of(xp: int) -> int
    decreases SKILL_MAX,
{
    level_below(xp, SKILL_MAX as int)
}

/// The highest level up to `top` that `xp` reaches.
pub open spec fn level_below(xp: int, top: int) -> int
    decreases top,
{
    if top <= 0 {
        0
    } else if skill_xp_spec(top) <= xp {
        top
    } else {
        level_below(xp, top - 1)
    }
}

/// The most experience a skill holds: what its highest level takes.
pub open spec fn xp_cap() -> int {
    skill_xp_spec(SKILL_MAX as int)
}

/// The index of the first entry with key `k`, if any.
fn find_first<T: Copy>(s: &[(DefId, T)], k: DefId) -> (r: Option<usize>)
    ensures
        match r {
            Some(i) => i < s@.len() && s@[i as int].0 == k && forall|j: int| 0 <= j < i ==> s@[j].0 != k,
            None => forall|j: int| 0 <= j < s@.len() ==> s@[j].0 != k,
        },
{
    let mut i: usize = 0;
    while i < s.len()
        invariant
            i <= s@.len(),
            forall|j: int| 0 <= j < i ==> s@[j].0 != k,
        decreases s@.len() - i,
    {
        if s[i].0 == k {
            return Some(i);
        }
        i += 1;
    }
    None
}

proof fn lemma_first_value<T>(s: Seq<(DefId, T)>, k: DefId, i: int)
    requires
        0 <= i < s.len(),
        s[i].0 == k,
        forall|j: int| 0 <= j < i ==> s[j].0 != k,
    ensures
        first_value(s, k) == Some(s[i].1),
{
    let c = choose|c: int| 0 <= c < s.len() && s[c].0 == k && forall|j: int| 0 <= j < c ==> s[j].0 != k;
    assert(c == i) by {
        if c < i {
        } else if c > i {
            assert(s[i].0 == k);
        }
    }
}

/// Where key `k` is in a sorted list, or where it would go.
fn search_key<T: Copy>(s: &[(DefId, T)], k: DefId) -> (r: Result<usize, usize>)
    requires
        keys_sorted(s@),
    ensures
        match r {
            Ok(i) => i < s@.len() && s@[i as int].0 == k,
            Err(i) => i <= s@.len() && (forall|j: int| 0 <= j < i ==> s@[j].0 < k) && (forall|j: int|
                i <= j < s@.len() ==> s@[j].0 > k),
        },
{
    let mut lo: usize = 0;
    let mut hi: usize = s.len();
    while lo < hi
        invariant
            lo <= hi <= s@.len(),
            keys_sorted(s@),
            forall|j: int| 0 <= j < lo ==> s@[j].0 < k,
            forall|j: int| hi <= j < s@.len() ==> s@[j].0 > k,
        decreases hi - lo,
    {
        let mid = lo + (hi - lo) / 2;
        let e = s[mid].0;
        if e == k {
            return Ok(mid);
        } else if e < k {
            lo = mid + 1;
        } else {
            hi = mid;
        }
    }
    Err(lo)
}

/// In a sorted list, the value kept for a key is the one at its place.
proof fn lemma_sorted_lookup<T>(s: Seq<(DefId, T)>, k: DefId)
    requires
        keys_sorted(s),
    ensures
        (exists|i: int| 0 <= i < s.len() && s[i].0 == k) ==> lookup(s, k) == Some(
            s[choose|i: int| 0 <= i < s.len() && s[i].0 == k].1,
        ),
        !(exists|i: int| 0 <= i < s.len() && s[i].0 == k) ==> lookup(s, k) is None,
{
    if exists|i: int| 0 <= i < s.len() && s[i].0 == k {
        let i = choose|i: int| 0 <= i < s.len() && s[i].0 == k;
        lemma_lookup_at(s, i);
    } else {
        lemma_lookup_absent(s, k);
    }
}

/// Sets the value kept for `k` in a sorted list, adding the key in its
/// place when it isn't there.
fn put_sorted<T: Copy>(s: &mut Vec<(DefId, T)>, k: DefId, v: T)
    requires
        keys_sorted(old(s)@),
    ensures
        keys_sorted(final(s)@),
        forall|x: DefId| #[trigger] lookup(final(s)@, x) == if x == k { Some(v) } else { lookup(old(s)@, x) },
{
    let ghost o = s@;
    match search_key(s.as_slice(), k) {
        Ok(i) => {
            s.set(i, (k, v));
            proof {
                let n = s@;
                assert(n == o.update(i as int, (k, v)));
                assert(keys_sorted(n)) by {
                    assert forall|a: int, b: int| 0 <= a < b < n.len() implies n[a].0 < n[b].0 by {
                        assert(o[a].0 < o[b].0);
                    }
                }
                assert forall|x: DefId| #[trigger] lookup(n, x) == if x == k { Some(v) } else { lookup(o, x) } by {
                    lemma_sorted_lookup(n, x);
                    lemma_sorted_lookup(o, x);
                    if x == k {
                        lemma_lookup_at(n, i as int);
                    } else {
                        if exists|j: int| 0 <= j < o.len() && o[j].0 == x {
                            let j = choose|j: int| 0 <= j < o.len() && o[j].0 == x;
                            assert(n[j] == o[j]);
                            lemma_lookup_at(n, j);
                            lemma_lookup_at(o, j);
                        } else {
                            assert forall|j: int| 0 <= j < n.len() implies n[j].0 != x by {
                                if j != i {
                                    assert(n[j] == o[j]);
                                }
                            }
                            lemma_lookup_absent(n, x);
                        }
                    }
                }
            }
        },
        Err(i) => {
            s.insert(i, (k, v));
            proof {
                let n = s@;
                assert(n == o.insert(i as int, (k, v)));
                assert(keys_sorted(n)) by {
                    assert forall|a: int, b: int| 0 <= a < b < n.len() implies n[a].0 < n[b].0 by {
                        if b < i {
                            assert(o[a].0 < o[b].0);
                        } else if b == i {
                        } else if a < i {
                            assert(n[b] == o[b - 1]);
                        } else if a == i {
                            assert(n[b] == o[b - 1]);
                        } else {
                            assert(o[a - 1].0 < o[b - 1].0);
                        }
                    }
                }
                assert forall|x: DefId| #[trigger] lookup(n, x) == if x == k { Some(v) } else { lookup(o, x) } by {
                    if x == k {
                        lemma_lookup_at(n, i as int);
                    } else {
                        if exists|j: int| 0 <= j < o.len() && o[j].0 == x {
                            let j = choose|j: int| 0 <= j < o.len() && o[j].0 == x;
                            lemma_lookup_at(o, j);
                            if j < i {
                                assert(n[j] == o[j]);
                                lemma_lookup_at(n, j);
                            } else {
                                assert(n[j + 1] == o[j]);
                                lemma_lookup_at(n, j + 1);
                            }
                        } else {
                            lemma_lookup_absent(o, x);
                            assert forall|j: int| 0 <= j < n.len() implies n[j].0 != x by {
                                if j < i {
                                    assert(n[j] == o[j]);
                                } else if j > i {
                                    assert(n[j] == o[j - 1]);
                                }
                            }
                            lemma_lookup_absent(n, x);
                        }
                    }
                }
            }
        },
    }
}

impl Pawn {
    pub fn moving(&self) -> (r: bool)
        ensures
            r == (self.next is Some || self.path@.len() > 0),
    {
        self.next.is_some() || self.path.len() > 0
    }

    /// A need's value, if the pawn has the need.
    pub fn need(&self, need: DefId) -> (r: Option<i32>)
        ensures
            r == first_value(self.needs@, need),
    {
        match find_first(self.needs.as_slice(), need) {
            Some(i) => {
                proof {
                    lemma_first_value(self.needs@, need, i as int);
                }
                Some(self.needs[i].1)
            },
            None => None,
        }
    }

    /// This pawn's priority for a work type: 1 first, 0 never. A work type
    /// it has no priority set for is at the work type's default
    /// (`default`); a level saved above a scale of `levels` a mod has since
    /// shrunk counts as the last level.
    pub fn priority(&self, default: u8, levels: u8, work: DefId) -> (r: u8)
        ensures
            r == crate::min_int(
                match first_value(self.priorities@, work) {
                    Some(l) => l as int,
                    None => default as int,
                },
                levels as int,
            ),
    {
        let set = match find_first(self.priorities.as_slice(), work) {
            Some(i) => {
                proof {
                    lemma_first_value(self.priorities@, work, i as int);
                }
                self.priorities[i].1
            },
            None => default,
        };
        if set < levels {
            set
        } else {
            levels
        }
    }

    /// A skill's level, 0 to `SKILL_MAX`.
    pub fn skill(&self, skill: DefId) -> (r: u32)
        ensures
            r == level_of(
                match first_value(self.skills@, skill) {
                    Some(x) => x as int,
                    None => 0,
                },
            ),
    {
        let xp = match find_first(self.skills.as_slice(), skill) {
            Some(i) => {
                proof {
                    lemma_first_value(self.skills@, skill, i as int);
                }
                self.skills[i].1
            },
            None => 0,
        };
        let mut top: u32 = SKILL_MAX;
        proof {
            assert forall|l: int| 0 <= l <= 20 implies #[trigger] skill_xp_spec(l) <= 420000 by {
                assert(1000 * l * (l + 1) <= 420000) by (nonlinear_arith)
                    requires
                        0 <= l <= 20,
                ;
            }
        }
        while top > 0 && skill_xp(top) > xp
            invariant
                top <= SKILL_MAX,
                forall|l: int| 0 <= l <= 20 ==> #[trigger] skill_xp_spec(l) <= 420000,
                level_of(xp as int) == level_below(xp as int, top as int),
            decreases top,
        {
            top -= 1;
        }
        top
    }

    /// Learn by doing: `xp` more experience at a skill, up to what its
    /// highest level takes.
    pub fn learn(&mut self, skill: DefId, xp: u32)
        requires
            keys_sorted(old(self).skills@),
        ensures
            keys_sorted(final(self).skills@),
            forall|x: DefId| #[trigger] lookup(final(self).skills@, x) == if x == skill {
                Some(
                    crate::min_int(
                        match lookup(old(self).skills@, skill) {
                            Some(o) => o + xp,
                            None => xp as int,
                        },
                        xp_cap(),
                    ) as u32,
                )
            } else {
                lookup(old(self).skills@, x)
            },
            final(self).priorities == old(self).priorities,
            final(self).needs == old(self).needs,
            final(self).work_frac == old(self).work_frac,
    {
        let cap = skill_xp(SKILL_MAX);
        let v = match search_key(self.skills.as_slice(), skill) {
            Ok(i) => {
                proof {
                    lemma_lookup_at(self.skills@, i as int);
                }
                let o = self.skills[i].1;
                let sum = o.saturating_add(xp);
                if sum < cap {
                    sum
                } else {
                    cap
                }
            },
            Err(i) => {
                proof {
                    lemma_lookup_absent(self.skills@, skill);
                }
                if xp < cap {
                    xp
                } else {
                    cap
                }
            },
        };
        put_sorted(&mut self.skills, skill, v);
    }

    /// This tick's units of work at a skill, and the experience for it:
    /// 60% of normal speed untrained, normal at level 4, up to 260% at 20.
    pub fn work_amount(&mut self, skill: Option<DefId>) -> (r: u32)
        requires
            old(self).work_frac <= u32::MAX - 260,
            keys_sorted(old(self).skills@),
        ensures
            keys_sorted(final(self).skills@),
            match skill {
                None => r == 1 && *final(self) == *old(self),
                Some(s) => {
                    let pct = old(self).work_frac + 60 + 10 * level_of(
                        match lookup(old(self).skills@, s) {
                            Some(x) => x as int,
                            None => 0,
                        },
                    );
                    &&& r == pct / 100
                    &&& final(self).work_frac == pct % 100
                    &&& forall|x: DefId| #[trigger] lookup(final(self).skills@, x) == if x == s {
                        Some(
                            crate::min_int(
                                match lookup(old(self).skills@, s) {
                                    Some(o) => o + 1,
                                    None => 1int,
                                },
                                xp_cap(),
                            ) as u32,
                        )
                    } else {
                        lookup(old(self).skills@, x)
                    }
                },
            },
    {
        let s = match skill {
            None => return 1,
            Some(s) => s,
        };
        let lv = self.skill(s);
        proof {
            lemma_sorted_first(self.skills@, s);
            assert(level_below(0, 20) == 0) by {
                reveal_with_fuel(level_below, 21);
            }
            lemma_level_at_most(
                match lookup(self.skills@, s) {
                    Some(x) => x as int,
                    None => 0,
                },
                20,
            );
        }
        let pct = self.work_frac + 60 + 10 * lv;
        self.work_frac = pct % 100;
        self.learn(s, 1);
        pct / 100
    }

    /// Set a priority, keeping the list in work-type order so the state
    /// doesn't depend on the order changes were made in.
    pub fn set_priority(&mut self, work: DefId, level: u8)
        requires
            keys_sorted(old(self).priorities@),
        ensures
            keys_sorted(final(self).priorities@),
            forall|x: DefId| #[trigger] lookup(final(self).priorities@, x) == if x == work {
                Some(level)
            } else {
                lookup(old(self).priorities@, x)
            },
            *final(self) == (Pawn { priorities: final(self).priorities, ..*old(self) }),
    {
        put_sorted(&mut self.priorities, work, level);
    }

    /// A pawn the player commands: alive, active, and of the colony.
    pub open spec fn colonist(&self) -> bool {
        self.active && !self.dead && self.faction == Faction::Player
    }

    /// The player sets how much a colonist wants a kind of work. A pawn that
    /// isn't a colonist, or a work type past the `work_types` there are, is
    /// left as it was; a level above the scale's top `levels` is taken as the
    /// top. Says whether the setting was made.
    pub fn player_sets_priority(&mut self, work: DefId, level: u8, work_types: usize, levels: u8) -> (r: bool)
        requires
            keys_sorted(old(self).priorities@),
        ensures
            r == (old(self).colonist() && (work as int) < work_types),
            keys_sorted(final(self).priorities@),
            !r ==> *final(self) == *old(self),
            r ==> *final(self) == (Pawn { priorities: final(self).priorities, ..*old(self) }),
            r ==> forall|x: DefId| #[trigger] lookup(final(self).priorities@, x) == if x == work {
                Some(crate::min_int(level as int, levels as int) as u8)
            } else {
                lookup(old(self).priorities@, x)
            },
    {
        if !(self.active && !self.dead && self.faction == Faction::Player) || work as usize >= work_types {
            return false;
        }
        let level = if level < levels { level } else { levels };
        self.set_priority(work, level);
        true
    }
}

/// In a sorted list, the first value for a key is the one `lookup` keeps.
proof fn lemma_sorted_first<T>(s: Seq<(DefId, T)>, k: DefId)
    requires
        keys_sorted(s),
    ensures
        first_value(s, k) == lookup(s, k),
{
    if exists|i: int| 0 <= i < s.len() && s[i].0 == k {
        let i = choose|i: int| 0 <= i < s.len() && s[i].0 == k;
        assert forall|j: int| 0 <= j < i implies s[j].0 != k by {
            assert(s[j].0 < s[i].0);
        }
        lemma_first_value(s, k, i);
        lemma_lookup_at(s, i);
    } else {
        lemma_lookup_absent(s, k);
    }
}

/// No level is above the top one asked about.
pub(crate) proof fn lemma_level_at_most(xp: int, top: int)
    requires
        top >= 0,
    ensures
        0 <= level_below(xp, top) <= top,
    decreases top,
{
    if top > 0 {
        lemma_level_at_most(xp, top - 1);
    }
}

// -------------------------------------------------------------- work orders

/// A work order a script posted at a site: inputs to bring, then work to
/// do. One at a time per site.
#[derive(Clone, Debug)]
pub struct Order {
    /// The mod that posted it.
    pub owner: String,
    /// What it makes, for the player ("hand axe").
    pub label: String,
    pub needs: Vec<Need>,
    /// Work ticks at bare hands' pace.
    pub work: u32,
    /// Tool tags the worker must hold.
    pub requires: Vec<String>,
    /// Who does it: the work type it's posted under.
    pub work_type: DefId,
    /// Progress; `total` is set when work starts, scaled by the worker's
    /// tool.
    pub done: u32,
    pub total: u32,
}

/// How much of need `n` is still to come.
pub open spec fn need_missing(n: Need) -> int {
    if n.count >= lots_total(n.delivered@) {
        n.count - lots_total(n.delivered@)
    } else {
        0
    }
}

/// The first need still short stands at `i`.
pub open spec fn first_short(needs: Seq<Need>, i: int) -> bool {
    0 <= i < needs.len() && need_missing(needs[i]) > 0 && forall|j: int| 0 <= j < i ==> need_missing(needs[j]) == 0
}

impl Order {
    /// The first need still short, and by how much.
    pub fn missing(&self) -> (r: Option<(usize, u32)>)
        requires
            forall|k: int| 0 <= k < self.needs@.len() ==> lots_total((#[trigger] self.needs@[k]).delivered@) <= u32::MAX,
        ensures
            match r {
                Some((i, m)) => first_short(self.needs@, i as int) && m == need_missing(self.needs@[i as int]),
                None => forall|k: int| 0 <= k < self.needs@.len() ==> need_missing(#[trigger] self.needs@[k]) == 0,
            },
    {
        let mut i: usize = 0;
        while i < self.needs.len()
            invariant
                i <= self.needs@.len(),
                forall|k: int| 0 <= k < self.needs@.len() ==> lots_total((#[trigger] self.needs@[k]).delivered@) <= u32::MAX,
                forall|j: int| 0 <= j < i ==> need_missing(#[trigger] self.needs@[j]) == 0,
            decreases self.needs@.len() - i,
        {
            let m = self.needs[i].missing();
            if m > 0 {
                return Some((i, m));
            }
            i += 1;
        }
        None
    }
}

/// On a tool a pawn holds: it is off the map until put down.
#[derive(Clone, Copy, Debug)]
pub struct Held {
    pub by: Entity,
}

} // verus!
