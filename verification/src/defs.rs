//! Typed definitions: the ids defs are known by, and the small rules of
//! reading their text.
use vstd::prelude::*;

verus! {

pub type DefId = u16;

/// Which of a thing's harvests: none for its first, else the designation
/// that reaps it.
pub type HarvestKey = Option<DefId>;


/// Default move cost, in percent.
pub fn d100() -> (r: u32)
    ensures
        r == 100,
{
    100
}

/// Default count: one.
pub fn d1() -> (r: u32)
    ensures
        r == 1,
{
    1
}

/// Default switch: on.
pub fn dtrue() -> (r: bool)
    ensures
        r,
{
    true
}

/// Default footprint: one cell by one.
pub fn one_cell() -> (r: [u32; 2])
    ensures
        r@ == seq![1u32, 1u32],
{
    [1, 1]
}

/// Default time a spoken line stays up, in ticks.
pub fn d_say_ticks() -> (r: u32)
    ensures
        r == 600,
{
    600
}

/// Default hours a field takes to settle.
pub fn d6() -> (r: u32)
    ensures
        r == 6,
{
    6
}

/// Default days in a year.
pub fn d60() -> (r: u32)
    ensures
        r == 60,
{
    60
}

/// Default night tint.
pub fn dnight() -> (r: String)
    ensures
        r@ == "#4a5478"@,
{
    String::from_str("#4a5478")
}

/// Default fire tint.
pub fn dfire() -> (r: String)
    ensures
        r@ == "#ffb060"@,
{
    String::from_str("#ffb060")
}

/// Default priority a work type starts at.
pub fn d3() -> (r: u8)
    ensures
        r == 3,
{
    3
}

/// Default number of priority levels.
pub fn d4() -> (r: u8)
    ensures
        r == 4,
{
    4
}

/// Some number of a thing, by its id.
#[derive(Clone, Debug)]
pub struct ItemCount {
    pub thing: String,
    pub count: u32,
}

#[derive(Clone, Copy, Debug, PartialEq, Eq, Structural)]
pub enum Category {
    Plant,
    Rock,
    Building,
    Item,
    /// Built ground: lives under fixtures and items, and its `path_cost`
    /// replaces the terrain's while it is there.
    Floor,
}

/// The largest side a thing may have, in cells.
pub const MAX_SIZE: u32 = 8;

/// How much material a buildable takes, and what kind will do.
#[derive(Clone, Debug)]
pub struct StuffCost {
    /// Matched against an item's `stuff.categories`.
    pub category: String,
    pub count: u32,
}

/// A cell a pawn stands or sits in to use a thing, relative to it.
#[derive(Clone, Debug)]
pub struct SpotDef {
    pub dx: i32,
    pub dy: i32,
    /// Only a spot when a thing carrying this tag stands next to it: a
    /// chair is a seat at a table and a stool in a field otherwise.
    pub beside: String,
}

impl Default for SpotDef {
    fn default() -> (r: Self)
        ensures
            r.dx == 0,
            r.dy == 0,
            r.beside@ == Seq::<char>::empty(),
    {
        SpotDef { dx: 0, dy: 0, beside: String::new() }
    }
}

#[derive(Clone, Debug)]
pub struct CreatureSpawn {
    pub terrain: Vec<String>,
    pub groups: u32,
    pub group: [u32; 2],
    pub terrain_r: Vec<DefId>,
}

#[derive(Clone, Copy, Debug, PartialEq, Eq, Structural)]
pub enum Satisfier {
    Food,
    Rest,
    /// Driven by a field layer: drains outside `comfort`, recovers inside it.
    Field,
}

/// Where a field's per-cell value comes from.
#[derive(Clone, Copy, Debug, PartialEq, Eq, Structural)]
pub enum FieldKind {
    /// Its outdoor value, emitters' stamps and rooms.
    Ambient,
    /// How exposed a cell is to the wind, in percent: 100 in the open, less
    /// in the lee of what blocks the wind, 0 in an enclosed room. The
    /// direction comes from the field named in `from`.
    Shelter,
    /// Worked out on read from other fields, by its `value` terms: nothing
    /// is stored. A `field` input reads the other field at the same cell,
    /// so it's the room's value indoors and the lee's in the lee.
    Derived,
}

impl Default for FieldKind {
    fn default() -> (r: Self)
        ensures
            r == FieldKind::Ambient,
    {
        FieldKind::Ambient
    }
}

/// What a field is inside an enclosed room.
#[derive(Clone, Copy, Debug, PartialEq, Eq, Structural)]
pub enum IndoorMode {
    /// Same as outdoors (noise, danger).
    Outdoor,
    /// Zero: only emitters count (light indoors comes from lamps).
    NoValue,
    /// Each room holds its own value, leaking toward outdoors (temperature).
    Room,
}

impl Default for IndoorMode {
    fn default() -> (r: Self)
        ensures
            r == IndoorMode::Outdoor,
    {
        IndoorMode::Outdoor
    }
}

/// The year: how long it is, what its seasons are called, and where the
/// game starts in it. The core data defines one; a plugin patches it.
#[derive(Clone, Debug)]
pub struct CalendarDef {
    pub id: String,
    pub year_days: u32,
    /// Equal parts of the year, in order.
    pub seasons: Vec<String>,
    /// Day of the year (0-based) that the game starts on.
    pub start_day: u32,
}

impl CalendarDef {
    /// Settles the calendar as the defs load: a year of at least one day,
    /// at least one season (a single "year" when none is named), and a
    /// start day within the year.
    pub fn settle(&mut self)
        ensures
            final(self).id == old(self).id,
            final(self).year_days == crate::max_int(old(self).year_days as int, 1),
            old(self).seasons@.len() > 0 ==> final(self).seasons@ == old(self).seasons@,
            old(self).seasons@.len() == 0 ==> final(self).seasons@.len() == 1 && final(self).seasons@[0]@ == "year"@,
            final(self).start_day == old(self).start_day % final(self).year_days,
    {
        if self.year_days < 1 {
            self.year_days = 1;
        }
        if self.seasons.len() == 0 {
            self.seasons.push(String::from_str("year"));
        }
        self.start_day = self.start_day % self.year_days;
    }
}

impl Default for CalendarDef {
    fn default() -> (r: Self)
        ensures
            r.id@ == "default"@,
            r.year_days == 60,
            r.seasons@.len() == 1,
            r.seasons@[0]@ == "year"@,
            r.start_day == 0,
    {
        let mut seasons: Vec<String> = Vec::new();
        seasons.push(String::from_str("year"));
        CalendarDef { id: String::from_str("default"), year_days: 60, seasons, start_day: 0 }
    }
}

#[derive(Clone, Copy, Debug, PartialEq, Eq, Structural)]
pub enum Targets {
    /// Things with a harvest def that names this designation.
    Thing,
    /// Wild creatures that can be butchered.
    Creature,
    /// Things the colony built: walls, doors, furniture.
    Built,
}

impl Default for Targets {
    fn default() -> (r: Self)
        ensures
            r == Targets::Thing,
    {
        Targets::Thing
    }
}

#[derive(Clone, Debug)]
pub struct DesignationDef {
    pub id: String,
    pub label: String,
    pub color: String,
    pub targets: Targets,
    /// The work type whose priority decides who does it.
    pub work_type: String,
    /// The work style its work looks like. Unset, it shows no wear.
    pub style: Option<String>,
    pub rgb: [u8; 3],
    pub work_r: DefId,
    pub style_r: Option<DefId>,
}

/// How work on a cell looks: what each blow does, how the thing wears as
/// the work goes on, and how it leaves.
#[derive(Clone, Debug)]
pub struct WorkStyleDef {
    pub id: String,
    /// Work between two strikes.
    pub every: u32,
    pub strike: Vec<Strike>,
    pub wear: Wear,
    pub exit: Exit,
    /// The style every build uses. At most one style may say so.
    pub builds: bool,
}

#[derive(Clone, Copy, Debug, PartialEq, Eq, Structural)]
pub enum Strike {
    /// The thing jolts away from the blow.
    Shake,
    /// Bits of what it yields, or is made of, fly toward the worker.
    Chips,
    Dust,
    /// Bits of the thing's own colour drop from it: leaves, needles.
    Shed,
}

#[derive(Clone, Copy, Debug, PartialEq, Eq, Structural)]
pub enum Wear {
    NoWear,
    /// Layers appear in their `grow` windows; taken down, they go in reverse.
    Grow,
    /// Cracks spread from the worked side.
    Cracks,
    /// It leans away from the worker.
    Lean,
}

impl Default for Wear {
    fn default() -> (r: Self)
        ensures
            r == Wear::NoWear,
    {
        Wear::NoWear
    }
}

#[derive(Clone, Copy, Debug, PartialEq, Eq, Structural)]
pub enum Exit {
    NoExit,
    /// Falls away from the worker, or to an open side.
    Fall,
    Crumble,
    /// Its yield pops out.
    Pop,
}

impl Default for Exit {
    fn default() -> (r: Self)
        ensures
            r == Exit::NoExit,
    {
        Exit::NoExit
    }
}

/// A column of the priority grid: a kind of work a colonist can be told to
/// do more or less of.
#[derive(Clone, Debug)]
pub struct WorkTypeDef {
    pub id: String,
    pub label: String,
    /// A short glyph or sprite key for the column header.
    pub icon: String,
    /// The skill this work trains and is done faster with; empty for none.
    pub skill: String,
    pub skill_r: Option<DefId>,
    /// The level a colonist starts at: 1 is first, `levels` last, 0 never.
    pub priority: u8,
    /// Breaks a tie between work types at the same level and the same
    /// distance: lower first.
    pub order: i32,
    /// Engine jobs this work type covers: "build" is raising blueprints and
    /// bringing them materials.
    pub jobs: Vec<String>,
}

/// Something a colonist gets better at by doing it: work of the work types
/// that name it goes faster, and the skill that says `melee` hits harder.
#[derive(Clone, Debug)]
pub struct SkillDef {
    pub id: String,
    pub label: String,
    /// This is the skill fighting hand to hand trains and uses.
    pub melee: bool,
}

/// How many priority levels there are. The core data says 4; a mod patches
/// it to 9.
#[derive(Clone, Debug)]
pub struct PriorityScaleDef {
    pub id: String,
    pub levels: u8,
}

impl Default for PriorityScaleDef {
    fn default() -> (r: Self)
        ensures
            r.id@ == "default"@,
            r.levels == 4,
    {
        PriorityScaleDef { id: String::from_str("default"), levels: 4 }
    }
}

/// A named set of priority rules the colony switches with one click.
#[derive(Clone, Debug)]
pub struct StanceDef {
    pub id: String,
    pub label: String,
    pub icon: String,
    /// Where it sits in the stance bar: lower first. The first is the
    /// colony's stance in a new game.
    pub order: i32,
}

#[derive(Clone, Debug)]
pub struct StartDef {
    pub id: String,
    pub creature: String,
    pub count: u32,
    pub title: String,
    pub founder_damage_bonus: i32,
    pub items: Vec<ItemCount>,
    pub creature_r: DefId,
}

#[derive(Clone, Debug)]
pub struct NamesDef {
    pub id: String,
    pub names: Vec<String>,
}

/// The mod a qualified id belongs to: what comes before its first `:`, or
/// nothing for a bare id.
pub open spec fn home_of_spec(id: Seq<char>) -> Seq<char> {
    if exists|k: int| 0 <= k < id.len() && id[k] == ':' {
        id.take(first_colon(id))
    } else {
        Seq::empty()
    }
}

/// Where the first `:` stands.
pub open spec fn first_colon(id: Seq<char>) -> int {
    choose|k: int| 0 <= k < id.len() && id[k] == ':' && forall|j: int| 0 <= j < k ==> id[j] != ':'
}

/// The mod a qualified id belongs to: "core" for "core:wall".
pub fn home_of(id: &str) -> (r: String)
    ensures
        r@ == home_of_spec(id@),
{
    let cs = crate::text::chars_of(id);
    let mut k: usize = 0;
    while k < cs.len()
        invariant
            cs@ == id@,
            k <= cs@.len(),
            forall|j: int| 0 <= j < k ==> cs@[j] != ':',
        decreases cs@.len() - k,
    {
        if cs[k] == ':' {
            let head = crate::text::string_of_range(cs.as_slice(), 0, k);
            proof {
                let w = choose|kk: int| 0 <= kk < id@.len() && id@[kk] == ':' && forall|j: int| 0 <= j < kk ==> id@[j] != ':';
                assert(id@[k as int] == ':');
                assert(cs@.subrange(0, k as int) =~= id@.take(k as int));
                assert(w == k as int) by {
                    if w < k {
                        assert(cs@[w] != ':');
                    } else if w > k {
                        assert(id@[k as int] != ':');
                    }
                }
            }
            return head;
        }
        k += 1;
    }
    String::new()
}

/// Value of a hex digit.
pub open spec fn hex_val(c: char) -> int {
    if '0' <= c <= '9' {
        c as int - '0' as int
    } else if 'a' <= c <= 'f' {
        c as int - 'a' as int + 10
    } else {
        c as int - 'A' as int + 10
    }
}

/// A hex digit, either case.
pub open spec fn is_hex(c: char) -> bool {
    ('0' <= c <= '9') || ('a' <= c <= 'f') || ('A' <= c <= 'F')
}

/// The text after any leading `#`s.
pub open spec fn strip_hashes(s: Seq<char>) -> Seq<char>
    decreases s.len(),
{
    if s.len() > 0 && s[0] == '#' {
        strip_hashes(s.drop_first())
    } else {
        s
    }
}

/// A colour as `#rrggbb` (any number of `#`s in front), or else nothing.
pub open spec fn color_spec(s: Seq<char>) -> Option<Seq<u8>> {
    let h = strip_hashes(s);
    if h.len() == 6 && forall|k: int| 0 <= k < 6 ==> #[trigger] is_hex(h[k]) {
        Some(seq![
            (16 * hex_val(h[0]) + hex_val(h[1])) as u8,
            (16 * hex_val(h[2]) + hex_val(h[3])) as u8,
            (16 * hex_val(h[4]) + hex_val(h[5])) as u8,
        ])
    } else {
        None
    }
}

fn hex_digit(c: char) -> (r: Option<u8>)
    ensures
        r == (if is_hex(c) { Some(hex_val(c) as u8) } else { None }),
{
    if '0' <= c && c <= '9' {
        Some((c as u32 - '0' as u32) as u8)
    } else if 'a' <= c && c <= 'f' {
        Some((c as u32 - 'a' as u32 + 10) as u8)
    } else if 'A' <= c && c <= 'F' {
        Some((c as u32 - 'A' as u32 + 10) as u8)
    } else {
        None
    }
}

/// Reads a colour written `#rrggbb`; the error names the text.
pub fn parse_color(s: &str) -> (r: Result<[u8; 3], String>)
    ensures
        match r {
            Ok(c) => color_spec(s@) == Some(c@),
            Err(e) => color_spec(s@) is None && e@ == "bad color '"@ + s@ + "' (want #rrggbb)"@,
        },
{
    let cs = crate::text::chars_of(s);
    let mut start: usize = 0;
    assert(cs@.skip(0) =~= cs@);
    while start < cs.len() && cs[start] == '#'
        invariant
            cs@ == s@,
            start <= cs@.len(),
            strip_hashes(cs@.skip(start as int)) == strip_hashes(s@),
        decreases cs@.len() - start,
    {
        assert(cs@.skip(start as int).drop_first() =~= cs@.skip(start as int + 1));
        start += 1;
    }
    let ghost h = cs@.skip(start as int);
    assert(strip_hashes(h) == h);
    let bad = {
        let mut e = String::from_str("bad color '");
        e.append(s);
        e.append("' (want #rrggbb)");
        e
    };
    if cs.len() - start != 6 {
        return Err(bad);
    }
    let mut vals: Vec<u8> = vec![0u8, 0u8, 0u8, 0u8, 0u8, 0u8];
    let mut k: usize = 0;
    while k < 6
        invariant
            cs@ == s@,
            h == cs@.skip(start as int),
            strip_hashes(s@) == h,
            h.len() == 6,
            start + 6 == cs@.len(),
            start + 6 <= usize::MAX,
            k <= 6,
            vals@.len() == 6,
            forall|j: int| 0 <= j < k ==> is_hex(#[trigger] h[j]) && vals@[j] == hex_val(h[j]),
            bad@ == "bad color '"@ + s@ + "' (want #rrggbb)"@,
        decreases 6 - k,
    {
        match hex_digit(cs[start + k]) {
            Some(v) => {
                vals.set(k, v);
            },
            None => {
                assert(!is_hex(h[k as int]));
                return Err(bad);
            },
        }
        k += 1;
    }
    let c = [vals[0] * 16 + vals[1], vals[2] * 16 + vals[3], vals[4] * 16 + vals[5]];
    assert(c@ =~= seq![
        (16 * hex_val(h[0]) + hex_val(h[1])) as u8,
        (16 * hex_val(h[2]) + hex_val(h[3])) as u8,
        (16 * hex_val(h[4]) + hex_val(h[5])) as u8,
    ]);
    Ok(c)
}

// ---------------------------------------------------------------- references

/// Every def of every kind: its kind, its qualified id and its number,
/// kind by kind in def order.
pub type DefIndex = Vec<(String, String, DefId)>;

/// An index as text.
pub open spec fn index_view(index: Seq<(String, String, DefId)>) -> Seq<(Seq<char>, Seq<char>, DefId)> {
    index.map_values(|e: (String, String, DefId)| (e.0@, e.1@, e.2))
}

/// The text holds a `:`.
pub open spec fn has_colon(id: Seq<char>) -> bool {
    exists|k: int| 0 <= k < id.len() && id[k] == ':'
}

/// An id without its mod: what follows the first `:`, or all of it.
pub open spec fn bare_of(id: Seq<char>) -> Seq<char> {
    if has_colon(id) {
        id.skip(first_colon(id) + 1)
    } else {
        id
    }
}

/// How a reference written in mod `home` reads in full: a qualified id as
/// it is, a bare one as `home`'s own.
pub open spec fn full_ref(id: Seq<char>, home: Seq<char>) -> Seq<char> {
    if has_colon(id) {
        id
    } else {
        home + seq![':'] + id
    }
}

/// Where the entry for (`kind`, `full`) is: the first one.
pub open spec fn entry_at(ix: Seq<(Seq<char>, Seq<char>, DefId)>, kind: Seq<char>, full: Seq<char>, k: int) -> bool {
    &&& 0 <= k < ix.len()
    &&& ix[k].0 == kind && ix[k].1 == full
    &&& forall|j: int| 0 <= j < k ==> !(ix[j].0 == kind && ix[j].1 == full)
}

/// The qualified ids, in index order, of the defs of `kind` whose bare id
/// is `id`: the defs another mod has under that name.
pub open spec fn elsewhere(ix: Seq<(Seq<char>, Seq<char>, DefId)>, kind: Seq<char>, id: Seq<char>) -> Seq<Seq<char>>
    decreases ix.len(),
{
    if ix.len() == 0 {
        Seq::empty()
    } else {
        let before = elsewhere(ix.drop_last(), kind, id);
        if ix.last().0 == kind && bare_of(ix.last().1) == id {
            before.push(ix.last().1)
        } else {
            before
        }
    }
}

/// What resolving a reference gives: the def, or the error, which suggests
/// the prefix when another mod has that id.
pub open spec fn resolve_spec(ix: Seq<(Seq<char>, Seq<char>, DefId)>, kind: Seq<char>, id: Seq<char>, home: Seq<char>) -> Result<DefId, Seq<char>> {
    let full = full_ref(id, home);
    if exists|k: int| entry_at(ix, kind, full, k) {
        Ok(ix[choose|k: int| entry_at(ix, kind, full, k)].2)
    } else {
        let others = if has_colon(id) { Seq::empty() } else { elsewhere(ix, kind, id) };
        let head = "unknown "@ + kind + " '"@ + full + "'"@;
        Err(
            if others.len() == 0 {
                head
            } else if others.len() == 1 {
                head + ": another mod's def needs its prefix, \""@ + others[0] + "\""@
            } else {
                head + ": another mod's def needs its prefix, one of "@ + crate::modloader::join(others, ", "@)
            },
        )
    }
}

/// Where the first `:` of some characters stands, if anywhere.
pub(crate) fn colon_at(cs: &Vec<char>) -> (r: Option<usize>)
    ensures
        match r {
            Some(k) => has_colon(cs@) && k == first_colon(cs@) && k < cs@.len(),
            None => !has_colon(cs@),
        },
{
    let mut k: usize = 0;
    while k < cs.len()
        invariant
            k <= cs@.len(),
            forall|j: int| 0 <= j < k ==> cs@[j] != ':',
        decreases cs@.len() - k,
    {
        if cs[k] == ':' {
            proof {
                assert(has_colon(cs@));
                let q = first_colon(cs@);
                assert(q == k as int) by {
                    if q < k {
                        assert(cs@[q] != ':');
                    } else if q > k {
                        assert(cs@[k as int] == ':');
                    }
                }
            }
            return Some(k);
        }
        k += 1;
    }
    None
}

/// An id's bare part.
pub(crate) fn bare_chars(id: &str) -> (r: Vec<char>)
    ensures
        r@ == bare_of(id@),
{
    let cs = crate::text::chars_of(id);
    match colon_at(&cs) {
        Some(k) => {
            let n = cs.len();
            let mut out: Vec<char> = Vec::new();
            let mut t = k + 1;
            while t < n
                invariant
                    n == cs@.len(),
                    k < t <= cs@.len(),
                    out@ == cs@.subrange(k + 1, t as int),
                decreases cs@.len() - t,
            {
                out.push(cs[t]);
                assert(cs@.subrange(k + 1, t + 1) =~= cs@.subrange(k + 1, t as int).push(cs@[t as int]));
                t += 1;
            }
            assert(out@ =~= cs@.skip(k + 1));
            out
        },
        None => cs,
    }
}

/// Resolve a def reference written in mod `home`: a qualified id is taken
/// as is, a bare one means `home`'s own def. The error suggests the prefix
/// when another mod has that id.
pub fn resolve_in(index: &[(String, String, DefId)], kind: &str, id: &str, home: &str) -> (r: Result<DefId, String>)
    ensures
        match (r, resolve_spec(index_view(index@), kind@, id@, home@)) {
            (Ok(d), Ok(sd)) => d == sd,
            (Err(e), Err(se)) => e@ == se,
            _ => false,
        },
{
    let ghost ix = index_view(index@);
    let idc = crate::text::chars_of(id);
    let qualified = colon_at(&idc).is_some();
    let mut full = String::new();
    if qualified {
        full.append(id);
    } else {
        full.append(home);
        crate::text::push_char(&mut full, ':');
        full.append(id);
    }
    assert(full@ == full_ref(id@, home@));
    let mut k: usize = 0;
    while k < index.len()
        invariant
            ix == index_view(index@),
            k <= index@.len(),
            full@ == full_ref(id@, home@),
            forall|j: int| 0 <= j < k ==> !(ix[j].0 == kind@ && ix[j].1 == full@),
        decreases index@.len() - k,
    {
        if crate::text::str_eq(index[k].0.as_str(), kind) && crate::text::str_eq(index[k].1.as_str(), full.as_str()) {
            proof {
                assert(entry_at(ix, kind@, full@, k as int));
                let q = choose|q: int| entry_at(ix, kind@, full@, q);
                assert(q == k as int) by {
                    if q < k {
                    } else if q > k {
                        assert(ix[k as int].0 == kind@ && ix[k as int].1 == full@);
                    }
                }
            }
            return Ok(index[k].2);
        }
        k += 1;
    }
    proof {
        assert forall|q: int| !entry_at(ix, kind@, full@, q) by {
            if entry_at(ix, kind@, full@, q) {
                assert(!(ix[q].0 == kind@ && ix[q].1 == full@));
            }
        }
    }
    // The defs another mod has under this name.
    let mut others: Vec<&str> = Vec::new();
    if !qualified {
        let mut t: usize = 0;
        proof {
            assert(ix.take(0) =~= Seq::<(Seq<char>, Seq<char>, DefId)>::empty());
        }
        while t < index.len()
            invariant
                ix == index_view(index@),
                t <= index@.len(),
                others@.map_values(|s: &str| s@) == elsewhere(ix.take(t as int), kind@, id@),
            decreases index@.len() - t,
        {
            let ghost before = others@.map_values(|s: &str| s@);
            proof {
                assert(ix.take(t + 1).drop_last() =~= ix.take(t as int));
            }
            if crate::text::str_eq(index[t].0.as_str(), kind) {
                let b = bare_chars(index[t].1.as_str());
                if crate::text::str_eq(crate::text::string_of(b.as_slice()).as_str(), id) {
                    others.push(index[t].1.as_str());
                    assert(others@.map_values(|s: &str| s@) =~= before.push(ix[t as int].1));
                }
            }
            t += 1;
        }
        proof {
            assert(ix.take(t as int) =~= ix);
        }
    } else {
        assert(others@.map_values(|s: &str| s@) =~= Seq::<Seq<char>>::empty());
    }
    let ghost ov = others@.map_values(|s: &str| s@);
    let mut e = String::from_str("unknown ");
    e.append(kind);
    e.append(" '");
    e.append(full.as_str());
    e.append("'");
    if others.len() == 1 {
        e.append(": another mod's def needs its prefix, \"");
        e.append(others[0]);
        e.append("\"");
    } else if others.len() > 1 {
        e.append(": another mod's def needs its prefix, one of ");
        let ghost e0 = e@;
        let mut t: usize = 0;
        while t < others.len()
            invariant
                t <= others@.len(),
                others@.len() > 1,
                ov == others@.map_values(|s: &str| s@),
                e@ == e0 + crate::modloader::join(ov.take(t as int), ", "@),
            decreases others@.len() - t,
        {
            proof {
                assert(ov.take(t + 1).drop_last() =~= ov.take(t as int));
            }
            if t > 0 {
                e.append(", ");
            }
            e.append(others[t]);
            proof {
                if t == 0 {
                    assert(ov.take(0) =~= Seq::<Seq<char>>::empty());
                    assert(crate::modloader::join(ov.take(1), ", "@) == ov[0]);
                }
            }
            t += 1;
        }
        proof {
            assert(ov.take(t as int) =~= ov);
        }
    }
    Err(e)
}

// ------------------------------------------------------------ the work defs

/// The jobs the engine itself runs, which work types can cover.
pub open spec fn engine_job(j: Seq<char>) -> Option<int> {
    if j == "build"@ {
        Some(0)
    } else if j == "haul"@ {
        Some(1)
    } else {
        None
    }
}

/// The style builds use, from the first `n` work styles: each strikes at
/// least every unit of work, and at most one says it is the builds' style.
pub open spec fn styles_result(st: Seq<WorkStyleDef>, n: int) -> Result<Option<DefId>, Seq<char>>
    decreases n,
{
    if n <= 0 {
        Ok(None)
    } else {
        match styles_result(st, n - 1) {
            Err(e) => Err(e),
            Ok(b) => {
                let d = st[n - 1];
                if d.every == 0 {
                    Err("work_style/"@ + d.id@ + ": `every` is the work between strikes, at least 1"@)
                } else if d.builds {
                    match b {
                        Some(prev) => Err(
                            "work_style/"@ + d.id@ + ": only one style can be the one builds use, and work_style/"@
                                + st[prev as int].id@ + " already is"@,
                        ),
                        None => Ok(Some((n - 1) as DefId)),
                    }
                } else {
                    Ok(b)
                }
            },
        }
    }
}

/// Which work type covers each engine job, from the first `m` jobs of work
/// type `i` on top of `claims`: each job an engine job, each covered once.
pub open spec fn jobs_result(claims: (Option<int>, Option<int>), d: WorkTypeDef, i: int, m: int) -> Result<(Option<int>, Option<int>), Seq<char>>
    decreases m,
{
    if m <= 0 {
        Ok(claims)
    } else {
        match jobs_result(claims, d, i, m - 1) {
            Err(e) => Err(e),
            Ok(c) => {
                let j = d.jobs@[m - 1]@;
                match engine_job(j) {
                    None => Err("work_type/"@ + d.id@ + ": no engine job '"@ + j + "' (there are: build, haul)"@),
                    Some(k) => {
                        let taken = if k == 0 { c.0 } else { c.1 };
                        if taken is Some {
                            Err("work_type/"@ + d.id@ + ": another work type already covers '"@ + j + "'"@)
                        } else if k == 0 {
                            Ok((Some(i), c.1))
                        } else {
                            Ok((c.0, Some(i)))
                        }
                    },
                }
            },
        }
    }
}

/// The engine jobs' work types, from the first `n` work types.
pub open spec fn claims_result(wt: Seq<WorkTypeDef>, n: int) -> Result<(Option<int>, Option<int>), Seq<char>>
    decreases n,
{
    if n <= 0 {
        Ok((None, None))
    } else {
        match claims_result(wt, n - 1) {
            Err(e) => Err(e),
            Ok(c) => jobs_result(c, wt[n - 1], n - 1, wt[n - 1].jobs@.len() as int),
        }
    }
}

/// The skills among the first `n` that say `melee`, by index.
pub open spec fn melee_skills(sk: Seq<SkillDef>, n: int) -> Seq<int>
    decreases n,
{
    if n <= 0 {
        Seq::empty()
    } else if sk[n - 1].melee {
        melee_skills(sk, n - 1).push(n - 1)
    } else {
        melee_skills(sk, n - 1)
    }
}

/// Work types in the order they are considered: by `order`, ties by index.
pub open spec fn order_before(wt: Seq<WorkTypeDef>, a: int, b: int) -> bool {
    wt[a].order < wt[b].order || (wt[a].order == wt[b].order && a < b)
}

/// `r` holds every work type once, in the order they are considered.
pub open spec fn work_order_ok(wt: Seq<WorkTypeDef>, r: Seq<DefId>) -> bool {
    &&& r.len() == wt.len()
    &&& forall|p: int| 0 <= p < r.len() ==> (#[trigger] r[p] as int) < wt.len()
    &&& forall|p: int, q: int| 0 <= p < q < r.len() ==> order_before(wt, #[trigger] r[p] as int, #[trigger] r[q] as int)
}

/// The stance a new game starts in: lowest `order`, ties by index.
pub open spec fn first_stance(st: Seq<StanceDef>, s: int) -> bool {
    &&& 0 <= s < st.len()
    &&& forall|t: int| 0 <= t < st.len() ==> st[s].order < st[t].order || (st[s].order == st[t].order && s <= t)
}

/// What settling the work defs decides.
#[derive(Clone, Debug)]
pub struct WorkSetup {
    /// The style every build uses.
    pub build_style: Option<DefId>,
    /// The work types that cover the engine's build and haul jobs.
    pub build_work: Option<DefId>,
    pub haul_work: Option<DefId>,
    /// The skill fighting hand to hand trains and uses.
    pub melee_skill: Option<DefId>,
    /// Work types in the order they are considered.
    pub work_order: Vec<DefId>,
    /// The colony's stance in a new game.
    pub default_stance: Option<DefId>,
}

/// Checks a work style list and finds the builds' style.
fn settle_styles(st: &[WorkStyleDef]) -> (r: Result<Option<DefId>, String>)
    requires
        st@.len() <= u16::MAX + 1,
    ensures
        match (r, styles_result(st@, st@.len() as int)) {
            (Ok(b), Ok(sb)) => b == sb,
            (Err(e), Err(se)) => e@ == se,
            _ => false,
        },
{
    let mut b: Option<DefId> = None;
    let mut i: usize = 0;
    while i < st.len()
        invariant
            i <= st@.len(),
            st@.len() <= u16::MAX + 1,
            styles_result(st@, i as int) == Ok::<Option<DefId>, Seq<char>>(b),
            b matches Some(p) ==> (p as int) < i,
        decreases st@.len() - i,
    {
        let d = &st[i];
        if d.every == 0 {
            let mut e = String::from_str("work_style/");
            e.append(d.id.as_str());
            e.append(": `every` is the work between strikes, at least 1");
            proof {
                assert(styles_result(st@, i + 1) == Err::<Option<DefId>, Seq<char>>(e@));
                lemma_styles_err_stays(st@, i + 1, st@.len() as int);
            }
            return Err(e);
        }
        if d.builds {
            match b {
                Some(prev) => {
                    let mut e = String::from_str("work_style/");
                    e.append(d.id.as_str());
                    e.append(": only one style can be the one builds use, and work_style/");
                    e.append(st[prev as usize].id.as_str());
                    e.append(" already is");
                    proof {
                        assert(styles_result(st@, i + 1) == Err::<Option<DefId>, Seq<char>>(e@));
                        lemma_styles_err_stays(st@, i + 1, st@.len() as int);
                    }
                    return Err(e);
                },
                None => {
                    b = Some(#[verifier::truncate] (i as DefId));
                },
            }
        }
        i += 1;
    }
    Ok(b)
}

proof fn lemma_styles_err_stays(st: Seq<WorkStyleDef>, i: int, n: int)
    requires
        0 <= i <= n,
        styles_result(st, i) is Err,
    ensures
        styles_result(st, n) == styles_result(st, i),
    decreases n - i,
{
    if i < n {
        lemma_styles_err_stays(st, i, n - 1);
    }
}

proof fn lemma_claims_err_stays(wt: Seq<WorkTypeDef>, i: int, n: int)
    requires
        0 <= i <= n,
        claims_result(wt, i) is Err,
    ensures
        claims_result(wt, n) == claims_result(wt, i),
    decreases n - i,
{
    if i < n {
        lemma_claims_err_stays(wt, i, n - 1);
    }
}

proof fn lemma_jobs_err_stays(c: (Option<int>, Option<int>), d: WorkTypeDef, i: int, m: int, n: int)
    requires
        0 <= m <= n,
        jobs_result(c, d, i, m) is Err,
    ensures
        jobs_result(c, d, i, n) == jobs_result(c, d, i, m),
    decreases n - m,
{
    if m < n {
        lemma_jobs_err_stays(c, d, i, m, n - 1);
    }
}

/// The same strings, copied.
fn copy_strings(v: &Vec<String>) -> (r: Vec<String>)
    ensures
        r@ == v@,
{
    let mut out: Vec<String> = Vec::new();
    let mut k: usize = 0;
    while k < v.len()
        invariant
            k <= v@.len(),
            out@ == v@.take(k as int),
        decreases v@.len() - k,
    {
        out.push(v[k].clone());
        assert(out@ =~= v@.take(k + 1));
        k += 1;
    }
    assert(v@.take(k as int) =~= v@);
    out
}

/// A work type with another starting priority.
fn with_priority(d: &WorkTypeDef, priority: u8) -> (r: WorkTypeDef)
    ensures
        r.id == d.id,
        r.label == d.label,
        r.icon == d.icon,
        r.skill == d.skill,
        r.skill_r == d.skill_r,
        r.priority == priority,
        r.order == d.order,
        r.jobs@ == d.jobs@,
{
    WorkTypeDef {
        id: d.id.clone(),
        label: d.label.clone(),
        icon: d.icon.clone(),
        skill: d.skill.clone(),
        skill_r: d.skill_r,
        priority,
        order: d.order,
        jobs: copy_strings(&d.jobs),
    }
}

/// An engine job claim as the contracts count it.
pub open spec fn claim_view(c: Option<usize>) -> Option<int> {
    match c {
        Some(x) => Some(x as int),
        None => None,
    }
}

/// The work types' claims on the engine jobs, with each priority brought
/// within the scale's levels.
fn settle_claims(wt: &mut Vec<WorkTypeDef>, levels: u8) -> (r: Result<(Option<usize>, Option<usize>), String>)
    ensures
        final(wt)@.len() == old(wt)@.len(),
        forall|k: int| 0 <= k < old(wt)@.len() ==> {
            &&& (#[trigger] final(wt)@[k]).id == old(wt)@[k].id
            &&& final(wt)@[k].label == old(wt)@[k].label
            &&& final(wt)@[k].jobs@ == old(wt)@[k].jobs@
            &&& final(wt)@[k].skill == old(wt)@[k].skill
            &&& final(wt)@[k].skill_r == old(wt)@[k].skill_r
            &&& final(wt)@[k].order == old(wt)@[k].order
            &&& r is Ok ==> final(wt)@[k].priority == crate::min_int(old(wt)@[k].priority as int, levels as int)
        },
        match (r, claims_result(old(wt)@, old(wt)@.len() as int)) {
            (Ok(c), Ok(sc)) => claim_view(c.0) == sc.0 && claim_view(c.1) == sc.1,
            (Err(e), Err(se)) => e@ == se,
            _ => false,
        },
{
    let ghost w0 = wt@;
    let mut build: Option<usize> = None;
    let mut haul: Option<usize> = None;
    let mut i: usize = 0;
    while i < wt.len()
        invariant
            i <= wt@.len(),
            w0 == old(wt)@,
            wt@.len() == w0.len(),
            forall|k: int| 0 <= k < w0.len() ==> {
                &&& (#[trigger] wt@[k]).id == w0[k].id
                &&& wt@[k].label == w0[k].label
                &&& wt@[k].jobs@ == w0[k].jobs@
                &&& wt@[k].skill == w0[k].skill
                &&& wt@[k].skill_r == w0[k].skill_r
                &&& wt@[k].order == w0[k].order
                &&& (k < i ==> wt@[k].priority == crate::min_int(w0[k].priority as int, levels as int))
                &&& (k >= i ==> wt@[k] == w0[k])
            },
            claims_result(w0, i as int) == Ok::<(Option<int>, Option<int>), Seq<char>>((claim_view(build), claim_view(haul))),
        decreases wt@.len() - i,
    {
        let ghost c0 = (claim_view(build), claim_view(haul));
        let d = &wt[i];
        assert(*d == w0[i as int]);
        proof {
            assert(jobs_result(c0, w0[i as int], i as int, 0) == Ok::<(Option<int>, Option<int>), Seq<char>>(c0));
        }
        let mut m: usize = 0;
        while m < d.jobs.len()
            invariant
                m <= d.jobs@.len(),
                i < w0.len(),
                *d == w0[i as int],
                w0 == old(wt)@,
                wt@.len() == w0.len(),
                forall|k: int| 0 <= k < w0.len() ==> {
                    &&& (#[trigger] wt@[k]).id == w0[k].id
                    &&& wt@[k].label == w0[k].label
                    &&& wt@[k].jobs@ == w0[k].jobs@
                    &&& wt@[k].skill == w0[k].skill
                    &&& wt@[k].skill_r == w0[k].skill_r
                    &&& wt@[k].order == w0[k].order
                },
                claims_result(w0, i as int) == Ok::<(Option<int>, Option<int>), Seq<char>>(c0),
                jobs_result(c0, w0[i as int], i as int, m as int) == Ok::<(Option<int>, Option<int>), Seq<char>>(
                    (claim_view(build), claim_view(haul)),
                ),
            decreases d.jobs@.len() - m,
        {
            let j = d.jobs[m].as_str();
            let k: usize = if crate::text::str_eq(j, "build") {
                0
            } else if crate::text::str_eq(j, "haul") {
                1
            } else {
                let mut e = String::from_str("work_type/");
                e.append(d.id.as_str());
                e.append(": no engine job '");
                e.append(j);
                e.append("' (there are: build, haul)");
                proof {
                    assert(jobs_result(c0, w0[i as int], i as int, m + 1) == Err::<(Option<int>, Option<int>), Seq<char>>(e@));
                    lemma_jobs_err_stays(c0, w0[i as int], i as int, m + 1, d.jobs@.len() as int);
                    lemma_claims_err_stays(w0, i + 1, w0.len() as int);
                }
                return Err(e);
            };
            let taken = if k == 0 { build.is_some() } else { haul.is_some() };
            if taken {
                let mut e = String::from_str("work_type/");
                e.append(d.id.as_str());
                e.append(": another work type already covers '");
                e.append(j);
                e.append("'");
                proof {
                    assert(jobs_result(c0, w0[i as int], i as int, m + 1) == Err::<(Option<int>, Option<int>), Seq<char>>(e@));
                    lemma_jobs_err_stays(c0, w0[i as int], i as int, m + 1, d.jobs@.len() as int);
                    lemma_claims_err_stays(w0, i + 1, w0.len() as int);
                }
                return Err(e);
            }
            if k == 0 {
                build = Some(i);
            } else {
                haul = Some(i);
            }
            m += 1;
        }
        let p = if d.priority > levels { levels } else { d.priority };
        let nd = with_priority(d, p);
        wt.set(i, nd);
        i += 1;
    }
    Ok((build, haul))
}

/// The skill each work type trains, resolved in its own mod, from the
/// first `n` work types; the first that doesn't resolve is the error.
pub open spec fn skills_result(ix: Seq<(Seq<char>, Seq<char>, DefId)>, wt: Seq<WorkTypeDef>, n: int) -> Result<Seq<Option<DefId>>, Seq<char>>
    decreases n,
{
    if n <= 0 {
        Ok(Seq::empty())
    } else {
        match skills_result(ix, wt, n - 1) {
            Err(e) => Err(e),
            Ok(v) => {
                let d = wt[n - 1];
                if d.skill@.len() == 0 {
                    Ok(v.push(None))
                } else {
                    match resolve_spec(ix, "skill"@, d.skill@, home_of_spec(d.id@)) {
                        Ok(s) => Ok(v.push(Some(s))),
                        Err(e) => Err("work_type/"@ + d.id@ + ": "@ + e),
                    }
                }
            },
        }
    }
}

proof fn lemma_skills_err_stays(ix: Seq<(Seq<char>, Seq<char>, DefId)>, wt: Seq<WorkTypeDef>, i: int, n: int)
    requires
        0 <= i <= n,
        skills_result(ix, wt, i) is Err,
    ensures
        skills_result(ix, wt, n) == skills_result(ix, wt, i),
    decreases n - i,
{
    if i < n {
        lemma_skills_err_stays(ix, wt, i, n - 1);
    }
}

/// A work type with its skill resolved.
fn with_skill(d: &WorkTypeDef, skill_r: Option<DefId>) -> (r: WorkTypeDef)
    ensures
        r.id == d.id,
        r.label == d.label,
        r.icon == d.icon,
        r.skill == d.skill,
        r.skill_r == skill_r,
        r.priority == d.priority,
        r.order == d.order,
        r.jobs@ == d.jobs@,
{
    WorkTypeDef {
        id: d.id.clone(),
        label: d.label.clone(),
        icon: d.icon.clone(),
        skill: d.skill.clone(),
        skill_r,
        priority: d.priority,
        order: d.order,
        jobs: copy_strings(&d.jobs),
    }
}

/// Resolves the skill each work type trains.
fn settle_skills(index: &[(String, String, DefId)], wt: &mut Vec<WorkTypeDef>) -> (r: Result<(), String>)
    ensures
        final(wt)@.len() == old(wt)@.len(),
        forall|k: int| 0 <= k < old(wt)@.len() ==> {
            &&& (#[trigger] final(wt)@[k]).id == old(wt)@[k].id
            &&& final(wt)@[k].label == old(wt)@[k].label
            &&& final(wt)@[k].jobs@ == old(wt)@[k].jobs@
            &&& final(wt)@[k].skill == old(wt)@[k].skill
            &&& final(wt)@[k].priority == old(wt)@[k].priority
            &&& final(wt)@[k].order == old(wt)@[k].order
        },
        match (r, skills_result(index_view(index@), old(wt)@, old(wt)@.len() as int)) {
            (Ok(()), Ok(v)) => forall|k: int| 0 <= k < old(wt)@.len() ==> (#[trigger] final(wt)@[k]).skill_r == v[k],
            (Err(e), Err(se)) => e@ == se,
            _ => false,
        },
{
    let ghost w0 = wt@;
    let ghost ix = index_view(index@);
    let ghost mut done: Seq<Option<DefId>> = Seq::empty();
    let mut i: usize = 0;
    while i < wt.len()
        invariant
            i <= wt@.len(),
            w0 == old(wt)@,
            ix == index_view(index@),
            wt@.len() == w0.len(),
            forall|k: int| 0 <= k < w0.len() ==> {
                &&& (#[trigger] wt@[k]).id == w0[k].id
                &&& wt@[k].label == w0[k].label
                &&& wt@[k].jobs@ == w0[k].jobs@
                &&& wt@[k].skill == w0[k].skill
                &&& wt@[k].priority == w0[k].priority
                &&& wt@[k].order == w0[k].order
                &&& (k < i ==> wt@[k].skill_r == done[k])
                &&& (k >= i ==> wt@[k] == w0[k])
            },
            done.len() == i,
            skills_result(ix, w0, i as int) == Ok::<Seq<Option<DefId>>, Seq<char>>(done),
        decreases wt@.len() - i,
    {
        let d = &wt[i];
        assert(*d == w0[i as int]);
        let skill_r = if crate::text::chars_of(d.skill.as_str()).len() == 0 {
            None
        } else {
            let home = home_of(d.id.as_str());
            match resolve_in(index, "skill", d.skill.as_str(), home.as_str()) {
                Ok(s) => Some(s),
                Err(e0) => {
                    let mut e = String::from_str("work_type/");
                    e.append(d.id.as_str());
                    e.append(": ");
                    e.append(e0.as_str());
                    proof {
                        assert(skills_result(ix, w0, i + 1) == Err::<Seq<Option<DefId>>, Seq<char>>(e@));
                        lemma_skills_err_stays(ix, w0, i + 1, w0.len() as int);
                    }
                    return Err(e);
                },
            }
        };
        let nd = with_skill(d, skill_r);
        wt.set(i, nd);
        proof {
            done = done.push(skill_r);
        }
        i += 1;
    }
    Ok(())
}

/// The melee skill: the one skill that says `melee`, if any.
fn settle_melee(sk: &[SkillDef]) -> (r: Result<Option<DefId>, String>)
    requires
        sk@.len() <= u16::MAX + 1,
    ensures
        ({
            let ms = melee_skills(sk@, sk@.len() as int);
            match r {
                Err(e) => ms.len() > 1 && e@ == "skill/"@ + sk@[ms[1]].id@ + ": only one skill can be the melee skill"@,
                Ok(m) => ms.len() <= 1 && m == (if ms.len() == 1 { Some(ms[0] as DefId) } else { None }),
            }
        }),
{
    let mut first: Option<usize> = None;
    let mut i: usize = 0;
    while i < sk.len()
        invariant
            i <= sk@.len(),
            sk@.len() <= u16::MAX + 1,
            ({
                let ms = melee_skills(sk@, i as int);
                &&& ms.len() <= 1
                &&& first == (if ms.len() == 1 { Some(ms[0] as usize) } else { None::<usize> })
                &&& forall|k: int| 0 <= k < ms.len() ==> 0 <= #[trigger] ms[k] < i
            }),
        decreases sk@.len() - i,
    {
        if sk[i].melee {
            match first {
                Some(_) => {
                    let mut e = String::from_str("skill/");
                    e.append(sk[i].id.as_str());
                    e.append(": only one skill can be the melee skill");
                    proof {
                        lemma_melee_grows(sk@, i + 1, sk@.len() as int);
                        assert(melee_skills(sk@, i + 1)[1] == i as int);
                    }
                    return Err(e);
                },
                None => {
                    first = Some(i);
                },
            }
        }
        i += 1;
    }
    match first {
        Some(k) => Ok(Some(#[verifier::truncate] (k as DefId))),
        None => Ok(None),
    }
}

/// A longer prefix holds the melee skills of a shorter one, first.
proof fn lemma_melee_grows(sk: Seq<SkillDef>, i: int, n: int)
    requires
        0 <= i <= n,
    ensures
        melee_skills(sk, n).len() >= melee_skills(sk, i).len(),
        forall|k: int| 0 <= k < melee_skills(sk, i).len() ==> #[trigger] melee_skills(sk, n)[k] == melee_skills(sk, i)[k],
    decreases n - i,
{
    if i < n {
        lemma_melee_grows(sk, i, n - 1);
    }
}

/// Work types in the order they are considered: by `order`, ties by index.
fn work_order(wt: &[WorkTypeDef]) -> (r: Vec<DefId>)
    requires
        wt@.len() <= u16::MAX + 1,
    ensures
        work_order_ok(wt@, r@),
{
    let mut out: Vec<DefId> = Vec::new();
    let mut w: usize = 0;
    while w < wt.len()
        invariant
            w <= wt@.len(),
            wt@.len() <= u16::MAX + 1,
            out@.len() == w,
            forall|p: int| 0 <= p < out@.len() ==> (#[trigger] out@[p] as int) < w,
            forall|p: int, q: int| 0 <= p < q < out@.len() ==> order_before(wt@, #[trigger] out@[p] as int, #[trigger] out@[q] as int),
        decreases wt@.len() - w,
    {
        let ow = wt[w].order;
        let mut p: usize = 0;
        while p < out.len() && wt[out[p] as usize].order <= ow
            invariant
                p <= out@.len(),
                w < wt@.len(),
                ow == wt@[w as int].order,
                forall|q: int| 0 <= q < out@.len() ==> (#[trigger] out@[q] as int) < w,
                forall|q: int| 0 <= q < p ==> wt@[(#[trigger] out@[q]) as int].order <= ow,
            decreases out@.len() - p,
        {
            p += 1;
        }
        let ghost o = out@;
        out.insert(p, #[verifier::truncate] (w as DefId));
        proof {
            assert(out@ == o.insert(p as int, w as DefId));
            assert forall|a: int, b: int| 0 <= a < b < out@.len() implies order_before(wt@, #[trigger] out@[a] as int, #[trigger] out@[b] as int) by {
                if b < p {
                    assert(order_before(wt@, o[a] as int, o[b] as int));
                } else if b == p {
                    assert(wt@[o[a] as int].order <= ow);
                } else if a < p {
                    assert(order_before(wt@, o[a] as int, o[b - 1] as int));
                    assert(wt@[o[a] as int].order <= ow);
                    assert(wt@[o[p as int] as int].order > ow) by {
                        if p < o.len() {
                        }
                    }
                    if p < b - 1 {
                        assert(order_before(wt@, o[p as int] as int, o[b - 1] as int));
                    }
                } else if a == p {
                    assert(wt@[o[p as int] as int].order > ow);
                    if p < b - 1 {
                        assert(order_before(wt@, o[p as int] as int, o[b - 1] as int));
                    }
                } else {
                    assert(order_before(wt@, o[a - 1] as int, o[b - 1] as int));
                }
            }
        }
        w += 1;
    }
    out
}

/// The stance a new game starts in.
fn first_stance_of(st: &[StanceDef]) -> (r: Option<DefId>)
    requires
        st@.len() <= u16::MAX + 1,
    ensures
        match r {
            Some(s) => first_stance(st@, s as int),
            None => st@.len() == 0,
        },
{
    if st.len() == 0 {
        return None;
    }
    let mut best: usize = 0;
    let mut i: usize = 1;
    while i < st.len()
        invariant
            1 <= i <= st@.len(),
            st@.len() <= u16::MAX + 1,
            best < i,
            forall|t: int| 0 <= t < i ==> st@[best as int].order < st@[t].order || (st@[best as int].order == st@[t].order && best <= t),
        decreases st@.len() - i,
    {
        if st[i].order < st[best].order {
            best = i;
        }
        i += 1;
    }
    Some(#[verifier::truncate] (best as DefId))
}

/// The first error settling the work defs meets: a bad work style, a
/// priority scale off 1 to 9, a bad claim on an engine job, a skill that
/// doesn't resolve, or more than one melee skill.
pub open spec fn work_error(
    ix: Seq<(Seq<char>, Seq<char>, DefId)>,
    st: Seq<WorkStyleDef>,
    scale: PriorityScaleDef,
    wt: Seq<WorkTypeDef>,
    sk: Seq<SkillDef>,
) -> Option<Seq<char>> {
    match styles_result(st, st.len() as int) {
        Err(e) => Some(e),
        Ok(_) => if !(1 <= scale.levels <= 9) {
            Some(
                "priority_scale/"@ + scale.id@ + ": levels must be 1 to 9, not "@ + crate::text::decimal_spec(
                    scale.levels as nat,
                ),
            )
        } else {
            match claims_result(wt, wt.len() as int) {
                Err(e) => Some(e),
                Ok(_) => match skills_result(ix, wt, wt.len() as int) {
                    Err(e) => Some(e),
                    Ok(_) => {
                        let ms = melee_skills(sk, sk.len() as int);
                        if ms.len() > 1 {
                            Some("skill/"@ + sk[ms[1]].id@ + ": only one skill can be the melee skill"@)
                        } else {
                            None
                        }
                    },
                },
            }
        },
    }
}

/// Settles the work defs: checks the work styles and finds the one builds
/// use, checks the priority scale, brings each work type's starting
/// priority within it, gives the engine's build and haul jobs to the work
/// types that cover them, resolves the skill each work type trains, finds
/// the melee skill, and orders the work types and the stances.
pub fn settle_work(
    index: &[(String, String, DefId)],
    styles: &[WorkStyleDef],
    scale: &PriorityScaleDef,
    work_types: &mut Vec<WorkTypeDef>,
    skills: &[SkillDef],
    stances: &[StanceDef],
) -> (r: Result<WorkSetup, String>)
    requires
        styles@.len() <= u16::MAX + 1,
        old(work_types)@.len() <= u16::MAX + 1,
        skills@.len() <= u16::MAX + 1,
        stances@.len() <= u16::MAX + 1,
    ensures
        match r {
            Err(e) => work_error(index_view(index@), styles@, *scale, old(work_types)@, skills@) == Some(e@),
            Ok(ws) => {
                &&& work_error(index_view(index@), styles@, *scale, old(work_types)@, skills@) is None
                &&& styles_result(styles@, styles@.len() as int) == Ok::<Option<DefId>, Seq<char>>(ws.build_style)
                &&& ({
                    let c = claims_result(old(work_types)@, old(work_types)@.len() as int)->Ok_0;
                    &&& ws.build_work == (match c.0 { Some(x) => Some(x as DefId), None => None::<DefId> })
                    &&& ws.haul_work == (match c.1 { Some(x) => Some(x as DefId), None => None::<DefId> })
                })
                &&& ({
                    let ms = melee_skills(skills@, skills@.len() as int);
                    ws.melee_skill == (if ms.len() == 1 { Some(ms[0] as DefId) } else { None })
                })
                &&& work_order_ok(old(work_types)@, ws.work_order@)
                &&& (match ws.default_stance {
                    Some(s) => first_stance(stances@, s as int),
                    None => stances@.len() == 0,
                })
                &&& final(work_types)@.len() == old(work_types)@.len()
                &&& forall|k: int| 0 <= k < old(work_types)@.len() ==> {
                    &&& (#[trigger] final(work_types)@[k]).id == old(work_types)@[k].id
                    &&& final(work_types)@[k].jobs@ == old(work_types)@[k].jobs@
                    &&& final(work_types)@[k].order == old(work_types)@[k].order
                    &&& final(work_types)@[k].priority == crate::min_int(old(work_types)@[k].priority as int, scale.levels as int)
                    &&& final(work_types)@[k].skill_r == skills_result(index_view(index@), old(work_types)@, old(work_types)@.len() as int)->Ok_0[k]
                }
            },
        },
{
    let ghost w0 = work_types@;
    let build_style = settle_styles(styles)?;
    let levels = scale.levels;
    if !(1 <= levels && levels <= 9) {
        let mut e = String::from_str("priority_scale/");
        e.append(scale.id.as_str());
        e.append(": levels must be 1 to 9, not ");
        let n = crate::text::decimal(levels as u64);
        e.append(n.as_str());
        return Err(e);
    }
    let claims = settle_claims(work_types, levels)?;
    let ghost w1 = work_types@;
    proof {
        assert(skills_result(index_view(index@), w1, w1.len() as int) == skills_result(index_view(index@), w0, w0.len() as int)) by {
            lemma_skills_same(index_view(index@), w0, w1, w0.len() as int);
        }
    }
    settle_skills(index, work_types)?;
    let melee_skill = settle_melee(skills)?;
    let order = work_order(work_types.as_slice());
    proof {
        assert(work_order_ok(w0, order@)) by {
            assert forall|a: int, b: int| 0 <= a < work_types@.len() && 0 <= b < work_types@.len() implies (order_before(work_types@, a, b) == order_before(w0, a, b)) by {}
        }
    }
    let default_stance = first_stance_of(stances);
    let to_def = |c: Option<usize>| -> (d: Option<DefId>)
        ensures
            d == (match c { Some(x) => Some(x as DefId), None => None::<DefId> }),
        {
            match c {
                Some(x) => Some(#[verifier::truncate] (x as DefId)),
                None => None,
            }
        };
    Ok(WorkSetup {
        build_style,
        build_work: to_def(claims.0),
        haul_work: to_def(claims.1),
        melee_skill,
        work_order: order,
        default_stance,
    })
}

/// Skills resolve the same for work types with the same ids and skills.
proof fn lemma_skills_same(ix: Seq<(Seq<char>, Seq<char>, DefId)>, a: Seq<WorkTypeDef>, b: Seq<WorkTypeDef>, n: int)
    requires
        0 <= n <= a.len(),
        a.len() == b.len(),
        forall|k: int| 0 <= k < a.len() ==> (#[trigger] a[k]).id == b[k].id && a[k].skill == b[k].skill,
    ensures
        skills_result(ix, a, n) == skills_result(ix, b, n),
    decreases n,
{
    if n > 0 {
        lemma_skills_same(ix, a, b, n - 1);
        assert(a[n - 1].id == b[n - 1].id && a[n - 1].skill == b[n - 1].skill);
    }
}

} // verus!
