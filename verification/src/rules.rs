//! Priority rules and stances: a colonist's effective priority is the one
//! the player set plus the rules that hold, and each value can say how it
//! got there. The colony-wide half of a rule (hours, season, stance) is
//! worked out when one of those changes; the colonist's half (a need) is
//! checked when the colonist looks for work.
use vstd::prelude::*;
use crate::defs::DefId;

verus! {

/// The colony-wide half of a rule's `when`: hours of the day (from the
/// first up to the second; `(22, 6)` wraps past midnight), any of some
/// seasons (none listed: any season), and a stance.
#[derive(Clone, Debug)]
pub struct ColonyWhen {
    pub hours: Option<(u32, u32)>,
    pub season_r: Vec<u32>,
    pub stance_r: Option<DefId>,
}

/// The rules whose colony-wide conditions hold, and what they were
/// worked out for. Derived: rebuilt on load.
#[derive(Default, Clone, Debug)]
pub struct Rules {
    /// Indices of the rules that hold, in load order.
    pub on: Vec<u16>,
    /// (hour, season, stance), with the parts no rule reads left at 0.
    key: Option<(u32, u32, Option<DefId>)>,
    /// How many times `on` was worked out, for tests and the profiler.
    pub evaluations: u64,
}

/// One step of an explanation: what moved the value, and by how much.
#[derive(Clone, Debug, PartialEq, Eq)]
pub struct Part {
    pub label: String,
    pub delta: i32,
}

/// The hour lies in the window from `a` up to `b`, which wraps past
/// midnight when `b` is not after `a`.
pub open spec fn in_hours(a: u32, b: u32, hour: u32) -> bool {
    if a < b {
        a <= hour < b
    } else {
        hour >= a || hour < b
    }
}

/// The colony-wide half of a rule holds.
pub open spec fn colony_holds(w: ColonyWhen, hour: u32, season: u32, stance: Option<DefId>) -> bool {
    &&& (w.hours matches Some((a, b)) ==> in_hours(a, b, hour))
    &&& (w.season_r@.len() == 0 || w.season_r@.contains(season))
    &&& (w.stance_r matches Some(s) ==> stance == Some(s))
}

/// The indices, in order, of the rules among the first `n` that hold.
pub open spec fn rules_on(whens: Seq<ColonyWhen>, n: int, hour: u32, season: u32, stance: Option<DefId>) -> Seq<int>
    decreases n,
{
    if n <= 0 {
        Seq::empty()
    } else {
        let before = rules_on(whens, n - 1, hour, season, stance);
        if colony_holds(whens[n - 1], hour, season, stance) {
            before.push(n - 1)
        } else {
            before
        }
    }
}

/// The indices of a list of rules, widened.
pub open spec fn widen(v: Seq<u16>) -> Seq<int> {
    v.map_values(|x: u16| x as int)
}

fn colony_holds_exec(w: &ColonyWhen, hour: u32, season: u32, stance: Option<DefId>) -> (r: bool)
    ensures
        r == colony_holds(*w, hour, season, stance),
{
    let hours = match w.hours {
        None => true,
        Some((a, b)) => if a < b {
            a <= hour && hour < b
        } else {
            hour >= a || hour < b
        },
    };
    let mut seasons = w.season_r.len() == 0;
    let mut i: usize = 0;
    while i < w.season_r.len() && !seasons
        invariant
            i <= w.season_r@.len(),
            seasons == (w.season_r@.len() == 0 || w.season_r@.take(i as int).contains(season)),
        decreases w.season_r@.len() - i,
    {
        proof {
            let s0 = w.season_r@.take(i as int);
            let s1 = w.season_r@.take(i + 1);
            assert(s1 =~= s0.push(w.season_r@[i as int]));
            if s1.contains(season) && !s0.contains(season) {
                let q = choose|q: int| 0 <= q < s1.len() && s1[q] == season;
                assert(q == i);
            }
            if w.season_r@[i as int] == season {
                assert(s1[i as int] == season);
            }
        }
        if w.season_r[i] == season {
            seasons = true;
        }
        i += 1;
    }
    proof {
        if !seasons {
            assert(w.season_r@.take(i as int) =~= w.season_r@);
        } else if w.season_r@.len() != 0 {
            let s0 = w.season_r@.take(i as int);
            let q = choose|q: int| 0 <= q < s0.len() && s0[q] == season;
            assert(w.season_r@[q] == season);
        }
    }
    let st = match w.stance_r {
        None => true,
        Some(s) => match stance {
            Some(t) => t == s,
            None => false,
        },
    };
    hours && seasons && st
}

impl Rules {
    pub closed spec fn key_spec(&self) -> Option<(u32, u32, Option<DefId>)> {
        self.key
    }

    /// The rules that hold, by index.
    pub closed spec fn on_spec(&self) -> Seq<u16> {
        self.on@
    }

    pub closed spec fn evaluations_spec(&self) -> u64 {
        self.evaluations
    }

    /// Rules that have never been worked out.
    pub fn new() -> (r: Self)
        ensures
            r.on_spec().len() == 0,
            r.key_spec() is None,
            r.evaluations_spec() == 0,
    {
        Rules { on: Vec::new(), key: None, evaluations: 0 }
    }

    /// Bring the colony's rules up to date with the hour, the season and
    /// the stance (an hour or season no rule reads passed as 0). Cheap when
    /// nothing changed: a key compare.
    pub fn update(&mut self, whens: &[ColonyWhen], hour: u32, season: u32, stance: Option<DefId>)
        requires
            whens@.len() <= u16::MAX + 1,
            old(self).evaluations_spec() < u64::MAX,
        ensures
            old(self).key_spec() == Some((hour, season, stance)) ==> *final(self) == *old(self),
            old(self).key_spec() != Some((hour, season, stance)) ==> {
                &&& widen(final(self).on_spec()) == rules_on(whens@, whens@.len() as int, hour, season, stance)
                &&& final(self).key_spec() == Some((hour, season, stance))
                &&& final(self).evaluations_spec() == old(self).evaluations_spec() + 1
            },
    {
        let key = (hour, season, stance);
        let same = match self.key {
            Some((h, s, st)) => h == hour && s == season && match (st, stance) {
                (None, None) => true,
                (Some(x), Some(y)) => x == y,
                _ => false,
            },
            None => false,
        };
        if same {
            return;
        }
        let mut on: Vec<u16> = Vec::new();
        let mut i: usize = 0;
        proof {
            assert(widen(on@) =~= Seq::<int>::empty());
        }
        while i < whens.len()
            invariant
                i <= whens@.len(),
                whens@.len() <= u16::MAX + 1,
                widen(on@) == rules_on(whens@, i as int, hour, season, stance),
            decreases whens@.len() - i,
        {
            let ghost before = widen(on@);
            if colony_holds_exec(&whens[i], hour, season, stance) {
                on.push(i as u16);
                assert(widen(on@) =~= before.push(i as int));
            }
            i += 1;
        }
        self.on = on;
        self.key = Some(key);
        self.evaluations = self.evaluations + 1;
    }
}

// ------------------------------------------------------------- explanations

/// What the evaluation needs of one rule that holds for the colony: its
/// `set` and `shift` by work type (each sorted by work type, each work
/// type once), whether its colonist half holds, and how it reads.
#[derive(Clone, Debug)]
pub struct RuleStep {
    pub set_r: Vec<(DefId, u8)>,
    pub shift_r: Vec<(DefId, i32)>,
    pub holds: bool,
    pub label: String,
}

/// Keys strictly increasing: sorted, each once.
pub open spec fn keys_sorted<T>(s: Seq<(DefId, T)>) -> bool {
    forall|i: int, j: int| 0 <= i < j < s.len() ==> s[i].0 < s[j].0
}

/// The value kept for key `k`, if there is one.
pub open spec fn lookup<T>(s: Seq<(DefId, T)>, k: DefId) -> Option<T>
    decreases s.len(),
{
    if s.len() == 0 {
        None
    } else if s.last().0 == k {
        Some(s.last().1)
    } else {
        lookup(s.drop_last(), k)
    }
}

pub open spec fn clamp_int(v: int, lo: int, hi: int) -> int {
    if v < lo {
        lo
    } else if v > hi {
        hi
    } else {
        v
    }
}

/// What a rule makes of the value `v` for `work`: `None` when it says
/// nothing of the work type or its colonist half doesn't hold. A `set`
/// replaces the value; a `shift` then moves a value that isn't 0 ("never"),
/// within 1 to `levels`.
pub open spec fn rule_effect(v: int, levels: int, r: RuleStep, work: DefId) -> Option<int> {
    let set = lookup(r.set_r@, work);
    let shift = lookup(r.shift_r@, work);
    if (set is None && shift is None) || !r.holds {
        None
    } else {
        let n = match set {
            Some(x) => x as int,
            None => v,
        };
        Some(
            match shift {
                Some(d) => if n > 0 {
                    clamp_int(n + d, 1, levels)
                } else {
                    n
                },
                None => n,
            },
        )
    }
}

/// The value after the first `k` rules.
pub open spec fn value_after(base: int, levels: int, rs: Seq<RuleStep>, work: DefId, k: int) -> int
    decreases k,
{
    if k <= 0 {
        base
    } else {
        let v = value_after(base, levels, rs, work, k - 1);
        match rule_effect(v, levels, rs[k - 1], work) {
            Some(n) => n,
            None => v,
        }
    }
}

/// The parts the first `k` rules add after the base: each rule that moves
/// the value, or holds and can't, with its label and how far it moved it.
pub open spec fn parts_after(base: int, levels: int, rs: Seq<RuleStep>, work: DefId, k: int) -> Seq<(Seq<char>, int)>
    decreases k,
{
    if k <= 0 {
        Seq::empty()
    } else {
        let before = parts_after(base, levels, rs, work, k - 1);
        let v = value_after(base, levels, rs, work, k - 1);
        match rule_effect(v, levels, rs[k - 1], work) {
            Some(n) => before.push((rs[k - 1].label@, n - v)),
            None => before,
        }
    }
}

/// The sum of the moves of a list of parts.
pub open spec fn sum_deltas(ps: Seq<(Seq<char>, int)>) -> int
    decreases ps.len(),
{
    if ps.len() == 0 {
        0
    } else {
        sum_deltas(ps.drop_last()) + ps.last().1
    }
}

/// Parts as labels and moves.
pub open spec fn part_views(ps: Seq<Part>) -> Seq<(Seq<char>, int)> {
    ps.map_values(|p: Part| (p.label@, p.delta as int))
}

fn find_key<T: Copy>(s: &[(DefId, T)], k: DefId) -> (r: Option<T>)
    requires
        keys_sorted(s@),
    ensures
        r == lookup(s@, k),
{
    let mut lo: usize = 0;
    let mut hi: usize = s.len();
    while lo < hi
        invariant
            lo <= hi <= s@.len(),
            keys_sorted(s@),
            forall|i: int| 0 <= i < lo ==> s@[i].0 < k,
            forall|i: int| hi <= i < s@.len() ==> s@[i].0 > k,
        decreases hi - lo,
    {
        let mid = lo + (hi - lo) / 2;
        let e = s[mid];
        if e.0 == k {
            proof {
                lemma_lookup_at(s@, mid as int);
            }
            return Some(e.1);
        } else if e.0 < k {
            lo = mid + 1;
        } else {
            hi = mid;
        }
    }
    proof {
        lemma_lookup_absent(s@, k);
    }
    None
}

pub(crate) proof fn lemma_lookup_at<T>(s: Seq<(DefId, T)>, i: int)
    requires
        keys_sorted(s),
        0 <= i < s.len(),
    ensures
        lookup(s, s[i].0) == Some(s[i].1),
    decreases s.len(),
{
    if i < s.len() - 1 {
        assert(s.last().0 != s[i].0);
        assert(keys_sorted(s.drop_last()));
        lemma_lookup_at(s.drop_last(), i);
    }
}

pub(crate) proof fn lemma_lookup_absent<T>(s: Seq<(DefId, T)>, k: DefId)
    requires
        forall|i: int| 0 <= i < s.len() ==> s[i].0 != k,
    ensures
        lookup(s, k) is None,
    decreases s.len(),
{
    if s.len() > 0 {
        lemma_lookup_absent(s.drop_last(), k);
    }
}

/// The effective priority for `work` and its parts, which sum to it: the
/// base (the one the player set, or the work type's default), then each
/// rule that moved it. A rule that holds but can't move it (a shift past
/// the last level) shows as 0, so the player sees it was considered.
pub fn explain_steps(base: u8, levels: u8, rs: &[RuleStep], work: DefId) -> (r: (u8, Vec<Part>))
    requires
        levels >= 1,
        forall|i: int| 0 <= i < rs@.len() ==> keys_sorted(#[trigger] rs@[i].set_r@) && keys_sorted(rs@[i].shift_r@),
    ensures
        r.0 == value_after(base as int, levels as int, rs@, work, rs@.len() as int),
        part_views(r.1@) == seq![("base"@, base as int)] + parts_after(
            base as int,
            levels as int,
            rs@,
            work,
            rs@.len() as int,
        ),
{
    let mut parts: Vec<Part> = Vec::new();
    parts.push(Part { label: String::from_str("base"), delta: base as i32 });
    let ghost first = seq![("base"@, base as int)];
    assert(part_views(parts@) =~= first);
    let lv: i64 = levels as i64;
    let mut v: i64 = base as i64;
    let mut k: usize = 0;
    while k < rs.len()
        invariant
            k <= rs@.len(),
            levels >= 1,
            lv == levels,
            forall|i: int| 0 <= i < rs@.len() ==> keys_sorted(#[trigger] rs@[i].set_r@) && keys_sorted(rs@[i].shift_r@),
            v == value_after(base as int, levels as int, rs@, work, k as int),
            0 <= v <= 255,
            part_views(parts@) == first + parts_after(base as int, levels as int, rs@, work, k as int),
        decreases rs@.len() - k,
    {
        let r = &rs[k];
        assert(keys_sorted(rs@[k as int].set_r@));
        let set = find_key(r.set_r.as_slice(), work);
        let shift = find_key(r.shift_r.as_slice(), work);
        let ghost before = part_views(parts@);
        if (set.is_none() && shift.is_none()) || !r.holds {
        } else {
            let mut n: i64 = match set {
                Some(x) => x as i64,
                None => v,
            };
            match shift {
                Some(d) => {
                    if n > 0 {
                        let m = n + d as i64;
                        n = if m < 1 { 1 } else if m > lv { lv } else { m };
                    }
                },
                None => {},
            }
            let label = r.label.clone();
            proof {
                assert(label@ == r.label@);
            }
            parts.push(Part { label, delta: (n - v) as i32 });
            assert(part_views(parts@) =~= before.push((rs@[k as int].label@, n - v)));
            v = n;
        }
        k += 1;
    }
    (v as u8, parts)
}

/// The parts of an explanation sum to the value it explains.
pub proof fn law_parts_sum_to_value(base: u8, levels: u8, rs: Seq<RuleStep>, work: DefId, k: int)
    requires
        0 <= k <= rs.len(),
    ensures
        sum_deltas(seq![("base"@, base as int)] + parts_after(base as int, levels as int, rs, work, k)) == value_after(
            base as int,
            levels as int,
            rs,
            work,
            k,
        ),
    decreases k,
{
    let first = seq![("base"@, base as int)];
    if k == 0 {
        assert(first + parts_after(base as int, levels as int, rs, work, 0) =~= first);
        assert(first.drop_last() =~= Seq::<(Seq<char>, int)>::empty());
        assert(sum_deltas(first.drop_last()) == 0);
        assert(first.last().1 == base as int);
        assert(sum_deltas(first) == base);
    } else {
        law_parts_sum_to_value(base, levels, rs, work, k - 1);
        let before = parts_after(base as int, levels as int, rs, work, k - 1);
        let v = value_after(base as int, levels as int, rs, work, k - 1);
        match rule_effect(v, levels as int, rs[k - 1], work) {
            Some(n) => {
                let all = first + before.push((rs[k - 1].label@, n - v));
                assert(all =~= first + parts_after(base as int, levels as int, rs, work, k));
                assert(all.drop_last() =~= first + before);
                assert(sum_deltas(all) == sum_deltas(first + before) + (n - v));
            },
            None => {
                assert(parts_after(base as int, levels as int, rs, work, k) == before);
            },
        }
    }
}

/// A work type at 0 ("never") stays 0 under shifts: only a rule that sets
/// it brings it back.
pub proof fn law_never_stays_never(levels: u8, rs: Seq<RuleStep>, work: DefId, k: int)
    requires
        0 <= k <= rs.len(),
        forall|i: int| 0 <= i < k ==> lookup(#[trigger] rs[i].set_r@, work) is None,
    ensures
        value_after(0, levels as int, rs, work, k) == 0,
    decreases k,
{
    if k > 0 {
        law_never_stays_never(levels, rs, work, k - 1);
        assert(lookup(rs[k - 1].set_r@, work) is None);
    }
}

/// An effective priority stays on the scale, 0 ("never") to `levels`,
/// when the base does and every level a rule sets does.
pub proof fn law_priority_stays_on_scale(base: int, levels: u8, rs: Seq<RuleStep>, work: DefId, k: int)
    requires
        0 <= k <= rs.len(),
        levels >= 1,
        0 <= base <= levels,
        forall|i: int| 0 <= i < k ==> (#[trigger] lookup(rs[i].set_r@, work) matches Some(l) ==> l <= levels),
    ensures
        0 <= value_after(base, levels as int, rs, work, k) <= levels,
    decreases k,
{
    if k > 0 {
        law_priority_stays_on_scale(base, levels, rs, work, k - 1);
        assert(lookup(rs[k - 1].set_r@, work) matches Some(l) ==> l <= levels);
    }
}

} // verus!
