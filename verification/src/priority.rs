//! Priority rules as mods give them, settled when the defs load: their
//! hours checked, their seasons found in the calendar, their references
//! resolved in their own mod, and their levels and shifts brought within
//! the priority scale.
use vstd::prelude::*;
use crate::defs::{DefId, home_of, home_of_spec, index_view, resolve_in, resolve_spec};
use crate::snapshot::id_views;

verus! {

/// A priority rule as its mod gives it. The need condition's fractions of
/// full (`below`, `above`) are floating point and are held where the rule
/// is evaluated; here stand whether one was given and whether each one
/// given lies within 0 to 1.
#[derive(Clone, Debug)]
pub struct RuleDef {
    pub id: String,
    /// How it reads in an explanation; the stance's label if it names one.
    pub label: String,
    /// Hours of the day, from the first up to the second; `(22, 6)` wraps
    /// past midnight.
    pub hours: Option<(u32, u32)>,
    /// Any of these seasons, by the calendar's names.
    pub season: Vec<String>,
    pub stance: Option<String>,
    /// A need of the colonist's, below or above a fraction of full.
    pub need: Option<String>,
    /// `below` or `above` is given.
    pub bounded: bool,
    /// Each of `below` and `above` that is given lies within 0 to 1.
    pub fractions_ok: bool,
    /// Work types it puts at a level, in name order.
    pub set: Vec<(String, u8)>,
    /// Work types it moves by some levels (negative is sooner), in name
    /// order.
    pub shift: Vec<(String, i32)>,
}

/// A priority rule with its references resolved.
#[derive(Clone, Debug)]
pub struct SettledRule {
    pub when: crate::rules::ColonyWhen,
    pub need_r: Option<DefId>,
    /// Levels by work type, each within the scale, in work-type order.
    pub set_r: Vec<(DefId, u8)>,
    /// Shifts by work type, none wider than the scale, in work-type order.
    pub shift_r: Vec<(DefId, i32)>,
}

/// How errors about a rule begin.
pub open spec fn rule_ctx(id: Seq<char>) -> Seq<char> {
    "priority_rule/"@ + id
}

/// Hours outside 0 to 24, or an empty window.
pub open spec fn hours_bad(h: Option<(u32, u32)>) -> bool {
    match h {
        Some((a, b)) => a > 23 || b > 24 || a == b,
        None => false,
    }
}

/// The names in a list of named values, as text.
pub open spec fn names_of<T>(v: Seq<(String, T)>) -> Seq<Seq<char>> {
    v.map_values(|p: (String, T)| p.0@)
}

/// Where a season's name first stands in the calendar.
pub open spec fn season_index(seasons: Seq<Seq<char>>, n: Seq<char>) -> Option<int> {
    if exists|i: int| 0 <= i < seasons.len() && seasons[i] == n {
        Some(choose|i: int| 0 <= i < seasons.len() && seasons[i] == n && forall|j: int| 0 <= j < i ==> seasons[j] != n)
    } else {
        None
    }
}

/// The first `k` season names as places in the calendar, or the error for
/// the first that isn't there.
pub open spec fn seasons_result(seasons: Seq<Seq<char>>, names: Seq<Seq<char>>, ctx: Seq<char>, k: int) -> Result<Seq<u32>, Seq<char>>
    decreases k,
{
    if k <= 0 {
        Ok(Seq::empty())
    } else {
        match seasons_result(seasons, names, ctx, k - 1) {
            Err(e) => Err(e),
            Ok(v) => match season_index(seasons, names[k - 1]) {
                Some(i) => Ok(v.push(i as u32)),
                None => Err(
                    ctx + ": no season '"@ + names[k - 1] + "' in the calendar (there are: "@ + crate::modloader::join(seasons, ", "@)
                        + ")"@,
                ),
            },
        }
    }
}

/// A reference a rule makes, resolved in the rule's own mod.
pub open spec fn rule_ref(ix: Seq<(Seq<char>, Seq<char>, DefId)>, kind: Seq<char>, name: Seq<char>, id: Seq<char>) -> Result<DefId, Seq<char>> {
    match resolve_spec(ix, kind, name, home_of_spec(id)) {
        Ok(d) => Ok(d),
        Err(e) => Err(rule_ctx(id) + ": "@ + e),
    }
}

/// An optional reference a rule makes, resolved.
pub open spec fn rule_opt_ref(ix: Seq<(Seq<char>, Seq<char>, DefId)>, kind: Seq<char>, name: Option<String>, id: Seq<char>) -> Result<Option<DefId>, Seq<char>> {
    match name {
        None => Ok(None),
        Some(n) => match rule_ref(ix, kind, n@, id) {
            Ok(d) => Ok(Some(d)),
            Err(e) => Err(e),
        },
    }
}

/// The first `k` references of a list, resolved, or the first error.
pub open spec fn rule_refs(ix: Seq<(Seq<char>, Seq<char>, DefId)>, kind: Seq<char>, names: Seq<Seq<char>>, id: Seq<char>, k: int) -> Result<Seq<DefId>, Seq<char>>
    decreases k,
{
    if k <= 0 {
        Ok(Seq::empty())
    } else {
        match rule_refs(ix, kind, names, id, k - 1) {
            Err(e) => Err(e),
            Ok(v) => match rule_ref(ix, kind, names[k - 1], id) {
                Ok(d) => Ok(v.push(d)),
                Err(e) => Err(e),
            },
        }
    }
}

/// The first error settling a rule meets: bad hours, a season the
/// calendar lacks, a stance or need that doesn't resolve, a need condition
/// without a fraction (or fractions without a need, or off 0 to 1), or a
/// work type that doesn't resolve, among those it sets and then those it
/// shifts.
#[verifier::opaque]
pub open spec fn rule_error(ix: Seq<(Seq<char>, Seq<char>, DefId)>, seasons: Seq<Seq<char>>, r: RuleDef) -> Option<Seq<char>> {
    let ctx = rule_ctx(r.id@);
    if hours_bad(r.hours) {
        Some(
            ctx + ": hours are [from, to] within 0 to 24 and not equal, not ["@ + crate::text::decimal_spec(
                r.hours->Some_0.0 as nat,
            ) + ", "@ + crate::text::decimal_spec(r.hours->Some_0.1 as nat) + "]"@,
        )
    } else if seasons_result(seasons, id_views(r.season@), ctx, r.season@.len() as int) is Err {
        Some(seasons_result(seasons, id_views(r.season@), ctx, r.season@.len() as int)->Err_0)
    } else if rule_opt_ref(ix, "stance"@, r.stance, r.id@) is Err {
        Some(rule_opt_ref(ix, "stance"@, r.stance, r.id@)->Err_0)
    } else if rule_opt_ref(ix, "need"@, r.need, r.id@) is Err {
        Some(rule_opt_ref(ix, "need"@, r.need, r.id@)->Err_0)
    } else if (r.need is Some) != r.bounded || !r.fractions_ok {
        Some(ctx + ": a `need` condition takes `below` or `above`, a fraction of full from 0 to 1"@)
    } else if rule_refs(ix, "work_type"@, names_of(r.set@), r.id@, r.set@.len() as int) is Err {
        Some(rule_refs(ix, "work_type"@, names_of(r.set@), r.id@, r.set@.len() as int)->Err_0)
    } else if rule_refs(ix, "work_type"@, names_of(r.shift@), r.id@, r.shift@.len() as int) is Err {
        Some(rule_refs(ix, "work_type"@, names_of(r.shift@), r.id@, r.shift@.len() as int)->Err_0)
    } else {
        None
    }
}

/// Pairs ordered by their first part, then their second.
pub open spec fn pair_le(a: (int, int), b: (int, int)) -> bool {
    a.0 < b.0 || (a.0 == b.0 && a.1 <= b.1)
}

/// Levels by work type, in order.
pub open spec fn levels_sorted(s: Seq<(DefId, u8)>) -> bool {
    forall|i: int, j: int| 0 <= i < j < s.len() ==> pair_le((s[i].0 as int, s[i].1 as int), (s[j].0 as int, s[j].1 as int))
}

/// Shifts by work type, in order.
pub open spec fn shifts_sorted(s: Seq<(DefId, i32)>) -> bool {
    forall|i: int, j: int| 0 <= i < j < s.len() ==> pair_le((s[i].0 as int, s[i].1 as int), (s[j].0 as int, s[j].1 as int))
}

/// The levels a rule sets, each brought within a scale of `levels`.
pub open spec fn set_pairs(ids: Seq<DefId>, set: Seq<(String, u8)>, levels: u8) -> Seq<(DefId, u8)> {
    Seq::new(ids.len(), |i: int| (ids[i], crate::min_int(set[i].1 as int, levels as int) as u8))
}

/// The shifts a rule makes, each no wider than a scale of `levels`: a
/// shift past the whole scale does no more than crossing it.
pub open spec fn shift_pairs(ids: Seq<DefId>, shift: Seq<(String, i32)>, levels: u8) -> Seq<(DefId, i32)> {
    Seq::new(ids.len(), |i: int| (ids[i], crate::rules::clamp_int(shift[i].1 as int, -(levels as int), levels as int) as i32))
}

/// Appends the parts, with `sep` between each two.
pub(crate) fn append_joined(e: &mut String, parts: &[String], sep: &str)
    ensures
        final(e)@ == old(e)@ + crate::modloader::join(id_views(parts@), sep@),
{
    let ghost e0 = e@;
    let ghost ps = id_views(parts@);
    let mut t: usize = 0;
    proof {
        assert(ps.take(0) =~= Seq::<Seq<char>>::empty());
    }
    while t < parts.len()
        invariant
            t <= parts@.len(),
            ps == id_views(parts@),
            e@ == e0 + crate::modloader::join(ps.take(t as int), sep@),
        decreases parts@.len() - t,
    {
        proof {
            assert(ps.take(t + 1).drop_last() =~= ps.take(t as int));
            assert(ps.take(t + 1).last() == parts@[t as int]@);
        }
        if t > 0 {
            e.append(sep);
        }
        e.append(parts[t].as_str());
        proof {
            if t == 0 {
                assert(ps.take(0) =~= Seq::<Seq<char>>::empty());
                assert(crate::modloader::join(ps.take(1), sep@) == ps[0]);
                assert(e@ =~= e0 + ps[0]);
            } else {
                assert(e@ =~= e0 + crate::modloader::join(ps.take(t + 1), sep@));
            }
        }
        t += 1;
    }
    proof {
        assert(ps.take(t as int) =~= ps);
    }
}

/// Where a season's name first stands in the calendar.
fn find_season(seasons: &[String], n: &str) -> (r: Option<usize>)
    ensures
        match r {
            Some(i) => season_index(id_views(seasons@), n@) == Some(i as int),
            None => season_index(id_views(seasons@), n@) is None,
        },
{
    let ghost ss = id_views(seasons@);
    let mut i: usize = 0;
    while i < seasons.len()
        invariant
            i <= seasons@.len(),
            ss == id_views(seasons@),
            forall|j: int| 0 <= j < i ==> ss[j] != n@,
        decreases seasons@.len() - i,
    {
        if crate::text::str_eq(seasons[i].as_str(), n) {
            proof {
                assert(ss[i as int] == n@);
                let c = choose|c: int| 0 <= c < ss.len() && ss[c] == n@ && forall|j: int| 0 <= j < c ==> ss[j] != n@;
                assert(c == i as int) by {
                    if c > i {
                        assert(ss[i as int] == n@);
                    }
                }
            }
            return Some(i);
        }
        i += 1;
    }
    None
}

/// The error for a season the calendar lacks.
fn season_error(seasons: &[String], name: &str, ctx: &String) -> (e: String)
    ensures
        e@ == ctx@ + ": no season '"@ + name@ + "' in the calendar (there are: "@ + crate::modloader::join(id_views(seasons@), ", "@) + ")"@,
{
    let mut e = String::new();
    e.append(ctx.as_str());
    e.append(": no season '");
    e.append(name);
    e.append("' in the calendar (there are: ");
    append_joined(&mut e, seasons, ", ");
    e.append(")");
    e
}

/// The seasons a rule names, as places in the calendar.
fn settle_seasons(seasons: &[String], names: &[String], ctx: &String) -> (r: Result<Vec<u32>, String>)
    requires
        seasons@.len() <= u32::MAX + 1,
    ensures
        match (r, seasons_result(id_views(seasons@), id_views(names@), ctx@, names@.len() as int)) {
            (Ok(v), Ok(sv)) => v@ == sv,
            (Err(e), Err(se)) => e@ == se,
            _ => false,
        },
{
    let ghost ss = id_views(seasons@);
    let ghost ns = id_views(names@);
    let mut out: Vec<u32> = Vec::new();
    let mut k: usize = 0;
    while k < names.len()
        invariant
            k <= names@.len(),
            seasons@.len() <= u32::MAX + 1,
            ss == id_views(seasons@),
            ns == id_views(names@),
            seasons_result(ss, ns, ctx@, k as int) == Ok::<Seq<u32>, Seq<char>>(out@),
        decreases names@.len() - k,
    {
        let ghost before = out@;
        assert(ns[k as int] == names@[k as int]@);
        match find_season(seasons, names[k].as_str()) {
            Some(i) => {
                out.push(i as u32);
                assert(seasons_result(ss, ns, ctx@, k + 1) == Ok::<Seq<u32>, Seq<char>>(before.push(i as u32)));
            },
            None => {
                let e = season_error(seasons, names[k].as_str(), ctx);
                proof {
                    assert(seasons_result(ss, ns, ctx@, k + 1) == Err::<Seq<u32>, Seq<char>>(e@));
                    lemma_seasons_err_stays(ss, ns, ctx@, k + 1, names@.len() as int);
                }
                return Err(e);
            },
        }
        k += 1;
    }
    Ok(out)
}

/// Once settling the seasons fails, it fails the same way however many
/// names follow.
proof fn lemma_seasons_err_stays(seasons: Seq<Seq<char>>, names: Seq<Seq<char>>, ctx: Seq<char>, k: int, n: int)
    requires
        0 <= k <= n,
        seasons_result(seasons, names, ctx, k) is Err,
    ensures
        seasons_result(seasons, names, ctx, n) == seasons_result(seasons, names, ctx, k),
    decreases n - k,
{
    if n > k {
        lemma_seasons_err_stays(seasons, names, ctx, k, n - 1);
    }
}

/// A reference a rule makes, resolved in the rule's own mod.
fn settle_ref(index: &[(String, String, DefId)], kind: &str, name: &str, id: &str) -> (r: Result<DefId, String>)
    ensures
        match (r, rule_ref(index_view(index@), kind@, name@, id@)) {
            (Ok(d), Ok(sd)) => d == sd,
            (Err(e), Err(se)) => e@ == se,
            _ => false,
        },
{
    let home = home_of(id);
    match resolve_in(index, kind, name, home.as_str()) {
        Ok(d) => Ok(d),
        Err(e) => {
            let mut m = String::from_str("priority_rule/");
            m.append(id);
            m.append(": ");
            m.append(e.as_str());
            Err(m)
        },
    }
}

/// An optional reference a rule makes, resolved.
fn settle_opt_ref(index: &[(String, String, DefId)], kind: &str, name: &Option<String>, id: &str) -> (r: Result<Option<DefId>, String>)
    ensures
        match (r, rule_opt_ref(index_view(index@), kind@, *name, id@)) {
            (Ok(d), Ok(sd)) => d == sd,
            (Err(e), Err(se)) => e@ == se,
            _ => false,
        },
{
    match name {
        None => Ok(None),
        Some(n) => match settle_ref(index, kind, n.as_str(), id) {
            Ok(d) => Ok(Some(d)),
            Err(e) => Err(e),
        },
    }
}

/// The work types a rule lists, resolved in order.
fn settle_refs<T>(index: &[(String, String, DefId)], kind: &str, list: &[(String, T)], id: &str) -> (r: Result<Vec<DefId>, String>)
    ensures
        match (r, rule_refs(index_view(index@), kind@, names_of(list@), id@, list@.len() as int)) {
            (Ok(v), Ok(sv)) => v@ == sv,
            (Err(e), Err(se)) => e@ == se,
            _ => false,
        },
{
    let ghost ix = index_view(index@);
    let ghost ns = names_of(list@);
    let mut out: Vec<DefId> = Vec::new();
    let mut k: usize = 0;
    while k < list.len()
        invariant
            k <= list@.len(),
            ix == index_view(index@),
            ns == names_of(list@),
            rule_refs(ix, kind@, ns, id@, k as int) == Ok::<Seq<DefId>, Seq<char>>(out@),
        decreases list@.len() - k,
    {
        let ghost before = out@;
        assert(ns[k as int] == list@[k as int].0@);
        match settle_ref(index, kind, list[k].0.as_str(), id) {
            Ok(d) => {
                out.push(d);
                assert(rule_refs(ix, kind@, ns, id@, k + 1) == Ok::<Seq<DefId>, Seq<char>>(before.push(d)));
            },
            Err(e) => {
                proof {
                    assert(rule_refs(ix, kind@, ns, id@, k + 1) == Err::<Seq<DefId>, Seq<char>>(e@));
                    lemma_refs_err_stays(ix, kind@, ns, id@, k + 1, list@.len() as int);
                }
                return Err(e);
            },
        }
        k += 1;
    }
    Ok(out)
}

/// Once resolving a list fails, it fails the same way however long the
/// list goes on.
proof fn lemma_refs_err_stays(ix: Seq<(Seq<char>, Seq<char>, DefId)>, kind: Seq<char>, names: Seq<Seq<char>>, id: Seq<char>, k: int, n: int)
    requires
        0 <= k <= n,
        rule_refs(ix, kind, names, id, k) is Err,
    ensures
        rule_refs(ix, kind, names, id, n) == rule_refs(ix, kind, names, id, k),
    decreases n - k,
{
    if n > k {
        lemma_refs_err_stays(ix, kind, names, id, k, n - 1);
    }
}

/// Levels by work type, in work-type order (then by value).
fn sort_levels(v: Vec<(DefId, u8)>) -> (r: Vec<(DefId, u8)>)
    ensures
        levels_sorted(r@),
        r@.to_multiset() == v@.to_multiset(),
{
    let mut out: Vec<(DefId, u8)> = Vec::new();
    let mut i: usize = 0;
    assert(out@ =~= v@.take(0));
    while i < v.len()
        invariant
            i <= v@.len(),
            levels_sorted(out@),
            out@.to_multiset() == v@.take(i as int).to_multiset(),
        decreases v@.len() - i,
    {
        let x = v[i];
        let mut k: usize = 0;
        while k < out.len() && (out[k].0 < x.0 || (out[k].0 == x.0 && out[k].1 <= x.1))
            invariant
                k <= out@.len(),
                forall|j: int| 0 <= j < k ==> pair_le((out@[j].0 as int, out@[j].1 as int), (x.0 as int, x.1 as int)),
            decreases out@.len() - k,
        {
            k += 1;
        }
        let ghost o = out@;
        out.insert(k, x);
        proof {
            let n = out@;
            assert(n == o.insert(k as int, x));
            assert(levels_sorted(n)) by {
                assert forall|a: int, b: int| 0 <= a < b < n.len() implies pair_le((n[a].0 as int, n[a].1 as int), (n[b].0 as int, n[b].1 as int)) by {
                    if b < k {
                    } else if b == k {
                    } else if a < k {
                        assert(n[b] == o[b - 1]);
                        assert(pair_le((o[k as int].0 as int, o[k as int].1 as int), (o[b - 1].0 as int, o[b - 1].1 as int)) || b - 1 == k);
                    } else if a == k {
                        assert(n[b] == o[b - 1]);
                        assert(pair_le((o[k as int].0 as int, o[k as int].1 as int), (o[b - 1].0 as int, o[b - 1].1 as int)) || b - 1 == k);
                    } else {
                        assert(n[a] == o[a - 1] && n[b] == o[b - 1]);
                    }
                }
            }
            assert(v@.take(i + 1) =~= v@.take(i as int).push(x));
            vstd::seq_lib::to_multiset_insert(o, k as int, x);
            vstd::seq_lib::to_multiset_build(v@.take(i as int), x);
        }
        i += 1;
    }
    assert(v@.take(i as int) =~= v@);
    out
}

/// Shifts by work type, in work-type order (then by value).
fn sort_shifts(v: Vec<(DefId, i32)>) -> (r: Vec<(DefId, i32)>)
    ensures
        shifts_sorted(r@),
        r@.to_multiset() == v@.to_multiset(),
{
    let mut out: Vec<(DefId, i32)> = Vec::new();
    let mut i: usize = 0;
    assert(out@ =~= v@.take(0));
    while i < v.len()
        invariant
            i <= v@.len(),
            shifts_sorted(out@),
            out@.to_multiset() == v@.take(i as int).to_multiset(),
        decreases v@.len() - i,
    {
        let x = v[i];
        let mut k: usize = 0;
        while k < out.len() && (out[k].0 < x.0 || (out[k].0 == x.0 && out[k].1 <= x.1))
            invariant
                k <= out@.len(),
                forall|j: int| 0 <= j < k ==> pair_le((out@[j].0 as int, out@[j].1 as int), (x.0 as int, x.1 as int)),
            decreases out@.len() - k,
        {
            k += 1;
        }
        let ghost o = out@;
        out.insert(k, x);
        proof {
            let n = out@;
            assert(n == o.insert(k as int, x));
            assert(shifts_sorted(n)) by {
                assert forall|a: int, b: int| 0 <= a < b < n.len() implies pair_le((n[a].0 as int, n[a].1 as int), (n[b].0 as int, n[b].1 as int)) by {
                    if b < k {
                    } else if b == k {
                    } else if a < k {
                        assert(n[b] == o[b - 1]);
                        assert(pair_le((o[k as int].0 as int, o[k as int].1 as int), (o[b - 1].0 as int, o[b - 1].1 as int)) || b - 1 == k);
                    } else if a == k {
                        assert(n[b] == o[b - 1]);
                        assert(pair_le((o[k as int].0 as int, o[k as int].1 as int), (o[b - 1].0 as int, o[b - 1].1 as int)) || b - 1 == k);
                    } else {
                        assert(n[a] == o[a - 1] && n[b] == o[b - 1]);
                    }
                }
            }
            assert(v@.take(i + 1) =~= v@.take(i as int).push(x));
            vstd::seq_lib::to_multiset_insert(o, k as int, x);
            vstd::seq_lib::to_multiset_build(v@.take(i as int), x);
        }
        i += 1;
    }
    assert(v@.take(i as int) =~= v@);
    out
}

/// What settling rule `r` gives, when it settles: its hours as given, its
/// seasons as places in the calendar, its stance and need resolved, and
/// its levels and shifts resolved, brought within the scale and in
/// work-type order.
#[verifier::opaque]
pub open spec fn settled_as(ix: Seq<(Seq<char>, Seq<char>, DefId)>, seasons: Seq<Seq<char>>, levels: u8, r: RuleDef, sr: SettledRule) -> bool {
    &&& sr.when.hours == r.hours
    &&& sr.when.season_r@ == seasons_result(seasons, id_views(r.season@), rule_ctx(r.id@), r.season@.len() as int)->Ok_0
    &&& sr.when.stance_r == rule_opt_ref(ix, "stance"@, r.stance, r.id@)->Ok_0
    &&& sr.need_r == rule_opt_ref(ix, "need"@, r.need, r.id@)->Ok_0
    &&& levels_sorted(sr.set_r@)
    &&& sr.set_r@.to_multiset() == set_pairs(
        rule_refs(ix, "work_type"@, names_of(r.set@), r.id@, r.set@.len() as int)->Ok_0,
        r.set@,
        levels,
    ).to_multiset()
    &&& forall|i: int| 0 <= i < sr.set_r@.len() ==> (#[trigger] sr.set_r@[i]).1 <= levels
    &&& shifts_sorted(sr.shift_r@)
    &&& forall|i: int| 0 <= i < sr.shift_r@.len() ==> -levels <= (#[trigger] sr.shift_r@[i]).1 <= levels
    &&& sr.shift_r@.to_multiset() == shift_pairs(
        rule_refs(ix, "work_type"@, names_of(r.shift@), r.id@, r.shift@.len() as int)->Ok_0,
        r.shift@,
        levels,
    ).to_multiset()
}

/// Settles a priority rule: checks its hours, finds its seasons among the
/// calendar's (`seasons`), resolves its stance, its need and the work
/// types it sets and shifts in its own mod, checks its need condition,
/// brings each level within a scale of `levels` and each shift to no
/// wider than the scale, and puts both lists in work-type order.
pub fn settle_rule(index: &[(String, String, DefId)], seasons: &[String], levels: u8, r: &RuleDef) -> (res: Result<SettledRule, String>)
    requires
        seasons@.len() <= u32::MAX + 1,
    ensures
        match res {
            Err(e) => rule_error(index_view(index@), id_views(seasons@), *r) == Some(e@),
            Ok(sr) => rule_error(index_view(index@), id_views(seasons@), *r) is None && settled_as(index_view(index@), id_views(seasons@), levels, *r, sr),
        },
{
    reveal(rule_error);
    let mut ctx = String::from_str("priority_rule/");
    ctx.append(r.id.as_str());
    if let Some((a, b)) = r.hours {
        if a > 23 || b > 24 || a == b {
            let mut e = ctx.clone();
            e.append(": hours are [from, to] within 0 to 24 and not equal, not [");
            e.append(crate::text::decimal(a as u64).as_str());
            e.append(", ");
            e.append(crate::text::decimal(b as u64).as_str());
            e.append("]");
            return Err(e);
        }
    }
    let season_r = settle_seasons(seasons, r.season.as_slice(), &ctx)?;
    let stance_r = settle_opt_ref(index, "stance", &r.stance, r.id.as_str())?;
    let need_r = settle_opt_ref(index, "need", &r.need, r.id.as_str())?;
    if r.need.is_some() != r.bounded || !r.fractions_ok {
        let mut e = ctx.clone();
        e.append(": a `need` condition takes `below` or `above`, a fraction of full from 0 to 1");
        return Err(e);
    }
    let set_ids = settle_refs(index, "work_type", r.set.as_slice(), r.id.as_str())?;
    let shift_ids = settle_refs(index, "work_type", r.shift.as_slice(), r.id.as_str())?;
    let ghost ids = set_ids@;
    proof {
        lemma_refs_len(index_view(index@), "work_type"@, names_of(r.set@), r.id@, r.set@.len() as int);
        lemma_refs_len(index_view(index@), "work_type"@, names_of(r.shift@), r.id@, r.shift@.len() as int);
    }
    let mut set_r: Vec<(DefId, u8)> = Vec::new();
    let mut k: usize = 0;
    while k < set_ids.len()
        invariant
            k <= set_ids@.len(),
            set_ids@ == ids,
            ids.len() == r.set@.len(),
            set_r@ == set_pairs(ids, r.set@, levels).take(k as int),
        decreases set_ids@.len() - k,
    {
        let l = r.set[k].1;
        set_r.push((set_ids[k], if l < levels { l } else { levels }));
        assert(set_r@ =~= set_pairs(ids, r.set@, levels).take(k + 1));
        k += 1;
    }
    assert(set_r@ =~= set_pairs(ids, r.set@, levels));
    let ghost sids = shift_ids@;
    let span: i32 = levels as i32;
    let mut shift_r: Vec<(DefId, i32)> = Vec::new();
    let mut k: usize = 0;
    while k < shift_ids.len()
        invariant
            k <= shift_ids@.len(),
            shift_ids@ == sids,
            sids.len() == r.shift@.len(),
            span == levels,
            shift_r@ == shift_pairs(sids, r.shift@, levels).take(k as int),
        decreases shift_ids@.len() - k,
    {
        let d = r.shift[k].1;
        shift_r.push((shift_ids[k], if d < -span { -span } else if d > span { span } else { d }));
        assert(shift_r@ =~= shift_pairs(sids, r.shift@, levels).take(k + 1));
        k += 1;
    }
    assert(shift_r@ =~= shift_pairs(sids, r.shift@, levels));
    let set_sorted = sort_levels(set_r);
    let shift_sorted = sort_shifts(shift_r);
    proof {
        broadcast use vstd::seq_lib::group_to_multiset_ensures;

        assert forall|i: int| 0 <= i < set_sorted@.len() implies (#[trigger] set_sorted@[i]).1 <= levels by {
            assert(set_sorted@.contains(set_sorted@[i]));
            assert(set_r@.to_multiset().count(set_sorted@[i]) > 0);
            let j = choose|j: int| 0 <= j < set_r@.len() && set_r@[j] == set_sorted@[i];
        }
        assert forall|i: int| 0 <= i < shift_sorted@.len() implies -levels <= (#[trigger] shift_sorted@[i]).1 <= levels by {
            assert(shift_sorted@.contains(shift_sorted@[i]));
            assert(shift_r@.to_multiset().count(shift_sorted@[i]) > 0);
            let j = choose|j: int| 0 <= j < shift_r@.len() && shift_r@[j] == shift_sorted@[i];
        }
    }
    let sr = SettledRule {
        when: crate::rules::ColonyWhen { hours: r.hours, season_r, stance_r },
        need_r,
        set_r: set_sorted,
        shift_r: shift_sorted,
    };
    proof {
        reveal(settled_as);
    }
    Ok(sr)
}

/// Resolving a list yields one def for each reference.
proof fn lemma_refs_len(ix: Seq<(Seq<char>, Seq<char>, DefId)>, kind: Seq<char>, names: Seq<Seq<char>>, id: Seq<char>, k: int)
    requires
        k >= 0,
        rule_refs(ix, kind, names, id, k) is Ok,
    ensures
        rule_refs(ix, kind, names, id, k)->Ok_0.len() == k,
    decreases k,
{
    if k > 0 {
        lemma_refs_len(ix, kind, names, id, k - 1);
    }
}

/// The rules settled, and whether any reads the hour or the season, so
/// the colony's rules need be worked out again only when what they read
/// changes.
#[derive(Clone, Debug)]
pub struct RuleSetup {
    pub rules: Vec<SettledRule>,
    pub read_hour: bool,
    pub read_season: bool,
}

/// The first error settling the first `k` rules meets.
pub open spec fn rules_error(ix: Seq<(Seq<char>, Seq<char>, DefId)>, seasons: Seq<Seq<char>>, rs: Seq<RuleDef>, k: int) -> Option<Seq<char>>
    decreases k,
{
    if k <= 0 {
        None
    } else {
        match rules_error(ix, seasons, rs, k - 1) {
            Some(e) => Some(e),
            None => rule_error(ix, seasons, rs[k - 1]),
        }
    }
}

/// Settles every priority rule, in load order, stopping at the first that
/// doesn't settle.
pub fn settle_rules(index: &[(String, String, DefId)], seasons: &[String], levels: u8, rules: &[RuleDef]) -> (res: Result<RuleSetup, String>)
    requires
        seasons@.len() <= u32::MAX + 1,
    ensures
        match res {
            Err(e) => rules_error(index_view(index@), id_views(seasons@), rules@, rules@.len() as int) == Some(e@),
            Ok(setup) => {
                &&& rules_error(index_view(index@), id_views(seasons@), rules@, rules@.len() as int) is None
                &&& setup.rules@.len() == rules@.len()
                &&& forall|i: int| 0 <= i < rules@.len() ==> settled_as(index_view(index@), id_views(seasons@), levels, rules@[i], #[trigger] setup.rules@[i])
                &&& setup.read_hour == exists|i: int| 0 <= i < rules@.len() && (#[trigger] rules@[i]).hours is Some
                &&& setup.read_season == exists|i: int| 0 <= i < rules@.len() && (#[trigger] rules@[i]).season@.len() > 0
            },
        },
{
    let ghost ix = index_view(index@);
    let ghost ss = id_views(seasons@);
    let mut out: Vec<SettledRule> = Vec::new();
    let mut read_hour = false;
    let mut read_season = false;
    let mut k: usize = 0;
    while k < rules.len()
        invariant
            k <= rules@.len(),
            seasons@.len() <= u32::MAX + 1,
            ix == index_view(index@),
            ss == id_views(seasons@),
            rules_error(ix, ss, rules@, k as int) is None,
            out@.len() == k,
            forall|i: int| 0 <= i < k ==> settled_as(ix, ss, levels, rules@[i], #[trigger] out@[i]),
            read_hour == exists|i: int| 0 <= i < k && (#[trigger] rules@[i]).hours is Some,
            read_season == exists|i: int| 0 <= i < k && (#[trigger] rules@[i]).season@.len() > 0,
        decreases rules@.len() - k,
    {
        match settle_rule(index, seasons, levels, &rules[k]) {
            Ok(sr) => {
                let r = &rules[k];
                if r.hours.is_some() {
                    read_hour = true;
                }
                if r.season.len() > 0 {
                    read_season = true;
                }
                out.push(sr);
                proof {
                    assert(rules_error(ix, ss, rules@, k + 1) is None);
                    assert forall|i: int| 0 <= i < k + 1 implies settled_as(ix, ss, levels, rules@[i], #[trigger] out@[i]) by {
                        if i < k {
                        }
                    }
                    assert(read_hour == exists|i: int| 0 <= i < k + 1 && (#[trigger] rules@[i]).hours is Some) by {
                        if rules@[k as int].hours is Some {
                            assert(rules@[k as int].hours is Some);
                        }
                    }
                    assert(read_season == exists|i: int| 0 <= i < k + 1 && (#[trigger] rules@[i]).season@.len() > 0) by {
                        if rules@[k as int].season@.len() > 0 {
                            assert(rules@[k as int].season@.len() > 0);
                        }
                    }
                }
            },
            Err(e) => {
                proof {
                    lemma_rules_err_stays(ix, ss, rules@, k + 1, rules@.len() as int);
                }
                return Err(e);
            },
        }
        k += 1;
    }
    Ok(RuleSetup { rules: out, read_hour, read_season })
}

/// Once settling the rules fails, it fails the same way however many
/// rules follow.
proof fn lemma_rules_err_stays(ix: Seq<(Seq<char>, Seq<char>, DefId)>, seasons: Seq<Seq<char>>, rs: Seq<RuleDef>, k: int, n: int)
    requires
        0 <= k <= n,
        rules_error(ix, seasons, rs, k) is Some,
    ensures
        rules_error(ix, seasons, rs, n) == rules_error(ix, seasons, rs, k),
    decreases n - k,
{
    if n > k {
        lemma_rules_err_stays(ix, seasons, rs, k, n - 1);
    }
}

} // verus!
