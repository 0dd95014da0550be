//! Restoring a snapshot across a change of defs: the format check, and the
//! map's ground mapped onto the defs loaded now, with a note of what was
//! lost.
use vstd::prelude::*;
use crate::defs::DefId;
use crate::modloader::{text_lt, text_less, lemma_text_lt_irrefl, lemma_text_lt_trans, lemma_text_lt_total};
use crate::snapshot::{Remap, remap_get, remap_name, FORMAT};
use crate::text::str_eq;
use crate::world::{Job, Lot, Pawn};

verus! {

/// Reads only the save format this build writes.
pub fn check_format(format: u32) -> (r: Result<(), String>)
    ensures
        r is Ok <==> format == FORMAT,
        r matches Err(e) ==> e@ == "save format "@ + crate::text::decimal_spec(format as nat) + " (this build reads "@
            + crate::text::decimal_spec(FORMAT as nat) + ")"@,
{
    if format == FORMAT {
        return Ok(());
    }
    let mut e = String::from_str("save format ");
    e.append(crate::text::decimal(format as u64).as_str());
    e.append(" (this build reads ");
    e.append(crate::text::decimal(FORMAT as u64).as_str());
    e.append(")");
    Err(e)
}

/// Saved terrain `t` is still there now, among `kinds` terrains.
pub open spec fn terrain_kept(r: Remap, kinds: int, t: DefId) -> bool {
    remap_get(r.map_view(), "terrain"@, t) matches Some(d) && d < kinds
}

/// The terrain a saved cell of terrain `t` has now: its own, or the first
/// terrain there is when its own is gone.
pub open spec fn terrain_now(r: Remap, kinds: int, t: DefId) -> DefId {
    if terrain_kept(r, kinds, t) {
        remap_get(r.map_view(), "terrain"@, t)->Some_0
    } else {
        0
    }
}

/// How many of the first `n` cells lost their terrain, named `x` in the
/// save.
pub open spec fn lost_count(r: Remap, kinds: int, terrain: Seq<DefId>, x: Seq<char>, n: int) -> int
    decreases n,
{
    if n <= 0 {
        0
    } else {
        lost_count(r, kinds, terrain, x, n - 1) + if !terrain_kept(r, kinds, terrain[n - 1]) && remap_name(
            r.saved_view(),
            "terrain"@,
            terrain[n - 1],
        ) == x {
            1int
        } else {
            0int
        }
    }
}

/// The lost terrains, each by its saved name, once, in name order, with
/// how many of the first `n` cells had it.
pub open spec fn lost_ok(r: Remap, kinds: int, terrain: Seq<DefId>, lost: Seq<(Seq<char>, u32)>, n: int) -> bool {
    &&& forall|a: int, b: int| 0 <= a < b < lost.len() ==> text_lt(#[trigger] lost[a].0, #[trigger] lost[b].0)
    &&& forall|j: int| 0 <= j < lost.len() ==> (#[trigger] lost[j]).1 == lost_count(r, kinds, terrain, lost[j].0, n)
        && lost[j].1 > 0
    &&& forall|x: Seq<char>| #[trigger] lost_count(r, kinds, terrain, x, n) > 0 ==> exists|j: int| 0 <= j < lost.len() && #[trigger] lost[j].0 == x
}

/// The lost terrains as text and counts.
pub open spec fn lost_views(v: Seq<(String, u32)>) -> Seq<(Seq<char>, u32)> {
    v.map_values(|p: (String, u32)| (p.0@, p.1))
}

/// A count never goes above the cells counted.
proof fn lemma_lost_count_bound(r: Remap, kinds: int, terrain: Seq<DefId>, x: Seq<char>, n: int)
    requires
        n >= 0,
    ensures
        0 <= lost_count(r, kinds, terrain, x, n) <= n,
    decreases n,
{
    if n > 0 {
        lemma_lost_count_bound(r, kinds, terrain, x, n - 1);
    }
}

/// The saved map's ground on the defs loaded now (`kinds` terrains, at
/// least one): each cell keeps its terrain if it is still there, else
/// gets the first terrain. Also the terrains lost, by saved name in name
/// order, with how many cells had each. The saved map must have one entry
/// per cell.
pub fn remap_terrain(remap: &Remap, terrain: &[DefId], kinds: usize, cells: usize) -> (r: Result<(Vec<DefId>, Vec<(String, u32)>), String>)
    requires
        kinds >= 1,
        terrain@.len() <= u32::MAX,
    ensures
        r is Err <==> terrain@.len() != cells,
        r matches Err(e) ==> e@ == "engine:map doesn't match the map's size"@,
        r matches Ok((now, lost)) ==> {
            &&& now@.len() == terrain@.len()
            &&& forall|i: int| 0 <= i < terrain@.len() ==> #[trigger] now@[i] == terrain_now(*remap, kinds as int, terrain@[i])
            &&& lost_ok(*remap, kinds as int, terrain@, lost_views(lost@), terrain@.len() as int)
        },
{
    if terrain.len() != cells {
        return Err(String::from_str("engine:map doesn't match the map's size"));
    }
    let mut now: Vec<DefId> = Vec::new();
    let mut lost: Vec<(String, u32)> = Vec::new();
    let mut i: usize = 0;
    while i < terrain.len()
        invariant
            i <= terrain@.len(),
            terrain@.len() <= u32::MAX,
            kinds >= 1,
            now@.len() == i,
            forall|m: int| 0 <= m < i ==> #[trigger] now@[m] == terrain_now(*remap, kinds as int, terrain@[m]),
            lost_ok(*remap, kinds as int, terrain@, lost_views(lost@), i as int),
        decreases terrain@.len() - i,
    {
        let t = terrain[i];
        let ghost lv0 = lost_views(lost@);
        match remap.get("terrain", t) {
            Some(d) if (d as usize) < kinds => {
                now.push(d);
                proof {
                    assert(terrain_kept(*remap, kinds as int, t));
                    assert forall|x: Seq<char>| #[trigger] lost_count(*remap, kinds as int, terrain@, x, i + 1) == lost_count(*remap, kinds as int, terrain@, x, i as int) by {}
                }
            },
            _ => {
                now.push(0);
                let name = remap.name("terrain", t);
                proof {
                    assert(!terrain_kept(*remap, kinds as int, t));
                    assert forall|x: Seq<char>| #[trigger] lost_count(*remap, kinds as int, terrain@, x, i + 1) == lost_count(*remap, kinds as int, terrain@, x, i as int) + if x == name@ { 1int } else { 0int } by {}
                    lemma_lost_count_bound(*remap, kinds as int, terrain@, name@, i as int);
                }
                proof {
                    assert forall|a: int, b: int| 0 <= a < b < lost@.len() implies text_lt(#[trigger] lost@[a].0@, #[trigger] lost@[b].0@) by {
                        assert(lv0[a].0 == lost@[a].0@ && lv0[b].0 == lost@[b].0@);
                    }
                    assert forall|j: int| 0 <= j < lost@.len() && lost@[j].0@ == name@ implies (#[trigger] lost@[j]).1 < u32::MAX by {
                        assert(lv0[j] == (lost@[j].0@, lost@[j].1));
                    }
                }
                let ghost o = lost@;
                count_lost(&mut lost, name);
                proof {
                    let lv = lost_views(lost@);
                    let old_count: int = if exists|q: int| 0 <= q < o.len() && o[q].0@ == name@ {
                        o[choose|q: int| 0 <= q < o.len() && o[q].0@ == name@].1 as int
                    } else {
                        0int
                    };
                    assert(old_count == lost_count(*remap, kinds as int, terrain@, name@, i as int)) by {
                        if exists|q: int| 0 <= q < o.len() && o[q].0@ == name@ {
                            let q = choose|q: int| 0 <= q < o.len() && o[q].0@ == name@;
                            assert(lv0[q] == (o[q].0@, o[q].1));
                        } else if lost_count(*remap, kinds as int, terrain@, name@, i as int) > 0 {
                            let j = choose|j: int| 0 <= j < lv0.len() && #[trigger] lv0[j].0 == name@;
                            assert(o[j].0@ == name@);
                        }
                    }
                    assert forall|j: int| 0 <= j < lv.len() implies (#[trigger] lv[j]).1 == lost_count(*remap, kinds as int, terrain@, lv[j].0, i + 1) && lv[j].1 > 0 by {
                        assert(lv[j] == (lost@[j].0@, lost@[j].1));
                        if lv[j].0 != name@ {
                            assert(lv0.contains(lv[j]));
                            let q = choose|q: int| 0 <= q < lv0.len() && lv0[q] == lv[j];
                        }
                    }
                    assert forall|x: Seq<char>| #[trigger] lost_count(*remap, kinds as int, terrain@, x, i + 1) > 0 implies exists|j: int| 0 <= j < lv.len() && #[trigger] lv[j].0 == x by {
                        if x != name@ {
                            let q = choose|q: int| 0 <= q < lv0.len() && #[trigger] lv0[q].0 == x;
                            assert(o[q].0@ != name@);
                            assert(lv.contains(lost_views(o)[q]));
                            let j = choose|j: int| 0 <= j < lv.len() && lv[j] == lost_views(o)[q];
                            assert(lv[j].0 == x);
                        } else {
                            let j = choose|j: int| 0 <= j < lost@.len() && (#[trigger] lost@[j]).0@ == name@;
                            assert(lv[j].0 == x);
                        }
                    }
                }
            },
        }
        i += 1;
    }
    Ok((now, lost))
}

/// Counts one more cell of lost terrain `name` in a list sorted by name:
/// one more on its entry, or a new entry of 1 in its place.
fn count_lost(lost: &mut Vec<(String, u32)>, name: &str)
    requires
        forall|a: int, b: int| 0 <= a < b < old(lost)@.len() ==> text_lt(#[trigger] old(lost)@[a].0@, #[trigger] old(lost)@[b].0@),
        forall|j: int| 0 <= j < old(lost)@.len() && old(lost)@[j].0@ == name@ ==> (#[trigger] old(lost)@[j]).1 < u32::MAX,
    ensures
        forall|a: int, b: int| 0 <= a < b < final(lost)@.len() ==> text_lt(#[trigger] final(lost)@[a].0@, #[trigger] final(lost)@[b].0@),
        exists|j: int| 0 <= j < final(lost)@.len() && (#[trigger] final(lost)@[j]).0@ == name@,
        forall|j: int| 0 <= j < final(lost)@.len() ==> {
            let e = #[trigger] final(lost)@[j];
            if e.0@ == name@ {
                e.1 == 1 + (if exists|q: int| 0 <= q < old(lost)@.len() && old(lost)@[q].0@ == name@ {
                    old(lost)@[choose|q: int| 0 <= q < old(lost)@.len() && old(lost)@[q].0@ == name@].1 as int
                } else {
                    0int
                })
            } else {
                lost_views(old(lost)@).contains((e.0@, e.1))
            }
        },
        forall|q: int| 0 <= q < old(lost)@.len() && old(lost)@[q].0@ != name@ ==> lost_views(final(lost)@).contains(
            #[trigger] lost_views(old(lost)@)[q],
        ),
{
    let ghost o = lost@;
    let mut p: usize = 0;
    while p < lost.len() && text_less(lost[p].0.as_str(), name)
        invariant
            p <= lost@.len(),
            lost@ == o,
            forall|q: int| 0 <= q < p ==> text_lt(#[trigger] o[q].0@, name@),
        decreases lost@.len() - p,
    {
        p += 1;
    }
    if p < lost.len() && str_eq(lost[p].0.as_str(), name) {
        let (n, c) = lost.remove(p);
        lost.insert(p, (n, c + 1));
        proof {
            let f = lost@;
            assert(f == o.update(p as int, (o[p as int].0, (o[p as int].1 + 1) as u32)));
            assert forall|q: int| 0 <= q < o.len() && o[q].0@ == name@ implies q == p by {
                if q < p {
                    lemma_text_lt_irrefl(name@);
                } else if q > p {
                    lemma_text_lt_irrefl(name@);
                }
            }
            assert forall|j: int| 0 <= j < f.len() implies {
                let e = #[trigger] f[j];
                if e.0@ == name@ {
                    e.1 == 1 + (if exists|q: int| 0 <= q < o.len() && o[q].0@ == name@ {
                        o[choose|q: int| 0 <= q < o.len() && o[q].0@ == name@].1 as int
                    } else {
                        0int
                    })
                } else {
                    lost_views(o).contains((e.0@, e.1))
                }
            } by {
                if f[j].0@ != name@ {
                    assert(lost_views(o)[j] == (f[j].0@, f[j].1));
                }
            }
            assert forall|q: int| 0 <= q < o.len() && o[q].0@ != name@ implies lost_views(f).contains(#[trigger] lost_views(o)[q]) by {
                assert(lost_views(f)[q] == lost_views(o)[q]);
            }
            assert(f[p as int].0@ == name@);
        }
    } else {
        proof {
            assert forall|q: int| 0 <= q < o.len() implies o[q].0@ != name@ by {
                if q < p {
                    lemma_text_lt_irrefl(name@);
                } else if q >= p {
                    // `o[p]` comes after `name`, and so does everything past it.
                    lemma_text_lt_total(o[p as int].0@, name@);
                    if q > p {
                        if o[q].0@ == name@ {
                            lemma_text_lt_trans(o[p as int].0@, o[q].0@, name@);
                            lemma_text_lt_irrefl(name@);
                        }
                    }
                }
            }
        }
        lost.insert(p, (String::from_str(name), 1));
        proof {
            let f = lost@;
            assert(f == o.insert(p as int, (f[p as int].0, 1u32)));
            assert forall|a: int, b: int| 0 <= a < b < f.len() implies text_lt(#[trigger] f[a].0@, #[trigger] f[b].0@) by {
                if p < o.len() {
                    lemma_text_lt_total(o[p as int].0@, name@);
                }
                if b < p {
                } else if b == p {
                } else if a < p {
                    assert(f[b] == o[b - 1]);
                    if b - 1 > p {
                        lemma_text_lt_trans(name@, o[p as int].0@, o[b - 1].0@);
                    }
                    lemma_text_lt_trans(f[a].0@, name@, f[b].0@);
                } else if a == p {
                    assert(f[b] == o[b - 1]);
                    if b - 1 > p {
                        lemma_text_lt_trans(name@, o[p as int].0@, o[b - 1].0@);
                    }
                } else {
                    assert(f[a] == o[a - 1] && f[b] == o[b - 1]);
                }
            }
            assert forall|j: int| 0 <= j < f.len() implies {
                let e = #[trigger] f[j];
                if e.0@ == name@ {
                    e.1 == 1 + (if exists|q: int| 0 <= q < o.len() && o[q].0@ == name@ {
                        o[choose|q: int| 0 <= q < o.len() && o[q].0@ == name@].1 as int
                    } else {
                        0int
                    })
                } else {
                    lost_views(o).contains((e.0@, e.1))
                }
            } by {
                if j < p {
                    assert(lost_views(o)[j] == (f[j].0@, f[j].1));
                } else if j > p {
                    assert(lost_views(o)[j - 1] == (f[j].0@, f[j].1));
                }
            }
            assert forall|q: int| 0 <= q < o.len() && o[q].0@ != name@ implies lost_views(f).contains(#[trigger] lost_views(o)[q]) by {
                if q < p {
                    assert(lost_views(f)[q] == lost_views(o)[q]);
                } else {
                    assert(lost_views(f)[q + 1] == lost_views(o)[q]);
                }
            }
            assert(f[p as int].0@ == name@);
        }
    }
}

/// What a restore notes of the lost terrains: for each, in order, how
/// many cells of it became `first`, the first terrain there is now.
pub fn lost_notes(lost: &[(String, u32)], first: &str) -> (r: Vec<String>)
    ensures
        r@.len() == lost@.len(),
        forall|j: int|
            0 <= j < lost@.len() ==> (#[trigger] r@[j])@ == crate::text::decimal_spec(lost@[j].1 as nat) + " cells of "@
                + lost@[j].0@ + " became "@ + first@,
{
    let mut out: Vec<String> = Vec::new();
    let mut j: usize = 0;
    while j < lost.len()
        invariant
            j <= lost@.len(),
            out@.len() == j,
            forall|m: int|
                0 <= m < j ==> (#[trigger] out@[m])@ == crate::text::decimal_spec(lost@[m].1 as nat) + " cells of "@
                    + lost@[m].0@ + " became "@ + first@,
        decreases lost@.len() - j,
    {
        let mut n = crate::text::decimal(lost[j].1 as u64);
        n.append(" cells of ");
        n.append(lost[j].0.as_str());
        n.append(" became ");
        n.append(first);
        out.push(n);
        j += 1;
    }
    out
}

// ---------------------------------------------------------------- pawns

/// A pawn's needs with their ids mapped; those whose need is gone are left
/// out.
pub open spec fn needs_kept(m: Option<Seq<(Seq<char>, Seq<Option<DefId>>)>>, needs: Seq<(DefId, i32)>) -> Seq<(DefId, i32)>
    decreases needs.len(),
{
    if needs.len() == 0 {
        Seq::empty()
    } else {
        let rest = needs_kept(m, needs.drop_last());
        match remap_get(m, "need"@, needs.last().0) {
            Some(n) => rest.push((n, needs.last().1)),
            None => rest,
        }
    }
}

/// What is noted of the needs that are gone: `need <id>` for each, in order.
pub open spec fn needs_lost(
    m: Option<Seq<(Seq<char>, Seq<Option<DefId>>)>>,
    saved: Seq<(Seq<char>, Seq<Seq<char>>)>,
    needs: Seq<(DefId, i32)>,
) -> Seq<Seq<char>>
    decreases needs.len(),
{
    if needs.len() == 0 {
        Seq::empty()
    } else {
        let rest = needs_lost(m, saved, needs.drop_last());
        match remap_get(m, "need"@, needs.last().0) {
            Some(_) => rest,
            None => rest.push("need "@ + remap_name(saved, "need"@, needs.last().0)),
        }
    }
}

/// What a pawn carries, with its thing mapped; nothing where the thing is
/// gone.
pub open spec fn carry_after(m: Option<Seq<(Seq<char>, Seq<Option<DefId>>)>>, c: Option<Lot>) -> Option<Lot> {
    match c {
        Some(l) => match remap_get(m, "thing"@, l.def) {
            Some(now) => Some(Lot { def: now, ..l }),
            None => None,
        },
        None => None,
    }
}

/// What is noted of a carried thing that is gone.
pub open spec fn carry_lost(
    m: Option<Seq<(Seq<char>, Seq<Option<DefId>>)>>,
    saved: Seq<(Seq<char>, Seq<Seq<char>>)>,
    c: Option<Lot>,
) -> Seq<Seq<char>> {
    match c {
        Some(l) => match remap_get(m, "thing"@, l.def) {
            Some(_) => Seq::empty(),
            None => seq!["carried "@ + remap_name(saved, "thing"@, l.def)],
        },
        None => Seq::empty(),
    }
}

/// A pawn resting for a need keeps resting for it under its new id; if the
/// need is gone it stands idle.
pub open spec fn job_after(m: Option<Seq<(Seq<char>, Seq<Option<DefId>>)>>, j: Job) -> Job {
    match j {
        Job::Comfort { to, need, until } => match remap_get(m, "need"@, need) {
            Some(n) => Job::Comfort { to, need: n, until },
            None => Job::Idle,
        },
        _ => j,
    }
}

/// What is noted of a pawn whose creature is gone: its saved id and name.
pub open spec fn pawn_lost(saved: Seq<(Seq<char>, Seq<Seq<char>>)>, p: Pawn) -> Seq<char> {
    remap_name(saved, "creature"@, p.def) + " ("@ + p.name@ + ")"@
}

/// A saved pawn under the defs loaded now. Where its creature is gone the
/// pawn is dropped (`false`) and noted; else its creature, needs, carried
/// thing and the need it rests for take their new ids, and what of them is
/// gone is noted in `dropped` and left out.
pub fn remap_pawn(remap: &Remap, p: &mut Pawn, dropped: &mut Vec<String>) -> (kept: bool)
    ensures
        kept == remap_get(remap.map_view(), "creature"@, old(p).def) is Some,
        !kept ==> *final(p) == *old(p),
        !kept ==> crate::snapshot::id_views(final(dropped)@) == crate::snapshot::id_views(old(dropped)@).push(
            pawn_lost(remap.saved_view(), *old(p)),
        ),
        kept ==> final(p).needs@ == needs_kept(remap.map_view(), old(p).needs@),
        kept ==> *final(p) == (Pawn {
            def: remap_get(remap.map_view(), "creature"@, old(p).def).unwrap(),
            needs: final(p).needs,
            carry: carry_after(remap.map_view(), old(p).carry),
            job: job_after(remap.map_view(), old(p).job),
            ..*old(p)
        }),
        kept ==> crate::snapshot::id_views(final(dropped)@) == crate::snapshot::id_views(old(dropped)@)
            + needs_lost(remap.map_view(), remap.saved_view(), old(p).needs@)
            + carry_lost(remap.map_view(), remap.saved_view(), old(p).carry),
{
    let ghost m = remap.map_view();
    let ghost saved = remap.saved_view();
    let ghost d0 = dropped@;
    let def = match remap.get("creature", p.def) {
        Some(d) => d,
        None => {
            let mut l = String::new();
            l.append(remap.name("creature", p.def));
            l.append(" (");
            l.append(p.name.as_str());
            l.append(")");
            dropped.push(l);
            proof {
                assert(crate::snapshot::id_views(dropped@) =~= crate::snapshot::id_views(d0).push(
                    pawn_lost(saved, *old(p)),
                ));
            }
            return false;
        },
    };
    p.def = def;
    let mut needs: Vec<(DefId, i32)> = Vec::new();
    let mut k: usize = 0;
    while k < p.needs.len()
        invariant
            k <= p.needs@.len(),
            p.needs@ == old(p).needs@,
            m == remap.map_view(),
            saved == remap.saved_view(),
            needs@ == needs_kept(m, p.needs@.take(k as int)),
            crate::snapshot::id_views(dropped@) == crate::snapshot::id_views(d0) + needs_lost(
                m,
                saved,
                p.needs@.take(k as int),
            ),
        decreases p.needs@.len() - k,
    {
        let (n, v) = p.needs[k];
        let ghost t = p.needs@.take(k + 1);
        let ghost before = dropped@;
        assert(t.drop_last() =~= p.needs@.take(k as int));
        assert(t.last() == (n, v));
        match remap.get("need", n) {
            Some(now) => {
                needs.push((now, v));
            },
            None => {
                let mut l = String::from_str("need ");
                l.append(remap.name("need", n));
                dropped.push(l);
                proof {
                    assert(crate::snapshot::id_views(dropped@) =~= crate::snapshot::id_views(before).push(
                        "need "@ + remap_name(saved, "need"@, n),
                    ));
                    assert(needs_lost(m, saved, t) == needs_lost(m, saved, t.drop_last()).push(
                        "need "@ + remap_name(saved, "need"@, n),
                    ));
                }
            },
        }
        proof {
            assert(crate::snapshot::id_views(dropped@) =~= crate::snapshot::id_views(d0) + needs_lost(
                m,
                saved,
                p.needs@.take(k + 1),
            ));
        }
        k += 1;
    }
    assert(p.needs@.take(k as int) =~= p.needs@);
    p.needs = needs;
    let ghost d1 = dropped@;
    match p.carry {
        Some(l) => match remap.get("thing", l.def) {
            Some(now) => {
                p.carry = Some(Lot { def: now, ..l });
            },
            None => {
                let mut e = String::from_str("carried ");
                e.append(remap.name("thing", l.def));
                dropped.push(e);
                p.carry = None;
            },
        },
        None => {},
    }
    proof {
        assert(crate::snapshot::id_views(dropped@) =~= crate::snapshot::id_views(d1) + carry_lost(
            m,
            saved,
            old(p).carry,
        ));
    }
    let job = match &p.job {
        Job::Comfort { to, need, until } => match remap.get("need", *need) {
            Some(n) => Some(Job::Comfort { to: *to, need: n, until: *until }),
            None => Some(Job::Idle),
        },
        _ => None,
    };
    match job {
        Some(j) => {
            p.job = j;
        },
        None => {},
    }
    true
}

} // verus!
