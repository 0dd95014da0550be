//! Settling the merged defs: the index of every def, each reference
//! resolved into an id in its def's own mod, colours read, masks made and
//! the checks that hold across defs. The defs are held here as plain
//! values; what only a float can say (a fraction within 0 to 1, a speed
//! above 0) comes in already decided.
use vstd::prelude::*;
use crate::modtest::sorted_text;
use crate::modloader::{join, text_lt};
use crate::snapshot::id_views;
use crate::tools::{all_tags, mask_covers, tag_mask, tool_tags};
use crate::priority::{rules_error, settle_rules, RuleDef, RuleSetup};
use crate::defs::{
    color_spec, home_of, home_of_spec, index_view, parse_color, resolve_in, resolve_spec, settle_work, work_error,
    claims_result, first_stance, melee_skills, skills_result, styles_result, work_order_ok,
    DefId, DesignationDef, Targets, Wear, StartDef, PriorityScaleDef, SkillDef, StanceDef, WorkSetup, WorkStyleDef, WorkTypeDef, CalendarDef, MAX_SIZE,
};

verus! {

// ---------------------------------------------------------------- helpers

/// A reference resolved for the def named in `ctx` (written in mod
/// `home`); the error names the def.
pub open spec fn ref_in(ix: Seq<(Seq<char>, Seq<char>, DefId)>, kind: Seq<char>, id: Seq<char>, ctx: Seq<char>, home: Seq<char>) -> Result<DefId, Seq<char>> {
    match resolve_spec(ix, kind, id, home) {
        Ok(d) => Ok(d),
        Err(e) => Err(ctx + ": "@ + e),
    }
}

/// `ctx`, `": "` and `e`.
fn in_ctx(ctx: &str, e: &str) -> (r: String)
    ensures
        r@ == ctx@ + ": "@ + e@,
{
    let mut r = String::from_str(ctx);
    r.append(": ");
    r.append(e);
    r
}

/// Resolves a reference for the def named in `ctx`.
fn get_ref(index: &Vec<(String, String, DefId)>, kind: &str, id: &str, ctx: &str, home: &str) -> (r: Result<DefId, String>)
    ensures
        match (r, ref_in(index_view(index@), kind@, id@, ctx@, home@)) {
            (Ok(d), Ok(sd)) => d == sd,
            (Err(e), Err(se)) => e@ == se,
            _ => false,
        },
{
    match resolve_in(index.as_slice(), kind, id, home) {
        Ok(d) => Ok(d),
        Err(e) => Err(in_ctx(ctx, e.as_str())),
    }
}

/// References resolved in turn; the first error.
pub open spec fn refs_in(ix: Seq<(Seq<char>, Seq<char>, DefId)>, kind: Seq<char>, ids: Seq<Seq<char>>, ctx: Seq<char>, home: Seq<char>) -> Result<Seq<DefId>, Seq<char>>
    decreases ids.len(),
{
    if ids.len() == 0 {
        Ok(Seq::empty())
    } else {
        match refs_in(ix, kind, ids.drop_last(), ctx, home) {
            Err(e) => Err(e),
            Ok(r) => match ref_in(ix, kind, ids.last(), ctx, home) {
                Err(e) => Err(e),
                Ok(d) => Ok(r.push(d)),
            },
        }
    }
}

/// Texts as characters.
pub open spec fn texts(v: Seq<String>) -> Seq<Seq<char>> {
    v.map_values(|s: String| s@)
}

proof fn lemma_refs_err(ix: Seq<(Seq<char>, Seq<char>, DefId)>, kind: Seq<char>, ids: Seq<Seq<char>>, ctx: Seq<char>, home: Seq<char>, k: int)
    requires
        0 <= k <= ids.len(),
        refs_in(ix, kind, ids.take(k), ctx, home) is Err,
    ensures
        refs_in(ix, kind, ids, ctx, home) == refs_in(ix, kind, ids.take(k), ctx, home),
    decreases ids.len() - k,
{
    if k < ids.len() {
        assert(ids.take(k + 1).drop_last() =~= ids.take(k));
        lemma_refs_err(ix, kind, ids, ctx, home, k + 1);
    } else {
        assert(ids.take(k) =~= ids);
    }
}

/// Resolves a list of references for the def named in `ctx`.
fn get_refs(index: &Vec<(String, String, DefId)>, kind: &str, ids: &Vec<String>, ctx: &str, home: &str) -> (r: Result<Vec<DefId>, String>)
    ensures
        match (r, refs_in(index_view(index@), kind@, texts(ids@), ctx@, home@)) {
            (Ok(d), Ok(sd)) => d@ == sd,
            (Err(e), Err(se)) => e@ == se,
            _ => false,
        },
{
    let ghost tv = texts(ids@);
    let ghost ix = index_view(index@);
    let mut out: Vec<DefId> = Vec::new();
    let mut i: usize = 0;
    assert(tv.take(0) =~= Seq::<Seq<char>>::empty());
    while i < ids.len()
        invariant
            i <= ids@.len(),
            tv == texts(ids@),
            ix == index_view(index@),
            refs_in(ix, kind@, tv.take(i as int), ctx@, home@) == Ok::<Seq<DefId>, Seq<char>>(out@),
        decreases ids@.len() - i,
    {
        assert(tv.take(i + 1).drop_last() =~= tv.take(i as int));
        assert(tv.take(i + 1).last() == ids@[i as int]@);
        match get_ref(index, kind, ids[i].as_str(), ctx, home) {
            Err(e) => {
                proof { lemma_refs_err(ix, kind@, tv, ctx@, home@, i + 1); }
                return Err(e);
            },
            Ok(d) => {
                out.push(d);
            },
        }
        i += 1;
    }
    assert(tv.take(ids@.len() as int) =~= tv);
    Ok(out)
}

/// Item counts resolved in turn (the items are things); the first error.
pub open spec fn counts_in(ix: Seq<(Seq<char>, Seq<char>, DefId)>, v: Seq<(String, u32)>, ctx: Seq<char>, home: Seq<char>) -> Result<Seq<(DefId, u32)>, Seq<char>>
    decreases v.len(),
{
    if v.len() == 0 {
        Ok(Seq::empty())
    } else {
        match counts_in(ix, v.drop_last(), ctx, home) {
            Err(e) => Err(e),
            Ok(r) => match ref_in(ix, "thing"@, v.last().0@, ctx, home) {
                Err(e) => Err(e),
                Ok(d) => Ok(r.push((d, v.last().1))),
            },
        }
    }
}

proof fn lemma_counts_err(ix: Seq<(Seq<char>, Seq<char>, DefId)>, v: Seq<(String, u32)>, ctx: Seq<char>, home: Seq<char>, k: int)
    requires
        0 <= k <= v.len(),
        counts_in(ix, v.take(k), ctx, home) is Err,
    ensures
        counts_in(ix, v, ctx, home) == counts_in(ix, v.take(k), ctx, home),
    decreases v.len() - k,
{
    if k < v.len() {
        assert(v.take(k + 1).drop_last() =~= v.take(k));
        lemma_counts_err(ix, v, ctx, home, k + 1);
    } else {
        assert(v.take(k) =~= v);
    }
}

/// Resolves item counts for the def named in `ctx`.
fn get_counts(index: &Vec<(String, String, DefId)>, v: &Vec<(String, u32)>, ctx: &str, home: &str) -> (r: Result<Vec<(DefId, u32)>, String>)
    ensures
        match (r, counts_in(index_view(index@), v@, ctx@, home@)) {
            (Ok(d), Ok(sd)) => d@ == sd,
            (Err(e), Err(se)) => e@ == se,
            _ => false,
        },
{
    let ghost ix = index_view(index@);
    let mut out: Vec<(DefId, u32)> = Vec::new();
    let mut i: usize = 0;
    assert(v@.take(0) =~= Seq::<(String, u32)>::empty());
    while i < v.len()
        invariant
            i <= v@.len(),
            ix == index_view(index@),
            counts_in(ix, v@.take(i as int), ctx@, home@) == Ok::<Seq<(DefId, u32)>, Seq<char>>(out@),
        decreases v@.len() - i,
    {
        assert(v@.take(i + 1).drop_last() =~= v@.take(i as int));
        assert(v@.take(i + 1).last() == v@[i as int]);
        match get_ref(index, "thing", v[i].0.as_str(), ctx, home) {
            Err(e) => {
                proof { lemma_counts_err(ix, v@, ctx@, home@, i + 1); }
                return Err(e);
            },
            Ok(d) => {
                out.push((d, v[i].1));
            },
        }
        i += 1;
    }
    assert(v@.take(v@.len() as int) =~= v@);
    Ok(out)
}

/// A colour read for the def named in `ctx`.
pub open spec fn color_in(ctx: Seq<char>, s: Seq<char>) -> Result<Seq<u8>, Seq<char>> {
    match color_spec(s) {
        Some(c) => Ok(c),
        None => Err(ctx + ": "@ + ("bad color '"@ + s + "' (want #rrggbb)"@)),
    }
}

/// Reads a colour for the def named in `ctx`.
fn get_color(ctx: &str, s: &str) -> (r: Result<[u8; 3], String>)
    ensures
        match (r, color_in(ctx@, s@)) {
            (Ok(c), Ok(sc)) => c@ == sc,
            (Err(e), Err(se)) => e@ == se,
            _ => false,
        },
{
    match parse_color(s) {
        Ok(c) => Ok(c),
        Err(e) => {
            Err(in_ctx(ctx, e.as_str()))
        },
    }
}

/// `kind`, `/` and `id`: how errors name a def.
fn def_ctx(kind: &str, id: &str) -> (r: String)
    ensures
        r@ == kind@ + "/"@ + id@,
{
    let mut r = String::from_str(kind);
    r.append("/");
    r.append(id);
    r
}

// ---------------------------------------------------------------- the index

/// The index entries of one kind: each def by its id and number.
pub open spec fn kind_entries(kind: Seq<char>, ids: Seq<Seq<char>>) -> Seq<(Seq<char>, Seq<char>, DefId)> {
    Seq::new(ids.len(), |i: int| (kind, ids[i], i as DefId))
}

/// Adds the defs of one kind to the index.
fn index_kind(index: &mut Vec<(String, String, DefId)>, kind: &str, ids: &Vec<String>)
    requires
        ids@.len() <= u16::MAX + 1,
    ensures
        index_view(final(index)@) == index_view(old(index)@) + kind_entries(kind@, texts(ids@)),
{
    let ghost i0 = index_view(index@);
    let mut i: usize = 0;
    while i < ids.len()
        invariant
            i <= ids@.len(),
            ids@.len() <= u16::MAX + 1,
            index_view(index@) == i0 + kind_entries(kind@, texts(ids@)).take(i as int),
        decreases ids@.len() - i,
    {
        let ghost before = index_view(index@);
        index.push((String::from_str(kind), ids[i].clone(), #[verifier::truncate] (i as DefId)));
        assert(index_view(index@) =~= before.push((kind@, ids@[i as int]@, i as DefId)));
        assert(kind_entries(kind@, texts(ids@)).take(i + 1) =~= kind_entries(kind@, texts(ids@)).take(i as int).push((kind@, ids@[i as int]@, i as DefId)));
        i += 1;
    }
    assert(kind_entries(kind@, texts(ids@)).take(ids@.len() as int) =~= kind_entries(kind@, texts(ids@)));
}

// ---------------------------------------------------------------- the defs

/// A terrain def's plain parts.
#[derive(Debug)]
pub struct TerrainDraft {
    pub id: String,
    pub color: String,
    pub rgb: [u8; 3],
}

/// A need def's plain parts. `say_ok` is whether its `say` (if any) has
/// `below` within 0 to 1, at least one line and `ticks` above 0.
#[derive(Debug)]
pub struct NeedDraft {
    pub id: String,
    pub color: String,
    pub rgb: [u8; 3],
    pub say_ok: bool,
    /// Satisfied by a field, named by `field`.
    pub by_field: bool,
    pub field: String,
    pub field_r: DefId,
}

/// The message naming a def: `kind/id`.
pub open spec fn named(kind: Seq<char>, id: Seq<char>) -> Seq<char> {
    kind + "/"@ + id
}

/// A terrain def's colour.
pub open spec fn terrain_res(t: TerrainDraft) -> Result<Seq<u8>, Seq<char>> {
    color_in(named("terrain"@, t.id@), t.color@)
}

/// The first error among the first `k` terrain defs.
pub open spec fn terrain_error(ts: Seq<TerrainDraft>, k: int) -> Option<Seq<char>>
    decreases k,
{
    if k <= 0 {
        None
    } else {
        match terrain_error(ts, k - 1) {
            Some(e) => Some(e),
            None => match terrain_res(ts[k - 1]) {
                Err(e) => Some(e),
                Ok(_) => None,
            },
        }
    }
}

proof fn lemma_terrain_err(ts: Seq<TerrainDraft>, i: int, n: int)
    requires
        0 <= i <= n,
        terrain_error(ts, i) is Some,
    ensures
        terrain_error(ts, n) == terrain_error(ts, i),
    decreases n - i,
{
    if i < n {
        lemma_terrain_err(ts, i, n - 1);
    }
}

/// Reads each terrain def's colour.
fn settle_terrain(ts: Vec<TerrainDraft>) -> (r: Result<Vec<TerrainDraft>, String>)
    ensures
        match r {
            Err(e) => terrain_error(ts@, ts@.len() as int) == Some(e@),
            Ok(v) => terrain_error(ts@, ts@.len() as int) is None && v@.len() == ts@.len() && forall|i: int| 0 <= i < ts@.len() ==> {
                &&& (#[trigger] v@[i]).id@ == ts@[i].id@
                &&& v@[i].color@ == ts@[i].color@
                &&& terrain_res(ts@[i]) == Ok::<Seq<u8>, Seq<char>>(v@[i].rgb@)
            },
        },
{
    let ghost t0 = ts@;
    let n = ts.len();
    let mut rest = ts;
    let mut out: Vec<TerrainDraft> = Vec::new();
    let mut i: usize = 0;
    while rest.len() > 0
        invariant
            i <= t0.len(),
            t0.len() == n,
            t0 == ts@,
            rest@ == t0.subrange(i as int, t0.len() as int),
            out@.len() == i,
            terrain_error(t0, i as int) is None,
            forall|q: int| 0 <= q < i ==> {
                &&& (#[trigger] out@[q]).id@ == t0[q].id@
                &&& out@[q].color@ == t0[q].color@
                &&& terrain_res(t0[q]) == Ok::<Seq<u8>, Seq<char>>(out@[q].rgb@)
            },
        decreases rest@.len(),
    {
        let t = rest.remove(0);
        assert(t == t0[i as int]);
        let ctx = def_ctx("terrain", t.id.as_str());
        match get_color(ctx.as_str(), t.color.as_str()) {
            Err(e) => {
                proof { lemma_terrain_err(t0, i + 1, t0.len() as int); }
                return Err(e);
            },
            Ok(c) => {
                out.push(TerrainDraft { id: t.id, color: t.color, rgb: c });
            },
        }
        i += 1;
    }
    Ok(out)
}

/// What settling a need def gives: its colour and the field it reads, or
/// the first error.
pub open spec fn need_res(ix: Seq<(Seq<char>, Seq<char>, DefId)>, n: NeedDraft) -> Result<(Seq<u8>, DefId), Seq<char>> {
    let ctx = named("need"@, n.id@);
    match color_in(ctx, n.color@) {
        Err(e) => Err(e),
        Ok(c) => if !n.say_ok {
            Err(ctx + ": "@ + "say wants `below` from 0 to 1, at least one line, and `ticks` above 0"@)
        } else if n.by_field {
            match ref_in(ix, "field"@, n.field@, ctx, home_of_spec(n.id@)) {
                Err(e) => Err(e),
                Ok(f) => Ok((c, f)),
            }
        } else {
            Ok((c, n.field_r))
        },
    }
}

/// The first error among the first `k` need defs.
pub open spec fn needs_error(ix: Seq<(Seq<char>, Seq<char>, DefId)>, ns: Seq<NeedDraft>, k: int) -> Option<Seq<char>>
    decreases k,
{
    if k <= 0 {
        None
    } else {
        match needs_error(ix, ns, k - 1) {
            Some(e) => Some(e),
            None => match need_res(ix, ns[k - 1]) {
                Err(e) => Some(e),
                Ok(_) => None,
            },
        }
    }
}

proof fn lemma_needs_err(ix: Seq<(Seq<char>, Seq<char>, DefId)>, ns: Seq<NeedDraft>, i: int, n: int)
    requires
        0 <= i <= n,
        needs_error(ix, ns, i) is Some,
    ensures
        needs_error(ix, ns, n) == needs_error(ix, ns, i),
    decreases n - i,
{
    if i < n {
        lemma_needs_err(ix, ns, i, n - 1);
    }
}

/// Settles each need def.
#[verifier::spinoff_prover]
#[verifier::rlimit(40)]
fn settle_needs(index: &Vec<(String, String, DefId)>, ns: Vec<NeedDraft>) -> (r: Result<Vec<NeedDraft>, String>)
    ensures
        match r {
            Err(e) => needs_error(index_view(index@), ns@, ns@.len() as int) == Some(e@),
            Ok(v) => needs_error(index_view(index@), ns@, ns@.len() as int) is None && v@.len() == ns@.len() && forall|i: int| 0 <= i < ns@.len() ==> {
                &&& (#[trigger] v@[i]).id@ == ns@[i].id@
                &&& v@[i].color@ == ns@[i].color@
                &&& v@[i].say_ok == ns@[i].say_ok
                &&& v@[i].by_field == ns@[i].by_field
                &&& v@[i].field@ == ns@[i].field@
                &&& need_res(index_view(index@), ns@[i]) == Ok::<(Seq<u8>, DefId), Seq<char>>((v@[i].rgb@, v@[i].field_r))
            },
        },
{
    let ghost t0 = ns@;
    let ghost ix = index_view(index@);
    let n = ns.len();
    let mut rest = ns;
    let mut out: Vec<NeedDraft> = Vec::new();
    let mut i: usize = 0;
    while rest.len() > 0
        invariant
            i <= t0.len(),
            t0.len() == n,
            t0 == ns@,
            ix == index_view(index@),
            rest@ == t0.subrange(i as int, t0.len() as int),
            out@.len() == i,
            needs_error(ix, t0, i as int) is None,
            forall|q: int| 0 <= q < i ==> {
                &&& (#[trigger] out@[q]).id@ == t0[q].id@
                &&& out@[q].color@ == t0[q].color@
                &&& out@[q].say_ok == t0[q].say_ok
                &&& out@[q].by_field == t0[q].by_field
                &&& out@[q].field@ == t0[q].field@
                &&& need_res(ix, t0[q]) == Ok::<(Seq<u8>, DefId), Seq<char>>((out@[q].rgb@, out@[q].field_r))
            },
        decreases rest@.len(),
    {
        let t = rest.remove(0);
        assert(t == t0[i as int]);
        let ctx = def_ctx("need", t.id.as_str());
        let c = match get_color(ctx.as_str(), t.color.as_str()) {
            Err(e) => {
                proof { lemma_needs_err(ix, t0, i + 1, t0.len() as int); }
                return Err(e);
            },
            Ok(c) => c,
        };
        if !t.say_ok {
            proof { lemma_needs_err(ix, t0, i + 1, t0.len() as int); }
            return Err(in_ctx(ctx.as_str(), "say wants `below` from 0 to 1, at least one line, and `ticks` above 0"));
        }
        let mut f = t.field_r;
        if t.by_field {
            let home = home_of(t.id.as_str());
            match get_ref(index, "field", t.field.as_str(), ctx.as_str(), home.as_str()) {
                Err(e) => {
                    proof { lemma_needs_err(ix, t0, i + 1, t0.len() as int); }
                    return Err(e);
                },
                Ok(x) => {
                    f = x;
                },
            }
        }
        out.push(NeedDraft { id: t.id, color: t.color, rgb: c, say_ok: t.say_ok, by_field: t.by_field, field: t.field, field_r: f });
        i += 1;
    }
    Ok(out)
}

/// What settling a designation gives: its colour, its work type and its
/// style, or the first error.
pub open spec fn desig_res(ix: Seq<(Seq<char>, Seq<char>, DefId)>, d: DesignationDef) -> Result<(Seq<u8>, DefId, Option<DefId>), Seq<char>> {
    let ctx = named("designation"@, d.id@);
    let home = home_of_spec(d.id@);
    match color_in(ctx, d.color@) {
        Err(e) => Err(e),
        Ok(c) => match ref_in(ix, "work_type"@, d.work_type@, ctx, home) {
            Err(e) => Err(e),
            Ok(w) => match d.style {
                None => Ok((c, w, None)),
                Some(st) => match ref_in(ix, "work_style"@, st@, ctx, home) {
                    Err(e) => Err(e),
                    Ok(s) => Ok((c, w, Some(s))),
                },
            },
        },
    }
}

/// The first error among the first `k` designations.
pub open spec fn desigs_error(ix: Seq<(Seq<char>, Seq<char>, DefId)>, ds: Seq<DesignationDef>, k: int) -> Option<Seq<char>>
    decreases k,
{
    if k <= 0 {
        None
    } else {
        match desigs_error(ix, ds, k - 1) {
            Some(e) => Some(e),
            None => match desig_res(ix, ds[k - 1]) {
                Err(e) => Some(e),
                Ok(_) => None,
            },
        }
    }
}

proof fn lemma_desigs_err(ix: Seq<(Seq<char>, Seq<char>, DefId)>, ds: Seq<DesignationDef>, i: int, n: int)
    requires
        0 <= i <= n,
        desigs_error(ix, ds, i) is Some,
    ensures
        desigs_error(ix, ds, n) == desigs_error(ix, ds, i),
    decreases n - i,
{
    if i < n {
        lemma_desigs_err(ix, ds, i, n - 1);
    }
}

/// A designation settled as `desig_res` says, all else kept.
pub open spec fn desig_settled(ix: Seq<(Seq<char>, Seq<char>, DefId)>, a: DesignationDef, b: DesignationDef) -> bool {
    &&& b.id@ == a.id@ && b.label@ == a.label@ && b.color@ == a.color@ && b.targets == a.targets
    &&& b.work_type@ == a.work_type@
    &&& (match (a.style, b.style) { (Some(x), Some(y)) => x@ == y@, (None, None) => true, _ => false })
    &&& desig_res(ix, a) == Ok::<(Seq<u8>, DefId, Option<DefId>), Seq<char>>((b.rgb@, b.work_r, b.style_r))
}

/// Settles each designation.
#[verifier::spinoff_prover]
#[verifier::rlimit(40)]
fn settle_desigs(index: &Vec<(String, String, DefId)>, ds: Vec<DesignationDef>) -> (r: Result<Vec<DesignationDef>, String>)
    ensures
        match r {
            Err(e) => desigs_error(index_view(index@), ds@, ds@.len() as int) == Some(e@),
            Ok(v) => desigs_error(index_view(index@), ds@, ds@.len() as int) is None && v@.len() == ds@.len()
                && forall|i: int| 0 <= i < ds@.len() ==> desig_settled(index_view(index@), ds@[i], #[trigger] v@[i]),
        },
{
    let ghost t0 = ds@;
    let ghost ix = index_view(index@);
    let n = ds.len();
    let mut rest = ds;
    let mut out: Vec<DesignationDef> = Vec::new();
    let mut i: usize = 0;
    while rest.len() > 0
        invariant
            i <= t0.len(),
            t0.len() == n,
            t0 == ds@,
            ix == index_view(index@),
            rest@ == t0.subrange(i as int, t0.len() as int),
            out@.len() == i,
            desigs_error(ix, t0, i as int) is None,
            forall|q: int| 0 <= q < i ==> desig_settled(ix, t0[q], #[trigger] out@[q]),
        decreases rest@.len(),
    {
        let t = rest.remove(0);
        assert(t == t0[i as int]);
        let ctx = def_ctx("designation", t.id.as_str());
        let home = home_of(t.id.as_str());
        let c = match get_color(ctx.as_str(), t.color.as_str()) {
            Err(e) => {
                proof { lemma_desigs_err(ix, t0, i + 1, t0.len() as int); }
                return Err(e);
            },
            Ok(c) => c,
        };
        let w = match get_ref(index, "work_type", t.work_type.as_str(), ctx.as_str(), home.as_str()) {
            Err(e) => {
                proof { lemma_desigs_err(ix, t0, i + 1, t0.len() as int); }
                return Err(e);
            },
            Ok(w) => w,
        };
        let st = match &t.style {
            None => None,
            Some(x) => match get_ref(index, "work_style", x.as_str(), ctx.as_str(), home.as_str()) {
                Err(e) => {
                    proof { lemma_desigs_err(ix, t0, i + 1, t0.len() as int); }
                    return Err(e);
                },
                Ok(s) => Some(s),
            },
        };
        let d = DesignationDef {
            id: t.id,
            label: t.label,
            color: t.color,
            targets: t.targets,
            work_type: t.work_type,
            style: t.style,
            rgb: c,
            work_r: w,
            style_r: st,
        };
        proof {
            assert(desig_settled(ix, t0[i as int], d));
        }
        out.push(d);
        i += 1;
    }
    Ok(out)
}

// ---------------------------------------------------------------- things

/// A harvest of a thing: the designation that asks for it, what it yields
/// and the tool tags it needs; `destroy` is whether it takes the thing.
#[derive(Debug)]
pub struct HarvestDraft {
    pub designation: String,
    pub yields: Vec<(String, u32)>,
    pub requires: Vec<String>,
    pub destroy: bool,
}

/// How a thing is built: its cost, whether it takes stuff, whether free.
#[derive(Debug)]
pub struct BuildDraft {
    pub cost: Vec<(String, u32)>,
    pub has_stuff: bool,
    pub free: bool,
}

/// A tool: its tags, and whether its speed is above 0 (with the speed as
/// text, for the error).
#[derive(Debug)]
pub struct ToolDraft {
    pub tags: Vec<String>,
    pub speed_ok: bool,
    pub speed_text: String,
}

/// A thing def's plain parts. `one_cell` is whether its category (item or
/// floor) keeps it to one cell.
#[derive(Debug)]
pub struct ThingDraft {
    pub id: String,
    pub color: String,
    pub size: [u32; 2],
    pub one_cell: bool,
    pub has_shape: bool,
    pub blocks: bool,
    pub harvest: Vec<HarvestDraft>,
    pub build: Option<BuildDraft>,
    pub spawn: Option<Vec<String>>,
    pub boundary: Vec<String>,
    pub emit: Vec<String>,
    pub tool: Option<ToolDraft>,
    pub stack_limit: u32,
}

/// A field as things see it: its id, and whether it is worked out from
/// others (so nothing emits into it or bounds it).
#[derive(Debug)]
pub struct FieldDraft {
    pub id: String,
    pub computed: bool,
}

/// A thing settled: its colour, each harvest's designation and yields,
/// its build cost, the terrain it spawns on, the fields it bounds and
/// emits into, and its stack limit.
#[derive(Debug)]
pub struct ThingSettled {
    pub rgb: [u8; 3],
    pub harvest: Vec<(DefId, Vec<(DefId, u32)>)>,
    pub cost_r: Option<Vec<(DefId, u32)>>,
    pub spawn_r: Vec<DefId>,
    pub boundary_r: Vec<DefId>,
    pub emit_r: Vec<DefId>,
    pub stack_limit: u32,
}

/// What a `ThingSettled` holds.
pub struct ThingOut {
    pub rgb: Seq<u8>,
    pub harvest: Seq<(DefId, Seq<(DefId, u32)>)>,
    pub cost_r: Option<Seq<(DefId, u32)>>,
    pub spawn_r: Seq<DefId>,
    pub boundary_r: Seq<DefId>,
    pub emit_r: Seq<DefId>,
    pub stack_limit: u32,
}

pub open spec fn thing_out(t: ThingSettled) -> ThingOut {
    ThingOut {
        rgb: t.rgb@,
        harvest: t.harvest@.map_values(|h: (DefId, Vec<(DefId, u32)>)| (h.0, h.1@)),
        cost_r: match t.cost_r { Some(c) => Some(c@), None => None },
        spawn_r: t.spawn_r@,
        boundary_r: t.boundary_r@,
        emit_r: t.emit_r@,
        stack_limit: t.stack_limit,
    }
}

/// A thing's harvests resolved in turn: designation, then yields.
pub open spec fn harvests_in(ix: Seq<(Seq<char>, Seq<char>, DefId)>, hs: Seq<HarvestDraft>, ctx: Seq<char>, home: Seq<char>)
    -> Result<Seq<(DefId, Seq<(DefId, u32)>)>, Seq<char>>
    decreases hs.len(),
{
    if hs.len() == 0 {
        Ok(Seq::empty())
    } else {
        match harvests_in(ix, hs.drop_last(), ctx, home) {
            Err(e) => Err(e),
            Ok(r) => match ref_in(ix, "designation"@, hs.last().designation@, ctx, home) {
                Err(e) => Err(e),
                Ok(d) => match counts_in(ix, hs.last().yields@, ctx, home) {
                    Err(e) => Err(e),
                    Ok(y) => Ok(r.push((d, y))),
                },
            },
        }
    }
}

/// Harvest `i`'s designation is an earlier harvest's too.
pub open spec fn has_earlier(hr: Seq<(DefId, Seq<(DefId, u32)>)>, i: int) -> bool {
    exists|j: int| 0 <= j < i && (#[trigger] hr[j]).0 == hr[i].0
}

/// The first of the first `k` harvests whose designation an earlier one
/// uses too.
pub open spec fn dup_upto(hr: Seq<(DefId, Seq<(DefId, u32)>)>, k: int) -> Option<int>
    decreases k,
{
    if k <= 0 {
        None
    } else {
        match dup_upto(hr, k - 1) {
            Some(i) => Some(i),
            None => if has_earlier(hr, k - 1) { Some(k - 1) } else { None },
        }
    }
}

/// The first harvest whose designation an earlier one uses too.
pub open spec fn dup_harvest(hr: Seq<(DefId, Seq<(DefId, u32)>)>) -> Option<int> {
    dup_upto(hr, hr.len() as int)
}

/// The error a build's cost, stuff and `free` make, if any.
pub open spec fn build_error(ctx: Seq<char>, b: BuildDraft) -> Option<Seq<char>> {
    let empty = b.cost@.len() == 0;
    if empty && !b.has_stuff && !b.free {
        Some(ctx + ": "@ + "build needs `cost`, `stuff`, or `free = true`"@)
    } else if (!empty || b.has_stuff) && b.free {
        Some(ctx + ": "@ + "build is `free` and has a cost; pick one"@)
    } else if !empty && b.has_stuff {
        Some(ctx + ": "@ + "build has both `cost` and `stuff`; pick one"@)
    } else {
        None
    }
}

/// The first field fed (bounded or emitted into) that is worked out from
/// others.
pub open spec fn computed_fed(fed: Seq<DefId>, fields: Seq<FieldDraft>) -> Option<Seq<char>>
    decreases fed.len(),
{
    if fed.len() == 0 {
        None
    } else {
        let f = fed[0] as int;
        if f < fields.len() && fields[f].computed {
            Some(fields[f].id@)
        } else {
            computed_fed(fed.drop_first(), fields)
        }
    }
}

/// What settling a thing gives, or the first error: colour, size, one
/// cell for items and floors, no `shape`, harvests (each designation once),
/// build cost, spawn terrain, fields bounded and emitted into (none worked
/// out from others), and the stack limit (at least 1; 1 for a tool, whose
/// speed must be above 0).
pub open spec fn thing_res(ix: Seq<(Seq<char>, Seq<char>, DefId)>, fields: Seq<FieldDraft>, t: ThingDraft) -> Result<ThingOut, Seq<char>> {
    let ctx = named("thing"@, t.id@);
    let home = home_of_spec(t.id@);
    let sw = t.size[0];
    let sh = t.size[1];
    match color_in(ctx, t.color@) {
        Err(e) => Err(e),
        Ok(c) => if !(1 <= sw <= MAX_SIZE && 1 <= sh <= MAX_SIZE) {
            Err(ctx + ": "@ + "size is [w, h], each 1 to 8, not ["@ + crate::text::decimal_spec(sw as nat) + ", "@
                + crate::text::decimal_spec(sh as nat) + "]"@)
        } else if !(sw == 1 && sh == 1) && t.one_cell {
            Err(ctx + ": "@ + "items and floors are one cell; only fixtures have a size"@)
        } else if t.has_shape {
            Err(ctx + ": "@ + "`shape` was replaced by `look` in API 0.4; see docs/modding/looks.md"@)
        } else {
            match harvests_in(ix, t.harvest@, ctx, home) {
                Err(e) => Err(e),
                Ok(hr) => match dup_harvest(hr) {
                    Some(i) => Err(ctx + ": "@ + "two harvests use the designation '"@ + t.harvest@[i].designation@ + "'; each needs its own"@),
                    None => {
                        let cost: Result<Option<Seq<(DefId, u32)>>, Seq<char>> = match t.build {
                            None => Ok(None),
                            Some(b) => match counts_in(ix, b.cost@, ctx, home) {
                                Err(e) => Err(e),
                                Ok(cr) => match build_error(ctx, b) {
                                    Some(e) => Err(e),
                                    None => Ok(Some(cr)),
                                },
                            },
                        };
                        match cost {
                            Err(e) => Err(e),
                            Ok(cr) => {
                                let spawn: Result<Seq<DefId>, Seq<char>> = match t.spawn {
                                    None => Ok(Seq::empty()),
                                    Some(sp) => refs_in(ix, "terrain"@, texts(sp@), ctx, home),
                                };
                                match spawn {
                                    Err(e) => Err(e),
                                    Ok(spr) => match refs_in(ix, "field"@, texts(t.boundary@), ctx, home) {
                                        Err(e) => Err(e),
                                        Ok(br) => match refs_in(ix, "field"@, texts(t.emit@), ctx, home) {
                                            Err(e) => Err(e),
                                            Ok(er) => match computed_fed(br + er, fields) {
                                                Some(f) => Err(ctx + ": "@ + "field "@ + f + " is worked out from others, so nothing can emit into it or bound it"@),
                                                None => match t.tool {
                                                    Some(tl) => if !tl.speed_ok {
                                                        Err(ctx + ": "@ + "tool speed must be above 0 (it's "@ + tl.speed_text@ + ")"@)
                                                    } else {
                                                        Ok(ThingOut { rgb: c, harvest: hr, cost_r: cr, spawn_r: spr, boundary_r: br, emit_r: er, stack_limit: 1 })
                                                    },
                                                    None => Ok(ThingOut {
                                                        rgb: c, harvest: hr, cost_r: cr, spawn_r: spr, boundary_r: br, emit_r: er,
                                                        stack_limit: if t.stack_limit < 1 { 1 } else { t.stack_limit },
                                                    }),
                                                },
                                            },
                                        },
                                    },
                                }
                            },
                        }
                    },
                },
            }
        },
    }
}

pub open spec fn harvest_views(v: Seq<(DefId, Vec<(DefId, u32)>)>) -> Seq<(DefId, Seq<(DefId, u32)>)> {
    v.map_values(|h: (DefId, Vec<(DefId, u32)>)| (h.0, h.1@))
}

proof fn lemma_harvests_err(ix: Seq<(Seq<char>, Seq<char>, DefId)>, hs: Seq<HarvestDraft>, ctx: Seq<char>, home: Seq<char>, k: int)
    requires
        0 <= k <= hs.len(),
        harvests_in(ix, hs.take(k), ctx, home) is Err,
    ensures
        harvests_in(ix, hs, ctx, home) == harvests_in(ix, hs.take(k), ctx, home),
    decreases hs.len() - k,
{
    if k < hs.len() {
        assert(hs.take(k + 1).drop_last() =~= hs.take(k));
        lemma_harvests_err(ix, hs, ctx, home, k + 1);
    } else {
        assert(hs.take(k) =~= hs);
    }
}

proof fn lemma_harvests_len(ix: Seq<(Seq<char>, Seq<char>, DefId)>, hs: Seq<HarvestDraft>, ctx: Seq<char>, home: Seq<char>)
    ensures
        harvests_in(ix, hs, ctx, home) matches Ok(r) ==> r.len() == hs.len(),
    decreases hs.len(),
{
    if hs.len() > 0 {
        lemma_harvests_len(ix, hs.drop_last(), ctx, home);
    }
}

/// Resolves a thing's harvests.
fn get_harvests(index: &Vec<(String, String, DefId)>, hs: &Vec<HarvestDraft>, ctx: &str, home: &str)
    -> (r: Result<Vec<(DefId, Vec<(DefId, u32)>)>, String>)
    ensures
        match (r, harvests_in(index_view(index@), hs@, ctx@, home@)) {
            (Ok(v), Ok(sv)) => harvest_views(v@) == sv,
            (Err(e), Err(se)) => e@ == se,
            _ => false,
        },
{
    let ghost ix = index_view(index@);
    let mut out: Vec<(DefId, Vec<(DefId, u32)>)> = Vec::new();
    let mut i: usize = 0;
    assert(hs@.take(0) =~= Seq::<HarvestDraft>::empty());
    assert(harvest_views(out@) =~= Seq::<(DefId, Seq<(DefId, u32)>)>::empty());
    while i < hs.len()
        invariant
            i <= hs@.len(),
            ix == index_view(index@),
            harvests_in(ix, hs@.take(i as int), ctx@, home@) == Ok::<Seq<(DefId, Seq<(DefId, u32)>)>, Seq<char>>(harvest_views(out@)),
        decreases hs@.len() - i,
    {
        assert(hs@.take(i + 1).drop_last() =~= hs@.take(i as int));
        assert(hs@.take(i + 1).last() == hs@[i as int]);
        let d = match get_ref(index, "designation", hs[i].designation.as_str(), ctx, home) {
            Err(e) => {
                proof { lemma_harvests_err(ix, hs@, ctx@, home@, i + 1); }
                return Err(e);
            },
            Ok(d) => d,
        };
        let y = match get_counts(index, &hs[i].yields, ctx, home) {
            Err(e) => {
                proof { lemma_harvests_err(ix, hs@, ctx@, home@, i + 1); }
                return Err(e);
            },
            Ok(y) => y,
        };
        let ghost o = out@;
        out.push((d, y));
        assert(harvest_views(out@) =~= harvest_views(o).push((d, y@)));
        i += 1;
    }
    assert(hs@.take(hs@.len() as int) =~= hs@);
    Ok(out)
}

/// The first harvest whose designation an earlier one uses too.
fn find_dup(hr: &Vec<(DefId, Vec<(DefId, u32)>)>) -> (r: Option<usize>)
    ensures
        match (r, dup_harvest(harvest_views(hr@))) {
            (Some(i), Some(si)) => i == si && i < hr@.len(),
            (None, None) => true,
            _ => false,
        },
{
    let ghost hv = harvest_views(hr@);
    let mut i: usize = 0;
    while i < hr.len()
        invariant
            i <= hr@.len(),
            hv == harvest_views(hr@),
            hv.len() == hr@.len(),
            dup_upto(hv, i as int) is None,
        decreases hr@.len() - i,
    {
        let mut j: usize = 0;
        while j < i
            invariant
                j <= i < hr@.len(),
                hv == harvest_views(hr@),
                hv.len() == hr@.len(),
                dup_upto(hv, i as int) is None,
                forall|q: int| 0 <= q < j ==> hv[q].0 != hv[i as int].0,
            decreases i - j,
        {
            if hr[j].0 == hr[i].0 {
                assert(hv[j as int].0 == hv[i as int].0);
                assert(has_earlier(hv, i as int));
                proof { lemma_dup_stays(hv, i as int + 1, hv.len() as int); }
                return Some(i);
            }
            j += 1;
        }
        assert(!has_earlier(hv, i as int));
        i += 1;
    }
    None
}

proof fn lemma_dup_stays(hr: Seq<(DefId, Seq<(DefId, u32)>)>, i: int, n: int)
    requires
        0 <= i <= n,
        dup_upto(hr, i) is Some,
    ensures
        dup_upto(hr, n) == dup_upto(hr, i),
    decreases n - i,
{
    if i < n {
        lemma_dup_stays(hr, i, n - 1);
    }
}

/// The first field fed that is worked out from others: its place in `fields`.
fn first_computed(fed: &Vec<DefId>, fields: &Vec<FieldDraft>) -> (r: Option<usize>)
    ensures
        match (r, computed_fed(fed@, fields@)) {
            (Some(f), Some(id)) => f < fields@.len() && fields@[f as int].id@ == id,
            (None, None) => true,
            _ => false,
        },
{
    let mut i: usize = 0;
    assert(fed@.skip(0) =~= fed@);
    while i < fed.len()
        invariant
            i <= fed@.len(),
            computed_fed(fed@, fields@) == computed_fed(fed@.skip(i as int), fields@),
        decreases fed@.len() - i,
    {
        assert(fed@.skip(i as int)[0] == fed@[i as int]);
        assert(fed@.skip(i as int).drop_first() =~= fed@.skip(i + 1));
        let f = fed[i] as usize;
        if f < fields.len() && fields[f].computed {
            return Some(f);
        }
        i += 1;
    }
    None
}

/// Two lists of ids, one after the other.
fn concat_ids(a: &Vec<DefId>, b: &Vec<DefId>) -> (r: Vec<DefId>)
    ensures
        r@ == a@ + b@,
{
    let mut out: Vec<DefId> = Vec::new();
    let mut i: usize = 0;
    while i < a.len()
        invariant
            i <= a@.len(),
            out@ == a@.take(i as int),
        decreases a@.len() - i,
    {
        out.push(a[i]);
        assert(out@ =~= a@.take(i + 1));
        i += 1;
    }
    let mut j: usize = 0;
    while j < b.len()
        invariant
            j <= b@.len(),
            out@ == a@ + b@.take(j as int),
        decreases b@.len() - j,
    {
        out.push(b[j]);
        assert(out@ =~= a@ + b@.take(j + 1));
        j += 1;
    }
    assert(a@.take(a@.len() as int) =~= a@);
    assert(b@.take(b@.len() as int) =~= b@);
    out
}

/// Settles one thing (see `thing_res`).
#[verifier::spinoff_prover]
#[verifier::rlimit(60)]
fn settle_thing(index: &Vec<(String, String, DefId)>, fields: &Vec<FieldDraft>, t: &ThingDraft) -> (r: Result<ThingSettled, String>)
    ensures
        match (r, thing_res(index_view(index@), fields@, *t)) {
            (Ok(o), Ok(so)) => thing_out(o) == so,
            (Err(e), Err(se)) => e@ == se,
            _ => false,
        },
{
    let ctx = def_ctx("thing", t.id.as_str());
    let home = home_of(t.id.as_str());
    let c = get_color(ctx.as_str(), t.color.as_str())?;
    let sw = t.size[0];
    let sh = t.size[1];
    if !(1 <= sw && sw <= MAX_SIZE && 1 <= sh && sh <= MAX_SIZE) {
        let mut e = String::from_str("size is [w, h], each 1 to 8, not [");
        e.append(crate::text::decimal(sw as u64).as_str());
        e.append(", ");
        e.append(crate::text::decimal(sh as u64).as_str());
        e.append("]");
        let r = in_ctx(ctx.as_str(), e.as_str());
        assert(r@ =~= ctx@ + ": "@ + "size is [w, h], each 1 to 8, not ["@ + crate::text::decimal_spec(sw as nat) + ", "@
            + crate::text::decimal_spec(sh as nat) + "]"@);
        return Err(r);
    }
    if !(sw == 1 && sh == 1) && t.one_cell {
        return Err(in_ctx(ctx.as_str(), "items and floors are one cell; only fixtures have a size"));
    }
    if t.has_shape {
        return Err(in_ctx(ctx.as_str(), "`shape` was replaced by `look` in API 0.4; see docs/modding/looks.md"));
    }
    let hr = get_harvests(index, &t.harvest, ctx.as_str(), home.as_str())?;
    match find_dup(&hr) {
        Some(i) => {
            proof {
                assert(harvests_in(index_view(index@), t.harvest@, ctx@, home@) == Ok::<Seq<(DefId, Seq<(DefId, u32)>)>, Seq<char>>(harvest_views(hr@)));
                lemma_harvests_len(index_view(index@), t.harvest@, ctx@, home@);
                assert(harvest_views(hr@).len() == hr@.len());
            }
            let mut e = String::from_str("two harvests use the designation '");
            e.append(t.harvest[i].designation.as_str());
            e.append("'; each needs its own");
            let r = in_ctx(ctx.as_str(), e.as_str());
            assert(r@ =~= ctx@ + ": "@ + "two harvests use the designation '"@ + t.harvest@[i as int].designation@ + "'; each needs its own"@);
            return Err(r);
        },
        None => {},
    }
    let cost_r = match &t.build {
        None => None,
        Some(b) => {
            let cr = get_counts(index, &b.cost, ctx.as_str(), home.as_str())?;
            let empty = b.cost.len() == 0;
            if empty && !b.has_stuff && !b.free {
                return Err(in_ctx(ctx.as_str(), "build needs `cost`, `stuff`, or `free = true`"));
            } else if (!empty || b.has_stuff) && b.free {
                return Err(in_ctx(ctx.as_str(), "build is `free` and has a cost; pick one"));
            } else if !empty && b.has_stuff {
                return Err(in_ctx(ctx.as_str(), "build has both `cost` and `stuff`; pick one"));
            }
            Some(cr)
        },
    };
    let spawn_r = match &t.spawn {
        None => Vec::new(),
        Some(sp) => get_refs(index, "terrain", sp, ctx.as_str(), home.as_str())?,
    };
    let boundary_r = get_refs(index, "field", &t.boundary, ctx.as_str(), home.as_str())?;
    let emit_r = get_refs(index, "field", &t.emit, ctx.as_str(), home.as_str())?;
    let fed = concat_ids(&boundary_r, &emit_r);
    match first_computed(&fed, fields) {
        Some(f) => {
            let mut e = String::from_str("field ");
            e.append(fields[f].id.as_str());
            e.append(" is worked out from others, so nothing can emit into it or bound it");
            let r = in_ctx(ctx.as_str(), e.as_str());
            assert(r@ =~= ctx@ + ": "@ + "field "@ + fields@[f as int].id@ + " is worked out from others, so nothing can emit into it or bound it"@);
            return Err(r);
        },
        None => {},
    }
    let stack_limit = match &t.tool {
        Some(tl) => {
            if !tl.speed_ok {
                let mut e = String::from_str("tool speed must be above 0 (it's ");
                e.append(tl.speed_text.as_str());
                e.append(")");
                let r = in_ctx(ctx.as_str(), e.as_str());
                assert(r@ =~= ctx@ + ": "@ + "tool speed must be above 0 (it's "@ + tl.speed_text@ + ")"@);
                return Err(r);
            }
            1
        },
        None => if t.stack_limit < 1 { 1 } else { t.stack_limit },
    };
    let o = ThingSettled { rgb: c, harvest: hr, cost_r, spawn_r, boundary_r, emit_r, stack_limit };
    proof {
        let ov = thing_out(o);
        assert(ov.cost_r == (match o.cost_r { Some(x) => Some(x@), None => None::<Seq<(DefId, u32)>> }));
    }
    Ok(o)
}

/// The first error among the first `k` things.
pub open spec fn things_error(ix: Seq<(Seq<char>, Seq<char>, DefId)>, fields: Seq<FieldDraft>, ts: Seq<ThingDraft>, k: int) -> Option<Seq<char>>
    decreases k,
{
    if k <= 0 {
        None
    } else {
        match things_error(ix, fields, ts, k - 1) {
            Some(e) => Some(e),
            None => match thing_res(ix, fields, ts[k - 1]) {
                Err(e) => Some(e),
                Ok(_) => None,
            },
        }
    }
}

proof fn lemma_things_err(ix: Seq<(Seq<char>, Seq<char>, DefId)>, fields: Seq<FieldDraft>, ts: Seq<ThingDraft>, i: int, n: int)
    requires
        0 <= i <= n,
        things_error(ix, fields, ts, i) is Some,
    ensures
        things_error(ix, fields, ts, n) == things_error(ix, fields, ts, i),
    decreases n - i,
{
    if i < n {
        lemma_things_err(ix, fields, ts, i, n - 1);
    }
}

/// Settles each thing.
fn settle_things(index: &Vec<(String, String, DefId)>, fields: &Vec<FieldDraft>, ts: &Vec<ThingDraft>) -> (r: Result<Vec<ThingSettled>, String>)
    ensures
        match r {
            Err(e) => things_error(index_view(index@), fields@, ts@, ts@.len() as int) == Some(e@),
            Ok(v) => things_error(index_view(index@), fields@, ts@, ts@.len() as int) is None && v@.len() == ts@.len()
                && forall|i: int| 0 <= i < ts@.len() ==> thing_res(index_view(index@), fields@, ts@[i]) == Ok::<ThingOut, Seq<char>>(thing_out(#[trigger] v@[i])),
        },
{
    let ghost ix = index_view(index@);
    let mut out: Vec<ThingSettled> = Vec::new();
    let mut i: usize = 0;
    while i < ts.len()
        invariant
            i <= ts@.len(),
            ix == index_view(index@),
            out@.len() == i,
            things_error(ix, fields@, ts@, i as int) is None,
            forall|q: int| 0 <= q < i ==> thing_res(ix, fields@, ts@[q]) == Ok::<ThingOut, Seq<char>>(thing_out(#[trigger] out@[q])),
        decreases ts@.len() - i,
    {
        match settle_thing(index, fields, &ts[i]) {
            Err(e) => {
                proof { lemma_things_err(ix, fields@, ts@, i + 1, ts@.len() as int); }
                return Err(e);
            },
            Ok(o) => {
                out.push(o);
            },
        }
        i += 1;
    }
    Ok(out)
}

// ---------------------------------------------------------------- creatures

/// A creature def's plain parts.
#[derive(Debug)]
pub struct CreatureDraft {
    pub id: String,
    pub color: String,
    pub label: String,
    pub plural: String,
    pub butcher: Vec<(String, u32)>,
    pub needs: Vec<String>,
    pub spawn: Option<Vec<String>>,
    pub speed: u32,
    pub melee_cooldown: u32,
}

/// A creature settled: colour, butcher yields, needs, spawn terrain, its
/// plural, speed and melee cooldown.
#[derive(Debug)]
pub struct CreatureSettled {
    pub rgb: [u8; 3],
    pub butcher_r: Vec<(DefId, u32)>,
    pub needs_r: Vec<DefId>,
    pub spawn_r: Vec<DefId>,
    pub plural: String,
    pub speed: u32,
    pub melee_cooldown: u32,
}

/// What a `CreatureSettled` holds.
pub struct CreatureOut {
    pub rgb: Seq<u8>,
    pub butcher_r: Seq<(DefId, u32)>,
    pub needs_r: Seq<DefId>,
    pub spawn_r: Seq<DefId>,
    pub plural: Seq<char>,
    pub speed: u32,
    pub melee_cooldown: u32,
}

pub open spec fn creature_out(c: CreatureSettled) -> CreatureOut {
    CreatureOut {
        rgb: c.rgb@,
        butcher_r: c.butcher_r@,
        needs_r: c.needs_r@,
        spawn_r: c.spawn_r@,
        plural: c.plural@,
        speed: c.speed,
        melee_cooldown: c.melee_cooldown,
    }
}

/// What settling a creature gives, or the first error: its colour, its
/// butcher yields, needs and spawn terrain resolved; the plural defaults
/// to the label and "s"; speed and melee cooldown are at least 1.
pub open spec fn creature_res(ix: Seq<(Seq<char>, Seq<char>, DefId)>, c: CreatureDraft) -> Result<CreatureOut, Seq<char>> {
    let ctx = named("creature"@, c.id@);
    let home = home_of_spec(c.id@);
    match color_in(ctx, c.color@) {
        Err(e) => Err(e),
        Ok(rgb) => match counts_in(ix, c.butcher@, ctx, home) {
            Err(e) => Err(e),
            Ok(b) => match refs_in(ix, "need"@, texts(c.needs@), ctx, home) {
                Err(e) => Err(e),
                Ok(n) => {
                    let spawn: Result<Seq<DefId>, Seq<char>> = match c.spawn {
                        None => Ok(Seq::empty()),
                        Some(sp) => refs_in(ix, "terrain"@, texts(sp@), ctx, home),
                    };
                    match spawn {
                        Err(e) => Err(e),
                        Ok(sr) => Ok(CreatureOut {
                            rgb,
                            butcher_r: b,
                            needs_r: n,
                            spawn_r: sr,
                            plural: if c.plural@.len() == 0 { c.label@ + "s"@ } else { c.plural@ },
                            speed: if c.speed < 1 { 1 } else { c.speed },
                            melee_cooldown: if c.melee_cooldown < 1 { 1 } else { c.melee_cooldown },
                        }),
                    }
                },
            },
        },
    }
}

/// Settles one creature (see `creature_res`).
#[verifier::spinoff_prover]
#[verifier::rlimit(40)]
fn settle_creature(index: &Vec<(String, String, DefId)>, c: &CreatureDraft) -> (r: Result<CreatureSettled, String>)
    ensures
        match (r, creature_res(index_view(index@), *c)) {
            (Ok(o), Ok(so)) => creature_out(o) == so,
            (Err(e), Err(se)) => e@ == se,
            _ => false,
        },
{
    let ctx = def_ctx("creature", c.id.as_str());
    let home = home_of(c.id.as_str());
    let rgb = get_color(ctx.as_str(), c.color.as_str())?;
    let butcher_r = get_counts(index, &c.butcher, ctx.as_str(), home.as_str())?;
    let needs_r = get_refs(index, "need", &c.needs, ctx.as_str(), home.as_str())?;
    let spawn_r = match &c.spawn {
        None => Vec::new(),
        Some(sp) => get_refs(index, "terrain", sp, ctx.as_str(), home.as_str())?,
    };
    let plural = if crate::text::chars_of(c.plural.as_str()).len() == 0 {
        let mut p = c.label.clone();
        p.append("s");
        p
    } else {
        c.plural.clone()
    };
    let speed = if c.speed < 1 { 1 } else { c.speed };
    let melee_cooldown = if c.melee_cooldown < 1 { 1 } else { c.melee_cooldown };
    Ok(CreatureSettled { rgb, butcher_r, needs_r, spawn_r, plural, speed, melee_cooldown })
}

/// The first error among the first `k` creatures.
pub open spec fn creatures_error(ix: Seq<(Seq<char>, Seq<char>, DefId)>, cs: Seq<CreatureDraft>, k: int) -> Option<Seq<char>>
    decreases k,
{
    if k <= 0 {
        None
    } else {
        match creatures_error(ix, cs, k - 1) {
            Some(e) => Some(e),
            None => match creature_res(ix, cs[k - 1]) {
                Err(e) => Some(e),
                Ok(_) => None,
            },
        }
    }
}

proof fn lemma_creatures_err(ix: Seq<(Seq<char>, Seq<char>, DefId)>, cs: Seq<CreatureDraft>, i: int, n: int)
    requires
        0 <= i <= n,
        creatures_error(ix, cs, i) is Some,
    ensures
        creatures_error(ix, cs, n) == creatures_error(ix, cs, i),
    decreases n - i,
{
    if i < n {
        lemma_creatures_err(ix, cs, i, n - 1);
    }
}

/// Settles each creature.
fn settle_creatures(index: &Vec<(String, String, DefId)>, cs: &Vec<CreatureDraft>) -> (r: Result<Vec<CreatureSettled>, String>)
    ensures
        match r {
            Err(e) => creatures_error(index_view(index@), cs@, cs@.len() as int) == Some(e@),
            Ok(v) => creatures_error(index_view(index@), cs@, cs@.len() as int) is None && v@.len() == cs@.len()
                && forall|i: int| 0 <= i < cs@.len() ==> creature_res(index_view(index@), cs@[i]) == Ok::<CreatureOut, Seq<char>>(creature_out(#[trigger] v@[i])),
        },
{
    let ghost ix = index_view(index@);
    let mut out: Vec<CreatureSettled> = Vec::new();
    let mut i: usize = 0;
    while i < cs.len()
        invariant
            i <= cs@.len(),
            ix == index_view(index@),
            out@.len() == i,
            creatures_error(ix, cs@, i as int) is None,
            forall|q: int| 0 <= q < i ==> creature_res(ix, cs@[q]) == Ok::<CreatureOut, Seq<char>>(creature_out(#[trigger] out@[q])),
        decreases cs@.len() - i,
    {
        match settle_creature(index, &cs[i]) {
            Err(e) => {
                proof { lemma_creatures_err(ix, cs@, i + 1, cs@.len() as int); }
                return Err(e);
            },
            Ok(o) => {
                out.push(o);
            },
        }
        i += 1;
    }
    Ok(out)
}

// ---------------------------------------------------------------- tool tags

/// A thing's tag lists: its tool's tags, then each harvest's.
pub open spec fn thing_tag_seqs(t: ThingDraft) -> Seq<Seq<Seq<char>>> {
    (match t.tool {
        Some(tl) => seq![texts(tl.tags@)],
        None => Seq::empty(),
    }) + t.harvest@.map_values(|h: HarvestDraft| texts(h.requires@))
}

/// All the things' tag lists, thing after thing.
pub open spec fn tag_seqs(ts: Seq<ThingDraft>) -> Seq<Seq<Seq<char>>>
    decreases ts.len(),
{
    if ts.len() == 0 {
        Seq::empty()
    } else {
        tag_seqs(ts.drop_last()) + thing_tag_seqs(ts.last())
    }
}

/// Every tag some list names.
pub open spec fn tag_set(ls: Seq<Seq<Seq<char>>>) -> Set<Seq<char>> {
    Set::new(|x: Seq<char>| exists|i: int, j: int| 0 <= i < ls.len() && 0 <= j < ls[i].len() && #[trigger] ls[i][j] == x)
}

/// The things' tool tags in text order, each once.
pub open spec fn tag_names(ts: Seq<ThingDraft>) -> Seq<Seq<char>> {
    choose|s: Seq<Seq<char>>| sorted_text(s) && s.to_set() == tag_set(tag_seqs(ts))
}

/// More tags than a mask has bits is an error naming them all.
pub open spec fn tags_error(ts: Seq<ThingDraft>) -> Option<Seq<char>> {
    let s = tag_names(ts);
    if s.len() > 64 {
        Some("more than 64 tool tags: "@ + join(s, ", "@))
    } else {
        None
    }
}

/// Two lists in text order with the same tags are the same.
proof fn lemma_sorted_unique(a: Seq<Seq<char>>, b: Seq<Seq<char>>)
    requires
        sorted_text(a),
        sorted_text(b),
        a.to_set() == b.to_set(),
    ensures
        a == b,
    decreases a.len(),
{
    if a.len() == 0 {
        if b.len() > 0 {
            assert(b.to_set().contains(b[0]));
        }
        assert(a =~= b);
    } else {
        assert(a.to_set().contains(a[0]));
        assert(b.len() > 0);
        assert(b.to_set().contains(b[0]));
        let k = choose|k: int| 0 <= k < b.len() && b[k] == a[0];
        let m = choose|m: int| 0 <= m < a.len() && a[m] == b[0];
        if k > 0 {
            assert(text_lt(b[0], b[k]));
            if m > 0 {
                assert(text_lt(a[0], a[m]));
                crate::modloader::lemma_text_lt_trans(a[0], a[m], a[0]);
            }
            crate::modloader::lemma_text_lt_irrefl(a[0]);
        }
        assert(a[0] == b[0]);
        let a2 = a.drop_first();
        let b2 = b.drop_first();
        assert forall|x: Seq<char>| a2.to_set().contains(x) implies b2.to_set().contains(x) by {
            let i = choose|i: int| 0 <= i < a2.len() && a2[i] == x;
            assert(a[i + 1] == x);
            assert(b.to_set().contains(x));
            let j = choose|j: int| 0 <= j < b.len() && b[j] == x;
            if j == 0 {
                assert(text_lt(a[0], a[i + 1]));
                crate::modloader::lemma_text_lt_irrefl(x);
            }
            assert(b2[j - 1] == x);
        }
        assert forall|x: Seq<char>| b2.to_set().contains(x) implies a2.to_set().contains(x) by {
            let i = choose|i: int| 0 <= i < b2.len() && b2[i] == x;
            assert(b[i + 1] == x);
            assert(a.to_set().contains(x));
            let j = choose|j: int| 0 <= j < a.len() && a[j] == x;
            if j == 0 {
                assert(text_lt(b[0], b[i + 1]));
                crate::modloader::lemma_text_lt_irrefl(x);
            }
            assert(a2[j - 1] == x);
        }
        assert(a2.to_set() =~= b2.to_set());
        lemma_sorted_unique(a2, b2);
        assert(a =~= b) by {
            assert forall|i: int| 0 <= i < a.len() implies a[i] == b[i] by {
                if i > 0 {
                    assert(a2[i - 1] == b2[i - 1]);
                }
            }
        }
    }
}

/// The same strings, copied.
fn copy_texts(v: &Vec<String>) -> (r: Vec<String>)
    ensures
        texts(r@) == texts(v@),
{
    let mut out: Vec<String> = Vec::new();
    let mut k: usize = 0;
    while k < v.len()
        invariant
            k <= v@.len(),
            texts(out@) == texts(v@.take(k as int)),
        decreases v@.len() - k,
    {
        let ghost o = out@;
        out.push(v[k].clone());
        assert(texts(out@) =~= texts(o).push(v@[k as int]@));
        assert(texts(v@.take(k + 1)) =~= texts(v@.take(k as int)).push(v@[k as int]@));
        k += 1;
    }
    assert(v@.take(v@.len() as int) =~= v@);
    out
}

/// The lists as text.
pub open spec fn list_texts(ls: Seq<Vec<String>>) -> Seq<Seq<Seq<char>>> {
    ls.map_values(|l: Vec<String>| texts(l@))
}

/// The things' tag lists.
fn tag_lists(ts: &Vec<ThingDraft>) -> (r: Vec<Vec<String>>)
    ensures
        list_texts(r@) == tag_seqs(ts@),
{
    let mut out: Vec<Vec<String>> = Vec::new();
    let mut i: usize = 0;
    assert(list_texts(out@) =~= tag_seqs(ts@.take(0)));
    while i < ts.len()
        invariant
            i <= ts@.len(),
            list_texts(out@) == tag_seqs(ts@.take(i as int)),
        decreases ts@.len() - i,
    {
        let ghost before = list_texts(out@);
        let t = &ts[i];
        match &t.tool {
            Some(tl) => {
                out.push(copy_texts(&tl.tags));
            },
            None => {},
        }
        let ghost mid = list_texts(out@);
        let mut h: usize = 0;
        while h < t.harvest.len()
            invariant
                h <= t.harvest@.len(),
                list_texts(out@) == mid + t.harvest@.take(h as int).map_values(|x: HarvestDraft| texts(x.requires@)),
            decreases t.harvest@.len() - h,
        {
            let ghost o = list_texts(out@);
            out.push(copy_texts(&t.harvest[h].requires));
            assert(list_texts(out@) =~= o.push(texts(t.harvest@[h as int].requires@)));
            assert(t.harvest@.take(h + 1).map_values(|x: HarvestDraft| texts(x.requires@))
                =~= t.harvest@.take(h as int).map_values(|x: HarvestDraft| texts(x.requires@)).push(texts(t.harvest@[h as int].requires@)));
            h += 1;
        }
        proof {
            assert(t.harvest@.take(t.harvest@.len() as int) =~= t.harvest@);
            assert(ts@.take(i + 1).drop_last() =~= ts@.take(i as int));
            assert(mid =~= before + (match t.tool { Some(tl) => seq![texts(tl.tags@)], None => Seq::<Seq<Seq<char>>>::empty() }));
            assert(list_texts(out@) =~= before + thing_tag_seqs(ts@[i as int]));
        }
        i += 1;
    }
    assert(ts@.take(ts@.len() as int) =~= ts@);
    out
}

/// The tag set of some lists is the set of their texts.
proof fn lemma_tag_set(lists: Seq<Vec<String>>)
    ensures
        all_tags(lists) == tag_set(list_texts(lists)),
{
    let ls = list_texts(lists);
    assert forall|x: Seq<char>| all_tags(lists).contains(x) <==> tag_set(ls).contains(x) by {
        if all_tags(lists).contains(x) {
            let (i, j) = choose|i: int, j: int| 0 <= i < lists.len() && 0 <= j < lists[i]@.len() && (#[trigger] lists[i]@[j])@ == x;
            assert(ls[i][j] == x);
        }
        if tag_set(ls).contains(x) {
            let (i, j) = choose|i: int, j: int| 0 <= i < ls.len() && 0 <= j < ls[i].len() && #[trigger] ls[i][j] == x;
            assert(lists[i]@[j]@ == x);
        }
    }
    assert(all_tags(lists) =~= tag_set(ls));
}

/// The tag masks of a thing: its tool's, and each harvest's.
#[derive(Debug)]
pub struct ThingMasks {
    pub tool: Option<u64>,
    pub harvest: Vec<u64>,
}

/// A thing's masks cover its tags among the tag names.
pub open spec fn masks_ok(names: Seq<Seq<char>>, t: ThingDraft, m: ThingMasks) -> bool {
    &&& (match (t.tool, m.tool) {
        (Some(tl), Some(x)) => mask_covers(names, id_views(tl.tags@), x),
        (None, None) => true,
        _ => false,
    })
    &&& m.harvest@.len() == t.harvest@.len()
    &&& forall|j: int| 0 <= j < t.harvest@.len() ==> mask_covers(names, id_views(t.harvest@[j].requires@), #[trigger] m.harvest@[j])
}

/// Names the things' tool tags (in text order, at most 64) and turns
/// each tool's tags and each harvest's required tags into a mask.
fn settle_tags(ts: &Vec<ThingDraft>) -> (r: Result<(Vec<String>, Vec<ThingMasks>), String>)
    ensures
        match r {
            Err(e) => tags_error(ts@) == Some(e@),
            Ok((names, ms)) => {
                &&& tags_error(ts@) is None
                &&& id_views(names@) == tag_names(ts@)
                &&& ms@.len() == ts@.len()
                &&& forall|i: int| 0 <= i < ts@.len() ==> masks_ok(id_views(names@), ts@[i], #[trigger] ms@[i])
            },
        },
{
    let lists = tag_lists(ts);
    proof { lemma_tag_set(lists@); }
    let names = match tool_tags(lists.as_slice()) {
        Err(e) => {
            proof {
                let s = choose|s: Seq<Seq<char>>| sorted_text(s) && s.to_set() == all_tags(lists@) && s.len() > 64
                    && e@ == "more than 64 tool tags: "@ + join(s, ", "@);
                lemma_sorted_unique(s, tag_names(ts@));
            }
            return Err(e);
        },
        Ok(v) => v,
    };
    proof {
        lemma_sorted_unique(id_views(names@), tag_names(ts@));
    }
    let mut ms: Vec<ThingMasks> = Vec::new();
    let mut i: usize = 0;
    while i < ts.len()
        invariant
            i <= ts@.len(),
            names@.len() <= 64,
            ms@.len() == i,
            forall|q: int| 0 <= q < i ==> masks_ok(id_views(names@), ts@[q], #[trigger] ms@[q]),
        decreases ts@.len() - i,
    {
        let t = &ts[i];
        let tool = match &t.tool {
            Some(tl) => Some(tag_mask(names.as_slice(), tl.tags.as_slice())),
            None => None,
        };
        let mut hm: Vec<u64> = Vec::new();
        let mut h: usize = 0;
        while h < t.harvest.len()
            invariant
                h <= t.harvest@.len(),
                names@.len() <= 64,
                hm@.len() == h,
                forall|j: int| 0 <= j < h ==> mask_covers(id_views(names@), id_views(t.harvest@[j].requires@), #[trigger] hm@[j]),
            decreases t.harvest@.len() - h,
        {
            hm.push(tag_mask(names.as_slice(), t.harvest[h].requires.as_slice()));
            h += 1;
        }
        ms.push(ThingMasks { tool, harvest: hm });
        i += 1;
    }
    Ok((names, ms))
}

// ---------------------------------------------------------------- wear

/// The style that takes built things down: that of the first designation
/// aimed at built things, if it has one.
pub open spec fn take_down(ds: Seq<(Targets, Option<DefId>)>) -> Option<DefId>
    decreases ds.len(),
{
    if ds.len() == 0 {
        None
    } else if ds[0].0 == Targets::Built {
        ds[0].1
    } else {
        take_down(ds.drop_first())
    }
}

/// Designations as the wear check reads them: what they aim at, their style.
pub open spec fn desig_views(ds: Seq<DesignationDef>) -> Seq<(Targets, Option<DefId>)> {
    ds.map_values(|d: DesignationDef| (d.targets, d.style_r))
}

/// The style of designation `d`, if there is such a designation with one.
pub open spec fn desig_style(ds: Seq<(Targets, Option<DefId>)>, d: DefId) -> Option<DefId> {
    if (d as int) < ds.len() { ds[d as int].1 } else { None }
}

/// The styles that fell a thing: those of its destroying harvests'
/// designations, in harvest order (the first `k`).
pub open spec fn felled(ds: Seq<(Targets, Option<DefId>)>, hs: Seq<HarvestDraft>, hr: Seq<(DefId, Seq<(DefId, u32)>)>, k: int) -> Seq<DefId>
    decreases k,
{
    if k <= 0 {
        Seq::empty()
    } else {
        let before = felled(ds, hs, hr, k - 1);
        if hs[k - 1].destroy && desig_style(ds, hr[k - 1].0) is Some {
            before.push(desig_style(ds, hr[k - 1].0)->Some_0)
        } else {
            before
        }
    }
}

/// The styles that take a thing down: felling it, then dismantling it
/// when it was built.
pub open spec fn takers(ds: Seq<(Targets, Option<DefId>)>, t: ThingDraft, o: ThingOut) -> Seq<DefId> {
    felled(ds, t.harvest@, o.harvest, t.harvest@.len() as int) + (if t.build is Some && take_down(ds) is Some {
        seq![take_down(ds)->Some_0]
    } else {
        Seq::empty()
    })
}

/// The first of some styles that grows (or a style past the list).
pub open spec fn first_grow(sts: Seq<DefId>, styles: Seq<WorkStyleDef>) -> Option<DefId>
    decreases sts.len(),
{
    if sts.len() == 0 {
        None
    } else if (sts[0] as int) < styles.len() && styles[sts[0] as int].wear == Wear::Grow {
        Some(sts[0])
    } else {
        first_grow(sts.drop_first(), styles)
    }
}

/// The error for a style that grows taking down a thing that blocks.
pub open spec fn grow_error(st: Seq<char>, thing: Seq<char>) -> Seq<char> {
    "work_style/"@ + st + ": wear = \"grow\" can't take down thing/"@ + thing
        + ", which blocks: it would look open while it still stands. Use \"cracks\" or \"lean\""@
}

/// The first of the first `k` things that blocks and that a growing
/// style would take down.
pub open spec fn blocks_error(ds: Seq<(Targets, Option<DefId>)>, styles: Seq<WorkStyleDef>, ts: Seq<ThingDraft>, os: Seq<ThingOut>, k: int) -> Option<Seq<char>>
    decreases k,
{
    if k <= 0 {
        None
    } else {
        match blocks_error(ds, styles, ts, os, k - 1) {
            Some(e) => Some(e),
            None => if ts[k - 1].blocks {
                match first_grow(takers(ds, ts[k - 1], os[k - 1]), styles) {
                    Some(st) => Some(grow_error(styles[st as int].id@, ts[k - 1].id@)),
                    None => None,
                }
            } else {
                None
            },
        }
    }
}

fn find_take_down(ds: &Vec<DesignationDef>) -> (r: Option<DefId>)
    ensures
        r == take_down(desig_views(ds@)),
{
    let ghost dv = desig_views(ds@);
    let mut i: usize = 0;
    assert(dv.skip(0) =~= dv);
    while i < ds.len()
        invariant
            i <= ds@.len(),
            dv == desig_views(ds@),
            take_down(dv) == take_down(dv.skip(i as int)),
        decreases ds@.len() - i,
    {
        assert(dv.skip(i as int)[0] == dv[i as int]);
        assert(dv.skip(i as int).drop_first() =~= dv.skip(i + 1));
        if ds[i].targets == Targets::Built {
            return ds[i].style_r;
        }
        i += 1;
    }
    None
}

/// The styles that take a thing down.
fn thing_takers(ds: &Vec<DesignationDef>, t: &ThingDraft, o: &ThingSettled, td: Option<DefId>) -> (r: Vec<DefId>)
    requires
        td == take_down(desig_views(ds@)),
        thing_out(*o).harvest.len() == t.harvest@.len(),
    ensures
        r@ == takers(desig_views(ds@), *t, thing_out(*o)),
{
    let ghost hv = thing_out(*o).harvest;
    let mut out: Vec<DefId> = Vec::new();
    let mut k: usize = 0;
    while k < t.harvest.len()
        invariant
            k <= t.harvest@.len(),
            hv == thing_out(*o).harvest,
            hv.len() == t.harvest@.len(),
            hv.len() == o.harvest@.len(),
            out@ == felled(desig_views(ds@), t.harvest@, hv, k as int),
        decreases t.harvest@.len() - k,
    {
        assert(hv[k as int].0 == o.harvest@[k as int].0);
        let d = o.harvest[k].0;
        if t.harvest[k].destroy && (d as usize) < ds.len() {
            match ds[d as usize].style_r {
                Some(st) => {
                    out.push(st);
                },
                None => {},
            }
        }
        k += 1;
    }
    match (&t.build, td) {
        (Some(_), Some(st)) => {
            let ghost o1 = out@;
            out.push(st);
            assert(out@ =~= o1 + seq![st]);
        },
        _ => {
            assert(out@ =~= out@ + Seq::<DefId>::empty());
        },
    }
    out
}

/// Checks no growing style takes down a thing that blocks.
fn check_blocks(ds: &Vec<DesignationDef>, styles: &Vec<WorkStyleDef>, ts: &Vec<ThingDraft>, os: &Vec<ThingSettled>) -> (r: Result<(), String>)
    requires
        os@.len() == ts@.len(),
        forall|i: int| 0 <= i < ts@.len() ==> thing_out(#[trigger] os@[i]).harvest.len() == ts@[i].harvest@.len(),
    ensures
        match r {
            Ok(()) => blocks_error(desig_views(ds@), styles@, ts@, os@.map_values(|o: ThingSettled| thing_out(o)), ts@.len() as int) is None,
            Err(e) => blocks_error(desig_views(ds@), styles@, ts@, os@.map_values(|o: ThingSettled| thing_out(o)), ts@.len() as int) == Some(e@),
        },
{
    let ghost ov = os@.map_values(|o: ThingSettled| thing_out(o));
    let td = find_take_down(ds);
    let mut i: usize = 0;
    while i < ts.len()
        invariant
            i <= ts@.len(),
            os@.len() == ts@.len(),
            td == take_down(desig_views(ds@)),
            ov == os@.map_values(|o: ThingSettled| thing_out(o)),
            forall|q: int| 0 <= q < ts@.len() ==> thing_out(#[trigger] os@[q]).harvest.len() == ts@[q].harvest@.len(),
            blocks_error(desig_views(ds@), styles@, ts@, ov, i as int) is None,
        decreases ts@.len() - i,
    {
        if ts[i].blocks {
            let sts = thing_takers(ds, &ts[i], &os[i], td);
            assert(ov[i as int] == thing_out(os@[i as int]));
            let mut k: usize = 0;
            assert(sts@.skip(0) =~= sts@);
            while k < sts.len()
                invariant
                    k <= sts@.len(),
                    i < ts@.len(),
                    ov == os@.map_values(|o: ThingSettled| thing_out(o)),
                    ov.len() == ts@.len(),
                    ts@[i as int].blocks,
                    sts@ == takers(desig_views(ds@), ts@[i as int], ov[i as int]),
                    blocks_error(desig_views(ds@), styles@, ts@, ov, i as int) is None,
                    first_grow(sts@, styles@) == first_grow(sts@.skip(k as int), styles@),
                decreases sts@.len() - k,
            {
                assert(sts@.skip(k as int)[0] == sts@[k as int]);
                assert(sts@.skip(k as int).drop_first() =~= sts@.skip(k + 1));
                let st = sts[k] as usize;
                if st < styles.len() && styles[st].wear == Wear::Grow {
                    let mut e = String::from_str("work_style/");
                    e.append(styles[st].id.as_str());
                    e.append(": wear = \"grow\" can't take down thing/");
                    e.append(ts[i].id.as_str());
                    e.append(", which blocks: it would look open while it still stands. Use \"cracks\" or \"lean\"");
                    proof {
                        assert(blocks_error(desig_views(ds@), styles@, ts@, ov, i + 1) == Some(e@));
                        lemma_blocks_err(desig_views(ds@), styles@, ts@, ov, i + 1, ts@.len() as int);
                    }
                    return Err(e);
                }
                k += 1;
            }
        }
        i += 1;
    }
    Ok(())
}

proof fn lemma_blocks_err(ds: Seq<(Targets, Option<DefId>)>, styles: Seq<WorkStyleDef>, ts: Seq<ThingDraft>, os: Seq<ThingOut>, i: int, n: int)
    requires
        0 <= i <= n,
        blocks_error(ds, styles, ts, os, i) is Some,
    ensures
        blocks_error(ds, styles, ts, os, n) == blocks_error(ds, styles, ts, os, i),
    decreases n - i,
{
    if i < n {
        lemma_blocks_err(ds, styles, ts, os, i, n - 1);
    }
}

// ---------------------------------------------------------------- settling

/// A def known by its id.
pub trait Named {
    spec fn name_view(&self) -> Seq<char>;

    fn name(&self) -> (r: &str)
        ensures
            r@ == self.name_view(),
    ;
}

impl Named for TerrainDraft {
    open spec fn name_view(&self) -> Seq<char> { self.id@ }
    fn name(&self) -> (r: &str) { self.id.as_str() }
}

impl Named for ThingDraft {
    open spec fn name_view(&self) -> Seq<char> { self.id@ }
    fn name(&self) -> (r: &str) { self.id.as_str() }
}

impl Named for CreatureDraft {
    open spec fn name_view(&self) -> Seq<char> { self.id@ }
    fn name(&self) -> (r: &str) { self.id.as_str() }
}

impl Named for NeedDraft {
    open spec fn name_view(&self) -> Seq<char> { self.id@ }
    fn name(&self) -> (r: &str) { self.id.as_str() }
}

impl Named for DesignationDef {
    open spec fn name_view(&self) -> Seq<char> { self.id@ }
    fn name(&self) -> (r: &str) { self.id.as_str() }
}

impl Named for WorkTypeDef {
    open spec fn name_view(&self) -> Seq<char> { self.id@ }
    fn name(&self) -> (r: &str) { self.id.as_str() }
}

impl Named for WorkStyleDef {
    open spec fn name_view(&self) -> Seq<char> { self.id@ }
    fn name(&self) -> (r: &str) { self.id.as_str() }
}

impl Named for SkillDef {
    open spec fn name_view(&self) -> Seq<char> { self.id@ }
    fn name(&self) -> (r: &str) { self.id.as_str() }
}

impl Named for StanceDef {
    open spec fn name_view(&self) -> Seq<char> { self.id@ }
    fn name(&self) -> (r: &str) { self.id.as_str() }
}

impl Named for FieldDraft {
    open spec fn name_view(&self) -> Seq<char> { self.id@ }
    fn name(&self) -> (r: &str) { self.id.as_str() }
}

/// The index entries of one kind: each def by its id and place.
pub open spec fn entries_of<T: Named>(kind: Seq<char>, v: Seq<T>) -> Seq<(Seq<char>, Seq<char>, DefId)> {
    Seq::new(v.len(), |i: int| (kind, v[i].name_view(), i as DefId))
}

/// Adds the defs of one kind to the index.
fn index_list<T: Named>(index: &mut Vec<(String, String, DefId)>, kind: &str, v: &Vec<T>)
    requires
        v@.len() <= u16::MAX + 1,
    ensures
        index_view(final(index)@) == index_view(old(index)@) + entries_of(kind@, v@),
{
    let ghost i0 = index_view(index@);
    let mut i: usize = 0;
    while i < v.len()
        invariant
            i <= v@.len(),
            v@.len() <= u16::MAX + 1,
            index_view(index@) == i0 + entries_of(kind@, v@).take(i as int),
        decreases v@.len() - i,
    {
        let ghost before = index_view(index@);
        let name = v[i].name();
        index.push((String::from_str(kind), String::from_str(name), #[verifier::truncate] (i as DefId)));
        assert(index_view(index@) =~= before.push((kind@, v@[i as int].name_view(), i as DefId)));
        assert(entries_of(kind@, v@).take(i + 1) =~= entries_of(kind@, v@).take(i as int).push((kind@, v@[i as int].name_view(), i as DefId)));
        i += 1;
    }
    assert(entries_of(kind@, v@).take(v@.len() as int) =~= entries_of(kind@, v@));
}

/// The game's start: its id and the creature it starts with.
#[derive(Debug)]
pub struct StartDraft {
    pub id: String,
    pub creature: String,
}

/// The defs as plain values, as the mods left them.
#[derive(Debug)]
pub struct DefsDraft {
    pub terrain: Vec<TerrainDraft>,
    pub things: Vec<ThingDraft>,
    pub creatures: Vec<CreatureDraft>,
    pub needs: Vec<NeedDraft>,
    pub designations: Vec<DesignationDef>,
    pub work_types: Vec<WorkTypeDef>,
    pub work_styles: Vec<WorkStyleDef>,
    pub skills: Vec<SkillDef>,
    pub stances: Vec<StanceDef>,
    pub fields: Vec<FieldDraft>,
    pub priority_scale: PriorityScaleDef,
    pub calendar: CalendarDef,
    pub rules: Vec<RuleDef>,
    pub start: Option<StartDraft>,
}

/// What settling the defs decides besides the defs themselves.
#[derive(Debug)]
pub struct Settled {
    /// Every def by kind and id.
    pub index: Vec<(String, String, DefId)>,
    pub work: WorkSetup,
    pub rules: RuleSetup,
    /// The tool tags, in text order; a mask's bit `i` is tag `i`.
    pub tool_tags: Vec<String>,
    /// Each thing's tag masks.
    pub masks: Vec<ThingMasks>,
    pub things: Vec<ThingSettled>,
    pub creatures: Vec<CreatureSettled>,
    /// The creature the game starts with.
    pub start_creature: DefId,
}

/// Every list fits its ids.
pub open spec fn draft_fits(d: DefsDraft) -> bool {
    &&& d.terrain@.len() <= u16::MAX + 1
    &&& d.things@.len() <= u16::MAX + 1
    &&& d.creatures@.len() <= u16::MAX + 1
    &&& d.needs@.len() <= u16::MAX + 1
    &&& d.designations@.len() <= u16::MAX + 1
    &&& d.work_types@.len() <= u16::MAX + 1
    &&& d.work_styles@.len() <= u16::MAX + 1
    &&& d.skills@.len() <= u16::MAX + 1
    &&& d.stances@.len() <= u16::MAX + 1
    &&& d.fields@.len() <= u16::MAX + 1
    &&& d.calendar.seasons@.len() <= u32::MAX
}

/// The index of the defs: kind by kind (terrain, things, creatures, needs,
/// designations, work types, work styles, skills, stances, fields), each
/// def by its id and place.
pub open spec fn draft_index(d: DefsDraft) -> Seq<(Seq<char>, Seq<char>, DefId)> {
    entries_of("terrain"@, d.terrain@) + entries_of("thing"@, d.things@) + entries_of("creature"@, d.creatures@)
        + entries_of("need"@, d.needs@) + entries_of("designation"@, d.designations@) + entries_of("work_type"@, d.work_types@)
        + entries_of("work_style"@, d.work_styles@) + entries_of("skill"@, d.skills@) + entries_of("stance"@, d.stances@)
        + entries_of("field"@, d.fields@)
}

/// The calendar's seasons once settled: a single "year" when none is named.
pub open spec fn seasons_after(c: CalendarDef) -> Seq<Seq<char>> {
    if c.seasons@.len() == 0 { seq!["year"@] } else { id_views(c.seasons@) }
}

/// The designations as settled (their styles), as the wear check reads them.
pub open spec fn settled_desig_views(ix: Seq<(Seq<char>, Seq<char>, DefId)>, ds: Seq<DesignationDef>) -> Seq<(Targets, Option<DefId>)> {
    Seq::new(ds.len(), |i: int| (ds[i].targets, desig_res(ix, ds[i])->Ok_0.2))
}

/// The things as settled.
pub open spec fn thing_outs(ix: Seq<(Seq<char>, Seq<char>, DefId)>, fields: Seq<FieldDraft>, ts: Seq<ThingDraft>) -> Seq<ThingOut> {
    Seq::new(ts.len(), |i: int| thing_res(ix, fields, ts[i])->Ok_0)
}

/// What the start's creature resolves to.
pub open spec fn start_res(ix: Seq<(Seq<char>, Seq<char>, DefId)>, s: StartDraft) -> Result<DefId, Seq<char>> {
    ref_in(ix, "creature"@, s.creature@, named("start"@, s.id@), home_of_spec(s.id@))
}

/// The first error settling the defs meets, in this order: terrain
/// colours; needs; designations; work styles, the priority scale, work
/// types' jobs and skills, the melee skill; priority rules; too many tool
/// tags; things; creatures; the start's creature; a growing style taking
/// down a thing that blocks; no terrain; no start.
pub open spec fn finalize_error(d: DefsDraft) -> Option<Seq<char>> {
    let ix = draft_index(d);
    if let Some(e) = terrain_error(d.terrain@, d.terrain@.len() as int) {
        Some(e)
    } else if let Some(e) = needs_error(ix, d.needs@, d.needs@.len() as int) {
        Some(e)
    } else if let Some(e) = desigs_error(ix, d.designations@, d.designations@.len() as int) {
        Some(e)
    } else if let Some(e) = work_error(ix, d.work_styles@, d.priority_scale, d.work_types@, d.skills@) {
        Some(e)
    } else if let Some(e) = rules_error(ix, seasons_after(d.calendar), d.rules@, d.rules@.len() as int) {
        Some(e)
    } else if let Some(e) = tags_error(d.things@) {
        Some(e)
    } else if let Some(e) = things_error(ix, d.fields@, d.things@, d.things@.len() as int) {
        Some(e)
    } else if let Some(e) = creatures_error(ix, d.creatures@, d.creatures@.len() as int) {
        Some(e)
    } else if d.start matches Some(s) && start_res(ix, s) is Err {
        Some(start_res(ix, d.start->Some_0)->Err_0)
    } else if let Some(e) = blocks_error(
        settled_desig_views(ix, d.designations@), d.work_styles@, d.things@, thing_outs(ix, d.fields@, d.things@), d.things@.len() as int,
    ) {
        Some(e)
    } else if d.terrain@.len() == 0 {
        Some("no terrain defined \u{2014} is the core mod installed?"@)
    } else if d.start is None {
        Some("no [[start]] defined \u{2014} is the core mod installed?"@)
    } else {
        None
    }
}

/// The work defs settled as `settle_work` settles them.
pub open spec fn work_settled(ix: Seq<(Seq<char>, Seq<char>, DefId)>, d: DefsDraft, wt: Seq<WorkTypeDef>, ws: WorkSetup) -> bool {
    let w0 = d.work_types@;
    &&& styles_result(d.work_styles@, d.work_styles@.len() as int) == Ok::<Option<DefId>, Seq<char>>(ws.build_style)
    &&& ({
        let c = claims_result(w0, w0.len() as int)->Ok_0;
        &&& ws.build_work == (match c.0 { Some(x) => Some(x as DefId), None => None::<DefId> })
        &&& ws.haul_work == (match c.1 { Some(x) => Some(x as DefId), None => None::<DefId> })
    })
    &&& ({
        let ms = melee_skills(d.skills@, d.skills@.len() as int);
        ws.melee_skill == (if ms.len() == 1 { Some(ms[0] as DefId) } else { None })
    })
    &&& work_order_ok(w0, ws.work_order@)
    &&& (match ws.default_stance {
        Some(st) => first_stance(d.stances@, st as int),
        None => d.stances@.len() == 0,
    })
    &&& wt.len() == w0.len()
    &&& forall|k: int| 0 <= k < w0.len() ==> {
        &&& (#[trigger] wt[k]).id == w0[k].id
        &&& wt[k].jobs@ == w0[k].jobs@
        &&& wt[k].order == w0[k].order
        &&& wt[k].priority == crate::min_int(w0[k].priority as int, d.priority_scale.levels as int)
        &&& wt[k].skill_r == skills_result(ix, w0, w0.len() as int)->Ok_0[k]
    }
}

/// The defs `b` and the rest `s` are the draft `a` settled: the index
/// built; terrain, need and designation colours and references; work
/// types' priorities and skills; the calendar normalised; rules, tool
/// tags and masks, things, creatures and the start resolved.
pub open spec fn draft_settled(a: DefsDraft, b: DefsDraft, s: Settled) -> bool {
    let ix = draft_index(a);
    &&& index_view(s.index@) == ix
    &&& b.terrain@.len() == a.terrain@.len()
    &&& forall|i: int| 0 <= i < a.terrain@.len() ==> {
        &&& (#[trigger] b.terrain@[i]).id@ == a.terrain@[i].id@
        &&& b.terrain@[i].color@ == a.terrain@[i].color@
        &&& terrain_res(a.terrain@[i]) == Ok::<Seq<u8>, Seq<char>>(b.terrain@[i].rgb@)
    }
    &&& b.needs@.len() == a.needs@.len()
    &&& forall|i: int| 0 <= i < a.needs@.len() ==> {
        &&& (#[trigger] b.needs@[i]).id@ == a.needs@[i].id@
        &&& b.needs@[i].color@ == a.needs@[i].color@
        &&& b.needs@[i].say_ok == a.needs@[i].say_ok
        &&& b.needs@[i].by_field == a.needs@[i].by_field
        &&& b.needs@[i].field@ == a.needs@[i].field@
        &&& need_res(ix, a.needs@[i]) == Ok::<(Seq<u8>, DefId), Seq<char>>((b.needs@[i].rgb@, b.needs@[i].field_r))
    }
    &&& b.designations@.len() == a.designations@.len()
    &&& forall|i: int| 0 <= i < a.designations@.len() ==> desig_settled(ix, a.designations@[i], #[trigger] b.designations@[i])
    &&& work_settled(ix, a, b.work_types@, s.work)
    &&& b.calendar.id == a.calendar.id
    &&& b.calendar.year_days == crate::max_int(a.calendar.year_days as int, 1)
    &&& id_views(b.calendar.seasons@) == seasons_after(a.calendar)
    &&& b.calendar.start_day == a.calendar.start_day % b.calendar.year_days
    &&& s.rules.rules@.len() == a.rules@.len()
    &&& forall|i: int| 0 <= i < a.rules@.len() ==> crate::priority::settled_as(ix, seasons_after(a.calendar), a.priority_scale.levels, a.rules@[i], #[trigger] s.rules.rules@[i])
    &&& s.rules.read_hour == exists|i: int| 0 <= i < a.rules@.len() && (#[trigger] a.rules@[i]).hours is Some
    &&& s.rules.read_season == exists|i: int| 0 <= i < a.rules@.len() && (#[trigger] a.rules@[i]).season@.len() > 0
    &&& id_views(s.tool_tags@) == tag_names(a.things@)
    &&& s.masks@.len() == a.things@.len()
    &&& forall|i: int| 0 <= i < a.things@.len() ==> masks_ok(id_views(s.tool_tags@), a.things@[i], #[trigger] s.masks@[i])
    &&& s.things@.len() == a.things@.len()
    &&& forall|i: int| 0 <= i < a.things@.len() ==> thing_res(ix, a.fields@, a.things@[i]) == Ok::<ThingOut, Seq<char>>(thing_out(#[trigger] s.things@[i]))
    &&& s.creatures@.len() == a.creatures@.len()
    &&& forall|i: int| 0 <= i < a.creatures@.len() ==> creature_res(ix, a.creatures@[i]) == Ok::<CreatureOut, Seq<char>>(creature_out(#[trigger] s.creatures@[i]))
    &&& a.start matches Some(st) && start_res(ix, st) == Ok::<DefId, Seq<char>>(s.start_creature)
    &&& b.things == a.things && b.creatures == a.creatures && b.fields == a.fields && b.work_styles == a.work_styles
    &&& b.skills == a.skills && b.stances == a.stances && b.priority_scale == a.priority_scale && b.rules == a.rules
    &&& b.start == a.start
}

proof fn lemma_thing_harvests(ix: Seq<(Seq<char>, Seq<char>, DefId)>, fields: Seq<FieldDraft>, t: ThingDraft)
    ensures
        thing_res(ix, fields, t) matches Ok(o) ==> o.harvest.len() == t.harvest@.len(),
{
    lemma_harvests_len(ix, t.harvest@, named("thing"@, t.id@), home_of_spec(t.id@));
}

/// Builds the index of the defs and settles them (see `finalize_error`
/// for what is checked and in what order, `draft_settled` for what comes
/// out).
#[verifier::spinoff_prover]
#[verifier::rlimit(80)]
pub fn finalize(d: &mut DefsDraft) -> (r: Result<Settled, String>)
    requires
        draft_fits(*old(d)),
    ensures
        r is Ok <==> finalize_error(*old(d)) is None,
        r matches Err(e) ==> finalize_error(*old(d)) == Some(e@),
        r matches Ok(s) ==> draft_settled(*old(d), *final(d), s),
{
    let ghost d0 = *d;
    let mut index: Vec<(String, String, DefId)> = Vec::new();
    index_list(&mut index, "terrain", &d.terrain);
    index_list(&mut index, "thing", &d.things);
    index_list(&mut index, "creature", &d.creatures);
    index_list(&mut index, "need", &d.needs);
    index_list(&mut index, "designation", &d.designations);
    index_list(&mut index, "work_type", &d.work_types);
    index_list(&mut index, "work_style", &d.work_styles);
    index_list(&mut index, "skill", &d.skills);
    index_list(&mut index, "stance", &d.stances);
    index_list(&mut index, "field", &d.fields);
    let ghost ix = draft_index(d0);
    assert(index_view(index@) =~= ix);

    let mut ts: Vec<TerrainDraft> = Vec::new();
    std::mem::swap(&mut ts, &mut d.terrain);
    d.terrain = settle_terrain(ts)?;

    d.calendar.settle();
    proof {
        if d0.calendar.seasons@.len() == 0 {
            assert(id_views(d.calendar.seasons@) =~= seq!["year"@]);
        }
    }

    let mut ns: Vec<NeedDraft> = Vec::new();
    std::mem::swap(&mut ns, &mut d.needs);
    d.needs = settle_needs(&index, ns)?;

    let mut ds: Vec<DesignationDef> = Vec::new();
    std::mem::swap(&mut ds, &mut d.designations);
    d.designations = settle_desigs(&index, ds)?;

    let work = settle_work(index.as_slice(), d.work_styles.as_slice(), &d.priority_scale, &mut d.work_types, d.skills.as_slice(), d.stances.as_slice())?;

    let rules = settle_rules(index.as_slice(), d.calendar.seasons.as_slice(), d.priority_scale.levels, d.rules.as_slice())?;

    let (tool_tags, masks) = settle_tags(&d.things)?;
    let things = settle_things(&index, &d.fields, &d.things)?;
    let creatures = settle_creatures(&index, &d.creatures)?;
    let start_creature = match &d.start {
        Some(st) => {
            let ctx = def_ctx("start", st.id.as_str());
            let home = home_of(st.id.as_str());
            match get_ref(&index, "creature", st.creature.as_str(), ctx.as_str(), home.as_str()) {
                Err(e) => return Err(e),
                Ok(c) => Some(c),
            }
        },
        None => None,
    };
    proof {
        assert forall|i: int| 0 <= i < d.things@.len() implies thing_out(#[trigger] things@[i]).harvest.len() == d.things@[i].harvest@.len() by {
            lemma_thing_harvests(ix, d.fields@, d.things@[i]);
        }
        assert(desig_views(d.designations@) =~= settled_desig_views(ix, d0.designations@));
        assert(things@.map_values(|o: ThingSettled| thing_out(o)) =~= thing_outs(ix, d.fields@, d.things@));
    }
    check_blocks(&d.designations, &d.work_styles, &d.things, &things)?;
    if d.terrain.len() == 0 {
        return Err(String::from_str("no terrain defined \u{2014} is the core mod installed?"));
    }
    let start_creature = match start_creature {
        Some(c) => c,
        None => return Err(String::from_str("no [[start]] defined \u{2014} is the core mod installed?")),
    };
    Ok(Settled { index, work, rules, tool_tags, masks, things, creatures, start_creature })
}

} // verus!
