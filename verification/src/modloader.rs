//! Mods: their manifests, the engine API they target, and the order they
//! load in.
use vstd::prelude::*;
use std::path::PathBuf;
use crate::text::{chars_of, str_eq};

verus! {

#[verifier::external_type_specification]
#[verifier::external_body]
pub struct ExPathBuf(std::path::PathBuf);

/// A mod's `mod.toml`, and the folder it was read from.
pub struct ModManifest {
    pub id: String,
    pub name: String,
    pub version: String,
    pub api: String,
    /// The UI scripting surface the mod's `ui/` scripts were written
    /// against, when it has any.
    pub ui_api: Option<String>,
    pub description: String,
    pub depends: Vec<String>,
    /// Mods this one uses when they're installed: it may `require` them, and
    /// loads after them if they're there.
    pub optional: Vec<String>,
    pub load_after: Vec<String>,
    pub dir: PathBuf,
}

pub struct ScriptSource {
    pub mod_id: String,
    /// Path under the mod's `scripts/`, with `/` separators: `storyteller.luau`, `lib/util.luau`.
    pub name: String,
    pub source: String,
    /// Top-level scripts run at load, in name order. Scripts in
    /// subdirectories are modules: they run only when something requires them.
    pub entry: bool,
}

// ---------------------------------------------------------------- api versions

/// The value of a run of decimal digits.
pub open spec fn digits_value(d: Seq<char>) -> int
    decreases d.len(),
{
    if d.len() == 0 {
        0
    } else {
        digits_value(d.drop_last()) * 10 + (d.last() as int - '0' as int)
    }
}

/// A decimal digit.
pub open spec fn is_digit(c: char) -> bool {
    '0' <= c <= '9'
}

/// A `u32` as `str::parse` reads it: an optional `+`, then at least one
/// digit, and no more than `u32::MAX`.
pub open spec fn parse_u32_spec(s: Seq<char>) -> Option<u32> {
    let d = unsigned_digits(s);
    if d.len() > 0 && all_digits(d) && digits_value(d) <= u32::MAX {
        Some(digits_value(d) as u32)
    } else {
        None
    }
}

/// The digits of an unsigned number: after a leading `+`, if any.
pub open spec fn unsigned_digits(s: Seq<char>) -> Seq<char> {
    if s.len() > 0 && s[0] == '+' { s.drop_first() } else { s }
}

/// Every character is a decimal digit.
pub open spec fn all_digits(d: Seq<char>) -> bool {
    forall|k: int| 0 <= k < d.len() ==> #[trigger] is_digit(d[k])
}

/// Reads a `u32` from a run of characters.
fn parse_u32(s: &[char]) -> (r: Option<u32>)
    ensures
        r == parse_u32_spec(s@),
{
    let start: usize = if s.len() > 0 && s[0] == '+' { 1 } else { 0 };
    let ghost d = unsigned_digits(s@);
    assert(d =~= s@.skip(start as int));
    if start >= s.len() {
        return None;
    }
    let mut v: u64 = 0;
    let mut k: usize = start;
    while k < s.len()
        invariant
            start <= k <= s@.len(),
            d == unsigned_digits(s@),
            d =~= s@.skip(start as int),
            forall|j: int| 0 <= j < k - start ==> #[trigger] is_digit(d[j]),
            v == digits_value(d.take(k - start)),
            v <= u32::MAX,
        decreases s@.len() - k,
    {
        let c = s[k];
        if !('0' <= c && c <= '9') {
            assert(!is_digit(d[k - start]));
            assert(!all_digits(d));
            return None;
        }
        proof {
            assert(d.take(k - start + 1).drop_last() =~= d.take(k - start));
        }
        v = v * 10 + (c as u32 - '0' as u32) as u64;
        if v > 0xffff_ffff {
            proof {
                if all_digits(d) {
                    lemma_digits_grow(d, k - start + 1);
                }
            }
            return None;
        }
        k += 1;
    }
    assert(d.take(k - start) =~= d);
    Some(v as u32)
}

/// Reading more digits never gives a smaller number.
proof fn lemma_digits_grow(d: Seq<char>, k: int)
    requires
        0 <= k <= d.len(),
        forall|j: int| 0 <= j < d.len() ==> #[trigger] is_digit(d[j]),
    ensures
        digits_value(d.take(k)) <= digits_value(d),
    decreases d.len() - k,
{
    if k < d.len() {
        lemma_digits_grow(d, k + 1);
        assert(d.take(k + 1).drop_last() =~= d.take(k));
        assert(is_digit(d[k]));
        lemma_digits_nonneg(d.take(k));
        let a = digits_value(d.take(k));
        let c = d[k] as int - '0' as int;
        assert(a <= a * 10 + c) by (nonlinear_arith)
            requires
                a >= 0,
                c >= 0,
        ;
    } else {
        assert(d.take(k) =~= d);
    }
}

proof fn lemma_digits_nonneg(d: Seq<char>)
    requires
        forall|j: int| 0 <= j < d.len() ==> #[trigger] is_digit(d[j]),
    ensures
        digits_value(d) >= 0,
    decreases d.len(),
{
    if d.len() > 0 {
        lemma_digits_nonneg(d.drop_last());
        assert(is_digit(d[d.len() - 1]));
    }
}

/// Where the first `.` stands, if there is one.
pub open spec fn first_dot(s: Seq<char>, k: int) -> bool {
    0 <= k < s.len() && s[k] == '.' && forall|j: int| 0 <= j < k ==> s[j] != '.'
}

/// An api version as written: `MAJOR.MINOR`, split at the first `.`.
pub open spec fn api_version_spec(s: Seq<char>) -> Option<(u32, u32)> {
    if exists|k: int| first_dot(s, k) {
        let k = choose|k: int| first_dot(s, k);
        match (parse_u32_spec(s.take(k)), parse_u32_spec(s.skip(k + 1))) {
            (Some(a), Some(b)) => Some((a, b)),
            _ => None,
        }
    } else {
        None
    }
}

/// Whether the engine provides the api a mod targets. Before 1.0 every
/// minor is breaking; after, minors are additive.
pub open spec fn api_ok(maj: u32, min: u32) -> bool {
    maj == crate::API_VERSION.0 && if maj == 0 { min == crate::API_VERSION.1 } else { min <= crate::API_VERSION.1 }
}

/// Before 1.0 every minor is breaking: a manifest whose api reads as major
/// 0 is accepted exactly when its minor is the engine's, 6, and otherwise
/// told what the engine provides. After 1.0 (a major other than the
/// engine's 0) nothing is accepted.
pub proof fn law_pre_one_minor_must_match(id: Seq<char>, api: Seq<char>)
    requires
        api_version_spec(api) is Some,
    ensures
        api_version_spec(api).unwrap().0 == 0 ==> (check_api_spec(id, api) is Ok <==> api_version_spec(api).unwrap().1 == 6),
        api_version_spec(api).unwrap().0 != 0 ==> check_api_spec(id, api) is Err,
        check_api_spec(id, api) is Err ==> check_api_spec(id, api) == Err::<(), Seq<char>>(
            "mod '"@ + id + "' targets api "@ + api + " but the engine provides 0.6"@,
        ),
{
}

/// What checking a manifest's api says.
pub open spec fn check_api_spec(id: Seq<char>, api: Seq<char>) -> Result<(), Seq<char>> {
    match api_version_spec(api) {
        None => Err("mod '"@ + id + "': bad api version '"@ + api + "'"@),
        Some((maj, min)) => if api_ok(maj, min) {
            Ok(())
        } else {
            Err("mod '"@ + id + "' targets api "@ + api + " but the engine provides 0.6"@)
        },
    }
}

/// Checks that the engine provides the api version a mod targets.
pub fn check_api(m: &ModManifest) -> (r: Result<(), String>)
    ensures
        match (r, check_api_spec(m.id@, m.api@)) {
            (Ok(()), Ok(())) => true,
            (Err(e), Err(se)) => e@ == se,
            _ => false,
        },
{
    let cs = chars_of(m.api.as_str());
    let mut k: usize = 0;
    while k < cs.len() && cs[k] != '.'
        invariant
            cs@ == m.api@,
            k <= cs@.len(),
            forall|j: int| 0 <= j < k ==> cs@[j] != '.',
        decreases cs@.len() - k,
    {
        k += 1;
    }
    let parsed = if k < cs.len() {
        proof {
            assert(first_dot(m.api@, k as int));
            assert forall|j: int| first_dot(m.api@, j) implies j == k by {
                if j < k {
                    assert(cs@[j] != '.');
                } else if j > k {
                    assert(m.api@[k as int] == '.');
                }
            }
        }
        let head = crate::text::string_of_range(cs.as_slice(), 0, k);
        let tail = crate::text::string_of_range(cs.as_slice(), k + 1, cs.len());
        let hc = chars_of(head.as_str());
        let tc = chars_of(tail.as_str());
        assert(hc@ =~= m.api@.take(k as int));
        assert(tc@ =~= m.api@.skip(k as int + 1));
        match (parse_u32(hc.as_slice()), parse_u32(tc.as_slice())) {
            (Some(a), Some(b)) => Some((a, b)),
            _ => None,
        }
    } else {
        assert(!exists|j: int| first_dot(m.api@, j));
        None
    };
    match parsed {
        None => {
            let mut e = String::from_str("mod '");
            e.append(m.id.as_str());
            e.append("': bad api version '");
            e.append(m.api.as_str());
            e.append("'");
            Err(e)
        },
        Some((maj, min)) => {
            let ok = maj == crate::API_VERSION.0 && if maj == 0 {
                min == crate::API_VERSION.1
            } else {
                min <= crate::API_VERSION.1
            };
            if !ok {
                let mut e = String::from_str("mod '");
                e.append(m.id.as_str());
                e.append("' targets api ");
                e.append(m.api.as_str());
                e.append(" but the engine provides ");
                e.append(crate::text::decimal(crate::API_VERSION.0 as u64).as_str());
                e.append(".");
                e.append(crate::text::decimal(crate::API_VERSION.1 as u64).as_str());
                proof {
                    reveal_strlit(" but the engine provides ");
                    reveal_strlit(".");
                    reveal_strlit(" but the engine provides 0.6");
                    assert(crate::text::decimal_spec(0nat) == seq!['0']);
                    assert(crate::text::decimal_spec(6nat) == seq!['6']);
                    assert(" but the engine provides "@ + seq!['0'] + "."@ + seq!['6'] =~= " but the engine provides 0.6"@);
                }
                Err(e)
            } else {
                Ok(())
            }
        },
    }
}


// ---------------------------------------------------------------- load order

/// Text order by code point, as `String` compares on the UTF-8 it holds
/// (byte order and code-point order agree on UTF-8).
pub open spec fn text_lt(a: Seq<char>, b: Seq<char>) -> bool
    decreases a.len(),
{
    if b.len() == 0 {
        false
    } else if a.len() == 0 {
        true
    } else if a[0] != b[0] {
        (a[0] as int) < (b[0] as int)
    } else {
        text_lt(a.drop_first(), b.drop_first())
    }
}

pub(crate) proof fn lemma_text_lt_irrefl(a: Seq<char>)
    ensures
        !text_lt(a, a),
    decreases a.len(),
{
    if a.len() > 0 {
        lemma_text_lt_irrefl(a.drop_first());
    }
}

pub(crate) proof fn lemma_text_lt_trans(a: Seq<char>, b: Seq<char>, c: Seq<char>)
    requires
        text_lt(a, b),
        text_lt(b, c),
    ensures
        text_lt(a, c),
    decreases a.len(),
{
    if a.len() > 0 && b.len() > 0 && c.len() > 0 && a[0] == b[0] && b[0] == c[0] {
        lemma_text_lt_trans(a.drop_first(), b.drop_first(), c.drop_first());
    }
}

pub(crate) proof fn lemma_text_lt_total(a: Seq<char>, b: Seq<char>)
    requires
        a != b,
    ensures
        text_lt(a, b) || text_lt(b, a),
    decreases a.len(),
{
    if a.len() > 0 && b.len() > 0 && a[0] == b[0] {
        if a.drop_first() == b.drop_first() {
            assert(a =~= seq![a[0]] + a.drop_first());
            assert(b =~= seq![b[0]] + b.drop_first());
        }
        lemma_text_lt_total(a.drop_first(), b.drop_first());
    } else if a.len() == 0 && b.len() == 0 {
        assert(a =~= b);
    } else if a.len() > 0 && b.len() > 0 {
        assert((a[0] as int) != (b[0] as int));
    }
}

pub(crate) proof fn lemma_text_lt_asym(a: Seq<char>, b: Seq<char>)
    requires
        text_lt(a, b),
    ensures
        !text_lt(b, a),
{
    if text_lt(b, a) {
        lemma_text_lt_trans(a, b, a);
        lemma_text_lt_irrefl(a);
    }
}

/// Code-point order on two strings.
pub(crate) fn text_less(a: &str, b: &str) -> (r: bool)
    ensures
        r == text_lt(a@, b@),
{
    let x = chars_of(a);
    let y = chars_of(b);
    let mut k: usize = 0;
    assert(a@.skip(0) =~= a@);
    assert(b@.skip(0) =~= b@);
    while k < x.len() && k < y.len() && x[k] == y[k]
        invariant
            x@ == a@,
            y@ == b@,
            k <= x@.len(),
            k <= y@.len(),
            forall|j: int| 0 <= j < k ==> x@[j] == y@[j],
            text_lt(a@, b@) == text_lt(a@.skip(k as int), b@.skip(k as int)),
        decreases x@.len() - k,
    {
        proof {
            assert(a@.skip(k as int).drop_first() =~= a@.skip(k as int + 1));
            assert(b@.skip(k as int).drop_first() =~= b@.skip(k as int + 1));
        }
        k += 1;
    }
    if k == y.len() {
        assert(b@.skip(k as int).len() == 0);
        false
    } else if k == x.len() {
        assert(a@.skip(k as int).len() == 0);
        true
    } else {
        assert(a@.skip(k as int)[0] == x@[k as int]);
        assert(b@.skip(k as int)[0] == y@[k as int]);
        let r = x[k] < y[k];
        assert(r == ((x@[k as int] as int) < (y@[k as int] as int)));
        r
    }
}

/// The id of mod `i`.
pub open spec fn mod_id(mods: Seq<ModManifest>, i: int) -> Seq<char> {
    mods[i].id@
}

/// Some entry of the list is this text.
pub open spec fn names(list: Seq<String>, x: Seq<char>) -> bool {
    exists|t: int| 0 <= t < list.len() && #[trigger] list[t]@ == x
}

/// Mod `i` loads before mod `j`: `j` depends on it, uses it optionally, or
/// wants to load after it.
pub open spec fn prereq(mods: Seq<ModManifest>, j: int, i: int) -> bool {
    let x = mod_id(mods, i);
    names(mods[j].depends@, x) || names(mods[j].optional@, x) || names(mods[j].load_after@, x)
}

/// Mod `j` is not placed yet and everything that loads before it is.
pub open spec fn ready(mods: Seq<ModManifest>, done: Seq<int>, j: int) -> bool {
    &&& 0 <= j < mods.len()
    &&& !done.contains(j)
    &&& forall|i: int| 0 <= i < mods.len() && #[trigger] prereq(mods, j, i) ==> done.contains(i)
}

/// Mod `j` is the ready one with the least id.
pub open spec fn picked(mods: Seq<ModManifest>, done: Seq<int>, j: int) -> bool {
    &&& ready(mods, done, j)
    &&& forall|q: int| #[trigger] ready(mods, done, q) && q != j ==> text_lt(mod_id(mods, j), mod_id(mods, q))
}

/// Placing mods one by one, always the ready one with the least id, until
/// none is ready.
pub open spec fn kahn_from(mods: Seq<ModManifest>, done: Seq<int>, fuel: nat) -> Seq<int>
    decreases fuel,
{
    if fuel == 0 {
        done
    } else if exists|j: int| picked(mods, done, j) {
        kahn_from(mods, done.push(choose|j: int| picked(mods, done, j)), (fuel - 1) as nat)
    } else {
        done
    }
}

/// The order mods load in, as far as it goes.
pub open spec fn load_order(mods: Seq<ModManifest>) -> Seq<int> {
    kahn_from(mods, Seq::empty(), mods.len())
}

/// No two mods share an id.
pub open spec fn ids_unique(mods: Seq<ModManifest>) -> bool {
    forall|i: int, j: int| 0 <= i < j < mods.len() ==> mod_id(mods, i) != mod_id(mods, j)
}

/// Mod `k` is the first, in the order given, whose id an earlier mod has.
pub open spec fn first_dup(mods: Seq<ModManifest>, k: int) -> bool {
    &&& 0 <= k < mods.len()
    &&& exists|j: int| 0 <= j < k && mod_id(mods, j) == mod_id(mods, k)
    &&& forall|i: int, j: int| 0 <= j < i < k ==> mod_id(mods, j) != mod_id(mods, i)
}

/// No mod has this id.
pub open spec fn absent(mods: Seq<ModManifest>, x: Seq<char>) -> bool {
    forall|i: int| 0 <= i < mods.len() ==> mod_id(mods, i) != x
}

/// Mod `j` depends on a mod that isn't there.
pub open spec fn lacks(mods: Seq<ModManifest>, j: int) -> bool {
    exists|t: int| 0 <= t < mods[j].depends@.len() && absent(mods, #[trigger] mods[j].depends@[t]@)
}

/// Dependency `t` of mod `j` is its first that isn't there.
pub open spec fn first_lack(mods: Seq<ModManifest>, j: int, t: int) -> bool {
    &&& 0 <= t < mods[j].depends@.len()
    &&& absent(mods, mods[j].depends@[t]@)
    &&& forall|u: int| 0 <= u < t ==> !absent(mods, #[trigger] mods[j].depends@[u]@)
}

/// Mod `j` is the one, by id, whose missing dependency is reported.
pub open spec fn reported_lack(mods: Seq<ModManifest>, j: int) -> bool {
    &&& 0 <= j < mods.len()
    &&& lacks(mods, j)
    &&& forall|q: int| 0 <= q < mods.len() && q != j && #[trigger] lacks(mods, q) ==> text_lt(mod_id(mods, j), mod_id(mods, q))
}

/// Texts joined with a separator.
pub open spec fn join(parts: Seq<Seq<char>>, sep: Seq<char>) -> Seq<char>
    decreases parts.len(),
{
    if parts.len() == 0 {
        Seq::empty()
    } else if parts.len() == 1 {
        parts[0]
    } else {
        join(parts.drop_last(), sep) + sep + parts.last()
    }
}

/// `rest` is the ids of the mods not in `done`, in id order.
pub open spec fn rest_ids(mods: Seq<ModManifest>, done: Seq<int>, rest: Seq<Seq<char>>) -> bool {
    &&& forall|a: int, b: int| 0 <= a < b < rest.len() ==> text_lt(rest[a], rest[b])
    &&& forall|x: Seq<char>| rest.contains(x) <==> exists|i: int| 0 <= i < mods.len() && !done.contains(i) && mod_id(mods, i) == x
}

/// A load order in which every mod comes after all that load before it.
pub open spec fn respects(mods: Seq<ModManifest>, order: Seq<int>) -> bool {
    &&& order.len() == mods.len()
    &&& forall|p: int| 0 <= p < order.len() ==> 0 <= #[trigger] order[p] < mods.len()
    &&& forall|p: int, q: int| 0 <= p < q < order.len() ==> order[p] != order[q]
    &&& forall|p: int, q: int| 0 <= p <= q < order.len() ==> !prereq(mods, order[p], order[q])
}

/// `n` distinct indices below `n` are all of them.
proof fn lemma_covers(done: Seq<int>, n: int)
    requires
        done.no_duplicates(),
        done.len() == n,
        forall|p: int| 0 <= p < done.len() ==> 0 <= #[trigger] done[p] < n,
    ensures
        forall|i: int| 0 <= i < n ==> done.contains(i),
{
    broadcast use vstd::seq_lib::seq_to_set_is_finite;
    done.unique_seq_to_set();
    vstd::set_lib::lemma_int_range(0, n);
    assert(done.to_set().subset_of(vstd::set_lib::set_int_range(0, n)));
    vstd::set_lib::lemma_subset_equality(done.to_set(), vstd::set_lib::set_int_range(0, n));
    assert forall|i: int| 0 <= i < n implies done.contains(i) by {
        assert(vstd::set_lib::set_int_range(0, n).contains(i));
        assert(done.to_set().contains(i));
    }
}

/// Whether some mod has this id.
fn present(mods: &Vec<ModManifest>, x: &str) -> (r: bool)
    ensures
        r == !absent(mods@, x@),
{
    let mut i: usize = 0;
    while i < mods.len()
        invariant
            i <= mods@.len(),
            forall|j: int| 0 <= j < i ==> mod_id(mods@, j) != x@,
        decreases mods@.len() - i,
    {
        if str_eq(mods[i].id.as_str(), x) {
            assert(mod_id(mods@, i as int) == x@);
            return true;
        }
        i += 1;
    }
    false
}

/// Whether some entry of the list is this text.
fn listed(list: &Vec<String>, x: &str) -> (r: bool)
    ensures
        r == names(list@, x@),
{
    let mut t: usize = 0;
    while t < list.len()
        invariant
            t <= list@.len(),
            forall|u: int| 0 <= u < t ==> list@[u]@ != x@,
        decreases list@.len() - t,
    {
        if str_eq(list[t].as_str(), x) {
            return true;
        }
        t += 1;
    }
    false
}

/// The first mod, in the order given, whose id an earlier mod has.
fn find_dup(mods: &Vec<ModManifest>) -> (r: Option<usize>)
    ensures
        match r {
            Some(k) => first_dup(mods@, k as int),
            None => ids_unique(mods@),
        },
{
    let mut k: usize = 0;
    while k < mods.len()
        invariant
            k <= mods@.len(),
            forall|i: int, j: int| 0 <= j < i < k ==> mod_id(mods@, j) != mod_id(mods@, i),
        decreases mods@.len() - k,
    {
        let mut j: usize = 0;
        while j < k
            invariant
                k < mods@.len(),
                j <= k,
                forall|i: int, jj: int| 0 <= jj < i < k ==> mod_id(mods@, jj) != mod_id(mods@, i),
                forall|jj: int| 0 <= jj < j ==> mod_id(mods@, jj) != mod_id(mods@, k as int),
            decreases k - j,
        {
            if str_eq(mods[j].id.as_str(), mods[k].id.as_str()) {
                assert(mod_id(mods@, j as int) == mod_id(mods@, k as int));
                return Some(k);
            }
            j += 1;
        }
        k += 1;
    }
    None
}

/// The first dependency of mod `j` that isn't there.
fn first_missing(mods: &Vec<ModManifest>, j: usize) -> (r: Option<usize>)
    requires
        j < mods@.len(),
    ensures
        match r {
            Some(t) => first_lack(mods@, j as int, t as int),
            None => !lacks(mods@, j as int),
        },
{
    let deps = &mods[j].depends;
    let mut t: usize = 0;
    while t < deps.len()
        invariant
            j < mods@.len(),
            deps@ == mods@[j as int].depends@,
            t <= deps@.len(),
            forall|u: int| 0 <= u < t ==> !absent(mods@, #[trigger] deps@[u]@),
        decreases deps@.len() - t,
    {
        if !present(mods, deps[t].as_str()) {
            return Some(t);
        }
        t += 1;
    }
    None
}

/// The mod, by id, whose missing dependency is reported, and that dependency.
fn find_lack(mods: &Vec<ModManifest>) -> (r: Option<(usize, usize)>)
    requires
        ids_unique(mods@),
    ensures
        match r {
            Some((j, t)) => reported_lack(mods@, j as int) && first_lack(mods@, j as int, t as int),
            None => forall|j: int| 0 <= j < mods@.len() ==> !#[trigger] lacks(mods@, j),
        },
{
    let mut best: Option<(usize, usize)> = None;
    let mut j: usize = 0;
    while j < mods.len()
        invariant
            j <= mods@.len(),
            ids_unique(mods@),
            match best {
                Some((b, t)) => b < j && lacks(mods@, b as int) && first_lack(mods@, b as int, t as int) && forall|q: int|
                    0 <= q < j && q != b && #[trigger] lacks(mods@, q) ==> text_lt(mod_id(mods@, b as int), mod_id(mods@, q)),
                None => forall|q: int| 0 <= q < j ==> !#[trigger] lacks(mods@, q),
            },
        decreases mods@.len() - j,
    {
        match first_missing(mods, j) {
            Some(t) => {
                let better = match best {
                    None => true,
                    Some((b, _)) => text_less(mods[j].id.as_str(), mods[b].id.as_str()),
                };
                proof {
                    assert(lacks(mods@, j as int)) by {
                        assert(absent(mods@, mods@[j as int].depends@[t as int]@));
                    }
                    if let Some((b, _)) = best {
                        assert(mod_id(mods@, b as int) != mod_id(mods@, j as int));
                        if better {
                            assert forall|q: int| 0 <= q < j + 1 && q != j && #[trigger] lacks(mods@, q) implies text_lt(
                                mod_id(mods@, j as int),
                                mod_id(mods@, q),
                            ) by {
                                if q != b {
                                    lemma_text_lt_trans(mod_id(mods@, j as int), mod_id(mods@, b as int), mod_id(mods@, q));
                                }
                            }
                        } else {
                            lemma_text_lt_total(mod_id(mods@, j as int), mod_id(mods@, b as int));
                        }
                    }
                }
                if better {
                    best = Some((j, t));
                }
            },
            None => {},
        }
        j += 1;
    }
    best
}

/// Whether mod `i` loads before mod `j`.
fn is_prereq(mods: &Vec<ModManifest>, j: usize, i: usize) -> (r: bool)
    requires
        j < mods@.len(),
        i < mods@.len(),
    ensures
        r == prereq(mods@, j as int, i as int),
{
    let x = mods[i].id.as_str();
    listed(&mods[j].depends, x) || listed(&mods[j].optional, x) || listed(&mods[j].load_after, x)
}

/// Whether mod `j` can be placed: not placed yet, with everything that
/// loads before it placed.
fn is_ready(mods: &Vec<ModManifest>, placed: &Vec<bool>, j: usize, Ghost(done): Ghost<Seq<int>>) -> (r: bool)
    requires
        j < mods@.len(),
        placed@.len() == mods@.len(),
        forall|i: int| 0 <= i < mods@.len() ==> (#[trigger] placed@[i] <==> done.contains(i)),
    ensures
        r == ready(mods@, done, j as int),
{
    if placed[j] {
        return false;
    }
    let mut i: usize = 0;
    while i < mods.len()
        invariant
            j < mods@.len(),
            i <= mods@.len(),
            placed@.len() == mods@.len(),
            forall|x: int| 0 <= x < mods@.len() ==> (#[trigger] placed@[x] <==> done.contains(x)),
            forall|x: int| 0 <= x < i && #[trigger] prereq(mods@, j as int, x) ==> done.contains(x),
        decreases mods@.len() - i,
    {
        if !placed[i] && is_prereq(mods, j, i) {
            return false;
        }
        i += 1;
    }
    true
}

/// Moves the items into the given order: item `order[p]` goes to place `p`.
fn permute<T>(v: Vec<T>, order: &Vec<usize>) -> (r: Vec<T>)
    requires
        order@.len() == v@.len(),
        forall|p: int| 0 <= p < order@.len() ==> #[trigger] order@[p] < v@.len(),
        forall|p: int, q: int| 0 <= p < q < order@.len() ==> order@[p] != order@[q],
        forall|i: usize| i < v@.len() ==> #[trigger] order@.contains(i),
    ensures
        r@.len() == v@.len(),
        forall|p: int| 0 <= p < r@.len() ==> r@[p] == v@[order@[p] as int],
{
    let n = v.len();
    let ghost v0 = v@;
    let mut rank: Vec<usize> = crate::map::filled(0usize, n);
    let mut p: usize = 0;
    while p < n
        invariant
            n == order@.len(),
            p <= n,
            rank@.len() == n,
            forall|q: int| 0 <= q < order@.len() ==> #[trigger] order@[q] < n,
            forall|a: int, b: int| 0 <= a < b < order@.len() ==> order@[a] != order@[b],
            forall|q: int| 0 <= q < p ==> rank@[order@[q] as int] == q,
        decreases n - p,
    {
        rank.set(order[p], p);
        p += 1;
    }
    let mut slots: Vec<Option<T>> = Vec::new();
    let mut k: usize = 0;
    while k < n
        invariant
            k <= n,
            slots@.len() == k,
            forall|s: int| 0 <= s < k ==> #[trigger] slots@[s] is None,
        decreases n - k,
    {
        slots.push(None);
        k += 1;
    }
    let mut v = v;
    while v.len() > 0
        invariant
            v@.len() <= n,
            n == v0.len(),
            n == order@.len(),
            v@ == v0.take(v@.len() as int),
            slots@.len() == n,
            rank@.len() == n,
            forall|q: int| 0 <= q < n ==> rank@[order@[q] as int] == q,
            forall|ii: usize| ii < n ==> #[trigger] order@.contains(ii),
            forall|q: int| 0 <= q < order@.len() ==> #[trigger] order@[q] < n,
            forall|a: int, b: int| 0 <= a < b < order@.len() ==> order@[a] != order@[b],
            forall|s: int|
                0 <= s < n ==> #[trigger] slots@[s] == (if order@[n - 1 - s] >= v@.len() {
                    Some(v0[order@[n - 1 - s] as int])
                } else {
                    None
                }),
        decreases v@.len(),
    {
        let i = v.len() - 1;
        let x = v.pop().unwrap();
        let r = rank[i];
        proof {
            assert(order@.contains(i));
            let pos = choose|pp: int| 0 <= pp < order@.len() && order@[pp] == i;
            assert(rank@[order@[pos] as int] == pos);
        }
        slots.set(n - 1 - r, Some(x));
        proof {
            assert(v@ =~= v0.take(v@.len() as int));
            assert forall|s: int| 0 <= s < n implies #[trigger] slots@[s] == (if order@[n - 1 - s] >= v@.len() {
                Some(v0[order@[n - 1 - s] as int])
            } else {
                None
            }) by {
                if s != n - 1 - r {
                    assert(order@[n - 1 - s] != i) by {
                        if order@[n - 1 - s] == i {
                            assert(rank@[order@[n - 1 - s] as int] == n - 1 - s);
                        }
                    }
                }
            }
        }
    }
    let mut out: Vec<T> = Vec::new();
    while slots.len() > 0
        invariant
            n == v0.len(),
            n == order@.len(),
            slots@.len() + out@.len() == n,
            forall|s: int| 0 <= s < slots@.len() ==> #[trigger] slots@[s] == Some(v0[order@[n - 1 - s] as int]),
            forall|q: int| 0 <= q < out@.len() ==> #[trigger] out@[q] == v0[order@[q] as int],
        decreases slots@.len(),
    {
        let s = slots.len() - 1;
        let o = slots.pop().unwrap();
        match o {
            Some(x) => {
                out.push(x);
            },
            None => {},
        }
    }
    out
}

/// What sorting mods can fail with.
pub open spec fn sort_error(mods: Seq<ModManifest>, e: Seq<char>) -> bool {
    ||| exists|k: int| first_dup(mods, k) && e == "two mods share the id '"@ + mod_id(mods, k) + "'"@
    ||| ids_unique(mods) && exists|j: int, t: int|
        reported_lack(mods, j) && first_lack(mods, j, t) && e == "mod '"@ + mod_id(mods, j) + "' requires '"@
            + mods[j].depends@[t]@ + "', which is not installed"@
    ||| ids_unique(mods) && (forall|j: int| 0 <= j < mods.len() ==> !#[trigger] lacks(mods, j)) && load_order(mods).len()
        < mods.len() && exists|rest: Seq<Seq<char>>|
        rest_ids(mods, load_order(mods), rest) && e == "mod dependency cycle among: "@ + join(rest, ", "@)
}

/// Puts mods in load order: each after everything it depends on, uses
/// optionally or wants to load after, and otherwise by id. Fails on two
/// mods with one id, on a dependency that isn't installed, and on a cycle.
pub fn sort(mods: Vec<ModManifest>) -> (r: Result<Vec<ModManifest>, String>)
    ensures
        match r {
            Ok(out) => {
                &&& ids_unique(mods@)
                &&& forall|j: int| 0 <= j < mods@.len() ==> !#[trigger] lacks(mods@, j)
                &&& load_order(mods@).len() == mods@.len()
                &&& out@.len() == mods@.len()
                &&& forall|p: int| 0 <= p < out@.len() ==> out@[p] == mods@[load_order(mods@)[p]]
            },
            Err(e) => sort_error(mods@, e@),
        },
{
    let ghost m = mods@;
    match find_dup(&mods) {
        Some(k) => {
            let mut e = String::from_str("two mods share the id '");
            e.append(mods[k].id.as_str());
            e.append("'");
            return Err(e);
        },
        None => {},
    }
    match find_lack(&mods) {
        Some((j, t)) => {
            let mut e = String::from_str("mod '");
            e.append(mods[j].id.as_str());
            e.append("' requires '");
            e.append(mods[j].depends[t].as_str());
            e.append("', which is not installed");
            return Err(e);
        },
        None => {},
    }
    let n = mods.len();
    let mut placed: Vec<bool> = crate::map::filled(false, n);
    let mut order: Vec<usize> = Vec::new();
    let ghost mut done: Seq<int> = Seq::empty();
    let mut stuck = false;
    while order.len() < n && !stuck
        invariant
            m == mods@,
            n == m.len(),
            ids_unique(m),
            placed@.len() == n,
            order@.len() == done.len(),
            done.len() <= n,
            forall|p: int| 0 <= p < done.len() ==> #[trigger] done[p] == order@[p] as int && 0 <= done[p] < n,
            done.no_duplicates(),
            forall|i: int| 0 <= i < n ==> (#[trigger] placed@[i] <==> done.contains(i)),
            load_order(m) == kahn_from(m, done, (n - done.len()) as nat),
            stuck ==> load_order(m) == done,
        decreases n - order@.len(), if stuck { 0int } else { 1int },
    {
        let mut best: Option<usize> = None;
        let mut j: usize = 0;
        while j < n
            invariant
                m == mods@,
                n == m.len(),
                ids_unique(m),
                j <= n,
                placed@.len() == n,
                forall|i: int| 0 <= i < n ==> (#[trigger] placed@[i] <==> done.contains(i)),
                match best {
                    Some(b) => b < j && ready(m, done, b as int) && forall|q: int|
                        0 <= q < j && q != b && #[trigger] ready(m, done, q) ==> text_lt(mod_id(m, b as int), mod_id(m, q)),
                    None => forall|q: int| 0 <= q < j ==> !#[trigger] ready(m, done, q),
                },
            decreases n - j,
        {
            if is_ready(&mods, &placed, j, Ghost(done)) {
                let better = match best {
                    None => true,
                    Some(b) => text_less(mods[j].id.as_str(), mods[b].id.as_str()),
                };
                proof {
                    if let Some(b) = best {
                        assert(mod_id(m, b as int) != mod_id(m, j as int));
                        if better {
                            assert forall|q: int| 0 <= q < j + 1 && q != j && #[trigger] ready(m, done, q) implies text_lt(
                                mod_id(m, j as int),
                                mod_id(m, q),
                            ) by {
                                if q != b {
                                    lemma_text_lt_trans(mod_id(m, j as int), mod_id(m, b as int), mod_id(m, q));
                                }
                            }
                        } else {
                            lemma_text_lt_total(mod_id(m, j as int), mod_id(m, b as int));
                        }
                    }
                }
                if better {
                    best = Some(j);
                }
            }
            j += 1;
        }
        match best {
            Some(b) => {
                proof {
                    assert(picked(m, done, b as int));
                    assert forall|q: int| picked(m, done, q) implies q == b by {
                        if q != b {
                            lemma_text_lt_asym(mod_id(m, b as int), mod_id(m, q));
                        }
                    }
                    let c = choose|j: int| picked(m, done, j);
                    assert(c == b);
                    assert(kahn_from(m, done, (n - done.len()) as nat) == kahn_from(
                        m,
                        done.push(b as int),
                        (n - done.len() - 1) as nat,
                    ));
                }
                let ghost d0 = done;
                placed.set(b, true);
                order.push(b);
                proof {
                    done = done.push(b as int);
                    assert(!d0.contains(b as int));
                    assert forall|i: int| 0 <= i < n implies (#[trigger] placed@[i] <==> done.contains(i)) by {
                        if i == b {
                            assert(done[done.len() - 1] == b);
                        } else {
                            if done.contains(i) {
                                let p = choose|p: int| 0 <= p < done.len() && done[p] == i;
                                assert(d0[p] == i);
                            }
                            if d0.contains(i) {
                                let p = choose|p: int| 0 <= p < d0.len() && d0[p] == i;
                                assert(done[p] == i);
                            }
                        }
                    }
                    assert(done.no_duplicates()) by {
                        assert forall|a: int, c: int| 0 <= a < c < done.len() implies done[a] != done[c] by {
                            if c == done.len() - 1 {
                                assert(d0.contains(done[a]));
                            }
                        }
                    }
                }
            },
            None => {
                proof {
                    assert(!exists|q: int| picked(m, done, q));
                    if done.len() < n {
                        assert(kahn_from(m, done, (n - done.len()) as nat) == done);
                    }
                }
                stuck = true;
            },
        }
    }
    if order.len() < n {
        // The mods left, in id order.
        let mut rest: Vec<usize> = Vec::new();
        let mut taken: Vec<bool> = crate::map::filled(false, n);
        let ghost mut rest_v: Seq<Seq<char>> = Seq::empty();
        let mut more = true;
        while more
            invariant
                m == mods@,
                n == m.len(),
                ids_unique(m),
                placed@.len() == n,
                taken@.len() == n,
                forall|i: int| 0 <= i < n ==> (#[trigger] placed@[i] <==> done.contains(i)),
                rest_v.len() == rest@.len(),
                rest@.no_duplicates(),
                rest@.len() <= n,
                forall|p: int| 0 <= p < rest@.len() ==> #[trigger] rest@[p] < n && rest_v[p] == mod_id(m, rest@[p] as int)
                    && !done.contains(rest@[p] as int),
                forall|i: int| 0 <= i < n ==> (#[trigger] taken@[i] <==> rest@.contains(i as usize)),
                forall|a: int, b: int| 0 <= a < b < rest_v.len() ==> text_lt(rest_v[a], rest_v[b]),
                forall|p: int, i: int|
                    #![trigger rest_v[p], mod_id(m, i)]
                    0 <= p < rest@.len() && 0 <= i < n && !done.contains(i) && !taken@[i] ==> text_lt(
                        rest_v[p],
                        mod_id(m, i),
                    ),
                !more ==> forall|i: int| 0 <= i < n && !done.contains(i) ==> #[trigger] taken@[i],
            decreases n - rest@.len(), if more { 1int } else { 0int },
        {
            let mut best: Option<usize> = None;
            let mut j: usize = 0;
            while j < n
                invariant
                    m == mods@,
                    n == m.len(),
                    ids_unique(m),
                    j <= n,
                    placed@.len() == n,
                    taken@.len() == n,
                    match best {
                        Some(b) => b < j && !placed@[b as int] && !taken@[b as int] && forall|q: int|
                            0 <= q < j && q != b && !placed@[q] && !#[trigger] taken@[q] ==> text_lt(mod_id(m, b as int), mod_id(m, q)),
                        None => forall|q: int| 0 <= q < j ==> placed@[q] || #[trigger] taken@[q],
                    },
                decreases n - j,
            {
                if !placed[j] && !taken[j] {
                    let better = match best {
                        None => true,
                        Some(b) => text_less(mods[j].id.as_str(), mods[b].id.as_str()),
                    };
                    proof {
                        if let Some(b) = best {
                            assert(mod_id(m, b as int) != mod_id(m, j as int));
                            if better {
                                assert forall|q: int| 0 <= q < j + 1 && q != j && !placed@[q] && !#[trigger] taken@[q] implies text_lt(
                                    mod_id(m, j as int),
                                    mod_id(m, q),
                                ) by {
                                    if q != b {
                                        lemma_text_lt_trans(mod_id(m, j as int), mod_id(m, b as int), mod_id(m, q));
                                    }
                                }
                            } else {
                                lemma_text_lt_total(mod_id(m, j as int), mod_id(m, b as int));
                            }
                        }
                    }
                    if better {
                        best = Some(j);
                    }
                }
                j += 1;
            }
            match best {
                Some(b) => {
                    let ghost r0 = rest@;
                    let ghost rv0 = rest_v;
                    taken.set(b, true);
                    rest.push(b);
                    proof {
                        rest_v = rest_v.push(mod_id(m, b as int));
                        assert(!r0.contains(b));
                        assert(rest@.no_duplicates()) by {
                            assert forall|a: int, c: int| 0 <= a < c < rest@.len() implies rest@[a] != rest@[c] by {
                                if c == rest@.len() - 1 {
                                    assert(r0.contains(rest@[a]));
                                } else {
                                    assert(rest@[a] == r0[a] && rest@[c] == r0[c]);
                                }
                            }
                        }
                        crate::terms::lemma_distinct_bounded(rest@, n as int);
                        assert forall|i: int| 0 <= i < n implies (#[trigger] taken@[i] <==> rest@.contains(i as usize)) by {
                            if rest@.contains(i as usize) && i != b {
                                let p = choose|p: int| 0 <= p < rest@.len() && rest@[p] == i as usize;
                                assert(r0[p] == i as usize);
                            }
                            if r0.contains(i as usize) {
                                let p = choose|p: int| 0 <= p < r0.len() && r0[p] == i as usize;
                                assert(rest@[p] == i as usize);
                            }
                            if i == b {
                                assert(rest@[rest@.len() - 1] == b);
                            }
                        }
                        assert forall|a: int, c: int| 0 <= a < c < rest_v.len() implies text_lt(rest_v[a], rest_v[c]) by {
                            if c == rest_v.len() - 1 {
                                assert(rv0[a] == mod_id(m, r0[a] as int));
                                assert(!taken@[b as int] || true);
                            }
                        }
                        assert forall|p: int, i: int|
                    #![trigger rest_v[p], mod_id(m, i)]
                            0 <= p < rest@.len() && 0 <= i < n && !done.contains(i) && !taken@[i] implies text_lt(
                                rest_v[p],
                                mod_id(m, i),
                            ) by {
                            if p == rest@.len() - 1 {
                                assert(!placed@[i]);
                            }
                        }
                    }
                },
                None => {
                    more = false;
                },
            }
        }
        proof {
            assert(rest_ids(m, load_order(m), rest_v)) by {
                assert forall|x: Seq<char>| rest_v.contains(x) <==> exists|i: int|
                    0 <= i < m.len() && !load_order(m).contains(i) && mod_id(m, i) == x by {
                    if rest_v.contains(x) {
                        let p = choose|p: int| 0 <= p < rest_v.len() && rest_v[p] == x;
                        assert(!load_order(m).contains(rest@[p] as int));
                    }
                    if exists|i: int| 0 <= i < m.len() && !load_order(m).contains(i) && mod_id(m, i) == x {
                        let i = choose|i: int| 0 <= i < m.len() && !load_order(m).contains(i) && mod_id(m, i) == x;
                        assert(taken@[i]);
                        assert(rest@.contains(i as usize));
                        let p = choose|p: int| 0 <= p < rest@.len() && rest@[p] == i as usize;
                        assert(rest_v[p] == x);
                    }
                }
            }
        }
        let mut e = String::from_str("mod dependency cycle among: ");
        let mut p: usize = 0;
        while p < rest.len()
            invariant
                p <= rest@.len(),
                rest_v.len() == rest@.len(),
                forall|q: int| 0 <= q < rest@.len() ==> #[trigger] rest@[q] < n && rest_v[q] == mod_id(m, rest@[q] as int),
                m == mods@,
                n == m.len(),
                e@ == "mod dependency cycle among: "@ + join(rest_v.take(p as int), ", "@),
            decreases rest@.len() - p,
        {
            if p > 0 {
                e.append(", ");
            }
            e.append(mods[rest[p]].id.as_str());
            proof {
                let t1 = rest_v.take(p as int + 1);
                assert(t1.drop_last() =~= rest_v.take(p as int));
                if p == 0 {
                    assert(t1.len() == 1);
                }
            }
            p += 1;
        }
        proof {
            assert(rest_v.take(p as int) =~= rest_v);
        }
        return Err(e);
    }
    proof {
        assert(load_order(m) == done) by {
            if !stuck {
                assert(kahn_from(m, done, 0) == done);
            }
        }
        lemma_covers(done, n as int);
        assert forall|i: usize| i < n implies #[trigger] order@.contains(i) by {
            assert(done.contains(i as int));
            let p = choose|p: int| 0 <= p < done.len() && done[p] == i as int;
            assert(order@[p] == i);
        }
        assert forall|a: int, b: int| 0 <= a < b < order@.len() implies order@[a] != order@[b] by {
            assert(done[a] != done[b]);
        }
        assert forall|p: int| 0 <= p < order@.len() implies #[trigger] order@[p] < mods@.len() by {
            assert(done[p] == order@[p] as int);
        }
    }
    let out = permute(mods, &order);
    Ok(out)
}


/// Placed so far without a slip: no mod twice, and each after all that
/// load before it.
pub open spec fn valid_prefix(mods: Seq<ModManifest>, done: Seq<int>) -> bool {
    &&& done.no_duplicates()
    &&& forall|p: int| 0 <= p < done.len() ==> 0 <= #[trigger] done[p] < mods.len()
    &&& forall|p: int, i: int|
        0 <= p < done.len() && 0 <= i < mods.len() && #[trigger] prereq(mods, done[p], i) ==> done.take(p).contains(i)
}

proof fn lemma_distinct_ints_bounded(s: Seq<int>, n: int)
    requires
        s.no_duplicates(),
        n >= 0,
        forall|p: int| 0 <= p < s.len() ==> 0 <= #[trigger] s[p] < n,
    ensures
        s.len() <= n,
{
    broadcast use vstd::seq_lib::seq_to_set_is_finite;
    s.unique_seq_to_set();
    vstd::set_lib::lemma_int_range(0, n);
    assert(s.to_set().subset_of(vstd::set_lib::set_int_range(0, n)));
    vstd::set_lib::lemma_len_subset(s.to_set(), vstd::set_lib::set_int_range(0, n));
}

/// With ids unique, among the ready mods below `k` one has the least id.
proof fn lemma_min_ready(mods: Seq<ModManifest>, done: Seq<int>, k: int) -> (best: int)
    requires
        ids_unique(mods),
        0 <= k <= mods.len(),
        exists|q: int| 0 <= q < k && ready(mods, done, q),
    ensures
        0 <= best < k,
        ready(mods, done, best),
        forall|q: int| 0 <= q < k && q != best && #[trigger] ready(mods, done, q) ==> text_lt(mod_id(mods, best), mod_id(mods, q)),
    decreases k,
{
    if exists|q: int| 0 <= q < k - 1 && ready(mods, done, q) {
        let b = lemma_min_ready(mods, done, k - 1);
        let c = k - 1;
        if ready(mods, done, c) {
            assert(mod_id(mods, b) != mod_id(mods, c));
            lemma_text_lt_total(mod_id(mods, b), mod_id(mods, c));
            if text_lt(mod_id(mods, c), mod_id(mods, b)) {
                assert forall|q: int| 0 <= q < k && q != c && #[trigger] ready(mods, done, q) implies text_lt(
                    mod_id(mods, c),
                    mod_id(mods, q),
                ) by {
                    if q != b {
                        lemma_text_lt_trans(mod_id(mods, c), mod_id(mods, b), mod_id(mods, q));
                    }
                }
                c
            } else {
                b
            }
        } else {
            b
        }
    } else {
        k - 1
    }
}

/// With ids unique, some ready mod has the least id.
proof fn lemma_some_picked(mods: Seq<ModManifest>, done: Seq<int>, j: int)
    requires
        ids_unique(mods),
        ready(mods, done, j),
    ensures
        exists|q: int| picked(mods, done, q),
{
    let b = lemma_min_ready(mods, done, mods.len() as int);
    assert(picked(mods, done, b));
}

/// The first place in `order` holding something outside `d`.
proof fn lemma_first_outside(order: Seq<int>, d: Seq<int>, k: int) -> (p: int)
    requires
        0 <= k <= order.len(),
        exists|r: int| 0 <= r < k && !d.contains(order[r]),
    ensures
        0 <= p < k,
        !d.contains(order[p]),
        forall|r: int| 0 <= r < p ==> d.contains(#[trigger] order[r]),
    decreases k,
{
    if exists|r: int| 0 <= r < k - 1 && !d.contains(order[r]) {
        lemma_first_outside(order, d, k - 1)
    } else {
        k - 1
    }
}

/// Each step of the placing keeps the placed prefix valid, and it stops
/// early only when no mod is ready.
proof fn lemma_kahn_valid(mods: Seq<ModManifest>, done: Seq<int>, fuel: nat)
    requires
        ids_unique(mods),
        valid_prefix(mods, done),
        fuel + done.len() >= mods.len(),
    ensures
        valid_prefix(mods, kahn_from(mods, done, fuel)),
        kahn_from(mods, done, fuel).len() < mods.len() ==> forall|j: int| !#[trigger] ready(mods, kahn_from(mods, done, fuel), j),
    decreases fuel,
{
    lemma_distinct_ints_bounded(done, mods.len() as int);
    if fuel == 0 {
    } else if exists|j: int| picked(mods, done, j) {
        let j = choose|j: int| picked(mods, done, j);
        let d2 = done.push(j);
        assert(valid_prefix(mods, d2)) by {
            assert(d2.no_duplicates()) by {
                assert forall|a: int, b: int| 0 <= a < b < d2.len() implies d2[a] != d2[b] by {
                    if b == d2.len() - 1 {
                        assert(done.contains(d2[a]));
                    }
                }
            }
            assert forall|p: int, i: int|
                0 <= p < d2.len() && 0 <= i < mods.len() && #[trigger] prereq(mods, d2[p], i) implies d2.take(p).contains(i) by {
                if p < done.len() {
                    assert(d2.take(p) =~= done.take(p));
                } else {
                    assert(d2.take(p) =~= done);
                }
            }
        }
        lemma_kahn_valid(mods, d2, (fuel - 1) as nat);
    } else {
        assert forall|j: int| !#[trigger] ready(mods, done, j) by {
            if ready(mods, done, j) {
                lemma_some_picked(mods, done, j);
            }
        }
    }
}

/// When every mod gets placed, each comes after everything that loads
/// before it.
pub proof fn law_load_order_respects(mods: Seq<ModManifest>)
    requires
        ids_unique(mods),
        load_order(mods).len() == mods.len(),
    ensures
        respects(mods, load_order(mods)),
{
    let o = load_order(mods);
    assert(valid_prefix(mods, Seq::<int>::empty()));
    lemma_kahn_valid(mods, Seq::empty(), mods.len());
    assert forall|p: int, q: int| 0 <= p <= q < o.len() implies !prereq(mods, o[p], o[q]) by {
        if prereq(mods, o[p], o[q]) {
            assert(o.take(p).contains(o[q]));
            let r = choose|r: int| 0 <= r < o.take(p).len() && o.take(p)[r] == o[q];
            assert(o[r] == o[q]);
        }
    }
}

/// Placing stops short only when no order of the mods puts each after
/// everything that loads before it: a cycle.
pub proof fn law_stuck_means_cycle(mods: Seq<ModManifest>, order: Seq<int>)
    requires
        ids_unique(mods),
        load_order(mods).len() < mods.len(),
    ensures
        !respects(mods, order),
{
    let d = load_order(mods);
    lemma_kahn_valid(mods, Seq::empty(), mods.len());
    if respects(mods, order) {
        assert(order.no_duplicates()) by {
            assert forall|a: int, b: int| 0 <= a < b < order.len() implies order[a] != order[b] by {}
        }
        lemma_covers(order, mods.len() as int);
        // Some mod is not placed; take the first such in `order`.
        let missing = choose|i: int| 0 <= i < mods.len() && !d.contains(i);
        assert(exists|i: int| 0 <= i < mods.len() && !d.contains(i)) by {
            if forall|i: int| 0 <= i < mods.len() ==> d.contains(i) {
                lemma_covers_len(d, mods.len() as int);
            }
        }
        assert(order.contains(missing));
        let r0 = choose|r: int| 0 <= r < order.len() && order[r] == missing;
        let p = lemma_first_outside(order, d, order.len() as int);
        let j = order[p];
        assert(ready(mods, d, j)) by {
            assert forall|i: int| 0 <= i < mods.len() && #[trigger] prereq(mods, j, i) implies d.contains(i) by {
                assert(order.contains(i));
                let r = choose|r: int| 0 <= r < order.len() && order[r] == i;
                if r >= p {
                    assert(!prereq(mods, order[p], order[r]));
                }
            }
        }
    }
}

/// A list holding every index below `n` has at least `n` entries.
proof fn lemma_covers_len(d: Seq<int>, n: int)
    requires
        n >= 0,
        forall|i: int| 0 <= i < n ==> d.contains(i),
    ensures
        d.len() >= n,
{
    broadcast use vstd::seq_lib::seq_to_set_is_finite;
    d.lemma_cardinality_of_set();
    vstd::set_lib::lemma_int_range(0, n);
    assert(vstd::set_lib::set_int_range(0, n).subset_of(d.to_set()));
    vstd::set_lib::lemma_len_subset(vstd::set_lib::set_int_range(0, n), d.to_set());
}

/// What a def entry's id becomes when its mod loads: every id is the
/// mod's own, so a bare id gets the mod's prefix, an id with the mod's own
/// prefix stays, and an id in another mod's namespace is refused.
pub open spec fn own_id_spec(mod_id: Seq<char>, origin: Seq<char>, key: Seq<char>, raw: Seq<char>) -> Result<Seq<char>, Seq<char>> {
    if !crate::defs::has_colon(raw) {
        Ok(mod_id + ":"@ + raw)
    } else if crate::defs::home_of_spec(raw) == mod_id {
        Ok(raw)
    } else {
        Err(
            origin + ": [["@ + key + "]] id '"@ + raw + "' is in mod '"@ + crate::defs::home_of_spec(raw)
                + "'s namespace; a mod defines its own ids (id = \""@ + crate::defs::bare_of(raw)
                + "\"), and changes another mod's with a [[patch]]"@,
        )
    }
}

/// A def entry's id made its mod's own (`origin` is the file it came
/// from, `key` the kind it was listed under, for the error).
pub fn own_def_id(mod_id: &str, origin: &str, key: &str, raw: &str) -> (r: Result<String, String>)
    ensures
        match (r, own_id_spec(mod_id@, origin@, key@, raw@)) {
            (Ok(id), Ok(sid)) => id@ == sid,
            (Err(e), Err(se)) => e@ == se,
            _ => false,
        },
{
    let cs = chars_of(raw);
    match crate::defs::colon_at(&cs) {
        None => {
            let mut id = String::from_str(mod_id);
            id.append(":");
            id.append(raw);
            Ok(id)
        },
        Some(_) => {
            let owner = crate::defs::home_of(raw);
            if str_eq(owner.as_str(), mod_id) {
                Ok(String::from_str(raw))
            } else {
                let bare = crate::text::string_of(crate::defs::bare_chars(raw).as_slice());
                let mut e = String::from_str(origin);
                e.append(": [[");
                e.append(key);
                e.append("]] id '");
                e.append(raw);
                e.append("' is in mod '");
                e.append(owner.as_str());
                e.append("'s namespace; a mod defines its own ids (id = \"");
                e.append(bare.as_str());
                e.append("\"), and changes another mod's with a [[patch]]");
                Err(e)
            }
        },
    }
}

} // verus!
