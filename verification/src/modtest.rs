//! `rim check` and `rim test`: what they report, and the text of the report.
use vstd::prelude::*;
use crate::text::{chars_of, str_eq};
use crate::modloader::{ModManifest, text_lt, text_less, lemma_text_lt_irrefl, lemma_text_lt_trans, lemma_text_lt_total};
use crate::snapshot::id_views;
use crate::script::{split_on, lemma_split_on_len};
use crate::look::{white_space, is_white_space};

verus! {

/// What `rim check` found in a mod.
#[derive(Debug, Default)]
pub struct CheckReport {
    pub mod_id: String,
    /// The mods it loaded with: itself and everything it depends on.
    pub mods: Vec<String>,
    /// Load warnings: patch conflicts, skipped patches, determinism hazards.
    pub warnings: Vec<String>,
    /// Mods whose scripts ran over their time budget on this machine. Wall
    /// clock, so it says as much about the machine as the mod: reported,
    /// never a failure.
    pub slow: Vec<String>,
    /// Script errors from its first in-game hours.
    pub errors: Vec<String>,
}

/// One character as XML text: `&`, `<`, `>` and `"` as entities, anything
/// else as itself.
pub open spec fn xml_char(c: char) -> Seq<char> {
    if c == '&' {
        "&amp;"@
    } else if c == '<' {
        "&lt;"@
    } else if c == '>' {
        "&gt;"@
    } else if c == '"' {
        "&quot;"@
    } else {
        seq![c]
    }
}

/// Text escaped for XML, character by character.
pub open spec fn xml_spec(s: Seq<char>) -> Seq<char>
    decreases s.len(),
{
    if s.len() == 0 {
        Seq::empty()
    } else {
        xml_spec(s.drop_last()) + xml_char(s.last())
    }
}

/// Text escaped for an XML attribute or element.
pub fn xml(s: &str) -> (r: String)
    ensures
        r@ == xml_spec(s@),
{
    let cs = chars_of(s);
    let mut out = String::new();
    let mut i: usize = 0;
    proof {
        assert(cs@.take(0) =~= Seq::<char>::empty());
    }
    while i < cs.len()
        invariant
            i <= cs@.len(),
            cs@ == s@,
            out@ == xml_spec(cs@.take(i as int)),
        decreases cs@.len() - i,
    {
        let c = cs[i];
        if c == '&' {
            out.append("&amp;");
        } else if c == '<' {
            out.append("&lt;");
        } else if c == '>' {
            out.append("&gt;");
        } else if c == '"' {
            out.append("&quot;");
        } else {
            crate::text::push_char(&mut out, c);
        }
        proof {
            assert(cs@.take(i + 1).drop_last() =~= cs@.take(i as int));
        }
        i += 1;
    }
    proof {
        assert(cs@.take(i as int) =~= cs@);
    }
    out
}

// ------------------------------------------------------------ dependencies

/// The first manifest with id `m` stands at `k`.
pub open spec fn first_with(all: Seq<ModManifest>, m: Seq<char>, k: int) -> bool {
    0 <= k < all.len() && all[k].id@ == m && forall|j: int| 0 <= j < k ==> all[j].id@ != m
}

/// What mod `m` depends on, by its first manifest; nothing when none has
/// its id.
pub open spec fn deps_of(all: Seq<ModManifest>, m: Seq<char>) -> Seq<Seq<char>> {
    if exists|k: int| first_with(all, m, k) {
        id_views(all[choose|k: int| first_with(all, m, k)].depends@)
    } else {
        Seq::empty()
    }
}

/// The mods `id` reaches in at most `n` steps along `depends`.
pub open spec fn reach(all: Seq<ModManifest>, id: Seq<char>, n: nat) -> Set<Seq<char>>
    decreases n,
{
    if n == 0 {
        set![id]
    } else {
        let r = reach(all, id, (n - 1) as nat);
        r.union(Set::new(|x: Seq<char>| exists|m: Seq<char>| r.contains(m) && deps_of(all, m).contains(x)))
    }
}

/// `id` reaches `x` along `depends`, in any number of steps.
pub open spec fn reachable(all: Seq<ModManifest>, id: Seq<char>, x: Seq<char>) -> bool {
    exists|n: nat| #[trigger] reach(all, id, n).contains(x)
}

/// Strictly increasing text: sorted, each once.
pub open spec fn sorted_text(s: Seq<Seq<char>>) -> bool {
    forall|i: int, j: int| 0 <= i < j < s.len() ==> text_lt(#[trigger] s[i], #[trigger] s[j])
}

/// Every name any manifest depends on.
pub open spec fn all_deps(all: Seq<ModManifest>) -> Seq<Seq<char>>
    decreases all.len(),
{
    if all.len() == 0 {
        Seq::empty()
    } else {
        all_deps(all.drop_last()) + id_views(all.last().depends@)
    }
}

/// The names the closure can hold: `id`, and what any manifest depends on.
pub open spec fn universe(all: Seq<ModManifest>, id: Seq<char>) -> Set<Seq<char>> {
    set![id].union(all_deps(all).to_set())
}

proof fn lemma_all_deps_has(all: Seq<ModManifest>, k: int, t: int)
    requires
        0 <= k < all.len(),
        0 <= t < all[k].depends@.len(),
    ensures
        all_deps(all).contains(all[k].depends@[t]@),
    decreases all.len(),
{
    let v = id_views(all.last().depends@);
    if k == all.len() - 1 {
        assert((all_deps(all.drop_last()) + v)[all_deps(all.drop_last()).len() + t] == v[t]);
    } else {
        lemma_all_deps_has(all.drop_last(), k, t);
        let w = all_deps(all.drop_last());
        let q = choose|q: int| 0 <= q < w.len() && w[q] == all[k].depends@[t]@;
        assert((w + v)[q] == w[q]);
    }
}

proof fn lemma_deps_in_universe(all: Seq<ModManifest>, id: Seq<char>, m: Seq<char>, x: Seq<char>)
    requires
        deps_of(all, m).contains(x),
    ensures
        universe(all, id).contains(x),
{
    let k = choose|k: int| first_with(all, m, k);
    let d = id_views(all[k].depends@);
    let t = choose|t: int| 0 <= t < d.len() && d[t] == x;
    lemma_all_deps_has(all, k, t);
}

/// The closure holds `id` and is closed under `depends`: it holds all
/// that `id` reaches.
proof fn lemma_closed_holds_reach(all: Seq<ModManifest>, id: Seq<char>, s: Set<Seq<char>>, n: nat)
    requires
        s.contains(id),
        forall|m: Seq<char>, x: Seq<char>| s.contains(m) && #[trigger] deps_of(all, m).contains(x) ==> s.contains(x),
    ensures
        reach(all, id, n).subset_of(s),
    decreases n,
{
    if n > 0 {
        lemma_closed_holds_reach(all, id, s, (n - 1) as nat);
    }
}

/// A step from a reachable mod reaches further.
proof fn lemma_reach_step(all: Seq<ModManifest>, id: Seq<char>, m: Seq<char>, x: Seq<char>)
    requires
        reachable(all, id, m),
        deps_of(all, m).contains(x),
    ensures
        reachable(all, id, x),
{
    let n = choose|n: nat| #[trigger] reach(all, id, n).contains(m);
    assert(reach(all, id, n + 1).contains(x));
}

/// Where `m` goes among sorted names: after those before it.
pub(crate) fn insert_sorted(out: &mut Vec<String>, m: String) -> (added: bool)
    requires
        sorted_text(id_views(old(out)@)),
    ensures
        sorted_text(id_views(final(out)@)),
        added == !id_views(old(out)@).contains(m@),
        id_views(final(out)@).to_set() == id_views(old(out)@).to_set().insert(m@),
        final(out)@.len() == old(out)@.len() + (if added { 1int } else { 0int }),
{
    let ghost o = id_views(out@);
    let mut p: usize = 0;
    while p < out.len() && text_less(out[p].as_str(), m.as_str())
        invariant
            p <= out@.len(),
            o == id_views(out@),
            forall|i: int| 0 <= i < p ==> text_lt(#[trigger] o[i], m@),
        decreases out@.len() - p,
    {
        p += 1;
    }
    if p < out.len() && str_eq(out[p].as_str(), m.as_str()) {
        assert(o[p as int] == m@);
        assert(o.to_set().insert(m@) =~= o.to_set());
        return false;
    }
    proof {
        assert forall|q: int| 0 <= q < o.len() implies o[q] != m@ by {
            if q < p {
                lemma_text_lt_irrefl(m@);
            } else if q > p {
                if o[q] == m@ {
                    assert(text_lt(o[p as int], o[q]));
                    assert(!text_lt(o[p as int], m@));
                }
            }
        }
        if p < o.len() {
            lemma_text_lt_total(o[p as int], m@);
        }
    }
    let ghost mv = m@;
    out.insert(p, m);
    proof {
        let n = id_views(out@);
        assert(n =~= o.insert(p as int, mv));
        assert forall|i: int, j: int| 0 <= i < j < n.len() implies text_lt(#[trigger] n[i], #[trigger] n[j]) by {
            if j < p {
                assert(text_lt(o[i], o[j]));
            } else if j == p {
            } else if i < p {
                if j - 1 > p {
                    assert(text_lt(o[p as int], o[j - 1]));
                    lemma_text_lt_trans(mv, o[p as int], o[j - 1]);
                }
                lemma_text_lt_trans(o[i], mv, o[j - 1]);
            } else if i == p {
                if j - 1 > p {
                    assert(text_lt(o[p as int], o[j - 1]));
                    lemma_text_lt_trans(mv, o[p as int], o[j - 1]);
                }
            } else {
                assert(text_lt(o[i - 1], o[j - 1]));
            }
        }
        assert forall|x: Seq<char>| n.to_set().contains(x) <==> o.to_set().insert(mv).contains(x) by {
            if n.contains(x) {
                let q = choose|q: int| 0 <= q < n.len() && n[q] == x;
                if q < p {
                    assert(o[q] == x);
                } else if q > p {
                    assert(o[q - 1] == x);
                }
            }
            if o.contains(x) {
                let q = choose|q: int| 0 <= q < o.len() && o[q] == x;
                if q < p {
                    assert(n[q] == x);
                } else {
                    assert(n[q + 1] == x);
                }
            }
            if x == mv {
                assert(n[p as int] == x);
            }
        }
        assert(n.to_set() =~= o.to_set().insert(mv));
    }
    true
}

/// Where the first manifest with id `m` stands.
fn find_manifest(all: &[ModManifest], m: &str) -> (r: Option<usize>)
    ensures
        match r {
            Some(k) => first_with(all@, m@, k as int),
            None => !exists|k: int| first_with(all@, m@, k),
        },
{
    let mut k: usize = 0;
    while k < all.len()
        invariant
            k <= all@.len(),
            forall|j: int| 0 <= j < k ==> all@[j].id@ != m@,
        decreases all@.len() - k,
    {
        if str_eq(all[k].id.as_str(), m) {
            return Some(k);
        }
        k += 1;
    }
    proof {
        assert forall|q: int| !first_with(all@, m@, q) by {
            if first_with(all@, m@, q) {
                assert(all@[q].id@ != m@);
            }
        }
    }
    None
}

/// A mod and everything it depends on, at any depth: the mods `rim check`
/// loads it with. In name order.
pub fn closure(all: &[ModManifest], id: &str) -> (r: Vec<String>)
    ensures
        sorted_text(id_views(r@)),
        forall|x: Seq<char>| id_views(r@).contains(x) <==> reachable(all@, id@, x),
{
    broadcast use vstd::seq_lib::seq_to_set_is_finite;

    let ghost u = universe(all@, id@);
    let mut out: Vec<String> = Vec::new();
    let mut todo: Vec<String> = Vec::new();
    todo.push(String::from_str(id));
    proof {
        assert(reach(all@, id@, 0).contains(id@));
        assert(id_views(out@) =~= Seq::<Seq<char>>::empty());
        assert(id_views(todo@)[0] == id@);
    }
    while todo.len() > 0
        invariant
            u == universe(all@, id@),
            sorted_text(id_views(out@)),
            forall|x: Seq<char>| #[trigger] id_views(out@).contains(x) ==> reachable(all@, id@, x) && u.contains(x),
            forall|x: Seq<char>| #[trigger] id_views(todo@).contains(x) ==> reachable(all@, id@, x) && u.contains(x),
            id_views(out@).contains(id@) || id_views(todo@).contains(id@),
            forall|m: Seq<char>, x: Seq<char>|
                id_views(out@).contains(m) && #[trigger] deps_of(all@, m).contains(x) ==> id_views(out@).contains(x)
                    || id_views(todo@).contains(x),
            out@.len() <= u.len(),
        decreases u.len() - out@.len(), todo@.len(),
    {
        let ghost out0 = id_views(out@);
        let ghost todo0 = id_views(todo@);
        let m = todo.pop().unwrap();
        let ghost mv = m@;
        proof {
            assert(todo0 =~= id_views(todo@).push(mv));
            assert(todo0[todo0.len() - 1] == mv);
            assert(forall|x: Seq<char>| #[trigger] id_views(todo@).contains(x) ==> todo0.contains(x)) by {
                assert forall|x: Seq<char>| #[trigger] id_views(todo@).contains(x) implies todo0.contains(x) by {
                    let q = choose|q: int| 0 <= q < id_views(todo@).len() && id_views(todo@)[q] == x;
                    assert(todo0[q] == x);
                }
            }
        }
        let found = find_manifest(all, m.as_str());
        let added = insert_sorted(&mut out, m);
        let ghost out1 = id_views(out@);
        proof {
            assert forall|x: Seq<char>| #[trigger] out1.contains(x) <==> out0.contains(x) || x == mv by {
                assert(out1.to_set().contains(x) == out1.contains(x));
                assert(out0.to_set().contains(x) == out0.contains(x));
            }
        }
        if added {
            match found {
                Some(k) => {
                    let ghost base = id_views(todo@);
                    let ghost dv = id_views(all@[k as int].depends@);
                    proof {
                        assert(deps_of(all@, mv) == dv) by {
                            let c = choose|c: int| first_with(all@, mv, c);
                            assert(c == k as int) by {
                                if c < k {
                                    assert(all@[c].id@ != mv);
                                } else if c > k {
                                    assert(all@[k as int].id@ != mv);
                                }
                            }
                        }
                        assert(dv.take(0) =~= Seq::<Seq<char>>::empty());
                        assert(base + dv.take(0) =~= base);
                    }
                    let deps = &all[k].depends;
                    let mut t: usize = 0;
                    while t < deps.len()
                        invariant
                            t <= deps@.len(),
                            dv == id_views(deps@),
                            id_views(todo@) == base + dv.take(t as int),
                        decreases deps@.len() - t,
                    {
                        let c = deps[t].clone();
                        assert(c@ == dv[t as int]);
                        let ghost before = id_views(todo@);
                        todo.push(c);
                        assert(id_views(todo@) =~= before.push(dv[t as int]));
                        assert(dv.take(t + 1) =~= dv.take(t as int).push(dv[t as int]));
                        assert(id_views(todo@) =~= base + dv.take(t + 1));
                        t += 1;
                    }
                    assert(dv.take(t as int) =~= dv);
                },
                None => {},
            }
        }
        proof {
            let todo1 = id_views(todo@);
            assert(todo0.contains(mv));
            assert(reachable(all@, id@, mv) && u.contains(mv));
            // What was waiting is still waiting, or now in `out`.
            assert forall|x: Seq<char>| todo0.contains(x) implies out1.contains(x) || todo1.contains(x) by {
                let q = choose|q: int| 0 <= q < todo0.len() && todo0[q] == x;
                if q < todo0.len() - 1 {
                    let popped = todo0.drop_last();
                    assert(popped[q] == x);
                    assert(todo1[q] == x);
                }
            }
            assert forall|x: Seq<char>| #[trigger] todo1.contains(x) implies reachable(all@, id@, x) && u.contains(x) by {
                let q = choose|q: int| 0 <= q < todo1.len() && todo1[q] == x;
                if q < todo0.len() - 1 {
                    assert(todo0[q] == x);
                    assert(todo0.contains(x));
                } else {
                    assert(deps_of(all@, mv).contains(x)) by {
                        let d = deps_of(all@, mv);
                        assert(d[q - (todo0.len() - 1)] == x);
                    }
                    lemma_reach_step(all@, id@, mv, x);
                    lemma_deps_in_universe(all@, id@, mv, x);
                }
            }
            assert forall|mm: Seq<char>, x: Seq<char>|
                out1.contains(mm) && #[trigger] deps_of(all@, mm).contains(x) implies out1.contains(x) || todo1.contains(x) by {
                if mm == mv && added {
                    let d = deps_of(all@, mv);
                    let q = choose|q: int| 0 <= q < d.len() && d[q] == x;
                    assert(todo1[todo0.len() - 1 + q] == x);
                } else {
                    assert(out0.contains(mm));
                }
            }
            // `out` stays within the names there are.
            assert(out1.no_duplicates()) by {
                assert forall|i: int, j: int| 0 <= i < out1.len() && 0 <= j < out1.len() && i != j implies out1[i] != out1[j] by {
                    if i < j {
                        assert(text_lt(out1[i], out1[j]));
                        lemma_text_lt_irrefl(out1[i]);
                    } else {
                        assert(text_lt(out1[j], out1[i]));
                        lemma_text_lt_irrefl(out1[j]);
                    }
                }
            }
            out1.unique_seq_to_set();
            assert(out1.to_set().subset_of(u));
            assert(u.finite()) by {
                assert(all_deps(all@).to_set().finite());
            }
            vstd::set_lib::lemma_len_subset(out1.to_set(), u);
        }
    }
    proof {
        let s = id_views(out@).to_set();
        assert forall|x: Seq<char>| id_views(out@).contains(x) <==> reachable(all@, id@, x) by {
            if reachable(all@, id@, x) {
                let n = choose|n: nat| #[trigger] reach(all@, id@, n).contains(x);
                lemma_closed_holds_reach(all@, id@, s, n);
            }
        }
    }
    out
}

// ------------------------------------------------------------ error text

/// `p` stands in `s` at `k`.
pub open spec fn occurs_at(s: Seq<char>, p: Seq<char>, k: int) -> bool {
    0 <= k && k + p.len() <= s.len() && s.subrange(k, k + p.len() as int) == p
}

/// `p` stands somewhere in `s`.
pub open spec fn contains_text(s: Seq<char>, p: Seq<char>) -> bool {
    exists|k: int| occurs_at(s, p, k)
}

/// `p` first stands in `s` at `k`.
pub open spec fn first_at(s: Seq<char>, p: Seq<char>, k: int) -> bool {
    occurs_at(s, p, k) && forall|j: int| 0 <= j < k ==> !occurs_at(s, p, j)
}

/// Without leading white space.
pub open spec fn trim_start(s: Seq<char>) -> Seq<char>
    decreases s.len(),
{
    if s.len() > 0 && white_space(s[0]) {
        trim_start(s.drop_first())
    } else {
        s
    }
}

/// Without trailing white space.
pub open spec fn trim_end(s: Seq<char>) -> Seq<char>
    decreases s.len(),
{
    if s.len() > 0 && white_space(s.last()) {
        trim_end(s.drop_last())
    } else {
        s
    }
}

/// Without white space at either end, as `str::trim` gives it.
pub open spec fn trim_spec(s: Seq<char>) -> Seq<char> {
    trim_end(trim_start(s))
}

/// A line that ended in `\r\n`, without its `\r`.
pub open spec fn strip_cr(s: Seq<char>) -> Seq<char> {
    if s.len() > 0 && s.last() == '\r' {
        s.drop_last()
    } else {
        s
    }
}

/// The lines of a text, as `str::lines` gives them: split at each `\n`, a
/// `\r` before it dropped, and no empty line after a final `\n`.
pub open spec fn lines_spec(s: Seq<char>) -> Seq<Seq<char>> {
    let ps = split_on(s, '\n');
    let fin = ps.drop_last().map_values(|p: Seq<char>| strip_cr(p));
    if ps.last().len() == 0 {
        fin
    } else {
        fin.push(ps.last())
    }
}

/// The trimmed lines that name a test file: the stack frames worth showing.
pub open spec fn test_frames(ls: Seq<Seq<char>>) -> Seq<Seq<char>>
    decreases ls.len(),
{
    if ls.len() == 0 {
        Seq::empty()
    } else {
        let t = trim_spec(ls.last());
        test_frames(ls.drop_last()) + if contains_text(t, "/tests/"@) {
            seq![t]
        } else {
            Seq::empty()
        }
    }
}

/// An error without the "runtime error: " prefix Luau gives it.
pub open spec fn strip_runtime(err: Seq<char>) -> Seq<char> {
    let pre = "runtime error: "@;
    if err.len() >= pre.len() && err.take(pre.len() as int) == pre {
        err.skip(pre.len() as int)
    } else {
        err
    }
}

/// Where the stack traceback starts, if there is one.
pub open spec fn traceback_at(e: Seq<char>) -> Option<int> {
    if exists|k: int| first_at(e, "\nstack traceback:"@, k) {
        Some(choose|k: int| first_at(e, "\nstack traceback:"@, k))
    } else {
        None
    }
}

/// An error's message with only the stack frames in test files, when
/// there is more than one of them.
pub open spec fn tidy_body(e: Seq<char>) -> Seq<char> {
    match traceback_at(e) {
        None => e,
        Some(k) => {
            let frames = test_frames(lines_spec(e.skip(k + "\nstack traceback:"@.len())));
            if frames.len() <= 1 {
                e.take(k)
            } else {
                e.take(k) + "\n  "@ + crate::modloader::join(frames, "\n  "@)
            }
        },
    }
}

/// A script error as a test report shows it: without the "runtime error: "
/// prefix, and with the stack traceback cut to the frames in test files
/// when there is more than one of them.
pub open spec fn tidy_spec(err: Seq<char>) -> Seq<char> {
    tidy_body(strip_runtime(err))
}

/// Whether `p` stands in `s` at `k`.
fn occurs_exec(s: &Vec<char>, p: &Vec<char>, k: usize) -> (r: bool)
    ensures
        r == occurs_at(s@, p@, k as int),
{
    let n = s.len();
    if k > n || p.len() > n - k {
        return false;
    }
    let mut j: usize = 0;
    while j < p.len()
        invariant
            n == s@.len(),
            j <= p@.len(),
            k + p@.len() <= s@.len(),
            forall|t: int| 0 <= t < j ==> s@[k + t] == p@[t],
        decreases p@.len() - j,
    {
        if s[k + j] != p[j] {
            assert(s@.subrange(k as int, k + p@.len())[j as int] != p@[j as int]);
            return false;
        }
        j += 1;
    }
    assert(s@.subrange(k as int, k + p@.len()) =~= p@);
    true
}

/// Where `p` first stands in `s`, if it does.
fn find_text(s: &Vec<char>, p: &Vec<char>) -> (r: Option<usize>)
    ensures
        match r {
            Some(k) => first_at(s@, p@, k as int),
            None => !exists|k: int| occurs_at(s@, p@, k),
        },
{
    let mut k: usize = 0;
    while k <= s.len()
        invariant
            k <= s@.len() + 1,
            forall|j: int| 0 <= j < k ==> !occurs_at(s@, p@, j),
        decreases s@.len() + 1 - k,
    {
        if occurs_exec(s, p, k) {
            return Some(k);
        }
        if k == s.len() {
            proof {
                assert forall|j: int| !occurs_at(s@, p@, j) by {
                    if j > k {
                        assert(!(j + p@.len() <= s@.len()));
                    }
                }
            }
            return None;
        }
        k += 1;
    }
    None
}

proof fn lemma_trim_start_suffix(s: Seq<char>, a: int)
    requires
        0 <= a <= s.len(),
        forall|j: int| 0 <= j < a ==> white_space(s[j]),
    ensures
        trim_start(s) == trim_start(s.skip(a)),
    decreases a,
{
    if a > 0 {
        assert(s.skip(1) == s.drop_first());
        lemma_trim_start_suffix(s.drop_first(), a - 1);
        assert(s.drop_first().skip(a - 1) =~= s.skip(a));
    } else {
        assert(s.skip(0) =~= s);
    }
}

proof fn lemma_trim_end_prefix(s: Seq<char>, b: int)
    requires
        0 <= b <= s.len(),
        forall|j: int| b <= j < s.len() ==> white_space(s[j]),
    ensures
        trim_end(s) == trim_end(s.take(b)),
    decreases s.len() - b,
{
    if b < s.len() {
        lemma_trim_end_prefix(s.drop_last(), b);
        assert(s.drop_last().take(b) =~= s.take(b));
    } else {
        assert(s.take(b) =~= s);
    }
}

/// Some characters without white space at either end.
fn trim_chars(s: &Vec<char>) -> (r: Vec<char>)
    ensures
        r@ == trim_spec(s@),
{
    let mut a: usize = 0;
    while a < s.len() && is_white_space(s[a])
        invariant
            a <= s@.len(),
            forall|j: int| 0 <= j < a ==> white_space(s@[j]),
        decreases s@.len() - a,
    {
        a += 1;
    }
    proof {
        lemma_trim_start_suffix(s@, a as int);
    }
    let ghost t = s@.skip(a as int);
    assert(trim_start(t) == t);
    let mut b: usize = s.len();
    while b > a && is_white_space(s[b - 1])
        invariant
            a <= b <= s@.len(),
            forall|j: int| b <= j < s@.len() ==> white_space(s@[j]),
        decreases b - a,
    {
        b -= 1;
    }
    proof {
        lemma_trim_end_prefix(t, b - a);
        assert(t.take(b - a) =~= s@.subrange(a as int, b as int));
        let u = s@.subrange(a as int, b as int);
        if u.len() > 0 {
            assert(u.last() == s@[b - 1]);
        }
    }
    let mut out: Vec<char> = Vec::new();
    let mut k = a;
    while k < b
        invariant
            a <= k <= b <= s@.len(),
            out@ == s@.subrange(a as int, k as int),
        decreases b - k,
    {
        out.push(s[k]);
        assert(s@.subrange(a as int, k + 1) =~= s@.subrange(a as int, k as int).push(s@[k as int]));
        k += 1;
    }
    out
}

/// A finished line: its `\r` dropped, trimmed, and kept when it names a
/// test file.
fn keep_frame(frames: &mut Vec<Vec<char>>, line: Vec<char>, tests: &Vec<char>, terminated: bool)
    requires
        tests@ == "/tests/"@,
    ensures
        ({
            let l = if terminated { strip_cr(line@) } else { line@ };
            let t = trim_spec(l);
            id_chars(final(frames)@) == id_chars(old(frames)@) + if contains_text(t, "/tests/"@) {
                seq![t]
            } else {
                Seq::empty()
            }
        }),
{
    let mut l = line;
    if terminated && l.len() > 0 && l[l.len() - 1] == '\r' {
        l.pop();
    }
    let t = trim_chars(&l);
    let ghost before = id_chars(frames@);
    let ghost tv = t@;
    match find_text(&t, tests) {
        Some(_) => {
            frames.push(t);
            assert(id_chars(frames@) =~= before + seq![tv]);
        },
        None => {
            assert(id_chars(frames@) =~= before + Seq::<Seq<char>>::empty());
        },
    }
}

/// The views of character vectors.
pub open spec fn id_chars(v: Seq<Vec<char>>) -> Seq<Seq<char>> {
    v.map_values(|x: Vec<char>| x@)
}

/// A script error as a test report shows it: without the "runtime error: "
/// prefix, and with its stack traceback cut to the frames in test files
/// when there is more than one of them.
pub fn tidy(err: &str) -> (r: String)
    ensures
        r@ == tidy_spec(err@),
{
    let all = chars_of(err);
    let pre = chars_of("runtime error: ");
    let stripped = pre.len() <= all.len() && occurs_exec(&all, &pre, 0);
    let mut e: Vec<char> = Vec::new();
    let mut i: usize = if stripped { pre.len() } else { 0 };
    let i0 = i;
    proof {
        if all@.len() >= pre@.len() && all@.take(pre@.len() as int) == pre@ {
            assert(all@.subrange(0, pre@.len() as int) =~= all@.take(pre@.len() as int));
        }
        if stripped {
            assert(all@.subrange(0, pre@.len() as int) =~= all@.take(pre@.len() as int));
        }
    }
    while i < all.len()
        invariant
            i0 <= i <= all@.len(),
            e@ == all@.subrange(i0 as int, i as int),
        decreases all@.len() - i,
    {
        e.push(all[i]);
        assert(all@.subrange(i0 as int, i + 1) =~= all@.subrange(i0 as int, i as int).push(all@[i as int]));
        i += 1;
    }
    assert(e@ =~= all@.skip(i0 as int));
    proof {
        let pre_s = "runtime error: "@;
        let spec_e = strip_runtime(all@);
        if !stripped {
            assert(all@.skip(0) =~= all@);
            if all@.len() >= pre_s.len() && all@.take(pre_s.len() as int) == pre_s {
                assert(occurs_at(all@, pre@, 0));
            }
        }
        assert(e@ == spec_e);
    }
    let pat = chars_of("\nstack traceback:");
    let k = match find_text(&e, &pat) {
        None => {
            assert(traceback_at(e@) is None);
            return crate::text::string_of(e.as_slice());
        },
        Some(k) => k,
    };
    proof {
        let q = choose|q: int| first_at(e@, pat@, q);
        assert(q == k as int) by {
            if q < k {
            } else if q > k {
                assert(occurs_at(e@, pat@, k as int));
            }
        }
    }
    let tests = chars_of("/tests/");
    // Walk the traceback's lines.
    let start = k + pat.len();
    let ghost t = e@.skip(start as int);
    let n = e.len();
    let mut frames: Vec<Vec<char>> = Vec::new();
    let mut cur: Vec<char> = Vec::new();
    let mut j: usize = start;
    proof {
        assert(t.take(0) =~= Seq::<char>::empty());
        assert(split_on(t.take(0), '\n').drop_last() =~= Seq::<Seq<char>>::empty());
        assert(split_on(t.take(0), '\n').drop_last().map_values(|p: Seq<char>| strip_cr(p)) =~= Seq::<Seq<char>>::empty());
        assert(id_chars(frames@) =~= Seq::<Seq<char>>::empty());
    }
    while j < n
        invariant
            n == e@.len(),
            start <= j <= n,
            tests@ == "/tests/"@,
            t == e@.skip(start as int),
            id_chars(frames@) == test_frames(
                split_on(t.take(j - start), '\n').drop_last().map_values(|p: Seq<char>| strip_cr(p)),
            ),
            split_on(t.take(j - start), '\n').last() == cur@,
        decreases n - j,
    {
        let ghost i = j - start;
        let ghost sp = split_on(t.take(i), '\n');
        proof {
            lemma_split_on_len(t.take(i), '\n');
            assert(t.take(i + 1).drop_last() =~= t.take(i));
            assert(t[i] == e@[j as int]);
        }
        let c = e[j];
        if c == '\n' {
            let mut line: Vec<char> = Vec::new();
            std::mem::swap(&mut line, &mut cur);
            let ghost lv = line@;
            keep_frame(&mut frames, line, &tests, true);
            proof {
                let sp1 = split_on(t.take(i + 1), '\n');
                assert(sp1 == sp.push(Seq::<char>::empty()));
                assert(sp1.drop_last() =~= sp);
                let f = |p: Seq<char>| strip_cr(p);
                assert(sp.drop_last().push(sp.last()) =~= sp);
                assert(sp.map_values(f) =~= sp.drop_last().map_values(f).push(strip_cr(lv)));
                assert(sp.map_values(f).drop_last() =~= sp.drop_last().map_values(f));
            }
        } else {
            cur.push(c);
            proof {
                let sp1 = split_on(t.take(i + 1), '\n');
                assert(sp1 == sp.update(sp.len() - 1, sp.last().push(c)));
                assert(sp1.drop_last() =~= sp.drop_last());
            }
        }
        j += 1;
    }
    proof {
        assert(t.take(n - start) =~= t);
        lemma_split_on_len(t, '\n');
    }
    // The last line, if the traceback didn't end in a newline.
    if cur.len() > 0 {
        let ghost sp = split_on(t, '\n');
        let ghost fin = sp.drop_last().map_values(|p: Seq<char>| strip_cr(p));
        let ghost lv = cur@;
        let mut line: Vec<char> = Vec::new();
        std::mem::swap(&mut line, &mut cur);
        keep_frame(&mut frames, line, &tests, false);
        proof {
            assert(lines_spec(t) == fin.push(lv));
            assert(fin.push(lv).drop_last() =~= fin);
        }
    }
    assert(id_chars(frames@) == test_frames(lines_spec(t)));
    let msg = crate::text::string_of_range(e.as_slice(), 0, k);
    assert(e@.subrange(0, k as int) =~= e@.take(k as int));
    proof {
        let pat_s = "\nstack traceback:"@;
        assert(pat@ == pat_s);
        assert(exists|q: int| first_at(e@, pat_s, q));
        assert(t == e@.skip(k + pat_s.len()));
        assert(msg@ == e@.take(k as int));
        let k2 = choose|q: int| first_at(e@, pat_s, q);
        assert(k2 == k as int) by {
            if k2 < k {
                assert(!occurs_at(e@, pat@, k2));
            } else if k2 > k {
                assert(occurs_at(e@, pat@, k as int));
            }
        }
        assert(traceback_at(e@) == Some(k as int));
        assert(strip_runtime(err@) == e@);
    }
    if frames.len() <= 1 {
        return msg;
    }
    let mut out = msg;
    out.append("\n  ");
    let ghost o0 = out@;
    let ghost fv = id_chars(frames@);
    let mut q: usize = 0;
    while q < frames.len()
        invariant
            q <= frames@.len(),
            frames@.len() > 1,
            fv == id_chars(frames@),
            out@ == o0 + crate::modloader::join(fv.take(q as int), "\n  "@),
        decreases frames@.len() - q,
    {
        proof {
            assert(fv.take(q + 1).drop_last() =~= fv.take(q as int));
        }
        if q > 0 {
            out.append("\n  ");
        }
        let ghost before = out@;
        let mut m: usize = 0;
        while m < frames[q].len()
            invariant
                q < frames@.len(),
                m <= frames@[q as int]@.len(),
                out@ == before + frames@[q as int]@.take(m as int),
            decreases frames@[q as int]@.len() - m,
        {
            crate::text::push_char(&mut out, frames[q][m]);
            assert(frames@[q as int]@.take(m + 1) =~= frames@[q as int]@.take(m as int).push(frames@[q as int]@[m as int]));
            m += 1;
        }
        proof {
            assert(frames@[q as int]@.take(m as int) =~= fv[q as int]);
            if q == 0 {
                assert(fv.take(0) =~= Seq::<Seq<char>>::empty());
                assert(crate::modloader::join(fv.take(1), "\n  "@) == fv[0]);
            }
        }
        q += 1;
    }
    assert(fv.take(q as int) =~= fv);
    out
}

} // verus!
