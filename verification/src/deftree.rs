//! Def files as trees: what a mod's TOML says, and the deep merge a
//! `[[patch]]`'s `set` makes into the def it targets.
use vstd::prelude::*;
use crate::text::str_eq;
use crate::modloader::{own_id_spec, text_lt};

verus! {

/// A TOML value as the def files hold it. Floats and dates are carried as
/// the text their `Display` writes: nothing here reads them.
#[derive(Debug)]
pub enum DefTree {
    Str(String),
    Int(i64),
    Bool(bool),
    Float(String),
    Stamp(String),
    List(Vec<DefTree>),
    Table(Vec<(String, DefTree)>),
}

/// What a `DefTree` holds, with its texts as characters.
pub enum Tree {
    Str(Seq<char>),
    Int(i64),
    Bool(bool),
    Float(Seq<char>),
    Stamp(Seq<char>),
    List(Seq<Tree>),
    Table(Seq<(Seq<char>, Tree)>),
}

pub open spec fn tree_of(t: DefTree) -> Tree
    decreases t,
{
    match t {
        DefTree::Str(s) => Tree::Str(s@),
        DefTree::Int(i) => Tree::Int(i),
        DefTree::Bool(b) => Tree::Bool(b),
        DefTree::Float(s) => Tree::Float(s@),
        DefTree::Stamp(s) => Tree::Stamp(s@),
        DefTree::List(v) => Tree::List(trees_of(v@)),
        DefTree::Table(v) => Tree::Table(fields_of(v@)),
    }
}

pub open spec fn trees_of(s: Seq<DefTree>) -> Seq<Tree>
    decreases s,
{
    if s.len() == 0 {
        Seq::empty()
    } else {
        trees_of(s.subrange(0, s.len() - 1)).push(tree_of(s[s.len() - 1]))
    }
}

pub open spec fn fields_of(s: Seq<(String, DefTree)>) -> Seq<(Seq<char>, Tree)>
    decreases s,
{
    if s.len() == 0 {
        Seq::empty()
    } else {
        fields_of(s.subrange(0, s.len() - 1)).push((s[s.len() - 1].0@, tree_of(s[s.len() - 1].1)))
    }
}

pub proof fn lemma_fields_of(s: Seq<(String, DefTree)>)
    ensures
        fields_of(s).len() == s.len(),
        forall|j: int| 0 <= j < s.len() ==> #[trigger] fields_of(s)[j] == (s[j].0@, tree_of(s[j].1)),
    decreases s.len(),
{
    if s.len() > 0 {
        lemma_fields_of(s.subrange(0, s.len() - 1));
    }
}

pub proof fn lemma_trees_of(s: Seq<DefTree>)
    ensures
        trees_of(s).len() == s.len(),
        forall|j: int| 0 <= j < s.len() ==> #[trigger] trees_of(s)[j] == tree_of(s[j]),
    decreases s.len(),
{
    if s.len() > 0 {
        lemma_trees_of(s.subrange(0, s.len() - 1));
    }
}

/// Where the first field named `k` is, or -1 where there is none.
pub open spec fn key_at(d: Seq<(Seq<char>, Tree)>, k: Seq<char>) -> int
    decreases d.len(),
{
    if d.len() == 0 {
        -1
    } else if d[0].0 == k {
        0
    } else {
        let p = key_at(d.subrange(1, d.len() as int), k);
        if p < 0 { -1 } else { p + 1 }
    }
}

proof fn lemma_key_at(d: Seq<(Seq<char>, Tree)>, k: Seq<char>, p: int)
    requires
        0 <= p <= d.len(),
        forall|j: int| 0 <= j < p ==> d[j].0 != k,
        p == d.len() || d[p].0 == k,
    ensures
        key_at(d, k) == (if p == d.len() { -1 } else { p }),
    decreases p,
{
    if p > 0 {
        let e = d.subrange(1, d.len() as int);
        assert forall|j: int| 0 <= j < p - 1 implies e[j].0 != k by {
            assert(e[j] == d[j + 1]);
        }
        if p < d.len() {
            assert(e[p - 1] == d[p]);
        }
        lemma_key_at(e, k, p - 1);
    }
}

/// Every element of the list is a table.
pub open spec fn all_tables(l: Seq<Tree>) -> bool {
    forall|i: int| 0 <= i < l.len() ==> #[trigger] l[i] is Table
}

/// `src` merged into the fields `dst`, one field of `src` after another: a
/// field replaces the one of its name, or is added; a table merges into a
/// table of its name, and into the one table of a list of one table; on a
/// list of other than one table it does nothing.
pub open spec fn merged_fields(dst: Seq<(Seq<char>, Tree)>, src: Seq<(Seq<char>, Tree)>) -> Seq<(Seq<char>, Tree)>
    decreases src,
{
    if src.len() == 0 {
        dst
    } else {
        let n = src.len() - 1;
        let acc = merged_fields(dst, src.subrange(0, n));
        let k = src[n].0;
        let i = key_at(acc, k);
        if i < 0 {
            acc.push(src[n])
        } else {
            match src[n].1 {
                Tree::Table(st) => match acc[i].1 {
                    Tree::Table(dt) => acc.update(i, (acc[i].0, Tree::Table(merged_fields(dt, st)))),
                    Tree::List(l) => if !all_tables(l) {
                        acc.update(i, (acc[i].0, src[n].1))
                    } else if l.len() == 1 {
                        acc.update(i, (acc[i].0, Tree::List(seq![Tree::Table(merged_fields(l[0]->Table_0, st))])))
                    } else {
                        acc
                    },
                    _ => acc.update(i, (acc[i].0, src[n].1)),
                },
                _ => acc.update(i, (acc[i].0, src[n].1)),
            }
        }
    }
}

fn all_tables_in(l: &Vec<DefTree>) -> (r: bool)
    ensures
        r == all_tables(trees_of(l@)),
{
    proof { lemma_trees_of(l@); }
    let mut i: usize = 0;
    while i < l.len()
        invariant
            i <= l@.len(),
            trees_of(l@).len() == l@.len(),
            forall|j: int| 0 <= j < l@.len() ==> #[trigger] trees_of(l@)[j] == tree_of(l@[j]),
            forall|j: int| 0 <= j < i ==> #[trigger] trees_of(l@)[j] is Table,
        decreases l@.len() - i,
    {
        assert(trees_of(l@)[i as int] == tree_of(l@[i as int]));
        match &l[i] {
            DefTree::Table(_) => {}
            _ => {
                assert(!(trees_of(l@)[i as int] is Table));
                return false;
            }
        }
        i += 1;
    }
    true
}

/// A copy of a tree.
pub fn copy_tree(t: &DefTree) -> (r: DefTree)
    ensures
        tree_of(r) == tree_of(*t),
    decreases t,
{
    match t {
        DefTree::Str(s) => DefTree::Str(s.clone()),
        DefTree::Int(i) => DefTree::Int(*i),
        DefTree::Bool(b) => DefTree::Bool(*b),
        DefTree::Float(s) => DefTree::Float(s.clone()),
        DefTree::Stamp(s) => DefTree::Stamp(s.clone()),
        DefTree::List(v) => {
            proof {
                assert(decreases_to!(*t => *v));
            }
            DefTree::List(copy_list(v))
        }
        DefTree::Table(v) => {
            proof {
                assert(decreases_to!(*t => *v));
            }
            DefTree::Table(copy_fields(v))
        }
    }
}

/// A copy of a list of trees.
fn copy_list(v: &Vec<DefTree>) -> (r: Vec<DefTree>)
    ensures
        trees_of(r@) == trees_of(v@),
    decreases v,
{
    let mut out: Vec<DefTree> = Vec::new();
    let mut j: usize = 0;
    while j < v.len()
        invariant
            j <= v@.len(),
            out@.len() == j,
            forall|q: int| 0 <= q < j ==> #[trigger] tree_of(out@[q]) == tree_of(v@[q]),
        decreases v@.len() - j,
    {
        proof {
            assert(decreases_to!(*v => v@[j as int]));
        }
        out.push(copy_tree(&v[j]));
        j += 1;
    }
    proof {
        lemma_trees_of(out@);
        lemma_trees_of(v@);
        assert(trees_of(out@) =~= trees_of(v@));
    }
    out
}

/// A copy of the fields of a table.
fn copy_fields(v: &Vec<(String, DefTree)>) -> (r: Vec<(String, DefTree)>)
    ensures
        fields_of(r@) == fields_of(v@),
    decreases v,
{
    let mut out: Vec<(String, DefTree)> = Vec::new();
    let mut j: usize = 0;
    while j < v.len()
        invariant
            j <= v@.len(),
            out@.len() == j,
            forall|q: int| 0 <= q < j ==> #[trigger] out@[q].0@ == v@[q].0@ && tree_of(out@[q].1) == tree_of(v@[q].1),
        decreases v@.len() - j,
    {
        proof {
            assert(decreases_to!(*v => v@[j as int]));
            assert(decreases_to!(v@[j as int] => v@[j as int].1));
        }
        let c = copy_tree(&v[j].1);
        out.push((v[j].0.clone(), c));
        j += 1;
    }
    proof {
        lemma_fields_of(out@);
        lemma_fields_of(v@);
        assert(fields_of(out@) =~= fields_of(v@));
    }
    out
}

/// Merges `src` into the fields `dst`, as a patch's `set` does.
#[verifier::spinoff_prover]
#[verifier::rlimit(40)]
pub fn merge_fields(dst: Vec<(String, DefTree)>, src: &Vec<(String, DefTree)>) -> (r: Vec<(String, DefTree)>)
    ensures
        fields_of(r@) == merged_fields(fields_of(dst@), fields_of(src@)),
    decreases src,
{
    let ghost s0 = src@;
    let ghost d0 = fields_of(dst@);
    let mut acc = dst;
    let mut i: usize = 0;
    proof {
        lemma_fields_of(s0);
        assert(fields_of(s0.take(0)) =~= Seq::<(Seq<char>, Tree)>::empty());
    }
    while i < src.len()
        invariant
            i <= s0.len(),
            src@ == s0,
            fields_of(acc@) == merged_fields(d0, fields_of(s0.take(i as int))),
        decreases s0.len() - i,
    {
        let ghost before = fields_of(acc@);
        let ghost sv = tree_of(src@[i as int].1);
        let ghost kv = src@[i as int].0@;
        proof {
            let t = s0.take(i as int + 1);
            lemma_fields_of(t);
            lemma_fields_of(s0.take(i as int));
            assert(t.subrange(0, i as int) =~= s0.take(i as int));
            assert(fields_of(t).subrange(0, i as int) =~= fields_of(s0.take(i as int)));
            assert(fields_of(t)[i as int] == (kv, sv));
            lemma_fields_of(acc@);
        }
        let k = src[i].0.as_str();
        let mut p: usize = 0;
        let mut found = false;
        while p < acc.len() && !found
            invariant
                p <= acc@.len(),
                k@ == kv,
                fields_of(acc@) == before,
                before.len() == acc@.len(),
                forall|j: int| 0 <= j < acc@.len() ==> #[trigger] before[j] == (acc@[j].0@, tree_of(acc@[j].1)),
                found ==> p < acc@.len() && before[p as int].0 == kv,
                forall|j: int| 0 <= j < p ==> before[j].0 != kv,
            decreases acc@.len() - p + (if found { 0int } else { 1int }),
        {
            assert(before[p as int] == (acc@[p as int].0@, tree_of(acc@[p as int].1)));
            if str_eq(acc[p].0.as_str(), k) {
                found = true;
            } else {
                p += 1;
            }
        }
        proof {
            lemma_key_at(before, kv, p as int);
        }
        if p == acc.len() {
            let c = copy_tree(&src[i].1);
            acc.push((src[i].0.clone(), c));
            proof {
                lemma_fields_of(acc@);
                assert(fields_of(acc@) =~= before.push((kv, sv)));
                assert(fields_of(acc@) == merged_fields(d0, fields_of(s0.take(i as int + 1))));
            }
        } else {
            let (name, old) = acc.remove(p);
            let new = match &src[i].1 {
                DefTree::Table(st) => {
                    proof {
                        assert(decreases_to!(*src => src@[i as int]));
                        assert(decreases_to!(src@[i as int] => src@[i as int].1));
                        assert(decreases_to!(src@[i as int].1 => *st));
                    }
                    match old {
                        DefTree::Table(dt) => DefTree::Table(merge_fields(dt, st)),
                        DefTree::List(l) => {
                            proof { lemma_trees_of(l@); }
                            if !all_tables_in(&l) {
                                copy_tree(&src[i].1)
                            } else if l.len() == 1 {
                                let mut l = l;
                                proof {
                                    lemma_trees_of(l@);
                                    assert(trees_of(l@)[0] is Table);
                                }
                                let only = l.pop().unwrap();
                                assert(tree_of(only) is Table);
                                match only {
                                    DefTree::Table(ot) => {
                                        let m = merge_fields(ot, st);
                                        let out = vec![DefTree::Table(m)];
                                        proof {
                                            lemma_trees_of(out@);
                                            assert(trees_of(out@) =~= seq![tree_of(out@[0])]);
                                        }
                                        DefTree::List(out)
                                    }
                                    _ => {
                                        assert(false);
                                        DefTree::List(Vec::new())
                                    }
                                }
                            } else {
                                DefTree::List(l)
                            }
                        }
                        _ => copy_tree(&src[i].1),
                    }
                }
                _ => copy_tree(&src[i].1),
            };
            acc.insert(p, (name, new));
            proof {
                lemma_fields_of(acc@);
                assert(fields_of(acc@) =~= before.update(p as int, (before[p as int].0, tree_of(new))));
                assert(fields_of(acc@) == merged_fields(d0, fields_of(s0.take(i as int + 1))));
            }
        }
        i += 1;
    }
    proof {
        assert(s0.take(s0.len() as int) =~= s0);
    }
    acc
}

/// A def as the loader holds it between files and patches.
#[derive(Debug)]
pub struct DefEntry {
    pub kind: String,
    pub id: String,
    pub value: Vec<(String, DefTree)>,
    pub origin: String,
    pub removed: bool,
}

/// What a `DefEntry` holds: kind, id, fields, origin, removed.
pub open spec fn entry_of(e: DefEntry) -> (Seq<char>, Seq<char>, Seq<(Seq<char>, Tree)>, Seq<char>, bool) {
    (e.kind@, e.id@, fields_of(e.value@), e.origin@, e.removed)
}

pub open spec fn entries_of(es: Seq<DefEntry>) -> Seq<(Seq<char>, Seq<char>, Seq<(Seq<char>, Tree)>, Seq<char>, bool)> {
    es.map_values(|e: DefEntry| entry_of(e))
}

/// Where the entry of this kind and id is, or -1 where there is none.
pub open spec fn entry_at(es: Seq<(Seq<char>, Seq<char>, Seq<(Seq<char>, Tree)>, Seq<char>, bool)>, kind: Seq<char>, id: Seq<char>) -> int
    decreases es.len(),
{
    if es.len() == 0 {
        -1
    } else if es[0].0 == kind && es[0].1 == id {
        0
    } else {
        let p = entry_at(es.subrange(1, es.len() as int), kind, id);
        if p < 0 { -1 } else { p + 1 }
    }
}

proof fn lemma_entry_at(es: Seq<(Seq<char>, Seq<char>, Seq<(Seq<char>, Tree)>, Seq<char>, bool)>, kind: Seq<char>, id: Seq<char>, p: int)
    requires
        0 <= p <= es.len(),
        forall|j: int| 0 <= j < p ==> !(es[j].0 == kind && es[j].1 == id),
        p == es.len() || (es[p].0 == kind && es[p].1 == id),
    ensures
        entry_at(es, kind, id) == (if p == es.len() { -1 } else { p }),
    decreases p,
{
    if p > 0 {
        let e = es.subrange(1, es.len() as int);
        assert forall|j: int| 0 <= j < p - 1 implies !(e[j].0 == kind && e[j].1 == id) by {
            assert(e[j] == es[j + 1]);
        }
        if p < es.len() {
            assert(e[p - 1] == es[p]);
        }
        lemma_entry_at(e, kind, id, p - 1);
    }
}

/// One entry of a `[[key]]` list, listed as `kind` by mod `mod_id` in file
/// `origin`, added to the defs: it needs an id, which becomes the mod's own,
/// and no def of that kind may have that id already.
#[verifier::opaque]
pub open spec fn add_one(
    es: Seq<(Seq<char>, Seq<char>, Seq<(Seq<char>, Tree)>, Seq<char>, bool)>,
    mod_id: Seq<char>, origin: Seq<char>, key: Seq<char>, kind: Seq<char>, t: Tree,
) -> Result<Seq<(Seq<char>, Seq<char>, Seq<(Seq<char>, Tree)>, Seq<char>, bool)>, Seq<char>> {
    match t {
        Tree::Table(f) => {
            let p = key_at(f, "id"@);
            if p < 0 || !(f[p].1 is Str) {
                Err(origin + ": a [["@ + key + "]] entry has no id"@)
            } else {
                match own_id_spec(mod_id, origin, key, f[p].1->Str_0) {
                    Err(e) => Err(e),
                    Ok(id) => {
                        let d = entry_at(es, kind, id);
                        if d >= 0 {
                            Err(origin + ": "@ + kind + "/"@ + id + " is already defined by "@ + es[d].3
                                + " \u{2014} use a [[patch]] to change it"@)
                        } else {
                            Ok(es.push((kind, id, f.update(p, ("id"@, Tree::Str(id))), origin, false)))
                        }
                    },
                }
            }
        },
        _ => Err(origin + ": '"@ + kind + "' entries must be tables"@),
    }
}

/// The entries of a `[[key]]` list added one after another.
pub open spec fn add_all(
    es: Seq<(Seq<char>, Seq<char>, Seq<(Seq<char>, Tree)>, Seq<char>, bool)>,
    mod_id: Seq<char>, origin: Seq<char>, key: Seq<char>, kind: Seq<char>, items: Seq<Tree>,
) -> Result<Seq<(Seq<char>, Seq<char>, Seq<(Seq<char>, Tree)>, Seq<char>, bool)>, Seq<char>>
    decreases items.len(),
{
    if items.len() == 0 {
        Ok(es)
    } else {
        match add_all(es, mod_id, origin, key, kind, items.subrange(0, items.len() - 1)) {
            Err(e) => Err(e),
            Ok(es2) => add_one(es2, mod_id, origin, key, kind, items[items.len() - 1]),
        }
    }
}

/// A file's `[[key]]` list, read as defs of `kind`: it must be a list.
pub open spec fn added_defs(
    es: Seq<(Seq<char>, Seq<char>, Seq<(Seq<char>, Tree)>, Seq<char>, bool)>,
    mod_id: Seq<char>, origin: Seq<char>, key: Seq<char>, kind: Seq<char>, val: Tree,
) -> Result<Seq<(Seq<char>, Seq<char>, Seq<(Seq<char>, Tree)>, Seq<char>, bool)>, Seq<char>> {
    match val {
        Tree::List(items) => add_all(es, mod_id, origin, key, kind, items),
        _ => Err(origin + ": '"@ + key + "' must be an array of tables ([["@ + key + "]])"@),
    }
}

proof fn lemma_add_all_err(
    es: Seq<(Seq<char>, Seq<char>, Seq<(Seq<char>, Tree)>, Seq<char>, bool)>,
    mod_id: Seq<char>, origin: Seq<char>, key: Seq<char>, kind: Seq<char>, items: Seq<Tree>, k: int,
)
    requires
        0 <= k <= items.len(),
        add_all(es, mod_id, origin, key, kind, items.take(k)) is Err,
    ensures
        add_all(es, mod_id, origin, key, kind, items) == add_all(es, mod_id, origin, key, kind, items.take(k)),
    decreases items.len() - k,
{
    if k < items.len() {
        let t = items.take(k + 1);
        assert(t.subrange(0, k) =~= items.take(k));
        lemma_add_all_err(es, mod_id, origin, key, kind, items, k + 1);
    } else {
        assert(items.take(k) =~= items);
    }
}

/// Where the first field named `k` is, or the number of fields.
fn field_pos(f: &Vec<(String, DefTree)>, k: &str) -> (p: usize)
    ensures
        p <= f@.len(),
        key_at(fields_of(f@), k@) == (if p == f@.len() { -1 } else { p as int }),
{
    let ghost fv = fields_of(f@);
    proof { lemma_fields_of(f@); }
    let mut p: usize = 0;
    let mut found = false;
    while p < f.len() && !found
        invariant
            p <= f@.len(),
            fv == fields_of(f@),
            fv.len() == f@.len(),
            forall|j: int| 0 <= j < f@.len() ==> #[trigger] fv[j] == (f@[j].0@, tree_of(f@[j].1)),
            found ==> p < f@.len() && fv[p as int].0 == k@,
            forall|j: int| 0 <= j < p ==> fv[j].0 != k@,
        decreases f@.len() - p + (if found { 0int } else { 1int }),
    {
        assert(fv[p as int] == (f@[p as int].0@, tree_of(f@[p as int].1)));
        if str_eq(f[p].0.as_str(), k) {
            found = true;
        } else {
            p += 1;
        }
    }
    proof { lemma_key_at(fv, k@, p as int); }
    p
}

/// Where the entry of this kind and id is, or the number of entries.
fn entry_pos(entries: &Vec<DefEntry>, kind: &str, id: &str) -> (d: usize)
    ensures
        d <= entries@.len(),
        entry_at(entries_of(entries@), kind@, id@) == (if d == entries@.len() { -1 } else { d as int }),
{
    let ghost ev = entries_of(entries@);
    let mut d: usize = 0;
    let mut dup = false;
    while d < entries.len() && !dup
        invariant
            d <= entries@.len(),
            ev == entries_of(entries@),
            ev.len() == entries@.len(),
            dup ==> d < entries@.len() && ev[d as int].0 == kind@ && ev[d as int].1 == id@,
            forall|j: int| 0 <= j < d ==> !(ev[j].0 == kind@ && ev[j].1 == id@),
        decreases entries@.len() - d + (if dup { 0int } else { 1int }),
    {
        assert(ev[d as int] == entry_of(entries@[d as int]));
        if str_eq(entries[d].kind.as_str(), kind) && str_eq(entries[d].id.as_str(), id) {
            dup = true;
        } else {
            d += 1;
        }
    }
    proof { lemma_entry_at(ev, kind@, id@, d as int); }
    d
}

/// Adds one entry of a `[[key]]` list to the defs.
#[verifier::spinoff_prover]
#[verifier::rlimit(40)]
fn add_entry(entries: &mut Vec<DefEntry>, mod_id: &str, origin: &str, key: &str, kind: &str, t: DefTree) -> (r: Result<(), String>)
    ensures
        match (r, add_one(entries_of(old(entries)@), mod_id@, origin@, key@, kind@, tree_of(t))) {
            (Ok(()), Ok(es)) => entries_of(final(entries)@) == es,
            (Err(e), Err(se)) => e@ == se,
            _ => false,
        },
{
    match t {
        DefTree::Table(f) => {
            let ghost fv = fields_of(f@);
            reveal(add_one);
            proof {
                lemma_fields_of(f@);
            }
            let p = field_pos(&f, "id");
            let raw = if p < f.len() {
                match &f[p].1 {
                    DefTree::Str(raw) => {
                        assert(fv[p as int].1 == Tree::Str(raw@));
                        Some(raw.clone())
                    },
                    _ => None,
                }
            } else {
                None
            };
            let raw = match raw {
                Some(raw) => raw,
                None => {
                    let mut e = String::from_str(origin);
                    e.append(": a [[");
                    e.append(key);
                    e.append("]] entry has no id");
                    return Err(e);
                }
            };
            let id = match crate::modloader::own_def_id(mod_id, origin, key, raw.as_str()) {
                Ok(id) => id,
                Err(e) => return Err(e),
            };
            let ghost ev = entries_of(entries@);
            let d = entry_pos(entries, kind, id.as_str());
            let dup = d < entries.len();
            if dup {
                assert(ev[d as int] == entry_of(entries@[d as int]));
                assert(ev[d as int].3 == entries@[d as int].origin@);
                let mut e = String::from_str(origin);
                e.append(": ");
                e.append(kind);
                e.append("/");
                e.append(id.as_str());
                e.append(" is already defined by ");
                e.append(entries[d].origin.as_str());
                e.append(" \u{2014} use a [[patch]] to change it");
                return Err(e);
            }
            let ghost id_v = id@;
            let mut f = f;
            let _ = f.remove(p);
            f.insert(p, (String::from_str("id"), DefTree::Str(id.clone())));
            proof {
                lemma_fields_of(f@);
                assert(fields_of(f@) =~= fv.update(p as int, ("id"@, Tree::Str(id@))));
            }
            let ghost old_es = entries@;
            entries.push(DefEntry { kind: String::from_str(kind), id, value: f, origin: String::from_str(origin), removed: false });
            proof {
                assert(entries_of(entries@) =~= entries_of(old_es).push(entry_of(entries@[old_es.len() as int])));
                assert(entry_of(entries@[old_es.len() as int]) == (kind@, id_v, fv.update(p as int, ("id"@, Tree::Str(id_v))), origin@, false));
                assert(fv[p as int].1 is Str);
                assert(own_id_spec(mod_id@, origin@, key@, fv[p as int].1->Str_0) == Ok::<Seq<char>, Seq<char>>(id_v));
                assert(entry_at(ev, kind@, id_v) < 0);
            }
            Ok(())
        },
        _ => {
            reveal(add_one);
            let mut e = String::from_str(origin);
            e.append(": '");
            e.append(kind);
            e.append("' entries must be tables");
            Err(e)
        },
    }
}

/// Adds a file's `[[key]]` list to the defs, as entries of `kind`, for mod
/// `mod_id` and from file `origin`.
#[verifier::spinoff_prover]
#[verifier::rlimit(40)]
pub fn add_defs(entries: &mut Vec<DefEntry>, mod_id: &str, origin: &str, key: &str, kind: &str, val: DefTree) -> (r: Result<(), String>)
    ensures
        match (r, added_defs(entries_of(old(entries)@), mod_id@, origin@, key@, kind@, tree_of(val))) {
            (Ok(()), Ok(es)) => entries_of(final(entries)@) == es,
            (Err(e), Err(se)) => e@ == se,
            _ => false,
        },
{
    let ghost vt = tree_of(val);
    match val {
        DefTree::List(items) => {
            let ghost it = items@;
            let ghost tv = trees_of(it);
            let ghost e0 = entries_of(entries@);
            let mut rest = items;
            let n0 = rest.len();
            let mut i: usize = 0;
            proof {
                lemma_trees_of(it);
                assert(tv.take(0) =~= Seq::<Tree>::empty());
            }
            while rest.len() > 0
                invariant
                    i <= it.len(),
                    it.len() == n0,
                    vt == Tree::List(tv),
                    vt == tree_of(val),
                    e0 == entries_of(old(entries)@),
                    rest@ == it.subrange(i as int, it.len() as int),
                    tv == trees_of(it),
                    tv.len() == it.len(),
                    forall|j: int| 0 <= j < it.len() ==> #[trigger] tv[j] == tree_of(it[j]),
                    add_all(e0, mod_id@, origin@, key@, kind@, tv.take(i as int)) == Ok::<Seq<(Seq<char>, Seq<char>, Seq<(Seq<char>, Tree)>, Seq<char>, bool)>, Seq<char>>(entries_of(entries@)),
                decreases rest@.len(),
            {
                let t = rest.remove(0);
                assert(t == it[i as int]);
                let ghost before = entries_of(entries@);
                let ghost tt = tree_of(t);
                let r1 = add_entry(entries, mod_id, origin, key, kind, t);
                proof {
                    let s1 = tv.take(i as int + 1);
                    assert(s1.subrange(0, i as int) =~= tv.take(i as int));
                    assert(s1[i as int] == tree_of(it[i as int]));
                }
                match r1 {
                    Err(e) => {
                        proof {
                            let s1 = tv.take(i as int + 1);
                            assert(add_all(e0, mod_id@, origin@, key@, kind@, s1) == add_one(before, mod_id@, origin@, key@, kind@, tree_of(it[i as int])));
                            lemma_add_all_err(e0, mod_id@, origin@, key@, kind@, tv, i as int + 1);
                            assert(added_defs(e0, mod_id@, origin@, key@, kind@, vt) == add_all(e0, mod_id@, origin@, key@, kind@, s1));
                            assert(tt == tree_of(it[i as int]));
                            assert(add_one(before, mod_id@, origin@, key@, kind@, tt) == Err::<Seq<(Seq<char>, Seq<char>, Seq<(Seq<char>, Tree)>, Seq<char>, bool)>, Seq<char>>(e@));
                        }
                        return Err(e);
                    },
                    Ok(()) => {},
                }
                i += 1;
            }
            proof {
                assert(tv.take(it.len() as int) =~= tv);
            }
            Ok(())
        },
        _ => {
            let mut e = String::from_str(origin);
            e.append(": '");
            e.append(key);
            e.append("' must be an array of tables ([[");
            e.append(key);
            e.append("]])");
            Err(e)
        },
    }
}

#[verifier::external_type_specification]
#[verifier::external_body]
pub struct ExTomlValue(toml::Value);

/// A `toml::Value` as a tree, variant for variant: floats and dates as
/// the text their `Display` writes.
#[verifier::external_body]
fn tree_from(v: toml::Value) -> DefTree {
    match v {
        toml::Value::String(s) => DefTree::Str(s),
        toml::Value::Integer(i) => DefTree::Int(i),
        toml::Value::Float(f) => DefTree::Float(f.to_string()),
        toml::Value::Boolean(b) => DefTree::Bool(b),
        toml::Value::Datetime(d) => DefTree::Stamp(d.to_string()),
        toml::Value::Array(a) => DefTree::List(a.into_iter().map(tree_from).collect()),
        toml::Value::Table(t) => DefTree::Table(t.into_iter().map(|(k, x)| (k, tree_from(x))).collect()),
    }
}

/// What the `toml` crate reads a text as: a table, or the message of the
/// error it stopped at.
pub uninterp spec fn toml_parsed(text: Seq<char>) -> Result<Tree, Seq<char>>;

/// Reads a text as a TOML table with `toml::Table`'s `FromStr` (the
/// parser behind `str::parse`). The result, or the error's `Display`
/// text, is `toml_parsed` of the text; a table comes back as a `Table`.
#[verifier::external_body]
fn parse_toml(text: &str) -> (r: Result<DefTree, String>)
    ensures
        match r {
            Ok(t) => t is Table && toml_parsed(text@) == Ok::<Tree, Seq<char>>(tree_of(t)),
            Err(e) => toml_parsed(text@) == Err::<Tree, Seq<char>>(e@),
        },
{
    match text.parse::<toml::Table>() {
        Ok(t) => Ok(tree_from(toml::Value::Table(t))),
        Err(e) => Err(e.to_string()),
    }
}

/// A def file read as a table; an error names the file (`origin`).
pub fn read_def_file(origin: &str, text: &str) -> (r: Result<DefTree, String>)
    ensures
        match (r, toml_parsed(text@)) {
            (Ok(t), Ok(tv)) => t is Table && tree_of(t) == tv,
            (Err(e), Err(pe)) => e@ == origin@ + ": "@ + pe,
            _ => false,
        },
{
    match parse_toml(text) {
        Ok(t) => Ok(t),
        Err(pe) => {
            let mut e = String::from_str(origin);
            e.append(": ");
            e.append(pe.as_str());
            Err(e)
        },
    }
}

/// Two trees are equal (floats and dates compare by their text).
pub fn tree_eq(a: &DefTree, b: &DefTree) -> (r: bool)
    ensures
        r == (tree_of(*a) == tree_of(*b)),
    decreases a,
{
    match (a, b) {
        (DefTree::Str(x), DefTree::Str(y)) => str_eq(x.as_str(), y.as_str()),
        (DefTree::Int(x), DefTree::Int(y)) => *x == *y,
        (DefTree::Bool(x), DefTree::Bool(y)) => *x == *y,
        (DefTree::Float(x), DefTree::Float(y)) => str_eq(x.as_str(), y.as_str()),
        (DefTree::Stamp(x), DefTree::Stamp(y)) => str_eq(x.as_str(), y.as_str()),
        (DefTree::List(x), DefTree::List(y)) => {
            proof {
                assert(decreases_to!(*a => *x));
            }
            lists_eq(x, y)
        },
        (DefTree::Table(x), DefTree::Table(y)) => {
            proof {
                assert(decreases_to!(*a => *x));
            }
            fields_eq(x, y)
        },
        _ => false,
    }
}

fn lists_eq(x: &Vec<DefTree>, y: &Vec<DefTree>) -> (r: bool)
    ensures
        r == (trees_of(x@) == trees_of(y@)),
    decreases x,
{
    proof {
        lemma_trees_of(x@);
        lemma_trees_of(y@);
    }
    if x.len() != y.len() {
        return false;
    }
    let mut i: usize = 0;
    while i < x.len()
        invariant
            i <= x@.len(),
            x@.len() == y@.len(),
            trees_of(x@).len() == x@.len(),
            trees_of(y@).len() == y@.len(),
            forall|j: int| 0 <= j < x@.len() ==> #[trigger] trees_of(x@)[j] == tree_of(x@[j]),
            forall|j: int| 0 <= j < y@.len() ==> #[trigger] trees_of(y@)[j] == tree_of(y@[j]),
            forall|j: int| 0 <= j < i ==> tree_of(x@[j]) == tree_of(y@[j]),
        decreases x@.len() - i,
    {
        proof {
            assert(decreases_to!(*x => x@[i as int]));
        }
        if !tree_eq(&x[i], &y[i]) {
            assert(trees_of(x@)[i as int] != trees_of(y@)[i as int]);
            return false;
        }
        i += 1;
    }
    assert(trees_of(x@) =~= trees_of(y@));
    true
}

fn fields_eq(x: &Vec<(String, DefTree)>, y: &Vec<(String, DefTree)>) -> (r: bool)
    ensures
        r == (fields_of(x@) == fields_of(y@)),
    decreases x,
{
    proof {
        lemma_fields_of(x@);
        lemma_fields_of(y@);
    }
    if x.len() != y.len() {
        return false;
    }
    let mut i: usize = 0;
    while i < x.len()
        invariant
            i <= x@.len(),
            x@.len() == y@.len(),
            fields_of(x@).len() == x@.len(),
            fields_of(y@).len() == y@.len(),
            forall|j: int| 0 <= j < x@.len() ==> #[trigger] fields_of(x@)[j] == (x@[j].0@, tree_of(x@[j].1)),
            forall|j: int| 0 <= j < y@.len() ==> #[trigger] fields_of(y@)[j] == (y@[j].0@, tree_of(y@[j].1)),
            forall|j: int| 0 <= j < i ==> x@[j].0@ == y@[j].0@ && tree_of(x@[j].1) == tree_of(y@[j].1),
        decreases x@.len() - i,
    {
        proof {
            assert(decreases_to!(*x => x@[i as int]));
            assert(decreases_to!(x@[i as int] => x@[i as int].1));
        }
        if !str_eq(x[i].0.as_str(), y[i].0.as_str()) || !tree_eq(&x[i].1, &y[i].1) {
            assert(fields_of(x@)[i as int] != fields_of(y@)[i as int]);
            return false;
        }
        i += 1;
    }
    assert(fields_of(x@) =~= fields_of(y@));
    true
}

/// A list element matches a pattern: a table pattern matches a table
/// that has each of its fields with an equal value; any other pattern
/// must be equal.
pub open spec fn matches_spec(el: Tree, pat: Tree) -> bool {
    if el is Table && pat is Table {
        forall|j: int| 0 <= j < pat->Table_0.len() ==> has_field(el->Table_0, #[trigger] pat->Table_0[j])
    } else {
        el == pat
    }
}

/// The first field of `e` named as `f` is, and holds what `f` holds.
pub open spec fn has_field(e: Seq<(Seq<char>, Tree)>, f: (Seq<char>, Tree)) -> bool {
    let i = key_at(e, f.0);
    i >= 0 && e[i].1 == f.1
}

/// `e[i]` is the first field of `e` named `k`.
pub open spec fn first_named(e: Seq<(Seq<char>, Tree)>, k: Seq<char>, i: int) -> bool {
    &&& 0 <= i < e.len()
    &&& e[i].0 == k
    &&& forall|i2: int| 0 <= i2 < i ==> e[i2].0 != k
}

proof fn lemma_key_at_first(e: Seq<(Seq<char>, Tree)>, k: Seq<char>)
    ensures
        key_at(e, k) < 0 <==> forall|i: int| 0 <= i < e.len() ==> e[i].0 != k,
        key_at(e, k) >= 0 ==> first_named(e, k, key_at(e, k)),
    decreases e.len(),
{
    if e.len() > 0 && e[0].0 != k {
        let r = e.subrange(1, e.len() as int);
        lemma_key_at_first(r, k);
        assert forall|i: int| 1 <= i < e.len() implies e[i].0 == r[i - 1].0 by {}
        if key_at(r, k) >= 0 {
            let j = key_at(r, k);
            assert forall|i2: int| 0 <= i2 < j + 1 implies e[i2].0 != k by {
                if i2 > 0 {
                    assert(e[i2] == r[i2 - 1]);
                }
            }
        } else {
            assert forall|i: int| 0 <= i < e.len() implies e[i].0 != k by {
                if i > 0 {
                    assert(e[i] == r[i - 1]);
                }
            }
        }
    }
}

/// No field of `e` is named `k`.
pub open spec fn lacks_field(e: Seq<(Seq<char>, Tree)>, k: Seq<char>) -> bool {
    forall|i: int| 0 <= i < e.len() ==> e[i].0 != k
}

/// `e` holds the field `f`: its first field of that name has `f`'s value.
pub open spec fn holds_field(e: Seq<(Seq<char>, Tree)>, f: (Seq<char>, Tree)) -> bool {
    exists|i: int| #[trigger] first_named(e, f.0, i) && e[i].1 == f.1
}

proof fn lemma_has_field_first(e: Seq<(Seq<char>, Tree)>, f: (Seq<char>, Tree))
    ensures
        has_field(e, f) == holds_field(e, f),
{
    lemma_key_at_first(e, f.0);
    let k = key_at(e, f.0);
    if has_field(e, f) {
        assert(first_named(e, f.0, k));
    }
    if holds_field(e, f) {
        let i = choose|i: int| #[trigger] first_named(e, f.0, i) && e[i].1 == f.1;
        assert(k >= 0);
        if k < i {
            assert(e[k].0 != f.0);
        }
        if i < k {
            assert(e[i].0 != f.0);
        }
    }
}

/// A table pattern matches a table element exactly when every field of the
/// pattern is in the element with an equal value (its first field of that
/// name): a pattern field the element lacks, or holds another value in,
/// keeps it from matching.
pub proof fn law_table_pattern_needs_every_field(e: Seq<(Seq<char>, Tree)>, p: Seq<(Seq<char>, Tree)>)
    ensures
        matches_spec(Tree::Table(e), Tree::Table(p)) <==> forall|j: int| 0 <= j < p.len() ==> #[trigger] holds_field(e, p[j]),
        (exists|j: int| 0 <= j < p.len() && #[trigger] lacks_field(e, p[j].0)) ==> !matches_spec(
            Tree::Table(e),
            Tree::Table(p),
        ),
        (exists|j: int, i: int| 0 <= j < p.len() && #[trigger] first_named(e, p[j].0, i) && e[i].1 != p[j].1) ==> !matches_spec(
            Tree::Table(e),
            Tree::Table(p),
        ),
{
    let te = Tree::Table(e)->Table_0;
    let tp = Tree::Table(p)->Table_0;
    assert(te == e && tp == p);
    assert forall|j: int| 0 <= j < p.len() implies #[trigger] has_field(te, tp[j]) == holds_field(e, p[j]) by {
        lemma_has_field_first(e, p[j]);
    }
    if exists|j: int| 0 <= j < p.len() && #[trigger] lacks_field(e, p[j].0) {
        let j = choose|j: int| 0 <= j < p.len() && #[trigger] lacks_field(e, p[j].0);
        assert(has_field(te, tp[j]) == holds_field(e, p[j]));
        if holds_field(e, p[j]) {
            let i = choose|i: int| #[trigger] first_named(e, p[j].0, i) && e[i].1 == p[j].1;
            assert(e[i].0 == p[j].0);
            assert(e[i].0 != p[j].0);
        }
        assert(!has_field(te, tp[j]));
        assert(!matches_spec(Tree::Table(e), Tree::Table(p)));
    }
    if exists|j: int, i: int| 0 <= j < p.len() && #[trigger] first_named(e, p[j].0, i) && e[i].1 != p[j].1 {
        let (j, i) = choose|j: int, i: int| 0 <= j < p.len() && #[trigger] first_named(e, p[j].0, i) && e[i].1 != p[j].1;
        assert(has_field(te, tp[j]) == holds_field(e, p[j]));
        if holds_field(e, p[j]) {
            let i2 = choose|i2: int| #[trigger] first_named(e, p[j].0, i2) && e[i2].1 == p[j].1;
            if i2 < i {
                assert(e[i2].0 != p[j].0);
            }
            if i < i2 {
                assert(e[i].0 != p[j].0);
            }
        }
    }
}

/// Whether a list element matches a pattern.
pub fn matches(el: &DefTree, pat: &DefTree) -> (r: bool)
    ensures
        r == matches_spec(tree_of(*el), tree_of(*pat)),
{
    match (el, pat) {
        (DefTree::Table(e), DefTree::Table(p)) => {
            proof {
                lemma_fields_of(p@);
            }
            let mut j: usize = 0;
            while j < p.len()
                invariant
                    j <= p@.len(),
                    *el == DefTree::Table(*e),
                    *pat == DefTree::Table(*p),
                    fields_of(p@).len() == p@.len(),
                    forall|q: int| 0 <= q < p@.len() ==> #[trigger] fields_of(p@)[q] == (p@[q].0@, tree_of(p@[q].1)),
                    forall|q: int| 0 <= q < j ==> has_field(fields_of(e@), #[trigger] fields_of(p@)[q]),
                decreases p@.len() - j,
            {
                let at = field_pos(e, p[j].0.as_str());
                proof {
                    lemma_fields_of(e@);
                    assert(fields_of(p@)[j as int].0 == p@[j as int].0@);
                }
                let same = at < e.len() && tree_eq(&e[at].1, &p[j].1);
                if !same {
                    proof {
                        let fe = fields_of(e@);
                        let k = fields_of(p@)[j as int].0;
                        if at < e@.len() {
                            assert(fe[at as int] == (e@[at as int].0@, tree_of(e@[at as int].1)));
                        }
                        assert(!has_field(fe, fields_of(p@)[j as int]));
                        assert(tree_of(*el) == Tree::Table(fe));
                        assert(tree_of(*pat) == Tree::Table(fields_of(p@)));
                        let fp = fields_of(p@);
                        assert(0 <= j < fp.len());
                        assert(Tree::Table(fp)->Table_0 == fp);
                        assert(Tree::Table(fe)->Table_0 == fe);
                        assert(!matches_spec(tree_of(*el), tree_of(*pat)));
                    }
                    return false;
                }
                proof {
                    assert(fields_of(e@)[at as int] == (e@[at as int].0@, tree_of(e@[at as int].1)));
                    assert(has_field(fields_of(e@), fields_of(p@)[j as int]));
                }
                j += 1;
            }
            true
        },
        _ => tree_eq(el, pat),
    }
}

/// What a patch does to lists: `append` or `remove`.
pub open spec fn verb(append: bool) -> Seq<char> {
    if append { "append"@ } else { "remove"@ }
}

/// The fields with the one at `i` holding `v`, or `(k, v)` added at the
/// end where `i` is -1.
pub open spec fn put_at(d: Seq<(Seq<char>, Tree)>, i: int, k: Seq<char>, v: Tree) -> Seq<(Seq<char>, Tree)> {
    if i < 0 { d.push((k, v)) } else { d.update(i, (d[i].0, v)) }
}

/// A field that takes one table or a list of them, as a list: a table
/// becomes a list of one.
pub open spec fn listed(v: Tree) -> Tree {
    match v {
        Tree::Table(t) => Tree::List(seq![Tree::Table(t)]),
        _ => v,
    }
}

/// The elements of `l` that don't match `pat`, in order.
pub open spec fn kept(l: Seq<Tree>, pat: Tree) -> Seq<Tree>
    decreases l.len(),
{
    if l.len() == 0 {
        l
    } else {
        let r = kept(l.subrange(0, l.len() - 1), pat);
        if matches_spec(l[l.len() - 1], pat) { r } else { r.push(l[l.len() - 1]) }
    }
}

/// `l` with each pattern's matches taken out in turn, and the patterns
/// that took nothing out.
pub open spec fn removed_all(l: Seq<Tree>, pats: Seq<Tree>) -> (Seq<Tree>, Seq<Tree>)
    decreases pats.len(),
{
    if pats.len() == 0 {
        (l, Seq::empty())
    } else {
        let prev = removed_all(l, pats.subrange(0, pats.len() - 1));
        let pat = pats[pats.len() - 1];
        let r2 = kept(prev.0, pat);
        (r2, if r2.len() == prev.0.len() { prev.1.push(pat) } else { prev.1 })
    }
}

/// A patch's `append` or `remove` table applied to the fields `dst` at
/// `path`: its tables reach into the def's tables (made where missing),
/// its lists add to or take from the def's lists (made where missing; a
/// lone table counts as a list of one). With the patterns that took
/// nothing out, each with its list's path; or the first error.
pub open spec fn list_op_spec(
    dst: Seq<(Seq<char>, Tree)>, src: Seq<(Seq<char>, Tree)>, path: Seq<char>, origin: Seq<char>, append: bool,
) -> Result<(Seq<(Seq<char>, Tree)>, Seq<(Seq<char>, Tree)>), Seq<char>>
    decreases src,
{
    if src.len() == 0 {
        Ok((dst, Seq::empty()))
    } else {
        let n = src.len() - 1;
        match list_op_spec(dst, src.subrange(0, n), path, origin, append) {
            Err(e) => Err(e),
            Ok(prev) => {
                let d = prev.0;
                let k = src[n].0;
                let p = path + "."@ + k;
                let i = key_at(d, k);
                match src[n].1 {
                    Tree::Table(sub) => {
                        let cur = if i < 0 { Tree::Table(Seq::empty()) } else { d[i].1 };
                        match cur {
                            Tree::Table(ct) => match list_op_spec(ct, sub, p, origin, append) {
                                Err(e) => Err(e),
                                Ok(inner) => Ok((put_at(d, i, k, Tree::Table(inner.0)), prev.1 + inner.1)),
                            },
                            _ => Err(origin + ": can't "@ + verb(append) + " inside "@ + p + ": it isn't a table"@),
                        }
                    },
                    Tree::List(items) => {
                        let cur = listed(if i < 0 { Tree::List(Seq::empty()) } else { d[i].1 });
                        match cur {
                            Tree::List(l) => if append {
                                Ok((put_at(d, i, k, Tree::List(l + items)), prev.1))
                            } else {
                                let out = removed_all(l, items);
                                Ok((put_at(d, i, k, Tree::List(out.0)), prev.1 + out.1.map_values(|t: Tree| (p, t))))
                            },
                            _ => Err(origin + ": can't "@ + verb(append) + " to "@ + p + ": it isn't a list"@),
                        }
                    },
                    _ => Err(origin + ": "@ + verb(append) + " "@ + p + ": give a list of elements"@),
                }
            },
        }
    }
}

/// The elements of `l` that don't match `pat`.
fn keep_unmatched(l: Vec<DefTree>, pat: &DefTree) -> (r: Vec<DefTree>)
    ensures
        trees_of(r@) == kept(trees_of(l@), tree_of(*pat)),
{
    let ghost lv = trees_of(l@);
    proof {
        lemma_trees_of(l@);
        assert(lv.take(0) =~= Seq::<Tree>::empty());
    }
    let mut out: Vec<DefTree> = Vec::new();
    let mut rest = l;
    let ghost l0 = rest@;
    let n0 = rest.len();
    let mut i: usize = 0;
    while rest.len() > 0
        invariant
            i <= l0.len(),
            l0.len() == n0,
            rest@ == l0.subrange(i as int, l0.len() as int),
            lv == trees_of(l0),
            lv.len() == l0.len(),
            forall|j: int| 0 <= j < l0.len() ==> #[trigger] lv[j] == tree_of(l0[j]),
            trees_of(out@) == kept(lv.take(i as int), tree_of(*pat)),
        decreases rest@.len(),
    {
        let el = rest.remove(0);
        assert(el == l0[i as int]);
        let m = matches(&el, pat);
        proof {
            let t = lv.take(i as int + 1);
            assert(t.subrange(0, i as int) =~= lv.take(i as int));
            assert(t[i as int] == tree_of(el));
        }
        if !m {
            let ghost o = out@;
            out.push(el);
            proof {
                lemma_trees_of(out@);
                lemma_trees_of(o);
                assert(trees_of(out@) =~= trees_of(o).push(tree_of(el)));
            }
        }
        i += 1;
    }
    proof {
        assert(lv.take(l0.len() as int) =~= lv);
    }
    out
}

/// `l` with each pattern's matches taken out in turn, and the patterns
/// that took nothing out.
fn remove_matching(l: Vec<DefTree>, pats: &Vec<DefTree>) -> (r: (Vec<DefTree>, Vec<DefTree>))
    ensures
        (trees_of(r.0@), trees_of(r.1@)) == removed_all(trees_of(l@), trees_of(pats@)),
{
    let ghost pv = trees_of(pats@);
    proof {
        lemma_trees_of(pats@);
        assert(pv.take(0) =~= Seq::<Tree>::empty());
        assert(trees_of(Seq::<DefTree>::empty()) =~= Seq::<Tree>::empty());
    }
    let ghost lv = trees_of(l@);
    let mut cur = l;
    let mut missed: Vec<DefTree> = Vec::new();
    let mut i: usize = 0;
    while i < pats.len()
        invariant
            i <= pats@.len(),
            pv == trees_of(pats@),
            pv.len() == pats@.len(),
            forall|j: int| 0 <= j < pats@.len() ==> #[trigger] pv[j] == tree_of(pats@[j]),
            (trees_of(cur@), trees_of(missed@)) == removed_all(lv, pv.take(i as int)),
        decreases pats@.len() - i,
    {
        let before = cur.len();
        let ghost cv = trees_of(cur@);
        proof { lemma_trees_of(cur@); }
        let next = keep_unmatched(cur, &pats[i]);
        proof {
            let t = pv.take(i as int + 1);
            assert(t.subrange(0, i as int) =~= pv.take(i as int));
            lemma_trees_of(next@);
        }
        if next.len() == before {
            let ghost m0 = missed@;
            let ghost mo = trees_of(m0);
            missed.push(copy_tree(&pats[i]));
            proof {
                lemma_trees_of(m0);
                lemma_trees_of(missed@);
                assert(trees_of(missed@) =~= mo.push(pv[i as int]));
            }
        }
        cur = next;
        i += 1;
    }
    proof {
        assert(pv.take(pats@.len() as int) =~= pv);
    }
    (cur, missed)
}

proof fn lemma_fields_concat(a: Seq<(String, DefTree)>, b: Seq<(String, DefTree)>)
    ensures
        fields_of(a + b) == fields_of(a) + fields_of(b),
{
    lemma_fields_of(a);
    lemma_fields_of(b);
    lemma_fields_of(a + b);
    assert(fields_of(a + b) =~= fields_of(a) + fields_of(b));
}

proof fn lemma_trees_concat(a: Seq<DefTree>, b: Seq<DefTree>)
    ensures
        trees_of(a + b) == trees_of(a) + trees_of(b),
{
    lemma_trees_of(a);
    lemma_trees_of(b);
    lemma_trees_of(a + b);
    assert(trees_of(a + b) =~= trees_of(a) + trees_of(b));
}

proof fn lemma_fields_take(s: Seq<(String, DefTree)>, k: int)
    requires
        0 <= k <= s.len(),
    ensures
        fields_of(s.take(k)) == fields_of(s).take(k),
        fields_of(s).len() == s.len(),
{
    lemma_fields_of(s);
    lemma_fields_of(s.take(k));
    assert(fields_of(s.take(k)) =~= fields_of(s).take(k));
}

proof fn lemma_list_op_err(
    dst: Seq<(Seq<char>, Tree)>, src: Seq<(Seq<char>, Tree)>, path: Seq<char>, origin: Seq<char>, append: bool, k: int,
)
    requires
        0 <= k <= src.len(),
        list_op_spec(dst, src.take(k), path, origin, append) is Err,
    ensures
        list_op_spec(dst, src, path, origin, append) == list_op_spec(dst, src.take(k), path, origin, append),
    decreases src.len() - k,
{
    if k < src.len() {
        let t = src.take(k + 1);
        assert(t.subrange(0, k) =~= src.take(k));
        lemma_list_op_err(dst, src, path, origin, append, k + 1);
    } else {
        assert(src.take(k) =~= src);
    }
}

/// The error for a patch list operation at `p`.
fn op_error(origin: &str, append: bool, what: &str, mid: &str, p: &str, tail: &str) -> (e: String)
    ensures
        e@ == origin@ + what@ + verb(append) + mid@ + p@ + tail@,
{
    let mut e = String::from_str(origin);
    e.append(what);
    e.append(if append { "append" } else { "remove" });
    e.append(mid);
    e.append(p);
    e.append(tail);
    e
}

/// A patch's `append` table (`append` true) or `remove` table applied to
/// the fields `dst` at `path`; the patterns that took nothing out come
/// back, each with its list's path.
#[verifier::spinoff_prover]
#[verifier::rlimit(40)]
pub fn list_op(dst: Vec<(String, DefTree)>, src: &Vec<(String, DefTree)>, path: &str, origin: &str, append: bool)
    -> (r: Result<(Vec<(String, DefTree)>, Vec<(String, DefTree)>), String>)
    ensures
        match (r, list_op_spec(fields_of(dst@), fields_of(src@), path@, origin@, append)) {
            (Ok((d, notes)), Ok((sd, sn))) => fields_of(d@) == sd && fields_of(notes@) == sn,
            (Err(e), Err(se)) => e@ == se,
            _ => false,
        },
    decreases src,
{
    let ghost s0 = src@;
    let ghost d0 = fields_of(dst@);
    let mut acc = dst;
    let mut notes: Vec<(String, DefTree)> = Vec::new();
    let mut i: usize = 0;
    proof {
        lemma_fields_of(s0);
        assert(fields_of(s0.take(0)) =~= Seq::<(Seq<char>, Tree)>::empty());
        assert(fields_of(notes@) =~= Seq::<(Seq<char>, Tree)>::empty());
    }
    while i < src.len()
        invariant
            i <= s0.len(),
            src@ == s0,
            d0 == fields_of(dst@),
            list_op_spec(d0, fields_of(s0.take(i as int)), path@, origin@, append)
                == Ok::<(Seq<(Seq<char>, Tree)>, Seq<(Seq<char>, Tree)>), Seq<char>>((fields_of(acc@), fields_of(notes@))),
        decreases s0.len() - i,
    {
        let ghost before = fields_of(acc@);
        let ghost nb = fields_of(notes@);
        let ghost sv = tree_of(src@[i as int].1);
        let ghost kv = src@[i as int].0@;
        let ghost t1 = s0.take(i as int + 1);
        proof {
            lemma_fields_of(t1);
            lemma_fields_of(s0.take(i as int));
            assert(t1.subrange(0, i as int) =~= s0.take(i as int));
            assert(fields_of(t1).subrange(0, i as int) =~= fields_of(s0.take(i as int)));
            assert(fields_of(t1)[i as int] == (kv, sv));
            lemma_fields_of(acc@);
        }
        let mut p = String::from_str(path);
        p.append(".");
        p.append(src[i].0.as_str());
        let pos = field_pos(&acc, src[i].0.as_str());
        let found = pos < acc.len();
        match &src[i].1 {
            DefTree::Table(sub) => {
                proof {
                    assert(decreases_to!(*src => src@[i as int]));
                    assert(decreases_to!(src@[i as int] => src@[i as int].1));
                    assert(decreases_to!(src@[i as int].1 => *sub));
                }
                let (name, cur) = if found { acc.remove(pos) } else { (src[i].0.clone(), DefTree::Table(Vec::new())) };
                proof {
                    if !found {
                        assert(fields_of(Seq::<(String, DefTree)>::empty()) =~= Seq::<(Seq<char>, Tree)>::empty());
                    }
                }
                match cur {
                    DefTree::Table(ct) => {
                        match list_op(ct, sub, p.as_str(), origin, append) {
                            Err(e) => {
                                proof {
                                    lemma_fields_take(s0, i as int + 1);
                                    lemma_list_op_err(d0, fields_of(s0), path@, origin@, append, i as int + 1);
                                }
                                return Err(e);
                            },
                            Ok((nt, more)) => {
                                let ghost m0 = more@;
                                let mut more = more;
                                let ghost n0 = notes@;
                                notes.append(&mut more);
                                proof { lemma_fields_concat(n0, m0); }
                                if found {
                                    acc.insert(pos, (name, DefTree::Table(nt)));
                                } else {
                                    acc.push((name, DefTree::Table(nt)));
                                }
                                proof {
                                    lemma_fields_of(acc@);
                                    if found {
                                        assert(fields_of(acc@) =~= before.update(pos as int, (before[pos as int].0, tree_of(acc@[pos as int].1))));
                                    } else {
                                        assert(fields_of(acc@) =~= before.push((kv, tree_of(acc@[pos as int].1))));
                                    }
                                }
                            },
                        }
                    },
                    _ => {
                        proof {
                            lemma_fields_take(s0, i as int + 1);
                                    lemma_list_op_err(d0, fields_of(s0), path@, origin@, append, i as int + 1);
                        }
                        return Err(op_error(origin, append, ": can't ", " inside ", p.as_str(), ": it isn't a table"));
                    },
                }
            },
            DefTree::List(items) => {
                let (name, cur) = if found { acc.remove(pos) } else { (src[i].0.clone(), DefTree::List(Vec::new())) };
                proof {
                    if !found {
                        assert(trees_of(Seq::<DefTree>::empty()) =~= Seq::<Tree>::empty());
                    }
                }
                let cur = match cur {
                    DefTree::Table(t) => {
                        let l = vec![DefTree::Table(t)];
                        proof {
                            lemma_trees_of(l@);
                            assert(trees_of(l@) =~= seq![tree_of(l@[0])]);
                        }
                        DefTree::List(l)
                    },
                    other => other,
                };
                match cur {
                    DefTree::List(l) => {
                        let newl = if append {
                            let mut l = l;
                            let mut add = copy_list(items);
                            let ghost l0 = l@;
                            let ghost a0 = add@;
                            l.append(&mut add);
                            proof { lemma_trees_concat(l0, a0); }
                            l
                        } else {
                            let (kept, missed) = remove_matching(l, items);
                            let ghost mv = trees_of(missed@);
                            let ghost n0 = fields_of(notes@);
                            proof {
                                lemma_trees_of(missed@);
                                assert(mv.take(0) =~= Seq::<Tree>::empty());
                                assert(n0 + mv.take(0).map_values(|t: Tree| (p@, t)) =~= n0);
                            }
                            let mut missed = missed;
                            let ghost ms = missed@;
                            let mut q: usize = 0;
                            let qn = missed.len();
                            while missed.len() > 0
                                invariant
                                    q <= ms.len(),
                                    ms.len() == qn,
                                    missed@ == ms.subrange(q as int, ms.len() as int),
                                    mv == trees_of(ms),
                                    mv.len() == ms.len(),
                                    forall|j: int| 0 <= j < ms.len() ==> #[trigger] mv[j] == tree_of(ms[j]),
                                    fields_of(notes@) == n0 + mv.take(q as int).map_values(|t: Tree| (p@, t)),
                                decreases missed@.len(),
                            {
                                let m = missed.remove(0);
                                assert(m == ms[q as int]);
                                let ghost nn = notes@;
                                notes.push((p.clone(), m));
                                proof {
                                    lemma_fields_of(nn);
                                    lemma_fields_of(notes@);
                                    assert(fields_of(notes@) =~= fields_of(nn).push((p@, tree_of(m))));
                                    assert(mv.take(q as int + 1).map_values(|t: Tree| (p@, t))
                                        =~= mv.take(q as int).map_values(|t: Tree| (p@, t)).push((p@, mv[q as int])));
                                }
                                q += 1;
                            }
                            proof {
                                assert(mv.take(ms.len() as int) =~= mv);
                            }
                            kept
                        };
                        if found {
                            acc.insert(pos, (name, DefTree::List(newl)));
                        } else {
                            acc.push((name, DefTree::List(newl)));
                        }
                        proof {
                            lemma_fields_of(acc@);
                            if found {
                                assert(fields_of(acc@) =~= before.update(pos as int, (before[pos as int].0, tree_of(acc@[pos as int].1))));
                            } else {
                                assert(fields_of(acc@) =~= before.push((kv, tree_of(acc@[pos as int].1))));
                            }
                        }
                    },
                    _ => {
                        proof {
                            lemma_fields_take(s0, i as int + 1);
                                    lemma_list_op_err(d0, fields_of(s0), path@, origin@, append, i as int + 1);
                        }
                        return Err(op_error(origin, append, ": can't ", " to ", p.as_str(), ": it isn't a list"));
                    },
                }
            },
            _ => {
                proof {
                    lemma_fields_take(s0, i as int + 1);
                                    lemma_list_op_err(d0, fields_of(s0), path@, origin@, append, i as int + 1);
                }
                return Err(op_error(origin, append, ": ", " ", p.as_str(), ": give a list of elements"));
            },
        }
        i += 1;
    }
    proof {
        assert(s0.take(s0.len() as int) =~= s0);
    }
    Ok((acc, notes))
}

/// A text cut at each `.`, as `str::split('.')` cuts it.
pub open spec fn dot_parts(s: Seq<char>) -> Seq<Seq<char>>
    decreases s.len(),
{
    if s.len() == 0 {
        seq![Seq::empty()]
    } else {
        let r = dot_parts(s.subrange(0, s.len() - 1));
        let c = s[s.len() - 1];
        if c == '.' {
            r.push(Seq::empty())
        } else {
            r.update(r.len() - 1, r[r.len() - 1].push(c))
        }
    }
}

proof fn lemma_dot_parts_len(s: Seq<char>)
    ensures
        dot_parts(s).len() >= 1,
    decreases s.len(),
{
    if s.len() > 0 {
        lemma_dot_parts_len(s.subrange(0, s.len() - 1));
    }
}

/// The parts of a dotted path.
fn split_dots(s: &str) -> (r: Vec<String>)
    ensures
        r@.len() >= 1,
        r@.map_values(|x: String| x@) == dot_parts(s@),
{
    let cs = crate::text::chars_of(s);
    let mut parts: Vec<String> = Vec::new();
    let mut cur = String::new();
    let mut i: usize = 0;
    proof {
        assert(cs@.subrange(0, 0) =~= Seq::<char>::empty());
        assert(parts@.map_values(|x: String| x@).push(cur@) =~= seq![Seq::<char>::empty()]);
    }
    while i < cs.len()
        invariant
            i <= cs@.len(),
            cs@ == s@,
            parts@.map_values(|x: String| x@).push(cur@) == dot_parts(cs@.subrange(0, i as int)),
        decreases cs@.len() - i,
    {
        let ghost before = parts@.map_values(|x: String| x@).push(cur@);
        proof {
            assert(cs@.subrange(0, i as int + 1).subrange(0, i as int) =~= cs@.subrange(0, i as int));
            lemma_dot_parts_len(cs@.subrange(0, i as int));
        }
        if cs[i] == '.' {
            let ghost p0 = parts@;
            parts.push(cur);
            cur = String::new();
            proof {
                assert(parts@.map_values(|x: String| x@) =~= before);
                assert(parts@.map_values(|x: String| x@).push(cur@) =~= before.push(Seq::<char>::empty()));
            }
        } else {
            let ghost c0 = cur@;
            crate::text::push_char(&mut cur, cs[i]);
            proof {
                assert(parts@.map_values(|x: String| x@).push(cur@) =~= before.update(before.len() - 1, c0.push(cs@[i as int])));
            }
        }
        i += 1;
    }
    let ghost fin = parts@.map_values(|x: String| x@).push(cur@);
    parts.push(cur);
    proof {
        assert(cs@.subrange(0, cs@.len() as int) =~= cs@);
        assert(parts@.map_values(|x: String| x@) =~= fin);
    }
    parts
}

/// Each element of `l` that matches the table `pat` and is a table, with
/// `set` merged into it; and whether any was.
pub open spec fn edited_elems(l: Seq<Tree>, pat: Seq<(Seq<char>, Tree)>, set: Seq<(Seq<char>, Tree)>) -> (Seq<Tree>, bool)
    decreases l.len(),
{
    if l.len() == 0 {
        (l, false)
    } else {
        let r = edited_elems(l.subrange(0, l.len() - 1), pat, set);
        let el = l[l.len() - 1];
        if matches_spec(el, Tree::Table(pat)) && el is Table {
            (r.0.push(Tree::Table(merged_fields(el->Table_0, set))), true)
        } else {
            (r.0.push(el), r.1)
        }
    }
}

/// The list at the dotted path `segs` (from `at` on) in `d` edited, and
/// whether any element was; or nothing where the path leads to no list.
pub open spec fn edited_at(d: Seq<(Seq<char>, Tree)>, segs: Seq<Seq<char>>, at: int, pat: Seq<(Seq<char>, Tree)>, set: Seq<(Seq<char>, Tree)>) -> Option<(Seq<(Seq<char>, Tree)>, bool)>
    decreases segs.len() - at,
{
    if at < 0 || at >= segs.len() {
        None
    } else {
        let i = key_at(d, segs[at]);
        if at + 1 < segs.len() {
            if i < 0 || !(d[i].1 is Table) {
                None
            } else {
                match edited_at(d[i].1->Table_0, segs, at + 1, pat, set) {
                    None => None,
                    Some(r) => Some((d.update(i, (d[i].0, Tree::Table(r.0))), r.1)),
                }
            }
        } else if i < 0 {
            None
        } else {
            match listed(d[i].1) {
                Tree::List(l) => {
                    let r = edited_elems(l, pat, set);
                    Some((d.update(i, (d[i].0, Tree::List(r.0))), r.1))
                },
                _ => None,
            }
        }
    }
}

fn edit_elems(l: Vec<DefTree>, pat: &Vec<(String, DefTree)>, set: &Vec<(String, DefTree)>) -> (r: (Vec<DefTree>, bool))
    ensures
        (trees_of(r.0@), r.1) == edited_elems(trees_of(l@), fields_of(pat@), fields_of(set@)),
{
    let ghost lv = trees_of(l@);
    let ghost l0 = l@;
    proof {
        lemma_trees_of(l@);
        assert(lv.subrange(0, 0) =~= Seq::<Tree>::empty());
        assert(trees_of(Seq::<DefTree>::empty()) =~= Seq::<Tree>::empty());
    }
    let pattern = DefTree::Table(copy_fields(pat));
    let mut rest = l;
    let n0 = rest.len();
    let mut out: Vec<DefTree> = Vec::new();
    let mut hit = false;
    let mut i: usize = 0;
    while rest.len() > 0
        invariant
            i <= l0.len(),
            l0.len() == n0,
            rest@ == l0.subrange(i as int, l0.len() as int),
            lv == trees_of(l0),
            lv.len() == l0.len(),
            forall|j: int| 0 <= j < l0.len() ==> #[trigger] lv[j] == tree_of(l0[j]),
            tree_of(pattern) == Tree::Table(fields_of(pat@)),
            (trees_of(out@), hit) == edited_elems(lv.subrange(0, i as int), fields_of(pat@), fields_of(set@)),
        decreases rest@.len(),
    {
        let el = rest.remove(0);
        assert(el == l0[i as int]);
        let m = matches(&el, &pattern);
        proof {
            let t = lv.subrange(0, i as int + 1);
            assert(t.subrange(0, i as int) =~= lv.subrange(0, i as int));
            assert(t[i as int] == tree_of(el));
        }
        let ghost o = out@;
        let new = match el {
            DefTree::Table(t) => {
                if m {
                    hit = true;
                    DefTree::Table(merge_fields(t, set))
                } else {
                    DefTree::Table(t)
                }
            },
            other => other,
        };
        out.push(new);
        proof {
            lemma_trees_of(o);
            lemma_trees_of(out@);
            assert(trees_of(out@) =~= trees_of(o).push(tree_of(new)));
        }
        i += 1;
    }
    proof {
        assert(lv.subrange(0, l0.len() as int) =~= lv);
    }
    (out, hit)
}

fn edit_at(d: Vec<(String, DefTree)>, segs: &Vec<String>, at: usize, pat: &Vec<(String, DefTree)>, set: &Vec<(String, DefTree)>)
    -> (r: Option<(Vec<(String, DefTree)>, bool)>)
    requires
        at < segs@.len(),
    ensures
        match (r, edited_at(fields_of(d@), segs@.map_values(|x: String| x@), at as int, fields_of(pat@), fields_of(set@))) {
            (Some((nd, hit)), Some((sd, shit))) => fields_of(nd@) == sd && hit == shit,
            (None, None) => true,
            _ => false,
        },
    decreases segs@.len() - at,
{
    let ghost sv = segs@.map_values(|x: String| x@);
    let ghost dv = fields_of(d@);
    proof { lemma_fields_of(d@); }
    let pos = field_pos(&d, segs[at].as_str());
    assert(sv[at as int] == segs@[at as int]@);
    if pos == d.len() {
        return None;
    }
    let mut d = d;
    let (name, cur) = d.remove(pos);
    assert(dv[pos as int] == (name@, tree_of(cur)));
    if at < segs.len() - 1 {
        match cur {
            DefTree::Table(t) => {
                match edit_at(t, segs, at + 1, pat, set) {
                    None => None,
                    Some((nt, hit)) => {
                        let ghost d1 = d@;
                        d.insert(pos, (name, DefTree::Table(nt)));
                        proof {
                            lemma_fields_of(d@);
                            assert(fields_of(d@) =~= dv.update(pos as int, (dv[pos as int].0, tree_of(d@[pos as int].1))));
                        }
                        Some((d, hit))
                    },
                }
            },
            _ => None,
        }
    } else {
        let cur = match cur {
            DefTree::Table(t) => {
                let l = vec![DefTree::Table(t)];
                proof {
                    lemma_trees_of(l@);
                    assert(trees_of(l@) =~= seq![tree_of(l@[0])]);
                }
                DefTree::List(l)
            },
            other => other,
        };
        match cur {
            DefTree::List(l) => {
                let (nl, hit) = edit_elems(l, pat, set);
                d.insert(pos, (name, DefTree::List(nl)));
                proof {
                    lemma_fields_of(d@);
                    assert(fields_of(d@) =~= dv.update(pos as int, (dv[pos as int].0, tree_of(d@[pos as int].1))));
                }
                Some((d, hit))
            },
            _ => None,
        }
    }
}

/// Where the first field whose name isn't among `allowed` is, or -1.
pub open spec fn unknown_at(d: Seq<(Seq<char>, Tree)>, allowed: Seq<Seq<char>>) -> int
    decreases d.len(),
{
    if d.len() == 0 {
        -1
    } else if !allowed.contains(d[0].0) {
        0
    } else {
        let p = unknown_at(d.subrange(1, d.len() as int), allowed);
        if p < 0 { -1 } else { p + 1 }
    }
}

proof fn lemma_unknown_at(d: Seq<(Seq<char>, Tree)>, allowed: Seq<Seq<char>>, p: int)
    requires
        0 <= p <= d.len(),
        forall|j: int| 0 <= j < p ==> allowed.contains(#[trigger] d[j].0),
        p == d.len() || !allowed.contains(d[p].0),
    ensures
        unknown_at(d, allowed) == (if p == d.len() { -1 } else { p }),
    decreases p,
{
    if p > 0 {
        let e = d.subrange(1, d.len() as int);
        assert forall|j: int| 0 <= j < p - 1 implies allowed.contains(#[trigger] e[j].0) by {
            assert(e[j] == d[j + 1]);
        }
        if p < d.len() {
            assert(e[p - 1] == d[p]);
        }
        lemma_unknown_at(e, allowed, p - 1);
    }
}

/// Where the first field whose name isn't among `allowed` is, or the
/// number of fields.
fn first_unknown(f: &Vec<(String, DefTree)>, allowed: &Vec<&str>) -> (p: usize)
    ensures
        p <= f@.len(),
        unknown_at(fields_of(f@), allowed@.map_values(|a: &str| a@)) == (if p == f@.len() { -1 } else { p as int }),
{
    let ghost al = allowed@.map_values(|a: &str| a@);
    let ghost fv = fields_of(f@);
    proof { lemma_fields_of(f@); }
    let mut p: usize = 0;
    while p < f.len()
        invariant
            p <= f@.len(),
            fv == fields_of(f@),
            al == allowed@.map_values(|a: &str| a@),
            fv.len() == f@.len(),
            forall|j: int| 0 <= j < f@.len() ==> #[trigger] fv[j] == (f@[j].0@, tree_of(f@[j].1)),
            forall|j: int| 0 <= j < p ==> al.contains(#[trigger] fv[j].0),
        decreases f@.len() - p,
    {
        let mut q: usize = 0;
        let mut ok = false;
        while q < allowed.len() && !ok
            invariant
                q <= allowed@.len(),
                al == allowed@.map_values(|a: &str| a@),
                ok ==> al.contains(f@[p as int].0@),
                !ok ==> forall|j: int| 0 <= j < q ==> al[j] != f@[p as int].0@,
                p < f@.len(),
            decreases allowed@.len() - q + (if ok { 0int } else { 1int }),
        {
            if str_eq(allowed[q], f[p].0.as_str()) {
                assert(al[q as int] == allowed@[q as int]@);
                ok = true;
            } else {
                assert(al[q as int] == allowed@[q as int]@);
                q += 1;
            }
        }
        assert(fv[p as int] == (f@[p as int].0@, tree_of(f@[p as int].1)));
        if !ok {
            proof {
                assert forall|j: int| 0 <= j < al.len() implies al[j] != fv[p as int].0 by {}
                lemma_unknown_at(fv, al, p as int);
            }
            return p;
        }
        p += 1;
    }
    proof { lemma_unknown_at(fv, al, p as int); }
    p
}

/// A `[[patch.edit]]` applied to the fields `dst` of the def `target`:
/// `set` merged into each table of the list at the dotted path `list`
/// that `match`es; with whether any did.
pub open spec fn edit_spec(dst: Seq<(Seq<char>, Tree)>, ed: Seq<(Seq<char>, Tree)>, origin: Seq<char>, target: Seq<char>)
    -> Result<(Seq<(Seq<char>, Tree)>, bool), Seq<char>>
{
    let bad = unknown_at(ed, seq!["list"@, "match"@, "set"@]);
    let li = key_at(ed, "list"@);
    let mi = key_at(ed, "match"@);
    let si = key_at(ed, "set"@);
    if bad >= 0 {
        Err(origin + ": edit on "@ + target + " has an unknown key '"@ + ed[bad].0 + "' (list, match, set)"@)
    } else if li < 0 || !(ed[li].1 is Str) {
        Err(origin + ": edit needs list = \"path.to.list\""@)
    } else if mi < 0 || !(ed[mi].1 is Table) {
        Err(origin + ": edit of "@ + ed[li].1->Str_0 + " needs match = { key = value }"@)
    } else if si < 0 || !(ed[si].1 is Table) {
        Err(origin + ": edit of "@ + ed[li].1->Str_0 + " needs set = { ... }"@)
    } else {
        match edited_at(dst, dot_parts(ed[li].1->Str_0), 0, ed[mi].1->Table_0, ed[si].1->Table_0) {
            None => Err(origin + ": edit: "@ + target + "."@ + ed[li].1->Str_0 + " isn't a list"@),
            Some(r) => Ok(r),
        }
    }
}

/// The error naming an edit's list.
fn edit_error(origin: &str, lp: &str, tail: &str) -> (e: String)
    ensures
        e@ == origin@ + ": edit of "@ + lp@ + tail@,
{
    let mut e = String::from_str(origin);
    e.append(": edit of ");
    e.append(lp);
    e.append(tail);
    e
}

/// Applies one `[[patch.edit]]` to a def's fields.
pub fn edit_list(dst: Vec<(String, DefTree)>, ed: &Vec<(String, DefTree)>, origin: &str, target: &str)
    -> (r: Result<(Vec<(String, DefTree)>, bool), String>)
    ensures
        match (r, edit_spec(fields_of(dst@), fields_of(ed@), origin@, target@)) {
            (Ok((d, hit)), Ok((sd, shit))) => fields_of(d@) == sd && hit == shit,
            (Err(e), Err(se)) => e@ == se,
            _ => false,
        },
{
    let ghost ev = fields_of(ed@);
    proof { lemma_fields_of(ed@); }
    let allowed: Vec<&str> = vec!["list", "match", "set"];
    assert(allowed@.map_values(|a: &str| a@) =~= seq!["list"@, "match"@, "set"@]);
    let bad = first_unknown(ed, &allowed);
    if bad < ed.len() {
        assert(ev[bad as int] == (ed@[bad as int].0@, tree_of(ed@[bad as int].1)));
        let mut e = String::from_str(origin);
        e.append(": edit on ");
        e.append(target);
        e.append(" has an unknown key '");
        e.append(ed[bad].0.as_str());
        e.append("' (list, match, set)");
        return Err(e);
    }
    let li = field_pos(ed, "list");
    let mi = field_pos(ed, "match");
    let si = field_pos(ed, "set");
    if li == ed.len() {
        return Err(op_tail(origin, ": edit needs list = \"path.to.list\""));
    }
    assert(ev[li as int] == (ed@[li as int].0@, tree_of(ed@[li as int].1)));
    let lp: &str = match &ed[li].1 {
        DefTree::Str(x) => x.as_str(),
        _ => return Err(op_tail(origin, ": edit needs list = \"path.to.list\"")),
    };
    if mi == ed.len() {
        return Err(edit_error(origin, lp, " needs match = { key = value }"));
    }
    assert(ev[mi as int] == (ed@[mi as int].0@, tree_of(ed@[mi as int].1)));
    let pat = match &ed[mi].1 {
        DefTree::Table(x) => x,
        _ => return Err(edit_error(origin, lp, " needs match = { key = value }")),
    };
    if si == ed.len() {
        return Err(edit_error(origin, lp, " needs set = { ... }"));
    }
    assert(ev[si as int] == (ed@[si as int].0@, tree_of(ed@[si as int].1)));
    let set = match &ed[si].1 {
        DefTree::Table(x) => x,
        _ => return Err(edit_error(origin, lp, " needs set = { ... }")),
    };
    let segs = split_dots(lp);
    match edit_at(dst, &segs, 0, pat, set) {
        Some(r) => Ok(r),
        None => {
            let mut e = String::from_str(origin);
            e.append(": edit: ");
            e.append(target);
            e.append(".");
            e.append(lp);
            e.append(" isn't a list");
            Err(e)
        },
    }
}

/// `origin` and then `tail`.
fn op_tail(origin: &str, tail: &str) -> (e: String)
    ensures
        e@ == origin@ + tail@,
{
    let mut e = String::from_str(origin);
    e.append(tail);
    e
}

/// A patch's edits applied in turn, with the edits that matched nothing.
pub open spec fn edits_spec(v: Seq<(Seq<char>, Tree)>, eds: Seq<Tree>, origin: Seq<char>, target: Seq<char>)
    -> Result<(Seq<(Seq<char>, Tree)>, Seq<Tree>), Seq<char>>
    decreases eds.len(),
{
    if eds.len() == 0 {
        Ok((v, Seq::empty()))
    } else {
        let n = eds.len() - 1;
        match edits_spec(v, eds.subrange(0, n), origin, target) {
            Err(e) => Err(e),
            Ok(prev) => {
                let ed = eds[n];
                if !(ed is Table) {
                    Err(origin + ": each 'edit' must be a table"@)
                } else {
                    match edit_spec(prev.0, ed->Table_0, origin, target) {
                        Err(e) => Err(e),
                        Ok(r) => Ok((r.0, if r.1 { prev.1 } else { prev.1.push(ed) })),
                    }
                }
            },
        }
    }
}

proof fn lemma_edits_err(v: Seq<(Seq<char>, Tree)>, eds: Seq<Tree>, origin: Seq<char>, target: Seq<char>, k: int)
    requires
        0 <= k <= eds.len(),
        edits_spec(v, eds.take(k), origin, target) is Err,
    ensures
        edits_spec(v, eds, origin, target) == edits_spec(v, eds.take(k), origin, target),
    decreases eds.len() - k,
{
    if k < eds.len() {
        let t = eds.take(k + 1);
        assert(t.subrange(0, k) =~= eds.take(k));
        lemma_edits_err(v, eds, origin, target, k + 1);
    } else {
        assert(eds.take(k) =~= eds);
    }
}

/// One `[[patch]]` on the def it targets, in a fixed order: `set`
/// merges fields in, each `edit` changes the matching tables of a list,
/// `remove` removes the def (when true) or takes elements out of lists,
/// `append` adds elements to lists. With the fields, whether the def is
/// removed, the `remove` patterns that took nothing out (with their
/// lists' paths) and the edits that matched nothing; or the first error.
pub open spec fn patch_spec(value: Seq<(Seq<char>, Tree)>, removed: bool, p: Seq<(Seq<char>, Tree)>, origin: Seq<char>, target: Seq<char>)
    -> Result<(Seq<(Seq<char>, Tree)>, bool, Seq<(Seq<char>, Tree)>, Seq<Tree>), Seq<char>>
{
    let bad = unknown_at(p, seq!["target"@, "set"@, "remove"@, "append"@, "edit"@]);
    let si = key_at(p, "set"@);
    let ei = key_at(p, "edit"@);
    let ri = key_at(p, "remove"@);
    let ai = key_at(p, "append"@);
    if bad >= 0 {
        Err(origin + ": patch on "@ + target + " has an unknown key '"@ + p[bad].0 + "' (one of target, set, remove, append, edit)"@)
    } else if si >= 0 && !(p[si].1 is Table) {
        Err(origin + ": 'set' must be a table"@)
    } else {
        let v1 = if si < 0 { value } else { merged_fields(value, p[si].1->Table_0) };
        let s2 = if ei < 0 {
            Ok((v1, Seq::empty()))
        } else if p[ei].1 is List {
            edits_spec(v1, p[ei].1->List_0, origin, target)
        } else {
            Err(origin + ": 'edit' must be a list of tables ([[patch.edit]])"@)
        };
        match s2 {
            Err(e) => Err(e),
            Ok(e2) => {
                let s3 = if ri < 0 {
                    Ok((e2.0, removed, Seq::empty()))
                } else {
                    match p[ri].1 {
                        Tree::Bool(b) => Ok((e2.0, removed || b, Seq::empty())),
                        Tree::Table(t) => match list_op_spec(e2.0, t, target, origin, false) {
                            Err(e) => Err(e),
                            Ok(r) => Ok((r.0, removed, r.1)),
                        },
                        _ => Err(origin + ": 'remove' is true (remove the def) or a table of list elements"@),
                    }
                };
                match s3 {
                    Err(e) => Err(e),
                    Ok(r3) => if ai < 0 {
                        Ok((r3.0, r3.1, r3.2, e2.1))
                    } else {
                        match p[ai].1 {
                            Tree::Table(t) => match list_op_spec(r3.0, t, target, origin, true) {
                                Err(e) => Err(e),
                                Ok(r) => Ok((r.0, r3.1, r3.2 + r.1, e2.1)),
                            },
                            _ => Err(origin + ": 'append' must be a table of lists"@),
                        }
                    },
                }
            },
        }
    }
}

/// A patch's edits applied in turn; the edits that matched nothing.
fn apply_edits(v: Vec<(String, DefTree)>, eds: &Vec<DefTree>, origin: &str, target: &str)
    -> (r: Result<(Vec<(String, DefTree)>, Vec<DefTree>), String>)
    ensures
        match (r, edits_spec(fields_of(v@), trees_of(eds@), origin@, target@)) {
            (Ok((nv, missed)), Ok(sr)) => fields_of(nv@) == sr.0 && trees_of(missed@) == sr.1,
            (Err(e), Err(se)) => e@ == se,
            _ => false,
        },
{
    let ghost tv = trees_of(eds@);
    let ghost v0 = fields_of(v@);
    proof {
        lemma_trees_of(eds@);
        assert(tv.take(0) =~= Seq::<Tree>::empty());
        assert(trees_of(Seq::<DefTree>::empty()) =~= Seq::<Tree>::empty());
    }
    let mut cur = v;
    let mut missed: Vec<DefTree> = Vec::new();
    let mut i: usize = 0;
    while i < eds.len()
        invariant
            i <= eds@.len(),
            tv == trees_of(eds@),
            tv.len() == eds@.len(),
            v0 == fields_of(v@),
            forall|j: int| 0 <= j < eds@.len() ==> #[trigger] tv[j] == tree_of(eds@[j]),
            edits_spec(v0, tv.take(i as int), origin@, target@)
                == Ok::<(Seq<(Seq<char>, Tree)>, Seq<Tree>), Seq<char>>((fields_of(cur@), trees_of(missed@))),
        decreases eds@.len() - i,
    {
        proof {
            let t = tv.take(i as int + 1);
            assert(t.subrange(0, i as int) =~= tv.take(i as int));
            assert(t[i as int] == tree_of(eds@[i as int]));
        }
        match &eds[i] {
            DefTree::Table(ed) => {
                match edit_list(cur, ed, origin, target) {
                    Err(e) => {
                        proof { lemma_edits_err(v0, tv, origin@, target@, i as int + 1); }
                        return Err(e);
                    },
                    Ok((nv, hit)) => {
                        cur = nv;
                        if !hit {
                            let ghost m0 = missed@;
                            missed.push(copy_tree(&eds[i]));
                            proof {
                                lemma_trees_of(m0);
                                lemma_trees_of(missed@);
                                assert(trees_of(missed@) =~= trees_of(m0).push(tv[i as int]));
                            }
                        }
                    },
                }
            },
            _ => {
                proof { lemma_edits_err(v0, tv, origin@, target@, i as int + 1); }
                return Err(op_tail(origin, ": each 'edit' must be a table"));
            },
        }
        i += 1;
    }
    proof {
        assert(tv.take(eds@.len() as int) =~= tv);
    }
    Ok((cur, missed))
}

/// Applies one `[[patch]]` (its fields `p`) to the def it targets, named
/// `target` (`kind/id`) in messages; the patch came from file `origin`.
/// Gives back the `remove` patterns that took nothing out, each with its
/// list's path, and the edits that matched nothing.
#[verifier::spinoff_prover]
#[verifier::rlimit(40)]
pub fn apply_patch(entry: DefEntry, p: &Vec<(String, DefTree)>, origin: &str, target: &str)
    -> (r: Result<(DefEntry, Vec<(String, DefTree)>, Vec<DefTree>), String>)
    ensures
        match (r, patch_spec(fields_of(entry.value@), entry.removed, fields_of(p@), origin@, target@)) {
            (Ok((e, notes, missed)), Ok(sr)) => {
                &&& fields_of(e.value@) == sr.0
                &&& e.removed == sr.1
                &&& fields_of(notes@) == sr.2
                &&& trees_of(missed@) == sr.3
                &&& e.kind@ == entry.kind@ && e.id@ == entry.id@ && e.origin@ == entry.origin@
            },
            (Err(e), Err(se)) => e@ == se,
            _ => false,
        },
{
    let ghost pv = fields_of(p@);
    proof { lemma_fields_of(p@); }
    let allowed: Vec<&str> = vec!["target", "set", "remove", "append", "edit"];
    assert(allowed@.map_values(|a: &str| a@) =~= seq!["target"@, "set"@, "remove"@, "append"@, "edit"@]);
    let bad = first_unknown(p, &allowed);
    if bad < p.len() {
        assert(pv[bad as int] == (p@[bad as int].0@, tree_of(p@[bad as int].1)));
        let mut e = String::from_str(origin);
        e.append(": patch on ");
        e.append(target);
        e.append(" has an unknown key '");
        e.append(p[bad].0.as_str());
        e.append("' (one of target, set, remove, append, edit)");
        return Err(e);
    }
    let si = field_pos(p, "set");
    let ei = field_pos(p, "edit");
    let ri = field_pos(p, "remove");
    let ai = field_pos(p, "append");
    let DefEntry { kind, id, value, origin: from, removed } = entry;
    let mut v = value;
    if si < p.len() {
        assert(pv[si as int] == (p@[si as int].0@, tree_of(p@[si as int].1)));
        match &p[si].1 {
            DefTree::Table(t) => {
                v = merge_fields(v, t);
            },
            _ => return Err(op_tail(origin, ": 'set' must be a table")),
        }
    }
    let mut missed: Vec<DefTree> = Vec::new();
    proof { assert(trees_of(missed@) =~= Seq::<Tree>::empty()); }
    if ei < p.len() {
        assert(pv[ei as int] == (p@[ei as int].0@, tree_of(p@[ei as int].1)));
        match &p[ei].1 {
            DefTree::List(eds) => {
                let (nv, m) = apply_edits(v, eds, origin, target)?;
                v = nv;
                missed = m;
            },
            _ => return Err(op_tail(origin, ": 'edit' must be a list of tables ([[patch.edit]])")),
        }
    }
    let mut gone = removed;
    let mut notes: Vec<(String, DefTree)> = Vec::new();
    proof { assert(fields_of(notes@) =~= Seq::<(Seq<char>, Tree)>::empty()); }
    if ri < p.len() {
        assert(pv[ri as int] == (p@[ri as int].0@, tree_of(p@[ri as int].1)));
        match &p[ri].1 {
            DefTree::Bool(b) => {
                gone = gone || *b;
            },
            DefTree::Table(t) => {
                let (nv, n) = list_op(v, t, target, origin, false)?;
                v = nv;
                notes = n;
            },
            _ => return Err(op_tail(origin, ": 'remove' is true (remove the def) or a table of list elements")),
        }
    }
    if ai < p.len() {
        assert(pv[ai as int] == (p@[ai as int].0@, tree_of(p@[ai as int].1)));
        match &p[ai].1 {
            DefTree::Table(t) => {
                let (nv, n) = list_op(v, t, target, origin, true)?;
                v = nv;
                let ghost n0 = notes@;
                let ghost n1 = n@;
                let mut n = n;
                notes.append(&mut n);
                proof { lemma_fields_concat(n0, n1); }
            },
            _ => return Err(op_tail(origin, ": 'append' must be a table of lists")),
        }
    }
    Ok((DefEntry { kind, id, value: v, origin: from, removed: gone }, notes, missed))
}

/// The def kinds the engine knows.
pub open spec fn builtin_kinds() -> Seq<Seq<char>> {
    seq!["terrain"@, "thing"@, "creature"@, "need"@, "designation"@, "work_type"@, "priority_scale"@, "stance"@,
        "priority_rule"@, "work_style"@, "skill"@, "field"@, "calendar"@, "sky"@, "start"@, "names"@]
}

/// Whether `k` is a def kind the engine knows.
pub fn is_builtin_kind(k: &str) -> (r: bool)
    ensures
        r == builtin_kinds().contains(k@),
{
    let all: Vec<&str> = vec!["terrain", "thing", "creature", "need", "designation", "work_type", "priority_scale", "stance",
        "priority_rule", "work_style", "skill", "field", "calendar", "sky", "start", "names"];
    assert(all@.map_values(|a: &str| a@) =~= builtin_kinds());
    let mut q: usize = 0;
    while q < all.len()
        invariant
            q <= all@.len(),
            all@.map_values(|a: &str| a@) == builtin_kinds(),
            forall|j: int| 0 <= j < q ==> builtin_kinds()[j] != k@,
        decreases all@.len() - q,
    {
        if str_eq(all[q], k) {
            assert(builtin_kinds()[q as int] == k@);
            return true;
        }
        q += 1;
    }
    false
}

/// Where the first `/` of `t` stands, or -1.
pub open spec fn slash_at(t: Seq<char>) -> int
    decreases t.len(),
{
    if t.len() == 0 {
        -1
    } else if t[0] == '/' {
        0
    } else {
        let p = slash_at(t.subrange(1, t.len() as int));
        if p < 0 { -1 } else { p + 1 }
    }
}

proof fn lemma_slash_at(t: Seq<char>, p: int)
    requires
        0 <= p <= t.len(),
        forall|j: int| 0 <= j < p ==> t[j] != '/',
        p == t.len() || t[p] == '/',
    ensures
        slash_at(t) == (if p == t.len() { -1 } else { p }),
    decreases p,
{
    if p > 0 {
        let e = t.subrange(1, t.len() as int);
        assert forall|j: int| 0 <= j < p - 1 implies e[j] != '/' by {
            assert(e[j] == t[j + 1]);
        }
        if p < t.len() {
            assert(e[p - 1] == t[p]);
        }
        lemma_slash_at(e, p - 1);
    }
}

/// Entry `j` is another mod's def of `kind` whose bare id is `id`.
pub open spec fn other_mods(es: Seq<(Seq<char>, Seq<char>, Seq<(Seq<char>, Tree)>, Seq<char>, bool)>, kind: Seq<char>, id: Seq<char>, j: int) -> bool {
    0 <= j < es.len() && es[j].0 == kind && crate::defs::has_colon(es[j].1) && crate::defs::bare_of(es[j].1) == id
}

/// The kind a patch target names: a kind of the patching mod's own when
/// it declared one by that bare name and the name isn't a built-in's.
pub open spec fn aim_kind(mod_id: Seq<char>, k0: Seq<char>, kinds: Seq<Seq<char>>) -> Seq<char> {
    if !builtin_kinds().contains(k0) && !crate::defs::has_colon(k0) && kinds.contains(mod_id + ":"@ + k0) {
        mod_id + ":"@ + k0
    } else {
        k0
    }
}

/// The def a patch (fields `p`) of mod `mod_id` aims at among the defs
/// `es`, and its `kind/id` name: `target = "kind/id"`, where a bare id is
/// the patching mod's own. Index -1 when there is no such def, which is
/// skipped; an error when the patch has no target, the target has no
/// `/`, or a bare id names nothing of the mod's own but another mod's
/// def (the first such in text order is named).
pub open spec fn aim_spec(
    es: Seq<(Seq<char>, Seq<char>, Seq<(Seq<char>, Tree)>, Seq<char>, bool)>,
    mod_id: Seq<char>, origin: Seq<char>, p: Seq<(Seq<char>, Tree)>, kinds: Seq<Seq<char>>,
) -> Result<(int, Seq<char>), Seq<char>> {
    let ti = key_at(p, "target"@);
    if ti < 0 || !(p[ti].1 is Str) {
        Err(origin + ": patch has no 'target' (\"kind/id\")"@)
    } else {
        let t = p[ti].1->Str_0;
        let s = slash_at(t);
        if s < 0 {
            Err(origin + ": patch target '"@ + t + "' must look like kind/id"@)
        } else {
            let kind = aim_kind(mod_id, t.take(s), kinds);
            let id = t.skip(s + 1);
            let full = if crate::defs::has_colon(id) { id } else { mod_id + ":"@ + id };
            let i = entry_at(es, kind, full);
            if i >= 0 {
                Ok((i, kind + "/"@ + full))
            } else if !crate::defs::has_colon(id) && exists|j: int| other_mods(es, kind, id, j) {
                let o = choose|j: int| other_mods(es, kind, id, j) && forall|q: int| other_mods(es, kind, id, q) ==> !text_lt(es[q].1, es[j].1);
                Err(origin + ": patch target "@ + t + ": that's another mod's def, so name it with its prefix: target = \""@ + kind + "/"@ + es[o].1 + "\""@)
            } else {
                Ok((-1, kind + "/"@ + full))
            }
        }
    }
}

/// Whether a list of names holds `x`.
fn holds_name(list: &Vec<String>, x: &str) -> (r: bool)
    ensures
        r == list@.map_values(|s: String| s@).contains(x@),
{
    let ghost lv = list@.map_values(|s: String| s@);
    let mut q: usize = 0;
    while q < list.len()
        invariant
            q <= list@.len(),
            lv == list@.map_values(|s: String| s@),
            forall|j: int| 0 <= j < q ==> lv[j] != x@,
        decreases list@.len() - q,
    {
        if str_eq(list[q].as_str(), x) {
            assert(lv[q as int] == x@);
            return true;
        }
        q += 1;
    }
    false
}

/// `a`, `:` and `b`.
fn qualified(a: &str, b: &str) -> (r: String)
    ensures
        r@ == a@ + ":"@ + b@,
{
    let mut r = String::from_str(a);
    r.append(":");
    r.append(b);
    r
}

/// Finds the def a patch aims at (see `aim_spec`): its index, or `None`
/// when it isn't there and the patch is skipped, and its `kind/id` name.
/// `kinds` are the def kinds mods declared, by their full names.
#[verifier::spinoff_prover]
#[verifier::rlimit(40)]
pub fn patch_aim(entries: &Vec<DefEntry>, mod_id: &str, origin: &str, p: &Vec<(String, DefTree)>, kinds: &Vec<String>)
    -> (r: Result<(Option<usize>, String), String>)
    ensures
        match (r, aim_spec(entries_of(entries@), mod_id@, origin@, fields_of(p@), kinds@.map_values(|s: String| s@))) {
            (Ok((Some(i), name)), Ok((si, sname))) => i == si && name@ == sname && i < entries@.len(),
            (Ok((None, name)), Ok((si, sname))) => si == -1 && name@ == sname,
            (Err(e), Err(se)) => e@ == se,
            _ => false,
        },
{
    let ghost pv = fields_of(p@);
    let ghost ev = entries_of(entries@);
    proof { lemma_fields_of(p@); }
    let ti = field_pos(p, "target");
    let no_target = op_tail(origin, ": patch has no 'target' (\"kind/id\")");
    if ti == p.len() {
        return Err(no_target);
    }
    assert(pv[ti as int] == (p@[ti as int].0@, tree_of(p@[ti as int].1)));
    let t: &str = match &p[ti].1 {
        DefTree::Str(x) => x.as_str(),
        _ => return Err(no_target),
    };
    let cs = crate::text::chars_of(t);
    let mut s: usize = 0;
    while s < cs.len() && cs[s] != '/'
        invariant
            s <= cs@.len(),
            cs@ == t@,
            forall|j: int| 0 <= j < s ==> cs@[j] != '/',
        decreases cs@.len() - s,
    {
        s += 1;
    }
    proof { lemma_slash_at(t@, s as int); }
    if s == cs.len() {
        let mut e = String::from_str(origin);
        e.append(": patch target '");
        e.append(t);
        e.append("' must look like kind/id");
        return Err(e);
    }
    let k0 = crate::text::string_of_range(cs.as_slice(), 0, s);
    let id = crate::text::string_of_range(cs.as_slice(), s + 1, cs.len());
    assert(k0@ =~= t@.take(s as int));
    assert(id@ =~= t@.skip(s + 1));
    let own = qualified(mod_id, k0.as_str());
    let k0_colon = crate::defs::colon_at(&crate::text::chars_of(k0.as_str())).is_some();
    let kind = if !is_builtin_kind(k0.as_str()) && !k0_colon && holds_name(kinds, own.as_str()) { own } else { k0 };
    let id_colon = crate::defs::colon_at(&crate::text::chars_of(id.as_str())).is_some();
    let full = if id_colon { id.clone() } else { qualified(mod_id, id.as_str()) };
    let mut name = kind.clone();
    name.append("/");
    name.append(full.as_str());
    let i = entry_pos(entries, kind.as_str(), full.as_str());
    if i < entries.len() {
        return Ok((Some(i), name));
    }
    if !id_colon {
        let mut best: Option<usize> = None;
        let mut j: usize = 0;
        while j < entries.len()
            invariant
                j <= entries@.len(),
                ev == entries_of(entries@),
                ev.len() == entries@.len(),
                best matches Some(b) ==> b < j && other_mods(ev, kind@, id@, b as int)
                    && forall|q: int| 0 <= q < j && other_mods(ev, kind@, id@, q) ==> !text_lt(ev[q].1, ev[b as int].1),
                best is None ==> forall|q: int| 0 <= q < j ==> !other_mods(ev, kind@, id@, q),
            decreases entries@.len() - j,
        {
            assert(ev[j as int] == entry_of(entries@[j as int]));
            let same_kind = str_eq(entries[j].kind.as_str(), kind.as_str());
            let ocs = crate::text::chars_of(entries[j].id.as_str());
            let oc = crate::defs::colon_at(&ocs).is_some();
            let mut other = false;
            if same_kind && oc {
                let b = crate::defs::bare_chars(entries[j].id.as_str());
                let bs = crate::text::string_of(b.as_slice());
                other = str_eq(bs.as_str(), id.as_str());
            }
            assert(other == other_mods(ev, kind@, id@, j as int));
            if other {
                match best {
                    None => {
                        proof { crate::modloader::lemma_text_lt_irrefl(ev[j as int].1); }
                        best = Some(j);
                    },
                    Some(b) => {
                        assert(ev[b as int] == entry_of(entries@[b as int]));
                        if crate::modloader::text_less(entries[j].id.as_str(), entries[b].id.as_str()) {
                            proof {
                                assert forall|q: int| 0 <= q < j + 1 && other_mods(ev, kind@, id@, q) implies !text_lt(ev[q].1, ev[j as int].1) by {
                                    if q < j {
                                        if text_lt(ev[q].1, ev[j as int].1) {
                                            crate::modloader::lemma_text_lt_trans(ev[q].1, ev[j as int].1, ev[b as int].1);
                                        }
                                    } else {
                                        crate::modloader::lemma_text_lt_irrefl(ev[j as int].1);
                                    }
                                }
                            }
                            best = Some(j);
                        }
                    },
                }
            }
            j += 1;
        }
        match best {
            Some(b) => {
                assert(ev[b as int] == entry_of(entries@[b as int]));
                proof {
                    let o = choose|q: int| other_mods(ev, kind@, id@, q) && forall|r: int| other_mods(ev, kind@, id@, r) ==> !text_lt(ev[r].1, ev[q].1);
                    assert(other_mods(ev, kind@, id@, b as int));
                    assert(!text_lt(ev[o].1, ev[b as int].1));
                    assert(!text_lt(ev[b as int].1, ev[o].1));
                    if ev[o].1 != ev[b as int].1 {
                        crate::modloader::lemma_text_lt_total(ev[o].1, ev[b as int].1);
                    }
                }
                let mut e = String::from_str(origin);
                e.append(": patch target ");
                e.append(t);
                e.append(": that's another mod's def, so name it with its prefix: target = \"");
                e.append(kind.as_str());
                e.append("/");
                e.append(entries[b].id.as_str());
                e.append("\"");
                return Err(e);
            },
            None => {},
        }
    }
    Ok((None, name))
}

/// What applying a mod's patches has to report.
#[derive(Debug)]
pub enum PatchNote {
    /// No def by the patch's target: the patch was skipped.
    Skipped { origin: String, target: String },
    /// A `remove` pattern took nothing out of the list at `path`.
    NothingRemoved { origin: String, path: String, pattern: DefTree },
    /// An edit (its table) matched no element of its list.
    NoneEdited { origin: String, target: String, edit: DefTree },
}

/// What a `PatchNote` says.
pub enum Note {
    Skipped(Seq<char>, Seq<char>),
    NothingRemoved(Seq<char>, Seq<char>, Tree),
    NoneEdited(Seq<char>, Seq<char>, Tree),
}

pub open spec fn note_of(n: PatchNote) -> Note {
    match n {
        PatchNote::Skipped { origin, target } => Note::Skipped(origin@, target@),
        PatchNote::NothingRemoved { origin, path, pattern } => Note::NothingRemoved(origin@, path@, tree_of(pattern)),
        PatchNote::NoneEdited { origin, target, edit } => Note::NoneEdited(origin@, target@, tree_of(edit)),
    }
}

pub open spec fn notes_of(ns: Seq<PatchNote>) -> Seq<Note> {
    ns.map_values(|n: PatchNote| note_of(n))
}

/// A mod's patches (each its file and fields) applied in turn to the
/// defs, each on the def it aims at: the defs after, and what to report;
/// or the first error.
pub open spec fn patches_spec(
    es: Seq<(Seq<char>, Seq<char>, Seq<(Seq<char>, Tree)>, Seq<char>, bool)>,
    mod_id: Seq<char>, ps: Seq<(Seq<char>, Seq<(Seq<char>, Tree)>)>, kinds: Seq<Seq<char>>,
) -> Result<(Seq<(Seq<char>, Seq<char>, Seq<(Seq<char>, Tree)>, Seq<char>, bool)>, Seq<Note>), Seq<char>>
    decreases ps.len(),
{
    if ps.len() == 0 {
        Ok((es, Seq::empty()))
    } else {
        let n = ps.len() - 1;
        match patches_spec(es, mod_id, ps.subrange(0, n), kinds) {
            Err(e) => Err(e),
            Ok(prev) => {
                let origin = ps[n].0;
                let p = ps[n].1;
                match aim_spec(prev.0, mod_id, origin, p, kinds) {
                    Err(e) => Err(e),
                    Ok(aim) => if aim.0 < 0 {
                        Ok((prev.0, prev.1.push(Note::Skipped(origin, aim.1))))
                    } else {
                        let e = prev.0[aim.0];
                        match patch_spec(e.2, e.4, p, origin, aim.1) {
                            Err(x) => Err(x),
                            Ok(r) => Ok((
                                prev.0.update(aim.0, (e.0, e.1, r.0, e.3, r.1)),
                                prev.1 + r.2.map_values(|x: (Seq<char>, Tree)| Note::NothingRemoved(origin, x.0, x.1))
                                    + r.3.map_values(|t: Tree| Note::NoneEdited(origin, aim.1, t)),
                            )),
                        }
                    },
                }
            },
        }
    }
}

proof fn lemma_patches_err(
    es: Seq<(Seq<char>, Seq<char>, Seq<(Seq<char>, Tree)>, Seq<char>, bool)>,
    mod_id: Seq<char>, ps: Seq<(Seq<char>, Seq<(Seq<char>, Tree)>)>, kinds: Seq<Seq<char>>, k: int,
)
    requires
        0 <= k <= ps.len(),
        patches_spec(es, mod_id, ps.take(k), kinds) is Err,
    ensures
        patches_spec(es, mod_id, ps, kinds) == patches_spec(es, mod_id, ps.take(k), kinds),
    decreases ps.len() - k,
{
    if k < ps.len() {
        let t = ps.take(k + 1);
        assert(t.subrange(0, k) =~= ps.take(k));
        lemma_patches_err(es, mod_id, ps, kinds, k + 1);
    } else {
        assert(ps.take(k) =~= ps);
    }
}

/// A mod's patches as their files and fields.
pub open spec fn patch_views(ps: Seq<(String, Vec<(String, DefTree)>)>) -> Seq<(Seq<char>, Seq<(Seq<char>, Tree)>)> {
    ps.map_values(|x: (String, Vec<(String, DefTree)>)| (x.0@, fields_of(x.1@)))
}

/// Applies a mod's `[[patch]]` entries (each with the file it came from)
/// in turn to the defs; `kinds` are the def kinds mods declared. Gives
/// back what to report: skipped patches, `remove` patterns that took
/// nothing out, edits that matched nothing.
#[verifier::spinoff_prover]
#[verifier::rlimit(40)]
pub fn apply_patches(entries: &mut Vec<DefEntry>, mod_id: &str, patches: &Vec<(String, Vec<(String, DefTree)>)>, kinds: &Vec<String>)
    -> (r: Result<Vec<PatchNote>, String>)
    ensures
        match (r, patches_spec(entries_of(old(entries)@), mod_id@, patch_views(patches@), kinds@.map_values(|s: String| s@))) {
            (Ok(notes), Ok(sr)) => entries_of(final(entries)@) == sr.0 && notes_of(notes@) == sr.1,
            (Err(e), Err(se)) => e@ == se,
            _ => false,
        },
{
    let ghost pv = patch_views(patches@);
    let ghost kv = kinds@.map_values(|s: String| s@);
    let ghost e0 = entries_of(entries@);
    let mut notes: Vec<PatchNote> = Vec::new();
    proof {
        assert(pv.take(0) =~= Seq::<(Seq<char>, Seq<(Seq<char>, Tree)>)>::empty());
        assert(notes_of(notes@) =~= Seq::<Note>::empty());
    }
    let mut i: usize = 0;
    while i < patches.len()
        invariant
            i <= patches@.len(),
            pv == patch_views(patches@),
            kv == kinds@.map_values(|s: String| s@),
            e0 == entries_of(old(entries)@),
            patches_spec(e0, mod_id@, pv.take(i as int), kv)
                == Ok::<(Seq<(Seq<char>, Seq<char>, Seq<(Seq<char>, Tree)>, Seq<char>, bool)>, Seq<Note>), Seq<char>>((entries_of(entries@), notes_of(notes@))),
        decreases patches@.len() - i,
    {
        let ghost es = entries_of(entries@);
        let ghost nb = notes_of(notes@);
        proof {
            let t = pv.take(i as int + 1);
            assert(t.subrange(0, i as int) =~= pv.take(i as int));
            assert(t[i as int] == (patches@[i as int].0@, fields_of(patches@[i as int].1@)));
        }
        let origin = patches[i].0.as_str();
        let p = &patches[i].1;
        let (at, name) = match patch_aim(entries, mod_id, origin, p, kinds) {
            Ok(a) => a,
            Err(e) => {
                proof { lemma_patches_err(e0, mod_id@, pv, kv, i as int + 1); }
                return Err(e);
            },
        };
        match at {
            None => {
                notes.push(PatchNote::Skipped { origin: String::from_str(origin), target: name });
                proof {
                    assert(notes_of(notes@) =~= nb.push(Note::Skipped(origin@, name@)));
                }
            },
            Some(k) => {
                let ghost ent = entries@;
                let e = entries.remove(k);
                assert(es[k as int] == entry_of(ent[k as int]));
                match apply_patch(e, p, origin, name.as_str()) {
                    Err(x) => {
                        proof { lemma_patches_err(e0, mod_id@, pv, kv, i as int + 1); }
                        return Err(x);
                    },
                    Ok((ne, removed_none, edited_none)) => {
                        let ghost e1 = entries@;
                        entries.insert(k, ne);
                        proof {
                            assert(entries_of(entries@) =~= es.update(k as int, entry_of(entries@[k as int])));
                        }
                        let ghost n1 = notes_of(notes@);
                        let ghost rv = fields_of(removed_none@);
                        proof { lemma_fields_of(removed_none@); }
                        let mut q: usize = 0;
                        while q < removed_none.len()
                            invariant
                                q <= removed_none@.len(),
                                rv == fields_of(removed_none@),
                                rv.len() == removed_none@.len(),
                                forall|j: int| 0 <= j < removed_none@.len() ==> #[trigger] rv[j] == (removed_none@[j].0@, tree_of(removed_none@[j].1)),
                                notes_of(notes@) == n1 + rv.take(q as int).map_values(|x: (Seq<char>, Tree)| Note::NothingRemoved(origin@, x.0, x.1)),
                            decreases removed_none@.len() - q,
                        {
                            let ghost nn = notes_of(notes@);
                            notes.push(PatchNote::NothingRemoved {
                                origin: String::from_str(origin),
                                path: removed_none[q].0.clone(),
                                pattern: copy_tree(&removed_none[q].1),
                            });
                            proof {
                                assert(notes_of(notes@) =~= nn.push(Note::NothingRemoved(origin@, rv[q as int].0, rv[q as int].1)));
                                assert(rv.take(q as int + 1).map_values(|x: (Seq<char>, Tree)| Note::NothingRemoved(origin@, x.0, x.1))
                                    =~= rv.take(q as int).map_values(|x: (Seq<char>, Tree)| Note::NothingRemoved(origin@, x.0, x.1)).push(Note::NothingRemoved(origin@, rv[q as int].0, rv[q as int].1)));
                            }
                            q += 1;
                        }
                        proof {
                            assert(rv.take(removed_none@.len() as int) =~= rv);
                        }
                        let ghost n2 = notes_of(notes@);
                        let ghost tv = trees_of(edited_none@);
                        proof { lemma_trees_of(edited_none@); }
                        let mut q: usize = 0;
                        while q < edited_none.len()
                            invariant
                                q <= edited_none@.len(),
                                tv == trees_of(edited_none@),
                                tv.len() == edited_none@.len(),
                                forall|j: int| 0 <= j < edited_none@.len() ==> #[trigger] tv[j] == tree_of(edited_none@[j]),
                                notes_of(notes@) == n2 + tv.take(q as int).map_values(|t: Tree| Note::NoneEdited(origin@, name@, t)),
                            decreases edited_none@.len() - q,
                        {
                            let ghost nn = notes_of(notes@);
                            notes.push(PatchNote::NoneEdited {
                                origin: String::from_str(origin),
                                target: name.clone(),
                                edit: copy_tree(&edited_none[q]),
                            });
                            proof {
                                assert(notes_of(notes@) =~= nn.push(Note::NoneEdited(origin@, name@, tv[q as int])));
                                assert(tv.take(q as int + 1).map_values(|t: Tree| Note::NoneEdited(origin@, name@, t))
                                    =~= tv.take(q as int).map_values(|t: Tree| Note::NoneEdited(origin@, name@, t)).push(Note::NoneEdited(origin@, name@, tv[q as int])));
                            }
                            q += 1;
                        }
                        proof {
                            assert(tv.take(edited_none@.len() as int) =~= tv);
                        }
                    },
                }
            },
        }
        i += 1;
    }
    proof {
        assert(pv.take(patches@.len() as int) =~= pv);
    }
    Ok(notes)
}

/// A kind's name as a file writes its list: `weather:type` is
/// `weather.type`.
pub open spec fn dotted(k: Seq<char>) -> Seq<char> {
    k.map_values(|c: char| if c == ':' { '.' } else { c })
}

/// The lists a file may have meant by an unknown `[[key]]`: the declared
/// kinds whose bare name is `key`, as `[[mod.key]]`, in the order given.
pub open spec fn hint_parts(key: Seq<char>, kinds: Seq<Seq<char>>) -> Seq<Seq<char>>
    decreases kinds.len(),
{
    if kinds.len() == 0 {
        Seq::empty()
    } else {
        let r = hint_parts(key, kinds.subrange(0, kinds.len() - 1));
        let k = kinds[kinds.len() - 1];
        if crate::defs::has_colon(k) && crate::defs::bare_of(k) == key {
            r.push("[["@ + dotted(k) + "]]"@)
        } else {
            r
        }
    }
}

/// What the warning for an unknown `[[key]]` adds: the lists it may have
/// meant, if any.
pub open spec fn hint_spec(key: Seq<char>, kinds: Seq<Seq<char>>) -> Seq<char> {
    let parts = hint_parts(key, kinds);
    if parts.len() == 0 {
        Seq::empty()
    } else {
        " (did you mean "@ + crate::modloader::join(parts, " or "@) + "?)"@
    }
}

/// A file's fields as lists of entries (first pass): a table under a name
/// that is no built-in kind (nor `patch`) holds the lists of other mods'
/// kinds, `[[mod.kind]]`; those of undeclared kinds are warned of. The
/// `kind` field, which declares kinds, is not a list of defs.
pub open spec fn grouped(origin: Seq<char>, doc: Seq<(Seq<char>, Tree)>, kinds: Seq<Seq<char>>) -> (Seq<(Seq<char>, Tree)>, Seq<Seq<char>>)
    decreases doc.len(),
{
    if doc.len() == 0 {
        (Seq::empty(), Seq::empty())
    } else {
        let r = grouped(origin, doc.subrange(0, doc.len() - 1), kinds);
        let k = doc[doc.len() - 1].0;
        let v = doc[doc.len() - 1].1;
        if k == "kind"@ {
            r
        } else if v is Table && !builtin_kinds().contains(k) && k != "patch"@ {
            let sg = sub_grouped(origin, k, v->Table_0, kinds);
            (r.0 + sg.0, r.1 + sg.1)
        } else {
            (r.0.push((k, v)), r.1)
        }
    }
}

/// The lists under `key`'s table, each of kind `key:name`: those of
/// declared kinds, and warnings for the others.
pub open spec fn sub_grouped(origin: Seq<char>, key: Seq<char>, sub: Seq<(Seq<char>, Tree)>, kinds: Seq<Seq<char>>) -> (Seq<(Seq<char>, Tree)>, Seq<Seq<char>>)
    decreases sub.len(),
{
    if sub.len() == 0 {
        (Seq::empty(), Seq::empty())
    } else {
        let r = sub_grouped(origin, key, sub.subrange(0, sub.len() - 1), kinds);
        let name = sub[sub.len() - 1].0;
        let full = key + ":"@ + name;
        if kinds.contains(full) {
            (r.0.push((full, sub[sub.len() - 1].1)), r.1)
        } else {
            (r.0, r.1.push(origin + ": unknown def kind '"@ + key + "."@ + name + "' ignored"@))
        }
    }
}

/// The fields of each `[[patch]]` entry, which must be tables.
pub open spec fn patch_tables(origin: Seq<char>, items: Seq<Tree>) -> Result<Seq<Seq<(Seq<char>, Tree)>>, Seq<char>>
    decreases items.len(),
{
    if items.len() == 0 {
        Ok(Seq::empty())
    } else {
        match patch_tables(origin, items.subrange(0, items.len() - 1)) {
            Err(e) => Err(e),
            Ok(r) => match items[items.len() - 1] {
                Tree::Table(t) => Ok(r.push(t)),
                _ => Err(origin + ": 'patch' entries must be tables"@),
            },
        }
    }
}

/// A def file's lists (second pass), in order, read by mod `mod_id`: the
/// defs added, its `[[patch]]` entries kept for after, unknown kinds
/// warned of; or the first error.
pub open spec fn file_spec(
    es: Seq<(Seq<char>, Seq<char>, Seq<(Seq<char>, Tree)>, Seq<char>, bool)>,
    mod_id: Seq<char>, origin: Seq<char>, groups: Seq<(Seq<char>, Tree)>, kinds: Seq<Seq<char>>,
) -> Result<(Seq<(Seq<char>, Seq<char>, Seq<(Seq<char>, Tree)>, Seq<char>, bool)>, Seq<Seq<(Seq<char>, Tree)>>, Seq<Seq<char>>), Seq<char>>
    decreases groups.len(),
{
    if groups.len() == 0 {
        Ok((es, Seq::empty(), Seq::empty()))
    } else {
        match file_spec(es, mod_id, origin, groups.subrange(0, groups.len() - 1), kinds) {
            Err(e) => Err(e),
            Ok(prev) => {
                let key = groups[groups.len() - 1].0;
                let val = groups[groups.len() - 1].1;
                let own = mod_id + ":"@ + key;
                if !(val is List) {
                    Err(origin + ": '"@ + key + "' must be an array of tables ([["@ + key + "]])"@)
                } else if key == "patch"@ {
                    match patch_tables(origin, val->List_0) {
                        Err(e) => Err(e),
                        Ok(ts) => Ok((prev.0, prev.1 + ts, prev.2)),
                    }
                } else if builtin_kinds().contains(key) || crate::defs::has_colon(key) || kinds.contains(own) {
                    let kind = if builtin_kinds().contains(key) || crate::defs::has_colon(key) { key } else { own };
                    match added_defs(prev.0, mod_id, origin, key, kind, val) {
                        Err(e) => Err(e),
                        Ok(es2) => Ok((es2, prev.1, prev.2)),
                    }
                } else {
                    Ok((prev.0, prev.1, prev.2.push(origin + ": unknown def kind '"@ + key + "' ignored"@ + hint_spec(key, kinds))))
                }
            },
        }
    }
}

/// A kind's name with its `:` written as `.`.
fn dotted_name(k: &str) -> (r: String)
    ensures
        r@ == dotted(k@),
{
    let cs = crate::text::chars_of(k);
    let mut out = String::new();
    let mut i: usize = 0;
    while i < cs.len()
        invariant
            i <= cs@.len(),
            cs@ == k@,
            out@ == dotted(k@).take(i as int),
        decreases cs@.len() - i,
    {
        let c = if cs[i] == ':' { '.' } else { cs[i] };
        crate::text::push_char(&mut out, c);
        assert(dotted(k@).take(i as int + 1) =~= dotted(k@).take(i as int).push(c));
        i += 1;
    }
    assert(dotted(k@).take(cs@.len() as int) =~= dotted(k@));
    out
}

/// `k` is a qualified kind whose bare name is `key`.
fn bare_is(k: &str, key: &str) -> (r: bool)
    ensures
        r == (crate::defs::has_colon(k@) && crate::defs::bare_of(k@) == key@),
{
    let cs = crate::text::chars_of(k);
    match crate::defs::colon_at(&cs) {
        Some(_) => {
            let b = crate::defs::bare_chars(k);
            let bs = crate::text::string_of(b.as_slice());
            str_eq(bs.as_str(), key)
        },
        None => false,
    }
}

proof fn lemma_join_push(parts: Seq<Seq<char>>, x: Seq<char>, sep: Seq<char>)
    ensures
        crate::modloader::join(parts.push(x), sep)
            == (if parts.len() == 0 { x } else { crate::modloader::join(parts, sep) + sep + x }),
{
    assert(parts.push(x).drop_last() =~= parts);
}

/// What the warning for an unknown `[[key]]` adds (see `hint_spec`).
#[verifier::spinoff_prover]
#[verifier::rlimit(60)]
fn hint(key: &str, kinds: &Vec<String>) -> (r: String)
    ensures
        r@ == hint_spec(key@, kinds@.map_values(|s: String| s@)),
{
    let ghost kv = kinds@.map_values(|s: String| s@);
    let mut joined = String::new();
    let mut count: usize = 0;
    let mut i: usize = 0;
    proof {
        assert(kv.take(0) =~= Seq::<Seq<char>>::empty());
    }
    while i < kinds.len()
        invariant
            i <= kinds@.len(),
            kv == kinds@.map_values(|s: String| s@),
            count == hint_parts(key@, kv.take(i as int)).len(),
            count <= i,
            joined@ == crate::modloader::join(hint_parts(key@, kv.take(i as int)), " or "@),
        decreases kinds@.len() - i,
    {
        let ghost before = hint_parts(key@, kv.take(i as int));
        proof {
            let t = kv.take(i as int + 1);
            assert(t.subrange(0, i as int) =~= kv.take(i as int));
            assert(t[i as int] == kinds@[i as int]@);
        }
        let k = kinds[i].as_str();
        let matched = bare_is(k, key);
        proof {
            let x = "[["@ + dotted(k@) + "]]"@;
            assert(hint_parts(key@, kv.take(i as int + 1)) == (if matched { before.push(x) } else { before }));
        }
        if matched {
            if count > 0 {
                joined.append(" or ");
            }
            joined.append("[[");
            let d = dotted_name(k);
            joined.append(d.as_str());
            joined.append("]]");
            proof {
                lemma_join_push(before, "[["@ + dotted(k@) + "]]"@, " or "@);
            }
            count += 1;
        }
        i += 1;
    }
    proof {
        assert(kv.take(kinds@.len() as int) =~= kv);
    }
    if count == 0 {
        String::new()
    } else {
        let mut r = String::from_str(" (did you mean ");
        r.append(joined.as_str());
        r.append("?)");
        r
    }
}

/// The entries of `key`'s table that are lists of declared kinds.
fn group_sub(origin: &str, key: &str, sub: Vec<(String, DefTree)>, kinds: &Vec<String>, groups: &mut Vec<(String, DefTree)>, warnings: &mut Vec<String>)
    ensures
        ({
            let sg = sub_grouped(origin@, key@, fields_of(sub@), kinds@.map_values(|s: String| s@));
            &&& fields_of(final(groups)@) == fields_of(old(groups)@) + sg.0
            &&& final(warnings)@.map_values(|s: String| s@) == old(warnings)@.map_values(|s: String| s@) + sg.1
        }),
{
    let ghost kv = kinds@.map_values(|s: String| s@);
    let ghost sv = fields_of(sub@);
    let ghost s0 = sub@;
    let ghost g0 = fields_of(groups@);
    let ghost w0 = warnings@.map_values(|s: String| s@);
    proof {
        lemma_fields_of(s0);
        assert(sv.take(0) =~= Seq::<(Seq<char>, Tree)>::empty());
        assert(g0 + Seq::<(Seq<char>, Tree)>::empty() =~= g0);
        assert(w0 + Seq::<Seq<char>>::empty() =~= w0);
    }
    let mut rest = sub;
    let n0 = rest.len();
    let mut i: usize = 0;
    while rest.len() > 0
        invariant
            i <= s0.len(),
            s0.len() == n0,
            rest@ == s0.subrange(i as int, s0.len() as int),
            sv == fields_of(s0),
            sv.len() == s0.len(),
            forall|j: int| 0 <= j < s0.len() ==> #[trigger] sv[j] == (s0[j].0@, tree_of(s0[j].1)),
            kv == kinds@.map_values(|s: String| s@),
            ({
                let sg = sub_grouped(origin@, key@, sv.take(i as int), kv);
                &&& fields_of(groups@) == g0 + sg.0
                &&& warnings@.map_values(|s: String| s@) == w0 + sg.1
            }),
        decreases rest@.len(),
    {
        let ghost gb = groups@;
        let ghost wb = warnings@;
        let (name, v) = rest.remove(0);
        assert((name, v) == s0[i as int]);
        proof {
            let t = sv.take(i as int + 1);
            assert(t.subrange(0, i as int) =~= sv.take(i as int));
            assert(t[i as int] == (name@, tree_of(v)));
        }
        let full = qualified(key, name.as_str());
        if holds_name(kinds, full.as_str()) {
            groups.push((full, v));
            proof {
                lemma_fields_of(gb);
                lemma_fields_of(groups@);
                assert(fields_of(groups@) =~= fields_of(gb).push((key@ + ":"@ + name@, tree_of(v))));
            }
        } else {
            let mut w = String::from_str(origin);
            w.append(": unknown def kind '");
            w.append(key);
            w.append(".");
            w.append(name.as_str());
            w.append("' ignored");
            warnings.push(w);
            proof {
                assert(warnings@.map_values(|s: String| s@) =~= wb.map_values(|s: String| s@).push(w@));
            }
        }
        i += 1;
    }
    proof {
        assert(sv.take(s0.len() as int) =~= sv);
    }
}

/// A file's fields as lists of entries (see `grouped`).
pub fn group_file(origin: &str, doc: Vec<(String, DefTree)>, kinds: &Vec<String>) -> (r: (Vec<(String, DefTree)>, Vec<String>))
    ensures
        (fields_of(r.0@), r.1@.map_values(|s: String| s@)) == grouped(origin@, fields_of(doc@), kinds@.map_values(|s: String| s@)),
{
    let ghost kv = kinds@.map_values(|s: String| s@);
    let ghost dv = fields_of(doc@);
    let ghost d0 = doc@;
    let mut groups: Vec<(String, DefTree)> = Vec::new();
    let mut warnings: Vec<String> = Vec::new();
    proof {
        lemma_fields_of(d0);
        assert(dv.take(0) =~= Seq::<(Seq<char>, Tree)>::empty());
        assert(fields_of(groups@) =~= Seq::<(Seq<char>, Tree)>::empty());
        assert(warnings@.map_values(|s: String| s@) =~= Seq::<Seq<char>>::empty());
    }
    let mut rest = doc;
    let n0 = rest.len();
    let mut i: usize = 0;
    while rest.len() > 0
        invariant
            i <= d0.len(),
            d0.len() == n0,
            rest@ == d0.subrange(i as int, d0.len() as int),
            dv == fields_of(d0),
            dv.len() == d0.len(),
            forall|j: int| 0 <= j < d0.len() ==> #[trigger] dv[j] == (d0[j].0@, tree_of(d0[j].1)),
            kv == kinds@.map_values(|s: String| s@),
            (fields_of(groups@), warnings@.map_values(|s: String| s@)) == grouped(origin@, dv.take(i as int), kv),
        decreases rest@.len(),
    {
        let ghost gb = groups@;
        let (k, v) = rest.remove(0);
        assert((k, v) == d0[i as int]);
        proof {
            let t = dv.take(i as int + 1);
            assert(t.subrange(0, i as int) =~= dv.take(i as int));
            assert(t[i as int] == (k@, tree_of(v)));
        }
        if str_eq(k.as_str(), "kind") {
        } else {
            let sub_kind = !is_builtin_kind(k.as_str()) && !str_eq(k.as_str(), "patch");
            match v {
                DefTree::Table(sub) if sub_kind => {
                    group_sub(origin, k.as_str(), sub, kinds, &mut groups, &mut warnings);
                },
                other => {
                    groups.push((k, other));
                    proof {
                        lemma_fields_of(gb);
                        lemma_fields_of(groups@);
                        assert(fields_of(groups@) =~= fields_of(gb).push((k@, tree_of(other))));
                    }
                },
            }
        }
        i += 1;
    }
    proof {
        assert(dv.take(d0.len() as int) =~= dv);
    }
    (groups, warnings)
}

proof fn lemma_file_err(
    es: Seq<(Seq<char>, Seq<char>, Seq<(Seq<char>, Tree)>, Seq<char>, bool)>,
    mod_id: Seq<char>, origin: Seq<char>, groups: Seq<(Seq<char>, Tree)>, kinds: Seq<Seq<char>>, k: int,
)
    requires
        0 <= k <= groups.len(),
        file_spec(es, mod_id, origin, groups.take(k), kinds) is Err,
    ensures
        file_spec(es, mod_id, origin, groups, kinds) == file_spec(es, mod_id, origin, groups.take(k), kinds),
    decreases groups.len() - k,
{
    if k < groups.len() {
        let t = groups.take(k + 1);
        assert(t.subrange(0, k) =~= groups.take(k));
        lemma_file_err(es, mod_id, origin, groups, kinds, k + 1);
    } else {
        assert(groups.take(k) =~= groups);
    }
}

proof fn lemma_patch_tables_err(origin: Seq<char>, items: Seq<Tree>, k: int)
    requires
        0 <= k <= items.len(),
        patch_tables(origin, items.take(k)) is Err,
    ensures
        patch_tables(origin, items) == patch_tables(origin, items.take(k)),
    decreases items.len() - k,
{
    if k < items.len() {
        let t = items.take(k + 1);
        assert(t.subrange(0, k) =~= items.take(k));
        lemma_patch_tables_err(origin, items, k + 1);
    } else {
        assert(items.take(k) =~= items);
    }
}

/// A `[[patch]]` list's entries, kept with their file for after the
/// mod's defs are in.
fn keep_patches(patches: &mut Vec<(String, Vec<(String, DefTree)>)>, origin: &str, items: Vec<DefTree>) -> (r: Result<(), String>)
    ensures
        match (r, patch_tables(origin@, trees_of(items@))) {
            (Ok(()), Ok(ts)) => patch_views(final(patches)@) == patch_views(old(patches)@) + ts.map_values(|t: Seq<(Seq<char>, Tree)>| (origin@, t)),
            (Err(e), Err(se)) => e@ == se,
            _ => false,
        },
{
    let ghost tv = trees_of(items@);
    let ghost i0 = items@;
    let ghost p0 = patch_views(patches@);
    proof {
        lemma_trees_of(i0);
        assert(tv.take(0) =~= Seq::<Tree>::empty());
        assert(p0 + Seq::<Seq<(Seq<char>, Tree)>>::empty().map_values(|t: Seq<(Seq<char>, Tree)>| (origin@, t)) =~= p0);
    }
    let mut rest = items;
    let n0 = rest.len();
    let mut i: usize = 0;
    while rest.len() > 0
        invariant
            i <= i0.len(),
            i0.len() == n0,
            i0 == items@,
            p0 == patch_views(old(patches)@),
            rest@ == i0.subrange(i as int, i0.len() as int),
            tv == trees_of(i0),
            tv.len() == i0.len(),
            forall|j: int| 0 <= j < i0.len() ==> #[trigger] tv[j] == tree_of(i0[j]),
            patch_tables(origin@, tv.take(i as int)) matches Ok(ts)
                && patch_views(patches@) == p0 + ts.map_values(|t: Seq<(Seq<char>, Tree)>| (origin@, t)),
        decreases rest@.len(),
    {
        let t = rest.remove(0);
        assert(t == i0[i as int]);
        proof {
            let s1 = tv.take(i as int + 1);
            assert(s1.subrange(0, i as int) =~= tv.take(i as int));
            assert(s1[i as int] == tree_of(t));
        }
        match t {
            DefTree::Table(f) => {
                let ghost pb = patches@;
                let ghost ts = patch_tables(origin@, tv.take(i as int))->Ok_0;
                patches.push((String::from_str(origin), f));
                proof {
                    assert(patch_views(patches@) =~= patch_views(pb).push((origin@, fields_of(patches@[pb.len() as int].1@))));
                    let ts2 = ts.push(fields_of(patches@[pb.len() as int].1@));
                    assert(ts2.map_values(|t: Seq<(Seq<char>, Tree)>| (origin@, t))
                        =~= ts.map_values(|t: Seq<(Seq<char>, Tree)>| (origin@, t)).push((origin@, fields_of(patches@[pb.len() as int].1@))));
                }
            },
            _ => {
                proof { lemma_patch_tables_err(origin@, tv, i as int + 1); }
                return Err(op_tail(origin, ": 'patch' entries must be tables"));
            },
        }
        i += 1;
    }
    proof {
        assert(tv.take(i0.len() as int) =~= tv);
    }
    Ok(())
}

/// A def file's lists, grouped (see `group_file`), read in order for mod
/// `mod_id` (see `file_spec`): defs are added to `entries`, `[[patch]]`
/// entries kept in `patches`; gives the warnings for unknown kinds.
#[verifier::spinoff_prover]
#[verifier::rlimit(40)]
pub fn add_file(
    entries: &mut Vec<DefEntry>, patches: &mut Vec<(String, Vec<(String, DefTree)>)>,
    mod_id: &str, origin: &str, groups: Vec<(String, DefTree)>, kinds: &Vec<String>,
) -> (r: Result<Vec<String>, String>)
    ensures
        match (r, file_spec(entries_of(old(entries)@), mod_id@, origin@, fields_of(groups@), kinds@.map_values(|s: String| s@))) {
            (Ok(ws), Ok(sr)) => {
                &&& entries_of(final(entries)@) == sr.0
                &&& patch_views(final(patches)@) == patch_views(old(patches)@) + sr.1.map_values(|t: Seq<(Seq<char>, Tree)>| (origin@, t))
                &&& ws@.map_values(|s: String| s@) == sr.2
            },
            (Err(e), Err(se)) => e@ == se,
            _ => false,
        },
{
    let ghost kv = kinds@.map_values(|s: String| s@);
    let ghost gv = fields_of(groups@);
    let ghost g0 = groups@;
    let ghost e0 = entries_of(entries@);
    let ghost p0 = patch_views(patches@);
    let mut warnings: Vec<String> = Vec::new();
    proof {
        lemma_fields_of(g0);
        assert(gv.take(0) =~= Seq::<(Seq<char>, Tree)>::empty());
        assert(p0 + Seq::<Seq<(Seq<char>, Tree)>>::empty().map_values(|t: Seq<(Seq<char>, Tree)>| (origin@, t)) =~= p0);
        assert(warnings@.map_values(|s: String| s@) =~= Seq::<Seq<char>>::empty());
    }
    let mut rest = groups;
    let n0 = rest.len();
    let mut i: usize = 0;
    while rest.len() > 0
        invariant
            i <= g0.len(),
            g0.len() == n0,
            g0 == groups@,
            rest@ == g0.subrange(i as int, g0.len() as int),
            gv == fields_of(g0),
            gv.len() == g0.len(),
            forall|j: int| 0 <= j < g0.len() ==> #[trigger] gv[j] == (g0[j].0@, tree_of(g0[j].1)),
            kv == kinds@.map_values(|s: String| s@),
            e0 == entries_of(old(entries)@),
            p0 == patch_views(old(patches)@),
            file_spec(e0, mod_id@, origin@, gv.take(i as int), kv) matches Ok(sr) && {
                &&& entries_of(entries@) == sr.0
                &&& patch_views(patches@) == p0 + sr.1.map_values(|t: Seq<(Seq<char>, Tree)>| (origin@, t))
                &&& warnings@.map_values(|s: String| s@) == sr.2
            },
        decreases rest@.len(),
    {
        let ghost prev = file_spec(e0, mod_id@, origin@, gv.take(i as int), kv)->Ok_0;
        let (key, val) = rest.remove(0);
        assert((key, val) == g0[i as int]);
        proof {
            let t = gv.take(i as int + 1);
            assert(t.subrange(0, i as int) =~= gv.take(i as int));
            assert(t[i as int] == (key@, tree_of(val)));
        }
        let is_list = match &val {
            DefTree::List(_) => true,
            _ => false,
        };
        if !is_list {
            proof { lemma_file_err(e0, mod_id@, origin@, gv, kv, i as int + 1); }
            let mut e = String::from_str(origin);
            e.append(": '");
            e.append(key.as_str());
            e.append("' must be an array of tables ([[");
            e.append(key.as_str());
            e.append("]])");
            return Err(e);
        }
        let own = qualified(mod_id, key.as_str());
        if str_eq(key.as_str(), "patch") {
            let items = match val {
                DefTree::List(items) => items,
                _ => Vec::new(),
            };
            let ghost pb = patch_views(patches@);
            match keep_patches(patches, origin, items) {
                Err(e) => {
                    proof { lemma_file_err(e0, mod_id@, origin@, gv, kv, i as int + 1); }
                    return Err(e);
                },
                Ok(()) => {
                    proof {
                        let ts = patch_tables(origin@, tree_of(g0[i as int].1)->List_0)->Ok_0;
                        assert((prev.1 + ts).map_values(|t: Seq<(Seq<char>, Tree)>| (origin@, t))
                            =~= prev.1.map_values(|t: Seq<(Seq<char>, Tree)>| (origin@, t)) + ts.map_values(|t: Seq<(Seq<char>, Tree)>| (origin@, t)));
                        assert(patch_views(patches@) =~= p0 + (prev.1 + ts).map_values(|t: Seq<(Seq<char>, Tree)>| (origin@, t)));
                    }
                },
            }
        } else {
            let builtin = is_builtin_kind(key.as_str());
            let kc = crate::defs::colon_at(&crate::text::chars_of(key.as_str())).is_some();
            if builtin || kc || holds_name(kinds, own.as_str()) {
                let kind = if builtin || kc { key.clone() } else { own };
                match add_defs(entries, mod_id, origin, key.as_str(), kind.as_str(), val) {
                    Err(e) => {
                        proof { lemma_file_err(e0, mod_id@, origin@, gv, kv, i as int + 1); }
                        return Err(e);
                    },
                    Ok(()) => {},
                }
            } else {
                let h = hint(key.as_str(), kinds);
                let mut w = String::from_str(origin);
                w.append(": unknown def kind '");
                w.append(key.as_str());
                w.append("' ignored");
                w.append(h.as_str());
                let ghost wb = warnings@;
                warnings.push(w);
                proof {
                    assert(warnings@.map_values(|s: String| s@) =~= wb.map_values(|s: String| s@).push(w@));
                }
            }
        }
        i += 1;
    }
    proof {
        assert(gv.take(g0.len() as int) =~= gv);
    }
    Ok(warnings)
}

/// A def kind a mod declared with `[[kind]]`: its full id and, when it
/// gives them, its fields, each with a type and maybe a default.
#[derive(Debug)]
pub struct KindDecl {
    pub id: String,
    pub fields: Option<Vec<(String, String, Option<DefTree>)>>,
}

pub open spec fn field_decl_of(f: (String, String, Option<DefTree>)) -> (Seq<char>, Seq<char>, Option<Tree>) {
    (f.0@, f.1@, match f.2 { Some(t) => Some(tree_of(t)), None => None })
}

pub open spec fn kind_of(k: KindDecl) -> (Seq<char>, Option<Seq<(Seq<char>, Seq<char>, Option<Tree>)>>) {
    (k.id@, match k.fields {
        Some(fs) => Some(fs@.map_values(|f: (String, String, Option<DefTree>)| field_decl_of(f))),
        None => None,
    })
}

pub open spec fn kinds_of(ks: Seq<KindDecl>) -> Seq<(Seq<char>, Option<Seq<(Seq<char>, Seq<char>, Option<Tree>)>>)> {
    ks.map_values(|k: KindDecl| kind_of(k))
}

/// The types a declared field may have.
pub open spec fn field_types() -> Seq<Seq<char>> {
    seq!["string"@, "int"@, "float"@, "bool"@, "table"@, "list"@, "any"@]
}

/// One field of a declared kind: a type, or `{ type, default }` (type
/// `any` where none is given); the type must be one of `field_types`.
pub open spec fn field_decl_spec(origin: Seq<char>, id: Seq<char>, name: Seq<char>, spec: Tree)
    -> Result<(Seq<char>, Seq<char>, Option<Tree>), Seq<char>>
{
    let parsed: Option<(Seq<char>, Option<Tree>)> = match spec {
        Tree::Str(t) => Some((t, None)),
        Tree::Table(t) => {
            let ti = key_at(t, "type"@);
            let di = key_at(t, "default"@);
            Some((
                if ti >= 0 && t[ti].1 is Str { t[ti].1->Str_0 } else { "any"@ },
                if di >= 0 { Some(t[di].1) } else { None },
            ))
        },
        _ => None,
    };
    match parsed {
        None => Err(origin + ": kind "@ + id + ", field '"@ + name + "': give a type or { type, default }"@),
        Some(p) => if field_types().contains(p.0) {
            Ok((name, p.0, p.1))
        } else {
            Err(origin + ": kind "@ + id + ", field '"@ + name + "': unknown type '"@ + p.0
                + "' (one of string, int, float, bool, table, list, any)"@)
        },
    }
}

/// The fields of a declared kind, in order; or the first error.
pub open spec fn field_decls(origin: Seq<char>, id: Seq<char>, f: Seq<(Seq<char>, Tree)>)
    -> Result<Seq<(Seq<char>, Seq<char>, Option<Tree>)>, Seq<char>>
    decreases f.len(),
{
    if f.len() == 0 {
        Ok(Seq::empty())
    } else {
        match field_decls(origin, id, f.subrange(0, f.len() - 1)) {
            Err(e) => Err(e),
            Ok(r) => match field_decl_spec(origin, id, f[f.len() - 1].0, f[f.len() - 1].1) {
                Err(e) => Err(e),
                Ok(d) => Ok(r.push(d)),
            },
        }
    }
}

/// Where the kind with this id is, or -1.
pub open spec fn kind_at(ks: Seq<(Seq<char>, Option<Seq<(Seq<char>, Seq<char>, Option<Tree>)>>)>, id: Seq<char>) -> int
    decreases ks.len(),
{
    if ks.len() == 0 {
        -1
    } else if ks[0].0 == id {
        0
    } else {
        let p = kind_at(ks.subrange(1, ks.len() as int), id);
        if p < 0 { -1 } else { p + 1 }
    }
}

/// One `[[kind]]` entry of mod `mod_id` declared: `id` (in the mod's own
/// namespace, and no built-in kind's name, `patch` or `kind`) and maybe
/// `fields`, nothing else; a kind is declared once.
pub open spec fn declare_one(ks: Seq<(Seq<char>, Option<Seq<(Seq<char>, Seq<char>, Option<Tree>)>>)>, mod_id: Seq<char>, origin: Seq<char>, k: Tree)
    -> Result<Seq<(Seq<char>, Option<Seq<(Seq<char>, Seq<char>, Option<Tree>)>>)>, Seq<char>>
{
    match k {
        Tree::Table(t) => {
            let bad = unknown_at(t, seq!["id"@, "fields"@]);
            let ii = key_at(t, "id"@);
            let fi = key_at(t, "fields"@);
            if bad >= 0 {
                Err(origin + ": [[kind]] has an unknown key '"@ + t[bad].0 + "' (id, fields)"@)
            } else if ii < 0 || !(t[ii].1 is Str) {
                Err(origin + ": a [[kind]] has no id"@)
            } else {
                let raw = t[ii].1->Str_0;
                if crate::defs::has_colon(raw) && crate::defs::home_of_spec(raw) != mod_id {
                    Err(origin + ": [[kind]] '"@ + raw + "': a mod declares kinds in its own namespace"@)
                } else {
                    let bare = crate::defs::bare_of(raw);
                    let id = mod_id + ":"@ + bare;
                    if builtin_kinds().contains(bare) || bare == "patch"@ || bare == "kind"@ {
                        Err(origin + ": [[kind]] '"@ + bare + "' is a built-in kind's name; pick another"@)
                    } else {
                        let fields: Result<Option<Seq<(Seq<char>, Seq<char>, Option<Tree>)>>, Seq<char>> = if fi < 0 {
                            Ok(None)
                        } else {
                            match t[fi].1 {
                                Tree::Table(f) => match field_decls(origin, id, f) {
                                    Err(e) => Err(e),
                                    Ok(d) => Ok(Some(d)),
                                },
                                _ => Err(origin + ": kind "@ + id + ": 'fields' must be a table"@),
                            }
                        };
                        match fields {
                            Err(e) => Err(e),
                            Ok(fs) => if kind_at(ks, id) >= 0 {
                                Err(origin + ": kind "@ + id + " is declared twice"@)
                            } else {
                                Ok(ks.push((id, fs)))
                            },
                        }
                    }
                }
            }
        },
        _ => Err(origin + ": [[kind]] entries must be tables"@),
    }
}

/// A file's `kind` list declared, entry after entry; or the first error.
pub open spec fn declare_all(ks: Seq<(Seq<char>, Option<Seq<(Seq<char>, Seq<char>, Option<Tree>)>>)>, mod_id: Seq<char>, origin: Seq<char>, items: Seq<Tree>)
    -> Result<Seq<(Seq<char>, Option<Seq<(Seq<char>, Seq<char>, Option<Tree>)>>)>, Seq<char>>
    decreases items.len(),
{
    if items.len() == 0 {
        Ok(ks)
    } else {
        match declare_all(ks, mod_id, origin, items.subrange(0, items.len() - 1)) {
            Err(e) => Err(e),
            Ok(r) => declare_one(r, mod_id, origin, items[items.len() - 1]),
        }
    }
}

/// The file's `kind` field declared (see `declare_all`): it must be a list.
pub open spec fn declared_spec(ks: Seq<(Seq<char>, Option<Seq<(Seq<char>, Seq<char>, Option<Tree>)>>)>, mod_id: Seq<char>, origin: Seq<char>, v: Tree)
    -> Result<Seq<(Seq<char>, Option<Seq<(Seq<char>, Seq<char>, Option<Tree>)>>)>, Seq<char>>
{
    match v {
        Tree::List(items) => declare_all(ks, mod_id, origin, items),
        _ => Err(origin + ": 'kind' must be an array of tables ([[kind]])"@),
    }
}

fn kind_error(origin: &str, id: &str, name: &str, tail: &str) -> (e: String)
    ensures
        e@ == origin@ + ": kind "@ + id@ + ", field '"@ + name@ + tail@,
{
    let mut e = String::from_str(origin);
    e.append(": kind ");
    e.append(id);
    e.append(", field '");
    e.append(name);
    e.append(tail);
    e
}

/// One field of a declared kind (see `field_decl_spec`).
fn field_decl(origin: &str, id: &str, name: &String, spec: &DefTree) -> (r: Result<(String, String, Option<DefTree>), String>)
    ensures
        match (r, field_decl_spec(origin@, id@, name@, tree_of(*spec))) {
            (Ok(d), Ok(sd)) => field_decl_of(d) == sd,
            (Err(e), Err(se)) => e@ == se,
            _ => false,
        },
{
    let (ty, default) = match spec {
        DefTree::Str(t) => (t.clone(), None),
        DefTree::Table(t) => {
            proof { lemma_fields_of(t@); }
            let ti = field_pos(t, "type");
            let di = field_pos(t, "default");
            let ty = if ti < t.len() {
                assert(fields_of(t@)[ti as int] == (t@[ti as int].0@, tree_of(t@[ti as int].1)));
                match &t[ti].1 {
                    DefTree::Str(x) => x.clone(),
                    _ => String::from_str("any"),
                }
            } else {
                String::from_str("any")
            };
            let default = if di < t.len() {
                assert(fields_of(t@)[di as int] == (t@[di as int].0@, tree_of(t@[di as int].1)));
                Some(copy_tree(&t[di].1))
            } else {
                None
            };
            (ty, default)
        },
        _ => return Err(kind_error(origin, id, name.as_str(), "': give a type or { type, default }")),
    };
    let types: Vec<&str> = vec!["string", "int", "float", "bool", "table", "list", "any"];
    assert(types@.map_values(|a: &str| a@) =~= field_types());
    let mut q: usize = 0;
    let mut ok = false;
    while q < types.len() && !ok
        invariant
            q <= types@.len(),
            types@.map_values(|a: &str| a@) == field_types(),
            ok ==> field_types().contains(ty@),
            !ok ==> forall|j: int| 0 <= j < q ==> field_types()[j] != ty@,
        decreases types@.len() - q + (if ok { 0int } else { 1int }),
    {
        if str_eq(types[q], ty.as_str()) {
            assert(field_types()[q as int] == ty@);
            ok = true;
        } else {
            q += 1;
        }
    }
    if !ok {
        let mut tail = String::from_str("': unknown type '");
        tail.append(ty.as_str());
        tail.append("' (one of string, int, float, bool, table, list, any)");
        let e = kind_error(origin, id, name.as_str(), tail.as_str());
        proof {
            assert(e@ =~= origin@ + ": kind "@ + id@ + ", field '"@ + name@ + "': unknown type '"@ + ty@
                + "' (one of string, int, float, bool, table, list, any)"@);
        }
        return Err(e);
    }
    Ok((name.clone(), ty, default))
}

/// The fields of a declared kind (see `field_decls`).
fn declare_fields(origin: &str, id: &str, f: &Vec<(String, DefTree)>) -> (r: Result<Vec<(String, String, Option<DefTree>)>, String>)
    ensures
        match (r, field_decls(origin@, id@, fields_of(f@))) {
            (Ok(d), Ok(sd)) => d@.map_values(|x: (String, String, Option<DefTree>)| field_decl_of(x)) == sd,
            (Err(e), Err(se)) => e@ == se,
            _ => false,
        },
{
    let ghost fv = fields_of(f@);
    proof {
        lemma_fields_of(f@);
        assert(fv.take(0) =~= Seq::<(Seq<char>, Tree)>::empty());
    }
    let mut out: Vec<(String, String, Option<DefTree>)> = Vec::new();
    proof {
        assert(out@.map_values(|x: (String, String, Option<DefTree>)| field_decl_of(x)) =~= Seq::<(Seq<char>, Seq<char>, Option<Tree>)>::empty());
    }
    let mut i: usize = 0;
    while i < f.len()
        invariant
            i <= f@.len(),
            fv == fields_of(f@),
            fv.len() == f@.len(),
            forall|j: int| 0 <= j < f@.len() ==> #[trigger] fv[j] == (f@[j].0@, tree_of(f@[j].1)),
            field_decls(origin@, id@, fv.take(i as int)) matches Ok(sd)
                && out@.map_values(|x: (String, String, Option<DefTree>)| field_decl_of(x)) == sd,
        decreases f@.len() - i,
    {
        proof {
            let t = fv.take(i as int + 1);
            assert(t.subrange(0, i as int) =~= fv.take(i as int));
            assert(t[i as int] == (f@[i as int].0@, tree_of(f@[i as int].1)));
        }
        match field_decl(origin, id, &f[i].0, &f[i].1) {
            Err(e) => {
                proof {
                    let t = fv.take(i as int + 1);
                    assert(field_decls(origin@, id@, t) is Err);
                    lemma_decls_err(origin@, id@, fv, i as int + 1);
                }
                return Err(e);
            },
            Ok(d) => {
                let ghost o = out@;
                out.push(d);
                proof {
                    assert(out@.map_values(|x: (String, String, Option<DefTree>)| field_decl_of(x))
                        =~= o.map_values(|x: (String, String, Option<DefTree>)| field_decl_of(x)).push(field_decl_of(d)));
                }
            },
        }
        i += 1;
    }
    proof {
        assert(fv.take(f@.len() as int) =~= fv);
    }
    Ok(out)
}

proof fn lemma_decls_err(origin: Seq<char>, id: Seq<char>, f: Seq<(Seq<char>, Tree)>, k: int)
    requires
        0 <= k <= f.len(),
        field_decls(origin, id, f.take(k)) is Err,
    ensures
        field_decls(origin, id, f) == field_decls(origin, id, f.take(k)),
    decreases f.len() - k,
{
    if k < f.len() {
        let t = f.take(k + 1);
        assert(t.subrange(0, k) =~= f.take(k));
        lemma_decls_err(origin, id, f, k + 1);
    } else {
        assert(f.take(k) =~= f);
    }
}

proof fn lemma_kind_at(ks: Seq<(Seq<char>, Option<Seq<(Seq<char>, Seq<char>, Option<Tree>)>>)>, id: Seq<char>, p: int)
    requires
        0 <= p <= ks.len(),
        forall|j: int| 0 <= j < p ==> ks[j].0 != id,
        p == ks.len() || ks[p].0 == id,
    ensures
        kind_at(ks, id) == (if p == ks.len() { -1 } else { p }),
    decreases p,
{
    if p > 0 {
        let e = ks.subrange(1, ks.len() as int);
        assert forall|j: int| 0 <= j < p - 1 implies e[j].0 != id by {
            assert(e[j] == ks[j + 1]);
        }
        if p < ks.len() {
            assert(e[p - 1] == ks[p]);
        }
        lemma_kind_at(e, id, p - 1);
    }
}

/// Where the kind with this id is, or the number of kinds.
fn kind_pos(kinds: &Vec<KindDecl>, id: &str) -> (p: usize)
    ensures
        p <= kinds@.len(),
        kind_at(kinds_of(kinds@), id@) == (if p == kinds@.len() { -1 } else { p as int }),
{
    let ghost kv = kinds_of(kinds@);
    let mut p: usize = 0;
    while p < kinds.len()
        invariant
            p <= kinds@.len(),
            kv == kinds_of(kinds@),
            kv.len() == kinds@.len(),
            forall|j: int| 0 <= j < p ==> kv[j].0 != id@,
        decreases kinds@.len() - p,
    {
        assert(kv[p as int] == kind_of(kinds@[p as int]));
        if str_eq(kinds[p].id.as_str(), id) {
            proof { lemma_kind_at(kv, id@, p as int); }
            return p;
        }
        p += 1;
    }
    proof { lemma_kind_at(kv, id@, p as int); }
    p
}

/// `origin`, then `a`, `x` and `b`.
fn wrap_error(origin: &str, a: &str, x: &str, b: &str) -> (e: String)
    ensures
        e@ == origin@ + a@ + x@ + b@,
{
    let mut e = String::from_str(origin);
    e.append(a);
    e.append(x);
    e.append(b);
    e
}

/// One `[[kind]]` entry declared (see `declare_one`).
#[verifier::spinoff_prover]
#[verifier::rlimit(40)]
fn declare_kind(kinds: &mut Vec<KindDecl>, mod_id: &str, origin: &str, k: &DefTree) -> (r: Result<(), String>)
    ensures
        match (r, declare_one(kinds_of(old(kinds)@), mod_id@, origin@, tree_of(*k))) {
            (Ok(()), Ok(ks)) => kinds_of(final(kinds)@) == ks,
            (Err(e), Err(se)) => e@ == se,
            _ => false,
        },
{
    match k {
        DefTree::Table(t) => {
            let ghost fv = fields_of(t@);
            proof { lemma_fields_of(t@); }
            let allowed: Vec<&str> = vec!["id", "fields"];
            assert(allowed@.map_values(|a: &str| a@) =~= seq!["id"@, "fields"@]);
            let bad = first_unknown(t, &allowed);
            if bad < t.len() {
                assert(fv[bad as int] == (t@[bad as int].0@, tree_of(t@[bad as int].1)));
                return Err(wrap_error(origin, ": [[kind]] has an unknown key '", t[bad].0.as_str(), "' (id, fields)"));
            }
            let ii = field_pos(t, "id");
            if ii == t.len() {
                return Err(op_tail(origin, ": a [[kind]] has no id"));
            }
            assert(fv[ii as int] == (t@[ii as int].0@, tree_of(t@[ii as int].1)));
            let raw: &str = match &t[ii].1 {
                DefTree::Str(x) => x.as_str(),
                _ => return Err(op_tail(origin, ": a [[kind]] has no id")),
            };
            let cs = crate::text::chars_of(raw);
            if crate::defs::colon_at(&cs).is_some() {
                let home = crate::defs::home_of(raw);
                if !str_eq(home.as_str(), mod_id) {
                    return Err(wrap_error(origin, ": [[kind]] '", raw, "': a mod declares kinds in its own namespace"));
                }
            }
            let bare = crate::text::string_of(crate::defs::bare_chars(raw).as_slice());
            if is_builtin_kind(bare.as_str()) || str_eq(bare.as_str(), "patch") || str_eq(bare.as_str(), "kind") {
                return Err(wrap_error(origin, ": [[kind]] '", bare.as_str(), "' is a built-in kind's name; pick another"));
            }
            let id = qualified(mod_id, bare.as_str());
            let fi = field_pos(t, "fields");
            let fields = if fi < t.len() {
                assert(fv[fi as int] == (t@[fi as int].0@, tree_of(t@[fi as int].1)));
                match &t[fi].1 {
                    DefTree::Table(f) => Some(declare_fields(origin, id.as_str(), f)?),
                    _ => return Err(wrap_error(origin, ": kind ", id.as_str(), ": 'fields' must be a table")),
                }
            } else {
                None
            };
            if kind_pos(kinds, id.as_str()) < kinds.len() {
                return Err(wrap_error(origin, ": kind ", id.as_str(), " is declared twice"));
            }
            let ghost k0 = kinds@;
            kinds.push(KindDecl { id, fields });
            proof {
                assert(kinds_of(kinds@) =~= kinds_of(k0).push(kind_of(kinds@[k0.len() as int])));
            }
            Ok(())
        },
        _ => Err(op_tail(origin, ": [[kind]] entries must be tables")),
    }
}

proof fn lemma_declare_err(ks: Seq<(Seq<char>, Option<Seq<(Seq<char>, Seq<char>, Option<Tree>)>>)>, mod_id: Seq<char>, origin: Seq<char>, items: Seq<Tree>, k: int)
    requires
        0 <= k <= items.len(),
        declare_all(ks, mod_id, origin, items.take(k)) is Err,
    ensures
        declare_all(ks, mod_id, origin, items) == declare_all(ks, mod_id, origin, items.take(k)),
    decreases items.len() - k,
{
    if k < items.len() {
        let t = items.take(k + 1);
        assert(t.subrange(0, k) =~= items.take(k));
        lemma_declare_err(ks, mod_id, origin, items, k + 1);
    } else {
        assert(items.take(k) =~= items);
    }
}

/// Declares the kinds a def file's `kind` field lists, for mod `mod_id`.
#[verifier::spinoff_prover]
#[verifier::rlimit(40)]
pub fn declare_kinds(kinds: &mut Vec<KindDecl>, mod_id: &str, origin: &str, v: &DefTree) -> (r: Result<(), String>)
    ensures
        match (r, declared_spec(kinds_of(old(kinds)@), mod_id@, origin@, tree_of(*v))) {
            (Ok(()), Ok(ks)) => kinds_of(final(kinds)@) == ks,
            (Err(e), Err(se)) => e@ == se,
            _ => false,
        },
{
    match v {
        DefTree::List(items) => {
            let ghost tv = trees_of(items@);
            let ghost k0 = kinds_of(kinds@);
            proof {
                lemma_trees_of(items@);
                assert(tv.take(0) =~= Seq::<Tree>::empty());
            }
            let mut i: usize = 0;
            while i < items.len()
                invariant
                    i <= items@.len(),
                    tv == trees_of(items@),
                    tv.len() == items@.len(),
                    forall|j: int| 0 <= j < items@.len() ==> #[trigger] tv[j] == tree_of(items@[j]),
                    k0 == kinds_of(old(kinds)@),
                    *v == DefTree::List(*items),
                    declare_all(k0, mod_id@, origin@, tv.take(i as int))
                        == Ok::<Seq<(Seq<char>, Option<Seq<(Seq<char>, Seq<char>, Option<Tree>)>>)>, Seq<char>>(kinds_of(kinds@)),
                decreases items@.len() - i,
            {
                proof {
                    let t = tv.take(i as int + 1);
                    assert(t.subrange(0, i as int) =~= tv.take(i as int));
                    assert(t[i as int] == tree_of(items@[i as int]));
                }
                match declare_kind(kinds, mod_id, origin, &items[i]) {
                    Err(e) => {
                        proof { lemma_declare_err(k0, mod_id@, origin@, tv, i as int + 1); }
                        return Err(e);
                    },
                    Ok(()) => {},
                }
                i += 1;
            }
            proof {
                assert(tv.take(items@.len() as int) =~= tv);
            }
            Ok(())
        },
        _ => Err(op_tail(origin, ": 'kind' must be an array of tables ([[kind]])")),
    }
}

/// The name TOML gives a value's type (`toml::Value::type_str`).
pub open spec fn type_str(v: Tree) -> Seq<char> {
    match v {
        Tree::Str(_) => "string"@,
        Tree::Int(_) => "integer"@,
        Tree::Float(_) => "float"@,
        Tree::Bool(_) => "boolean"@,
        Tree::Stamp(_) => "datetime"@,
        Tree::List(_) => "array"@,
        Tree::Table(_) => "table"@,
    }
}

/// A value fits a declared field type (an integer fits `float` too).
pub open spec fn type_ok(ty: Seq<char>, v: Tree) -> bool {
    ||| ty == "any"@
    ||| ty == "string"@ && v is Str
    ||| ty == "int"@ && v is Int
    ||| ty == "float"@ && (v is Float || v is Int)
    ||| ty == "bool"@ && v is Bool
    ||| ty == "table"@ && v is Table
    ||| ty == "list"@ && v is List
}

/// An entry of a declared kind checked against its fields, one after
/// another: a field given must fit its type, one missing takes its
/// default, and one missing without a default is an error.
pub open spec fn checked_spec(t: Seq<(Seq<char>, Tree)>, decls: Seq<(Seq<char>, Seq<char>, Option<Tree>)>, ctx: Seq<char>)
    -> Result<Seq<(Seq<char>, Tree)>, Seq<char>>
    decreases decls.len(),
{
    if decls.len() == 0 {
        Ok(t)
    } else {
        match checked_spec(t, decls.subrange(0, decls.len() - 1), ctx) {
            Err(e) => Err(e),
            Ok(prev) => {
                let d = decls[decls.len() - 1];
                let i = key_at(prev, d.0);
                if i >= 0 {
                    if !type_ok(d.1, prev[i].1) {
                        Err(ctx + ": `"@ + d.0 + "` should be "@ + d.1 + ", not "@ + type_str(prev[i].1))
                    } else {
                        Ok(prev)
                    }
                } else {
                    match d.2 {
                        Some(dv) => Ok(prev.push((d.0, dv))),
                        None => Err(ctx + ": missing field `"@ + d.0 + "` ("@ + d.1 + ")"@),
                    }
                }
            },
        }
    }
}

/// Warnings for an entry's fields its kind doesn't declare (`id` aside).
pub open spec fn stray_fields(t: Seq<(Seq<char>, Tree)>, decls: Seq<(Seq<char>, Seq<char>, Option<Tree>)>, ctx: Seq<char>) -> Seq<Seq<char>>
    decreases t.len(),
{
    if t.len() == 0 {
        Seq::empty()
    } else {
        let r = stray_fields(t.subrange(0, t.len() - 1), decls, ctx);
        let k = t[t.len() - 1].0;
        if k != "id"@ && !(exists|j: int| 0 <= j < decls.len() && #[trigger] decls[j].0 == k) {
            r.push(ctx + ": `"@ + k + "` isn't a field of this kind (ignored by its schema)"@)
        } else {
            r
        }
    }
}

fn type_fits(ty: &str, v: &DefTree) -> (r: bool)
    ensures
        r == type_ok(ty@, tree_of(*v)),
{
    if str_eq(ty, "any") {
        return true;
    }
    match v {
        DefTree::Str(_) => str_eq(ty, "string"),
        DefTree::Int(_) => str_eq(ty, "int") || str_eq(ty, "float"),
        DefTree::Float(_) => str_eq(ty, "float"),
        DefTree::Bool(_) => str_eq(ty, "bool"),
        DefTree::Table(_) => str_eq(ty, "table"),
        DefTree::List(_) => str_eq(ty, "list"),
        DefTree::Stamp(_) => {
            assert(!type_ok(ty@, tree_of(*v)));
            false
        },
    }
}

fn value_kind_name(v: &DefTree) -> (r: &'static str)
    ensures
        r@ == type_str(tree_of(*v)),
{
    match v {
        DefTree::Str(_) => "string",
        DefTree::Int(_) => "integer",
        DefTree::Float(_) => "float",
        DefTree::Bool(_) => "boolean",
        DefTree::Stamp(_) => "datetime",
        DefTree::List(_) => "array",
        DefTree::Table(_) => "table",
    }
}

proof fn lemma_checked_err(t: Seq<(Seq<char>, Tree)>, decls: Seq<(Seq<char>, Seq<char>, Option<Tree>)>, ctx: Seq<char>, k: int)
    requires
        0 <= k <= decls.len(),
        checked_spec(t, decls.take(k), ctx) is Err,
    ensures
        checked_spec(t, decls, ctx) == checked_spec(t, decls.take(k), ctx),
    decreases decls.len() - k,
{
    if k < decls.len() {
        let s = decls.take(k + 1);
        assert(s.subrange(0, k) =~= decls.take(k));
        lemma_checked_err(t, decls, ctx, k + 1);
    } else {
        assert(decls.take(k) =~= decls);
    }
}

/// An entry of a mod's declared kind checked against the kind's fields
/// (see `checked_spec`), with warnings for fields it doesn't declare
/// (see `stray_fields`); a kind that declares no fields takes any.
#[verifier::spinoff_prover]
#[verifier::rlimit(40)]
pub fn check_fields(decl: &KindDecl, t: Vec<(String, DefTree)>, ctx: &str) -> (r: Result<(Vec<(String, DefTree)>, Vec<String>), String>)
    ensures
        match kind_of(*decl).1 {
            None => r matches Ok((nt, ws)) && fields_of(nt@) == fields_of(t@) && ws@.len() == 0,
            Some(decls) => match (r, checked_spec(fields_of(t@), decls, ctx@)) {
                (Ok((nt, ws)), Ok(st)) => fields_of(nt@) == st
                    && ws@.map_values(|s: String| s@) == stray_fields(fields_of(t@), decls, ctx@),
                (Err(e), Err(se)) => e@ == se,
                _ => false,
            },
        },
{
    let decls = match &decl.fields {
        None => return Ok((t, Vec::new())),
        Some(d) => d,
    };
    let ghost dv = decls@.map_values(|x: (String, String, Option<DefTree>)| field_decl_of(x));
    let ghost t0 = fields_of(t@);
    let mut warnings: Vec<String> = Vec::new();
    // The warnings come from the entry as given.
    proof {
        lemma_fields_of(t@);
        assert(t0.take(0) =~= Seq::<(Seq<char>, Tree)>::empty());
        assert(warnings@.map_values(|s: String| s@) =~= Seq::<Seq<char>>::empty());
    }
    let mut q: usize = 0;
    while q < t.len()
        invariant
            q <= t@.len(),
            t0 == fields_of(t@),
            t0.len() == t@.len(),
            forall|j: int| 0 <= j < t@.len() ==> #[trigger] t0[j] == (t@[j].0@, tree_of(t@[j].1)),
            dv == decls@.map_values(|x: (String, String, Option<DefTree>)| field_decl_of(x)),
            warnings@.map_values(|s: String| s@) == stray_fields(t0.take(q as int), dv, ctx@),
        decreases t@.len() - q,
    {
        proof {
            let s1 = t0.take(q as int + 1);
            assert(s1.subrange(0, q as int) =~= t0.take(q as int));
            assert(s1[q as int] == (t@[q as int].0@, tree_of(t@[q as int].1)));
        }
        let k = t[q].0.as_str();
        let mut declared = false;
        let mut m: usize = 0;
        while m < decls.len() && !declared
            invariant
                m <= decls@.len(),
                dv == decls@.map_values(|x: (String, String, Option<DefTree>)| field_decl_of(x)),
                declared ==> exists|j: int| 0 <= j < dv.len() && #[trigger] dv[j].0 == k@,
                !declared ==> forall|j: int| 0 <= j < m ==> dv[j].0 != k@,
            decreases decls@.len() - m + (if declared { 0int } else { 1int }),
        {
            assert(dv[m as int] == field_decl_of(decls@[m as int]));
            if str_eq(decls[m].0.as_str(), k) {
                assert(dv[m as int].0 == k@);
                declared = true;
            } else {
                m += 1;
            }
        }
        if !str_eq(k, "id") && !declared {
            let ghost wb = warnings@;
            let w = wrap_error(ctx, ": `", k, "` isn't a field of this kind (ignored by its schema)");
            warnings.push(w);
            proof {
                assert(warnings@.map_values(|s: String| s@) =~= wb.map_values(|s: String| s@).push(w@));
            }
        }
        q += 1;
    }
    proof {
        assert(t0.take(t@.len() as int) =~= t0);
    }
    assert(kind_of(*decl).1 == Some(dv));
    let ghost ws0 = warnings@.map_values(|s: String| s@);
    assert(kind_of(*decl).1 == Some(dv));
    let mut cur = t;
    let mut i: usize = 0;
    proof {
        assert(dv.take(0) =~= Seq::<(Seq<char>, Seq<char>, Option<Tree>)>::empty());
    }
    while i < decls.len()
        invariant
            i <= decls@.len(),
            dv == decls@.map_values(|x: (String, String, Option<DefTree>)| field_decl_of(x)),
            kind_of(*decl).1 == Some(dv),
            t0 == fields_of(t@),
            ws0 == warnings@.map_values(|s: String| s@),
            ws0 == stray_fields(t0, dv, ctx@),
            checked_spec(t0, dv.take(i as int), ctx@) == Ok::<Seq<(Seq<char>, Tree)>, Seq<char>>(fields_of(cur@)),
        decreases decls@.len() - i,
    {
        let ghost prev = fields_of(cur@);
        proof {
            let s1 = dv.take(i as int + 1);
            assert(s1.subrange(0, i as int) =~= dv.take(i as int));
            assert(s1[i as int] == field_decl_of(decls@[i as int]));
            lemma_fields_of(cur@);
        }
        let name = decls[i].0.as_str();
        let ty = decls[i].1.as_str();
        let pos = field_pos(&cur, name);
        if pos < cur.len() {
            assert(prev[pos as int] == (cur@[pos as int].0@, tree_of(cur@[pos as int].1)));
            if !type_fits(ty, &cur[pos].1) {
                let mut e = String::from_str(ctx);
                e.append(": `");
                e.append(name);
                e.append("` should be ");
                e.append(ty);
                e.append(", not ");
                e.append(value_kind_name(&cur[pos].1));
                proof { lemma_checked_err(t0, dv, ctx@, i as int + 1); }
                return Err(e);
            }
        } else {
            match &decls[i].2 {
                Some(d) => {
                    let ghost c0 = cur@;
                    cur.push((decls[i].0.clone(), copy_tree(d)));
                    proof {
                        lemma_fields_of(c0);
                        lemma_fields_of(cur@);
                        assert(fields_of(cur@) =~= prev.push((dv[i as int].0, tree_of(*d))));
                    }
                },
                None => {
                    let mut e = String::from_str(ctx);
                    e.append(": missing field `");
                    e.append(name);
                    e.append("` (");
                    e.append(ty);
                    e.append(")");
                    proof { lemma_checked_err(t0, dv, ctx@, i as int + 1); }
                    return Err(e);
                },
            }
        }
        i += 1;
    }
    proof {
        assert(dv.take(decls@.len() as int) =~= dv);
    }
    Ok((cur, warnings))
}

// ---------------------------------------------------------------- one of each

/// The kinds of which there may be only one def.
pub open spec fn single_kind(k: Seq<char>) -> bool {
    k == "priority_scale"@ || k == "calendar"@ || k == "sky"@
}

/// Where the first entry of `kind` still standing among `es[..n]` is.
pub open spec fn first_live(es: Seq<DefEntry>, kind: Seq<char>, n: int) -> Option<int>
    decreases n,
{
    if n <= 0 {
        None
    } else {
        match first_live(es, kind, n - 1) {
            Some(f) => Some(f),
            None => if !es[n - 1].removed && es[n - 1].kind@ == kind {
                Some(n - 1)
            } else {
                None
            },
        }
    }
}

/// What a second def of a single kind is told: patch the first instead.
pub open spec fn second_single(e: DefEntry, first_id: Seq<char>) -> Seq<char> {
    e.kind@ + "/"@ + e.id@ + " (from "@ + e.origin@ + "): only one [["@ + e.kind@ + "]] may exist; patch "@
        + e.kind@ + "/"@ + first_id + " instead"@
}

/// The first entry among `es[..n]`, still standing, that is a second def of
/// a single kind, and what it is told.
pub open spec fn one_of_each_error(es: Seq<DefEntry>, n: int) -> Option<Seq<char>>
    decreases n,
{
    if n <= 0 {
        None
    } else {
        match one_of_each_error(es, n - 1) {
            Some(e) => Some(e),
            None => {
                let e = es[n - 1];
                match first_live(es, e.kind@, n - 1) {
                    Some(f) => if !e.removed && single_kind(e.kind@) {
                        Some(second_single(e, es[f].id@))
                    } else {
                        None
                    },
                    None => None,
                }
            },
        }
    }
}

/// A refusal met among the first entries stands for all of them.
proof fn lemma_single_error_stays(es: Seq<DefEntry>, n: int, m: int)
    requires
        0 <= n <= m,
        one_of_each_error(es, n) is Some,
    ensures
        one_of_each_error(es, m) == one_of_each_error(es, n),
    decreases m - n,
{
    if m > n {
        lemma_single_error_stays(es, n, m - 1);
    }
}

/// An index as an integer.
pub open spec fn index_int(o: Option<usize>) -> Option<int> {
    match o {
        Some(f) => Some(f as int),
        None => None,
    }
}

fn second_single_text(e: &DefEntry, first_id: &str) -> (r: String)
    ensures
        r@ == second_single(*e, first_id@),
{
    let mut r = e.kind.clone();
    r.append("/");
    r.append(e.id.as_str());
    r.append(" (from ");
    r.append(e.origin.as_str());
    r.append("): only one [[");
    r.append(e.kind.as_str());
    r.append("]] may exist; patch ");
    r.append(e.kind.as_str());
    r.append("/");
    r.append(first_id);
    r.append(" instead");
    r
}

/// There is one priority scale, one calendar and one sky: a second def of
/// one of them, still standing after the patches, is refused.
pub fn one_of_each(entries: &[DefEntry]) -> (r: Result<(), String>)
    ensures
        r is Ok <==> one_of_each_error(entries@, entries@.len() as int) is None,
        r matches Err(e) ==> one_of_each_error(entries@, entries@.len() as int) == Some(e@),
{
    let ghost es = entries@;
    let mut scale: Option<usize> = None;
    let mut calendar: Option<usize> = None;
    let mut sky: Option<usize> = None;
    let mut i: usize = 0;
    while i < entries.len()
        invariant
            es == entries@,
            i <= es.len(),
            one_of_each_error(es, i as int) is None,
            index_int(scale) == first_live(es, "priority_scale"@, i as int),
            index_int(calendar) == first_live(es, "calendar"@, i as int),
            index_int(sky) == first_live(es, "sky"@, i as int),
            scale matches Some(f) ==> f < i,
            calendar matches Some(f) ==> f < i,
            sky matches Some(f) ==> f < i,
        decreases es.len() - i,
    {
        let e = &entries[i];
        let live = !e.removed;
        let is_scale = str_eq(e.kind.as_str(), "priority_scale");
        let is_calendar = str_eq(e.kind.as_str(), "calendar");
        let is_sky = str_eq(e.kind.as_str(), "sky");
        if live && is_scale {
            if let Some(f) = scale {
                let msg = second_single_text(e, entries[f].id.as_str());
                proof {
                    assert(first_live(es, e.kind@, i as int) == Some(f as int));
                    assert(one_of_each_error(es, i + 1) == Some(msg@));
                    lemma_single_error_stays(es, i + 1, es.len() as int);
                }
                return Err(msg);
            }
        }
        if live && is_calendar {
            if let Some(f) = calendar {
                let msg = second_single_text(e, entries[f].id.as_str());
                proof {
                    assert(first_live(es, e.kind@, i as int) == Some(f as int));
                    assert(one_of_each_error(es, i + 1) == Some(msg@));
                    lemma_single_error_stays(es, i + 1, es.len() as int);
                }
                return Err(msg);
            }
        }
        if live && is_sky {
            if let Some(f) = sky {
                let msg = second_single_text(e, entries[f].id.as_str());
                proof {
                    assert(first_live(es, e.kind@, i as int) == Some(f as int));
                    assert(one_of_each_error(es, i + 1) == Some(msg@));
                    lemma_single_error_stays(es, i + 1, es.len() as int);
                }
                return Err(msg);
            }
        }
        if live && is_scale && scale.is_none() {
            scale = Some(i);
        }
        if live && is_calendar && calendar.is_none() {
            calendar = Some(i);
        }
        if live && is_sky && sky.is_none() {
            sky = Some(i);
        }
        i += 1;
    }
    Ok(())
}

} // verus!
