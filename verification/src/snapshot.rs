//! Snapshots: the world's state by section, the hash that names it, and
//! how saved def ids map onto the defs loaded now.
use vstd::prelude::*;
use crate::rng::{mix, mix_spec};
use crate::defs::DefId;
use crate::modloader::ModManifest;
use crate::text::str_eq;

verus! {

/// FNV-1a's starting value.
pub const FNV_OFFSET: u64 = 0xcbf2_9ce4_8422_2325;

/// FNV-1a's multiplier.
pub const FNV_PRIME: u64 = 0x100_0000_01b3;

/// FNV-1a over a byte string, folded from the left.
pub open spec fn fnv_spec(s: Seq<u8>) -> u64
    decreases s.len(),
{
    if s.len() == 0 {
        FNV_OFFSET
    } else {
        vstd::wrapping::u64_specs::wrapping_mul(fnv_spec(s.drop_last()) ^ (s.last() as u64), FNV_PRIME)
    }
}

/// The hash of a byte string: FNV-1a, then mixed.
pub open spec fn hash_bytes_spec(s: Seq<u8>) -> u64 {
    mix_spec(fnv_spec(s))
}

/// A 64-bit hash of canonical bytes (FNV-1a, then mixed).
pub fn hash_bytes(bytes: &[u8]) -> (r: u64)
    ensures
        r == hash_bytes_spec(bytes@),
{
    let mut h: u64 = FNV_OFFSET;
    let mut i: usize = 0;
    while i < bytes.len()
        invariant
            i <= bytes@.len(),
            h == fnv_spec(bytes@.take(i as int)),
        decreases bytes@.len() - i,
    {
        assert(bytes@.take(i + 1).drop_last() =~= bytes@.take(i as int));
        h = (h ^ (bytes[i] as u64)).wrapping_mul(FNV_PRIME);
        i += 1;
    }
    assert(bytes@.take(i as int) =~= bytes@);
    mix(h)
}


/// Bumped whenever an `engine:` section changes shape.
pub const FORMAT: u32 = 1;

/// What a snapshot says about itself.
#[derive(Clone, Debug, PartialEq)]
pub struct Header {
    pub format: u32,
    pub engine: String,
    pub api: String,
    pub seed: u64,
    pub tick: u64,
    /// Every loaded mod's (id, version), in load order.
    pub mods: Vec<(String, String)>,
}

/// The world at one tick: a header, and canonical bytes by section name,
/// kept in name order.
#[derive(Clone, Debug, PartialEq)]
pub struct Snapshot {
    pub header: Header,
    pub sections: Vec<(String, Vec<u8>)>,
}

/// Rotates the bits of `x` left by `k`, as `u64::rotate_left` does.
pub open spec fn rotl_spec(x: u64, k: u64) -> u64 {
    ((x << k) | (x >> ((64 - k) as u64))) as u64
}

/// Each section, after the header's hash, stirred into the hash: its
/// name's hash, and its bytes' hash turned by 17 bits.
pub open spec fn sections_hash(h: u64, names: Seq<Seq<u8>>, bytes: Seq<Seq<u8>>) -> u64
    decreases names.len(),
{
    if names.len() == 0 || bytes.len() == 0 {
        h
    } else {
        let h0 = sections_hash(h, names.drop_last(), bytes.drop_last());
        mix_spec(h0 ^ hash_bytes_spec(names.last()) ^ rotl_spec(hash_bytes_spec(bytes.last()), 17))
    }
}

/// The bytes of each section's name.
pub open spec fn section_names(s: Seq<(String, Vec<u8>)>) -> Seq<Seq<u8>> {
    s.map_values(|x: (String, Vec<u8>)| vstd::utf8::encode_utf8(x.0@))
}

/// Each section's bytes.
pub open spec fn section_bytes(s: Seq<(String, Vec<u8>)>) -> Seq<Seq<u8>> {
    s.map_values(|x: (String, Vec<u8>)| x.1@)
}

/// Sections kept as a table by name: names in rising order, each once.
pub open spec fn sections_by_name(s: Seq<(String, Vec<u8>)>) -> bool {
    forall|a: int, b: int| 0 <= a < b < s.len() ==> crate::modloader::text_lt(#[trigger] s[a].0@, #[trigger] s[b].0@)
}

impl Snapshot {
    /// The sections are a table by name.
    pub open spec fn wf(&self) -> bool {
        sections_by_name(self.sections@)
    }

    /// Hash of every section, in name order, after the header's: the header
    /// as it is encoded for saving is `header_bytes`.
    pub fn hash(&self, header_bytes: &[u8]) -> (r: u64)
        requires
            self.wf(),
        ensures
            r == sections_hash(hash_bytes_spec(header_bytes@), section_names(self.sections@), section_bytes(self.sections@)),
    {
        let mut h = hash_bytes(header_bytes);
        let ghost h0 = h;
        let mut k: usize = 0;
        while k < self.sections.len()
            invariant
                k <= self.sections@.len(),
                h0 == hash_bytes_spec(header_bytes@),
                h == sections_hash(h0, section_names(self.sections@).take(k as int), section_bytes(self.sections@).take(k as int)),
            decreases self.sections@.len() - k,
        {
            let name = self.sections[k].0.as_str();
            let bytes = self.sections[k].1.as_slice();
            let hb = hash_bytes(bytes);
            let turned = (hb << 17u64) | (hb >> 47u64);
            h = mix(h ^ hash_bytes(name.as_bytes()) ^ turned);
            proof {
                let ns = section_names(self.sections@);
                let bs = section_bytes(self.sections@);
                assert(ns.take(k as int + 1).drop_last() =~= ns.take(k as int));
                assert(bs.take(k as int + 1).drop_last() =~= bs.take(k as int));
                assert(ns[k as int] == vstd::utf8::encode_utf8(name@));
                assert(bs[k as int] == bytes@);
            }
            k += 1;
        }
        proof {
            assert(section_names(self.sections@).take(k as int) =~= section_names(self.sections@));
            assert(section_bytes(self.sections@).take(k as int) =~= section_bytes(self.sections@));
        }
        h
    }
}

/// A saved mod lock names exactly the loaded mods, in order, at the same
/// versions.
pub open spec fn lock_matches_spec(saved: Seq<(String, String)>, loaded: Seq<ModManifest>) -> bool {
    saved.len() == loaded.len() && forall|k: int|
        #![trigger saved[k]]
        0 <= k < saved.len() ==> saved[k].0@ == loaded[k].id@ && saved[k].1@ == loaded[k].version@
}

/// Whether the mods a snapshot was saved with are the ones loaded now.
pub fn lock_matches(saved: &[(String, String)], loaded: &[ModManifest]) -> (r: bool)
    ensures
        r == lock_matches_spec(saved@, loaded@),
{
    if saved.len() != loaded.len() {
        return false;
    }
    let mut k: usize = 0;
    while k < saved.len()
        invariant
            saved@.len() == loaded@.len(),
            k <= saved@.len(),
            forall|j: int|
                #![trigger saved@[j]]
                0 <= j < k ==> saved@[j].0@ == loaded@[j].id@ && saved@[j].1@ == loaded@[j].version@,
        decreases saved@.len() - k,
    {
        if !str_eq(saved[k].0.as_str(), loaded[k].id.as_str()) || !str_eq(saved[k].1.as_str(), loaded[k].version.as_str()) {
            return false;
        }
        assert(saved@[k as int].0@ == loaded@[k as int].id@ && saved@[k as int].1@ == loaded@[k as int].version@);
        k += 1;
    }
    true
}

/// Each def kind's qualified ids, in def id order, kinds in name order:
/// the table the raw ids in every other section index into.
pub type DefsSection = Vec<(String, Vec<String>)>;

/// A list of ids as text.
pub open spec fn id_views(ids: Seq<String>) -> Seq<Seq<char>> {
    ids.map_values(|s: String| s@)
}

/// A def table as text.
pub open spec fn defs_view(d: Seq<(String, Vec<String>)>) -> Seq<(Seq<char>, Seq<Seq<char>>)> {
    d.map_values(|e: (String, Vec<String>)| (e.0@, id_views(e.1@)))
}

/// Where a kind stands in a def table: the first entry naming it.
pub open spec fn kind_at(d: Seq<(Seq<char>, Seq<Seq<char>>)>, kind: Seq<char>, k: int) -> bool {
    0 <= k < d.len() && d[k].0 == kind && forall|j: int| 0 <= j < k ==> d[j].0 != kind
}

/// Where saved def `d` of `kind` lands now (`m`: where each saved def of
/// each kind lands, or none when the tables are the same): the same id
/// when they are, else its landing; none when it's gone.
pub open spec fn remap_get(m: Option<Seq<(Seq<char>, Seq<Option<DefId>>)>>, kind: Seq<char>, d: DefId) -> Option<DefId> {
    match m {
        None => Some(d),
        Some(t) => if exists|k: int| kind_at_map(t, kind, k) {
            let k = choose|k: int| kind_at_map(t, kind, k);
            if (d as int) < t[k].1.len() { t[k].1[d as int] } else { None }
        } else {
            None
        },
    }
}

/// A saved def's qualified id, or "?" when the saved table doesn't have it.
pub open spec fn remap_name(saved: Seq<(Seq<char>, Seq<Seq<char>>)>, kind: Seq<char>, d: DefId) -> Seq<char> {
    if exists|k: int| kind_at(saved, kind, k) {
        let k = choose|k: int| kind_at(saved, kind, k);
        if (d as int) < saved[k].1.len() { saved[k].1[d as int] } else { "?"@ }
    } else {
        "?"@
    }
}

/// Saved def ids onto the loaded mods' def ids, kind by kind, by qualified
/// id. The identity when the defs are the ones the snapshot was taken with.
pub struct Remap {
    saved: DefsSection,
    to: Option<Vec<(String, Vec<Option<DefId>>)>>,
}

/// The first index of `x` in `ids`.
pub open spec fn first_index(ids: Seq<Seq<char>>, x: Seq<char>, p: int) -> bool {
    0 <= p < ids.len() && ids[p] == x && forall|q: int| 0 <= q < p ==> ids[q] != x
}

/// Where saved id `x` of a kind lands now: its place among the kind's ids
/// now, if the kind and the id are still there.
pub open spec fn landing(now: Seq<(Seq<char>, Seq<Seq<char>>)>, kind: Seq<char>, x: Seq<char>) -> Option<DefId> {
    if exists|k: int| kind_at(now, kind, k) {
        let k = choose|k: int| kind_at(now, kind, k);
        if exists|p: int| first_index(now[k].1, x, p) {
            Some((choose|p: int| first_index(now[k].1, x, p)) as DefId)
        } else {
            None
        }
    } else {
        None
    }
}

impl Remap {
    /// The saved table it maps from.
    pub closed spec fn saved_view(&self) -> Seq<(Seq<char>, Seq<Seq<char>>)> {
        defs_view(self.saved@)
    }

    /// Where each saved def id of each saved kind lands; none when the
    /// tables are the same.
    pub closed spec fn map_view(&self) -> Option<Seq<(Seq<char>, Seq<Option<DefId>>)>> {
        match self.to {
            None => None,
            Some(t) => Some(t@.map_values(|e: (String, Vec<Option<DefId>>)| (e.0@, e.1@))),
        }
    }

    pub fn new(saved: DefsSection, now: &DefsSection) -> (r: Remap)
        ensures
            r.saved_view() == defs_view(saved@),
            defs_view(saved@) == defs_view(now@) ==> r.map_view() is None,
            defs_view(saved@) != defs_view(now@) ==> (r.map_view() matches Some(t) && t.len() == saved@.len() && forall|k: int|
                0 <= k < t.len() ==> {
                    &&& (#[trigger] t[k]).0 == defs_view(saved@)[k].0
                    &&& t[k].1.len() == defs_view(saved@)[k].1.len()
                    &&& forall|i: int|
                        0 <= i < t[k].1.len() ==> #[trigger] t[k].1[i] == landing(
                            defs_view(now@),
                            defs_view(saved@)[k].0,
                            defs_view(saved@)[k].1[i],
                        )
                }),
    {
        if same_defs(&saved, now) {
            return Remap { saved, to: None };
        }
        let mut to: Vec<(String, Vec<Option<DefId>>)> = Vec::new();
        let mut k: usize = 0;
        while k < saved.len()
            invariant
                k <= saved@.len(),
                to@.len() == k,
                forall|j: int|
                    0 <= j < k ==> {
                        &&& (#[trigger] to@[j]).0@ == defs_view(saved@)[j].0
                        &&& to@[j].1@.len() == defs_view(saved@)[j].1.len()
                        &&& forall|i: int|
                            0 <= i < to@[j].1@.len() ==> #[trigger] to@[j].1@[i] == landing(
                                defs_view(now@),
                                defs_view(saved@)[j].0,
                                defs_view(saved@)[j].1[i],
                            )
                    },
            decreases saved@.len() - k,
        {
            let kind = saved[k].0.as_str();
            let here = find_kind(now, kind);
            let ids = &saved[k].1;
            let mut map: Vec<Option<DefId>> = Vec::new();
            let mut i: usize = 0;
            while i < ids.len()
                invariant
                    k < saved@.len(),
                    ids@ == saved@[k as int].1@,
                    kind@ == saved@[k as int].0@,
                    i <= ids@.len(),
                    map@.len() == i,
                    match here {
                        Some(h) => kind_at(defs_view(now@), kind@, h as int),
                        None => !exists|kk: int| kind_at(defs_view(now@), kind@, kk),
                    },
                    forall|t: int|
                        0 <= t < i ==> #[trigger] map@[t] == landing(defs_view(now@), kind@, ids@[t]@),
                decreases ids@.len() - i,
            {
                let m = match here {
                    None => None,
                    Some(h) => {
                        proof {
                            assert forall|kk: int| kind_at(defs_view(now@), kind@, kk) implies kk == h by {
                                if kk < h {
                                } else if kk > h {
                                }
                            }
                        }
                        let found = position(&now[h].1, ids[i].as_str());
                        proof {
                            let v = id_views(now@[h as int].1@);
                            assert(defs_view(now@)[h as int].1 == v);
                            assert forall|p: int, q: int| first_index(v, ids@[i as int]@, p) && first_index(v, ids@[i as int]@, q) implies p == q by {
                                if p < q {
                                    assert(v[p] == ids@[i as int]@);
                                } else if q < p {
                                    assert(v[q] == ids@[i as int]@);
                                }
                            }
                        }
                        match found {
                            Some(p) => Some(#[verifier::truncate] (p as DefId)),
                            None => None,
                        }
                    },
                };
                proof {
                    let nv = defs_view(now@);
                    let x = ids@[i as int]@;
                    match here {
                        None => {
                            assert(landing(nv, kind@, x) == None::<DefId>);
                        },
                        Some(h) => {
                            let kc = choose|kk: int| kind_at(nv, kind@, kk);
                            assert(kind_at(nv, kind@, h as int));
                            assert(kc == h);
                            let v = nv[h as int].1;
                            if exists|p: int| first_index(v, x, p) {
                                let pc = choose|p: int| first_index(v, x, p);
                                assert(m == Some(pc as DefId));
                            } else {
                                assert(m is None);
                            }
                        },
                    }
                    assert(m == landing(nv, kind@, x));
                }
                map.push(m);
                i += 1;
            }
            proof {
                assert(defs_view(saved@)[k as int].1 =~= id_views(ids@));
            }
            to.push((copy_string(&saved[k].0), map));
            k += 1;
        }
        Remap { saved, to: Some(to) }
    }
}

/// A copy of a string.
fn copy_string(s: &String) -> (r: String)
    ensures
        r@ == s@,
{
    String::from_str(s.as_str())
}

/// Where a kind first stands in a def table.
fn find_kind(d: &DefsSection, kind: &str) -> (r: Option<usize>)
    ensures
        match r {
            Some(h) => kind_at(defs_view(d@), kind@, h as int),
            None => !exists|k: int| kind_at(defs_view(d@), kind@, k),
        },
{
    let mut k: usize = 0;
    while k < d.len()
        invariant
            k <= d@.len(),
            forall|j: int| 0 <= j < k ==> defs_view(d@)[j].0 != kind@,
        decreases d@.len() - k,
    {
        if str_eq(d[k].0.as_str(), kind) {
            return Some(k);
        }
        k += 1;
    }
    proof {
        assert forall|kk: int| !kind_at(defs_view(d@), kind@, kk) by {
            if kind_at(defs_view(d@), kind@, kk) {
                assert(defs_view(d@)[kk].0 != kind@);
            }
        }
    }
    None
}

/// Where `x` first stands in a list of ids.
fn position(ids: &Vec<String>, x: &str) -> (r: Option<usize>)
    ensures
        match r {
            Some(p) => first_index(id_views(ids@), x@, p as int),
            None => !exists|p: int| first_index(id_views(ids@), x@, p),
        },
{
    let ghost v = id_views(ids@);
    let mut p: usize = 0;
    while p < ids.len()
        invariant
            v == id_views(ids@),
            p <= ids@.len(),
            forall|q: int| 0 <= q < p ==> v[q] != x@,
        decreases ids@.len() - p,
    {
        if str_eq(ids[p].as_str(), x) {
            return Some(p);
        }
        p += 1;
    }
    proof {
        assert forall|pp: int| !first_index(v, x@, pp) by {
            if first_index(v, x@, pp) {
                assert(v[pp] != x@);
            }
        }
    }
    None
}

/// Whether two def tables say the same.
fn same_defs(a: &DefsSection, b: &DefsSection) -> (r: bool)
    ensures
        r == (defs_view(a@) == defs_view(b@)),
{
    if a.len() != b.len() {
        assert(defs_view(a@).len() != defs_view(b@).len());
        return false;
    }
    let mut k: usize = 0;
    while k < a.len()
        invariant
            a@.len() == b@.len(),
            k <= a@.len(),
            forall|j: int| 0 <= j < k ==> #[trigger] defs_view(a@)[j] == defs_view(b@)[j],
        decreases a@.len() - k,
    {
        if !str_eq(a[k].0.as_str(), b[k].0.as_str()) {
            assert(defs_view(a@)[k as int] != defs_view(b@)[k as int]);
            return false;
        }
        let x = &a[k].1;
        let y = &b[k].1;
        if x.len() != y.len() {
            assert(defs_view(a@)[k as int].1.len() != defs_view(b@)[k as int].1.len());
            return false;
        }
        let mut i: usize = 0;
        while i < x.len()
            invariant
                a@.len() == b@.len(),
                k < a@.len(),
                x@ == a@[k as int].1@,
                y@ == b@[k as int].1@,
                x@.len() == y@.len(),
                i <= x@.len(),
                forall|t: int| 0 <= t < i ==> x@[t]@ == y@[t]@,
            decreases x@.len() - i,
        {
            if !str_eq(x[i].as_str(), y[i].as_str()) {
                proof {
                    assert(defs_view(a@)[k as int].1 == id_views(x@));
                    assert(defs_view(b@)[k as int].1 == id_views(y@));
                    assert(defs_view(a@)[k as int].1[i as int] != defs_view(b@)[k as int].1[i as int]);
                }
                return false;
            }
            i += 1;
        }
        proof {
            assert(defs_view(a@)[k as int].1 == id_views(x@));
            assert(defs_view(b@)[k as int].1 == id_views(y@));
            assert(defs_view(a@)[k as int].1 =~= defs_view(b@)[k as int].1);
        }
        k += 1;
    }
    assert(defs_view(a@) =~= defs_view(b@));
    true
}

impl Remap {
    /// The loaded def id of saved def `d` of `kind`; none when it's gone.
    pub fn get(&self, kind: &str, d: DefId) -> (r: Option<DefId>)
        ensures
            r == remap_get(self.map_view(), kind@, d),
    {
        match &self.to {
            None => Some(d),
            Some(to) => {
                let ghost t = to@.map_values(|e: (String, Vec<Option<DefId>>)| (e.0@, e.1@));
                assert(self.map_view() == Some(t));
                let mut k: usize = 0;
                while k < to.len()
                    invariant
                        self.map_view() == Some(t),
                        t == to@.map_values(|e: (String, Vec<Option<DefId>>)| (e.0@, e.1@)),
                        k <= to@.len(),
                        forall|j: int| 0 <= j < k ==> t[j].0 != kind@,
                    decreases to@.len() - k,
                {
                    if str_eq(to[k].0.as_str(), kind) {
                        proof {
                            assert(kind_at_map(t, kind@, k as int));
                            assert forall|kk: int| kind_at_map(t, kind@, kk) implies kk == k by {
                                if kk < k {
                                } else if kk > k {
                                }
                            }
                        }
                        let m = &to[k].1;
                        if (d as usize) < m.len() {
                            return m[d as usize];
                        } else {
                            return None;
                        }
                    }
                    k += 1;
                }
                proof {
                    assert forall|kk: int| !kind_at_map(t, kind@, kk) by {
                        if kind_at_map(t, kind@, kk) {
                            assert(t[kk].0 != kind@);
                        }
                    }
                }
                None
            },
        }
    }

    /// The saved qualified id, for a report; `?` when there is none.
    pub fn name(&self, kind: &str, d: DefId) -> (r: &str)
        ensures
            r@ == remap_name(self.saved_view(), kind@, d),
    {
        match find_kind(&self.saved, kind) {
            Some(k) => {
                proof {
                    assert forall|kk: int| kind_at(self.saved_view(), kind@, kk) implies kk == k by {
                        if kk < k {
                        } else if kk > k {
                        }
                    }
                }
                let ids = &self.saved[k].1;
                if (d as usize) < ids.len() {
                    ids[d as usize].as_str()
                } else {
                    "?"
                }
            },
            None => "?",
        }
    }
}

/// Where a kind first stands in a remapping.
pub open spec fn kind_at_map(t: Seq<(Seq<char>, Seq<Option<DefId>>)>, kind: Seq<char>, k: int) -> bool {
    0 <= k < t.len() && t[k].0 == kind && forall|j: int| 0 <= j < k ==> t[j].0 != kind
}

// ---------------------------------------------------------- the file form

/// The first bytes of a snapshot file: "rimsnap1".
pub const SNAP_MAGIC: [u8; 8] = [114u8, 105u8, 109u8, 115u8, 110u8, 97u8, 112u8, 49u8];

/// "rimsnap1" as a byte string.
pub open spec fn snap_magic_spec() -> Seq<u8> {
    seq![114u8, 105u8, 109u8, 115u8, 110u8, 97u8, 112u8, 49u8]
}

/// One field of the file form: its length (little-endian, 32 bits; a
/// length past `u32::MAX` keeps only its low 32 bits), then it.
pub open spec fn field_spec(b: Seq<u8>) -> Seq<u8> {
    vstd::bytes::spec_u32_to_le_bytes(b.len() as u32) + b
}

/// Appends one field of the file form.
pub fn put_field(out: &mut Vec<u8>, b: &[u8])
    ensures
        final(out)@ == old(out)@ + field_spec(b@),
{
    let lenb = vstd::bytes::u32_to_le_bytes(#[verifier::truncate] (b.len() as u32));
    out.extend_from_slice(lenb.as_slice());
    out.extend_from_slice(b);
}

/// What reading the next field of the file form from `rest` gives: nothing
/// at the end, the field and what follows it, or an error when it's cut
/// short.
pub open spec fn take_field_spec(rest: Seq<u8>) -> Result<Option<(Seq<u8>, Seq<u8>)>, Seq<char>> {
    if rest.len() == 0 {
        Ok(None)
    } else if rest.len() < 4 {
        Err("a truncated snapshot"@)
    } else {
        let n = vstd::bytes::spec_u32_from_le_bytes(rest.take(4)) as int;
        if rest.len() - 4 < n {
            Err("a truncated snapshot"@)
        } else {
            Ok(Some((rest.subrange(4, 4 + n), rest.skip(4 + n))))
        }
    }
}

/// Reads the next field of the file form.
pub fn take_field(rest: &[u8]) -> (r: Result<Option<(&[u8], &[u8])>, String>)
    ensures
        match (r, take_field_spec(rest@)) {
            (Ok(None), Ok(None)) => true,
            (Ok(Some((f, t))), Ok(Some((sf, st)))) => f@ == sf && t@ == st,
            (Err(e), Err(se)) => e@ == se,
            _ => false,
        },
{
    if rest.len() == 0 {
        return Ok(None);
    }
    if rest.len() < 4 {
        return Err(String::from_str("a truncated snapshot"));
    }
    let head = &rest[0..4];
    assert(head@ =~= rest@.take(4));
    let n = vstd::bytes::u32_from_le_bytes(head) as usize;
    if rest.len() - 4 < n {
        return Err(String::from_str("a truncated snapshot"));
    }
    let f = &rest[4..4 + n];
    let t = &rest[4 + n..rest.len()];
    assert(f@ =~= rest@.subrange(4, 4 + n));
    assert(t@ =~= rest@.skip(4 + n));
    Ok(Some((f, t)))
}

/// The bytes after the snapshot file's magic, or the error when they
/// don't start with it.
pub fn strip_snap_magic(bytes: &[u8]) -> (r: Result<&[u8], String>)
    ensures
        match r {
            Ok(rest) => bytes@.len() >= 8 && bytes@.take(8) == snap_magic_spec() && rest@ == bytes@.skip(8),
            Err(e) => !(bytes@.len() >= 8 && bytes@.take(8) == snap_magic_spec()) && e@ == "not a rim snapshot"@,
        },
{
    let magic = SNAP_MAGIC;
    if bytes.len() < 8 {
        return Err(String::from_str("not a rim snapshot"));
    }
    let mut k: usize = 0;
    while k < 8
        invariant
            k <= 8,
            bytes@.len() >= 8,
            magic@ == snap_magic_spec(),
            forall|j: int| 0 <= j < k ==> bytes@[j] == snap_magic_spec()[j],
        decreases 8 - k,
    {
        if bytes[k] != magic[k] {
            assert(bytes@.take(8)[k as int] != snap_magic_spec()[k as int]);
            return Err(String::from_str("not a rim snapshot"));
        }
        k += 1;
    }
    assert(bytes@.take(8) =~= snap_magic_spec());
    let rest = &bytes[8..bytes.len()];
    assert(rest@ =~= bytes@.skip(8));
    Ok(rest)
}

/// A field written with `put_field` reads back as itself, then whatever
/// follows it.
pub proof fn law_field_reads_back(b: Seq<u8>, tail: Seq<u8>)
    requires
        b.len() <= u32::MAX,
    ensures
        take_field_spec(field_spec(b) + tail) == Ok::<Option<(Seq<u8>, Seq<u8>)>, Seq<char>>(Some((b, tail))),
{
    let all = field_spec(b) + tail;
    vstd::bytes::lemma_auto_spec_u32_to_from_le_bytes();
    assert(all.take(4) =~= vstd::bytes::spec_u32_to_le_bytes(b.len() as u32));
    assert(all.subrange(4, 4 + b.len() as int) =~= b);
    assert(all.skip(4 + b.len() as int) =~= tail);
}

} // verus!
