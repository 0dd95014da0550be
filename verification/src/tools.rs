//! Tool tags as bits: every tag named anywhere gets a bit, in name order,
//! so what a harvest needs against what a tool gives is a mask test.
use vstd::prelude::*;
use crate::modloader::join;
use crate::modtest::{insert_sorted, sorted_text};
use crate::snapshot::id_views;

verus! {

/// The tool tags a value covers, one bit per tag.
pub type ToolMask = u64;

/// Bit `i` of a mask is set.
pub open spec fn has_bit(m: u64, i: int) -> bool {
    (m >> (i as u64)) & 1u64 == 1u64
}

/// Setting bit `i` sets it and leaves the others.
proof fn lemma_set_bit(m: u64, i: u64, j: u64)
    by (bit_vector)
    requires
        i < 64,
        j < 64,
    ensures
        ((m | (1u64 << i)) >> j) & 1u64 == if i == j {
            1u64
        } else {
            (m >> j) & 1u64
        },
{
}

/// No bit of 0 is set.
proof fn lemma_no_bits(j: u64)
    by (bit_vector)
    requires
        j < 64,
    ensures
        (0u64 >> j) & 1u64 == 0u64,
{
}

/// Where a tag first stands among the tag names.
pub open spec fn tag_at(names: Seq<Seq<char>>, t: Seq<char>) -> Option<int> {
    if exists|i: int| 0 <= i < names.len() && names[i] == t {
        Some(choose|i: int| 0 <= i < names.len() && names[i] == t && forall|j: int| 0 <= j < i ==> names[j] != t)
    } else {
        None
    }
}

/// The bits of some tags: the place among the tag names of each tag that
/// has one.
pub open spec fn mask_covers(names: Seq<Seq<char>>, tags: Seq<Seq<char>>, m: u64) -> bool {
    forall|i: int| 0 <= i < 64 ==> (has_bit(m, i) <==> exists|j: int| 0 <= j < tags.len() && tag_at(names, #[trigger] tags[j]) == Some(i))
}

fn find_tag(names: &[String], t: &str) -> (r: Option<usize>)
    ensures
        match r {
            Some(i) => tag_at(id_views(names@), t@) == Some(i as int),
            None => tag_at(id_views(names@), t@) is None,
        },
{
    let ghost ns = id_views(names@);
    let mut i: usize = 0;
    while i < names.len()
        invariant
            i <= names@.len(),
            ns == id_views(names@),
            forall|j: int| 0 <= j < i ==> ns[j] != t@,
        decreases names@.len() - i,
    {
        if crate::text::str_eq(names[i].as_str(), t) {
            proof {
                assert(ns[i as int] == t@);
                let c = choose|c: int| 0 <= c < ns.len() && ns[c] == t@ && forall|j: int| 0 <= j < c ==> ns[j] != t@;
                assert(c == i as int) by {
                    if c > i {
                        assert(ns[i as int] == t@);
                    }
                }
            }
            return Some(i);
        }
        i += 1;
    }
    None
}

/// The mask of some tags, the tags the names lack left out (`all`), or
/// `None` when one is missing and `all` is false.
fn mask_of(names: &[String], tags: &[String], all: bool) -> (r: Option<ToolMask>)
    requires
        names@.len() <= 64,
    ensures
        match r {
            Some(m) => mask_covers(id_views(names@), id_views(tags@), m) && (all ==> forall|j: int|
                0 <= j < tags@.len() ==> tag_at(id_views(names@), #[trigger] id_views(tags@)[j]) is Some),
            None => all && exists|j: int| 0 <= j < tags@.len() && tag_at(id_views(names@), #[trigger] id_views(tags@)[j]) is None,
        },
{
    let ghost ns = id_views(names@);
    let ghost ts = id_views(tags@);
    let mut m: u64 = 0;
    proof {
        assert forall|i: int| 0 <= i < 64 implies (has_bit(m, i) <==> exists|j: int| 0 <= j < 0 && tag_at(ns, #[trigger] ts[j]) == Some(i)) by {
            lemma_no_bits(i as u64);
        }
    }
    let mut k: usize = 0;
    while k < tags.len()
        invariant
            k <= tags@.len(),
            names@.len() <= 64,
            ns == id_views(names@),
            ts == id_views(tags@),
            forall|i: int| 0 <= i < 64 ==> (has_bit(m, i) <==> exists|j: int| 0 <= j < k && tag_at(ns, #[trigger] ts[j]) == Some(i)),
            all ==> forall|j: int| 0 <= j < k ==> tag_at(ns, #[trigger] ts[j]) is Some,
        decreases tags@.len() - k,
    {
        assert(ts[k as int] == tags@[k as int]@);
        match find_tag(names, tags[k].as_str()) {
            Some(p) => {
                let ghost m0 = m;
                m = m | (1u64 << (p as u64));
                proof {
                    assert forall|i: int| 0 <= i < 64 implies (has_bit(m, i) <==> exists|j: int| 0 <= j < k + 1 && tag_at(ns, #[trigger] ts[j]) == Some(i)) by {
                        lemma_set_bit(m0, p as u64, i as u64);
                        if i == p as int {
                            assert(tag_at(ns, ts[k as int]) == Some(i));
                        } else if has_bit(m0, i) {
                            let j = choose|j: int| 0 <= j < k && tag_at(ns, #[trigger] ts[j]) == Some(i);
                            assert(0 <= j < k + 1 && tag_at(ns, ts[j]) == Some(i));
                        } else {
                            if exists|j: int| 0 <= j < k + 1 && tag_at(ns, #[trigger] ts[j]) == Some(i) {
                                let j = choose|j: int| 0 <= j < k + 1 && tag_at(ns, #[trigger] ts[j]) == Some(i);
                                assert(j != k);
                            }
                        }
                    }
                }
            },
            None => {
                if all {
                    return None;
                }
                proof {
                    assert forall|i: int| 0 <= i < 64 implies (has_bit(m, i) <==> exists|j: int| 0 <= j < k + 1 && tag_at(ns, #[trigger] ts[j]) == Some(i)) by {
                        if exists|j: int| 0 <= j < k + 1 && tag_at(ns, #[trigger] ts[j]) == Some(i) {
                            let j = choose|j: int| 0 <= j < k + 1 && tag_at(ns, #[trigger] ts[j]) == Some(i);
                            assert(j != k);
                        }
                    }
                }
            },
        }
        k += 1;
    }
    Some(m)
}

/// The mask of some tags as a thing's tool or harvest gives them, among
/// the tag names (`names`, at most 64): each tag the names hold sets its
/// bit.
pub fn tag_mask(names: &[String], tags: &[String]) -> (r: ToolMask)
    requires
        names@.len() <= 64,
    ensures
        mask_covers(id_views(names@), id_views(tags@), r),
{
    match mask_of(names, tags, false) {
        Some(m) => m,
        None => 0,
    }
}

/// The mask of some tags a script names, or `None` when one isn't a tool
/// tag at all.
pub fn tool_mask(names: &[String], tags: &[String]) -> (r: Option<ToolMask>)
    requires
        names@.len() <= 64,
    ensures
        match r {
            Some(m) => mask_covers(id_views(names@), id_views(tags@), m) && forall|j: int| 0 <= j < tags@.len() ==> tag_at(id_views(names@), #[trigger] id_views(tags@)[j]) is Some,
            None => exists|j: int| 0 <= j < tags@.len() && tag_at(id_views(names@), #[trigger] id_views(tags@)[j]) is None,
        },
{
    mask_of(names, tags, true)
}

/// The names of the bits among the first `k` that a mask holds, in order.
pub open spec fn names_with_bits(names: Seq<Seq<char>>, m: u64, k: int) -> Seq<Seq<char>>
    decreases k,
{
    if k <= 0 {
        Seq::empty()
    } else if has_bit(m, k - 1) {
        names_with_bits(names, m, k - 1).push(names[k - 1])
    } else {
        names_with_bits(names, m, k - 1)
    }
}

/// The tag names a mask holds, in tag order.
pub fn tool_tag_names(names: &[String], mask: ToolMask) -> (r: Vec<String>)
    requires
        names@.len() <= 64,
    ensures
        id_views(r@) == names_with_bits(id_views(names@), mask, names@.len() as int),
{
    let ghost ns = id_views(names@);
    let mut out: Vec<String> = Vec::new();
    let mut i: usize = 0;
    assert(id_views(out@) =~= Seq::<Seq<char>>::empty());
    while i < names.len()
        invariant
            i <= names@.len(),
            names@.len() <= 64,
            ns == id_views(names@),
            id_views(out@) == names_with_bits(ns, mask, i as int),
        decreases names@.len() - i,
    {
        let ghost before = id_views(out@);
        if (mask >> (i as u64)) & 1u64 == 1u64 {
            out.push(names[i].clone());
            assert(id_views(out@) =~= before.push(ns[i as int]));
        }
        i += 1;
    }
    out
}

/// Every tag some lists name: a tool's tags, a harvest's requirements.
pub open spec fn all_tags(lists: Seq<Vec<String>>) -> Set<Seq<char>> {
    Set::new(|t: Seq<char>| exists|i: int, j: int| 0 <= i < lists.len() && 0 <= j < lists[i]@.len() && (#[trigger] lists[i]@[j])@ == t)
}

/// The tags named among the first `i` lists and the first `j` tags of list `i`.
pub open spec fn tags_upto(lists: Seq<Vec<String>>, i: int, j: int) -> Set<Seq<char>> {
    Set::new(|t: Seq<char>| exists|a: int, b: int| 0 <= a < lists.len() && 0 <= b < lists[a]@.len() && (a < i || (a == i && b < j)) && (#[trigger] lists[a]@[b])@ == t)
}

/// The tool tags: every tag named by a tool or a harvest, in name order,
/// each once. A mask has 64 bits, so more tags than that is an error,
/// which lists them all.
pub fn tool_tags(lists: &[Vec<String>]) -> (r: Result<Vec<String>, String>)
    ensures
        match r {
            Ok(v) => sorted_text(id_views(v@)) && id_views(v@).to_set() == all_tags(lists@) && v@.len() <= 64,
            Err(e) => exists|s: Seq<Seq<char>>| sorted_text(s) && s.to_set() == all_tags(lists@) && s.len() > 64
                && e@ == "more than 64 tool tags: "@ + join(s, ", "@),
        },
{
    let mut out: Vec<String> = Vec::new();
    let mut i: usize = 0;
    proof {
        assert(id_views(out@).to_set() =~= tags_upto(lists@, 0, 0));
    }
    while i < lists.len()
        invariant
            i <= lists@.len(),
            sorted_text(id_views(out@)),
            id_views(out@).to_set() == tags_upto(lists@, i as int, 0),
        decreases lists@.len() - i,
    {
        let list = &lists[i];
        let mut j: usize = 0;
        while j < list.len()
            invariant
                i < lists@.len(),
                list == lists@[i as int],
                j <= list@.len(),
                sorted_text(id_views(out@)),
                id_views(out@).to_set() == tags_upto(lists@, i as int, j as int),
            decreases list@.len() - j,
        {
            let ghost before = id_views(out@).to_set();
            let t = list[j].clone();
            insert_sorted(&mut out, t);
            proof {
                assert(id_views(out@).to_set() =~= tags_upto(lists@, i as int, j + 1)) by {
                    assert forall|x: Seq<char>| tags_upto(lists@, i as int, j + 1).contains(x) implies #[trigger] id_views(out@).to_set().contains(x) by {
                        let (a, b) = choose|a: int, b: int| 0 <= a < lists@.len() && 0 <= b < lists@[a]@.len() && (a < i || (a == i && b < j + 1)) && (#[trigger] lists@[a]@[b])@ == x;
                        if !(a == i && b == j) {
                            assert(tags_upto(lists@, i as int, j as int).contains(x));
                        }
                    }
                    assert forall|x: Seq<char>| #[trigger] id_views(out@).to_set().contains(x) implies tags_upto(lists@, i as int, j + 1).contains(x) by {
                        if before.contains(x) {
                            let (a, b) = choose|a: int, b: int| 0 <= a < lists@.len() && 0 <= b < lists@[a]@.len() && (a < i || (a == i && b < j)) && (#[trigger] lists@[a]@[b])@ == x;
                            assert(lists@[a]@[b]@ == x);
                        } else {
                            assert(lists@[i as int]@[j as int]@ == x);
                        }
                    }
                }
            }
            j += 1;
        }
        proof {
            assert(tags_upto(lists@, i as int, list@.len() as int) =~= tags_upto(lists@, i + 1, 0)) by {
                assert forall|x: Seq<char>| tags_upto(lists@, i + 1, 0).contains(x) implies #[trigger] tags_upto(lists@, i as int, list@.len() as int).contains(x) by {
                    let (a, b) = choose|a: int, b: int| 0 <= a < lists@.len() && 0 <= b < lists@[a]@.len() && (a < i + 1 || (a == i + 1 && b < 0)) && (#[trigger] lists@[a]@[b])@ == x;
                    assert(lists@[a]@[b]@ == x);
                }
                assert forall|x: Seq<char>| tags_upto(lists@, i as int, list@.len() as int).contains(x) implies #[trigger] tags_upto(lists@, i + 1, 0).contains(x) by {
                    let (a, b) = choose|a: int, b: int| 0 <= a < lists@.len() && 0 <= b < lists@[a]@.len() && (a < i || (a == i && b < list@.len())) && (#[trigger] lists@[a]@[b])@ == x;
                    assert(lists@[a]@[b]@ == x);
                }
            }
        }
        i += 1;
    }
    proof {
        assert(tags_upto(lists@, i as int, 0) =~= all_tags(lists@)) by {
            assert forall|x: Seq<char>| all_tags(lists@).contains(x) implies #[trigger] tags_upto(lists@, i as int, 0).contains(x) by {
                let (a, b) = choose|a: int, b: int| 0 <= a < lists@.len() && 0 <= b < lists@[a]@.len() && (#[trigger] lists@[a]@[b])@ == x;
                assert(lists@[a]@[b]@ == x);
            }
            assert forall|x: Seq<char>| tags_upto(lists@, i as int, 0).contains(x) implies #[trigger] all_tags(lists@).contains(x) by {
                let (a, b) = choose|a: int, b: int| 0 <= a < lists@.len() && 0 <= b < lists@[a]@.len() && (a < i || (a == i && b < 0)) && (#[trigger] lists@[a]@[b])@ == x;
                assert(lists@[a]@[b]@ == x);
            }
        }
    }
    if out.len() > 64 {
        let mut e = String::from_str("more than 64 tool tags: ");
        crate::priority::append_joined(&mut e, out.as_slice(), ", ");
        return Err(e);
    }
    Ok(out)
}

} // verus!
