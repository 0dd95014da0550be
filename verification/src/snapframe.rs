//! A snapshot file's frame: the magic bytes, the header's field, then each
//! section as a name field and a field of zstd-compressed bytes.
use vstd::prelude::*;
use crate::modloader::{text_lt, text_less, lemma_text_lt_irrefl, lemma_text_lt_trans, lemma_text_lt_total};
use crate::snapshot::{sections_by_name, field_spec, put_field, snap_magic_spec, strip_snap_magic, take_field, take_field_spec, SNAP_MAGIC};

verus! {

/// What `zstd::decode_all` makes of some bytes: the bytes they decompress
/// to, or the text of the error that stopped it.
pub uninterp spec fn zstd_decoded(packed: Seq<u8>) -> Result<Seq<u8>, Seq<char>>;

/// Decompresses a zstd frame with `zstd::decode_all`, the error as text.
/// Claimed: the result is `zstd_decoded` of the input, the same for the
/// same bytes.
#[verifier::external_body]
fn zstd_decode(packed: &[u8]) -> (r: Result<Vec<u8>, String>)
    ensures
        match (r, zstd_decoded(packed@)) {
            (Ok(b), Ok(sb)) => b@ == sb,
            (Err(e), Err(se)) => e@ == se,
            _ => false,
        },
{
    zstd::decode_all(packed).map_err(|e| e.to_string())
}

/// Reads bytes as UTF-8 text with `String::from_utf8`. Claimed, as std
/// documents it: text exactly when the bytes are valid UTF-8, and then the
/// characters they encode.
#[verifier::external_body]
fn utf8_text(bytes: &[u8]) -> (r: Option<String>)
    ensures
        r is Some <==> vstd::utf8::valid_utf8(bytes@),
        r matches Some(s) ==> s@ == vstd::utf8::decode_utf8(bytes@),
{
    String::from_utf8(bytes.to_vec()).ok()
}

/// The length a field's four-byte prefix gives.
pub open spec fn field_len(rest: Seq<u8>) -> int {
    vstd::bytes::spec_u32_from_le_bytes(rest.take(4)) as int
}

/// A field can't be read from `rest`: it is cut short.
pub open spec fn cut_short(rest: Seq<u8>) -> bool {
    rest.len() < 4 || rest.len() - 4 < field_len(rest)
}

/// The sections read from what follows the header: each a name, which
/// must be text, and a body, which must be there and decompress. The
/// first error stops the reading.
pub open spec fn sections_from(rest: Seq<u8>) -> Result<Seq<(Seq<char>, Seq<u8>)>, Seq<char>>
    decreases rest.len(),
{
    if rest.len() == 0 {
        Ok(Seq::empty())
    } else if cut_short(rest) {
        Err("a truncated snapshot"@)
    } else {
        let name = rest.subrange(4, 4 + field_len(rest));
        let tail = rest.skip(4 + field_len(rest));
        if !vstd::utf8::valid_utf8(name) {
            Err("a section name isn't text"@)
        } else if tail.len() == 0 {
            Err("a section with no body"@)
        } else if cut_short(tail) {
            Err("a truncated snapshot"@)
        } else {
            let packed = tail.subrange(4, 4 + field_len(tail));
            let text = vstd::utf8::decode_utf8(name);
            match zstd_decoded(packed) {
                Err(e) => Err(text + ": "@ + e),
                Ok(b) => match sections_from(tail.skip(4 + field_len(tail))) {
                    Err(e) => Err(e),
                    Ok(s) => Ok(seq![(text, b)] + s),
                },
            }
        }
    }
}

/// What reading a snapshot file's frame gives: the header's bytes and the
/// sections in file order, or the first error.
pub open spec fn frame_spec(bytes: Seq<u8>) -> Result<(Seq<u8>, Seq<(Seq<char>, Seq<u8>)>), Seq<char>> {
    if !(bytes.len() >= 8 && bytes.take(8) == snap_magic_spec()) {
        Err("not a rim snapshot"@)
    } else {
        let rest = bytes.skip(8);
        if rest.len() == 0 {
            Err("a snapshot with no header"@)
        } else if cut_short(rest) {
            Err("a truncated snapshot"@)
        } else {
            match sections_from(rest.skip(4 + field_len(rest))) {
                Err(e) => Err(e),
                Ok(s) => Ok((rest.subrange(4, 4 + field_len(rest)), s)),
            }
        }
    }
}

/// Sections as text and bytes.
pub open spec fn section_views(s: Seq<(String, Vec<u8>)>) -> Seq<(Seq<char>, Seq<u8>)> {
    s.map_values(|p: (String, Vec<u8>)| (p.0@, p.1@))
}

/// Reading a field agrees with the frame's spelled-out reading of it.
proof fn lemma_take_field(rest: Seq<u8>)
    ensures
        take_field_spec(rest) == (if rest.len() == 0 {
            Ok(None)
        } else if cut_short(rest) {
            Err("a truncated snapshot"@)
        } else {
            Ok(Some((rest.subrange(4, 4 + field_len(rest)), rest.skip(4 + field_len(rest)))))
        }),
{
}

/// What reading a snapshot file's header gives: the header's bytes and
/// where the sections start, or the first error.
pub open spec fn header_spec(bytes: Seq<u8>) -> Result<(Seq<u8>, int), Seq<char>> {
    if !(bytes.len() >= 8 && bytes.take(8) == snap_magic_spec()) {
        Err("not a rim snapshot"@)
    } else {
        let rest = bytes.skip(8);
        if rest.len() == 0 {
            Err("a snapshot with no header"@)
        } else if cut_short(rest) {
            Err("a truncated snapshot"@)
        } else {
            Ok((rest.subrange(4, 4 + field_len(rest)), 12 + field_len(rest)))
        }
    }
}

/// Reads a snapshot file's magic bytes and its header's field: the header
/// (left for the caller to decode) and where the sections start.
pub fn read_snapshot_header(bytes: &[u8]) -> (r: Result<(Vec<u8>, usize), String>)
    ensures
        match (r, header_spec(bytes@)) {
            (Ok((h, at)), Ok((sh, sat))) => h@ == sh && at == sat && at <= bytes@.len(),
            (Err(e), Err(se)) => e@ == se,
            _ => false,
        },
{
    let rest0 = strip_snap_magic(bytes)?;
    proof {
        lemma_take_field(rest0@);
    }
    let (header, rest) = match take_field(rest0)? {
        None => return Err(String::from_str("a snapshot with no header")),
        Some(p) => p,
    };
    let mut h: Vec<u8> = Vec::new();
    h.extend_from_slice(header);
    assert(h@ =~= header@);
    Ok((h, bytes.len() - rest.len()))
}

/// Reads the sections that follow a snapshot file's header: each name
/// (which must be text) and body (which must be there and decompress with
/// zstd), in file order.
pub fn read_sections(rest0: &[u8]) -> (r: Result<Vec<(String, Vec<u8>)>, String>)
    ensures
        match (r, sections_from(rest0@)) {
            (Ok(s), Ok(ss)) => section_views(s@) == ss,
            (Err(e), Err(se)) => e@ == se,
            _ => false,
        },
{
    let ghost first = rest0@;
    let mut rest = rest0;
    let mut out: Vec<(String, Vec<u8>)> = Vec::new();
    assert(section_views(out@) =~= Seq::<(Seq<char>, Seq<u8>)>::empty());
    loop
        invariant
            first == rest0@,
            sections_from(first) == (match sections_from(rest@) {
                Err(e) => Err(e),
                Ok(s) => Ok(section_views(out@) + s),
            }),
        ensures
            rest@.len() == 0,
        decreases rest@.len(),
    {
        proof {
            lemma_take_field(rest@);
        }
        let ghost before = section_views(out@);
        let (name, tail) = match take_field(rest)? {
            None => {
                assert(before + Seq::<(Seq<char>, Seq<u8>)>::empty() =~= before);
                break;
            },
            Some(p) => p,
        };
        let text = match utf8_text(name) {
            Some(t) => t,
            None => return Err(String::from_str("a section name isn't text")),
        };
        proof {
            lemma_take_field(tail@);
        }
        let (packed, tail2) = match take_field(tail)? {
            None => return Err(String::from_str("a section with no body")),
            Some(p) => p,
        };
        match zstd_decode(packed) {
            Err(e) => {
                let mut m = text;
                m.append(": ");
                m.append(e.as_str());
                return Err(m);
            },
            Ok(b) => {
                proof {
                    assert(text@ == vstd::utf8::decode_utf8(name@));
                }
                out.push((text, b));
                proof {
                    assert(section_views(out@) =~= before.push((vstd::utf8::decode_utf8(name@), b@)));
                    match sections_from(tail2@) {
                        Err(e) => {},
                        Ok(s) => {
                            assert(before + (seq![(vstd::utf8::decode_utf8(name@), b@)] + s) =~= section_views(out@) + s);
                        },
                    }
                }
                rest = tail2;
            },
        }
    }
    assert(section_views(out@) + Seq::<(Seq<char>, Seq<u8>)>::empty() =~= section_views(out@));
    Ok(out)
}

/// Reads a snapshot file's frame: checks the magic bytes, takes the
/// header's field, then reads the sections. The header is left for the
/// caller to decode.
pub fn read_snapshot_frame(bytes: &[u8]) -> (r: Result<(Vec<u8>, Vec<(String, Vec<u8>)>), String>)
    ensures
        match (r, frame_spec(bytes@)) {
            (Ok((h, s)), Ok((sh, ss))) => h@ == sh && section_views(s@) == ss,
            (Err(e), Err(se)) => e@ == se,
            _ => false,
        },
{
    let (h, at) = read_snapshot_header(bytes)?;
    let rest = &bytes[at..bytes.len()];
    proof {
        let r8 = bytes@.skip(8);
        assert(rest@ =~= r8.skip(4 + field_len(r8)));
    }
    let s = read_sections(rest)?;
    Ok((h, s))
}

/// What reading a save file's section chunk gives: the hash it was
/// stored under (its first eight bytes, little-endian) and the rest
/// decompressed.
pub open spec fn section_spec(payload: Seq<u8>) -> Result<(u64, Seq<u8>), Seq<char>> {
    if payload.len() < 8 {
        Err("a section with no hash"@)
    } else {
        match zstd_decoded(payload.skip(8)) {
            Err(e) => Err("a section: "@ + e),
            Ok(b) => Ok((vstd::bytes::spec_u64_from_le_bytes(payload.take(8)), b)),
        }
    }
}

/// A section chunk of a save file read back: the hash it was stored
/// under, and its bytes decompressed.
pub fn read_section(payload: &[u8]) -> (r: Result<(u64, Vec<u8>), String>)
    ensures
        match (r, section_spec(payload@)) {
            (Ok((h, b)), Ok((sh, sb))) => h == sh && b@ == sb,
            (Err(e), Err(se)) => e@ == se,
            _ => false,
        },
{
    if payload.len() < 8 {
        return Err(String::from_str("a section with no hash"));
    }
    let h = vstd::slice::slice_subrange(payload, 0, 8);
    let packed = vstd::slice::slice_subrange(payload, 8, payload.len());
    assert(packed@ =~= payload@.skip(8));
    assert(h@ =~= payload@.take(8));
    match zstd_decode(packed) {
        Err(e) => {
            let mut m = String::from_str("a section: ");
            m.append(e.as_str());
            Err(m)
        },
        Ok(b) => Ok((vstd::bytes::u64_from_le_bytes(h), b)),
    }
}

/// What `zstd::encode_all` at level 3 makes of some bytes: the
/// compressed frame, or the text of the error that stopped it.
pub uninterp spec fn zstd_encoded(bytes: Seq<u8>) -> Result<Seq<u8>, Seq<char>>;

/// Compresses bytes with `zstd::encode_all` at level 3, the error as
/// text. Claimed: the result is `zstd_encoded` of the input, the same for
/// the same bytes.
#[verifier::external_body]
fn zstd_encode(bytes: &[u8]) -> (r: Result<Vec<u8>, String>)
    ensures
        match (r, zstd_encoded(bytes@)) {
            (Ok(b), Ok(sb)) => b@ == sb,
            (Err(e), Err(se)) => e@ == se,
            _ => false,
        },
{
    zstd::encode_all(bytes, 3).map_err(|e| e.to_string())
}

/// The file form of the first `k` sections, each its name's field and its
/// compressed bytes' field, or the first compression error.
pub open spec fn sections_written(s: Seq<(String, Vec<u8>)>, k: int) -> Result<Seq<u8>, Seq<char>>
    decreases k,
{
    if k <= 0 {
        Ok(Seq::empty())
    } else {
        match sections_written(s, k - 1) {
            Err(e) => Err(e),
            Ok(before) => match zstd_encoded(s[k - 1].1@) {
                Err(e) => Err(e),
                Ok(packed) => Ok(before + field_spec(vstd::utf8::encode_utf8(s[k - 1].0@)) + field_spec(packed)),
            },
        }
    }
}

/// A snapshot in its file form: the magic bytes, the header's field
/// (already encoded), then each section's name and compressed bytes, in
/// order; or the error compressing a section met.
pub fn write_snapshot_frame(header: &[u8], sections: &[(String, Vec<u8>)]) -> (r: Result<Vec<u8>, String>)
    ensures
        match (r, sections_written(sections@, sections@.len() as int)) {
            (Ok(b), Ok(sb)) => b@ == snap_magic_spec() + field_spec(header@) + sb,
            (Err(e), Err(se)) => e@ == se,
            _ => false,
        },
{
    let mut out: Vec<u8> = Vec::new();
    let magic = SNAP_MAGIC;
    out.extend_from_slice(&magic);
    assert(out@ =~= snap_magic_spec());
    put_field(&mut out, header);
    let ghost head = out@;
    let mut k: usize = 0;
    assert(out@ =~= head + Seq::<u8>::empty());
    while k < sections.len()
        invariant
            k <= sections@.len(),
            head == snap_magic_spec() + field_spec(header@),
            sections_written(sections@, k as int) matches Ok(sb) && out@ == head + sb,
        decreases sections@.len() - k,
    {
        let ghost before = out@;
        let packed = match zstd_encode(sections[k].1.as_slice()) {
            Ok(p) => p,
            Err(e) => {
                proof {
                    lemma_written_err_stays(sections@, k + 1, sections@.len() as int);
                }
                return Err(e);
            },
        };
        put_field(&mut out, sections[k].0.as_str().as_bytes());
        put_field(&mut out, packed.as_slice());
        proof {
            let sb = sections_written(sections@, k as int)->Ok_0;
            assert(out@ =~= head + (sb + field_spec(vstd::utf8::encode_utf8(sections@[k as int].0@)) + field_spec(packed@)));
        }
        k += 1;
    }
    Ok(out)
}

/// Once writing the sections fails, it fails the same way however many
/// sections follow.
proof fn lemma_written_err_stays(s: Seq<(String, Vec<u8>)>, k: int, n: int)
    requires
        0 <= k <= n,
        sections_written(s, k) is Err,
    ensures
        sections_written(s, n) == sections_written(s, k),
    decreases n - k,
{
    if n > k {
        lemma_written_err_stays(s, k, n - 1);
    }
}

/// A section as a save file stores it: its hash (little-endian), then
/// its bytes compressed; or the error compressing met.
pub fn section_payload(hash: u64, bytes: &[u8]) -> (r: Result<Vec<u8>, String>)
    ensures
        match (r, zstd_encoded(bytes@)) {
            (Ok(p), Ok(packed)) => p@ == vstd::bytes::spec_u64_to_le_bytes(hash) + packed,
            (Err(e), Err(se)) => e@ == se,
            _ => false,
        },
{
    let mut out = vstd::bytes::u64_to_le_bytes(hash);
    let packed = zstd_encode(bytes)?;
    out.extend_from_slice(packed.as_slice());
    Ok(out)
}

/// A section payload reads back as the hash and bytes it was made from,
/// when the bytes decompress to what they were compressed from.
pub proof fn law_section_reads_back(hash: u64, bytes: Seq<u8>, packed: Seq<u8>)
    requires
        zstd_encoded(bytes) == Ok::<Seq<u8>, Seq<char>>(packed),
        zstd_decoded(packed) == Ok::<Seq<u8>, Seq<char>>(bytes),
    ensures
        section_spec(vstd::bytes::spec_u64_to_le_bytes(hash) + packed) == Ok::<(u64, Seq<u8>), Seq<char>>((hash, bytes)),
{
    let p = vstd::bytes::spec_u64_to_le_bytes(hash) + packed;
    vstd::bytes::lemma_auto_spec_u64_to_from_le_bytes();
    assert(p.take(8) =~= vstd::bytes::spec_u64_to_le_bytes(hash));
    assert(p.skip(8) =~= packed);
}

/// Some section among the first `n` is named `x`.
pub open spec fn named_in(s: Seq<(String, Vec<u8>)>, x: Seq<char>, n: int) -> bool {
    exists|i: int| 0 <= i < n && #[trigger] s[i].0@ == x
}

/// Frame `i` is the last among the first `n` named `x`.
pub open spec fn last_named(frames: Seq<(String, Vec<u8>)>, x: Seq<char>, i: int, n: int) -> bool {
    &&& 0 <= i < n
    &&& frames[i].0@ == x
    &&& forall|q: int| i < q < n ==> frames[q].0@ != x
}

/// Entry `e` has the name of a section among the first `n`, and the bytes
/// of the last section among them by that name.
pub open spec fn kept_last(frames: Seq<(String, Vec<u8>)>, e: (String, Vec<u8>), n: int) -> bool {
    exists|i: int| last_named(frames, e.0@, i, n) && e.1@ == frames[i].1@
}

/// The first `n` sections as a table by name: each name once, in name
/// order, with the bytes the last section of that name has.
pub open spec fn table_of(frames: Seq<(String, Vec<u8>)>, t: Seq<(String, Vec<u8>)>, n: int) -> bool {
    &&& sections_by_name(t)
    &&& forall|x: Seq<char>| #[trigger] named_in(t, x, t.len() as int) <==> named_in(frames, x, n)
    &&& forall|j: int| 0 <= j < t.len() ==> kept_last(frames, #[trigger] t[j], n)
}

/// Sections read in file order as a table by name: in name order, and a
/// name given twice keeps the bytes given last.
pub fn section_table(frames: Vec<(String, Vec<u8>)>) -> (r: Vec<(String, Vec<u8>)>)
    ensures
        table_of(frames@, r@, frames@.len() as int),
{
    let ghost fr = frames@;
    let mut out: Vec<(String, Vec<u8>)> = Vec::new();
    let mut k: usize = 0;
    let n = frames.len();
    let mut rest = frames;
    // Take the frames from the back, so each is moved out whole.
    let mut taken: Vec<(String, Vec<u8>)> = Vec::new();
    while rest.len() > 0
        invariant
            rest@ == fr.take(rest@.len() as int),
            rest@.len() <= fr.len(),
            n == fr.len(),
            taken@.len() == fr.len() - rest@.len(),
            forall|q: int| 0 <= q < taken@.len() ==> #[trigger] taken@[q] == fr[n - 1 - q],
        decreases rest@.len(),
    {
        let ghost r0 = rest@;
        let e = rest.pop().unwrap();
        assert(e == fr[r0.len() - 1]);
        taken.push(e);
        proof {
            assert(rest@ =~= fr.take(rest@.len() as int));
        }
    }
    proof {
        assert(table_of(fr, out@, 0));
    }
    while k < n
        invariant
            k <= n,
            n == fr.len(),
            taken@.len() == n - k,
            forall|q: int| 0 <= q < taken@.len() ==> #[trigger] taken@[q] == fr[n - 1 - q],
            table_of(fr, out@, k as int),
        decreases n - k,
    {
        let ghost t0 = taken@;
        let ghost o = out@;
        let (name, body) = taken.pop().unwrap();
        assert(fr[k as int] == (name, body));
        let ghost nm = name@;
        put_section(&mut out, name, body);
        proof {
            assert forall|q: int| 0 <= q < taken@.len() implies #[trigger] taken@[q] == fr[n - 1 - q] by {
                assert(taken@[q] == t0[q]);
            }
        }
        proof {
            let t = out@;
            assert forall|x: Seq<char>| #[trigger] named_in(t, x, t.len() as int) <==> named_in(fr, x, k + 1) by {
                if x == nm {
                    assert(fr[k as int].0@ == x);
                }
                assert(named_in(o, x, o.len() as int) <==> named_in(fr, x, k as int));
                if named_in(fr, x, k + 1) {
                    let i = choose|i: int| 0 <= i < k + 1 && #[trigger] fr[i].0@ == x;
                    if i < k {
                        assert(named_in(fr, x, k as int));
                    }
                }
                if named_in(fr, x, k as int) {
                    let i = choose|i: int| 0 <= i < k && #[trigger] fr[i].0@ == x;
                    assert(named_in(fr, x, k + 1));
                }
            }
            assert forall|j: int| 0 <= j < t.len() implies kept_last(fr, #[trigger] t[j], k + 1) by {
                if t[j].0@ == nm {
                    assert(last_named(fr, t[j].0@, k as int, k + 1));
                } else {
                    let q = choose|q: int| 0 <= q < o.len() && o[q].0@ == t[j].0@ && o[q].1@ == t[j].1@;
                    assert(o[q] == o[q]);
                    assert(kept_last(fr, o[q], k as int));
                    let i = choose|i: int| last_named(fr, o[q].0@, i, k as int) && o[q].1@ == fr[i].1@;
                    assert(last_named(fr, t[j].0@, i, k + 1));
                }
            }
            assert(table_of(fr, t, k + 1));
        }
        k += 1;
    }
    out
}

/// Puts a section into a table by name: in its place, or over the bytes
/// of the one already there by that name.
fn put_section(t: &mut Vec<(String, Vec<u8>)>, name: String, body: Vec<u8>)
    requires
        sections_by_name(old(t)@),
    ensures
        sections_by_name(final(t)@),
        forall|x: Seq<char>| #[trigger] named_in(final(t)@, x, final(t)@.len() as int) <==> (x == name@ || named_in(old(t)@, x, old(t)@.len() as int)),
        forall|j: int| 0 <= j < final(t)@.len() ==> {
            let e = #[trigger] final(t)@[j];
            if e.0@ == name@ {
                e.1@ == body@
            } else {
                exists|q: int| 0 <= q < old(t)@.len() && old(t)@[q].0@ == e.0@ && old(t)@[q].1@ == e.1@
            }
        },
{
    let ghost o = t@;
    let mut p: usize = 0;
    while p < t.len() && text_less(t[p].0.as_str(), name.as_str())
        invariant
            p <= t@.len(),
            t@ == o,
            forall|q: int| 0 <= q < p ==> text_lt(#[trigger] o[q].0@, name@),
        decreases t@.len() - p,
    {
        p += 1;
    }
    if p < t.len() && crate::text::str_eq(t[p].0.as_str(), name.as_str()) {
        let (n, _) = t.remove(p);
        t.insert(p, (n, body));
        proof {
            let f = t@;
            assert(f =~= o.update(p as int, (o[p as int].0, body)));
            assert forall|j: int| 0 <= j < f.len() implies {
                let e = #[trigger] f[j];
                if e.0@ == name@ {
                    e.1@ == body@
                } else {
                    exists|q: int| 0 <= q < o.len() && o[q].0@ == e.0@ && o[q].1@ == e.1@
                }
            } by {
                if j != p {
                    if f[j].0@ == name@ {
                        if j < p {
                            lemma_text_lt_irrefl(name@);
                        } else {
                            lemma_text_lt_irrefl(name@);
                        }
                    }
                    assert(o[j] == f[j]);
                }
            }
            assert forall|x: Seq<char>| #[trigger] named_in(f, x, f.len() as int) <==> (x == name@ || named_in(o, x, o.len() as int)) by {
                if x == name@ {
                    assert(f[p as int].0@ == x);
                }
                if named_in(o, x, o.len() as int) {
                    let j = choose|j: int| 0 <= j < o.len() && #[trigger] o[j].0@ == x;
                    assert(f[j].0@ == x);
                }
                if named_in(f, x, f.len() as int) {
                    let j = choose|j: int| 0 <= j < f.len() && #[trigger] f[j].0@ == x;
                    assert(o[j].0@ == x);
                }
            }
        }
    } else {
        proof {
            assert forall|q: int| 0 <= q < o.len() implies o[q].0@ != name@ by {
                if q < p {
                    lemma_text_lt_irrefl(name@);
                } else {
                    lemma_text_lt_total(o[p as int].0@, name@);
                    if q > p && o[q].0@ == name@ {
                        lemma_text_lt_trans(o[p as int].0@, o[q].0@, name@);
                        lemma_text_lt_irrefl(name@);
                    }
                }
            }
        }
        let ghost nv = name@;
        let ghost bv = body@;
        t.insert(p, (name, body));
        proof {
            let f = t@;
            assert(f == o.insert(p as int, f[p as int]));
            assert(f[p as int].0@ == nv && f[p as int].1@ == bv);
            assert forall|a: int, b: int| 0 <= a < b < f.len() implies text_lt(#[trigger] f[a].0@, #[trigger] f[b].0@) by {
                if p < o.len() {
                    lemma_text_lt_total(o[p as int].0@, nv);
                }
                if b < p {
                } else if b == p {
                } else if a < p {
                    assert(f[b] == o[b - 1]);
                    if b - 1 > p {
                        lemma_text_lt_trans(nv, o[p as int].0@, o[b - 1].0@);
                    }
                    lemma_text_lt_trans(f[a].0@, nv, f[b].0@);
                } else if a == p {
                    assert(f[b] == o[b - 1]);
                    if b - 1 > p {
                        lemma_text_lt_trans(nv, o[p as int].0@, o[b - 1].0@);
                    }
                } else {
                    assert(f[a] == o[a - 1] && f[b] == o[b - 1]);
                }
            }
            assert forall|j: int| 0 <= j < f.len() implies {
                let e = #[trigger] f[j];
                if e.0@ == nv {
                    e.1@ == bv
                } else {
                    exists|q: int| 0 <= q < o.len() && o[q].0@ == e.0@ && o[q].1@ == e.1@
                }
            } by {
                if j < p {
                    assert(o[j] == f[j]);
                } else if j > p {
                    assert(o[j - 1] == f[j]);
                }
            }
            assert forall|x: Seq<char>| #[trigger] named_in(f, x, f.len() as int) <==> (x == nv || named_in(o, x, o.len() as int)) by {
                if x == nv {
                    assert(f[p as int].0@ == x);
                }
                if named_in(o, x, o.len() as int) {
                    let j = choose|j: int| 0 <= j < o.len() && #[trigger] o[j].0@ == x;
                    if j < p {
                        assert(f[j].0@ == x);
                    } else {
                        assert(f[j + 1].0@ == x);
                    }
                }
                if named_in(f, x, f.len() as int) {
                    let j = choose|j: int| 0 <= j < f.len() && #[trigger] f[j].0@ == x;
                    if j < p {
                        assert(o[j].0@ == x);
                    } else if j > p {
                        assert(o[j - 1].0@ == x);
                    }
                }
            }
        }
    }
}

/// Each section's name and compressed bytes fit a field's length, and its
/// bytes decompress to what they were compressed from.
pub open spec fn sections_round_trip(s: Seq<(String, Vec<u8>)>) -> bool {
    forall|i: int| 0 <= i < s.len() ==> {
        &&& vstd::utf8::encode_utf8(#[trigger] s[i].0@).len() <= u32::MAX
        &&& zstd_encoded(s[i].1@) matches Ok(p)
        &&& p.len() <= u32::MAX
        &&& zstd_decoded(p) == Ok::<Seq<u8>, Seq<char>>(s[i].1@)
    }
}

/// The file form of the sections from `k` on, each compressing.
spec fn written_tail(s: Seq<(String, Vec<u8>)>, k: int) -> Seq<u8>
    decreases s.len() - k,
{
    if k < 0 || k >= s.len() {
        Seq::empty()
    } else {
        field_spec(vstd::utf8::encode_utf8(s[k].0@)) + field_spec(zstd_encoded(s[k].1@)->Ok_0) + written_tail(s, k + 1)
    }
}

proof fn lemma_tail_reads_back(s: Seq<(String, Vec<u8>)>, k: int)
    requires
        0 <= k <= s.len(),
        sections_round_trip(s),
    ensures
        sections_from(written_tail(s, k)) == Ok::<Seq<(Seq<char>, Seq<u8>)>, Seq<char>>(section_views(s).skip(k)),
    decreases s.len() - k,
{
    broadcast use vstd::utf8::encode_utf8_valid_utf8, vstd::utf8::encode_utf8_decode_utf8;
    if k == s.len() {
        assert(section_views(s).skip(k) =~= Seq::<(Seq<char>, Seq<u8>)>::empty());
    } else {
        lemma_tail_reads_back(s, k + 1);
        let nm = vstd::utf8::encode_utf8(s[k].0@);
        assert(vstd::utf8::encode_utf8(s[k].0@).len() <= u32::MAX);
        let pk = zstd_encoded(s[k].1@)->Ok_0;
        let rest = written_tail(s, k + 1);
        let tail = field_spec(pk) + rest;
        let all = field_spec(nm) + field_spec(pk) + rest;
        assert(written_tail(s, k) == all);
        assert(all =~= field_spec(nm) + tail);
        crate::snapshot::law_field_reads_back(nm, tail);
        lemma_take_field(all);
        crate::snapshot::law_field_reads_back(pk, rest);
        lemma_take_field(tail);
        assert(section_views(s).skip(k) =~= seq![(s[k].0@, s[k].1@)] + section_views(s).skip(k + 1));
    }
}

proof fn lemma_written_prefix(s: Seq<(String, Vec<u8>)>, k: int)
    requires
        0 <= k <= s.len(),
        sections_round_trip(s),
    ensures
        sections_written(s, k) matches Ok(sb) && sb + written_tail(s, k) == written_tail(s, 0),
    decreases k,
{
    if k == 0 {
        assert(Seq::<u8>::empty() + written_tail(s, 0) =~= written_tail(s, 0));
    } else {
        lemma_written_prefix(s, k - 1);
        let sb = sections_written(s, k - 1)->Ok_0;
        let w = field_spec(vstd::utf8::encode_utf8(s[k - 1].0@)) + field_spec(zstd_encoded(s[k - 1].1@)->Ok_0);
        assert(written_tail(s, k - 1) == w + written_tail(s, k));
        assert(sb + w + written_tail(s, k) =~= sb + (w + written_tail(s, k)));
    }
}

/// A snapshot frame written and read back gives the header and the
/// sections, by name and bytes in order, when every section's bytes
/// decompress to what they were compressed from and each field's length
/// fits its four bytes.
pub proof fn law_frame_reads_back(header: Seq<u8>, sections: Seq<(String, Vec<u8>)>)
    requires
        header.len() <= u32::MAX,
        sections_round_trip(sections),
    ensures
        sections_written(sections, sections.len() as int) matches Ok(sb)
            && frame_spec(snap_magic_spec() + field_spec(header) + sb)
                == Ok::<(Seq<u8>, Seq<(Seq<char>, Seq<u8>)>), Seq<char>>((header, section_views(sections))),
{
    let n = sections.len() as int;
    lemma_written_prefix(sections, n);
    lemma_tail_reads_back(sections, 0);
    let sb = sections_written(sections, n)->Ok_0;
    assert(written_tail(sections, n) =~= Seq::<u8>::empty());
    assert(sb + Seq::<u8>::empty() =~= sb);
    let bytes = snap_magic_spec() + field_spec(header) + sb;
    assert(bytes.take(8) =~= snap_magic_spec());
    let rest = bytes.skip(8);
    assert(rest =~= field_spec(header) + sb);
    crate::snapshot::law_field_reads_back(header, sb);
    lemma_take_field(rest);
    assert(section_views(sections).skip(0) =~= section_views(sections));
}

} // verus!
