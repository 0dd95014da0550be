//! The save file: the log is the save, snapshots are a cache, and an epoch
//! starts when the code changes.
//!
//! The file only grows. It is a run of chunks, each `kind, length, payload,
//! checksum`; a crash can only cut the last one, and reading stops at the
//! first chunk that doesn't check out.
use vstd::prelude::*;
use vstd::bytes::*;
use crate::snapshot::{hash_bytes, hash_bytes_spec};

verus! {

/// The first bytes of every save: "rimsave1".
pub const MAGIC: [u8; 8] = [114u8, 105u8, 109u8, 115u8, 97u8, 118u8, 101u8, 49u8];

pub const EPOCH: u8 = 1;
pub const SECTION: u8 = 2;
pub const SNAPSHOT: u8 = 3;
pub const LOG: u8 = 4;

/// Bytes a chunk adds around its payload: kind, length and checksum.
pub const FRAME: usize = 13;

/// "rimsave1" as a byte string.
pub open spec fn magic_spec() -> Seq<u8> {
    seq![114u8, 105u8, 109u8, 115u8, 97u8, 118u8, 101u8, 49u8]
}

/// A chunk's checksum: the kind's hash against the payload's.
pub open spec fn check_spec(kind: u8, payload: Seq<u8>) -> u64 {
    hash_bytes_spec(seq![kind]) ^ hash_bytes_spec(payload)
}

/// One chunk as written: kind, payload length (little-endian, 32 bits),
/// payload, checksum (little-endian, 64 bits).
pub open spec fn chunk_spec(kind: u8, payload: Seq<u8>) -> Seq<u8> {
    seq![kind] + spec_u32_to_le_bytes(payload.len() as u32) + payload + spec_u64_to_le_bytes(
        check_spec(kind, payload),
    )
}

/// The whole chunks at the start of `rest`, read until one doesn't check
/// out, and how many bytes they cover.
pub open spec fn parse_spec(rest: Seq<u8>) -> (Seq<(u8, Seq<u8>)>, nat)
    decreases rest.len(),
{
    if rest.len() < 13 {
        (Seq::empty(), 0)
    } else {
        let kind = rest[0];
        let len = spec_u32_from_le_bytes(rest.subrange(1, 5)) as int;
        if len + 13 > rest.len() {
            (Seq::empty(), 0)
        } else {
            let payload = rest.subrange(5, 5 + len);
            let check = rest.subrange(5 + len, 13 + len);
            if spec_u64_to_le_bytes(check_spec(kind, payload)) != check {
                (Seq::empty(), 0)
            } else {
                let tail = parse_spec(rest.subrange(13 + len, rest.len() as int));
                (seq![(kind, payload)] + tail.0, (13 + len + tail.1) as nat)
            }
        }
    }
}

/// Chunks one after another.
pub open spec fn frames_spec(list: Seq<(u8, Seq<u8>)>) -> Seq<u8>
    decreases list.len(),
{
    if list.len() == 0 {
        Seq::empty()
    } else {
        chunk_spec(list[0].0, list[0].1) + frames_spec(list.drop_first())
    }
}

/// Every payload fits the 32-bit length field.
pub open spec fn payloads_fit(list: Seq<(u8, Seq<u8>)>) -> bool {
    forall|i: int| 0 <= i < list.len() ==> #[trigger] list[i].1.len() <= u32::MAX
}

/// The kinds and payloads of a list of borrowed chunks.
pub open spec fn chunk_views(v: Seq<(u8, &[u8])>) -> Seq<(u8, Seq<u8>)> {
    v.map_values(|c: (u8, &[u8])| (c.0, c.1@))
}

pub fn chunk(kind: u8, payload: &[u8]) -> (out: Vec<u8>)
    requires
        payload@.len() + 13 <= usize::MAX,
    ensures
        out@ == chunk_spec(kind, payload@),
{
    let mut out: Vec<u8> = Vec::with_capacity(payload.len() + 13);
    out.push(kind);
    let lenb = u32_to_le_bytes(payload.len() as u32);
    out.extend_from_slice(lenb.as_slice());
    out.extend_from_slice(payload);
    assert(out@.subrange(0, 1) =~= seq![kind]);
    let check = hash_bytes(&out.as_slice()[0..1]) ^ hash_bytes(payload);
    let checkb = u64_to_le_bytes(check);
    out.extend_from_slice(checkb.as_slice());
    assert(out@ =~= chunk_spec(kind, payload@));
    out
}

/// A chunk followed by anything reads as that chunk, then whatever the rest reads as.
pub proof fn law_chunk_then_rest(kind: u8, payload: Seq<u8>, rest: Seq<u8>)
    requires
        payload.len() <= u32::MAX,
    ensures
        parse_spec(chunk_spec(kind, payload) + rest) == (
            seq![(kind, payload)] + parse_spec(rest).0,
            chunk_spec(kind, payload).len() + parse_spec(rest).1,
        ),
        chunk_spec(kind, payload).len() == payload.len() + 13,
{
    lemma_auto_spec_u32_to_from_le_bytes();
    lemma_auto_spec_u64_to_from_le_bytes();
    let c = chunk_spec(kind, payload);
    let all = c + rest;
    let len = payload.len() as int;
    assert(c.len() == len + 13);
    assert(all.subrange(1, 5) =~= spec_u32_to_le_bytes(len as u32));
    assert((len as u32) as nat == len);
    assert(all.subrange(5, 5 + len) =~= payload);
    assert(all.subrange(5 + len, 13 + len) =~= spec_u64_to_le_bytes(check_spec(kind, payload)));
    assert(all.subrange(13 + len, all.len() as int) =~= rest);
}

/// A chunk cut short by a crash reads as nothing.
pub proof fn law_torn_chunk_reads_nothing(kind: u8, payload: Seq<u8>, cut: int)
    requires
        payload.len() <= u32::MAX,
        0 <= cut < chunk_spec(kind, payload).len(),
    ensures
        parse_spec(chunk_spec(kind, payload).take(cut)) == (Seq::<(u8, Seq<u8>)>::empty(), 0nat),
{
    let c = chunk_spec(kind, payload);
    let t = c.take(cut);
    let len = payload.len() as int;
    assert(spec_u32_to_le_bytes(len as u32).len() == 4
        && spec_u32_from_le_bytes(spec_u32_to_le_bytes(len as u32)) == len as u32) by {
        lemma_auto_spec_u32_to_from_le_bytes();
    }
    assert(spec_u64_to_le_bytes(check_spec(kind, payload)).len() == 8) by {
        lemma_auto_spec_u64_to_from_le_bytes();
    }
    assert(c.len() == len + 13);
    if t.len() >= 13 {
        assert(t.subrange(1, 5) =~= spec_u32_to_le_bytes(len as u32));
        assert((len as u32) as nat == len);
    }
}

/// Whole chunks written one after another, then a chunk cut short (or
/// nothing), read back as exactly the whole chunks: a crash loses at most
/// the chunk it interrupted.
pub proof fn law_frames_read_back(list: Seq<(u8, Seq<u8>)>, kind: u8, payload: Seq<u8>, cut: int)
    requires
        payloads_fit(list),
        payload.len() <= u32::MAX,
        0 <= cut < chunk_spec(kind, payload).len(),
    ensures
        parse_spec(frames_spec(list) + chunk_spec(kind, payload).take(cut)) == (
            list,
            frames_spec(list).len(),
        ),
    decreases list.len(),
{
    let torn = chunk_spec(kind, payload).take(cut);
    if list.len() == 0 {
        assert(frames_spec(list) + torn =~= torn);
        law_torn_chunk_reads_nothing(kind, payload, cut);
        assert(list =~= Seq::<(u8, Seq<u8>)>::empty());
    } else {
        let rest = list.drop_first();
        assert(payloads_fit(rest)) by {
            assert forall|i: int| 0 <= i < rest.len() implies #[trigger] rest[i].1.len()
                <= u32::MAX by {
                assert(rest[i] == list[i + 1]);
            }
        }
        assert(list[0].1.len() <= u32::MAX);
        law_frames_read_back(rest, kind, payload, cut);
        let head = chunk_spec(list[0].0, list[0].1);
        assert(frames_spec(list) + torn =~= head + (frames_spec(rest) + torn));
        law_chunk_then_rest(list[0].0, list[0].1, frames_spec(rest) + torn);
        assert(seq![(list[0].0, list[0].1)] + rest =~= list);
    }
}

/// The whole chunks of a file, and how many bytes they cover.
pub fn chunks(bytes: &[u8]) -> (r: Result<(Vec<(u8, &[u8])>, usize), String>)
    ensures
        bytes@.len() < 8 || bytes@.take(8) != magic_spec() <==> r is Err,
        r matches Ok((found, good)) ==> {
            &&& chunk_views(found@) == parse_spec(bytes@.skip(8)).0
            &&& good == 8 + parse_spec(bytes@.skip(8)).1
        },
{
    let magic = MAGIC;
    if bytes.len() < 8 {
        return Err(String::from_str("not a rim save"));
    }
    let mut k: usize = 0;
    while k < 8
        invariant
            k <= 8,
            bytes@.len() >= 8,
            magic@ == magic_spec(),
            forall|j: int| 0 <= j < k ==> bytes@[j] == magic_spec()[j],
        decreases 8 - k,
    {
        if bytes[k] != magic[k] {
            assert(bytes@.take(8)[k as int] != magic_spec()[k as int]);
            return Err(String::from_str("not a rim save"));
        }
        k += 1;
    }
    assert(bytes@.take(8) =~= magic_spec());
    let ghost all = bytes@.skip(8);
    let mut out: Vec<(u8, &[u8])> = Vec::new();
    let mut pos: usize = 8;
    loop
        invariant
            8 <= pos <= bytes@.len(),
            all == bytes@.skip(8),
            parse_spec(all).0 == chunk_views(out@) + parse_spec(bytes@.skip(pos as int)).0,
            parse_spec(all).1 == (pos - 8) + parse_spec(bytes@.skip(pos as int)).1,
        ensures
            8 <= pos <= bytes@.len(),
            parse_spec(all).0 == chunk_views(out@),
            parse_spec(all).1 == pos - 8,
        decreases bytes@.len() - pos,
    {
        let ghost rest = bytes@.skip(pos as int);
        if bytes.len() - pos < 13 {
            assert(parse_spec(rest).0 =~= Seq::<(u8, Seq<u8>)>::empty());
            assert(chunk_views(out@) + parse_spec(rest).0 =~= chunk_views(out@));
            break;
        }
        let kind = bytes[pos];
        let len_bytes = &bytes[pos + 1..pos + 5];
        assert(len_bytes@ =~= rest.subrange(1, 5));
        let len = u32_from_le_bytes(len_bytes) as usize;
        if len > bytes.len() - pos - 13 {
            assert(parse_spec(rest).0 =~= Seq::<(u8, Seq<u8>)>::empty());
            assert(chunk_views(out@) + parse_spec(rest).0 =~= chunk_views(out@));
            break;
        }
        let payload = &bytes[pos + 5..pos + 5 + len];
        let check = &bytes[pos + 5 + len..pos + 13 + len];
        assert(payload@ =~= rest.subrange(5, 5 + len));
        assert(check@ =~= rest.subrange(5 + len, 13 + len));
        let want = hash_bytes(&bytes[pos..pos + 1]) ^ hash_bytes(payload);
        assert(bytes@.subrange(pos as int, pos + 1) =~= seq![kind]);
        let got = u64_from_le_bytes(check);
        proof {
            assert(check@.len() == 8 ==> spec_u64_to_le_bytes(spec_u64_from_le_bytes(check@)) == check@
                && spec_u64_from_le_bytes(spec_u64_to_le_bytes(want)) == want) by {
                lemma_auto_spec_u64_to_from_le_bytes();
            }
        }
        if got != want {
            assert(spec_u64_to_le_bytes(check_spec(kind, payload@)) != check@);
            assert(chunk_views(out@) + parse_spec(rest).0 =~= chunk_views(out@));
            break;
        }
        assert(spec_u64_to_le_bytes(check_spec(kind, payload@)) == check@);
        let ghost old_out = out@;
        out.push((kind, payload));
        assert(rest.subrange(13 + len, rest.len() as int) =~= bytes@.skip(pos + 13 + len));
        assert(chunk_views(out@) =~= chunk_views(old_out) + seq![(kind, payload@)]);
        assert(chunk_views(old_out) + (seq![(kind, payload@)] + parse_spec(
            bytes@.skip(pos + 13 + len),
        ).0) =~= chunk_views(out@) + parse_spec(bytes@.skip(pos + 13 + len)).0);
        pos = pos + 13 + len;
    }
    Ok((out, pos))
}

/// Where an epoch starts. Every epoch also writes a snapshot at its start,
/// so a load never regenerates the map; the seed is for replays.
#[derive(Clone, Debug, PartialEq, Eq, Structural)]
pub enum Root {
    /// A new game: built with this seed and map size.
    Seed { seed: u64, size: i32 },
    /// The state the previous epoch had reached, loaded under new code.
    Snapshot,
}

/// What an epoch was played with.
#[derive(Clone, Debug, PartialEq)]
pub struct Epoch {
    /// Every mod's (id, version), in load order.
    pub mods: Vec<(String, String)>,
    pub engine: String,
    pub root: Root,
}

/// What loading found and did.
#[derive(Clone, Debug, Default, PartialEq)]
pub struct LoadReport {
    /// The tick the game resumes at.
    pub tick: u64,
    /// The tick of the snapshot the load started from.
    pub from_snapshot: u64,
    /// Ticks replayed from the log.
    pub replayed: u64,
    /// Why a new epoch began, if one did.
    pub new_epoch: Option<String>,
    /// The log's hash disagreed here; the game resumes before it.
    pub diverged_at: Option<u64>,
    /// Ticks of log that couldn't be replayed because the code changed.
    pub lost: u64,
    /// What a change of mods took out of the world: "dropped 3 × boars:boar".
    pub dropped: Vec<String>,
    /// Bytes at the end of the file that didn't make a whole chunk.
    pub cut: u64,
    /// Where the file was copied before a damaged tail was cut off.
    pub damaged_copy: Option<std::path::PathBuf>,
}

} // verus!
