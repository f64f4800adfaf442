//! The storage engine: segments, index, and the public operations.
//!
//! A segment is an in-memory character buffer holding a record stream; the
//! caller persists those buffers and hands them back on the next `open`. The
//! index maps each live key to the exact range of its most recent `Set`
//! record in some segment. The engine's well-formedness invariant ties the
//! two together: every index entry decodes to a `Set` record carrying that
//! key's current value, and replaying every segment in order yields exactly
//! the abstract map the store represents.

use vstd::prelude::*;

use crate::codec::Cmd;
use crate::codec::Command;
use crate::codec::concat_encs;
use crate::codec::decode_record;
use crate::codec::enc;
use crate::codec::encode_record;
use crate::codec::lemma_concat_encs_push;
use crate::codec::lemma_parse_record_enc;
use crate::codec::lemma_parse_record_sound;
use crate::codec::lemma_parse_stream_encs;
use crate::codec::parse_stream_at;
use crate::codec::replay;

verus! {

/// Errors surfaced by the engine.
#[derive(Debug, PartialEq, Eq, Structural)]
pub enum KvError {
    /// An underlying file or directory operation failed. The verified engine
    /// never produces this; it is reserved for the I/O layer around it.
    Io,
    /// A record could not be decoded.
    Serde,
    /// `remove` was called on a key that is not in the index.
    KeyNotFound,
    /// The index resolved to a record that is not a `Set`: store corruption.
    UnexpectedCommandType,
}

pub type Result<T> = core::result::Result<T, KvError>;

/// Compaction runs inside `set` once this many dead bytes have accumulated.
pub const COMPACTION_THRESHOLD: u64 = 1024 * 1024;

/// Where one key's most recent `Set` record lies: segment, start, length.
struct CommandPos {
    file_id: u64,
    pos: u64,
    len: u64,
}

/// One log segment: its id, its contents, and (for the proofs) the command
/// history those contents encode.
struct Segment {
    id: u64,
    data: Vec<char>,
    cmds: Ghost<Seq<Cmd>>,
}

/// The storage engine.
pub struct KvStore {
    current_id: u64,
    index: Vec<(String, CommandPos)>,
    segments: Vec<Segment>,
    uncompacted: u64,
    model: Ghost<Map<Seq<char>, Seq<char>>>,
}

// ---------------------------------------------------------------------------
// Spec-level views of the engine state.
// ---------------------------------------------------------------------------

spec fn ids_of(segs: Seq<Segment>) -> Seq<u64> {
    segs.map_values(|s: Segment| s.id)
}

spec fn datas_of(segs: Seq<Segment>) -> Seq<Seq<char>> {
    segs.map_values(|s: Segment| s.data@)
}

/// All commands recorded across the given segments, in order.
spec fn all_cmds(segs: Seq<Segment>) -> Seq<Cmd>
    decreases segs.len(),
{
    if segs.len() == 0 {
        Seq::empty()
    } else {
        all_cmds(segs.drop_last()) + segs.last().cmds@
    }
}

/// Parse every segment of a store handed in as `(id, contents)` pairs; the
/// combined command history, or `None` if any segment fails to parse.
pub open spec fn parse_segs(segs: Seq<(u64, Seq<char>)>) -> Option<Seq<Cmd>>
    decreases segs.len(),
{
    if segs.len() == 0 {
        Some(Seq::empty())
    } else {
        match (parse_segs(segs.drop_last()), parse_stream_at(segs.last().1, 0)) {
            (Some(a), Some(b)) => Some(a + b),
            _ => None,
        }
    }
}

/// The view of `open`'s input.
pub open spec fn seg_views(s: Seq<(u64, Vec<char>)>) -> Seq<(u64, Seq<char>)> {
    s.map_values(|p: (u64, Vec<char>)| (p.0, p.1@))
}

/// `x` clamped to the `u64` range from above.
pub open spec fn clamp_u64(x: int) -> int {
    if x > u64::MAX { u64::MAX as int } else { x }
}

/// One index entry is backed by a `Set` record for its key's current value,
/// within the segment data given alongside the segment ids.
spec fn entry_ok_plain(
    ids: Seq<u64>,
    datas: Seq<Seq<char>>,
    model: Map<Seq<char>, Seq<char>>,
    e: (String, CommandPos),
) -> bool {
    exists|si: int|
        {
            &&& 0 <= si < ids.len()
            &&& ids.len() == datas.len()
            &&& (#[trigger] ids[si]) == e.1.file_id
            &&& e.1.pos + e.1.len <= datas[si].len()
            &&& datas[si].subrange(e.1.pos as int, e.1.pos + e.1.len) == enc(
                Cmd::Put { key: e.0@, value: model[e.0@] },
            )
        }
}

impl Segment {
    /// The contents are exactly the encodings of the recorded commands.
    spec fn inv(&self) -> bool {
        self.data@ == concat_encs(self.cmds@)
    }
}

impl View for KvStore {
    type V = Map<Seq<char>, Seq<char>>;

    /// The abstract state: the map from live keys to their values.
    closed spec fn view(&self) -> Map<Seq<char>, Seq<char>> {
        self.model@
    }
}

impl KvStore {
    /// The id of the active segment, the largest ever allocated.
    pub closed spec fn spec_current_id(&self) -> u64 {
        self.current_id
    }

    /// The segments as `(id, contents)` pairs, oldest first.
    pub closed spec fn spec_segments(&self) -> Seq<(u64, Seq<char>)> {
        self.segments@.map_values(|s: Segment| (s.id, s.data@))
    }

    /// Total length of all segment contents, counted in characters (one
    /// per on-disk byte for ASCII content).
    pub closed spec fn total_bytes(&self) -> int {
        seg_bytes(self.segments@)
    }

    /// Total length of the live records the index points at, counted in
    /// characters.
    pub closed spec fn live_bytes(&self) -> int {
        idx_bytes(self.index@)
    }

    /// Dead weight: characters the segments hold beyond the live records.
    pub open spec fn dead_bytes(&self) -> int {
        self.total_bytes() - self.live_bytes()
    }

    spec fn entry_ok(&self, e: (String, CommandPos)) -> bool {
        entry_ok_plain(ids_of(self.segments@), datas_of(self.segments@), self.model@, e)
    }

    /// Well-formedness: what every public operation preserves.
    pub closed spec fn wf(&self) -> bool {
        &&& self.segments@.len() >= 1
        &&& (forall|a: int, b: int|
            0 <= a < b < self.segments@.len() ==> (#[trigger] self.segments@[a]).id < (
            #[trigger] self.segments@[b]).id)
        &&& self.segments@.last().id == self.current_id
        &&& (forall|a: int| 0 <= a < self.segments@.len() ==> (#[trigger] self.segments@[a]).inv())
        &&& replay(all_cmds(self.segments@)) == self.model@
        &&& (forall|a: int, b: int|
            0 <= a < b < self.index@.len() ==> (#[trigger] self.index@[a]).0@ != (
            #[trigger] self.index@[b]).0@)
        &&& (forall|a: int|
            0 <= a < self.index@.len() ==> self.model@.contains_key(
                (#[trigger] self.index@[a]).0@,
            ))
        &&& (forall|k: Seq<char>|
            #[trigger] self.model@.contains_key(k) ==> exists|a: int|
                0 <= a < self.index@.len() && (#[trigger] self.index@[a]).0@ == k)
        &&& (forall|a: int| 0 <= a < self.index@.len() ==> self.entry_ok(#[trigger] self.index@[a]))
        &&& self.uncompacted as int == clamp_u64(
            seg_bytes(self.segments@) - idx_bytes(self.index@),
        )
    }

    /// The live records never exceed what the segments hold.
    pub proof fn lemma_live_within_total(&self)
        requires
            self.wf(),
        ensures
            0 <= self.live_bytes() <= self.total_bytes(),
    {
        lemma_idx_bytes_nonneg(self.index@);
    }
}

proof fn lemma_idx_bytes_nonneg(ix: Seq<(String, CommandPos)>)
    ensures
        idx_bytes(ix) >= 0,
    decreases ix.len(),
{
    if ix.len() > 0 {
        lemma_idx_bytes_nonneg(ix.drop_last());
    }
}

/// Replacing one entry shifts the sum by the difference of the lengths.
proof fn lemma_idx_bytes_update(s: Seq<(String, CommandPos)>, i: int, v: (String, CommandPos))
    requires
        0 <= i < s.len(),
    ensures
        idx_bytes(s.update(i, v)) == idx_bytes(s) - s[i].1.len + v.1.len,
    decreases s.len(),
{
    if i == s.len() - 1 {
        assert(s.update(i, v).drop_last() =~= s.drop_last());
        assert(s.update(i, v).last() == v);
    } else {
        lemma_idx_bytes_update(s.drop_last(), i, v);
        assert(s.update(i, v).drop_last() =~= s.drop_last().update(i, v));
        assert(s.update(i, v).last() == s.last());
    }
}

spec fn seg_bytes(segs: Seq<Segment>) -> int
    decreases segs.len(),
{
    if segs.len() == 0 {
        0
    } else {
        seg_bytes(segs.drop_last()) + segs.last().data@.len()
    }
}

spec fn idx_bytes(ix: Seq<(String, CommandPos)>) -> int
    decreases ix.len(),
{
    if ix.len() == 0 {
        0
    } else {
        idx_bytes(ix.drop_last()) + ix.last().1.len
    }
}

// ---------------------------------------------------------------------------
// Small executable helpers.
// ---------------------------------------------------------------------------

/// Position of `key` in the index, if present.
fn find_key(index: &Vec<(String, CommandPos)>, key: &String) -> (r: Option<usize>)
    ensures
        match r {
            Some(i) => i < index@.len() && index@[i as int].0@ == key@,
            None => forall|a: int| 0 <= a < index@.len() ==> (#[trigger] index@[a]).0@ != key@,
        },
{
    let mut i: usize = 0;
    while i < index.len()
        invariant
            i <= index@.len(),
            forall|a: int| 0 <= a < i ==> (#[trigger] index@[a]).0@ != key@,
        decreases index@.len() - i,
    {
        if index[i].0 == *key {
            return Some(i);
        }
        i = i + 1;
    }
    None
}

/// Position of the segment with the given id, if present.
fn find_segment(segs: &Vec<Segment>, id: u64) -> (r: Option<usize>)
    ensures
        match r {
            Some(j) => j < segs@.len() && segs@[j as int].id == id,
            None => forall|a: int| 0 <= a < segs@.len() ==> (#[trigger] segs@[a]).id != id,
        },
{
    let mut j: usize = 0;
    while j < segs.len()
        invariant
            j <= segs@.len(),
            forall|a: int| 0 <= a < j ==> (#[trigger] segs@[a]).id != id,
        decreases segs@.len() - j,
    {
        if segs[j].id == id {
            return Some(j);
        }
        j = j + 1;
    }
    None
}

/// Copy `src[from..to]` into a fresh vector.
fn copy_range(src: &Vec<char>, from: usize, to: usize) -> (r: Vec<char>)
    requires
        from <= to <= src@.len(),
    ensures
        r@ == src@.subrange(from as int, to as int),
{
    let mut out: Vec<char> = Vec::new();
    proof {
        assert(src@.subrange(from as int, from as int) =~= Seq::<char>::empty());
    }
    let mut i: usize = from;
    while i < to
        invariant
            from <= i <= to <= src@.len(),
            out@ == src@.subrange(from as int, i as int),
        decreases to - i,
    {
        out.push(src[i]);
        proof {
            assert(src@.subrange(from as int, i + 1) =~= src@.subrange(
                from as int,
                i as int,
            ).push(src@[i as int]));
        }
        i = i + 1;
    }
    out
}

/// Saturating addition: the dead-byte counter never wraps.
fn sat_add(a: u64, b: u64) -> (r: u64)
    ensures
        r == if a + b > u64::MAX { u64::MAX as int } else { a + b },
{
    if u64::MAX - a < b {
        u64::MAX
    } else {
        a + b
    }
}


/// Replace or add the index entry for `key`; returns the superseded
/// record's length, if any. The new entry sits at the end.
fn index_put(index: &mut Vec<(String, CommandPos)>, key: String, cp: CommandPos) -> (r: Option<
    u64,
>)
    requires
        forall|a: int, b: int|
            0 <= a < b < old(index)@.len() ==> (#[trigger] old(index)@[a]).0@ != (
            #[trigger] old(index)@[b]).0@,
    ensures
        forall|a: int, b: int|
            0 <= a < b < final(index)@.len() ==> (#[trigger] final(index)@[a]).0@ != (
            #[trigger] final(index)@[b]).0@,
        final(index)@.len() >= 1,
        final(index)@.last().0@ == key@,
        final(index)@.last().1 == cp,
        forall|a: int|
            0 <= a < final(index)@.len() - 1 ==> (#[trigger] final(index)@[a]).0@ != key@
                && exists|b: int| 0 <= b < old(index)@.len() && old(index)@[b] == final(index)@[a],
        forall|b: int|
            0 <= b < old(index)@.len() && (#[trigger] old(index)@[b]).0@ != key@ ==> exists|a: int|
                0 <= a < final(index)@.len() - 1 && final(index)@[a] == old(index)@[b],
        match r {
            Some(l) => exists|b: int|
                0 <= b < old(index)@.len() && (#[trigger] old(index)@[b]).0@ == key@ && old(
                    index,
                )@[b].1.len == l,
            None => forall|b: int|
                0 <= b < old(index)@.len() ==> (#[trigger] old(index)@[b]).0@ != key@,
        },
        idx_bytes(final(index)@) == idx_bytes(old(index)@) + cp.len - (match r {
            Some(l) => l as int,
            None => 0,
        }),
{
    let ghost prev = index@;
    let ghost kv = key@;
    let ghost cplen = cp.len;
    match find_key(index, &key) {
        Some(i) => {
            let old_len = index[i].1.len;
            let _ = index.swap_remove(i);
            proof {
                assert forall|a: int| 0 <= a < index@.len() implies (#[trigger] index@[a])
                    == if a == i as int { prev[prev.len() - 1] } else { prev[a] } by {}
            }
            index.push((key, cp));
            proof {
                assert forall|b: int|
                    0 <= b < prev.len() && (#[trigger] prev[b]).0@ != kv implies exists|a: int|
                        0 <= a < index@.len() - 1 && index@[a] == prev[b] by {
                    if b == prev.len() - 1 {
                        assert(i as int != b);
                        assert(index@[i as int] == prev[b]);
                    } else {
                        assert(b != i as int);
                        assert(index@[b] == prev[b]);
                    }
                }
                assert forall|a: int| 0 <= a < index@.len() - 1 implies (#[trigger] index@[a]).0@
                    != kv && exists|b: int| 0 <= b < prev.len() && prev[b] == index@[a] by {
                    if a == i as int {
                        assert(index@[a] == prev[prev.len() - 1]);
                        assert((i as int) < prev.len() - 1);
                        assert(prev[i as int].0@ == kv);
                        assert(prev[prev.len() - 1].0@ != kv);
                    } else {
                        assert(index@[a] == prev[a]);
                        assert(prev[a].0@ != prev[i as int].0@);
                    }
                }
                let s1 = prev.update(i as int, prev[prev.len() - 1]);
                lemma_idx_bytes_update(prev, i as int, prev[prev.len() - 1]);
                assert(s1.last() == prev[prev.len() - 1]);
                assert(idx_bytes(s1) == idx_bytes(s1.drop_last()) + s1.last().1.len);
                assert(index@.drop_last() =~= s1.drop_last());
                assert(idx_bytes(index@) == idx_bytes(index@.drop_last()) + cplen);
            }
            Some(old_len)
        }
        None => {
            index.push((key, cp));
            proof {
                assert forall|b: int|
                    0 <= b < prev.len() && (#[trigger] prev[b]).0@ != kv implies exists|a: int|
                        0 <= a < index@.len() - 1 && index@[a] == prev[b] by {
                    assert(index@[b] == prev[b]);
                }
                assert forall|a: int| 0 <= a < index@.len() - 1 implies (#[trigger] index@[a]).0@
                    != kv && exists|b: int| 0 <= b < prev.len() && prev[b] == index@[a] by {
                    assert(index@[a] == prev[a]);
                }
                assert(index@.drop_last() =~= prev);
                assert(idx_bytes(index@) == idx_bytes(prev) + cplen);
            }
            None
        }
    }
}

/// Drop the index entry for `key`, if any; returns its record length.
fn index_remove(index: &mut Vec<(String, CommandPos)>, key: &String) -> (r: Option<u64>)
    requires
        forall|a: int, b: int|
            0 <= a < b < old(index)@.len() ==> (#[trigger] old(index)@[a]).0@ != (
            #[trigger] old(index)@[b]).0@,
    ensures
        forall|a: int, b: int|
            0 <= a < b < final(index)@.len() ==> (#[trigger] final(index)@[a]).0@ != (
            #[trigger] final(index)@[b]).0@,
        forall|a: int|
            0 <= a < final(index)@.len() ==> (#[trigger] final(index)@[a]).0@ != key@
                && exists|b: int| 0 <= b < old(index)@.len() && old(index)@[b] == final(index)@[a],
        forall|b: int|
            0 <= b < old(index)@.len() && (#[trigger] old(index)@[b]).0@ != key@ ==> exists|a: int|
                0 <= a < final(index)@.len() && final(index)@[a] == old(index)@[b],
        match r {
            Some(l) => exists|b: int|
                0 <= b < old(index)@.len() && (#[trigger] old(index)@[b]).0@ == key@ && old(
                    index,
                )@[b].1.len == l,
            None => forall|b: int|
                0 <= b < old(index)@.len() ==> (#[trigger] old(index)@[b]).0@ != key@,
        },
        idx_bytes(final(index)@) == idx_bytes(old(index)@) - (match r {
            Some(l) => l as int,
            None => 0,
        }),
{
    let ghost prev = index@;
    match find_key(index, key) {
        Some(i) => {
            let old_len = index[i].1.len;
            let _ = index.swap_remove(i);
            proof {
                assert forall|a: int| 0 <= a < index@.len() implies (#[trigger] index@[a])
                    == if a == i as int { prev[prev.len() - 1] } else { prev[a] } by {}
                assert forall|b: int|
                    0 <= b < prev.len() && (#[trigger] prev[b]).0@ != key@ implies exists|a: int|
                        0 <= a < index@.len() && index@[a] == prev[b] by {
                    if b == prev.len() - 1 {
                        assert(i as int != b);
                        assert(index@[i as int] == prev[b]);
                    } else {
                        assert(b != i as int);
                        assert(index@[b] == prev[b]);
                    }
                }
                assert forall|a: int| 0 <= a < index@.len() implies (#[trigger] index@[a]).0@
                    != key@ && exists|b: int| 0 <= b < prev.len() && prev[b] == index@[a] by {
                    if a == i as int {
                        assert(index@[a] == prev[prev.len() - 1]);
                        assert((i as int) < prev.len() - 1);
                        assert(prev[i as int].0@ == key@);
                        assert(prev[prev.len() - 1].0@ != key@);
                    } else {
                        assert(index@[a] == prev[a]);
                        assert(prev[a].0@ != prev[i as int].0@);
                    }
                }
                let s1 = prev.update(i as int, prev[prev.len() - 1]);
                lemma_idx_bytes_update(prev, i as int, prev[prev.len() - 1]);
                assert(s1.last() == prev[prev.len() - 1]);
                assert(idx_bytes(s1) == idx_bytes(s1.drop_last()) + s1.last().1.len);
                assert(index@ =~= s1.drop_last());
            }
            Some(old_len)
        }
        None => None,
    }
}

// ---------------------------------------------------------------------------
// Proof helpers for the engine invariant.
// ---------------------------------------------------------------------------

/// Replaying one more command applies it to the replayed map.
proof fn lemma_replay_push(h: Seq<Cmd>, c: Cmd)
    ensures
        replay(h.push(c)) == match c {
            Cmd::Put { key, value } => replay(h).insert(key, value),
            Cmd::Remove { key } => replay(h).remove(key),
        },
{
    assert(h.push(c).drop_last() =~= h);
    assert(h.push(c).last() == c);
}

/// An entry backed by one of the listed segments stays backed when another
/// segment is appended.
proof fn lemma_entry_ok_push(
    ids: Seq<u64>,
    datas: Seq<Seq<char>>,
    m: Map<Seq<char>, Seq<char>>,
    x: u64,
    d: Seq<char>,
    e: (String, CommandPos),
)
    requires
        entry_ok_plain(ids, datas, m, e),
    ensures
        entry_ok_plain(ids.push(x), datas.push(d), m, e),
{
    let si = choose|si: int|
        {
            &&& 0 <= si < ids.len()
            &&& ids.len() == datas.len()
            &&& (#[trigger] ids[si]) == e.1.file_id
            &&& e.1.pos + e.1.len <= datas[si].len()
            &&& datas[si].subrange(e.1.pos as int, e.1.pos + e.1.len) == enc(
                Cmd::Put { key: e.0@, value: m[e.0@] },
            )
        };
    assert(ids.push(x)[si] == ids[si]);
    assert(datas.push(d)[si] == datas[si]);
}

/// An entry backed by a growing segment stays backed as that segment grows.
proof fn lemma_entry_ok_grow(
    ids: Seq<u64>,
    datas: Seq<Seq<char>>,
    m: Map<Seq<char>, Seq<char>>,
    x: u64,
    d1: Seq<char>,
    d2: Seq<char>,
    e: (String, CommandPos),
)
    requires
        entry_ok_plain(ids.push(x), datas.push(d1), m, e),
        d1.len() <= d2.len(),
        d2.subrange(0, d1.len() as int) == d1,
    ensures
        entry_ok_plain(ids.push(x), datas.push(d2), m, e),
{
    let ids2 = ids.push(x);
    let da1 = datas.push(d1);
    let si = choose|si: int|
        {
            &&& 0 <= si < ids2.len()
            &&& ids2.len() == da1.len()
            &&& (#[trigger] ids2[si]) == e.1.file_id
            &&& e.1.pos + e.1.len <= da1[si].len()
            &&& da1[si].subrange(e.1.pos as int, e.1.pos + e.1.len) == enc(
                Cmd::Put { key: e.0@, value: m[e.0@] },
            )
        };
    if si < ids.len() {
        assert(datas.push(d2)[si] == datas[si]);
    } else {
        assert(da1[si] == d1);
        assert(datas.push(d2)[si] == d2);
        assert(d2.subrange(e.1.pos as int, e.1.pos + e.1.len) =~= d1.subrange(
            e.1.pos as int,
            e.1.pos + e.1.len,
        )) by {
            assert forall|n: int| 0 <= n < e.1.len implies #[trigger] d2.subrange(
                e.1.pos as int,
                e.1.pos + e.1.len,
            )[n] == d1.subrange(e.1.pos as int, e.1.pos + e.1.len)[n] by {
                assert(d2.subrange(0, d1.len() as int)[e.1.pos + n] == d2[e.1.pos + n]);
            }
        }
    }
}

/// An entry whose key keeps its value stays backed when the map changes
/// elsewhere.
proof fn lemma_entry_ok_same_value(
    ids: Seq<u64>,
    datas: Seq<Seq<char>>,
    m1: Map<Seq<char>, Seq<char>>,
    m2: Map<Seq<char>, Seq<char>>,
    e: (String, CommandPos),
)
    requires
        entry_ok_plain(ids, datas, m1, e),
        m2.contains_key(e.0@),
        m1.contains_key(e.0@),
        m2[e.0@] == m1[e.0@],
    ensures
        entry_ok_plain(ids, datas, m2, e),
{
    let si = choose|si: int|
        {
            &&& 0 <= si < ids.len()
            &&& ids.len() == datas.len()
            &&& (#[trigger] ids[si]) == e.1.file_id
            &&& e.1.pos + e.1.len <= datas[si].len()
            &&& datas[si].subrange(e.1.pos as int, e.1.pos + e.1.len) == enc(
                Cmd::Put { key: e.0@, value: m1[e.0@] },
            )
        };
    assert(ids[si] == e.1.file_id);
}

/// If one segment fails to parse, the whole store fails to parse.
proof fn lemma_parse_segs_fail(v: Seq<(u64, Seq<char>)>, i: int)
    requires
        0 <= i < v.len(),
        parse_stream_at(v[i].1, 0) is None,
    ensures
        parse_segs(v) is None,
    decreases v.len(),
{
    if v.len() > 0 && i < v.len() - 1 {
        lemma_parse_segs_fail(v.drop_last(), i);
    }
}

// ---------------------------------------------------------------------------
// Opening a store: recovery.
// ---------------------------------------------------------------------------

impl KvStore {
    /// Open a store from its segments, handed in as `(id, contents)` pairs
    /// with strictly increasing ids, oldest first. Replays every record into
    /// a fresh index and allocates a new empty active segment.
    #[verifier::rlimit(100)]
    pub fn open(segments: Vec<(u64, Vec<char>)>) -> (r: Result<KvStore>)
        requires
            forall|a: int, b: int|
                0 <= a < b < segments@.len() ==> (#[trigger] segments@[a]).0 < (
                #[trigger] segments@[b]).0,
            segments@.len() > 0 ==> segments@[segments@.len() - 1].0 < u64::MAX,
        ensures
            match r {
                Ok(st) => {
                    &&& st.wf()
                    &&& parse_segs(seg_views(segments@)) is Some
                    &&& st@ == replay(parse_segs(seg_views(segments@)).unwrap())
                    &&& st.spec_current_id() == if segments@.len() == 0 {
                        1u64
                    } else {
                        (segments@[segments@.len() - 1].0 + 1) as u64
                    }
                    &&& st.spec_segments() == seg_views(segments@).push(
                        (st.spec_current_id(), Seq::<char>::empty()),
                    )
                    &&& forall|a: int|
                        0 <= a < segments@.len() ==> (#[trigger] segments@[a]).0
                            < st.spec_current_id()
                },
                Err(e) => e == KvError::Serde && parse_segs(seg_views(segments@)) is None,
            },
    {
        let mut index: Vec<(String, CommandPos)> = Vec::new();
        let mut segs: Vec<Segment> = Vec::new();
        let mut uncompacted: u64 = 0;
        let ghost mut model: Map<Seq<char>, Seq<char>> = Map::empty();
        let mut si: usize = 0;

        proof {
            assert(seg_views(segments@).subrange(0, 0) =~= Seq::<(u64, Seq<char>)>::empty());
            assert(all_cmds(segs@) =~= Seq::<Cmd>::empty());
            assert(seg_bytes(segs@) == 0);
            assert(idx_bytes(index@) == 0);
        }

        while si < segments.len()
            invariant
                si <= segments@.len(),
                forall|a: int, b: int|
                    0 <= a < b < segments@.len() ==> (#[trigger] segments@[a]).0 < (
                    #[trigger] segments@[b]).0,
                segs@.len() == si as int,
                forall|a: int| 0 <= a < si ==> (#[trigger] segs@[a]).id == segments@[a].0,
                forall|a: int| 0 <= a < si ==> (#[trigger] segs@[a]).data@ == segments@[a].1@,
                forall|a: int| 0 <= a < si ==> (#[trigger] segs@[a]).inv(),
                parse_segs(seg_views(segments@).subrange(0, si as int)) == Some(all_cmds(segs@)),
                replay(all_cmds(segs@)) == model,
                forall|a: int, b: int|
                    0 <= a < b < index@.len() ==> (#[trigger] index@[a]).0@ != (
                    #[trigger] index@[b]).0@,
                forall|a: int|
                    0 <= a < index@.len() ==> model.contains_key((#[trigger] index@[a]).0@),
                forall|k: Seq<char>|
                    #[trigger] model.contains_key(k) ==> exists|a: int|
                        0 <= a < index@.len() && (#[trigger] index@[a]).0@ == k,
                forall|a: int|
                    0 <= a < index@.len() ==> entry_ok_plain(
                        ids_of(segs@),
                        datas_of(segs@),
                        model,
                        #[trigger] index@[a],
                    ),
                uncompacted as int == clamp_u64(seg_bytes(segs@) - idx_bytes(index@)),
            decreases segments@.len() - si,
        {
            let id = segments[si].0;
            let n = segments[si].1.len();
            let data = copy_range(&segments[si].1, 0, n);
            proof {
                assert(data@ =~= segments@[si as int].1@);
            }
            let ghost segs_prev = segs@;
            let ghost mut cmds: Seq<Cmd> = Seq::empty();
            let mut pos: usize = 0;
            proof {
                assert(data@.subrange(0, 0) =~= Seq::<char>::empty());
                assert(concat_encs(Seq::<Cmd>::empty()) =~= Seq::<char>::empty());
                match parse_stream_at(data@, 0) {
                    Some(rest) => {
                        assert(Seq::<Cmd>::empty() + rest =~= rest);
                    }
                    None => {}
                }
                assert(all_cmds(segs@) + Seq::<Cmd>::empty() =~= all_cmds(segs@));
                assert forall|a: int| 0 <= a < index@.len() implies entry_ok_plain(
                    ids_of(segs@).push(id),
                    datas_of(segs@).push(data@.subrange(0, 0)),
                    model,
                    #[trigger] index@[a],
                ) by {
                    lemma_entry_ok_push(
                        ids_of(segs@),
                        datas_of(segs@),
                        model,
                        id,
                        data@.subrange(0, 0),
                        index@[a],
                    );
                }
            }
            while pos < data.len()
                invariant
                    pos <= data@.len(),
                    segs@ == segs_prev,
                    si < segments@.len(),
                    data@ == segments@[si as int].1@,
                    data@.subrange(0, pos as int) == concat_encs(cmds),
                    match parse_stream_at(data@, pos as int) {
                        Some(rest) => parse_stream_at(data@, 0) == Some(cmds + rest),
                        None => parse_stream_at(data@, 0) is None,
                    },
                    replay(all_cmds(segs@) + cmds) == model,
                    forall|a: int, b: int|
                        0 <= a < b < index@.len() ==> (#[trigger] index@[a]).0@ != (
                        #[trigger] index@[b]).0@,
                    forall|a: int|
                        0 <= a < index@.len() ==> model.contains_key((#[trigger] index@[a]).0@),
                    forall|k: Seq<char>|
                        #[trigger] model.contains_key(k) ==> exists|a: int|
                            0 <= a < index@.len() && (#[trigger] index@[a]).0@ == k,
                    forall|a: int|
                        0 <= a < index@.len() ==> entry_ok_plain(
                            ids_of(segs@).push(id),
                            datas_of(segs@).push(data@.subrange(0, pos as int)),
                            model,
                            #[trigger] index@[a],
                        ),
                    uncompacted as int == clamp_u64(
                        seg_bytes(segs@) + pos - idx_bytes(index@),
                    ),
                decreases data@.len() - pos,
            {
                let ghost prefix = data@.subrange(0, pos as int);
                match decode_record(&data, pos) {
                    None => {
                        proof {
                            assert(parse_stream_at(data@, pos as int) is None);
                            assert(seg_views(segments@)[si as int].1 == data@);
                            lemma_parse_segs_fail(seg_views(segments@), si as int);
                        }
                        return Err(KvError::Serde);
                    }
                    Some((cmd, end)) => {
                        let ghost cv = cmd@;
                        proof {
                            lemma_parse_record_sound(data@, pos as int);
                        }
                        let rec_len = end - pos;
                        let ghost new_prefix = data@.subrange(0, end as int);
                        proof {
                            // the prefix grows by exactly this record's encoding
                            assert(new_prefix.subrange(0, pos as int) =~= prefix);
                            assert(new_prefix =~= prefix + data@.subrange(pos as int, end as int));
                            lemma_concat_encs_push(cmds, cv);
                            assert(prefix + data@.subrange(pos as int, end as int) =~= concat_encs(
                                cmds.push(cv),
                            ));
                            // stream accounting
                            match parse_stream_at(data@, end as int) {
                                Some(rest2) => {
                                    assert(parse_stream_at(data@, pos as int) == Some(
                                        seq![cv] + rest2,
                                    ));
                                    assert(cmds + (seq![cv] + rest2) =~= cmds.push(cv) + rest2);
                                }
                                None => {
                                    assert(parse_stream_at(data@, pos as int) is None);
                                }
                            }
                            // replay accounting
                            lemma_replay_push(all_cmds(segs@) + cmds, cv);
                            assert((all_cmds(segs@) + cmds).push(cv) =~= all_cmds(segs@)
                                + cmds.push(cv));
                            // existing entries survive the growth of the prefix
                            assert forall|a: int| 0 <= a < index@.len() implies entry_ok_plain(
                                ids_of(segs@).push(id),
                                datas_of(segs@).push(new_prefix),
                                model,
                                #[trigger] index@[a],
                            ) by {
                                lemma_entry_ok_grow(
                                    ids_of(segs@),
                                    datas_of(segs@),
                                    model,
                                    id,
                                    prefix,
                                    new_prefix,
                                    index@[a],
                                );
                            }
                        }
                        let ghost ids2 = ids_of(segs@).push(id);
                        let ghost da2 = datas_of(segs@).push(new_prefix);
                        let ghost m_prev = model;
                        let ghost idx_prev = index@;
                        match cmd {
                            Command::Put { key, value } => {
                                let ghost kview = key@;
                                proof {
                                    model = model.insert(key@, value@);
                                }
                                let cp = CommandPos {
                                    file_id: id,
                                    pos: pos as u64,
                                    len: rec_len as u64,
                                };
                                match index_put(&mut index, key, cp) {
                                    Some(old_len) => {
                                        uncompacted = sat_add(uncompacted, old_len);
                                    }
                                    None => {}
                                }
                                proof {
                                    let ghost ne = index@.last();
                                    assert(ne.1.file_id == id && ne.1.pos == pos && ne.1.len
                                        == rec_len);
                                    assert(ids2[ids2.len() - 1] == id);
                                    assert(da2[da2.len() - 1] == new_prefix);
                                    assert(new_prefix.subrange(pos as int, end as int)
                                        =~= data@.subrange(pos as int, end as int));
                                    assert(entry_ok_plain(ids2, da2, model, ne));
                                    assert forall|a: int| 0 <= a < index@.len() - 1 implies
                                        entry_ok_plain(ids2, da2, model, #[trigger] index@[a])
                                        && model.contains_key(index@[a].0@) by {
                                        assert(index@[a].0@ != kview);
                                        let b = choose|b: int|
                                            0 <= b < idx_prev.len() && idx_prev[b] == index@[a];
                                        assert(entry_ok_plain(ids2, da2, m_prev, idx_prev[b]));
                                        lemma_entry_ok_same_value(
                                            ids2,
                                            da2,
                                            m_prev,
                                            model,
                                            index@[a],
                                        );
                                    }
                                    assert forall|k: Seq<char>|
                                        #[trigger] model.contains_key(k) implies exists|a: int|
                                        0 <= a < index@.len() && (#[trigger] index@[a]).0@
                                            == k by {
                                        if k == kview {
                                            assert(index@[index@.len() - 1].0@ == k);
                                        } else {
                                            let b = choose|b: int|
                                                0 <= b < idx_prev.len() && (#[trigger] idx_prev[b]).0@
                                                    == k;
                                            let a = choose|a: int|
                                                0 <= a < index@.len() - 1 && index@[a]
                                                    == idx_prev[b];
                                            assert(index@[a].0@ == k);
                                        }
                                    }
                                }
                            }
                            Command::Remove { key } => {
                                proof {
                                    model = model.remove(key@);
                                }
                                match index_remove(&mut index, &key) {
                                    Some(old_len) => {
                                        uncompacted = sat_add(uncompacted, old_len);
                                    }
                                    None => {}
                                }
                                uncompacted = sat_add(uncompacted, rec_len as u64);
                                proof {
                                    assert forall|a: int| 0 <= a < index@.len() implies
                                        entry_ok_plain(ids2, da2, model, #[trigger] index@[a])
                                        && model.contains_key(index@[a].0@) by {
                                        assert(index@[a].0@ != key@);
                                        let b = choose|b: int|
                                            0 <= b < idx_prev.len() && idx_prev[b] == index@[a];
                                        assert(entry_ok_plain(ids2, da2, m_prev, idx_prev[b]));
                                        lemma_entry_ok_same_value(
                                            ids2,
                                            da2,
                                            m_prev,
                                            model,
                                            index@[a],
                                        );
                                    }
                                    assert forall|k: Seq<char>|
                                        #[trigger] model.contains_key(k) implies exists|a: int|
                                        0 <= a < index@.len() && (#[trigger] index@[a]).0@
                                            == k by {
                                        assert(k != key@);
                                        let b = choose|b: int|
                                            0 <= b < idx_prev.len() && (#[trigger] idx_prev[b]).0@
                                                == k;
                                        let a = choose|a: int|
                                            0 <= a < index@.len() && index@[a] == idx_prev[b];
                                        assert(index@[a].0@ == k);
                                    }
                                }
                            }
                        }
                        proof {
                            cmds = cmds.push(cv);
                        }
                        pos = end;
                    }
                }
            }
            // the segment parsed completely
            proof {
                assert(data@.subrange(0, data@.len() as int) =~= data@);
                assert(parse_stream_at(data@, pos as int) == Some(Seq::<Cmd>::empty()));
                assert(cmds + Seq::<Cmd>::empty() =~= cmds);
                assert(parse_stream_at(data@, 0) == Some(cmds));
            }
            segs.push(Segment { id, data, cmds: Ghost(cmds) });
            proof {
                assert(segs@.drop_last() =~= segs_prev);
                assert(all_cmds(segs@) == all_cmds(segs_prev) + cmds);
                assert(seg_bytes(segs@) == seg_bytes(segs_prev) + segs@.last().data@.len());
                let ghost w = seg_views(segments@);
                assert(w.subrange(0, si + 1).drop_last() =~= w.subrange(0, si as int));
                assert(w.subrange(0, si + 1).last() == w[si as int]);
                assert(w[si as int].1 == segments@[si as int].1@);
                assert(parse_segs(w.subrange(0, si + 1)) == Some(all_cmds(segs@)));
                assert(ids_of(segs@) =~= ids_of(segs_prev).push(id));
                assert(datas_of(segs@) =~= datas_of(segs_prev).push(segs@.last().data@));
                assert(segs@.last().data@ == data@);
            }
            si = si + 1;
        }

        let current_id: u64 = if segments.len() > 0 {
            segments[segments.len() - 1].0 + 1
        } else {
            1
        };
        let ghost segs_prev = segs@;
        segs.push(Segment { id: current_id, data: Vec::new(), cmds: Ghost(Seq::empty()) });
        let st = KvStore { current_id, index, segments: segs, uncompacted, model: Ghost(model) };
        proof {
            assert(seg_views(segments@).subrange(0, segments@.len() as int) =~= seg_views(
                segments@,
            ));
            assert forall|a: int| 0 <= a < st.spec_segments().len() implies st.spec_segments()[a]
                == seg_views(segments@).push((current_id, Seq::<char>::empty()))[a] by {
                assert(st.spec_segments()[a] == (st.segments@[a].id, st.segments@[a].data@));
                if a < segments@.len() {
                    assert(st.segments@[a] == segs_prev[a]);
                    assert(seg_views(segments@)[a] == (segments@[a].0, segments@[a].1@));
                } else {
                    assert(st.segments@[a].data@ =~= Seq::<char>::empty());
                }
            }
            assert(st.spec_segments() =~= seg_views(segments@).push(
                (current_id, Seq::<char>::empty()),
            ));
            assert(st.spec_current_id() == if segments@.len() == 0 {
                1u64
            } else {
                (segments@[segments@.len() - 1].0 + 1) as u64
            });
            assert(st.spec_segments() == seg_views(segments@).push(
                (st.spec_current_id(), Seq::<char>::empty()),
            ));
            assert(st.segments@.drop_last() =~= segs_prev);
            assert(all_cmds(st.segments@) =~= all_cmds(segs_prev) + Seq::<Cmd>::empty());
            assert(all_cmds(st.segments@) =~= all_cmds(segs_prev));
            assert(seg_bytes(st.segments@) == seg_bytes(segs_prev) + st.segments@.last().data@.len());
            assert(st.segments@.last().data@.len() == 0);
            assert forall|a: int| 0 <= a < st.index@.len() implies st.entry_ok(
                #[trigger] st.index@[a],
            ) by {
                lemma_entry_ok_push(
                    ids_of(segs_prev),
                    datas_of(segs_prev),
                    model,
                    current_id,
                    Seq::empty(),
                    st.index@[a],
                );
                assert(ids_of(st.segments@) =~= ids_of(segs_prev).push(current_id));
                assert(datas_of(st.segments@) =~= datas_of(segs_prev).push(Seq::empty()));
                assert(st.segments@.last().data@ =~= Seq::<char>::empty());
            }
        }
        Ok(st)
    }
}

// ---------------------------------------------------------------------------
// Reading and removing keys.
// ---------------------------------------------------------------------------

impl KvStore {
    /// The value of `key`, or `None` where the key is not live. Resolves the
    /// key through the index into a byte range of one segment and decodes
    /// the record found there.
    pub fn get(&mut self, key: String) -> (r: Result<Option<String>>)
        requires
            old(self).wf(),
        ensures
            final(self).wf(),
            *final(self) == *old(self),
            match r {
                Ok(v) => match v {
                    Some(val) => old(self)@.contains_key(key@) && val@ == old(self)@[key@],
                    None => !old(self)@.contains_key(key@),
                },
                Err(_) => false,
            },
    {
        match find_key(&self.index, &key) {
            None => {
                proof {
                    if self.model@.contains_key(key@) {
                        let a = choose|a: int|
                            0 <= a < self.index@.len() && (#[trigger] self.index@[a]).0@ == key@;
                        assert(false);
                    }
                }
                Ok(None)
            }
            Some(i) => {
                let file_id = self.index[i].1.file_id;
                let pos = self.index[i].1.pos;
                let len = self.index[i].1.len;
                let ghost e = self.index@[i as int];
                proof {
                    assert(self.entry_ok(e));
                }
                let ghost si = choose|si: int|
                    {
                        &&& 0 <= si < ids_of(self.segments@).len()
                        &&& ids_of(self.segments@).len() == datas_of(self.segments@).len()
                        &&& (#[trigger] ids_of(self.segments@)[si]) == e.1.file_id
                        &&& e.1.pos + e.1.len <= datas_of(self.segments@)[si].len()
                        &&& datas_of(self.segments@)[si].subrange(
                            e.1.pos as int,
                            e.1.pos + e.1.len,
                        ) == enc(Cmd::Put { key: e.0@, value: self.model@[e.0@] })
                    };
                match find_segment(&self.segments, file_id) {
                    None => {
                        proof {
                            assert(self.segments@[si].id == file_id);
                            assert(false);
                        }
                        Err(KvError::UnexpectedCommandType)
                    }
                    Some(j) => {
                        let seg_len = self.segments[j].data.len();
                        proof {
                            // segment ids are strictly increasing, so the id
                            // determines the segment
                            if j as int != si {
                                assert(self.segments@[j as int].id == self.segments@[si].id);
                                assert(false);
                            }
                            assert(pos + len <= seg_len);
                        }
                        let start = pos as usize;
                        let endp = start + (len as usize);
                        let slice = copy_range(&self.segments[j].data, start, endp);
                        proof {
                            let ghost target = Cmd::Put { key: e.0@, value: self.model@[e.0@] };
                            assert(slice@ == enc(target));
                            assert(slice@.subrange(0, slice@.len() as int) =~= slice@);
                            lemma_parse_record_enc(slice@, 0, target);
                        }
                        match decode_record(&slice, 0) {
                            Some((cmd, _end)) => {
                                match cmd {
                                    Command::Put { key: found_key, value } => {
                                        proof {
                                            assert(value@ == self.model@[key@]);
                                            assert(self.model@.contains_key(key@));
                                        }
                                        Ok(Some(value))
                                    }
                                    Command::Remove { key: found_key } => {
                                        proof {
                                            assert(false);
                                        }
                                        Err(KvError::UnexpectedCommandType)
                                    }
                                }
                            }
                            None => {
                                proof {
                                    assert(false);
                                }
                                Err(KvError::Serde)
                            }
                        }
                    }
                }
            }
        }
    }

    /// Drop `key` from the store: append a `Remove` record to the active
    /// segment and take the key out of the index. Fails with `KeyNotFound`
    /// where the key is not live.
    #[verifier::rlimit(100)]
    pub fn remove(&mut self, key: String) -> (r: Result<()>)
        requires
            old(self).wf(),
        ensures
            final(self).wf(),
            match r {
                Ok(()) => {
                    &&& old(self)@.contains_key(key@)
                    &&& final(self)@ == old(self)@.remove(key@)
                    &&& final(self).spec_segments() == old(self).spec_segments().update(
                        old(self).spec_segments().len() - 1,
                        (
                            old(self).spec_current_id(),
                            old(self).spec_segments().last().1 + enc((Cmd::Remove { key: key@ })),
                        ),
                    )
                },
                Err(e) => {
                    &&& e == KvError::KeyNotFound
                    &&& !old(self)@.contains_key(key@)
                    &&& *final(self) == *old(self)
                },
            },
            final(self).spec_current_id() == old(self).spec_current_id(),
    {
        match find_key(&self.index, &key) {
            None => {
                proof {
                    if self.model@.contains_key(key@) {
                        let a = choose|a: int|
                            0 <= a < self.index@.len() && (#[trigger] self.index@[a]).0@ == key@;
                        assert(false);
                    }
                }
                Err(KvError::KeyNotFound)
            }
            Some(_found) => {
                let ghost kview = key@;
                let ghost segs0 = self.segments@;
                let ghost m0 = self.model@;
                let ghost idx0 = self.index@;
                let cmd = Command::Remove { key: key.clone() };
                let mut rec = encode_record(&cmd);
                let ghost cv = cmd@;
                let rec_len = rec.len();
                let mut active = self.segments.pop().unwrap();
                let ghost act0 = active;
                active.data.append(&mut rec);
                proof {
                    lemma_concat_encs_push(act0.cmds@, cv);
                    assert(active.data@ =~= concat_encs(act0.cmds@.push(cv)));
                }
                active.cmds = Ghost(act0.cmds@.push(cv));
                self.segments.push(active);
                let ghost segs1 = self.segments@;
                proof {
                    assert(segs1.drop_last() =~= segs0.drop_last());
                    assert(all_cmds(segs1) == all_cmds(segs1.drop_last()) + act0.cmds@.push(cv));
                    assert(all_cmds(segs0) == all_cmds(segs0.drop_last()) + act0.cmds@);
                    assert(all_cmds(segs1) =~= all_cmds(segs0).push(cv));
                    lemma_replay_push(all_cmds(segs0), cv);
                    assert forall|a: int| 0 <= a < segs1.len() implies (
                    #[trigger] segs1[a]).inv() by {
                        if a < segs1.len() - 1 {
                            assert(segs1[a] == segs0[a]);
                        }
                    }
                    assert forall|a: int, b: int| 0 <= a < b < segs1.len() implies (
                    #[trigger] segs1[a]).id < (#[trigger] segs1[b]).id by {
                        assert(segs1[a].id == segs0[a].id);
                        assert(segs1[b].id == segs0[b].id);
                    }
                }
                proof {
                    assert(seg_bytes(segs1) == seg_bytes(segs1.drop_last())
                        + segs1.last().data@.len());
                    assert(seg_bytes(segs0) == seg_bytes(segs0.drop_last())
                        + segs0.last().data@.len());
                    assert(seg_bytes(segs1) == seg_bytes(segs0) + rec_len);
                }
                self.model = Ghost(m0.remove(kview));
                match index_remove(&mut self.index, &key) {
                    Some(old_len) => {
                        self.uncompacted = sat_add(self.uncompacted, old_len);
                    }
                    None => {}
                }
                // the record itself is dead weight from birth
                self.uncompacted = sat_add(self.uncompacted, rec_len as u64);
                proof {
                    let ghost ids1 = ids_of(segs1);
                    let ghost da1 = datas_of(segs1);
                    assert(ids1 =~= ids_of(segs0.drop_last()).push(act0.id));
                    assert(ids_of(segs0) =~= ids_of(segs0.drop_last()).push(act0.id));
                    assert(da1 =~= datas_of(segs0.drop_last()).push(segs1.last().data@));
                    assert(datas_of(segs0) =~= datas_of(segs0.drop_last()).push(act0.data@));
                    assert(act0.data@.len() <= segs1.last().data@.len());
                    assert(segs1.last().data@.subrange(0, act0.data@.len() as int)
                        =~= act0.data@);
                    assert forall|a: int| 0 <= a < self.index@.len() implies self.entry_ok(
                        #[trigger] self.index@[a],
                    ) && self.model@.contains_key(self.index@[a].0@) by {
                        assert(self.index@[a].0@ != kview);
                        let b = choose|b: int|
                            0 <= b < idx0.len() && idx0[b] == self.index@[a];
                        assert(entry_ok_plain(ids_of(segs0), datas_of(segs0), m0, idx0[b]));
                        lemma_entry_ok_grow(
                            ids_of(segs0.drop_last()),
                            datas_of(segs0.drop_last()),
                            m0,
                            act0.id,
                            act0.data@,
                            segs1.last().data@,
                            idx0[b],
                        );
                        lemma_entry_ok_same_value(ids1, da1, m0, self.model@, self.index@[a]);
                    }
                    assert forall|k: Seq<char>| #[trigger] self.model@.contains_key(k) implies
                        exists|a: int|
                        0 <= a < self.index@.len() && (#[trigger] self.index@[a]).0@ == k by {
                        assert(k != kview);
                        let b = choose|b: int|
                            0 <= b < idx0.len() && (#[trigger] idx0[b]).0@ == k;
                        let a = choose|a: int|
                            0 <= a < self.index@.len() && self.index@[a] == idx0[b];
                        assert(self.index@[a].0@ == k);
                    }
                    // the active segment grew by exactly this record
                    assert forall|a: int| 0 <= a < self.spec_segments().len() implies
                        self.spec_segments()[a] == old(self).spec_segments().update(
                        old(self).spec_segments().len() - 1,
                        (
                            old(self).spec_current_id(),
                            old(self).spec_segments().last().1 + enc(cv),
                        ),
                    )[a] by {
                        assert(self.spec_segments()[a] == (segs1[a].id, segs1[a].data@));
                        assert(old(self).spec_segments()[a] == (segs0[a].id, segs0[a].data@));
                        if a < segs1.len() - 1 {
                            assert(segs1[a] == segs0[a]);
                        } else {
                            assert(segs1[a].id == act0.id);
                            assert(old(self).spec_segments().last().1 == act0.data@);
                            assert(segs1[a].data@ == act0.data@ + enc(cv));
                        }
                    }
                    assert(self.spec_segments() =~= old(self).spec_segments().update(
                        old(self).spec_segments().len() - 1,
                        (
                            old(self).spec_current_id(),
                            old(self).spec_segments().last().1 + enc(cv),
                        ),
                    ));
                }
                Ok(())
            }
        }
    }
}

/// Two indexes whose entries record the same lengths cover the same number
/// of live bytes.
proof fn lemma_idx_bytes_pointwise(x: Seq<(String, CommandPos)>, y: Seq<(String, CommandPos)>)
    requires
        x.len() == y.len(),
        forall|a: int| 0 <= a < x.len() ==> (#[trigger] x[a]).1.len == y[a].1.len,
    ensures
        idx_bytes(x) == idx_bytes(y),
    decreases x.len(),
{
    if x.len() > 0 {
        lemma_idx_bytes_pointwise(x.drop_last(), y.drop_last());
    }
}

// ---------------------------------------------------------------------------
// Compaction.
// ---------------------------------------------------------------------------

impl KvStore {
    /// Rewrite every live record into a fresh compaction segment, drop every
    /// older segment, and open a new empty active segment above it. The
    /// abstract map is unchanged; afterwards the store holds exactly the
    /// live bytes plus the empty active segment.
    #[verifier::rlimit(100)]
    pub fn compact(&mut self) -> (r: Result<()>)
        requires
            old(self).wf(),
            old(self).spec_current_id() <= u64::MAX - 2,
        ensures
            final(self).wf(),
            r is Ok,
            final(self)@ == old(self)@,
            final(self).spec_current_id() == old(self).spec_current_id() + 2,
            final(self).total_bytes() == old(self).live_bytes(),
            final(self).live_bytes() == old(self).live_bytes(),
            final(self).spec_segments().len() == 2,
            final(self).spec_segments()[0].0 == old(self).spec_current_id() + 1,
            final(self).spec_segments()[1] == (
                (old(self).spec_current_id() + 2) as u64,
                Seq::<char>::empty(),
            ),
    {
        let compaction_id = self.current_id + 1;
        let new_active_id = self.current_id + 2;
        let ghost m0 = self.model@;
        let ghost idx0 = self.index@;
        let mut comp_data: Vec<char> = Vec::new();
        let ghost mut comp_cmds: Seq<Cmd> = Seq::empty();
        let mut new_index: Vec<(String, CommandPos)> = Vec::new();
        let mut i: usize = 0;
        proof {
            assert(concat_encs(Seq::<Cmd>::empty()) =~= Seq::<char>::empty());
            assert(idx0.subrange(0, 0) =~= Seq::<(String, CommandPos)>::empty());
        }
        while i < self.index.len()
            invariant
                self.wf(),
                i <= self.index@.len(),
                self.index@ == idx0,
                self.model@ == m0,
                comp_data@ == concat_encs(comp_cmds),
                new_index@.len() == i as int,
                forall|a: int| 0 <= a < i ==> (#[trigger] new_index@[a]).0@ == idx0[a].0@,
                forall|a: int| 0 <= a < i ==> (#[trigger] new_index@[a]).1.len == idx0[a].1.len,
                forall|a: int|
                    0 <= a < i ==> (#[trigger] new_index@[a]).1.file_id == compaction_id,
                forall|a: int|
                    0 <= a < i ==> (#[trigger] new_index@[a]).1.pos + new_index@[a].1.len
                        <= comp_data@.len() && comp_data@.subrange(
                        new_index@[a].1.pos as int,
                        new_index@[a].1.pos + new_index@[a].1.len,
                    ) == enc(Cmd::Put { key: new_index@[a].0@, value: m0[new_index@[a].0@] }),
                forall|a: int|
                    0 <= a < i ==> replay(comp_cmds).contains_key((#[trigger] idx0[a]).0@),
                forall|k: Seq<char>|
                    #[trigger] replay(comp_cmds).contains_key(k) ==> m0.contains_key(k) && replay(
                        comp_cmds,
                    )[k] == m0[k],
                comp_data@.len() == idx_bytes(idx0.subrange(0, i as int)),
            decreases self.index@.len() - i,
        {
            let e_fid = self.index[i].1.file_id;
            let e_pos = self.index[i].1.pos;
            let e_len = self.index[i].1.len;
            let key = self.index[i].0.clone();
            let ghost e = self.index@[i as int];
            proof {
                assert(self.entry_ok(e));
            }
            let ghost si = choose|si: int|
                {
                    &&& 0 <= si < ids_of(self.segments@).len()
                    &&& ids_of(self.segments@).len() == datas_of(self.segments@).len()
                    &&& (#[trigger] ids_of(self.segments@)[si]) == e.1.file_id
                    &&& e.1.pos + e.1.len <= datas_of(self.segments@)[si].len()
                    &&& datas_of(self.segments@)[si].subrange(e.1.pos as int, e.1.pos + e.1.len)
                        == enc(Cmd::Put { key: e.0@, value: self.model@[e.0@] })
                };
            match find_segment(&self.segments, e_fid) {
                None => {
                    proof {
                        assert(self.segments@[si].id == e_fid);
                        assert(false);
                    }
                    return Err(KvError::Io);
                }
                Some(j) => {
                    let seg_len = self.segments[j].data.len();
                    proof {
                        if j as int != si {
                            assert(self.segments@[j as int].id == self.segments@[si].id);
                            assert(false);
                        }
                        assert(e_pos + e_len <= seg_len);
                    }
                    let start = e_pos as usize;
                    let endp = start + (e_len as usize);
                    let new_pos = comp_data.len();
                    let mut piece = copy_range(&self.segments[j].data, start, endp);
                    let ghost comp0 = comp_data@;
                    comp_data.append(&mut piece);
                    new_index.push(
                        (key, CommandPos { file_id: compaction_id, pos: new_pos as u64, len: e_len }),
                    );
                    proof {
                        let kv = idx0[i as int].0@;
                        let c = Cmd::Put { key: kv, value: m0[kv] };
                        assert(datas_of(self.segments@)[si] == self.segments@[si].data@);
                        assert(comp_data@ == comp0 + enc(c));
                        lemma_concat_encs_push(comp_cmds, c);
                        assert(comp_data@ =~= concat_encs(comp_cmds.push(c)));
                        lemma_replay_push(comp_cmds, c);
                        comp_cmds = comp_cmds.push(c);
                        // records already copied are untouched by the append
                        assert forall|a: int| 0 <= a < new_index@.len() - 1 implies (
                        #[trigger] new_index@[a]).1.pos + new_index@[a].1.len <= comp_data@.len()
                            && comp_data@.subrange(
                            new_index@[a].1.pos as int,
                            new_index@[a].1.pos + new_index@[a].1.len,
                        ) == enc(
                            Cmd::Put { key: new_index@[a].0@, value: m0[new_index@[a].0@] },
                        ) by {
                            let p = new_index@[a].1.pos as int;
                            let l = new_index@[a].1.len as int;
                            assert(comp_data@.subrange(p, p + l) =~= comp0.subrange(p, p + l)) by {
                                assert forall|n: int| 0 <= n < l implies #[trigger] comp_data@.subrange(
                                    p,
                                    p + l,
                                )[n] == comp0.subrange(p, p + l)[n] by {
                                    assert(comp_data@[p + n] == comp0[p + n]);
                                }
                            }
                        }
                        // the record just copied
                        assert(comp_data@.subrange(new_pos as int, new_pos + e_len) =~= enc(c));
                        // live-byte accounting
                        assert(idx0.subrange(0, i + 1).drop_last() =~= idx0.subrange(0, i as int));
                        assert(idx0.subrange(0, i + 1).last() == idx0[i as int]);
                    }
                }
            }
            i = i + 1;
        }
        proof {
            assert(idx0.subrange(0, idx0.len() as int) =~= idx0);
        }
        let ghost final_comp = comp_data@;
        let mut new_segs: Vec<Segment> = Vec::new();
        new_segs.push(Segment { id: compaction_id, data: comp_data, cmds: Ghost(comp_cmds) });
        new_segs.push(Segment { id: new_active_id, data: Vec::new(), cmds: Ghost(Seq::empty()) });
        self.segments = new_segs;
        self.index = new_index;
        self.current_id = new_active_id;
        self.uncompacted = 0;
        proof {
            let s2 = self.segments@;
            assert(s2.len() == 2);
            assert(s2[0].data@ == final_comp);
            assert(s2[1].data@ =~= Seq::<char>::empty());
            // the replayed compaction history is exactly the old map
            assert forall|k: Seq<char>| #[trigger] m0.contains_key(k) implies replay(
                comp_cmds,
            ).contains_key(k) by {
                let a = choose|a: int| 0 <= a < idx0.len() && (#[trigger] idx0[a]).0@ == k;
                assert(replay(comp_cmds).contains_key(idx0[a].0@));
            }
            assert(replay(comp_cmds) =~= m0);
            // the command history of the new pair of segments
            assert(s2.drop_last().drop_last() =~= Seq::<Segment>::empty());
            assert(all_cmds(s2.drop_last().drop_last()) == Seq::<Cmd>::empty());
            assert(s2.drop_last().last() == s2[0]);
            assert(all_cmds(s2.drop_last()) == Seq::<Cmd>::empty() + comp_cmds);
            assert(Seq::<Cmd>::empty() + comp_cmds =~= comp_cmds);
            assert(all_cmds(s2) == all_cmds(s2.drop_last()) + Seq::<Cmd>::empty());
            assert(comp_cmds + Seq::<Cmd>::empty() =~= comp_cmds);
            assert(replay(all_cmds(s2)) == m0);
            // every index entry is backed by the compaction segment
            assert forall|a: int| 0 <= a < self.index@.len() implies self.entry_ok(
                #[trigger] self.index@[a],
            ) by {
                assert(ids_of(s2)[0] == compaction_id);
                assert(datas_of(s2)[0] == final_comp);
            }
            assert forall|k: Seq<char>| #[trigger] self.model@.contains_key(k) implies exists|
                a: int,
            |
                0 <= a < self.index@.len() && (#[trigger] self.index@[a]).0@ == k by {
                let b = choose|b: int| 0 <= b < idx0.len() && (#[trigger] idx0[b]).0@ == k;
                assert(self.index@[b].0@ == k);
            }
            // byte accounting
            assert(seg_bytes(s2.drop_last().drop_last()) == 0);
            assert(seg_bytes(s2.drop_last()) == final_comp.len());
            assert(seg_bytes(s2) == final_comp.len());
            lemma_idx_bytes_pointwise(self.index@, idx0);
            assert(self.spec_segments().len() == 2);
            assert(self.spec_segments()[0].0 == compaction_id);
            assert(self.spec_segments()[1] == (new_active_id, Seq::<char>::empty()));
        }
        Ok(())
    }
}

// ---------------------------------------------------------------------------
// Writing keys.
// ---------------------------------------------------------------------------

impl KvStore {
    /// Record `key ↦ value`: append a `Set` record to the active segment and
    /// point the index at it. Compacts once the dead bytes pass the
    /// threshold.
    #[verifier::rlimit(100)]
    pub fn set(&mut self, key: String, value: String) -> (r: Result<()>)
        requires
            old(self).wf(),
        ensures
            final(self).wf(),
            r is Ok,
            final(self)@ == old(self)@.insert(key@, value@),
            final(self).spec_current_id() == old(self).spec_current_id() || final(self).spec_current_id() == old(self).spec_current_id() + 2,
            final(self).spec_current_id() == old(self).spec_current_id() ==> final(self).spec_segments() == old(self).spec_segments().update(
                old(self).spec_segments().len() - 1,
                (
                    old(self).spec_current_id(),
                    old(self).spec_segments().last().1 + enc(
                        (Cmd::Put { key: key@, value: value@ }),
                    ),
                ),
            ),
            final(self).spec_current_id() == old(self).spec_current_id() + 2 ==> final(self).total_bytes() == final(self).live_bytes(),
            old(self).spec_current_id() <= u64::MAX - 2 ==> final(self).dead_bytes()
                <= COMPACTION_THRESHOLD,
    {
        let ghost kview = key@;
        let ghost vview = value@;
        let ghost segs0 = self.segments@;
        let ghost m0 = self.model@;
        let ghost idx0 = self.index@;
        let cmd = Command::Put { key: key.clone(), value };
        let ghost cv = cmd@;
        let mut rec = encode_record(&cmd);
        let rec_len = rec.len();
        let mut active = self.segments.pop().unwrap();
        let ghost act0 = active;
        let p0 = active.data.len();
        active.data.append(&mut rec);
        proof {
            lemma_concat_encs_push(act0.cmds@, cv);
            assert(active.data@ =~= concat_encs(act0.cmds@.push(cv)));
        }
        active.cmds = Ghost(act0.cmds@.push(cv));
        self.segments.push(active);
        let ghost segs1 = self.segments@;
        proof {
            assert(segs1.drop_last() =~= segs0.drop_last());
            assert(all_cmds(segs1) == all_cmds(segs1.drop_last()) + act0.cmds@.push(cv));
            assert(all_cmds(segs0) == all_cmds(segs0.drop_last()) + act0.cmds@);
            assert(all_cmds(segs1) =~= all_cmds(segs0).push(cv));
            lemma_replay_push(all_cmds(segs0), cv);
            assert forall|a: int| 0 <= a < segs1.len() implies (#[trigger] segs1[a]).inv() by {
                if a < segs1.len() - 1 {
                    assert(segs1[a] == segs0[a]);
                }
            }
            assert forall|a: int, b: int| 0 <= a < b < segs1.len() implies (
            #[trigger] segs1[a]).id < (#[trigger] segs1[b]).id by {
                assert(segs1[a].id == segs0[a].id);
                assert(segs1[b].id == segs0[b].id);
            }
        }
        proof {
            assert(seg_bytes(segs1) == seg_bytes(segs1.drop_last()) + segs1.last().data@.len());
            assert(seg_bytes(segs0) == seg_bytes(segs0.drop_last()) + segs0.last().data@.len());
            assert(seg_bytes(segs1) == seg_bytes(segs0) + rec_len);
        }
        self.model = Ghost(m0.insert(kview, vview));
        let cp = CommandPos { file_id: self.current_id, pos: p0 as u64, len: rec_len as u64 };
        match index_put(&mut self.index, key, cp) {
            Some(old_len) => {
                self.uncompacted = sat_add(self.uncompacted, old_len);
            }
            None => {}
        }
        proof {
            let ids1 = ids_of(segs1);
            let da1 = datas_of(segs1);
            assert(ids1 =~= ids_of(segs0.drop_last()).push(act0.id));
            assert(ids_of(segs0) =~= ids_of(segs0.drop_last()).push(act0.id));
            assert(da1 =~= datas_of(segs0.drop_last()).push(segs1.last().data@));
            assert(datas_of(segs0) =~= datas_of(segs0.drop_last()).push(act0.data@));
            assert(act0.data@.len() <= segs1.last().data@.len());
            assert(segs1.last().data@.subrange(0, act0.data@.len() as int) =~= act0.data@);
            // surviving entries
            assert forall|a: int| 0 <= a < self.index@.len() - 1 implies self.entry_ok(
                #[trigger] self.index@[a],
            ) && self.model@.contains_key(self.index@[a].0@) by {
                assert(self.index@[a].0@ != kview);
                let b = choose|b: int| 0 <= b < idx0.len() && idx0[b] == self.index@[a];
                assert(entry_ok_plain(ids_of(segs0), datas_of(segs0), m0, idx0[b]));
                lemma_entry_ok_grow(
                    ids_of(segs0.drop_last()),
                    datas_of(segs0.drop_last()),
                    m0,
                    act0.id,
                    act0.data@,
                    segs1.last().data@,
                    idx0[b],
                );
                lemma_entry_ok_same_value(ids1, da1, m0, self.model@, self.index@[a]);
            }
            // the new entry
            let ne = self.index@.last();
            assert(ne.1.file_id == self.current_id && ne.1.pos == p0 && ne.1.len == rec_len);
            assert(ids1[ids1.len() - 1] == act0.id);
            assert(act0.id == self.current_id);
            assert(da1[da1.len() - 1] == segs1.last().data@);
            assert(segs1.last().data@.subrange(p0 as int, p0 + rec_len) =~= enc(cv));
            assert(self.model@[kview] == vview);
            assert(self.entry_ok(ne));
            // the index still covers the map
            assert forall|k: Seq<char>| #[trigger] self.model@.contains_key(k) implies exists|
                a: int,
            |
                0 <= a < self.index@.len() && (#[trigger] self.index@[a]).0@ == k by {
                if k == kview {
                    assert(self.index@[self.index@.len() - 1].0@ == k);
                } else {
                    let b = choose|b: int| 0 <= b < idx0.len() && (#[trigger] idx0[b]).0@ == k;
                    let a = choose|a: int|
                        0 <= a < self.index@.len() - 1 && self.index@[a] == idx0[b];
                    assert(self.index@[a].0@ == k);
                }
            }
            // the active segment grew by exactly this record
            assert forall|a: int| 0 <= a < self.spec_segments().len() implies self.spec_segments()[a]
                == old(self).spec_segments().update(
                old(self).spec_segments().len() - 1,
                (
                    old(self).spec_current_id(),
                    old(self).spec_segments().last().1 + enc(cv),
                ),
            )[a] by {
                assert(self.spec_segments()[a] == (segs1[a].id, segs1[a].data@));
                assert(old(self).spec_segments()[a] == (segs0[a].id, segs0[a].data@));
                if a < segs1.len() - 1 {
                    assert(segs1[a] == segs0[a]);
                } else {
                    assert(segs1[a].id == act0.id);
                    assert(old(self).spec_segments().last().1 == act0.data@);
                    assert(segs1[a].data@ == act0.data@ + enc(cv));
                }
            }
            assert(self.spec_segments() =~= old(self).spec_segments().update(
                old(self).spec_segments().len() - 1,
                (
                    old(self).spec_current_id(),
                    old(self).spec_segments().last().1 + enc(cv),
                ),
            ));
        }
        if self.uncompacted > COMPACTION_THRESHOLD && self.current_id <= u64::MAX - 2 {
            match self.compact() {
                Ok(()) => {}
                Err(e) => {
                    proof {
                        assert(false);
                    }
                    return Err(e);
                }
            }
        }
        Ok(())
    }
}

// ---------------------------------------------------------------------------
// Laws of the store.
// ---------------------------------------------------------------------------

/// Every well-formed collection of segments parses back to the command
/// history it records.
proof fn lemma_wf_parse(segs: Seq<Segment>)
    requires
        forall|a: int| 0 <= a < segs.len() ==> (#[trigger] segs[a]).inv(),
    ensures
        parse_segs(segs.map_values(|s: Segment| (s.id, s.data@))) == Some(all_cmds(segs)),
    decreases segs.len(),
{
    let v = segs.map_values(|s: Segment| (s.id, s.data@));
    if segs.len() == 0 {
        assert(v.len() == 0);
    } else {
        lemma_wf_parse(segs.drop_last());
        assert(segs.drop_last().map_values(|s: Segment| (s.id, s.data@)) =~= v.drop_last());
        let last = segs.last();
        assert(last.inv());
        assert(last.data@.subrange(0, last.data@.len() as int) =~= last.data@);
        lemma_parse_stream_encs(last.data@, 0, last.cmds@);
        assert(v.last().1 == last.data@);
    }
}

impl KvStore {
    /// Durability: a well-formed store's segments all parse, and replaying
    /// them in order yields exactly the store's current map. Hence a store
    /// reopened from its segments answers every `get` as the store did
    /// just before it was dropped.
    pub proof fn lemma_durability(&self)
        requires
            self.wf(),
        ensures
            parse_segs(self.spec_segments()) is Some,
            replay(parse_segs(self.spec_segments()).unwrap()) == self@,
    {
        lemma_wf_parse(self.segments@);
    }
}

/// Read-after-write: after `set(k, v)` the key `k` answers `v`, and every
/// other key keeps its earlier state, until the next write of `k`.
pub proof fn lemma_read_after_write(
    m: Map<Seq<char>, Seq<char>>,
    k: Seq<char>,
    v: Seq<char>,
    k2: Seq<char>,
)
    ensures
        m.insert(k, v).contains_key(k),
        m.insert(k, v)[k] == v,
        k2 != k ==> m.insert(k, v).contains_key(k2) == m.contains_key(k2),
        k2 != k && m.contains_key(k2) ==> m.insert(k, v)[k2] == m[k2],
{
}

/// Overwrite: a later `set` of the same key wholly supersedes the earlier.
pub proof fn lemma_overwrite(m: Map<Seq<char>, Seq<char>>, k: Seq<char>, v1: Seq<char>, v2: Seq<char>)
    ensures
        m.insert(k, v1).insert(k, v2) == m.insert(k, v2),
{
    assert(m.insert(k, v1).insert(k, v2) =~= m.insert(k, v2));
}

/// Remove: after `remove(k)` the key is absent, and every other key keeps
/// its state.
pub proof fn lemma_remove(m: Map<Seq<char>, Seq<char>>, k: Seq<char>, k2: Seq<char>)
    ensures
        !m.remove(k).contains_key(k),
        k2 != k ==> m.remove(k).contains_key(k2) == m.contains_key(k2),
        k2 != k && m.contains_key(k2) ==> m.remove(k)[k2] == m[k2],
{
}

// ---------------------------------------------------------------------------
// Observers.
// ---------------------------------------------------------------------------

impl KvStore {
    /// The id of the active segment.
    pub fn current_segment_id(&self) -> (r: u64)
        ensures
            r == self.spec_current_id(),
    {
        self.current_id
    }

    /// The segments as `(id, contents)` pairs, oldest first: what a caller
    /// persists, and what a later `open` accepts.
    pub fn segments_raw(&self) -> (r: Vec<(u64, Vec<char>)>)
        requires
            self.wf(),
        ensures
            seg_views(r@) == self.spec_segments(),
            forall|a: int, b: int| 0 <= a < b < r@.len() ==> r@[a].0 < r@[b].0,
            r@.len() >= 1,
            r@[r@.len() - 1].0 == self.spec_current_id(),
    {
        let mut out: Vec<(u64, Vec<char>)> = Vec::new();
        let mut i: usize = 0;
        while i < self.segments.len()
            invariant
                self.wf(),
                i <= self.segments@.len(),
                out@.len() == i as int,
                forall|a: int|
                    0 <= a < i ==> (#[trigger] out@[a]).0 == self.segments@[a].id && out@[a].1@
                        == self.segments@[a].data@,
            decreases self.segments@.len() - i,
        {
            let id = self.segments[i].id;
            let n = self.segments[i].data.len();
            let d = copy_range(&self.segments[i].data, 0, n);
            proof {
                assert(d@ =~= self.segments@[i as int].data@);
            }
            out.push((id, d));
            i = i + 1;
        }
        proof {
            assert(seg_views(out@) =~= self.spec_segments());
        }
        out
    }

    /// Total length of all segment contents in characters, saturating at
    /// `u64::MAX`.
    pub fn total_size(&self) -> (r: u64)
        ensures
            r == if self.total_bytes() > u64::MAX { u64::MAX as int } else { self.total_bytes() },
    {
        let mut acc: u64 = 0;
        let mut i: usize = 0;
        proof {
            assert(self.segments@.subrange(0, 0) =~= Seq::<Segment>::empty());
        }
        while i < self.segments.len()
            invariant
                i <= self.segments@.len(),
                acc == if seg_bytes(self.segments@.subrange(0, i as int)) > u64::MAX {
                    u64::MAX as int
                } else {
                    seg_bytes(self.segments@.subrange(0, i as int))
                },
            decreases self.segments@.len() - i,
        {
            let n = self.segments[i].data.len();
            acc = sat_add(acc, n as u64);
            proof {
                assert(self.segments@.subrange(0, i + 1).drop_last() =~= self.segments@.subrange(
                    0,
                    i as int,
                ));
                assert(self.segments@.subrange(0, i + 1).last() == self.segments@[i as int]);
            }
            i = i + 1;
        }
        proof {
            assert(self.segments@.subrange(0, self.segments@.len() as int) =~= self.segments@);
        }
        acc
    }

    /// Total length in characters of the live records the index points at,
    /// saturating at `u64::MAX`.
    pub fn live_size(&self) -> (r: u64)
        ensures
            r == if self.live_bytes() > u64::MAX { u64::MAX as int } else { self.live_bytes() },
    {
        let mut acc: u64 = 0;
        let mut i: usize = 0;
        proof {
            assert(self.index@.subrange(0, 0) =~= Seq::<(String, CommandPos)>::empty());
        }
        while i < self.index.len()
            invariant
                i <= self.index@.len(),
                acc == if idx_bytes(self.index@.subrange(0, i as int)) > u64::MAX {
                    u64::MAX as int
                } else {
                    idx_bytes(self.index@.subrange(0, i as int))
                },
            decreases self.index@.len() - i,
        {
            let n = self.index[i].1.len;
            acc = sat_add(acc, n);
            proof {
                assert(self.index@.subrange(0, i + 1).drop_last() =~= self.index@.subrange(
                    0,
                    i as int,
                ));
                assert(self.index@.subrange(0, i + 1).last() == self.index@[i as int]);
            }
            i = i + 1;
        }
        proof {
            assert(self.index@.subrange(0, self.index@.len() as int) =~= self.index@);
        }
        acc
    }
}

} // verus!
