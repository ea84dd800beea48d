use vstd::prelude::*;
use crate::codec::Command;
use crate::codec::CmdView;
use crate::codec::Decoded;
use crate::codec::SpecDecoded;
use crate::codec::encodable;
use crate::codec::spec_decode;
use crate::codec::spec_encode;
use crate::error::KvsError;
use crate::index::CmdOffset;
use crate::index::Index;
use crate::index::IndexEntry;
use crate::index::sum_ranges;
use crate::stream::ReaderPos;

verus! {

/// A segment's contents: its generation and its bytes, mathematically.
pub struct SegView {
    pub gen: u64,
    pub data: Seq<u8>,
}

/// A segment file's contents, as read from disk and handed to `open`.
pub struct SegmentFile {
    pub gen: u64,
    pub data: Vec<u8>,
}

impl View for SegmentFile {
    type V = SegView;

    open spec fn view(&self) -> SegView {
        SegView { gen: self.gen, data: self.data@ }
    }
}

/// What one decoded record does to the index, and how many bytes it makes
/// dead: a `Put` supersedes any former record of its key; a `Remove` kills
/// both its key's former record and itself.
pub open spec fn apply_cmd(
    m: Map<Seq<char>, CmdOffset>,
    cmd: CmdView,
    gen: u64,
    start: int,
    end: int,
) -> (Map<Seq<char>, CmdOffset>, int) {
    match cmd {
        CmdView::Put { key, val } => (
            m.insert(key, CmdOffset { gen, start: start as u64, end: end as u64 }),
            if m.contains_key(key) {
                m[key].end - m[key].start
            } else {
                0
            },
        ),
        CmdView::Remove { key } => (
            m.remove(key),
            (end - start) + if m.contains_key(key) {
                m[key].end - m[key].start
            } else {
                0
            },
        ),
    }
}

/// Replays one segment's records from offset `i` onto an index, yielding the
/// resulting index and the dead bytes the replay discovered. A truncated
/// trailing record ends the replay; malformed bytes fail it.
pub open spec fn replay_seg(b: Seq<u8>, gen: u64, i: int, m: Map<Seq<char>, CmdOffset>) -> Option<
    (Map<Seq<char>, CmdOffset>, int),
>
    decreases b.len() - i,
{
    match spec_decode(b, i) {
        SpecDecoded::Rec { cmd, len } => {
            let (m2, du) = apply_cmd(m, cmd, gen, i, i + len);
            match replay_seg(b, gen, i + len, m2) {
                Some((m3, rest)) => Some((m3, du + rest)),
                None => None,
            }
        },
        SpecDecoded::Incomplete => Some((m, 0)),
        SpecDecoded::Malformed => None,
    }
}

/// Replays the segments from position `k` on, in the order given, onto an
/// index.
pub open spec fn replay_segs(segs: Seq<SegView>, k: int, m: Map<Seq<char>, CmdOffset>) -> Option<
    (Map<Seq<char>, CmdOffset>, int),
>
    decreases segs.len() - k,
{
    if k < 0 || k >= segs.len() {
        Some((m, 0))
    } else {
        match replay_seg(segs[k].data, segs[k].gen, 0, m) {
            Some((m2, du)) => match replay_segs(segs, k + 1, m2) {
                Some((m3, rest)) => Some((m3, du + rest)),
                None => None,
            },
            None => None,
        }
    }
}

/// The index and dead-byte count that replaying all segments, in ascending
/// generation order, produces.
pub open spec fn replay_all(segs: Seq<SegView>) -> Option<(Map<Seq<char>, CmdOffset>, int)> {
    replay_segs(segs, 0, Map::empty())
}

/// Where a segment's records stop decoding: the offset just past the last
/// whole record.
pub open spec fn stream_end(b: Seq<u8>, i: int) -> int
    decreases b.len() - i,
{
    match spec_decode(b, i) {
        SpecDecoded::Rec { cmd, len } => stream_end(b, i + len),
        _ => i,
    }
}

/// A segment is clean when its bytes are exactly a run of whole records.
pub open spec fn clean_stream(b: Seq<u8>) -> bool {
    stream_end(b, 0) == b.len()
}

/// Whether some segment has the given generation.
pub open spec fn has_gen(segs: Seq<SegView>, g: u64) -> bool {
    exists|i: int| 0 <= i < segs.len() && segs[i].gen == g
}

/// The position of the segment with the given generation.
pub open spec fn gen_at(segs: Seq<SegView>, g: u64) -> int {
    choose|i: int| 0 <= i < segs.len() && segs[i].gen == g
}

/// The bytes of the segment with the given generation.
pub open spec fn data_of(segs: Seq<SegView>, g: u64) -> Seq<u8> {
    segs[gen_at(segs, g)].data
}

/// Generations strictly ascend, so each occurs at most once.
pub open spec fn gens_ascending(segs: Seq<SegView>) -> bool {
    forall|i: int, j: int| 0 <= i < j < segs.len() ==> segs[i].gen < segs[j].gen
}

/// An index entry is valid against the segments: it points into an existing
/// segment, at a byte range that decodes to exactly one `Put` record of the
/// entry's own key.
pub open spec fn entry_valid(segs: Seq<SegView>, k: Seq<char>, off: CmdOffset) -> bool {
    &&& has_gen(segs, off.gen)
    &&& off.start < off.end <= data_of(segs, off.gen).len()
    &&& match spec_decode(data_of(segs, off.gen), off.start as int) {
        SpecDecoded::Rec { cmd, len } => {
            &&& len == off.end - off.start
            &&& cmd matches CmdView::Put { key, val } && key == k
        },
        _ => false,
    }
}

/// An index entry freshly made by replaying one segment: it points into
/// that segment's bytes, at a byte range that decodes to exactly one `Put`
/// record of the entry's own key.
pub open spec fn fresh_entry_valid(data: Seq<u8>, gen: u64, k: Seq<char>, off: CmdOffset) -> bool {
    &&& off.gen == gen
    &&& off.start < off.end <= data.len()
    &&& match spec_decode(data, off.start as int) {
        SpecDecoded::Rec { cmd, len } => {
            &&& len == off.end - off.start
            &&& cmd matches CmdView::Put { key, val } && key == k
        },
        _ => false,
    }
}

/// The value an entry points at.
pub open spec fn value_of(segs: Seq<SegView>, off: CmdOffset) -> Seq<char> {
    match spec_decode(data_of(segs, off.gen), off.start as int) {
        SpecDecoded::Rec { cmd, len } => match cmd {
            CmdView::Put { key, val } => val,
            CmdView::Remove { key } => Seq::empty(),
        },
        _ => Seq::empty(),
    }
}

/// The bytes all segments hold together.
pub open spec fn total_bytes(segs: Seq<SegView>) -> int
    decreases segs.len(),
{
    if segs.len() == 0 {
        0
    } else {
        total_bytes(segs.drop_last()) + segs.last().data.len()
    }
}

/// In a run of distinct generations, looking a generation up finds the one
/// segment that has it.
pub proof fn lemma_gen_at(segs: Seq<SegView>, g: u64)
    requires
        gens_ascending(segs),
        has_gen(segs, g),
    ensures
        0 <= gen_at(segs, g) < segs.len(),
        segs[gen_at(segs, g)].gen == g,
        forall|i: int| 0 <= i < segs.len() && segs[i].gen == g ==> i == gen_at(segs, g),
{
    let w = gen_at(segs, g);
    assert(0 <= w < segs.len() && segs[w].gen == g);
    assert forall|i: int| 0 <= i < segs.len() && segs[i].gen == g implies i == w by {
        if i < w {
            assert(segs[i].gen < segs[w].gen);
        } else if i > w {
            assert(segs[w].gen < segs[i].gen);
        }
    }
}

/// Adding a segment with a fresh, larger generation moves no existing
/// segment: lookups of present generations are unchanged.
pub proof fn lemma_data_of_push(segs: Seq<SegView>, s: SegView, g: u64)
    requires
        gens_ascending(segs),
        forall|i: int| 0 <= i < segs.len() ==> segs[i].gen < s.gen,
        has_gen(segs, g),
    ensures
        gens_ascending(segs.push(s)),
        has_gen(segs.push(s), g),
        data_of(segs.push(s), g) == data_of(segs, g),
{
    let t = segs.push(s);
    assert forall|i: int, j: int| 0 <= i < j < t.len() implies t[i].gen < t[j].gen by {
        if j < segs.len() {
            assert(segs[i].gen < segs[j].gen);
        } else {
            assert(t[i] == segs[i]);
        }
    }
    lemma_gen_at(segs, g);
    let w = gen_at(segs, g);
    assert(t[w] == segs[w]);
    assert(has_gen(t, g));
    lemma_gen_at(t, g);
    assert(gen_at(t, g) == w);
}

/// The segments a list of files holds.
pub open spec fn file_views(files: Seq<SegmentFile>) -> Seq<SegView> {
    Seq::new(files.len(), |i: int| files[i]@)
}

/// The generations of the segments, in the order kept.
pub open spec fn seg_gens(segs: Seq<SegView>) -> Seq<u64> {
    Seq::new(segs.len(), |i: int| segs[i].gen)
}

/// The logical key-value contents that replaying segments produces.
pub open spec fn replay_kv(segs: Seq<SegView>) -> Map<Seq<char>, Seq<char>> {
    match replay_all(segs) {
        Some((m, u)) => Map::new(
            |k: Seq<char>| m.contains_key(k),
            |k: Seq<char>| value_of(segs, m[k]),
        ),
        None => Map::empty(),
    }
}

/// Replaying one more segment after a run of segments composes.
pub proof fn lemma_replay_segs_push(
    segs: Seq<SegView>,
    seg: SegView,
    k: int,
    m: Map<Seq<char>, CmdOffset>,
)
    requires
        0 <= k <= segs.len(),
    ensures
        replay_segs(segs.push(seg), k, m) == (match replay_segs(segs, k, m) {
            Some(p) => match replay_seg(seg.data, seg.gen, 0, p.0) {
                Some(q) => Some((q.0, p.1 + q.1)),
                None => None,
            },
            None => None,
        }),
    decreases segs.len() - k,
{
    let t = segs.push(seg);
    if k == segs.len() {
        assert(t[k] == seg);
        assert(replay_segs(segs, k, m) == Some((m, 0int)));
        match replay_seg(seg.data, seg.gen, 0, m) {
            Some(q) => {
                assert(replay_segs(t, k + 1, q.0) == Some((q.0, 0int)));
            },
            None => {},
        }
    } else {
        assert(t[k] == segs[k]);
        match replay_seg(segs[k].data, segs[k].gen, 0, m) {
            Some(q2) => {
                lemma_replay_segs_push(segs, seg, k + 1, q2.0);
            },
            None => {},
        }
    }
}

/// The bytes of one more segment add to the run's total.
pub proof fn lemma_total_bytes_step(segs: Seq<SegView>, k: int)
    requires
        0 <= k < segs.len(),
    ensures
        total_bytes(segs.subrange(0, k + 1)) == total_bytes(segs.subrange(0, k))
            + segs[k].data.len(),
{
    assert(segs.subrange(0, k + 1).drop_last() =~= segs.subrange(0, k));
    assert(segs.subrange(0, k + 1).last() == segs[k]);
}

/// A prefix of segments holds at most the whole run's bytes, and totals are
/// never negative.
pub proof fn lemma_total_bytes_prefix(segs: Seq<SegView>, k: int)
    requires
        0 <= k <= segs.len(),
    ensures
        0 <= total_bytes(segs.subrange(0, k)) <= total_bytes(segs),
        0 <= total_bytes(segs),
    decreases segs.len() - k,
{
    lemma_total_bytes_nonneg(segs.subrange(0, k));
    lemma_total_bytes_nonneg(segs);
    if k == segs.len() {
        assert(segs.subrange(0, k) =~= segs);
    } else {
        lemma_total_bytes_step(segs, k);
        lemma_total_bytes_prefix(segs, k + 1);
    }
}

/// Byte totals are never negative.
pub proof fn lemma_total_bytes_nonneg(segs: Seq<SegView>)
    ensures
        0 <= total_bytes(segs),
    decreases segs.len(),
{
    if segs.len() > 0 {
        lemma_total_bytes_nonneg(segs.drop_last());
    }
}

/// The value a record at an offset of a byte stream holds.
pub open spec fn data_value(data: Seq<u8>, start: int) -> Seq<char> {
    match spec_decode(data, start) {
        SpecDecoded::Rec { cmd, len } => match cmd {
            CmdView::Put { key, val } => val,
            CmdView::Remove { key } => Seq::empty(),
        },
        _ => Seq::empty(),
    }
}

/// Appending one encoded record to a clean stream replays to exactly one
/// more applied record: the log's central step. The stream stays clean, and
/// the new record occupies the bytes from the old end to the new one.
pub proof fn lemma_replay_append(b: Seq<u8>, gen: u64, i: int, m: Map<Seq<char>, CmdOffset>, c: CmdView)
    requires
        encodable(c),
        0 <= i <= b.len(),
        stream_end(b, i) == b.len(),
    ensures
        replay_seg(b, gen, i, m) is Some,
        stream_end(b + spec_encode(c), i) == b.len() + spec_encode(c).len(),
        match replay_seg(b, gen, i, m) {
            Some(p) => ({
                let q = apply_cmd(p.0, c, gen, b.len() as int, b.len() + spec_encode(c).len() as int);
                replay_seg(b + spec_encode(c), gen, i, m) == Some((q.0, p.1 + q.1))
            }),
            None => false,
        },
    decreases b.len() - i,
{
    let e = spec_encode(c);
    match spec_decode(b, i) {
        SpecDecoded::Rec { cmd, len } => {
            crate::codec::lemma_decode_encode(b, i);
            crate::codec::lemma_decode_extend(b, e, i);
            let st = apply_cmd(m, cmd, gen, i, i + len);
            lemma_replay_append(b, gen, i + len, st.0, c);
        },
        SpecDecoded::Incomplete => {
            assert(i == b.len());
            assert((b + e).subrange(i, i + e.len() as int) =~= e);
            crate::codec::lemma_encode_decode(b + e, i, c);
            let q = apply_cmd(m, c, gen, i, i + e.len() as int);
            assert(spec_decode(b + e, i + e.len() as int) is Incomplete);
            assert(replay_seg(b + e, gen, i + e.len() as int, q.0) == Some((q.0, 0int)));
            assert(stream_end(b + e, i + e.len() as int) == i + e.len());
            assert(replay_seg(b, gen, i, m) == Some((m, 0int)));
        },
        SpecDecoded::Malformed => {
            assert(i == b.len());
            assert(spec_decode(b, i) is Incomplete);
            assert(false);
        },
    }
}

/// Appending one encoded record to the last segment of a run replays, over
/// the whole run, to exactly one more applied record.
pub proof fn lemma_replay_segs_append_last(
    segs: Seq<SegView>,
    k: int,
    m: Map<Seq<char>, CmdOffset>,
    c: CmdView,
)
    requires
        0 <= k < segs.len(),
        encodable(c),
        clean_stream(segs.last().data),
        replay_segs(segs, k, m) is Some,
    ensures
        ({
            let last = segs.last();
            let t = segs.update(segs.len() - 1, SegView { gen: last.gen, data: last.data + spec_encode(c) });
            match replay_segs(segs, k, m) {
                Some(p) => ({
                    let q = apply_cmd(
                        p.0,
                        c,
                        last.gen,
                        last.data.len() as int,
                        last.data.len() + spec_encode(c).len() as int,
                    );
                    replay_segs(t, k, m) == Some((q.0, p.1 + q.1)) && clean_stream(t.last().data)
                }),
                None => false,
            }
        }),
    decreases segs.len() - k,
{
    let last = segs.last();
    let t = segs.update(segs.len() - 1, SegView { gen: last.gen, data: last.data + spec_encode(c) });
    if k == segs.len() - 1 {
        lemma_replay_append(last.data, last.gen, 0, m, c);
        assert(t[k] == t.last());
        assert(t.last().data == last.data + spec_encode(c));
        match replay_seg(last.data, last.gen, 0, m) {
            Some(p0) => {
                assert(replay_segs(segs, k + 1, p0.0) == Some((p0.0, 0int)));
                assert(replay_segs(segs, k, m) == Some((p0.0, p0.1 + 0)));
                let q = apply_cmd(
                    p0.0,
                    c,
                    last.gen,
                    last.data.len() as int,
                    last.data.len() + spec_encode(c).len() as int,
                );
                assert(replay_seg(t[k].data, t[k].gen, 0, m) == Some((q.0, p0.1 + q.1)));
                assert(replay_segs(t, k + 1, q.0) == Some((q.0, 0int)));
                assert(replay_segs(t, k, m) == Some((q.0, (p0.1 + q.1) + 0)));
            },
            None => {},
        }
    } else {
        assert(t[k] == segs[k]);
        match replay_seg(segs[k].data, segs[k].gen, 0, m) {
            Some(p0) => {
                lemma_replay_segs_append_last(segs, k + 1, p0.0, c);
            },
            None => {},
        }
    }
}

/// Replacing the last segment by one of the same generation moves no other
/// segment: lookups elsewhere are unchanged.
pub proof fn lemma_data_of_update_last(segs: Seq<SegView>, s2: SegView, g: u64)
    requires
        gens_ascending(segs),
        segs.len() >= 1,
        s2.gen == segs.last().gen,
        has_gen(segs, g),
    ensures
        ({
            let t = segs.update(segs.len() - 1, s2);
            &&& gens_ascending(t)
            &&& has_gen(t, g)
            &&& data_of(t, g) == if g == s2.gen {
                s2.data
            } else {
                data_of(segs, g)
            }
        }),
{
    let t = segs.update(segs.len() - 1, s2);
    assert forall|i: int, j: int| 0 <= i < j < t.len() implies (#[trigger] t[i]).gen
        < (#[trigger] t[j]).gen by {
        assert(segs[i].gen < segs[j].gen);
        if j < segs.len() - 1 {
            assert(t[i] == segs[i] && t[j] == segs[j]);
        } else {
            assert(t[j].gen == segs[j].gen);
        }
    }
    lemma_gen_at(segs, g);
    let w = gen_at(segs, g);
    if g == s2.gen {
        assert(w == segs.len() - 1);
        assert(t[w].gen == g);
        assert(has_gen(t, g));
        lemma_gen_at(t, g);
        assert(gen_at(t, g) == w);
    } else {
        assert(w < segs.len() - 1);
        assert(t[w] == segs[w]);
        assert(has_gen(t, g));
        lemma_gen_at(t, g);
        assert(gen_at(t, g) == w);
    }
}

/// A segment held in memory.
struct Segment {
    gen: u64,
    data: Vec<u8>,
}

impl View for Segment {
    type V = SegView;

    closed spec fn view(&self) -> SegView {
        SegView { gen: self.gen, data: self.data@ }
    }
}

/// When dead bytes exceed this, a `set` triggers compaction on its way out.
pub const COMPACTION_THRESHOLD: u64 = 65536;

/// The store: the contents of every live segment, the index over them, the
/// active (highest) generation, and the running count of dead bytes.
///
/// The store works on in-memory segment contents. The embedding program
/// reads segment files into `open` and mirrors every byte the store appends
/// or drops back to disk (`generations`, `segment_data`), which keeps the
/// on-disk log exactly what replay rebuilds the index from.
pub struct KvStore {
    gen: u64,
    segments: Vec<Segment>,
    index: Index,
    uncompacted_num: u64,
}

impl KvStore {
    /// The segments, mathematically.
    pub closed spec fn segs(self) -> Seq<SegView> {
        Seq::new(self.segments@.len(), |i: int| self.segments@[i]@)
    }

    /// The index, as a map from key to record location.
    pub closed spec fn index_map(self) -> Map<Seq<char>, CmdOffset> {
        self.index@
    }

    /// The dead-byte count.
    pub closed spec fn uncompacted(self) -> u64 {
        self.uncompacted_num
    }

    /// The active generation.
    pub closed spec fn active_gen(self) -> u64 {
        self.gen
    }

    /// The store's logical contents: each live key, with the value its
    /// record holds.
    pub open spec fn kv(self) -> Map<Seq<char>, Seq<char>> {
        Map::new(
            |k: Seq<char>| self.index_map().contains_key(k),
            |k: Seq<char>| value_of(self.segs(), self.index_map()[k]),
        )
    }

    /// The dead bytes a superseding write of this key would add.
    pub open spec fn stale_cost(self, k: Seq<char>) -> int {
        if self.index_map().contains_key(k) {
            self.index_map()[k].end - self.index_map()[k].start
        } else {
            0
        }
    }

    /// The bytes all segments hold together.
    pub open spec fn size(self) -> int {
        total_bytes(self.segs())
    }

    /// The store's invariant. The index is exactly what replaying every
    /// segment in ascending generation order yields, each entry points at a
    /// whole `Put` record of its own key, the active segment is the highest
    /// generation and holds only whole records, and the dead-byte count is
    /// the replay's: so the disk image alone reproduces the store.
    pub closed spec fn wf(self) -> bool {
        &&& self.segments@.len() >= 1
        &&& gens_ascending(self.segs())
        &&& self.segs().last().gen == self.gen
        &&& self.index.wf()
        &&& replay_all(self.segs()) == Some((self.index@, self.uncompacted_num as int))
        &&& clean_stream(self.segs().last().data)
        &&& forall|k: Seq<char>|
            self.index@.contains_key(k) ==> entry_valid(self.segs(), k, #[trigger] self.index@[k])
        &&& forall|j: int|
            0 <= j < self.index.entries_seq().len() ==> (#[trigger] self.index.entries_seq()[j]).off.start
                <= self.index.entries_seq()[j].off.end
        &&& self.uncompacted_num as int + sum_ranges(self.index.entries_seq()) <= self.size()
        &&& self.size() <= u64::MAX
    }
}

/// Replays one segment's records into the index, from the start of the
/// stream, and returns how many dead bytes the segment contributed: each
/// superseded or removed record's length, and each `Remove` record's own.
/// Fails with `Serialization` if the segment holds malformed bytes; a
/// truncated trailing record is tolerated and left out.
pub fn load(gen: u64, index: &mut Index, reader: &mut ReaderPos) -> (r: Result<u64, KvsError>)
    requires
        old(index).wf(),
        forall|j: int|
            0 <= j < old(index).entries_seq().len()
                ==> (#[trigger] old(index).entries_seq()[j]).off.start
                <= old(index).entries_seq()[j].off.end,
        sum_ranges(old(index).entries_seq()) + old(reader).data_spec().len() <= u64::MAX,
    ensures
        final(reader).data_spec() == old(reader).data_spec(),
        final(index).wf(),
        forall|j: int|
            0 <= j < final(index).entries_seq().len()
                ==> (#[trigger] final(index).entries_seq()[j]).off.start
                <= final(index).entries_seq()[j].off.end,
        match r {
            Ok(u) => {
                &&& replay_seg(old(reader).data_spec(), gen, 0, old(index)@) == Some(
                    (final(index)@, u as int),
                )
                &&& forall|k: Seq<char>|
                    final(index)@.contains_key(k) ==> ((old(index)@.contains_key(k)
                        && #[trigger] final(index)@[k] == old(index)@[k]) || fresh_entry_valid(
                        old(reader).data_spec(),
                        gen,
                        k,
                        final(index)@[k],
                    ))
                &&& u as int + sum_ranges(final(index).entries_seq()) <= sum_ranges(
                    old(index).entries_seq(),
                ) + old(reader).data_spec().len()
            },
            Err(e) => {
                &&& e == KvsError::Serialization
                &&& replay_seg(old(reader).data_spec(), gen, 0, old(index)@) is None
            },
        },
{
    let ghost data = reader.data_spec();
    let ghost m0 = old(index)@;
    let ghost s0 = old(index).entries_seq();
    reader.seek(0);
    let mut u: u64 = 0;
    loop
        invariant
            data == old(reader).data_spec(),
            m0 == old(index)@,
            s0 == old(index).entries_seq(),
            reader.data_spec() == data,
            reader.pos_spec() <= data.len(),
            index.wf(),
            sum_ranges(s0) + data.len() <= u64::MAX,
            forall|j: int|
                0 <= j < index.entries_seq().len() ==> (#[trigger] index.entries_seq()[j]).off.start
                    <= index.entries_seq()[j].off.end,
            u as int + sum_ranges(index.entries_seq()) <= sum_ranges(s0)
                + reader.pos_spec() as int,
            forall|k: Seq<char>|
                index@.contains_key(k) ==> ((m0.contains_key(k) && #[trigger] index@[k] == m0[k])
                    || fresh_entry_valid(data, gen, k, index@[k])),
            match replay_seg(data, gen, reader.pos_spec() as int, index@) {
                Some((mf, du)) => replay_seg(data, gen, 0, m0) == Some((mf, u + du)),
                None => replay_seg(data, gen, 0, m0) is None,
            },
        decreases data.len() - reader.pos_spec(),
    {
        let ghost m_in = index@;
        let ghost pos_in = reader.pos_spec() as int;
        let ghost entries_in = index.entries_seq();
        let ghost u_in = u;
        proof {
            index.lemma_view();
        }
        let pos = reader.pos();
        match crate::codec::read_cmd(reader) {
            Decoded::Rec { cmd, len } => {
                let ghost cv = cmd@;
                proof {
                    crate::codec::lemma_decode_encode(data, pos_in);
                }
                let start = pos;
                let end = pos + len as u64;
                let ghost step = apply_cmd(m_in, cmd@, gen, pos_in, pos_in + len as int);
                match cmd {
                    Command::Put { key, val } => {
                        let off = CmdOffset { gen, start, end };
                        let ghost key_v = key@;
                        match index.insert(key, off) {
                            Some(former) => {
                                proof {
                                    crate::index::lemma_entries_map_domain(entries_in);
                                    let j = choose|j: int|
                                        0 <= j < entries_in.len() && entries_in[j].key@ == key_v;
                                    crate::index::lemma_entries_map_index(entries_in, j);
                                    crate::index::lemma_sum_ranges_element(entries_in, j);
                                }
                                u = u + (former.end - former.start);
                            },
                            None => {},
                        }
                        proof {
                            assert(index@ == step.0);
                            assert forall|j: int|
                                0 <= j < index.entries_seq().len() implies (#[trigger] index.entries_seq()[j]).off.start
                                <= index.entries_seq()[j].off.end by {
                                if index.entries_seq()[j].off != off {
                                    let j2 = choose|j2: int|
                                        0 <= j2 < entries_in.len() && index.entries_seq()[j].off
                                            == entries_in[j2].off;
                                    assert(entries_in[j2].off.start <= entries_in[j2].off.end);
                                }
                            }
                        }
                    },
                    Command::Remove { key } => {
                        let ghost key_v = key@;
                        match index.remove(&key) {
                            Some(former) => {
                                proof {
                                    crate::index::lemma_entries_map_domain(entries_in);
                                    let j = choose|j: int|
                                        0 <= j < entries_in.len() && entries_in[j].key@ == key_v;
                                    crate::index::lemma_entries_map_index(entries_in, j);
                                    crate::index::lemma_sum_ranges_element(entries_in, j);
                                }
                                u = u + (former.end - former.start);
                            },
                            None => {},
                        }
                        proof {
                            crate::index::lemma_sum_ranges_nonneg(entries_in);
                            assert(pos_in + len <= data.len());
                            assert forall|j: int|
                                0 <= j < index.entries_seq().len() implies (#[trigger] index.entries_seq()[j]).off.start
                                <= index.entries_seq()[j].off.end by {
                                let j2 = choose|j2: int|
                                    0 <= j2 < entries_in.len() && index.entries_seq()[j].off
                                        == entries_in[j2].off;
                                assert(entries_in[j2].off.start <= entries_in[j2].off.end);
                            }
                        }
                        u = u + (end - start);
                        proof {
                            assert(index@ == step.0);
                        }
                    },
                }
                proof {
                    assert(u == u_in + step.1);
                    assert(spec_decode(data, pos_in) == (SpecDecoded::Rec {
                        cmd: cv,
                        len: len as int,
                    }));
                    assert(replay_seg(data, gen, pos_in, m_in) == (match replay_seg(
                        data,
                        gen,
                        pos_in + len as int,
                        step.0,
                    ) {
                        Some((m3, rest)) => Some((m3, step.1 + rest)),
                        None => None,
                    }));
                }
            },
            Decoded::Incomplete => {
                proof {
                    assert(replay_seg(data, gen, pos_in, m_in) == Some((m_in, 0int)));
                }
                return Ok(u);
            },
            Decoded::Malformed => {
                proof {
                    assert(replay_seg(data, gen, pos_in, m_in) is None);
                }
                return Err(KvsError::Serialization);
            },
        }
    }
}

impl KvStore {
    /// Opens a store from the contents of the segment files found in its
    /// directory, in ascending generation order: replays every record into a
    /// fresh index, counts the dead bytes, and starts a new, empty active
    /// segment one generation past the highest found. Fails with
    /// `Serialization` exactly when some segment holds malformed bytes.
    pub fn open(files: Vec<SegmentFile>) -> (r: Result<KvStore, KvsError>)
        requires
            forall|i: int, j: int|
                0 <= i < j < files@.len() ==> (#[trigger] files@[i]).gen < (#[trigger] files@[j]).gen,
            files@.len() > 0 ==> files@[files@.len() - 1].gen < u64::MAX,
            total_bytes(file_views(files@)) <= u64::MAX,
        ensures
            r is Ok <==> replay_all(file_views(files@)) is Some,
            match r {
                Ok(s) => {
                    &&& s.wf()
                    &&& replay_all(file_views(files@)) == Some(
                        (s.index_map(), s.uncompacted() as int),
                    )
                    &&& s.kv() == replay_kv(file_views(files@))
                    &&& s.active_gen() == if files@.len() > 0 {
                        (files@[files@.len() - 1].gen + 1) as u64
                    } else {
                        1u64
                    }
                    &&& s.size() == total_bytes(file_views(files@))
                    &&& s.segs() == file_views(files@).push(
                        SegView { gen: s.active_gen(), data: Seq::empty() },
                    )
                },
                Err(e) => e == KvsError::Serialization,
            },
    {
        let ghost views = file_views(files@);
        let ghost n = views.len() as int;
        let active_gen: u64 = if files.len() == 0 {
            1
        } else {
            files[files.len() - 1].gen + 1
        };
        let mut index = Index::new();
        let mut segments: Vec<Segment> = Vec::new();
        let mut unc: u64 = 0;
        let mut ki: usize = 0;
        proof {
            assert(views.subrange(0, 0) =~= Seq::<SegView>::empty());
            assert(Seq::new(segments@.len(), |i: int| segments@[i]@) =~= views.subrange(0, 0));
        }
        while ki < files.len()
            invariant
                views == file_views(files@),
                views.len() == n,
                ki <= n,
                total_bytes(views) <= u64::MAX,
                forall|i: int, j: int|
                    0 <= i < j < n ==> (#[trigger] views[i]).gen < (#[trigger] views[j]).gen,
                forall|i: int| 0 <= i < n ==> (#[trigger] views[i]).gen < active_gen,
                segments@.len() == ki,
                Seq::new(segments@.len(), |i: int| segments@[i]@) == views.subrange(0, ki as int),
                index.wf(),
                forall|j: int|
                    0 <= j < index.entries_seq().len()
                        ==> (#[trigger] index.entries_seq()[j]).off.start
                        <= index.entries_seq()[j].off.end,
                unc as int + sum_ranges(index.entries_seq()) <= total_bytes(
                    views.subrange(0, ki as int),
                ),
                forall|k: Seq<char>|
                    index@.contains_key(k) ==> entry_valid(
                        views.subrange(0, ki as int),
                        k,
                        #[trigger] index@[k],
                    ),
                match replay_segs(views, ki as int, index@) {
                    Some(p) => replay_all(views) == Some((p.0, unc + p.1)),
                    None => replay_all(views) is None,
                },
            decreases n - ki,
        {
            let ghost k = ki as int;
            let ghost done = views.subrange(0, k);
            let ghost m_in = index@;
            let ghost entries_in = index.entries_seq();
            let gen = files[ki].gen;
            let data_in = vstd::slice::slice_to_vec(files[ki].data.as_slice());
            proof {
                assert(views[k] == files@[k]@);
                assert((SegView { gen, data: data_in@ }) == views[k]);
                lemma_total_bytes_step(views, k);
                lemma_total_bytes_prefix(views, k + 1);
                crate::index::lemma_sum_ranges_nonneg(entries_in);
            }
            let mut reader = ReaderPos::new(data_in);
            let res = load(gen, &mut index, &mut reader);
            let data = reader.into_inner();
            match res {
                Ok(du) => {
                    proof {
                        crate::index::lemma_sum_ranges_nonneg(index.entries_seq());
                        assert(replay_seg(views[k].data, views[k].gen, 0, m_in) == Some(
                            (index@, du as int),
                        ));
                        assert(replay_segs(views, k, m_in) == (match replay_segs(
                            views,
                            k + 1,
                            index@,
                        ) {
                            Some(p) => Some((p.0, du + p.1)),
                            None => None,
                        }));
                    }
                    unc = unc + du;
                    segments.push(Segment { gen, data });
                    ki = ki + 1;
                    proof {
                        let done2 = views.subrange(0, k + 1);
                        assert(Seq::new(segments@.len(), |i: int| segments@[i]@) =~= done2);
                        assert(done2.drop_last() =~= done);
                        assert forall|kk: Seq<char>| index@.contains_key(kk) implies entry_valid(
                            done2,
                            kk,
                            #[trigger] index@[kk],
                        ) by {
                            if m_in.contains_key(kk) && index@[kk] == m_in[kk] {
                                let off = index@[kk];
                                assert(entry_valid(done, kk, off));
                                assert forall|i2: int|
                                    0 <= i2 < done.len() implies (#[trigger] done[i2]).gen
                                    < views[k].gen by {
                                    assert(done[i2] == views[i2]);
                                }
                                lemma_data_of_push(done, views[k], off.gen);
                                assert(done.push(views[k]) =~= done2);
                            } else {
                                let off = index@[kk];
                                assert(fresh_entry_valid(views[k].data, gen, kk, off));
                                assert(done2[k] == views[k]);
                                assert(has_gen(done2, gen));
                                assert forall|i2: int, j2: int|
                                    0 <= i2 < j2 < done2.len() implies (#[trigger] done2[i2]).gen
                                    < (#[trigger] done2[j2]).gen by {
                                    assert(done2[i2] == views[i2] && done2[j2] == views[j2]);
                                }
                                lemma_gen_at(done2, gen);
                                assert(gen_at(done2, gen) == k);
                                assert(data_of(done2, gen) == views[k].data);
                            }
                        }
                    }
                },
                Err(e) => {
                    proof {
                        assert(replay_seg(views[k].data, views[k].gen, 0, m_in) is None);
                        assert(replay_segs(views, k, m_in) is None);
                    }
                    return Err(e);
                },
            }
        }
        let ghost built = Seq::new(segments@.len(), |i: int| segments@[i]@);
        proof {
            assert(built =~= views);
        }
        let active = Segment { gen: active_gen, data: Vec::new() };
        let ghost av = active@;
        segments.push(active);
        let store = KvStore { gen: active_gen, segments, index, uncompacted_num: unc };
        proof {
            assert(store.segs() =~= views.push(av));
            assert(spec_decode(av.data, 0) is Incomplete);
            assert(stream_end(av.data, 0) == 0);
            assert(clean_stream(av.data));
            lemma_replay_segs_push(views, av, 0, Map::empty());
            assert(replay_seg(av.data, av.gen, 0, store.index@) == Some((store.index@, 0int)));
            assert forall|i2: int, j2: int|
                0 <= i2 < j2 < store.segs().len() implies (#[trigger] store.segs()[i2]).gen
                < (#[trigger] store.segs()[j2]).gen by {
                if j2 < views.len() {
                    assert(store.segs()[i2] == views[i2] && store.segs()[j2] == views[j2]);
                } else {
                    assert(store.segs()[i2] == views[i2]);
                    assert(store.segs()[j2] == av);
                }
            }
            assert forall|kk: Seq<char>| store.index@.contains_key(kk) implies entry_valid(
                store.segs(),
                kk,
                #[trigger] store.index@[kk],
            ) by {
                let off = store.index@[kk];
                assert(entry_valid(views, kk, off));
                lemma_data_of_push(views, av, off.gen);
                assert(views.push(av) =~= store.segs());
            }
            lemma_total_bytes_prefix(views, n);
            assert(store.segs().drop_last() =~= views);
            assert(total_bytes(store.segs()) == total_bytes(views));
            assert(store.wf());
            assert forall|kk: Seq<char>| true implies #[trigger] store.kv().contains_key(kk)
                == replay_kv(views).contains_key(kk) && (store.kv().contains_key(kk)
                ==> store.kv()[kk] == replay_kv(views)[kk]) by {
                if store.index@.contains_key(kk) {
                    let off = store.index@[kk];
                    lemma_data_of_push(views, av, off.gen);
                    assert(views.push(av) =~= store.segs());
                }
            }
            assert(store.kv() =~= replay_kv(views));
        }
        Ok(store)
    }

    /// Looks a key up: `Ok(Some(v))` when the key is live with value `v`,
    /// `Ok(None)` when it is not. The store's invariant guarantees the
    /// looked-up record decodes and matches, so no error is ever returned.
    pub fn get(&self, key: String) -> (r: Result<Option<String>, KvsError>)
        requires
            self.wf(),
        ensures
            match r {
                Ok(Some(v)) => self.kv().contains_key(key@) && v@ == self.kv()[key@],
                Ok(None) => !self.kv().contains_key(key@),
                Err(_) => false,
            },
    {
        match self.index.lookup(&key) {
            None => Ok(None),
            Some(off) => {
                proof {
                    assert(entry_valid(self.segs(), key@, off));
                    lemma_gen_at(self.segs(), off.gen);
                }
                let mut si: usize = 0;
                while si < self.segments.len() && self.segments[si].gen != off.gen
                    invariant
                        self.wf(),
                        si <= self.segments@.len(),
                        forall|i: int| 0 <= i < si ==> (#[trigger] self.segs()[i]).gen != off.gen,
                        entry_valid(self.segs(), key@, off),
                    decreases self.segments@.len() - si,
                {
                    si = si + 1;
                }
                if si == self.segments.len() {
                    proof {
                        lemma_gen_at(self.segs(), off.gen);
                        assert(false);
                    }
                    return Err(KvsError::CorruptIndex);
                }
                proof {
                    assert(entry_valid(self.segs(), key@, off));
                    assert(self.segs()[si as int].gen == off.gen);
                    lemma_gen_at(self.segs(), off.gen);
                    assert(gen_at(self.segs(), off.gen) == si);
                    assert(self.segments@[si as int].data@ == data_of(self.segs(), off.gen));
                    assert(off.end <= self.segments@[si as int].data@.len());
                    crate::codec::lemma_decode_subrange(data_of(self.segs(), off.gen), off.start as int);
                }
                let seg = &self.segments[si];
                let dlen = seg.data.len();
                proof {
                    assert(off.end <= dlen);
                    assert(off.start < off.end);
                }
                let start = off.start as usize;
                let end = off.end as usize;
                let bytes = vstd::slice::slice_to_vec(
                    vstd::slice::slice_subrange(seg.data.as_slice(), start, end),
                );
                proof {
                    assert(bytes@ == data_of(self.segs(), off.gen).subrange(
                        off.start as int,
                        off.end as int,
                    ));
                }
                match crate::codec::decode_cmd(&bytes, 0) {
                    Decoded::Rec { cmd, len } => match cmd {
                        Command::Put { key: k2, val } => {
                            if k2 == key {
                                Ok(Some(val))
                            } else {
                                proof {
                                    assert(false);
                                }
                                Err(KvsError::CorruptIndex)
                            }
                        },
                        Command::Remove { .. } => {
                            proof {
                                assert(false);
                            }
                            Err(KvsError::CorruptIndex)
                        },
                    },
                    _ => {
                        proof {
                            assert(false);
                        }
                        Err(KvsError::CorruptIndex)
                    },
                }
            },
        }
    }

    /// How many dead bytes the segments hold: bytes of records no longer
    /// reachable from the index.
    pub fn uncompacted_bytes(&self) -> (r: u64)
        ensures
            r == self.uncompacted(),
    {
        self.uncompacted_num
    }

    /// The generation new records are appended to.
    pub fn active_generation(&self) -> (r: u64)
        ensures
            r == self.active_gen(),
    {
        self.gen
    }

    /// How many keys are live.
    pub fn index_len(&self) -> (r: usize)
        requires
            self.wf(),
        ensures
            r == self.index_map().dom().len(),
    {
        proof {
            self.index.lemma_view();
            crate::index::lemma_entries_map_len(self.index.entries_seq());
        }
        self.index.len()
    }

    /// The generations of the live segments, ascending; the last is active.
    pub fn generations(&self) -> (r: Vec<u64>)
        ensures
            r@ == seg_gens(self.segs()),
            self.wf() ==> r@.len() >= 1 && r@.last() == self.active_gen() && forall|i: int, j: int|
                0 <= i < j < r@.len() ==> r@[i] < r@[j],
    {
        let mut out: Vec<u64> = Vec::new();
        let mut i: usize = 0;
        while i < self.segments.len()
            invariant
                i <= self.segments@.len(),
                out@ == seg_gens(self.segs()).subrange(0, i as int),
            decreases self.segments@.len() - i,
        {
            out.push(self.segments[i].gen);
            i = i + 1;
            proof {
                assert(out@ =~= seg_gens(self.segs()).subrange(0, i as int));
            }
        }
        proof {
            assert(out@ =~= seg_gens(self.segs()));
        }
        out
    }

    /// A copy of one segment's bytes, or `None` for a generation no segment
    /// has. The embedding program appends `data[len..]` to the segment's
    /// file whenever the file is shorter.
    pub fn segment_data(&self, gen: u64) -> (r: Option<Vec<u8>>)
        requires
            self.wf(),
        ensures
            match r {
                Some(d) => has_gen(self.segs(), gen) && d@ == data_of(self.segs(), gen),
                None => !has_gen(self.segs(), gen),
            },
    {
        let mut si: usize = 0;
        while si < self.segments.len()
            invariant
                self.wf(),
                si <= self.segments@.len(),
                forall|i: int| 0 <= i < si ==> (#[trigger] self.segs()[i]).gen != gen,
            decreases self.segments@.len() - si,
        {
            if self.segments[si].gen == gen {
                proof {
                    assert(self.segs()[si as int].gen == gen);
                    assert(has_gen(self.segs(), gen));
                    lemma_gen_at(self.segs(), gen);
                    assert(gen_at(self.segs(), gen) == si);
                }
                let d = vstd::slice::slice_to_vec(self.segments[si].data.as_slice());
                return Some(d);
            }
            si = si + 1;
        }
        None
    }

    /// The bytes all segments hold together: the store's size on disk.
    pub fn size_in_bytes(&self) -> (r: u64)
        requires
            self.wf(),
        ensures
            r as int == self.size(),
    {
        let mut total: u64 = 0;
        let mut i: usize = 0;
        proof {
            assert(self.segs().subrange(0, 0) =~= Seq::<SegView>::empty());
        }
        while i < self.segments.len()
            invariant
                self.wf(),
                i <= self.segments@.len(),
                total as int == total_bytes(self.segs().subrange(0, i as int)),
            decreases self.segments@.len() - i,
        {
            proof {
                lemma_total_bytes_step(self.segs(), i as int);
                lemma_total_bytes_prefix(self.segs(), i + 1);
            }
            total = total + self.segments[i].data.len() as u64;
            i = i + 1;
        }
        proof {
            assert(self.segs().subrange(0, self.segs().len() as int) =~= self.segs());
        }
        total
    }
}

impl KvStore {
    /// The bytes the live records occupy: what a compacted store would hold.
    pub closed spec fn live_bytes(self) -> int {
        sum_ranges(self.index.entries_seq())
    }

    /// The index's entries as listed, for contracts that speak of each
    /// entry's location.
    pub closed spec fn index_entries(self) -> Seq<IndexEntry> {
        self.index.entries_seq()
    }

    /// Appends one `Put` record to the active segment and installs its
    /// location in the index. A superseded former record's bytes turn dead;
    /// when the dead bytes then exceed `COMPACTION_THRESHOLD`, compaction
    /// runs before the call returns.
    #[verifier::rlimit(100)]
    #[verifier::spinoff_prover]
    pub fn set(&mut self, key: String, val: String) -> (r: Result<(), KvsError>)
        requires
            old(self).wf(),
            old(self).size() + spec_encode(CmdView::Put { key: key@, val: val@ }).len()
                <= u64::MAX,
            old(self).active_gen() <= u64::MAX - 2,
        ensures
            r is Ok,
            final(self).wf(),
            final(self).kv() == old(self).kv().insert(key@, val@),
            ({
                let e = spec_encode(CmdView::Put { key: key@, val: val@ });
                let w = old(self).segs().last().data.len() as int;
                let appended = old(self).segs().update(
                    old(self).segs().len() - 1,
                    SegView {
                        gen: old(self).active_gen(),
                        data: old(self).segs().last().data + e,
                    },
                );
                let noff = CmdOffset {
                    gen: old(self).active_gen(),
                    start: w as u64,
                    end: (w + e.len()) as u64,
                };
                let u2 = old(self).uncompacted() + old(self).stale_cost(key@);
                if u2 > COMPACTION_THRESHOLD {
                    &&& final(self).uncompacted() == 0
                    &&& final(self).active_gen() == old(self).active_gen() + 2
                    &&& seg_gens(final(self).segs()) == seq![
                        (old(self).active_gen() + 1) as u64,
                        (old(self).active_gen() + 2) as u64,
                    ]
                    &&& final(self).index_map().dom() == old(self).index_map().dom().insert(key@)
                    &&& final(self).size() == old(self).live_bytes() - old(self).stale_cost(key@)
                        + e.len()
                    &&& final(self).size() < old(self).size() + e.len()
                } else {
                    &&& final(self).uncompacted() == u2
                    &&& final(self).active_gen() == old(self).active_gen()
                    &&& final(self).segs() == appended
                    &&& final(self).index_map() == old(self).index_map().insert(key@, noff)
                    &&& final(self).size() == old(self).size() + e.len()
                }
            }),
            final(self).size() <= old(self).size() + spec_encode(
                CmdView::Put { key: key@, val: val@ },
            ).len(),
    {
        let ghost oldsegs = self.segs();
        let ghost old_m = self.index@;
        let ghost old_entries = self.index.entries_seq();
        let ghost old_unc = self.uncompacted_num;
        let ghost cv = CmdView::Put { key: key@, val: val@ };
        proof {
            self.index.lemma_view();
        }
        let cmd = Command::Put { key, val };
        let mut enc = crate::codec::encode_cmd(&cmd);
        let ghost e = enc@;
        let (key, val) = match cmd {
            Command::Put { key, val } => (key, val),
            Command::Remove { .. } => {
                proof {
                    assert(false);
                }
                (String::new(), String::new())
            },
        };
        let mut seg = match self.segments.pop() {
            Some(s) => s,
            None => {
                proof {
                    assert(false);
                }
                return Err(KvsError::CorruptIndex);
            },
        };
        proof {
            assert(seg@ == oldsegs.last());
            lemma_total_bytes_nonneg(oldsegs.drop_last());
            assert(total_bytes(oldsegs) == total_bytes(oldsegs.drop_last())
                + oldsegs.last().data.len());
        }
        let start = seg.data.len() as u64;
        seg.data.append(&mut enc);
        let end = seg.data.len() as u64;
        let gen = self.gen;
        let ghost newlast = SegView { gen: oldsegs.last().gen, data: oldsegs.last().data + e };
        self.segments.push(seg);
        proof {
            assert(self.segs() =~= oldsegs.update(oldsegs.len() - 1, newlast));
            lemma_replay_segs_append_last(oldsegs, 0, Map::empty(), cv);
            assert(self.segs().drop_last() =~= oldsegs.drop_last());
            assert(total_bytes(self.segs()) == total_bytes(oldsegs) + e.len());
        }
        let off = CmdOffset { gen, start, end };
        let ghost key_v = key@;
        let former = self.index.insert(key, off);
        match former {
            Some(f) => {
                proof {
                    crate::index::lemma_entries_map_domain(old_entries);
                    let j = choose|j: int|
                        0 <= j < old_entries.len() && old_entries[j].key@ == key_v;
                    crate::index::lemma_entries_map_index(old_entries, j);
                    crate::index::lemma_sum_ranges_element(old_entries, j);
                }
                self.uncompacted_num = self.uncompacted_num + (f.end - f.start);
            },
            None => {},
        }
        proof {
            crate::index::lemma_sum_ranges_nonneg(self.index.entries_seq());
            assert forall|j: int|
                0 <= j < self.index.entries_seq().len() implies (#[trigger] self.index.entries_seq()[j]).off.start
                <= self.index.entries_seq()[j].off.end by {
                if self.index.entries_seq()[j].off != off {
                    let j2 = choose|j2: int|
                        0 <= j2 < old_entries.len() && self.index.entries_seq()[j].off
                            == old_entries[j2].off;
                    assert(old_entries[j2].off.start <= old_entries[j2].off.end);
                }
            }
            let q = apply_cmd(old_m, cv, gen, oldsegs.last().data.len() as int,
                oldsegs.last().data.len() + e.len() as int);
            assert(q.0 == self.index@);
            assert(replay_all(self.segs()) == Some((self.index@, self.uncompacted_num as int)));
            assert(newlast.data.subrange(
                oldsegs.last().data.len() as int,
                oldsegs.last().data.len() + e.len() as int,
            ) =~= e);
            crate::codec::lemma_encode_decode(newlast.data, oldsegs.last().data.len() as int, cv);
            assert forall|kk: Seq<char>| self.index@.contains_key(kk) implies entry_valid(
                self.segs(),
                kk,
                #[trigger] self.index@[kk],
            ) by {
                if kk == key_v {
                    assert(self.segs().last().gen == gen);
                    assert(has_gen(self.segs(), gen));
                    lemma_gen_at(self.segs(), gen);
                    assert(gen_at(self.segs(), gen) == self.segs().len() - 1);
                    assert(data_of(self.segs(), gen) == newlast.data);
                } else {
                    let o2 = old_m[kk];
                    assert(entry_valid(oldsegs, kk, o2));
                    lemma_data_of_update_last(oldsegs, newlast, o2.gen);
                    if o2.gen == newlast.gen {
                        crate::codec::lemma_decode_extend(oldsegs.last().data, e, o2.start as int);
                    }
                }
            }
            assert(self.wf());
            assert forall|kk: Seq<char>| true implies (#[trigger] self.kv().contains_key(kk)
                == old_m.insert(key_v, off).contains_key(kk)) && (self.kv().contains_key(kk)
                ==> self.kv()[kk] == old(self).kv().insert(key_v, val@)[kk]) by {
                if self.index@.contains_key(kk) && kk != key_v {
                    let o2 = old_m[kk];
                    assert(entry_valid(oldsegs, kk, o2));
                    lemma_data_of_update_last(oldsegs, newlast, o2.gen);
                    if o2.gen == newlast.gen {
                        crate::codec::lemma_decode_extend(oldsegs.last().data, e, o2.start as int);
                    }
                }
            }
            assert(self.kv() =~= old(self).kv().insert(key_v, val@));
        }
        let ghost mid = *self;
        proof {
            assert(self.segs() == oldsegs.update(
                oldsegs.len() - 1,
                SegView { gen: old(self).active_gen(), data: oldsegs.last().data + e },
            ));
            assert(self.index@ == old_m.insert(
                key_v,
                CmdOffset {
                    gen: old(self).active_gen(),
                    start: oldsegs.last().data.len() as u64,
                    end: (oldsegs.last().data.len() + e.len()) as u64,
                },
            ));
        }
        if self.uncompacted_num > COMPACTION_THRESHOLD {
            proof {
                crate::index::lemma_sum_ranges_nonneg(self.index.entries_seq());
                assert(self.live_bytes() < self.size());
                assert(self.live_bytes() == sum_ranges(old_entries) - old(self).stale_cost(key_v)
                    + e.len());
            }
            let cr = self.compact();
            match cr {
                Ok(()) => {
                    proof {
                        assert(self.index_map().dom() =~= old_m.dom().insert(key_v));
                    }
                },
                Err(_) => {
                    proof {
                        assert(false);
                    }
                    return cr;
                },
            }
        }
        Ok(())
    }

    /// Removes a key: appends a `Remove` record to the active segment and
    /// drops the key's index entry, counting both the dropped record's bytes
    /// and the `Remove` record's own as dead. Fails with `KeyNotFound`, and
    /// changes nothing, exactly when the key is not live.
    pub fn remove(&mut self, key: String) -> (r: Result<(), KvsError>)
        requires
            old(self).wf(),
            old(self).size() + spec_encode(CmdView::Remove { key: key@ }).len() <= u64::MAX,
        ensures
            final(self).wf(),
            r is Ok <==> old(self).kv().contains_key(key@),
            old(self).kv().contains_key(key@) ==> {
                &&& final(self).kv() == old(self).kv().remove(key@)
                &&& final(self).index_map() == old(self).index_map().remove(key@)
                &&& final(self).segs() == old(self).segs().update(
                    old(self).segs().len() - 1,
                    SegView {
                        gen: old(self).active_gen(),
                        data: old(self).segs().last().data + spec_encode(
                            CmdView::Remove { key: key@ },
                        ),
                    },
                )
                &&& final(self).uncompacted() == old(self).uncompacted() + old(self).stale_cost(
                    key@,
                ) + spec_encode(CmdView::Remove { key: key@ }).len()
                &&& final(self).active_gen() == old(self).active_gen()
                &&& final(self).size() == old(self).size() + spec_encode(
                    CmdView::Remove { key: key@ },
                ).len()
            },
            !old(self).kv().contains_key(key@) ==> {
                &&& r == Err::<(), KvsError>(KvsError::KeyNotFound)
                &&& final(self).kv() == old(self).kv()
                &&& final(self).index_map() == old(self).index_map()
                &&& final(self).uncompacted() == old(self).uncompacted()
                &&& final(self).active_gen() == old(self).active_gen()
                &&& final(self).size() == old(self).size()
                &&& final(self).segs() == old(self).segs()
            },
    {
        let ghost oldsegs = self.segs();
        let ghost old_m = self.index@;
        let ghost old_entries = self.index.entries_seq();
        let ghost cv = CmdView::Remove { key: key@ };
        let ghost key_v = key@;
        proof {
            self.index.lemma_view();
        }
        let former = match self.index.remove(&key) {
            None => {
                return Err(KvsError::KeyNotFound);
            },
            Some(f) => f,
        };
        proof {
            crate::index::lemma_entries_map_domain(old_entries);
            let j = choose|j: int| 0 <= j < old_entries.len() && old_entries[j].key@ == key_v;
            crate::index::lemma_entries_map_index(old_entries, j);
            crate::index::lemma_sum_ranges_element(old_entries, j);
            crate::index::lemma_sum_ranges_nonneg(self.index.entries_seq());
        }
        self.uncompacted_num = self.uncompacted_num + (former.end - former.start);
        let cmd = Command::Remove { key };
        let mut enc = crate::codec::encode_cmd(&cmd);
        let ghost e = enc@;
        let rm_len = enc.len();
        let mut seg = match self.segments.pop() {
            Some(s) => s,
            None => {
                proof {
                    assert(false);
                }
                return Err(KvsError::CorruptIndex);
            },
        };
        proof {
            assert(seg@ == oldsegs.last());
            lemma_total_bytes_nonneg(oldsegs.drop_last());
            assert(total_bytes(oldsegs) == total_bytes(oldsegs.drop_last())
                + oldsegs.last().data.len());
        }
        seg.data.append(&mut enc);
        let ghost newlast = SegView { gen: oldsegs.last().gen, data: oldsegs.last().data + e };
        self.segments.push(seg);
        proof {
            assert(self.segs() =~= oldsegs.update(oldsegs.len() - 1, newlast));
            lemma_replay_segs_append_last(oldsegs, 0, Map::empty(), cv);
            assert(self.segs().drop_last() =~= oldsegs.drop_last());
            assert(total_bytes(self.segs()) == total_bytes(oldsegs) + e.len());
        }
        self.uncompacted_num = self.uncompacted_num + rm_len as u64;
        proof {
            assert forall|j: int|
                0 <= j < self.index.entries_seq().len() implies (#[trigger] self.index.entries_seq()[j]).off.start
                <= self.index.entries_seq()[j].off.end by {
                let j2 = choose|j2: int|
                    0 <= j2 < old_entries.len() && self.index.entries_seq()[j].off
                        == old_entries[j2].off;
                assert(old_entries[j2].off.start <= old_entries[j2].off.end);
            }
            let q = apply_cmd(old_m, cv, oldsegs.last().gen, oldsegs.last().data.len() as int,
                oldsegs.last().data.len() + e.len() as int);
            assert(q.0 == self.index@);
            assert(replay_all(self.segs()) == Some((self.index@, self.uncompacted_num as int)));
            assert forall|kk: Seq<char>| self.index@.contains_key(kk) implies entry_valid(
                self.segs(),
                kk,
                #[trigger] self.index@[kk],
            ) by {
                let o2 = old_m[kk];
                assert(entry_valid(oldsegs, kk, o2));
                lemma_data_of_update_last(oldsegs, newlast, o2.gen);
                if o2.gen == newlast.gen {
                    crate::codec::lemma_decode_extend(oldsegs.last().data, e, o2.start as int);
                }
            }
            assert(self.wf());
            assert forall|kk: Seq<char>| self.kv().contains_key(kk) implies self.kv()[kk] == old(
                self,
            ).kv()[kk] by {
                let o2 = old_m[kk];
                assert(entry_valid(oldsegs, kk, o2));
                lemma_data_of_update_last(oldsegs, newlast, o2.gen);
                if o2.gen == newlast.gen {
                    crate::codec::lemma_decode_extend(oldsegs.last().data, e, o2.start as int);
                }
            }
            assert(self.kv() =~= old(self).kv().remove(key_v));
        }
        Ok(())
    }
}

impl KvStore {
    /// Rewrites every live record, verbatim, into a fresh compaction
    /// segment, points the index at the new locations, starts a new active
    /// segment past it, and drops every older segment. The store's logical
    /// contents do not change; the dead bytes all go: afterwards the store
    /// holds exactly its live records.
    pub fn compact(&mut self) -> (r: Result<(), KvsError>)
        requires
            old(self).wf(),
            old(self).active_gen() <= u64::MAX - 2,
        ensures
            r is Ok,
            final(self).wf(),
            final(self).kv() == old(self).kv(),
            final(self).index_map().dom() == old(self).index_map().dom(),
            final(self).uncompacted() == 0,
            final(self).active_gen() == old(self).active_gen() + 2,
            seg_gens(final(self).segs()) == seq![
                (old(self).active_gen() + 1) as u64,
                (old(self).active_gen() + 2) as u64,
            ],
            final(self).size() == old(self).live_bytes(),
            ({
                let oe = old(self).index_entries();
                let ne = final(self).index_entries();
                let cg = (old(self).active_gen() + 1) as u64;
                &&& ne.len() == oe.len()
                &&& forall|j: int| 0 <= j < ne.len() ==> (#[trigger] ne[j]).key@ == oe[j].key@
                &&& forall|j: int|
                    0 <= j < ne.len() ==> (#[trigger] ne[j]).off.gen == cg && ne[j].off.start
                        < ne[j].off.end <= data_of(final(self).segs(), cg).len()
                &&& forall|j: int|
                    0 <= j < ne.len() ==> (#[trigger] ne[j]).off.start as int == (if j == 0 {
                        0int
                    } else {
                        ne[j - 1].off.end as int
                    })
                &&& forall|j: int|
                    0 <= j < ne.len() ==> data_of(final(self).segs(), cg).subrange(
                        (#[trigger] ne[j]).off.start as int,
                        ne[j].off.end as int,
                    ) == data_of(old(self).segs(), oe[j].off.gen).subrange(
                        oe[j].off.start as int,
                        oe[j].off.end as int,
                    )
            }),
    {
        let ghost oldsegs = self.segs();
        let ghost old_m = self.index@;
        let ghost old_entries = self.index.entries_seq();
        let compaction_gen = self.gen + 1;
        let new_gen = self.gen + 2;
        let mut buf: Vec<u8> = Vec::new();
        let mut new_index = Index::new();
        let n = self.index.len();
        let mut j: usize = 0;
        proof {
            self.index.lemma_view();
            crate::index::lemma_sum_ranges_nonneg(old_entries);
        }
        while j < n
            invariant
                self.wf(),
                self.index@ == old_m,
                self.index.entries_seq() == old_entries,
                self.segs() == oldsegs,
                old_m == crate::index::entries_map(old_entries),
                n == old_entries.len(),
                j <= n,
                new_index.wf(),
                clean_stream(buf@),
                replay_seg(buf@, compaction_gen, 0, Map::empty()) == Some((new_index@, 0int)),
                sum_ranges(new_index.entries_seq()) == buf@.len(),
                forall|jj: int|
                    0 <= jj < new_index.entries_seq().len()
                        ==> (#[trigger] new_index.entries_seq()[jj]).off.start
                        <= new_index.entries_seq()[jj].off.end,
                buf@.len() == sum_ranges(old_entries.subrange(0, j as int)),
                forall|kk: Seq<char>|
                    #[trigger] new_index@.contains_key(kk) ==> exists|jj: int|
                        0 <= jj < j && old_entries[jj].key@ == kk,
                forall|kk: Seq<char>|
                    #[trigger] new_index@.contains_key(kk) ==> old_m.contains_key(kk)
                        && fresh_entry_valid(buf@, compaction_gen, kk, new_index@[kk])
                        && data_value(buf@, new_index@[kk].start as int) == value_of(
                        oldsegs,
                        old_m[kk],
                    ),
                forall|jj: int|
                    0 <= jj < j ==> new_index@.contains_key(#[trigger] old_entries[jj].key@),
                new_index.entries_seq().len() == j,
                forall|jj: int|
                    0 <= jj < j ==> (#[trigger] new_index.entries_seq()[jj]).key@
                        == old_entries[jj].key@,
                forall|jj: int|
                    0 <= jj < j ==> (#[trigger] new_index.entries_seq()[jj]).off.gen
                        == compaction_gen && new_index.entries_seq()[jj].off.start
                        < new_index.entries_seq()[jj].off.end <= buf@.len(),
                forall|jj: int|
                    0 <= jj < j ==> (#[trigger] new_index.entries_seq()[jj]).off.start as int == (
                    if jj == 0 {
                        0int
                    } else {
                        new_index.entries_seq()[jj - 1].off.end as int
                    }),
                j > 0 ==> new_index.entries_seq()[j - 1].off.end == buf@.len(),
                forall|jj: int|
                    0 <= jj < j ==> buf@.subrange(
                        (#[trigger] new_index.entries_seq()[jj]).off.start as int,
                        new_index.entries_seq()[jj].off.end as int,
                    ) == data_of(oldsegs, old_entries[jj].off.gen).subrange(
                        old_entries[jj].off.start as int,
                        old_entries[jj].off.end as int,
                    ),
            decreases n - j,
        {
            let (key, off) = self.index.entry_at(j);
            let ghost key_v = key@;
            proof {
                crate::index::lemma_entries_map_index(old_entries, j as int);
                assert(old_m[key_v] == off);
                assert(entry_valid(oldsegs, key_v, off));
                lemma_gen_at(oldsegs, off.gen);
            }
            let mut si: usize = 0;
            while si < self.segments.len() && self.segments[si].gen != off.gen
                invariant
                    self.wf(),
                    self.segs() == oldsegs,
                    si <= self.segments@.len(),
                    forall|i: int| 0 <= i < si ==> (#[trigger] oldsegs[i]).gen != off.gen,
                    has_gen(oldsegs, off.gen),
                decreases self.segments@.len() - si,
            {
                si = si + 1;
            }
            if si == self.segments.len() {
                proof {
                    lemma_gen_at(oldsegs, off.gen);
                    assert(false);
                }
                return Err(KvsError::CorruptIndex);
            }
            proof {
                assert(oldsegs[si as int].gen == off.gen);
                lemma_gen_at(oldsegs, off.gen);
                assert(gen_at(oldsegs, off.gen) == si);
                assert(self.segments@[si as int].data@ == data_of(oldsegs, off.gen));
                assert(off.end <= self.segments@[si as int].data@.len());
            }
            let seg = &self.segments[si];
            let dlen = seg.data.len();
            let start = off.start as usize;
            let end = off.end as usize;
            let mut piece = vstd::slice::slice_to_vec(
                vstd::slice::slice_subrange(seg.data.as_slice(), start, end),
            );
            let ghost pv = piece@;
            let ghost old_buf = buf@;
            let ghost cv = spec_decode(data_of(oldsegs, off.gen), off.start as int)->Rec_cmd;
            proof {
                crate::codec::lemma_decode_encode(data_of(oldsegs, off.gen), off.start as int);
                assert(pv == spec_encode(cv));
                assert(cv matches CmdView::Put { key, val } && key == key_v);
                if new_index@.contains_key(key_v) {
                    let jj = choose|jj: int| 0 <= jj < j && old_entries[jj].key@ == key_v;
                    assert(old_entries[jj].key@ == old_entries[j as int].key@);
                    assert(false);
                }
                assert(!new_index@.contains_key(key_v));
                lemma_replay_append(old_buf, compaction_gen, 0, Map::empty(), cv);
                crate::index::lemma_sum_ranges_element(old_entries.subrange(0, j as int + 1), j as int);
                assert(old_entries.subrange(0, j as int + 1).drop_last() =~= old_entries.subrange(
                    0,
                    j as int,
                ));
            }
            let new_start = buf.len() as u64;
            buf.append(&mut piece);
            let new_end = buf.len() as u64;
            let noff = CmdOffset { gen: compaction_gen, start: new_start, end: new_end };
            proof {
                assert(buf@ =~= old_buf + pv);
                assert(buf@.subrange(old_buf.len() as int, old_buf.len() + pv.len() as int) =~= pv);
                crate::codec::lemma_encode_decode(buf@, old_buf.len() as int, cv);
            }
            let ghost nentries_in = new_index.entries_seq();
            let fm = new_index.insert(key, noff);
            j = j + 1;
            proof {
                assert(fm is None);
                assert forall|kk: Seq<char>| #[trigger] new_index@.contains_key(kk)
                    implies old_m.contains_key(kk) && fresh_entry_valid(
                    buf@,
                    compaction_gen,
                    kk,
                    new_index@[kk],
                ) && data_value(buf@, new_index@[kk].start as int) == value_of(
                    oldsegs,
                    old_m[kk],
                ) by {
                    if kk != key_v {
                        let o2 = new_index@[kk];
                        assert(fresh_entry_valid(old_buf, compaction_gen, kk, o2));
                        crate::codec::lemma_decode_extend(old_buf, pv, o2.start as int);
                    }
                }
                assert forall|jj: int|
                    0 <= jj < new_index.entries_seq().len() implies (#[trigger] new_index.entries_seq()[jj]).off.start
                    <= new_index.entries_seq()[jj].off.end by {
                    if new_index.entries_seq()[jj].off != noff {
                        let j2 = choose|j2: int|
                            0 <= j2 < nentries_in.len() && new_index.entries_seq()[jj].off
                                == nentries_in[j2].off;
                        assert(nentries_in[j2].off.start <= nentries_in[j2].off.end);
                    }
                }
            }
        }
        let ghost nm = new_index@;
        let ghost bufv = buf@;
        proof {
            crate::index::lemma_entries_map_domain(old_entries);
            assert forall|kk: Seq<char>| old_m.contains_key(kk) implies nm.contains_key(kk) by {
                let jj = choose|jj: int|
                    0 <= jj < old_entries.len() && #[trigger] old_entries[jj].key@ == kk;
                assert(nm.contains_key(old_entries[jj].key@));
            }
            assert(nm.dom() =~= old_m.dom());
            assert(old_entries.subrange(0, n as int) =~= old_entries);
        }
        let mut newsegs: Vec<Segment> = Vec::new();
        newsegs.push(Segment { gen: compaction_gen, data: buf });
        newsegs.push(Segment { gen: new_gen, data: Vec::new() });
        self.segments = newsegs;
        self.index = new_index;
        self.gen = new_gen;
        self.uncompacted_num = 0;
        proof {
            let s2 = self.segs();
            assert(s2.len() == 2);
            assert(s2[0] == (SegView { gen: compaction_gen, data: bufv }));
            assert(s2[1] == (SegView { gen: new_gen, data: Seq::<u8>::empty() }));
            assert(spec_decode(Seq::<u8>::empty(), 0) is Incomplete);
            assert(replay_seg(s2[1].data, s2[1].gen, 0, nm) == Some((nm, 0int)));
            assert(stream_end(s2[1].data, 0) == 0);
            assert(clean_stream(s2.last().data));
            assert(replay_segs(s2, 2, nm) == Some((nm, 0int)));
            assert(replay_segs(s2, 1, nm) == Some((nm, 0int)));
            assert(replay_seg(s2[0].data, s2[0].gen, 0, Map::empty()) == Some((nm, 0int)));
            assert(replay_all(s2) == Some((nm, 0int)));
            assert(s2.drop_last().drop_last() =~= Seq::<SegView>::empty());
            assert(s2.drop_last().len() == 1);
            assert(s2.drop_last().last() == s2[0]);
            assert(total_bytes(Seq::<SegView>::empty()) == 0);
            assert(total_bytes(s2.drop_last()) == total_bytes(s2.drop_last().drop_last())
                + s2.drop_last().last().data.len());
            assert(total_bytes(s2.drop_last()) == bufv.len());
            assert(total_bytes(s2) == bufv.len());
            assert(has_gen(s2, compaction_gen));
            lemma_gen_at(s2, compaction_gen);
            assert(gen_at(s2, compaction_gen) == 0);
            assert(data_of(s2, compaction_gen) == bufv);
            assert forall|kk: Seq<char>| self.index@.contains_key(kk) implies entry_valid(
                s2,
                kk,
                #[trigger] self.index@[kk],
            ) by {
                assert(fresh_entry_valid(bufv, compaction_gen, kk, nm[kk]));
            }
            assert(self.wf());
            assert forall|kk: Seq<char>| self.kv().contains_key(kk) implies self.kv()[kk] == old(
                self,
            ).kv()[kk] by {
                assert(data_value(bufv, nm[kk].start as int) == value_of(oldsegs, old_m[kk]));
            }
            assert(self.kv() =~= old(self).kv());
            assert(seg_gens(s2) =~= seq![(old(self).active_gen() + 1) as u64, (old(self).active_gen() + 2) as u64]);
        }
        Ok(())
    }
}

/// Reopening a store from its own segment files reproduces it exactly: what
/// replay builds from the segments of a well-formed store is precisely the
/// store's index, its dead-byte count, and its logical contents. Since every
/// operation leaves the store well-formed, this holds after any sequence of
/// operations.
pub proof fn law_reopen(s: KvStore)
    requires
        s.wf(),
    ensures
        replay_all(s.segs()) == Some((s.index_map(), s.uncompacted() as int)),
        replay_kv(s.segs()) == s.kv(),
        gens_ascending(s.segs()),
        s.segs().len() >= 1,
        seg_gens(s.segs()).last() == s.active_gen(),
        0 <= total_bytes(s.segs()) <= u64::MAX,
{
    assert(replay_kv(s.segs()) =~= s.kv());
    lemma_total_bytes_nonneg(s.segs());
}

/// When dead bytes exist, the live records occupy strictly fewer bytes than
/// the store holds, so compaction — which leaves exactly the live records —
/// strictly shrinks the store's bytes.
pub proof fn law_compaction_reclaims(s: KvStore)
    requires
        s.wf(),
        s.uncompacted() > 0,
    ensures
        s.live_bytes() < s.size(),
{
}

} // verus!
