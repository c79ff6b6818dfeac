//! The partial stream: a per-stream in-memory index.
//!
//! A stream is a set of segments keyed by epoch. Each segment holds its
//! entries in index order (indices start at 1), an acknowledged index that is
//! always the length of the gap-free prefix, a promised epoch barring staled
//! writers, and a sealed flag. The stream carries an acknowledged sequence
//! that never decreases, and a truncation watermark below which reads fail.
//!
//! Every mutation — a live write, a seal, a replayed record during recovery —
//! goes through one transition, `spec_apply_record`, so recovery rebuilds
//! exactly the state the live stream had.

use vstd::prelude::*;

use crate::record::{Record, RecordModel};
use crate::types::{Entry, EntryModel, Error, Sequence};

verus! {

/// One segment's in-memory index.
#[derive(Debug)]
pub struct SegmentIndex {
    /// Slot `j` holds the entry with index `j + 1`; `None` is a gap.
    entries: Vec<Option<Entry>>,
    /// Length of the gap-free prefix: all indices `1..=acked_index` present.
    acked_index: u32,
    /// Writers below this epoch are refused.
    promised_epoch: u32,
    sealed: bool,
}

/// The mathematical shape of a segment.
pub struct SegmentModel {
    pub entries: Seq<Option<EntryModel>>,
    pub acked_index: u32,
    pub promised_epoch: u32,
    pub sealed: bool,
}

/// The view of one entry slot.
pub open spec fn slot_view(o: Option<Entry>) -> Option<EntryModel> {
    match o {
        Option::None => None,
        Option::Some(e) => Some(e@),
    }
}

impl View for SegmentIndex {
    type V = SegmentModel;

    closed spec fn view(&self) -> SegmentModel {
        SegmentModel {
            entries: self.entries@.map_values(|o: Option<Entry>| slot_view(o)),
            acked_index: self.acked_index,
            promised_epoch: self.promised_epoch,
            sealed: self.sealed,
        }
    }
}

/// Index `idx` is present in the segment.
pub open spec fn seg_present(s: SegmentModel, idx: int) -> bool {
    1 <= idx <= s.entries.len() && s.entries[idx - 1] is Some
}

/// The length of the gap-free prefix of an entry sequence.
pub open spec fn spec_prefix_len(s: Seq<Option<EntryModel>>) -> int
    decreases s.len(),
{
    if s.len() == 0 || s[0] is None {
        0
    } else {
        1 + spec_prefix_len(s.drop_first())
    }
}

/// `a` is the gap-free prefix length of `s`.
pub open spec fn is_continuous_prefix(s: Seq<Option<EntryModel>>, a: int) -> bool {
    &&& 0 <= a <= s.len()
    &&& forall|j: int| 0 <= j < a ==> s[j] is Some
    &&& (a == s.len() || s[a] is None)
}

/// The gap-free prefix length is exactly characterized by
/// `is_continuous_prefix`.
pub proof fn lemma_prefix_len_unique(s: Seq<Option<EntryModel>>, a: int)
    requires
        is_continuous_prefix(s, a),
    ensures
        spec_prefix_len(s) == a,
    decreases s.len(),
{
    if s.len() == 0 {
    } else if s[0] is None {
        if a > 0 {
            assert(s[0] is Some);
        }
    } else {
        if a == 0 {
            assert(s[0] is None);
        }
        assert forall|j: int| 0 <= j < a - 1 implies s.drop_first()[j] is Some by {
            assert(s.drop_first()[j] == s[j + 1]);
        }
        if a - 1 < s.drop_first().len() {
            assert(s.drop_first()[a - 1] == s[a]);
        }
        lemma_prefix_len_unique(s.drop_first(), a - 1);
    }
}

/// A fresh, empty segment at `epoch`.
pub open spec fn spec_empty_segment(epoch: u32) -> SegmentModel {
    SegmentModel {
        entries: Seq::empty(),
        acked_index: 0,
        promised_epoch: epoch,
        sealed: false,
    }
}

/// The segment map carried by an association list of segments.
pub open spec fn seg_map(s: Seq<(u32, SegmentIndex)>) -> Map<u32, SegmentModel>
    decreases s.len(),
{
    if s.len() == 0 {
        Map::empty()
    } else {
        seg_map(s.drop_first()).insert(s[0].0, s[0].1@)
    }
}

/// Membership in the segment map is membership in the list.
proof fn lemma_seg_map_contains(s: Seq<(u32, SegmentIndex)>, e: u32)
    ensures
        seg_map(s).contains_key(e) <==> exists|i: int| 0 <= i < s.len() && #[trigger] s[i].0 == e,
    decreases s.len(),
{
    if s.len() > 0 {
        lemma_seg_map_contains(s.drop_first(), e);
        if seg_map(s).contains_key(e) {
            if s[0].0 == e {
                assert(s[0].0 == e);
            } else {
                let i = choose|i: int|
                    0 <= i < s.drop_first().len() && #[trigger] s.drop_first()[i].0 == e;
                assert(s[i + 1].0 == e);
            }
        }
        if exists|i: int| 0 <= i < s.len() && #[trigger] s[i].0 == e {
            let i = choose|i: int| 0 <= i < s.len() && #[trigger] s[i].0 == e;
            if i > 0 {
                assert(s.drop_first()[i - 1].0 == e);
            }
        }
    }
}

/// When keys are unique, the slot holding `e` gives its mapped value.
proof fn lemma_seg_map_at(s: Seq<(u32, SegmentIndex)>, i: int)
    requires
        0 <= i < s.len(),
        forall|a: int, b: int| 0 <= a < b < s.len() ==> #[trigger] s[a].0 != #[trigger] s[b].0,
    ensures
        seg_map(s).contains_key(s[i].0),
        seg_map(s)[s[i].0] == s[i].1@,
    decreases s.len(),
{
    if i == 0 {
        if s.len() > 1 {
        }
        lemma_seg_map_contains(s, s[0].0);
    } else {
        assert forall|a: int, b: int|
            0 <= a < b < s.drop_first().len() implies #[trigger] s.drop_first()[a].0
            != #[trigger] s.drop_first()[b].0 by {
            assert(s.drop_first()[a] == s[a + 1]);
            assert(s.drop_first()[b] == s[b + 1]);
        }
        assert(s.drop_first()[i - 1] == s[i]);
        lemma_seg_map_at(s.drop_first(), i - 1);
        assert(s[0].0 != s[i].0);
    }
}

/// Pushing a fresh pair inserts it into the map.
proof fn lemma_seg_map_push(s: Seq<(u32, SegmentIndex)>, pair: (u32, SegmentIndex))
    requires
        !seg_map(s).contains_key(pair.0),
    ensures
        seg_map(s.push(pair)) =~= seg_map(s).insert(pair.0, pair.1@),
    decreases s.len(),
{
    if s.len() == 0 {
        assert(s.push(pair)[0] == pair);
        assert(s.push(pair).drop_first() =~= s);
    } else {
        assert(s.push(pair).drop_first() =~= s.drop_first().push(pair));
        assert(s.push(pair)[0] == s[0]);
        assert(seg_map(s).contains_key(s[0].0));
        assert(pair.0 != s[0].0);
        assert(!seg_map(s.drop_first()).contains_key(pair.0)) by {
            if seg_map(s.drop_first()).contains_key(pair.0) {
                assert(seg_map(s).contains_key(pair.0));
            }
        }
        lemma_seg_map_push(s.drop_first(), pair);
        assert(seg_map(s.drop_first().push(pair)) =~= seg_map(s.drop_first()).insert(
            pair.0,
            pair.1@,
        ));
        assert(seg_map(s.push(pair)) =~= seg_map(s.drop_first().push(pair)).insert(
            s[0].0,
            s[0].1@,
        ));
        assert(seg_map(s.drop_first()).insert(pair.0, pair.1@).insert(s[0].0, s[0].1@)
            =~= seg_map(s.drop_first()).insert(s[0].0, s[0].1@).insert(pair.0, pair.1@));
    }
}

/// Updating slot `j` in place re-points its key at the new value.
proof fn lemma_seg_map_update(s: Seq<(u32, SegmentIndex)>, j: int, pair: (u32, SegmentIndex))
    requires
        0 <= j < s.len(),
        pair.0 == s[j].0,
        forall|a: int, b: int| 0 <= a < b < s.len() ==> #[trigger] s[a].0 != #[trigger] s[b].0,
    ensures
        seg_map(s.update(j, pair)) =~= seg_map(s).insert(pair.0, pair.1@),
    decreases s.len(),
{
    if j == 0 {
        assert(s.update(0, pair)[0] == pair);
        assert(s.update(0, pair).drop_first() =~= s.drop_first());
        lemma_seg_map_contains(s.drop_first(), pair.0);
        assert forall|e: u32| #[trigger]
            seg_map(s.drop_first()).contains_key(e) implies e != pair.0 by {
            lemma_seg_map_contains(s.drop_first(), e);
            let i = choose|i: int|
                0 <= i < s.drop_first().len() && #[trigger] s.drop_first()[i].0 == e;
            assert(s[i + 1].0 == e);
        }
    } else {
        assert forall|a: int, b: int|
            0 <= a < b < s.drop_first().len() implies #[trigger] s.drop_first()[a].0
            != #[trigger] s.drop_first()[b].0 by {
            assert(s.drop_first()[a] == s[a + 1]);
            assert(s.drop_first()[b] == s[b + 1]);
        }
        assert(s.update(j, pair).drop_first() =~= s.drop_first().update(j - 1, pair));
        assert(s.update(j, pair)[0] == s[0]);
        assert(s.drop_first()[j - 1] == s[j]);
        lemma_seg_map_update(s.drop_first(), j - 1, pair);
    }
}

/// The later of two sequences.
pub open spec fn seq_max(a: Sequence, b: Sequence) -> Sequence {
    if a.spec_le(b) {
        b
    } else {
        a
    }
}

/// Entries after placing `es` at one-based index `first`: established slots
/// are immutable, absent slots in the window are filled, the rest are gaps.
pub open spec fn spec_place(old: Seq<Option<EntryModel>>, first: int, es: Seq<EntryModel>) -> Seq<
    Option<EntryModel>,
> {
    let lo = first - 1;
    let hi = first - 1 + es.len();
    let ln = if old.len() >= hi {
        old.len() as int
    } else {
        hi
    };
    Seq::new(
        ln as nat,
        |j: int|
            if 0 <= j < old.len() && old[j] is Some {
                old[j]
            } else if lo <= j < hi {
                Some(es[j - lo])
            } else {
                None
            },
    )
}

/// A segment after a write of `es` at `first`.
pub open spec fn spec_write_segment(seg: SegmentModel, first: int, es: Seq<EntryModel>)
    -> SegmentModel {
    let entries = spec_place(seg.entries, first, es);
    SegmentModel {
        entries,
        acked_index: spec_prefix_len(entries) as u32,
        promised_epoch: seg.promised_epoch,
        sealed: seg.sealed,
    }
}

/// A segment after a seal under `writer_epoch`.
pub open spec fn spec_seal_segment(seg: SegmentModel, writer_epoch: u32) -> SegmentModel {
    SegmentModel {
        entries: seg.entries,
        acked_index: seg.acked_index,
        promised_epoch: if seg.promised_epoch >= writer_epoch {
            seg.promised_epoch
        } else {
            writer_epoch
        },
        sealed: true,
    }
}

/// The gap-free prefix length always satisfies its characterization.
pub proof fn lemma_prefix_len_is_prefix(s: Seq<Option<EntryModel>>)
    ensures
        is_continuous_prefix(s, spec_prefix_len(s)),
    decreases s.len(),
{
    if s.len() == 0 || s[0] is None {
    } else {
        lemma_prefix_len_is_prefix(s.drop_first());
        let a = spec_prefix_len(s);
        assert forall|j: int| 0 <= j < a implies s[j] is Some by {
            if j > 0 {
                assert(s.drop_first()[j - 1] == s[j]);
            }
        }
        if a < s.len() {
            assert(s.drop_first()[a - 1] == s[a]);
        }
    }
}

impl SegmentIndex {
    /// A fresh, empty segment at `epoch`.
    pub fn new(epoch: u32) -> (r: SegmentIndex)
        ensures
            r@ == spec_empty_segment(epoch),
    {
        let r = SegmentIndex {
            entries: Vec::new(),
            acked_index: 0,
            promised_epoch: epoch,
            sealed: false,
        };
        proof {
            assert(r@.entries =~= spec_empty_segment(epoch).entries);
        }
        r
    }

    pub fn acked_index(&self) -> (r: u32)
        ensures
            r == self@.acked_index,
    {
        self.acked_index
    }

    pub fn promised_epoch(&self) -> (r: u32)
        ensures
            r == self@.promised_epoch,
    {
        self.promised_epoch
    }

    pub fn is_sealed(&self) -> (r: bool)
        ensures
            r == self@.sealed,
    {
        self.sealed
    }

    /// Raise the promised epoch to `writer_epoch` and mark the segment
    /// sealed.
    pub fn apply_seal(&mut self, writer_epoch: u32)
        ensures
            final(self)@ == spec_seal_segment(old(self)@, writer_epoch),
    {
        if self.promised_epoch < writer_epoch {
            self.promised_epoch = writer_epoch;
        }
        self.sealed = true;
    }

    /// Place `entries` starting at index `first_index`; established slots
    /// win, and the acknowledged index is recomputed as the gap-free prefix.
    #[verifier::loop_isolation(false)]
    pub fn apply_write(&mut self, first_index: u32, entries: &Vec<Entry>)
        requires
            first_index >= 1,
            first_index - 1 + entries@.len() <= u32::MAX,
            old(self)@.entries.len() <= u32::MAX,
        ensures
            final(self)@ == spec_write_segment(
                old(self)@,
                first_index as int,
                entries@.map_values(|e: Entry| e@),
            ),
    {
        let ghost old_vec = self.entries@;
        let ghost es = entries@.map_values(|e: Entry| e@);
        let ghost target = spec_place(old(self)@.entries, first_index as int, es);
        let lo: usize = (first_index - 1) as usize;
        let hi: usize = lo + entries.len();
        while self.entries.len() < hi
            invariant
                self.entries@.len() >= old_vec.len(),
                old_vec.len() >= hi ==> self.entries@.len() == old_vec.len(),
                old_vec.len() < hi ==> self.entries@.len() <= hi,
                self.acked_index == old(self).acked_index,
                self.promised_epoch == old(self).promised_epoch,
                self.sealed == old(self).sealed,
                forall|j: int|
                    0 <= j < self.entries@.len() ==> #[trigger] self.entries@[j] == (if j
                        < old_vec.len() {
                        old_vec[j]
                    } else {
                        Option::<Entry>::None
                    }),
            decreases hi - self.entries.len(),
        {
            self.entries.push(None);
        }
        let ghost grown = self.entries@;
        let mut k: usize = 0;
        while k < entries.len()
            invariant
                k <= entries@.len(),
                self.entries@.len() == grown.len(),
                self.acked_index == old(self).acked_index,
                self.promised_epoch == old(self).promised_epoch,
                self.sealed == old(self).sealed,
                forall|j: int|
                    0 <= j < self.entries@.len() && !(lo <= j < lo + k) ==> #[trigger] self
                        .entries@[j] == grown[j],
                forall|j: int|
                    lo <= j < lo + k && grown[j] is Some ==> #[trigger] self.entries@[j]
                        == grown[j],
                forall|j: int|
                    lo <= j < lo + k && grown[j] is None ==> #[trigger] self.entries@[j] is Some
                        && self.entries@[j]->0@ == es[j - lo],
            decreases entries@.len() - k,
        {
            let slot: usize = lo + k;
            if self.entries[slot].is_none() {
                let e: Entry = entries[k].clone();
                proof {
                    assert(e@ == entries@[k as int]@);
                    assert(es[k as int] == entries@[k as int]@);
                }
                let p = &mut self.entries[slot];
                *p = Some(e);
            }
            k = k + 1;
        }
        proof {
            assert(old(self)@.entries.len() == old_vec.len());
            assert(target.len() == self.entries@.len());
            assert forall|j: int| 0 <= j < target.len() implies #[trigger] slot_view(
                self.entries@[j],
            ) == target[j] by {
                if 0 <= j < old_vec.len() {
                    assert(old(self)@.entries[j] == slot_view(old_vec[j]));
                }
                if j < old_vec.len() && old_vec[j] is Some {
                } else if lo <= j < lo + entries@.len() {
                } else {
                }
            }
            assert(self@.entries =~= target);
        }
        let mut a: usize = 0;
        let ghost placed = self.entries@;
        while a < self.entries.len() && self.entries[a].is_some()
            invariant
                0 <= a <= self.entries@.len(),
                self.entries@ == placed,
                self.acked_index == old(self).acked_index,
                self.promised_epoch == old(self).promised_epoch,
                self.sealed == old(self).sealed,
                forall|j: int| 0 <= j < a ==> #[trigger] self.entries@[j] is Some,
            decreases self.entries@.len() - a,
        {
            a = a + 1;
        }
        proof {
            assert forall|j: int| 0 <= j < a implies #[trigger] target[j] is Some by {
                assert(target[j] == slot_view(self.entries@[j]));
            }
            if (a as int) < target.len() {
                assert(target[a as int] == slot_view(self.entries@[a as int]));
            }
            assert(is_continuous_prefix(target, a as int));
            lemma_prefix_len_unique(target, a as int);
        }
        self.acked_index = a as u32;
    }
}

/// The mathematical state of a partial stream.
pub struct StreamModel {
    pub stream_id: u64,
    pub segments: Map<u32, SegmentModel>,
    pub acked_seq: Sequence,
    pub initial_seq: Sequence,
}

/// The segment at `e`, or a fresh one about to be created there.
pub open spec fn spec_segment_or_new(m: StreamModel, e: u32) -> SegmentModel {
    if m.segments.contains_key(e) {
        m.segments[e]
    } else {
        spec_empty_segment(e)
    }
}

/// A record is staled: its writer epoch is below the segment's promise.
pub open spec fn spec_staled(m: StreamModel, r: RecordModel) -> bool {
    r.writer_epoch < spec_segment_or_new(m, r.segment_epoch).promised_epoch
}

/// A write record whose index window escapes the 32-bit index space.
pub open spec fn spec_window_overflows(r: RecordModel) -> bool {
    r.first_index - 1 + r.entries.len() > u32::MAX
}

/// The one transition of a partial stream: applying a record.
///
/// A record with `first_index == 0` is a seal: the segment's promise rises
/// to the writer epoch and the segment is marked sealed. Any other record is
/// a write: refused without effect when staled or when its window overflows,
/// otherwise placed with established slots immutable. Either way the
/// stream-wide acknowledged sequence only moves forward.
pub open spec fn spec_apply_record(m: StreamModel, r: RecordModel) -> StreamModel {
    if r.first_index == 0 {
        StreamModel {
            segments: m.segments.insert(
                r.segment_epoch,
                spec_seal_segment(spec_segment_or_new(m, r.segment_epoch), r.writer_epoch),
            ),
            acked_seq: seq_max(m.acked_seq, r.acked_seq),
            ..m
        }
    } else if spec_staled(m, r) || spec_window_overflows(r) {
        m
    } else {
        StreamModel {
            segments: m.segments.insert(
                r.segment_epoch,
                spec_write_segment(
                    spec_segment_or_new(m, r.segment_epoch),
                    r.first_index as int,
                    r.entries,
                ),
            ),
            acked_seq: seq_max(m.acked_seq, r.acked_seq),
            ..m
        }
    }
}

/// The state reached by replaying a record sequence.
pub open spec fn spec_replay(m: StreamModel, rs: Seq<RecordModel>) -> StreamModel
    decreases rs.len(),
{
    if rs.len() == 0 {
        m
    } else {
        spec_replay(spec_apply_record(m, rs[0]), rs.drop_first())
    }
}

/// Replay distributes over appending one record: the state a live stream
/// reaches by applying each persisted record as it is written is exactly
/// the state recovery reaches by replaying the whole log afterwards.
pub proof fn lemma_replay_snoc(m: StreamModel, rs: Seq<RecordModel>, r: RecordModel)
    ensures
        spec_replay(m, rs.push(r)) == spec_apply_record(spec_replay(m, rs), r),
    decreases rs.len(),
{
    if rs.len() == 0 {
        assert(rs.push(r)[0] == r);
        assert(rs.push(r).drop_first() =~= Seq::<RecordModel>::empty());
        assert(spec_replay(
            spec_apply_record(m, r),
            Seq::<RecordModel>::empty(),
        ) == spec_apply_record(m, r));
        assert(spec_replay(m, rs.push(r)) == spec_apply_record(m, r));
        assert(spec_replay(m, rs) == m);
    } else {
        assert(rs.push(r)[0] == rs[0]);
        assert(rs.push(r).drop_first() =~= rs.drop_first().push(r));
        lemma_replay_snoc(spec_apply_record(m, rs[0]), rs.drop_first(), r);
        assert(spec_replay(m, rs.push(r)) == spec_replay(
            spec_apply_record(m, rs[0]),
            rs.drop_first().push(r),
        ));
        assert(spec_replay(m, rs) == spec_replay(spec_apply_record(m, rs[0]), rs.drop_first()));
    }
}

/// A well-formed segment at epoch `e`.
pub open spec fn wf_segment(s: SegmentModel, e: u32) -> bool {
    &&& is_continuous_prefix(s.entries, s.acked_index as int)
    &&& s.promised_epoch >= e
    &&& s.entries.len() <= u32::MAX
}

/// A well-formed stream: every segment is well formed at its epoch.
pub open spec fn wf_stream(m: StreamModel) -> bool {
    forall|e: u32| m.segments.contains_key(e) ==> wf_segment(#[trigger] m.segments[e], e)
}

/// In a well-formed stream, every index up to a
/// segment's acknowledged index is present in the local index.
pub proof fn lemma_acked_prefix_present(m: StreamModel, e: u32, i: int)
    requires
        wf_stream(m),
        m.segments.contains_key(e),
        1 <= i <= m.segments[e].acked_index,
    ensures
        seg_present(m.segments[e], i),
{
}

/// Applying any record never lowers the
/// stream's acknowledged sequence.
pub proof fn lemma_acked_seq_monotonic(m: StreamModel, r: RecordModel)
    ensures
        m.acked_seq.spec_le(spec_apply_record(m, r).acked_seq),
{
}

/// Applying a record preserves stream well-formedness.
pub proof fn lemma_apply_record_preserves_wf(m: StreamModel, r: RecordModel)
    requires
        wf_stream(m),
    ensures
        wf_stream(spec_apply_record(m, r)),
{
    let e = r.segment_epoch;
    let seg = spec_segment_or_new(m, e);
    if r.first_index == 0 {
        assert(wf_segment(spec_seal_segment(seg, r.writer_epoch), e));
    } else if !spec_staled(m, r) && !spec_window_overflows(r) {
        let entries = spec_place(seg.entries, r.first_index as int, r.entries);
        lemma_prefix_len_is_prefix(entries);
        assert(wf_segment(spec_write_segment(seg, r.first_index as int, r.entries), e));
    }
}

/// A per-stream in-memory index.
#[derive(Debug)]
pub struct PartialStream {
    stream_id: u64,
    segments: Vec<(u32, SegmentIndex)>,
    acked_seq: Sequence,
    initial_seq: Sequence,
}

impl View for PartialStream {
    type V = StreamModel;

    closed spec fn view(&self) -> StreamModel {
        StreamModel {
            stream_id: self.stream_id,
            segments: seg_map(self.segments@),
            acked_seq: self.acked_seq,
            initial_seq: self.initial_seq,
        }
    }
}

impl PartialStream {
    /// The representation keeps one slot per epoch.
    pub closed spec fn keys_unique(&self) -> bool {
        forall|a: int, b: int|
            0 <= a < b < self.segments@.len() ==> #[trigger] self.segments@[a].0
                != #[trigger] self.segments@[b].0
    }

    /// The invariant every operation preserves.
    pub open spec fn inv(&self) -> bool {
        &&& self.keys_unique()
        &&& wf_stream(self@)
    }

    /// An empty stream whose reads begin at `initial_seq`.
    pub fn new(stream_id: u64, initial_seq: Sequence) -> (r: PartialStream)
        ensures
            r.inv(),
            r@.stream_id == stream_id,
            r@.segments =~= Map::<u32, SegmentModel>::empty(),
            r@.acked_seq == initial_seq,
            r@.initial_seq == initial_seq,
    {
        PartialStream {
            stream_id,
            segments: Vec::new(),
            acked_seq: initial_seq,
            initial_seq,
        }
    }

    /// Find the slot of `epoch` in the segment list.
    #[verifier::loop_isolation(false)]
    fn find_segment(&self, epoch: u32) -> (r: Option<usize>)
        requires
            self.keys_unique(),
        ensures
            match r {
                Some(i) => i < self.segments@.len() && self.segments@[i as int].0 == epoch
                    && self@.segments.contains_key(epoch) && self@.segments[epoch]
                    == self.segments@[i as int].1@,
                None => !self@.segments.contains_key(epoch),
            },
    {
        let mut i: usize = 0;
        while i < self.segments.len()
            invariant
                i <= self.segments@.len(),
                forall|k: int| 0 <= k < i ==> #[trigger] self.segments@[k].0 != epoch,
            decreases self.segments@.len() - i,
        {
            if self.segments[i].0 == epoch {
                proof {
                    lemma_seg_map_at(self.segments@, i as int);
                }
                return Some(i);
            }
            i = i + 1;
        }
        proof {
            lemma_seg_map_contains(self.segments@, epoch);
        }
        None
    }

    /// The stream-wide acknowledged sequence.
    pub fn acked_seq(&self) -> (r: Sequence)
        ensures
            r == self@.acked_seq,
    {
        self.acked_seq
    }

    /// The segment's acknowledged index: the largest index such that every
    /// index in `[1, i]` is present; 0 for an unknown segment.
    pub fn acked_index(&self, segment_epoch: u32) -> (r: u32)
        requires
            self.inv(),
        ensures
            r == spec_segment_or_new(self@, segment_epoch).acked_index,
    {
        match self.find_segment(segment_epoch) {
            Some(i) => self.segments[i].1.acked_index(),
            None => 0,
        }
    }

    /// The largest index `i` of the segment such that every index in
    /// `[1, i]` is present. Identical to the acknowledged index, which the
    /// stream keeps equal to the gap-free prefix.
    pub fn continuous_index(&self, segment_epoch: u32) -> (r: u32)
        requires
            self.inv(),
        ensures
            r == spec_segment_or_new(self@, segment_epoch).acked_index,
            r == spec_prefix_len(spec_segment_or_new(self@, segment_epoch).entries),
    {
        proof {
            let seg = spec_segment_or_new(self@, segment_epoch);
            lemma_prefix_len_unique(seg.entries, seg.acked_index as int);
        }
        self.acked_index(segment_epoch)
    }

    /// Apply a record: the one mutation path, shared by live writes, seals,
    /// and recovery replay.
    pub fn apply_record(&mut self, r: &Record)
        requires
            old(self).inv(),
        ensures
            final(self).inv(),
            final(self)@ == spec_apply_record(old(self)@, r@),
    {
        proof {
            lemma_apply_record_preserves_wf(old(self)@, r@);
        }
        if r.first_index == 0 {
            match self.find_segment(r.segment_epoch) {
                Some(i) => {
                    let ghost old_list = self.segments@;
                    let pair = &mut self.segments[i];
                    pair.1.apply_seal(r.writer_epoch);
                    proof {
                        assert(self.segments@ =~= old_list.update(
                            i as int,
                            self.segments@[i as int],
                        ));
                        lemma_seg_map_update(old_list, i as int, self.segments@[i as int]);
                        assert(self@.segments =~= spec_apply_record(old(self)@, r@).segments);
                        lemma_keys_unique_update(old_list, self.segments@, i as int);
                    }
                },
                None => {
                    let ghost old_list = self.segments@;
                    let mut seg = SegmentIndex::new(r.segment_epoch);
                    seg.apply_seal(r.writer_epoch);
                    self.segments.push((r.segment_epoch, seg));
                    proof {
                        lemma_seg_map_push(old_list, self.segments@.last());
                        assert(self@.segments =~= spec_apply_record(old(self)@, r@).segments);
                        lemma_seg_map_contains(old_list, r.segment_epoch);
                        lemma_keys_unique_push(old_list, self.segments@);
                    }
                },
            }
            self.bump_acked(r.acked_seq);
        } else {
            if r.entries.len() > u32::MAX as usize {
                proof {
                    assert(spec_window_overflows(r@));
                }
                return;
            }
            let hi: u64 = (r.first_index as u64) - 1 + (r.entries.len() as u64);
            if hi > u32::MAX as u64 {
                proof {
                    assert(spec_window_overflows(r@));
                }
                return;
            }
            match self.find_segment(r.segment_epoch) {
                Some(i) => {
                    if r.writer_epoch < self.segments[i].1.promised_epoch() {
                        proof {
                            assert(spec_staled(old(self)@, r@));
                        }
                        return;
                    }
                    let ghost old_list = self.segments@;
                    proof {
                        assert(wf_segment(self@.segments[r.segment_epoch], r.segment_epoch));
                    }
                    let pair = &mut self.segments[i];
                    pair.1.apply_write(r.first_index, &r.entries);
                    proof {
                        assert(self.segments@ =~= old_list.update(
                            i as int,
                            self.segments@[i as int],
                        ));
                        lemma_seg_map_update(old_list, i as int, self.segments@[i as int]);
                        assert(self@.segments =~= spec_apply_record(old(self)@, r@).segments);
                        lemma_keys_unique_update(old_list, self.segments@, i as int);
                    }
                },
                None => {
                    if r.writer_epoch < r.segment_epoch {
                        proof {
                            assert(spec_staled(old(self)@, r@));
                        }
                        return;
                    }
                    let ghost old_list = self.segments@;
                    let mut seg = SegmentIndex::new(r.segment_epoch);
                    seg.apply_write(r.first_index, &r.entries);
                    self.segments.push((r.segment_epoch, seg));
                    proof {
                        lemma_seg_map_push(old_list, self.segments@.last());
                        assert(self@.segments =~= spec_apply_record(old(self)@, r@).segments);
                        lemma_seg_map_contains(old_list, r.segment_epoch);
                        lemma_keys_unique_push(old_list, self.segments@);
                    }
                },
            }
            self.bump_acked(r.acked_seq);
        }
    }

    /// Validate and apply a write; the returned record is what the caller
    /// must persist, together with the continuous and acknowledged index of
    /// the segment after the write (both the gap-free prefix).
    ///
    /// Returns `InvalidArgument` when `first_index` is 0 or the window
    /// escapes the 32-bit index space, and `Staled` when `writer_epoch` is
    /// below the segment's promised epoch; in both cases the stream is
    /// untouched.
    pub fn write(
        &mut self,
        writer_epoch: u32,
        segment_epoch: u32,
        acked_seq: Sequence,
        first_index: u32,
        entries: Vec<Entry>,
    ) -> (res: Result<(Record, u32, u32), Error>)
        requires
            old(self).inv(),
        ensures
            final(self).inv(),
            old(self)@.acked_seq.spec_le(final(self)@.acked_seq),
            match res {
                Ok((rec, ci, ai)) => {
                    &&& rec@ == (RecordModel {
                        stream_id: old(self)@.stream_id,
                        writer_epoch,
                        segment_epoch,
                        first_index,
                        acked_seq,
                        entries: entries@.map_values(|e: Entry| e@),
                    })
                    &&& first_index >= 1
                    &&& !spec_window_overflows(rec@)
                    &&& !spec_staled(old(self)@, rec@)
                    &&& final(self)@ == spec_apply_record(old(self)@, rec@)
                    &&& ci == spec_segment_or_new(final(self)@, segment_epoch).acked_index
                    &&& ai == ci
                },
                Err(e) => {
                    &&& *final(self) == *old(self)
                    &&& (e == Error::InvalidArgument || e == Error::Staled)
                    &&& (e == Error::InvalidArgument <==> (first_index == 0 || first_index - 1
                        + entries@.len() > u32::MAX))
                    &&& (e == Error::Staled ==> writer_epoch < spec_segment_or_new(
                        old(self)@,
                        segment_epoch,
                    ).promised_epoch)
                },
            },
            res is Err <==> (first_index == 0 || first_index - 1 + entries@.len() > u32::MAX
                || writer_epoch < spec_segment_or_new(old(self)@, segment_epoch).promised_epoch),
    {
        if first_index == 0 {
            return Err(Error::InvalidArgument);
        }
        if entries.len() > u32::MAX as usize {
            return Err(Error::InvalidArgument);
        }
        let hi: u64 = (first_index as u64) - 1 + (entries.len() as u64);
        if hi > u32::MAX as u64 {
            return Err(Error::InvalidArgument);
        }
        let promised: u32 = match self.find_segment(segment_epoch) {
            Some(i) => self.segments[i].1.promised_epoch(),
            None => segment_epoch,
        };
        if writer_epoch < promised {
            return Err(Error::Staled);
        }
        let rec = Record {
            stream_id: self.stream_id,
            writer_epoch,
            segment_epoch,
            first_index,
            acked_seq,
            entries,
        };
        self.apply_record(&rec);
        let ai: u32 = self.acked_index(segment_epoch);
        Ok((rec, ai, ai))
    }

    /// Validate and apply a write already shaped as a record.
    ///
    /// The record's `first_index` must address a real slot (`>= 1`) and its
    /// window must stay inside the 32-bit index space, else
    /// `InvalidArgument`; a writer epoch below the segment's promise is
    /// `Staled`. Errors leave the stream untouched. On success returns the
    /// segment's continuous and acknowledged index (both the gap-free
    /// prefix).
    pub fn write_record(&mut self, rec: &Record) -> (res: Result<(u32, u32), Error>)
        requires
            old(self).inv(),
        ensures
            final(self).inv(),
            old(self)@.acked_seq.spec_le(final(self)@.acked_seq),
            match res {
                Ok((ci, ai)) => {
                    &&& rec@.first_index >= 1
                    &&& !spec_window_overflows(rec@)
                    &&& !spec_staled(old(self)@, rec@)
                    &&& final(self)@ == spec_apply_record(old(self)@, rec@)
                    &&& ci == spec_segment_or_new(final(self)@, rec@.segment_epoch).acked_index
                    &&& ai == ci
                },
                Err(e) => {
                    &&& *final(self) == *old(self)
                    &&& (e == Error::InvalidArgument || e == Error::Staled)
                    &&& (e == Error::InvalidArgument <==> (rec@.first_index == 0
                        || spec_window_overflows(rec@)))
                    &&& (e == Error::Staled ==> spec_staled(old(self)@, rec@))
                },
            },
            res is Err <==> (rec@.first_index == 0 || spec_window_overflows(rec@)
                || spec_staled(old(self)@, rec@)),
    {
        if rec.first_index == 0 {
            return Err(Error::InvalidArgument);
        }
        if rec.entries.len() > u32::MAX as usize {
            return Err(Error::InvalidArgument);
        }
        let hi: u64 = (rec.first_index as u64) - 1 + (rec.entries.len() as u64);
        if hi > u32::MAX as u64 {
            return Err(Error::InvalidArgument);
        }
        let promised: u32 = match self.find_segment(rec.segment_epoch) {
            Some(i) => self.segments[i].1.promised_epoch(),
            None => rec.segment_epoch,
        };
        if rec.writer_epoch < promised {
            return Err(Error::Staled);
        }
        self.apply_record(rec);
        let ai: u32 = self.acked_index(rec.segment_epoch);
        Ok((ai, ai))
    }

    /// Seal `segment_epoch` under `writer_epoch`: raise the segment's
    /// promise, mark it sealed, and emit the record that re-establishes the
    /// seal on recovery. Returns the segment's acknowledged index.
    pub fn seal(&mut self, segment_epoch: u32, writer_epoch: u32) -> (res: (Record, u32))
        requires
            old(self).inv(),
        ensures
            final(self).inv(),
            old(self)@.acked_seq.spec_le(final(self)@.acked_seq),
            res.0@ == (RecordModel {
                stream_id: old(self)@.stream_id,
                writer_epoch,
                segment_epoch,
                first_index: 0,
                acked_seq: old(self)@.acked_seq,
                entries: Seq::empty(),
            }),
            final(self)@ == spec_apply_record(old(self)@, res.0@),
            res.1 == spec_segment_or_new(final(self)@, segment_epoch).acked_index,
            spec_segment_or_new(final(self)@, segment_epoch).sealed,
            spec_segment_or_new(final(self)@, segment_epoch).promised_epoch >= writer_epoch,
    {
        let rec = Record {
            stream_id: self.stream_id,
            writer_epoch,
            segment_epoch,
            first_index: 0,
            acked_seq: self.acked_seq,
            entries: Vec::new(),
        };
        proof {
            assert(rec@.entries =~= Seq::<EntryModel>::empty());
        }
        self.apply_record(&rec);
        let ai: u32 = self.acked_index(segment_epoch);
        (rec, ai)
    }

    /// The sealed segments, each with its promised epoch.
    pub fn sealed_epoches(&self) -> (res: Vec<(u32, u32)>)
        requires
            self.inv(),
        ensures
            forall|k: int|
                0 <= k < res@.len() ==> self@.segments.contains_key(#[trigger] res@[k].0)
                    && self@.segments[res@[k].0].sealed && res@[k].1
                    == self@.segments[res@[k].0].promised_epoch,
            forall|e: u32|
                self@.segments.contains_key(e) && (#[trigger] self@.segments[e]).sealed
                    ==> exists|k: int| 0 <= k < res@.len() && (#[trigger] res@[k]).0 == e,
            forall|a: int, b: int|
                0 <= a < b < res@.len() ==> (#[trigger] res@[a]).0 != (#[trigger] res@[b]).0,
    {
        let mut out: Vec<(u32, u32)> = Vec::new();
        let mut i: usize = 0;
        while i < self.segments.len()
            invariant
                self.inv(),
                i <= self.segments@.len(),
                forall|k: int|
                    0 <= k < out@.len() ==> self@.segments.contains_key(#[trigger] out@[k].0)
                        && self@.segments[out@[k].0].sealed && out@[k].1
                        == self@.segments[out@[k].0].promised_epoch,
                forall|j: int|
                    0 <= j < i && (#[trigger] self.segments@[j]).1@.sealed ==> exists|k: int|
                        0 <= k < out@.len() && (#[trigger] out@[k]).0 == self.segments@[j].0,
                forall|k: int|
                    0 <= k < out@.len() ==> exists|j: int|
                        0 <= j < i && (#[trigger] out@[k]).0 == #[trigger] self.segments@[j].0,
                forall|a: int, b: int|
                    0 <= a < b < out@.len() ==> (#[trigger] out@[a]).0 != (#[trigger] out@[
                        b]).0,
            decreases self.segments@.len() - i,
        {
            if self.segments[i].1.is_sealed() {
                proof {
                    lemma_seg_map_at(self.segments@, i as int);
                }
                let ghost ob = out@;
                out.push((self.segments[i].0, self.segments[i].1.promised_epoch()));
                proof {
                    assert forall|j: int|
                        0 <= j <= i && (#[trigger] self.segments@[j]).1@.sealed
                            implies exists|k: int|
                        0 <= k < out@.len() && (#[trigger] out@[k]).0 == self.segments@[j].0 by {
                        if j < i {
                            let k = choose|k: int|
                                0 <= k < ob.len() && (#[trigger] ob[k]).0 == self.segments@[j].0;
                            assert(out@[k] == ob[k]);
                            assert(out@[k].0 == self.segments@[j].0);
                        } else {
                            assert(out@[out@.len() - 1].0 == self.segments@[i as int].0);
                        }
                    }
                    assert forall|k: int| 0 <= k < out@.len() implies exists|j: int|
                        0 <= j < i + 1 && (#[trigger] out@[k]).0 == #[trigger] self.segments@[
                        j].0 by {
                        if k < ob.len() {
                            let j = choose|j: int|
                                0 <= j < i && (#[trigger] ob[k]).0 == #[trigger] self.segments@[
                                j].0;
                            assert(out@[k] == ob[k]);
                            assert(out@[k].0 == self.segments@[j].0);
                        } else {
                            assert(out@[k].0 == self.segments@[i as int].0);
                        }
                    }
                    assert forall|a: int, b: int|
                        0 <= a < b < out@.len() implies (#[trigger] out@[a]).0 != (
                        #[trigger] out@[b]).0 by {
                        if b < ob.len() {
                            assert(out@[a] == ob[a]);
                            assert(out@[b] == ob[b]);
                        } else {
                            assert(out@[b].0 == self.segments@[i as int].0);
                            assert(out@[a] == ob[a]);
                            let j = choose|j: int|
                                0 <= j < i && (#[trigger] ob[a]).0 == #[trigger] self.segments@[
                                j].0;
                            assert(self.segments@[j].0 != self.segments@[i as int].0);
                        }
                    }
                }
            }
            i = i + 1;
        }
        proof {
            assert forall|e: u32|
                self@.segments.contains_key(e) && (#[trigger] self@.segments[e]).sealed
                    implies exists|k: int|
                0 <= k < out@.len() && (#[trigger] out@[k]).0 == e by {
                lemma_seg_map_contains(self.segments@, e);
                let j = choose|j: int|
                    0 <= j < self.segments@.len() && #[trigger] self.segments@[j].0 == e;
                lemma_seg_map_at(self.segments@, j);
                assert(self.segments@[j].1@.sealed);
            }
        }
        out
    }

    /// Whether index `idx` of segment `e` is currently readable.
    pub open spec fn spec_readable(m: StreamModel, e: u32, idx: int, require_acked: bool)
        -> bool {
        &&& m.segments.contains_key(e)
        &&& seg_present(m.segments[e], idx)
        &&& (require_acked ==> idx <= m.segments[e].acked_index)
    }

    /// What a successful scan returns: a non-empty run of consecutive
    /// readable entries from `start`, cut at `limit`, each carrying its
    /// index and the entry stored there.
    pub open spec fn spec_scan_ok(
        m: StreamModel,
        e: u32,
        start: int,
        req: bool,
        limit: usize,
        v: Seq<(u32, Entry)>,
    ) -> bool {
        &&& v.len() >= 1
        &&& v.len() <= limit
        &&& forall|k: int|
            #![trigger v[k]]
            0 <= k < v.len() ==> Self::spec_readable(m, e, start + k, req) && v[k].0 == start + k
                && slot_view(Some(v[k].1)) == m.segments[e].entries[start + k - 1]
        &&& (v.len() == limit || !Self::spec_readable(m, e, start + v.len(), req))
    }

    /// Read up to `limit` consecutive entries of segment `segment_epoch`
    /// starting at `start_index`.
    ///
    /// Reads below the truncation watermark fail with `InvalidArgument`.
    /// `None` means nothing is readable yet — the caller suspends and is
    /// woken on the next acknowledged advance. Otherwise the result is the
    /// maximal run of readable entries from `start_index`, cut at `limit`.
    pub fn scan_entries(
        &self,
        segment_epoch: u32,
        start_index: u32,
        limit: usize,
        require_acked: bool,
    ) -> (res: Result<Option<Vec<(u32, Entry)>>, Error>)
        requires
            self.inv(),
        ensures
            match res {
                Err(e) => e == Error::InvalidArgument && (Sequence {
                    epoch: segment_epoch,
                    index: start_index,
                }).spec_lt(self@.initial_seq),
                Ok(opt) => !(Sequence { epoch: segment_epoch, index: start_index }).spec_lt(
                    self@.initial_seq,
                ) && match opt {
                    Option::None => !Self::spec_readable(
                        self@,
                        segment_epoch,
                        start_index as int,
                        require_acked,
                    ) || limit == 0,
                    Option::Some(v) => Self::spec_scan_ok(
                        self@,
                        segment_epoch,
                        start_index as int,
                        require_acked,
                        limit,
                        v@,
                    ),
                },
            },
    {
        let probe = Sequence { epoch: segment_epoch, index: start_index };
        if probe.le(self.initial_seq) && !(self.initial_seq.le(probe)) {
            return Err(Error::InvalidArgument);
        }
        let i: usize = match self.find_segment(segment_epoch) {
            Some(i) => i,
            None => {
                return Ok(None);
            },
        };
        let seg = &self.segments[i].1;
        let acked: u32 = seg.acked_index();
        let total: usize = seg.entries.len();
        let mut out: Vec<(u32, Entry)> = Vec::new();
        let mut idx: u64 = start_index as u64;
        loop
            invariant
                self.inv(),
                self@.segments.contains_key(segment_epoch),
                self@.segments[segment_epoch] == seg@,
                acked == seg@.acked_index,
                total == seg@.entries.len(),
                idx == start_index as u64 + out@.len(),
                out@.len() <= limit,
                forall|k: int|
                    0 <= k < out@.len() ==> Self::spec_readable(
                        self@,
                        segment_epoch,
                        start_index + k,
                        require_acked,
                    ) && (#[trigger] out@[k]).0 == start_index + k && slot_view(
                        Some(out@[k].1),
                    ) == self@.segments[segment_epoch].entries[start_index + k - 1],
            ensures
                out@.len() == limit || !Self::spec_readable(
                    self@,
                    segment_epoch,
                    start_index + out@.len(),
                    require_acked,
                ),
            decreases limit - out@.len(),
        {
            if out.len() >= limit {
                break;
            }
            if idx < 1 || idx > total as u64 {
                break;
            }
            if require_acked && idx > acked as u64 {
                break;
            }
            let slot: usize = (idx - 1) as usize;
            let got: Option<Entry> = match &seg.entries[slot] {
                Some(e) => Some(e.clone()),
                None => None,
            };
            match got {
                Some(e) => {
                    out.push((idx as u32, e));
                    idx = idx + 1;
                },
                None => {
                    break;
                },
            }
        }
        if out.len() == 0 {
            return Ok(None);
        }
        proof {
            assert(Self::spec_scan_ok(
                self@,
                segment_epoch,
                start_index as int,
                require_acked,
                limit,
                out@,
            ));
        }
        Ok(Some(out))
    }

    /// Adopt a newer truncation watermark: reads at sequences below it are
    /// refused from then on. Log-file reclamation itself happens in the
    /// version set; the index keeps its segments so later epochs stay
    /// readable.
    pub fn refresh_versions(&mut self, initial_seq: Sequence)
        requires
            old(self).inv(),
        ensures
            final(self).inv(),
            final(self)@ == (StreamModel {
                initial_seq: seq_max(old(self)@.initial_seq, initial_seq),
                ..old(self)@
            }),
    {
        if self.initial_seq.le(initial_seq) {
            self.initial_seq = initial_seq;
        }
        proof {
            assert forall|e: u32| self@.segments.contains_key(e) implies wf_segment(
                #[trigger] self@.segments[e],
                e,
            ) by {
                assert(self@.segments[e] == old(self)@.segments[e]);
            }
        }
    }

    /// Replay a record sequence, as recovery does after a crash: the stream
    /// ends in exactly the state reached by folding the one transition over
    /// the records.
    pub fn replay_records(&mut self, records: &Vec<Record>)
        requires
            old(self).inv(),
        ensures
            final(self).inv(),
            final(self)@ == spec_replay(old(self)@, crate::record::record_views(records@)),
    {
        let ghost all = crate::record::record_views(records@);
        proof {
            assert(all.skip(0) =~= all);
        }
        let mut i: usize = 0;
        while i < records.len()
            invariant
                i <= records@.len(),
                self.inv(),
                all == crate::record::record_views(records@),
                spec_replay(old(self)@, all) == spec_replay(self@, all.skip(i as int)),
            decreases records@.len() - i,
        {
            let ghost pre = self@;
            self.apply_record(&records[i]);
            proof {
                assert(all.skip(i as int)[0] == records@[i as int]@);
                assert(all.skip(i as int).drop_first() =~= all.skip(i as int + 1));
            }
            i = i + 1;
        }
        proof {
            assert(all.skip(records@.len() as int) =~= Seq::<RecordModel>::empty());
        }
    }

    /// Raise the acknowledged sequence to `to` if it is later.
    fn bump_acked(&mut self, to: Sequence)
        ensures
            final(self).acked_seq_field() == seq_max(old(self).acked_seq_field(), to),
            final(self).segments_field() == old(self).segments_field(),
            final(self).stream_id_field() == old(self).stream_id_field(),
            final(self).initial_seq_field() == old(self).initial_seq_field(),
    {
        if self.acked_seq.le(to) {
            self.acked_seq = to;
        }
    }

    pub closed spec fn acked_seq_field(&self) -> Sequence {
        self.acked_seq
    }

    closed spec fn segments_field(&self) -> Seq<(u32, SegmentIndex)> {
        self.segments@
    }

    closed spec fn stream_id_field(&self) -> u64 {
        self.stream_id
    }

    closed spec fn initial_seq_field(&self) -> Sequence {
        self.initial_seq
    }
}

/// Keys stay unique when a slot is updated in place without changing its
/// key.
proof fn lemma_keys_unique_update(
    old_list: Seq<(u32, SegmentIndex)>,
    new_list: Seq<(u32, SegmentIndex)>,
    i: int,
)
    requires
        0 <= i < old_list.len(),
        new_list =~= old_list.update(i, new_list[i]),
        new_list[i].0 == old_list[i].0,
        forall|a: int, b: int|
            0 <= a < b < old_list.len() ==> #[trigger] old_list[a].0 != #[trigger] old_list[b].0,
    ensures
        forall|a: int, b: int|
            0 <= a < b < new_list.len() ==> #[trigger] new_list[a].0 != #[trigger] new_list[b].0,
{
    assert forall|a: int, b: int| 0 <= a < b < new_list.len() implies #[trigger] new_list[a].0
        != #[trigger] new_list[b].0 by {
        assert(new_list[a].0 == old_list[a].0);
        assert(new_list[b].0 == old_list[b].0);
    }
}

/// Keys stay unique when a fresh key is pushed at the end.
proof fn lemma_keys_unique_push(
    old_list: Seq<(u32, SegmentIndex)>,
    new_list: Seq<(u32, SegmentIndex)>,
)
    requires
        new_list =~= old_list.push(new_list.last()),
        new_list.len() == old_list.len() + 1,
        !(exists|i: int| 0 <= i < old_list.len() && #[trigger] old_list[i].0 == new_list.last().0),
        forall|a: int, b: int|
            0 <= a < b < old_list.len() ==> #[trigger] old_list[a].0 != #[trigger] old_list[b].0,
    ensures
        forall|a: int, b: int|
            0 <= a < b < new_list.len() ==> #[trigger] new_list[a].0 != #[trigger] new_list[b].0,
{
    assert forall|a: int, b: int| 0 <= a < b < new_list.len() implies #[trigger] new_list[a].0
        != #[trigger] new_list[b].0 by {
        assert(new_list[a].0 == old_list[a].0);
        if b < old_list.len() {
            assert(new_list[b].0 == old_list[b].0);
        }
    }
}

} // verus!
