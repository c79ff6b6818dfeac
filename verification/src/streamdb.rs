//! The stream database: the public local façade.
//!
//! It binds one partial stream and one pipelined writer per stream, owns
//! the version set and the log engine, and services `write`, `seal`,
//! `read` and `truncate`. Every write is durable in the log (in this model,
//! appended to the active file's bytes with one sync) before the call
//! returns.

use vstd::prelude::*;

use crate::log::LogEngine;
use crate::manifest::{
    ReplicaMeta, StreamMeta, StreamMetaModel, VersionEdit, VersionEditModel, VersionSet,
};
use crate::pipeline::{PipelinedWriter, SubmitOutcome};
use crate::record::{
    encoded_at, spec_encode_record, spec_encode_records, wf_record, Record, RecordModel,
};
use crate::reader::SegmentReader;
use crate::tributary::{
    seq_max, spec_apply_record, spec_segment_or_new, spec_staled, spec_window_overflows,
    PartialStream, StreamModel,
};
use crate::types::{Entry, EntryModel, Error, Sequence};

verus! {

/// The soft high-water mark of a stream's write queue.
pub const WRITE_QUEUE_HIGH_WATER: usize = 1024;

/// One stream's core: its index and its write pipeline.
pub struct StreamCore {
    pub storage: PartialStream,
    pub writer: PipelinedWriter,
}

impl StreamCore {
    /// Borrow the index and the writer together, as the flush path needs.
    pub fn borrow_pipelined_writer_mut(&mut self) -> (r: (&mut PartialStream, &mut PipelinedWriter))
        ensures
            *r.0 == old(self).storage,
            *r.1 == old(self).writer,
            *final(self) == (StreamCore { storage: *final(r.0), writer: *final(r.1) }),
    {
        (&mut self.storage, &mut self.writer)
    }
}

/// A shared handle to one stream.
pub struct StreamFlow {
    pub stream_id: u64,
    pub core: StreamCore,
}

impl StreamFlow {
    /// The invariant of a flow: the index invariant holds, the writer's
    /// accounting holds, and the writer is idle between public operations.
    pub open spec fn inv(&self) -> bool {
        &&& self.core.storage.inv()
        &&& self.core.storage@.stream_id == self.stream_id
        &&& self.core.writer.wf()
        &&& !self.core.writer.spec_in_flight()
        &&& self.core.writer.spec_pending().len() == 0
    }

    /// A flow around an existing partial stream.
    pub fn new(stream_id: u64, storage: PartialStream) -> (r: StreamFlow)
        requires
            storage.inv(),
            storage@.stream_id == stream_id,
        ensures
            r.inv(),
            r.stream_id == stream_id,
            r.core.storage == storage,
    {
        StreamFlow {
            stream_id,
            core: StreamCore {
                storage,
                writer: PipelinedWriter::new(stream_id, WRITE_QUEUE_HIGH_WATER),
            },
        }
    }

    /// A flow over an empty stream whose reads begin at `initial_seq`.
    pub fn new_empty(stream_id: u64, initial_seq: Sequence) -> (r: StreamFlow)
        ensures
            r.inv(),
            r.stream_id == stream_id,
            r.core.storage@.stream_id == stream_id,
            r.core.storage@.segments =~= Map::<u32, crate::tributary::SegmentModel>::empty(),
            r.core.storage@.acked_seq == initial_seq,
            r.core.storage@.initial_seq == initial_seq,
    {
        StreamFlow::new(stream_id, PartialStream::new(stream_id, initial_seq))
    }

    /// The stream's metadata for a truncation at `keep_seq`: the current
    /// acknowledged sequence, the new watermark, and one replica record per
    /// sealed segment.
    pub fn stream_meta(&self, keep_seq: Sequence) -> (meta: StreamMeta)
        requires
            self.inv(),
        ensures
            meta@.stream_id == self.stream_id,
            meta@.acked_seq == self.core.storage@.acked_seq.spec_pack(),
            meta@.initial_seq == keep_seq.spec_pack(),
            forall|k: int|
                0 <= k < meta@.replicas.len() ==> self.core.storage@.segments.contains_key(
                    (#[trigger] meta@.replicas[k]).epoch,
                ) && self.core.storage@.segments[meta@.replicas[k].epoch].sealed
                    && meta@.replicas[k].promised_epoch == Some(
                    self.core.storage@.segments[meta@.replicas[k].epoch].promised_epoch,
                ),
            forall|e: u32|
                self.core.storage@.segments.contains_key(e) && (#[trigger] self.core
                    .storage@.segments[e]).sealed ==> exists|k: int|
                    0 <= k < meta@.replicas.len() && (#[trigger] meta@.replicas[k]).epoch == e,
            forall|k: int|
                0 <= k < meta@.replicas.len() ==> (#[trigger] meta@.replicas[k]).set_files
                    == Seq::<u64>::empty(),
            forall|a: int, b: int|
                0 <= a < b < meta@.replicas.len() ==> (#[trigger] meta@.replicas[a]).epoch != (
                #[trigger] meta@.replicas[b]).epoch,
    {
        let sealed: Vec<(u32, u32)> = self.core.storage.sealed_epoches();
        let mut replicas: Vec<ReplicaMeta> = Vec::new();
        let mut k: usize = 0;
        while k < sealed.len()
            invariant
                k <= sealed@.len(),
                replicas@.len() == k,
                forall|j: int|
                    0 <= j < sealed@.len() ==> self.core.storage@.segments.contains_key(
                        (#[trigger] sealed@[j]).0,
                    ) && self.core.storage@.segments[sealed@[j].0].sealed && sealed@[j].1
                        == self.core.storage@.segments[sealed@[j].0].promised_epoch,
                forall|j: int|
                    0 <= j < k ==> (#[trigger] replicas@[j]@).epoch == sealed@[j].0 && replicas@[
                        j]@.promised_epoch == Some(sealed@[j].1) && replicas@[j]@.set_files
                        == Seq::<u64>::empty(),
            decreases sealed@.len() - k,
        {
            replicas.push(
                ReplicaMeta {
                    epoch: sealed[k].0,
                    promised_epoch: Some(sealed[k].1),
                    set_files: Vec::new(),
                },
            );
            k = k + 1;
        }
        let meta = StreamMeta {
            stream_id: self.stream_id,
            acked_seq: self.core.storage.acked_seq().pack(),
            initial_seq: keep_seq.pack(),
            replicas,
        };
        proof {
            assert forall|j: int| 0 <= j < meta@.replicas.len() implies self.core
                .storage@.segments.contains_key((#[trigger] meta@.replicas[j]).epoch) && self
                .core.storage@.segments[meta@.replicas[j].epoch].sealed && meta@.replicas[
                j].promised_epoch == Some(
                self.core.storage@.segments[meta@.replicas[j].epoch].promised_epoch,
            ) by {
                assert(meta@.replicas[j] == replicas@[j]@);
            }
            assert forall|e: u32|
                self.core.storage@.segments.contains_key(e) && (#[trigger] self.core
                    .storage@.segments[e]).sealed implies exists|k: int|
                0 <= k < meta@.replicas.len() && (#[trigger] meta@.replicas[k]).epoch == e by {
                let k = choose|k: int|
                    0 <= k < sealed@.len() && (#[trigger] sealed@[k]).0 == e;
                assert(meta@.replicas[k] == replicas@[k]@);
                assert(meta@.replicas[k].epoch == e);
            }
            assert forall|k: int|
                0 <= k < meta@.replicas.len() implies (#[trigger] meta@.replicas[k]).set_files
                == Seq::<u64>::empty() by {
                assert(meta@.replicas[k] == replicas@[k]@);
            }
            assert forall|a: int, b: int|
                0 <= a < b < meta@.replicas.len() implies (#[trigger] meta@.replicas[a]).epoch
                != (#[trigger] meta@.replicas[b]).epoch by {
                assert(meta@.replicas[a] == replicas@[a]@);
                assert(meta@.replicas[b] == replicas@[b]@);
                assert(sealed@[a].0 != sealed@[b].0);
            }
        }
        meta
    }

    /// Poll entries for a reader: either a non-empty batch, or `None` after
    /// registering the caller for a wake on the next acknowledged advance.
    pub fn poll_entries(
        &mut self,
        required_epoch: u32,
        start_index: u32,
        limit: usize,
        require_acked: bool,
    ) -> (res: Result<Option<Vec<(u32, Entry)>>, Error>)
        requires
            old(self).inv(),
        ensures
            final(self).inv(),
            final(self).core.storage == old(self).core.storage,
            final(self).stream_id == old(self).stream_id,
            match res {
                Err(e) => e == Error::InvalidArgument && (Sequence {
                    epoch: required_epoch,
                    index: start_index,
                }).spec_lt(old(self).core.storage@.initial_seq),
                Ok(opt) => !(Sequence { epoch: required_epoch, index: start_index }).spec_lt(
                    old(self).core.storage@.initial_seq,
                ) && match opt {
                    Option::None => !PartialStream::spec_readable(
                        old(self).core.storage@,
                        required_epoch,
                        start_index as int,
                        require_acked,
                    ) || limit == 0,
                    Option::Some(v) => PartialStream::spec_scan_ok(
                        old(self).core.storage@,
                        required_epoch,
                        start_index as int,
                        require_acked,
                        limit,
                        v@,
                    ),
                },
            },
    {
        let res = self.core.storage.scan_entries(
            required_epoch,
            start_index,
            limit,
            require_acked,
        );
        match res {
            Ok(Some(v)) => Ok(Some(v)),
            Ok(None) => {
                self.core.writer.register_reading_waiter();
                Ok(None)
            },
            Err(e) => Err(e),
        }
    }
}

/// The stream metadata a fresh stream starts from, given the current
/// version: its truncation watermark if the version knows the stream,
/// otherwise the zero sequence.
pub open spec fn spec_fresh_initial(v: crate::manifest::VersionModel, id: u64) -> Sequence {
    if v.streams.contains_key(id) {
        Sequence::spec_unpack(v.streams[id].initial_seq as int)
    } else {
        Sequence { epoch: 0, index: 0 }
    }
}

/// The empty stream a database binds to the current version: reads begin
/// at the version's truncation watermark for the stream, or at the zero
/// sequence for an unknown one.
pub open spec fn spec_fresh_stream(v: crate::manifest::VersionModel, id: u64) -> StreamModel {
    StreamModel {
        stream_id: id,
        segments: Map::empty(),
        acked_seq: spec_fresh_initial(v, id),
        initial_seq: spec_fresh_initial(v, id),
    }
}

/// All records a recovery scan yields: each file's decodable prefix, file
/// by file, in the order the files are given.
pub open spec fn spec_scanned_records(files: Seq<(u64, Vec<u8>)>) -> Seq<RecordModel>
    decreases files.len(),
{
    if files.len() == 0 {
        Seq::empty()
    } else {
        crate::record::spec_scan(files[0].1@, 0).0 + spec_scanned_records(files.drop_first())
    }
}

/// The records of one stream, in scan order.
pub open spec fn spec_records_for(rs: Seq<RecordModel>, id: u64) -> Seq<RecordModel>
    decreases rs.len(),
{
    if rs.len() == 0 {
        Seq::empty()
    } else if rs[0].stream_id == id {
        seq![rs[0]] + spec_records_for(rs.drop_first(), id)
    } else {
        spec_records_for(rs.drop_first(), id)
    }
}

/// The stream recovery leaves for `id`: absent when no scanned record
/// carries the stream, else the replay of its records over the fresh
/// stream the version prescribes.
pub open spec fn spec_recovered_stream(
    v: crate::manifest::VersionModel,
    rs: Seq<RecordModel>,
    id: u64,
) -> Option<StreamModel> {
    if spec_records_for(rs, id).len() == 0 {
        None
    } else {
        Some(
            crate::tributary::spec_replay(spec_fresh_stream(v, id), spec_records_for(rs, id)),
        )
    }
}

/// The largest file number among the given files (0 when none).
pub open spec fn spec_max_file(files: Seq<(u64, Vec<u8>)>) -> u64
    decreases files.len(),
{
    if files.len() == 0 {
        0u64
    } else {
        let rest = spec_max_file(files.drop_first());
        if files[0].0 > rest {
            files[0].0
        } else {
            rest
        }
    }
}

/// Every file number is bounded by the maximum.
proof fn lemma_max_file_bound(files: Seq<(u64, Vec<u8>)>)
    ensures
        forall|k: int| 0 <= k < files.len() ==> (#[trigger] files[k]).0 <= spec_max_file(files),
    decreases files.len(),
{
    if files.len() > 0 {
        lemma_max_file_bound(files.drop_first());
        assert forall|k: int|
            0 <= k < files.len() implies (#[trigger] files[k]).0 <= spec_max_file(files) by {
            if k > 0 {
                assert(files.drop_first()[k - 1] == files[k]);
            }
        }
    }
}

/// Appending one file extends the maximum.
proof fn lemma_max_file_snoc(files: Seq<(u64, Vec<u8>)>, f: (u64, Vec<u8>))
    ensures
        spec_max_file(files.push(f)) == (if f.0 > spec_max_file(files) {
            f.0
        } else {
            spec_max_file(files)
        }),
    decreases files.len(),
{
    if files.len() == 0 {
        assert(files.push(f)[0] == f);
        assert(files.push(f).drop_first() =~= files);
    } else {
        assert(files.push(f)[0] == files[0]);
        assert(files.push(f).drop_first() =~= files.drop_first().push(f));
        lemma_max_file_snoc(files.drop_first(), f);
    }
}

/// Scanning one more file appends its decodable prefix.
proof fn lemma_scanned_snoc(files: Seq<(u64, Vec<u8>)>, f: (u64, Vec<u8>))
    ensures
        spec_scanned_records(files.push(f)) == spec_scanned_records(files)
            + crate::record::spec_scan(f.1@, 0).0,
    decreases files.len(),
{
    if files.len() == 0 {
        assert(files.push(f)[0] == f);
        assert(files.push(f).drop_first() =~= files);
        assert(Seq::<RecordModel>::empty() + crate::record::spec_scan(f.1@, 0).0
            =~= crate::record::spec_scan(f.1@, 0).0);
        assert(crate::record::spec_scan(f.1@, 0).0 + Seq::<RecordModel>::empty()
            =~= crate::record::spec_scan(f.1@, 0).0);
    } else {
        assert(files.push(f)[0] == files[0]);
        assert(files.push(f).drop_first() =~= files.drop_first().push(f));
        lemma_scanned_snoc(files.drop_first(), f);
        assert(crate::record::spec_scan(files[0].1@, 0).0 + (spec_scanned_records(
            files.drop_first(),
        ) + crate::record::spec_scan(f.1@, 0).0) =~= (crate::record::spec_scan(
            files[0].1@,
            0,
        ).0 + spec_scanned_records(files.drop_first())) + crate::record::spec_scan(f.1@, 0).0);
    }
}

/// Appending one record extends exactly its own stream's record list.
proof fn lemma_records_for_snoc(rs: Seq<RecordModel>, r: RecordModel, id: u64)
    ensures
        r.stream_id == id ==> spec_records_for(rs.push(r), id) == spec_records_for(rs, id).push(
            r,
        ),
        r.stream_id != id ==> spec_records_for(rs.push(r), id) == spec_records_for(rs, id),
    decreases rs.len(),
{
    if rs.len() == 0 {
        assert(rs.push(r)[0] == r);
        assert(rs.push(r).drop_first() =~= rs);
        if r.stream_id == id {
            assert(seq![r] + Seq::<RecordModel>::empty() =~= Seq::<RecordModel>::empty().push(
                r,
            ));
        }
    } else {
        assert(rs.push(r)[0] == rs[0]);
        assert(rs.push(r).drop_first() =~= rs.drop_first().push(r));
        lemma_records_for_snoc(rs.drop_first(), r, id);
        if rs[0].stream_id == id && r.stream_id == id {
            assert(seq![rs[0]] + spec_records_for(rs.drop_first(), id).push(r) =~= (seq![rs[0]]
                + spec_records_for(rs.drop_first(), id)).push(r));
        }
    }
}

/// The truncation metadata a stream yields at `keep_seq`: the stream's id
/// and packed acknowledged sequence, the new watermark, and a replicas
/// list that is exactly the sealed table — every listed replica a sealed
/// segment with its promise and no retained files, every sealed segment
/// listed, no epoch twice.
pub open spec fn spec_meta_matches(
    m0: StreamModel,
    keep_seq: Sequence,
    stream_id: u64,
    meta: StreamMetaModel,
) -> bool {
    &&& meta.stream_id == stream_id
    &&& meta.acked_seq == m0.acked_seq.spec_pack()
    &&& meta.initial_seq == keep_seq.spec_pack()
    &&& forall|k: int|
        0 <= k < meta.replicas.len() ==> m0.segments.contains_key(
            (#[trigger] meta.replicas[k]).epoch,
        ) && m0.segments[meta.replicas[k].epoch].sealed && meta.replicas[k].promised_epoch
            == Some(m0.segments[meta.replicas[k].epoch].promised_epoch) && meta.replicas[
            k].set_files == Seq::<u64>::empty()
    &&& forall|e: u32|
        m0.segments.contains_key(e) && (#[trigger] m0.segments[e]).sealed ==> exists|k: int|
            0 <= k < meta.replicas.len() && (#[trigger] meta.replicas[k]).epoch == e
    &&& forall|a: int, b: int|
        0 <= a < b < meta.replicas.len() ==> (#[trigger] meta.replicas[a]).epoch != (
        #[trigger] meta.replicas[b]).epoch
}

/// Crash recovery equals the live state: if a database's streams were
/// built by applying records `rs` in order — which is exactly what `write`
/// and `seal` do, each also appending its record's frame to the log — then
/// scanning that log and replaying it reconstructs, for every stream, the
/// same model the live database held.
pub proof fn lemma_recovery_equals_live(
    v: crate::manifest::VersionModel,
    rs: Seq<RecordModel>,
    id: u64,
)
    requires
        forall|k: int| 0 <= k < rs.len() ==> wf_record(#[trigger] rs[k]),
    ensures
        spec_recovered_stream(v, crate::record::spec_scan(spec_encode_records(rs), 0).0, id)
            == (if spec_records_for(rs, id).len() == 0 {
            None
        } else {
            Some(
                crate::tributary::spec_replay(spec_fresh_stream(v, id), spec_records_for(rs, id)),
            )
        }),
{
    let s = spec_encode_records(rs);
    assert(encoded_at(s, 0, s)) by {
        assert(s.subrange(0, s.len() as int) =~= s);
    }
    crate::record::lemma_scan_of_encoded(s, 0, rs);
}

/// The stream database.
pub struct StreamDB {
    streams: Vec<(u64, StreamFlow)>,
    version_set: VersionSet,
    log: LogEngine,
}

impl StreamDB {
    /// The model of stream `id`, if the database knows it.
    pub closed spec fn spec_stream(&self, id: u64) -> Option<StreamModel> {
        spec_stream_of(self.streams@, id)
    }

    pub closed spec fn spec_version(&self) -> crate::manifest::VersionModel {
        self.version_set.spec_current()
    }

    pub closed spec fn spec_log_active(&self) -> Seq<u8> {
        self.log.spec_active()
    }

    pub closed spec fn spec_sync_count(&self) -> u64 {
        self.log.spec_sync_count()
    }

    pub closed spec fn spec_next_file_number(&self) -> u64 {
        self.log.spec_next_file_number()
    }

    /// The model of stream `id`, or the fresh stream a write would create.
    pub open spec fn spec_stream_or_new(&self, id: u64) -> StreamModel {
        match self.spec_stream(id) {
            Option::Some(m) => m,
            Option::None => spec_fresh_stream(self.spec_version(), id),
        }
    }

    pub closed spec fn spec_streams(&self) -> Seq<(u64, StreamFlow)> {
        self.streams@
    }

    pub closed spec fn keys_unique(&self) -> bool {
        db_keys_unique(self.streams@)
    }

    pub closed spec fn flows_ok(&self) -> bool {
        db_flows_ok(self.streams@)
    }

    /// The database invariant.
    pub open spec fn inv(&self) -> bool {
        &&& self.keys_unique()
        &&& self.flows_ok()
        &&& self.spec_version_inv()
    }

    pub closed spec fn spec_version_inv(&self) -> bool {
        self.version_set.inv()
    }

    /// A fresh, empty database: an empty version set and log file 1.
    pub fn open_empty() -> (r: StreamDB)
        ensures
            r.inv(),
            r.spec_sync_count() == 0,
            forall|id: u64| r.spec_stream(id) is None,
    {
        let r = StreamDB {
            streams: Vec::new(),
            version_set: VersionSet::new(),
            log: LogEngine::new(1),
        };
        r
    }

    /// Find the slot of stream `id`.
    #[verifier::loop_isolation(false)]
    fn find_flow(&self, id: u64) -> (r: Option<usize>)
        requires
            self.inv(),
        ensures
            match r {
                Some(i) => i < self.streams@.len() && self.streams@[i as int].0 == id
                    && self.spec_stream(id) == Some(self.streams@[i as int].1.core.storage@),
                None => self.spec_stream(id) is None,
            },
    {
        let mut i: usize = 0;
        while i < self.streams.len()
            invariant
                i <= self.streams@.len(),
                forall|k: int| 0 <= k < i ==> #[trigger] self.streams@[k].0 != id,
            decreases self.streams@.len() - i,
        {
            if self.streams[i].0 == id {
                proof {
                    lemma_stream_of_at(self.streams@, i as int, id);
                }
                return Some(i);
            }
            i = i + 1;
        }
        proof {
            lemma_stream_of_absent(self.streams@, id);
        }
        None
    }

    /// Find the slot of stream `id`, creating an empty stream bound to the
    /// current version if it is unknown.
    fn must_get_stream(&mut self, id: u64) -> (i: usize)
        requires
            old(self).inv(),
        ensures
            final(self).inv(),
            i < final(self).streams_len(),
            final(self).stream_at(i as int).0 == id,
            final(self).stream_at(i as int).1.core.storage@ == old(self).spec_stream_or_new(id),
            final(self).spec_stream(id) == Some(old(self).spec_stream_or_new(id)),
            forall|id2: u64|
                id2 != id ==> #[trigger] final(self).spec_stream(id2) == old(self).spec_stream(
                    id2,
                ),
            final(self).spec_version() == old(self).spec_version(),
            final(self).spec_log_active() == old(self).spec_log_active(),
            final(self).spec_sync_count() == old(self).spec_sync_count(),
            final(self).spec_next_file_number() == old(self).spec_next_file_number(),
            final(self).spec_active_file_number() == old(self).spec_active_file_number(),
            final(self).spec_manifest() == old(self).spec_manifest(),
            old(self).spec_stream(id) is Some ==> *final(self) == *old(self),
    {
        match self.find_flow(id) {
            Some(i) => i,
            None => {
                let version = self.version_set.current();
                let initial: Sequence = match version.stream_meta_of(id) {
                    Some(m) => Sequence::unpack(m.initial_seq),
                    None => Sequence { epoch: 0, index: 0 },
                };
                let flow = StreamFlow::new_empty(id, initial);
                let ghost before = self.streams@;
                let i: usize = self.streams.len();
                self.streams.push((id, flow));
                proof {
                    lemma_stream_of_push(before, self.streams@.last(), id);
                    assert forall|id2: u64| id2 != id implies #[trigger] spec_stream_of(
                        self.streams@,
                        id2,
                    ) == spec_stream_of(before, id2) by {
                        lemma_stream_of_push(before, self.streams@.last(), id2);
                    }
                    assert forall|a: int, b: int|
                        0 <= a < b < self.streams@.len() implies #[trigger] self.streams@[a].0
                        != #[trigger] self.streams@[b].0 by {
                        assert(self.streams@[a] == before[a]);
                        if b < before.len() {
                            assert(self.streams@[b] == before[b]);
                        } else {
                            lemma_stream_of_absent_rev(before, id);
                        }
                    }
                    assert forall|k: int|
                        0 <= k < self.streams@.len() implies (#[trigger] self.streams@[
                        k].1).inv() && self.streams@[k].1.stream_id == self.streams@[k].0 by {
                        if k < before.len() {
                            assert(self.streams@[k] == before[k]);
                        }
                    }
                }
                i
            },
        }
    }

    pub closed spec fn streams_len(&self) -> int {
        self.streams@.len() as int
    }

    pub closed spec fn stream_at(&self, i: int) -> (u64, StreamFlow) {
        self.streams@[i]
    }
}

impl StreamDB {
    /// Flush the stream at slot `i`: take its pending batch, append it to
    /// the log as one group commit, and complete.
    #[verifier::rlimit(100)]
    #[verifier::spinoff_prover]
    fn flush_slot(&mut self, i: usize)
        requires
            db_keys_unique(old(self).spec_streams()),
            db_flows_ok_except(old(self).spec_streams(), i as int),
            old(self).spec_version_inv(),
            i < old(self).streams_len(),
            forall|k: int|
                0 <= k < old(self).stream_at(i as int).1.core.writer.spec_pending().len()
                    ==> wf_record(
                    #[trigger] crate::record::record_views(
                        old(self).stream_at(i as int).1.core.writer.spec_pending(),
                    )[k],
                ),
        ensures
            final(self).inv(),
            final(self).spec_version() == old(self).spec_version(),
            forall|id2: u64| #[trigger]
                final(self).spec_stream(id2) == old(self).spec_stream(id2),
            final(self).spec_next_file_number() == old(self).spec_next_file_number(),
            final(self).spec_log_active() == old(self).spec_log_active()
                + spec_encode_records(
                crate::record::record_views(
                    old(self).stream_at(i as int).1.core.writer.spec_pending(),
                ),
            ),
            old(self).stream_at(i as int).1.core.writer.spec_pending().len() > 0 ==> final(self).spec_sync_count() == (if old(self).spec_sync_count() < u64::MAX {
                old(self).spec_sync_count() + 1
            } else {
                old(self).spec_sync_count() as int
            }),
            old(self).stream_at(i as int).1.core.writer.spec_pending().len() == 0 ==> final(self).spec_sync_count() == old(self).spec_sync_count(),
    {
        let ghost before = self.streams@;
        let batch_opt: Option<Vec<Record>> = {
            let flow = &mut self.streams[i];
            flow.1.core.writer.begin_flush()
        };
        proof {
            assert(self.streams@ =~= before.update(i as int, self.streams@[i as int]));
            lemma_db_frame_eq(before, self.streams@, i as int);
        }
        match batch_opt {
            Some(batch) => {
                proof {
                    assert forall|k: int| 0 <= k < batch@.len() implies wf_record(
                        #[trigger] crate::record::record_views(batch@)[k],
                    ) by {
                        assert(crate::record::record_views(batch@)[k]
                            == crate::record::record_views(
                            old(self).stream_at(i as int).1.core.writer.spec_pending(),
                        )[k]);
                    }
                }
                let ghost s1 = self.streams@;
                let appended = self.log.append(&batch);
                proof {
                    assert(appended is Ok);
                }
                let flow = &mut self.streams[i];
                let wakes: u64 = flow.1.core.writer.complete_flush();
                proof {
                    assert(self.streams@ =~= s1.update(i as int, self.streams@[i as int]));
                    lemma_db_frame_eq(s1, self.streams@, i as int);
                    assert(db_flows_ok(self.streams@)) by {
                        assert forall|k: int|
                            0 <= k < self.streams@.len() implies (#[trigger] self.streams@[
                            k].1).inv() && self.streams@[k].1.stream_id == self.streams@[
                            k].0 by {
                            if k != i {
                                assert(s1[k] == before[k]);
                                assert(self.streams@[k] == s1[k]);
                            }
                        }
                    }
                }
            },
            None => {
                proof {
                    assert(spec_encode_records(
                        crate::record::record_views(
                            old(self).stream_at(i as int).1.core.writer.spec_pending(),
                        ),
                    ) =~= Seq::<u8>::empty());
                    assert(self.log.spec_active() =~= old(self).spec_log_active()
                        + Seq::<u8>::empty());
                    assert(db_flows_ok(self.streams@)) by {
                        assert forall|k: int|
                            0 <= k < self.streams@.len() implies (#[trigger] self.streams@[
                            k].1).inv() && self.streams@[k].1.stream_id == self.streams@[
                            k].0 by {
                            if k != i {
                                assert(self.streams@[k] == before[k]);
                            }
                        }
                    }
                }
            },
        }
    }

    /// Write a batch of entries to a stream segment.
    ///
    /// Returns the continuous and acknowledged index of the segment after
    /// the write (both the gap-free prefix), with the batch durable in the
    /// log under one sync. Fails with `InvalidArgument` when `first_index`
    /// is 0, the window escapes the index space, or an entry exceeds its
    /// length prefix; with `Staled` when the request is well formed but
    /// `writer_epoch` is below the segment's promise — a malformed request
    /// is reported as `InvalidArgument` even when it is also staled. An
    /// error never changes stream state or the log, though a previously
    /// unknown stream may now exist, empty.
    #[verifier::rlimit(100)]
    #[verifier::spinoff_prover]
    pub fn write(
        &mut self,
        stream_id: u64,
        segment_epoch: u32,
        writer_epoch: u32,
        acked_seq: Sequence,
        first_index: u32,
        entries: Vec<Entry>,
    ) -> (res: Result<(u32, u32), Error>)
        requires
            old(self).inv(),
        ensures
            final(self).inv(),
            final(self).spec_version() == old(self).spec_version(),
            final(self).spec_next_file_number() == old(self).spec_next_file_number(),
            forall|id2: u64|
                id2 != stream_id ==> #[trigger] final(self).spec_stream(id2) == old(
                    self,
                ).spec_stream(id2),
            ({
                let m0 = old(self).spec_stream_or_new(stream_id);
                let recm = RecordModel {
                    stream_id,
                    writer_epoch,
                    segment_epoch,
                    first_index,
                    acked_seq,
                    entries: entries@.map_values(|e: Entry| e@),
                };
                match res {
                    Ok((ci, ai)) => {
                        &&& wf_record(recm)
                        &&& first_index >= 1
                        &&& !spec_window_overflows(recm)
                        &&& !spec_staled(m0, recm)
                        &&& final(self).spec_stream(stream_id) == Some(
                            spec_apply_record(m0, recm),
                        )
                        &&& m0.acked_seq.spec_le(spec_apply_record(m0, recm).acked_seq)
                        &&& ci == spec_segment_or_new(
                            spec_apply_record(m0, recm),
                            segment_epoch,
                        ).acked_index
                        &&& ai == ci
                        &&& final(self).spec_log_active() == old(self).spec_log_active()
                            + spec_encode_record(recm)
                        &&& final(self).spec_sync_count() == (if old(self).spec_sync_count()
                            < u64::MAX {
                            old(self).spec_sync_count() + 1
                        } else {
                            old(self).spec_sync_count() as int
                        })
                    },
                    Err(e) => {
                        &&& final(self).spec_log_active() == old(self).spec_log_active()
                        &&& final(self).spec_sync_count() == old(self).spec_sync_count()
                        &&& (e == Error::InvalidArgument || e == Error::Staled)
                        &&& (e == Error::InvalidArgument <==> (!wf_record(recm) || first_index
                            == 0 || spec_window_overflows(recm)))
                        &&& (e == Error::Staled <==> (wf_record(recm) && first_index >= 1
                            && !spec_window_overflows(recm) && spec_staled(m0, recm)))
                        &&& (final(self).spec_stream(stream_id) == old(self).spec_stream(
                            stream_id,
                        ) || final(self).spec_stream(stream_id) == Some(m0))
                    },
                }
            }),
    {
        let rec = Record {
            stream_id,
            writer_epoch,
            segment_epoch,
            first_index,
            acked_seq,
            entries,
        };
        let mut probe = crate::codec::BufWriter::new();
        match crate::record::encode_record(&rec, &mut probe) {
            Ok(()) => {},
            Err(_) => {
                return Err(Error::InvalidArgument);
            },
        }
        let i: usize = self.must_get_stream(stream_id);
        let ghost db1 = *self;
        let ghost s1 = self.streams@;
        let wr = {
            let flow = &mut self.streams[i];
            flow.1.core.storage.write_record(&rec)
        };
        proof {
            assert(self.streams@ =~= s1.update(i as int, self.streams@[i as int]));
            lemma_db_update_frame(s1, self.streams@, i as int);
            lemma_db_flows_ok_restore(s1, self.streams@, i as int);
        }
        let (ci, ai): (u32, u32) = match wr {
            Ok(pair) => pair,
            Err(e) => {
                proof {
                    assert forall|id2: u64|
                        id2 != stream_id implies #[trigger] self.spec_stream(id2) == old(
                        self,
                    ).spec_stream(id2) by {
                        assert(self.spec_stream(id2) == spec_stream_of(self.streams@, id2));
                        assert(spec_stream_of(self.streams@, id2) == spec_stream_of(s1, id2));
                        assert(db1.spec_stream(id2) == old(self).spec_stream(id2));
                    }
                }
                return Err(e);
            },
        };
        let ghost db2 = *self;
        let ghost s2 = self.streams@;
        let outcome = {
            let flow = &mut self.streams[i];
            flow.1.core.writer.submit(rec)
        };
        proof {
            assert(self.streams@ =~= s2.update(i as int, self.streams@[i as int]));
            lemma_db_frame_eq(s2, self.streams@, i as int);
            assert(outcome is Queued);
            lemma_db_flows_ok_weaken(s2, i as int);
            lemma_db_flows_ok_except_keep(s2, self.streams@, i as int);
            assert(crate::record::record_views(
                self.stream_at(i as int).1.core.writer.spec_pending(),
            ) =~= seq![rec@]);
            assert forall|k: int|
                0 <= k < self.stream_at(i as int).1.core.writer.spec_pending().len()
                    implies wf_record(
                #[trigger] crate::record::record_views(
                    self.stream_at(i as int).1.core.writer.spec_pending(),
                )[k],
            ) by {
                assert(crate::record::record_views(
                    self.stream_at(i as int).1.core.writer.spec_pending(),
                )[k] == rec@);
            }
        }
        let ghost db3 = *self;
        let ghost s3 = self.streams@;
        self.flush_slot(i);
        proof {
            assert(seq![rec@].drop_first() =~= Seq::<RecordModel>::empty());
            assert(seq![rec@][0] == rec@);
            assert(spec_encode_records(seq![rec@]) =~= spec_encode_record(rec@)
                + spec_encode_records(Seq::<RecordModel>::empty()));
            assert(spec_encode_record(rec@) + Seq::<u8>::empty() =~= spec_encode_record(rec@));
            assert(spec_encode_records(
                crate::record::record_views(s3[i as int].1.core.writer.spec_pending()),
            ) == spec_encode_record(rec@));
            assert forall|id2: u64|
                id2 != stream_id implies #[trigger] self.spec_stream(id2) == old(
                self,
            ).spec_stream(id2) by {
                assert(self.spec_stream(id2) == db3.spec_stream(id2));
                assert(db3.spec_stream(id2) == spec_stream_of(s3, id2));
                assert(spec_stream_of(s3, id2) == spec_stream_of(s2, id2));
                assert(spec_stream_of(s2, id2) == spec_stream_of(s1, id2));
                assert(db1.spec_stream(id2) == old(self).spec_stream(id2));
            }
            assert(self.spec_stream(stream_id) == db3.spec_stream(stream_id));
            assert(db3.spec_stream(stream_id) == spec_stream_of(s3, stream_id));
            assert(spec_stream_of(s3, stream_id) == spec_stream_of(s2, stream_id));
        }
        Ok((ci, ai))
    }

    /// Seal a stream segment under `writer_epoch` and return its
    /// acknowledged index. The seal record is durable in the log.
    #[verifier::rlimit(100)]
    #[verifier::spinoff_prover]
    pub fn seal(&mut self, stream_id: u64, segment_epoch: u32, writer_epoch: u32) -> (res:
        Result<u32, Error>)
        requires
            old(self).inv(),
        ensures
            final(self).inv(),
            final(self).spec_version() == old(self).spec_version(),
            forall|id2: u64|
                id2 != stream_id ==> #[trigger] final(self).spec_stream(id2) == old(
                    self,
                ).spec_stream(id2),
            ({
                let m0 = old(self).spec_stream_or_new(stream_id);
                let recm = RecordModel {
                    stream_id,
                    writer_epoch,
                    segment_epoch,
                    first_index: 0,
                    acked_seq: m0.acked_seq,
                    entries: Seq::empty(),
                };
                match res {
                    Ok(ai) => {
                        &&& final(self).spec_stream(stream_id) == Some(
                            spec_apply_record(m0, recm),
                        )
                        &&& spec_segment_or_new(
                            spec_apply_record(m0, recm),
                            segment_epoch,
                        ).sealed
                        &&& spec_segment_or_new(
                            spec_apply_record(m0, recm),
                            segment_epoch,
                        ).promised_epoch >= writer_epoch
                        &&& ai == spec_segment_or_new(
                            spec_apply_record(m0, recm),
                            segment_epoch,
                        ).acked_index
                        &&& m0.acked_seq.spec_le(spec_apply_record(m0, recm).acked_seq)
                        &&& final(self).spec_log_active() == old(self).spec_log_active()
                            + spec_encode_record(recm)
                    },
                    Err(_) => false,
                }
            }),
    {
        let i: usize = self.must_get_stream(stream_id);
        let ghost db1 = *self;
        let ghost s1 = self.streams@;
        let (rec, ai): (Record, u32) = {
            let flow = &mut self.streams[i];
            flow.1.core.storage.seal(segment_epoch, writer_epoch)
        };
        proof {
            assert(self.streams@ =~= s1.update(i as int, self.streams@[i as int]));
            lemma_db_update_frame(s1, self.streams@, i as int);
            lemma_db_flows_ok_restore(s1, self.streams@, i as int);
            lemma_seal_record_wf(rec@);
            assert(rec@.entries =~= Seq::<EntryModel>::empty());
        }
        let ghost db2 = *self;
        let ghost s2 = self.streams@;
        let outcome = {
            let flow = &mut self.streams[i];
            flow.1.core.writer.submit(rec)
        };
        proof {
            assert(self.streams@ =~= s2.update(i as int, self.streams@[i as int]));
            lemma_db_frame_eq(s2, self.streams@, i as int);
            assert(outcome is Queued);
            lemma_db_flows_ok_weaken(s2, i as int);
            lemma_db_flows_ok_except_keep(s2, self.streams@, i as int);
            assert(crate::record::record_views(
                self.stream_at(i as int).1.core.writer.spec_pending(),
            ) =~= seq![rec@]);
            assert forall|k: int|
                0 <= k < self.stream_at(i as int).1.core.writer.spec_pending().len()
                    implies wf_record(
                #[trigger] crate::record::record_views(
                    self.stream_at(i as int).1.core.writer.spec_pending(),
                )[k],
            ) by {
                assert(crate::record::record_views(
                    self.stream_at(i as int).1.core.writer.spec_pending(),
                )[k] == rec@);
            }
        }
        let ghost db3 = *self;
        let ghost s3 = self.streams@;
        self.flush_slot(i);
        proof {
            assert(seq![rec@].drop_first() =~= Seq::<RecordModel>::empty());
            assert(seq![rec@][0] == rec@);
            assert(spec_encode_records(seq![rec@]) =~= spec_encode_record(rec@)
                + spec_encode_records(Seq::<RecordModel>::empty()));
            assert(spec_encode_record(rec@) + Seq::<u8>::empty() =~= spec_encode_record(rec@));
            assert(spec_encode_records(
                crate::record::record_views(s3[i as int].1.core.writer.spec_pending()),
            ) == spec_encode_record(rec@));
            assert forall|id2: u64|
                id2 != stream_id implies #[trigger] self.spec_stream(id2) == old(
                self,
            ).spec_stream(id2) by {
                assert(self.spec_stream(id2) == db3.spec_stream(id2));
                assert(db3.spec_stream(id2) == spec_stream_of(s3, id2));
                assert(spec_stream_of(s3, id2) == spec_stream_of(s2, id2));
                assert(spec_stream_of(s2, id2) == spec_stream_of(s1, id2));
                assert(db1.spec_stream(id2) == old(self).spec_stream(id2));
            }
            assert(self.spec_stream(stream_id) == db3.spec_stream(stream_id));
            assert(db3.spec_stream(stream_id) == spec_stream_of(s3, stream_id));
            assert(spec_stream_of(s3, stream_id) == spec_stream_of(s2, stream_id));
            assert(rec@.entries =~= Seq::<EntryModel>::empty());
            assert(s1[i as int].1.core.storage@ == old(self).spec_stream_or_new(stream_id));
            assert(rec@.acked_seq == s1[i as int].1.core.storage@.acked_seq);
            assert(rec@ == (RecordModel {
                stream_id,
                writer_epoch,
                segment_epoch,
                first_index: 0,
                acked_seq: old(self).spec_stream_or_new(stream_id).acked_seq,
                entries: Seq::empty(),
            }));
        }
        Ok(ai)
    }

    /// Syncs performed by the log engine so far.
    pub fn sync_count(&self) -> (r: u64)
        ensures
            r == self.spec_sync_count(),
    {
        self.log.sync_count()
    }

    /// The manifest bytes of the database.
    pub closed spec fn spec_manifest(&self) -> Seq<u8> {
        self.version_set.spec_manifest()
    }

    /// The manifest bytes to persist.
    pub fn manifest_bytes(&self) -> (r: &Vec<u8>)
        ensures
            r@ == self.spec_manifest(),
    {
        self.version_set.manifest_bytes()
    }

    /// The active log file's bytes, for the host to persist.
    pub fn active_log_bytes(&self) -> (r: &Vec<u8>)
        ensures
            r@ == self.spec_log_active(),
    {
        self.log.active_bytes()
    }

    /// The number of the active log file.
    pub closed spec fn spec_active_file_number(&self) -> u64 {
        self.log.spec_active_file_number()
    }

    /// The active log file's number; the host persists the active bytes
    /// under this name.
    pub fn active_file_number(&self) -> (r: u64)
        ensures
            r == self.spec_active_file_number(),
    {
        self.log.active_file_number()
    }

    /// The next file number; it strictly exceeds every file number ever
    /// referenced.
    pub fn next_file_number(&self) -> (r: u64)
        ensures
            r == self.spec_next_file_number(),
    {
        self.log.next_file_number()
    }

    /// Rebuild a database after a crash: replay the manifest into the
    /// version set, then replay every log file's records into per-stream
    /// indices through the same transition the live write path uses. Files
    /// are applied in the order given (hosts pass them in ascending file
    /// number order); each file contributes exactly its decodable prefix,
    /// so a torn tail loses only the frames at and after the tear.
    ///
    /// On success the version is exactly the replay of the manifest's
    /// edits, with the next file number raised strictly above every
    /// observed file number, and every stream is exactly the replay of its
    /// scanned records — so recovering the same bytes twice yields
    /// identical states, and the result equals the live state whose writes
    /// produced those bytes. A manifest that does not decode completely is
    /// a fatal `Corruption`.
    #[verifier::loop_isolation(false)]
    #[verifier::rlimit(100)]
    pub fn recover(manifest_bytes: &[u8], log_files: &Vec<(u64, Vec<u8>)>) -> (res: Result<
        StreamDB,
        Error,
    >)
        ensures
            ({
                let scan = crate::manifest::spec_scan_edits(manifest_bytes@, 0);
                let v0 = crate::manifest::spec_replay_edits(
                    crate::manifest::VersionModel {
                        files: Set::empty(),
                        streams: Map::empty(),
                        next_file_number: 1,
                    },
                    scan.0,
                );
                match res {
                    Ok(db) => {
                        &&& db.inv()
                        &&& scan.1 == manifest_bytes@.len()
                        &&& db.spec_version() == (crate::manifest::VersionModel {
                            next_file_number: (spec_max_file(log_files@) + 1) as u64,
                            ..v0
                        })
                        &&& db.spec_manifest() == manifest_bytes@
                        &&& forall|id: u64| #[trigger]
                            db.spec_stream(id) == spec_recovered_stream(
                                db.spec_version(),
                                spec_scanned_records(log_files@),
                                id,
                            )
                        &&& db.spec_active_file_number() == spec_max_file(log_files@) + 1
                        &&& db.spec_next_file_number() == spec_max_file(log_files@) + 2
                        &&& forall|k: int|
                            0 <= k < log_files@.len() ==> (#[trigger] log_files@[k]).0
                                < db.spec_next_file_number()
                        &&& db.spec_log_active() == Seq::<u8>::empty()
                        &&& db.spec_sync_count() == 0
                    },
                    Err(e) => e == Error::Corruption && (scan.1 != manifest_bytes@.len()
                        || spec_max_file(log_files@) >= u64::MAX - 1),
                }
            }),
    {
        let version_set: VersionSet = match VersionSet::recover(manifest_bytes) {
            Ok(vs) => vs,
            Err(_) => {
                return Err(Error::Corruption);
            },
        };
        let mut maxf: u64 = 0;
        let mut k: usize = 0;
        proof {
            assert(log_files@.take(0) =~= Seq::<(u64, Vec<u8>)>::empty());
        }
        while k < log_files.len()
            invariant
                k <= log_files@.len(),
                maxf == spec_max_file(log_files@.take(k as int)),
            decreases log_files@.len() - k,
        {
            proof {
                lemma_max_file_snoc(log_files@.take(k as int), log_files@[k as int]);
                assert(log_files@.take(k as int).push(log_files@[k as int]) =~= log_files@.take(
                    k as int + 1,
                ));
            }
            if log_files[k].0 > maxf {
                maxf = log_files[k].0;
            }
            k = k + 1;
        }
        proof {
            assert(log_files@.take(log_files@.len() as int) =~= log_files@);
        }
        if maxf >= u64::MAX - 1 {
            return Err(Error::Corruption);
        }
        let mut version_set = version_set;
        version_set.set_next_file_number(maxf + 1);
        let log = LogEngine::new(maxf + 1);
        let mut db = StreamDB { streams: Vec::new(), version_set, log };
        let ghost vfinal = db.spec_version();
        let ghost all_scanned = spec_scanned_records(log_files@);
        let ghost done: Seq<RecordModel> = Seq::empty();
        proof {
            assert(db.inv());
            assert forall|id: u64| #[trigger]
                db.spec_stream(id) == spec_recovered_stream(vfinal, done, id) by {
                lemma_stream_of_absent(db.streams@, id);
            }
        }
        let mut f: usize = 0;
        proof {
            assert(done =~= spec_scanned_records(log_files@.take(0)));
        }
        let mut done = Ghost(done);
        while f < log_files.len()
            invariant
                f <= log_files@.len(),
                db.inv(),
                db.spec_sync_count() == 0,
                db.spec_log_active() == Seq::<u8>::empty(),
                db.spec_next_file_number() == maxf + 2,
                db.spec_active_file_number() == maxf + 1,
                db.spec_version() == vfinal,
                db.spec_manifest() == manifest_bytes@,
                done@ == spec_scanned_records(log_files@.take(f as int)),
                forall|id: u64| #[trigger]
                    db.spec_stream(id) == spec_recovered_stream(vfinal, done@, id),
            decreases log_files@.len() - f,
        {
            let (records, _stop): (Vec<Record>, usize) = crate::record::recover_records(
                log_files[f].1.as_slice(),
                0,
            );
            let ghost views = crate::record::record_views(records@);
            let mut r: usize = 0;
            proof {
                assert(done@ + views.take(0) =~= done@);
            }
            while r < records.len()
                invariant
                    r <= records@.len(),
                    db.inv(),
                    db.spec_sync_count() == 0,
                    db.spec_log_active() == Seq::<u8>::empty(),
                    db.spec_next_file_number() == maxf + 2,
                    db.spec_active_file_number() == maxf + 1,
                    db.spec_version() == vfinal,
                    db.spec_manifest() == manifest_bytes@,
                    views == crate::record::record_views(records@),
                    forall|id: u64| #[trigger]
                        db.spec_stream(id) == spec_recovered_stream(
                            vfinal,
                            done@ + views.take(r as int),
                            id,
                        ),
                decreases records@.len() - r,
            {
                let ghost cur = done@ + views.take(r as int);
                let ghost rv = views[r as int];
                let ghost db_pre = db;
                let i: usize = db.must_get_stream(records[r].stream_id);
                let ghost db_mid = db;
                let ghost s_mid = db.streams@;
                {
                    let flow = &mut db.streams[i];
                    flow.1.core.storage.apply_record(&records[r]);
                }
                proof {
                    assert(db.streams@ =~= s_mid.update(i as int, db.streams@[i as int]));
                    lemma_db_update_frame(s_mid, db.streams@, i as int);
                    lemma_db_flows_ok_restore(s_mid, db.streams@, i as int);
                    assert(rv == records@[r as int]@);
                    assert(cur.push(rv) =~= done@ + views.take(r as int + 1));
                    assert forall|id: u64| #[trigger]
                        db.spec_stream(id) == spec_recovered_stream(
                            vfinal,
                            cur.push(rv),
                            id,
                        ) by {
                        lemma_records_for_snoc(cur, rv, id);
                        if id == rv.stream_id {
                            let base = db_pre.spec_stream_or_new(id);
                            assert(db_mid.spec_stream(id) == Some(base));
                            assert(spec_stream_of(s_mid, id) == Some(base));
                            assert(db.spec_stream(id) == Some(
                                crate::tributary::spec_apply_record(base, rv),
                            ));
                            if spec_records_for(cur, id).len() == 0 {
                                assert(db_pre.spec_stream(id) is None);
                                assert(base == spec_fresh_stream(vfinal, id));
                                assert(spec_records_for(cur, id).push(rv)
                                    =~= Seq::<RecordModel>::empty().push(rv));
                                crate::tributary::lemma_replay_snoc(
                                    base,
                                    Seq::<RecordModel>::empty(),
                                    rv,
                                );
                            } else {
                                assert(db_pre.spec_stream(id) == Some(
                                    crate::tributary::spec_replay(
                                        spec_fresh_stream(vfinal, id),
                                        spec_records_for(cur, id),
                                    ),
                                ));
                                crate::tributary::lemma_replay_snoc(
                                    spec_fresh_stream(vfinal, id),
                                    spec_records_for(cur, id),
                                    rv,
                                );
                            }
                        } else {
                            assert(db_mid.spec_stream(id) == db_pre.spec_stream(id));
                            assert(db.spec_stream(id) == spec_stream_of(s_mid, id));
                        }
                    }
                }
                r = r + 1;
            }
            proof {
                assert(views.take(records@.len() as int) =~= views);
                lemma_scanned_snoc(log_files@.take(f as int), log_files@[f as int]);
                assert(log_files@.take(f as int).push(log_files@[f as int]) =~= log_files@.take(
                    f as int + 1,
                ));
                assert(done@ + views =~= spec_scanned_records(log_files@.take(f as int + 1)));
            }
            proof {
                done@ = done@ + views;
            }
            f = f + 1;
        }
        proof {
            assert(log_files@.take(log_files@.len() as int) =~= log_files@);
            lemma_max_file_bound(log_files@);
        }
        Ok(db)
    }

    /// Truncate a stream at `keep_seq`: record the watermark in the
    /// manifest and stop serving reads below it.
    ///
    /// Rejected with `InvalidArgument` when `keep_seq` exceeds the stream's
    /// acknowledged sequence — un-acknowledged entries cannot be truncated —
    /// or when the stream's metadata cannot fit a manifest frame. The
    /// acknowledged sequence itself never moves: after success it still
    /// dominates `keep_seq`.
    #[verifier::rlimit(100)]
    #[verifier::spinoff_prover]
    pub fn truncate(&mut self, stream_id: u64, keep_seq: Sequence) -> (res: Result<(), Error>)
        requires
            old(self).inv(),
        ensures
            final(self).inv(),
            forall|id2: u64|
                id2 != stream_id ==> #[trigger] final(self).spec_stream(id2) == old(
                    self,
                ).spec_stream(id2),
            final(self).spec_log_active() == old(self).spec_log_active(),
            ({
                let m0 = old(self).spec_stream_or_new(stream_id);
                match res {
                    Ok(()) => {
                        &&& keep_seq.spec_le(m0.acked_seq)
                        &&& final(self).spec_stream(stream_id) == Some(
                            crate::tributary::StreamModel {
                                initial_seq: seq_max(m0.initial_seq, keep_seq),
                                ..m0
                            },
                        )
                        &&& keep_seq.spec_le(
                            final(self).spec_stream(stream_id)->Some_0.acked_seq,
                        )
                        &&& final(self).spec_version().streams.contains_key(stream_id)
                        &&& final(self).spec_version().streams[stream_id].initial_seq
                            == keep_seq.spec_pack()
                    },
                    Err(e) => {
                        &&& e == Error::InvalidArgument
                        &&& final(self).spec_version() == old(self).spec_version()
                        &&& (final(self).spec_stream(stream_id) == old(self).spec_stream(
                            stream_id,
                        ) || final(self).spec_stream(stream_id) == Some(m0))
                        &&& (!keep_seq.spec_le(m0.acked_seq) || exists|bad: StreamMetaModel|
                            spec_meta_matches(m0, keep_seq, stream_id, bad) && !(
                            #[trigger] crate::manifest::wf_edit(
                                VersionEditModel::StreamTruncate { meta: bad },
                            )))
                    },
                }
            }),
    {
        let i: usize = self.must_get_stream(stream_id);
        let ghost db1 = *self;
        let ghost s1 = self.streams@;
        let acked: Sequence = self.streams[i].1.core.storage.acked_seq();
        if !keep_seq.le(acked) {
            proof {
                lemma_db_noop_frame(db1, self, stream_id, s1);
            }
            return Err(Error::InvalidArgument);
        }
        let meta: StreamMeta = self.streams[i].1.stream_meta(keep_seq);
        let ghost meta_model = meta@;
        let installed = self.version_set.truncate_stream(meta);
        match installed {
            Ok(()) => {},
            Err(_) => {
                proof {
                    lemma_db_noop_frame(db1, self, stream_id, s1);
                    assert(s1[i as int].1.core.storage@ == old(self).spec_stream_or_new(
                        stream_id,
                    ));
                    assert(spec_meta_matches(
                        old(self).spec_stream_or_new(stream_id),
                        keep_seq,
                        stream_id,
                        meta_model,
                    ));
                    assert(!crate::manifest::wf_edit(
                        VersionEditModel::StreamTruncate { meta: meta_model },
                    ));
                }
                return Err(Error::InvalidArgument);
            },
        }
        let ghost s2 = self.streams@;
        {
            let flow = &mut self.streams[i];
            flow.1.core.storage.refresh_versions(keep_seq);
        }
        proof {
            assert(self.streams@ =~= s2.update(i as int, self.streams@[i as int]));
            lemma_db_update_frame(s2, self.streams@, i as int);
            lemma_db_flows_ok_restore(s2, self.streams@, i as int);
            assert forall|id2: u64|
                id2 != stream_id implies #[trigger] self.spec_stream(id2) == old(
                self,
            ).spec_stream(id2) by {
                assert(self.spec_stream(id2) == spec_stream_of(self.streams@, id2));
                assert(spec_stream_of(self.streams@, id2) == spec_stream_of(s2, id2));
                assert(db1.spec_stream(id2) == old(self).spec_stream(id2));
            }
            assert(self.spec_stream(stream_id) == spec_stream_of(self.streams@, stream_id));
            assert(s1[i as int].1.core.storage@ == old(self).spec_stream_or_new(stream_id));
        }
        Ok(())
    }

    /// Drop a log file no live version references any more: install the
    /// manifest edit that removes it from the live set, then release its
    /// bytes from the engine. The lazy reclamation step truncation leaves
    /// behind runs through here.
    pub fn release_file(&mut self, file_number: u64)
        requires
            old(self).inv(),
        ensures
            final(self).inv(),
            forall|id2: u64| #[trigger]
                final(self).spec_stream(id2) == old(self).spec_stream(id2),
            final(self).spec_version() == crate::manifest::spec_apply_edit(
                old(self).spec_version(),
                VersionEditModel::FileDelete { file_number },
            ),
            !final(self).spec_version().files.contains(file_number),
            final(self).spec_log_active() == old(self).spec_log_active(),
            final(self).spec_sync_count() == old(self).spec_sync_count(),
    {
        let edit = VersionEdit::FileDelete { file_number };
        let installed = self.version_set.install_edit(&edit);
        proof {
            assert(installed is Ok);
        }
        self.log.release(file_number);
    }

    /// A lazy reader over one stream segment.
    pub fn read(
        &self,
        stream_id: u64,
        segment_epoch: u32,
        start_index: u32,
        limit: usize,
        require_acked: bool,
    ) -> (res: Result<SegmentReader, Error>)
        requires
            self.inv(),
        ensures
            match res {
                Ok(r) => {
                    &&& self.spec_stream(stream_id) is Some
                    &&& r.spec_segment_epoch() == segment_epoch
                    &&& r.spec_next_index() == start_index
                    &&& r.spec_limit() == limit
                    &&& r.spec_require_acked() == require_acked
                },
                Err(e) => e == Error::NotFound && self.spec_stream(stream_id) is None,
            },
    {
        match self.find_flow(stream_id) {
            Some(_) => Ok(
                SegmentReader::new(segment_epoch, start_index, limit, require_acked),
            ),
            None => Err(Error::NotFound),
        }
    }

    /// A lazy reader over one stream segment (the explicit-name variant).
    pub fn get_segment_reader(
        &self,
        stream_id: u64,
        segment_epoch: u32,
        start_index: u32,
        limit: usize,
        require_acked: bool,
    ) -> (res: Result<SegmentReader, Error>)
        requires
            self.inv(),
        ensures
            match res {
                Ok(r) => {
                    &&& self.spec_stream(stream_id) is Some
                    &&& r.spec_segment_epoch() == segment_epoch
                    &&& r.spec_next_index() == start_index
                    &&& r.spec_limit() == limit
                    &&& r.spec_require_acked() == require_acked
                },
                Err(e) => e == Error::NotFound && self.spec_stream(stream_id) is None,
            },
    {
        self.read(stream_id, segment_epoch, start_index, limit, require_acked)
    }

    /// Poll entries of a stream directly, registering for a wake when
    /// nothing is readable yet.
    pub fn poll_stream(
        &mut self,
        stream_id: u64,
        segment_epoch: u32,
        start_index: u32,
        limit: usize,
        require_acked: bool,
    ) -> (res: Result<Option<Vec<(u32, Entry)>>, Error>)
        requires
            old(self).inv(),
        ensures
            final(self).inv(),
            forall|id2: u64| #[trigger]
                final(self).spec_stream(id2) == old(self).spec_stream(id2),
            final(self).spec_version() == old(self).spec_version(),
            match res {
                Err(e) => {
                    &&& (e == Error::NotFound <==> old(self).spec_stream(stream_id) is None)
                    &&& (e == Error::NotFound || e == Error::InvalidArgument)
                    &&& (e == Error::InvalidArgument ==> old(self).spec_stream(stream_id)
                        is Some && (Sequence { epoch: segment_epoch, index: start_index })
                        .spec_lt(old(self).spec_stream(stream_id)->Some_0.initial_seq))
                },
                Ok(opt) => old(self).spec_stream(stream_id) is Some && !(Sequence {
                    epoch: segment_epoch,
                    index: start_index,
                }).spec_lt(old(self).spec_stream(stream_id)->Some_0.initial_seq) && match opt {
                    Option::None => !PartialStream::spec_readable(
                        old(self).spec_stream(stream_id)->Some_0,
                        segment_epoch,
                        start_index as int,
                        require_acked,
                    ) || limit == 0,
                    Option::Some(v) => PartialStream::spec_scan_ok(
                        old(self).spec_stream(stream_id)->Some_0,
                        segment_epoch,
                        start_index as int,
                        require_acked,
                        limit,
                        v@,
                    ),
                },
            },
    {
        let i: usize = match self.find_flow(stream_id) {
            Some(i) => i,
            None => {
                return Err(Error::NotFound);
            },
        };
        let ghost mid = self.streams@;
        let res = {
            let flow = &mut self.streams[i];
            flow.1.poll_entries(segment_epoch, start_index, limit, require_acked)
        };
        proof {
            assert(self.streams@ =~= mid.update(i as int, self.streams@[i as int]));
            lemma_db_update_frame(mid, self.streams@, i as int);
        }
        res
    }
}

/// Updating one slot without changing its key or its storage model leaves
/// every stream's model either unchanged (other keys) or equal to the new
/// slot's storage (this key), and preserves key uniqueness.
proof fn lemma_db_update_frame(
    before: Seq<(u64, StreamFlow)>,
    after: Seq<(u64, StreamFlow)>,
    i: int,
)
    requires
        0 <= i < before.len(),
        after =~= before.update(i, after[i]),
        after[i].0 == before[i].0,
        forall|a: int, b: int|
            0 <= a < b < before.len() ==> #[trigger] before[a].0 != #[trigger] before[b].0,
    ensures
        forall|a: int, b: int|
            0 <= a < b < after.len() ==> #[trigger] after[a].0 != #[trigger] after[b].0,
        forall|id: u64|
            id != before[i].0 ==> #[trigger] spec_stream_of(after, id) == spec_stream_of(
                before,
                id,
            ),
        spec_stream_of(after, before[i].0) == Some(after[i].1.core.storage@),
    decreases before.len(),
{
    assert forall|a: int, b: int| 0 <= a < b < after.len() implies #[trigger] after[a].0
        != #[trigger] after[b].0 by {
        assert(after[a].0 == before[a].0);
        assert(after[b].0 == before[b].0);
    }
    assert forall|id: u64| id != before[i].0 implies #[trigger] spec_stream_of(after, id)
        == spec_stream_of(before, id) by {
        lemma_db_update_other(before, after, i, id);
    }
    assert forall|k: int| 0 <= k < i implies #[trigger] after[k].0 != before[i].0 by {
        assert(after[k].0 == before[k].0);
    }
    lemma_stream_of_at(after, i, before[i].0);
}

/// Helper for `lemma_db_update_frame`: other keys are untouched.
proof fn lemma_db_update_other(
    before: Seq<(u64, StreamFlow)>,
    after: Seq<(u64, StreamFlow)>,
    i: int,
    id: u64,
)
    requires
        0 <= i < before.len(),
        after.len() == before.len(),
        forall|k: int| 0 <= k < before.len() && k != i ==> #[trigger] after[k] == before[k],
        after[i].0 == before[i].0,
        id != before[i].0,
    ensures
        spec_stream_of(after, id) == spec_stream_of(before, id),
    decreases before.len(),
{
    if before.len() > 0 {
        if i == 0 {
            assert(after.drop_first() =~= before.drop_first());
        } else {
            assert(after[0] == before[0]);
            assert forall|k: int|
                0 <= k < before.drop_first().len() && k != i - 1 implies #[trigger] after
                .drop_first()[k] == before.drop_first()[k] by {
                assert(after.drop_first()[k] == after[k + 1]);
                assert(before.drop_first()[k] == before[k + 1]);
            }
            assert(after.drop_first()[i - 1].0 == before.drop_first()[i - 1].0);
            lemma_db_update_other(before.drop_first(), after.drop_first(), i - 1, id);
        }
    }
}

/// An early error exit after `must_get_stream`: every stream's model is
/// either its old one or the freshly created empty one.
proof fn lemma_db_noop_frame(db1: StreamDB, cur: &StreamDB, stream_id: u64, s1: Seq<(u64, StreamFlow)>)
    requires
        cur.spec_streams() == s1,
        db1.spec_streams() == s1,
    ensures
        forall|id2: u64| #[trigger] cur.spec_stream(id2) == db1.spec_stream(id2),
{
}

/// A slot update that keeps the key and the storage model keeps every
/// stream's model, and key uniqueness.
proof fn lemma_db_frame_eq(before: Seq<(u64, StreamFlow)>, after: Seq<(u64, StreamFlow)>, i: int)
    requires
        0 <= i < before.len(),
        after =~= before.update(i, after[i]),
        after[i].0 == before[i].0,
        after[i].1.core.storage == before[i].1.core.storage,
        forall|a: int, b: int|
            0 <= a < b < before.len() ==> #[trigger] before[a].0 != #[trigger] before[b].0,
    ensures
        forall|a: int, b: int|
            0 <= a < b < after.len() ==> #[trigger] after[a].0 != #[trigger] after[b].0,
        forall|id: u64| #[trigger]
            spec_stream_of(after, id) == spec_stream_of(before, id),
{
    lemma_db_update_frame(before, after, i);
    assert forall|k: int| 0 <= k < i implies #[trigger] before[k].0 != before[i].0 by {
    }
    lemma_stream_of_at(before, i, before[i].0);
    assert forall|id: u64| #[trigger] spec_stream_of(after, id) == spec_stream_of(
        before,
        id,
    ) by {
        if id == before[i].0 {
            assert(spec_stream_of(after, id) == Some(after[i].1.core.storage@));
            assert(spec_stream_of(before, id) == Some(before[i].1.core.storage@));
        }
    }
}

/// A seal record is always well formed: its payload is the fixed 32-byte
/// header.
proof fn lemma_seal_record_wf(r: RecordModel)
    requires
        r.entries == Seq::<EntryModel>::empty(),
    ensures
        wf_record(r),
{
    reveal_with_fuel(crate::record::spec_encode_entries, 1);
    reveal(crate::record::spec_encode_payload);
    assert(crate::record::spec_encode_payload(r).len() == 32);
}

/// Keys of the stream list are unique.
pub open spec fn db_keys_unique(s: Seq<(u64, StreamFlow)>) -> bool {
    forall|a: int, b: int| 0 <= a < b < s.len() ==> #[trigger] s[a].0 != #[trigger] s[b].0
}

/// Every flow satisfies its invariant and carries its own key.
pub open spec fn db_flows_ok(s: Seq<(u64, StreamFlow)>) -> bool {
    forall|i: int|
        0 <= i < s.len() ==> (#[trigger] s[i].1).inv() && s[i].1.stream_id == s[i].0
}

/// Every flow but slot `i` satisfies its invariant; slot `i` is ready to
/// flush: its index and writer are sound and no batch is in flight, but its
/// queue may be non-empty.
pub open spec fn db_flows_ok_except(s: Seq<(u64, StreamFlow)>, i: int) -> bool {
    &&& forall|k: int|
        0 <= k < s.len() && k != i ==> (#[trigger] s[k].1).inv() && s[k].1.stream_id == s[k].0
    &&& 0 <= i < s.len()
    &&& s[i].1.core.storage.inv()
    &&& s[i].1.core.storage@.stream_id == s[i].1.stream_id
    &&& s[i].1.core.writer.wf()
    &&& !s[i].1.core.writer.spec_in_flight()
    &&& s[i].1.stream_id == s[i].0
}

/// An updated slot that satisfies the flow invariant restores `db_flows_ok`.
proof fn lemma_db_flows_ok_restore(before: Seq<(u64, StreamFlow)>, after: Seq<(u64, StreamFlow)>, i: int)
    requires
        db_flows_ok_except(before, i),
        after =~= before.update(i, after[i]),
        after[i].1.inv(),
        after[i].1.stream_id == after[i].0,
        after[i].0 == before[i].0,
    ensures
        db_flows_ok(after),
{
    assert forall|k: int| 0 <= k < after.len() implies (#[trigger] after[k].1).inv() && after[
        k].1.stream_id == after[k].0 by {
        if k != i {
            assert(after[k] == before[k]);
        }
    }
}

/// An updated slot that stays ready keeps `db_flows_ok_except`.
proof fn lemma_db_flows_ok_except_keep(
    before: Seq<(u64, StreamFlow)>,
    after: Seq<(u64, StreamFlow)>,
    i: int,
)
    requires
        db_flows_ok_except(before, i),
        after =~= before.update(i, after[i]),
        after[i].1.core.storage.inv(),
        after[i].1.core.storage@.stream_id == after[i].1.stream_id,
        after[i].1.core.writer.wf(),
        !after[i].1.core.writer.spec_in_flight(),
        after[i].1.stream_id == after[i].0,
        after[i].0 == before[i].0,
    ensures
        db_flows_ok_except(after, i),
{
    assert forall|k: int|
        0 <= k < after.len() && k != i implies (#[trigger] after[k].1).inv() && after[
        k].1.stream_id == after[k].0 by {
        assert(after[k] == before[k]);
    }
}

/// Full `db_flows_ok` gives the relaxed form at any slot.
proof fn lemma_db_flows_ok_weaken(s: Seq<(u64, StreamFlow)>, i: int)
    requires
        db_flows_ok(s),
        0 <= i < s.len(),
    ensures
        db_flows_ok_except(s, i),
{
}

/// The model of the first slot holding `id`, if any.
pub open spec fn spec_stream_of(s: Seq<(u64, StreamFlow)>, id: u64) -> Option<StreamModel>
    decreases s.len(),
{
    if s.len() == 0 {
        None
    } else if s[0].0 == id {
        Some(s[0].1.core.storage@)
    } else {
        spec_stream_of(s.drop_first(), id)
    }
}

/// With unique keys, the slot holding `id` gives the stream's model.
proof fn lemma_stream_of_at(s: Seq<(u64, StreamFlow)>, i: int, id: u64)
    requires
        0 <= i < s.len(),
        s[i].0 == id,
        forall|k: int| 0 <= k < i ==> #[trigger] s[k].0 != id,
    ensures
        spec_stream_of(s, id) == Some(s[i].1.core.storage@),
    decreases s.len(),
{
    if i > 0 {
        assert forall|k: int| 0 <= k < i - 1 implies #[trigger] s.drop_first()[k].0 != id by {
            assert(s.drop_first()[k] == s[k + 1]);
        }
        assert(s.drop_first()[i - 1] == s[i]);
        lemma_stream_of_at(s.drop_first(), i - 1, id);
    }
}

/// A key found in no slot has no model.
proof fn lemma_stream_of_absent(s: Seq<(u64, StreamFlow)>, id: u64)
    requires
        forall|k: int| 0 <= k < s.len() ==> #[trigger] s[k].0 != id,
    ensures
        spec_stream_of(s, id) is None,
    decreases s.len(),
{
    if s.len() > 0 {
        assert forall|k: int| 0 <= k < s.drop_first().len() implies #[trigger] s.drop_first()[
            k].0 != id by {
            assert(s.drop_first()[k] == s[k + 1]);
        }
        lemma_stream_of_absent(s.drop_first(), id);
    }
}

/// A key with no model is found in no slot.
proof fn lemma_stream_of_absent_rev(s: Seq<(u64, StreamFlow)>, id: u64)
    requires
        spec_stream_of(s, id) is None,
    ensures
        forall|k: int| 0 <= k < s.len() ==> #[trigger] s[k].0 != id,
    decreases s.len(),
{
    if s.len() > 0 {
        lemma_stream_of_absent_rev(s.drop_first(), id);
        assert forall|k: int| 0 <= k < s.len() implies #[trigger] s[k].0 != id by {
            if k > 0 {
                assert(s.drop_first()[k - 1] == s[k]);
            }
        }
    }
}

/// Pushing a slot with key `kid` leaves other keys' models unchanged and
/// binds `kid` if it was absent.
proof fn lemma_stream_of_push(s: Seq<(u64, StreamFlow)>, pair: (u64, StreamFlow), id: u64)
    ensures
        id == pair.0 && spec_stream_of(s, id) is None ==> spec_stream_of(s.push(pair), id)
            == Some(pair.1.core.storage@),
        id != pair.0 ==> spec_stream_of(s.push(pair), id) == spec_stream_of(s, id),
        spec_stream_of(s, id) is Some ==> spec_stream_of(s.push(pair), id) == spec_stream_of(
            s,
            id,
        ),
    decreases s.len(),
{
    if s.len() == 0 {
        assert(s.push(pair)[0] == pair);
        assert(s.push(pair).drop_first() =~= s);
    } else {
        assert(s.push(pair).drop_first() =~= s.drop_first().push(pair));
        assert(s.push(pair)[0] == s[0]);
        lemma_stream_of_push(s.drop_first(), pair, id);
    }
}

} // verus!
