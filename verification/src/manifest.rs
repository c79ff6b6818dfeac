//! Version edits and their on-disk frames.
//!
//! The manifest is an append-only log of typed edit records, each framed
//! like a data record (`u32 length | u32 crc | payload`). Replaying the
//! edits rebuilds the live version: the retained log files, the per-stream
//! metadata, and the next file number. The decoder is proved to be the
//! exact inverse of the encoder, and replaying a manifest twice yields the
//! identical version.

use vstd::map::*;
use vstd::prelude::*;

use crate::codec::{
    spec_le32, spec_le32_val, spec_le64, spec_le64_val, lemma_le32_roundtrip,
    lemma_le64_roundtrip, BufReader, BufWriter,
};
use crate::crc::crc32c;
use crate::record::{
    encoded_at, spec_decode_frame, spec_frame, lemma_decode_frame_of_encoded,
    lemma_encoded_at_split,
};
use crate::types::Error;

verus! {

pub const EDIT_TAG_STREAM_ADD: u8 = 0;

pub const EDIT_TAG_STREAM_TRUNCATE: u8 = 1;

pub const EDIT_TAG_FILE_ADD: u8 = 2;

pub const EDIT_TAG_FILE_DELETE: u8 = 3;

pub const EDIT_TAG_NEXT_FILE_NUMBER: u8 = 4;

/// Per-replica metadata of a stream: one sealed segment and its promise.
#[derive(Debug, PartialEq, Eq)]
pub struct ReplicaMeta {
    pub epoch: u32,
    pub promised_epoch: Option<u32>,
    pub set_files: Vec<u64>,
}

/// The mathematical shape of a replica's metadata.
pub struct ReplicaMetaModel {
    pub epoch: u32,
    pub promised_epoch: Option<u32>,
    pub set_files: Seq<u64>,
}

impl Clone for ReplicaMeta {
    /// Cloning preserves the modelled value.
    fn clone(&self) -> (r: Self)
        ensures
            r@ == self@,
    {
        let mut fs: Vec<u64> = Vec::new();
        let mut i: usize = 0;
        while i < self.set_files.len()
            invariant
                i <= self.set_files@.len(),
                fs@ == self.set_files@.take(i as int),
            decreases self.set_files@.len() - i,
        {
            fs.push(self.set_files[i]);
            proof {
                assert(fs@ =~= self.set_files@.take(i + 1));
            }
            i = i + 1;
        }
        proof {
            assert(fs@ =~= self.set_files@);
        }
        ReplicaMeta { epoch: self.epoch, promised_epoch: self.promised_epoch, set_files: fs }
    }
}

impl View for ReplicaMeta {
    type V = ReplicaMetaModel;

    open spec fn view(&self) -> ReplicaMetaModel {
        ReplicaMetaModel {
            epoch: self.epoch,
            promised_epoch: self.promised_epoch,
            set_files: self.set_files@,
        }
    }
}

/// Per-stream metadata carried by a truncation edit.
#[derive(Debug, PartialEq, Eq)]
pub struct StreamMeta {
    pub stream_id: u64,
    /// The stream's acknowledged sequence, packed.
    pub acked_seq: u64,
    /// The truncation watermark, packed.
    pub initial_seq: u64,
    pub replicas: Vec<ReplicaMeta>,
}

/// The mathematical shape of a stream's metadata.
pub struct StreamMetaModel {
    pub stream_id: u64,
    pub acked_seq: u64,
    pub initial_seq: u64,
    pub replicas: Seq<ReplicaMetaModel>,
}

impl Clone for StreamMeta {
    /// Cloning preserves the modelled value.
    fn clone(&self) -> (r: Self)
        ensures
            r@ == self@,
    {
        let mut rs: Vec<ReplicaMeta> = Vec::new();
        let mut i: usize = 0;
        while i < self.replicas.len()
            invariant
                i <= self.replicas@.len(),
                rs@.len() == i,
                forall|k: int| 0 <= k < i ==> #[trigger] rs@[k]@ == self.replicas@[k]@,
            decreases self.replicas@.len() - i,
        {
            rs.push(self.replicas[i].clone());
            i = i + 1;
        }
        proof {
            assert(rs@.map_values(|r: ReplicaMeta| r@) =~= self.replicas@.map_values(
                |r: ReplicaMeta| r@,
            ));
        }
        StreamMeta {
            stream_id: self.stream_id,
            acked_seq: self.acked_seq,
            initial_seq: self.initial_seq,
            replicas: rs,
        }
    }
}

impl View for StreamMeta {
    type V = StreamMetaModel;

    open spec fn view(&self) -> StreamMetaModel {
        StreamMetaModel {
            stream_id: self.stream_id,
            acked_seq: self.acked_seq,
            initial_seq: self.initial_seq,
            replicas: self.replicas@.map_values(|r: ReplicaMeta| r@),
        }
    }
}

/// One manifest edit.
#[derive(Debug, PartialEq, Eq)]
pub enum VersionEdit {
    /// A stream becomes known.
    StreamAdd { stream_id: u64 },
    /// A stream's metadata and truncation watermark are replaced.
    StreamTruncate { meta: StreamMeta },
    /// A log file joins the live set.
    FileAdd { file_number: u64 },
    /// A log file leaves the live set.
    FileDelete { file_number: u64 },
    /// The next file number is set.
    NextFileNumber { n: u64 },
}

/// The mathematical shape of an edit.
pub enum VersionEditModel {
    StreamAdd { stream_id: u64 },
    StreamTruncate { meta: StreamMetaModel },
    FileAdd { file_number: u64 },
    FileDelete { file_number: u64 },
    NextFileNumber { n: u64 },
}

impl Clone for VersionEdit {
    /// Cloning preserves the modelled value.
    fn clone(&self) -> (r: Self)
        ensures
            r@ == self@,
    {
        match self {
            VersionEdit::StreamAdd { stream_id } => VersionEdit::StreamAdd {
                stream_id: *stream_id,
            },
            VersionEdit::StreamTruncate { meta } => VersionEdit::StreamTruncate {
                meta: meta.clone(),
            },
            VersionEdit::FileAdd { file_number } => VersionEdit::FileAdd {
                file_number: *file_number,
            },
            VersionEdit::FileDelete { file_number } => VersionEdit::FileDelete {
                file_number: *file_number,
            },
            VersionEdit::NextFileNumber { n } => VersionEdit::NextFileNumber { n: *n },
        }
    }
}

impl View for VersionEdit {
    type V = VersionEditModel;

    open spec fn view(&self) -> VersionEditModel {
        match self {
            VersionEdit::StreamAdd { stream_id } => VersionEditModel::StreamAdd {
                stream_id: *stream_id,
            },
            VersionEdit::StreamTruncate { meta } => VersionEditModel::StreamTruncate {
                meta: meta@,
            },
            VersionEdit::FileAdd { file_number } => VersionEditModel::FileAdd {
                file_number: *file_number,
            },
            VersionEdit::FileDelete { file_number } => VersionEditModel::FileDelete {
                file_number: *file_number,
            },
            VersionEdit::NextFileNumber { n } => VersionEditModel::NextFileNumber { n: *n },
        }
    }
}

/// The bytes of a `u64` list: a `u32` count, then the values.
#[verifier::opaque]
pub open spec fn spec_encode_u64s(fs: Seq<u64>) -> Seq<u8>
    decreases fs.len(),
{
    if fs.len() == 0 {
        Seq::empty()
    } else {
        spec_le64(fs[0]) + spec_encode_u64s(fs.drop_first())
    }
}

/// The bytes of one replica.
pub open spec fn spec_encode_replica(r: ReplicaMetaModel) -> Seq<u8> {
    spec_le32(r.epoch) + (match r.promised_epoch {
        Option::Some(p) => seq![1u8] + spec_le32(p),
        Option::None => seq![0u8] + spec_le32(0),
    }) + spec_le32(r.set_files.len() as u32) + spec_encode_u64s(r.set_files)
}

/// The bytes of a replica list.
#[verifier::opaque]
pub open spec fn spec_encode_replicas(rs: Seq<ReplicaMetaModel>) -> Seq<u8>
    decreases rs.len(),
{
    if rs.len() == 0 {
        Seq::empty()
    } else {
        spec_encode_replica(rs[0]) + spec_encode_replicas(rs.drop_first())
    }
}

/// The bytes of a stream's metadata.
pub open spec fn spec_encode_stream_meta(m: StreamMetaModel) -> Seq<u8> {
    spec_le64(m.stream_id) + spec_le64(m.acked_seq) + spec_le64(m.initial_seq) + spec_le32(
        m.replicas.len() as u32,
    ) + spec_encode_replicas(m.replicas)
}

/// The payload of one edit: a tag byte and the fields of the variant.
pub open spec fn spec_encode_edit_payload(e: VersionEditModel) -> Seq<u8> {
    match e {
        VersionEditModel::StreamAdd { stream_id } => seq![EDIT_TAG_STREAM_ADD] + spec_le64(
            stream_id,
        ),
        VersionEditModel::StreamTruncate { meta } => seq![EDIT_TAG_STREAM_TRUNCATE]
            + spec_encode_stream_meta(meta),
        VersionEditModel::FileAdd { file_number } => seq![EDIT_TAG_FILE_ADD] + spec_le64(
            file_number,
        ),
        VersionEditModel::FileDelete { file_number } => seq![EDIT_TAG_FILE_DELETE] + spec_le64(
            file_number,
        ),
        VersionEditModel::NextFileNumber { n } => seq![EDIT_TAG_NEXT_FILE_NUMBER] + spec_le64(n),
    }
}

/// The CRC-guarded frame of one edit.
pub open spec fn spec_encode_edit(e: VersionEditModel) -> Seq<u8> {
    spec_frame(spec_encode_edit_payload(e))
}

/// A well-formed edit fits every length prefix.
pub open spec fn wf_edit(e: VersionEditModel) -> bool {
    match e {
        VersionEditModel::StreamTruncate { meta } => {
            &&& meta.replicas.len() <= u32::MAX
            &&& forall|i: int|
                0 <= i < meta.replicas.len() ==> (#[trigger] meta.replicas[i]).set_files.len()
                    <= u32::MAX
            &&& spec_encode_stream_meta(meta).len() + 1 <= u32::MAX
        },
        _ => true,
    }
}

/// Decoding a `u64` list of `n` values at offset `i`.
#[verifier::opaque]
pub open spec fn spec_decode_u64s(s: Seq<u8>, i: int, n: nat) -> Option<(Seq<u64>, int)>
    decreases n,
{
    if n == 0 {
        Some((Seq::empty(), i))
    } else if i < 0 || i + 8 > s.len() {
        None
    } else {
        match spec_decode_u64s(s, i + 8, (n - 1) as nat) {
            Option::None => None,
            Option::Some((vs, k)) => Some(
                (seq![spec_le64_val(s.subrange(i, i + 8)) as u64] + vs, k),
            ),
        }
    }
}

/// Decoding one replica at offset `i`.
pub open spec fn spec_decode_replica(s: Seq<u8>, i: int) -> Option<(ReplicaMetaModel, int)> {
    if i < 0 || i + 13 > s.len() {
        None
    } else {
        let epoch = spec_le32_val(s.subrange(i, i + 4)) as u32;
        let flag = s[i + 4];
        let promised = spec_le32_val(s.subrange(i + 5, i + 9)) as u32;
        let nf = spec_le32_val(s.subrange(i + 9, i + 13));
        if flag != 0 && flag != 1 {
            None
        } else {
            match spec_decode_u64s(s, i + 13, nf as nat) {
                Option::None => None,
                Option::Some((fs, k)) => Some(
                    (
                        ReplicaMetaModel {
                            epoch,
                            promised_epoch: if flag == 1 {
                                Some(promised)
                            } else {
                                None
                            },
                            set_files: fs,
                        },
                        k,
                    ),
                ),
            }
        }
    }
}

/// Decoding `n` replicas at offset `i`.
#[verifier::opaque]
pub open spec fn spec_decode_replicas(s: Seq<u8>, i: int, n: nat) -> Option<
    (Seq<ReplicaMetaModel>, int),
>
    decreases n,
{
    if n == 0 {
        Some((Seq::empty(), i))
    } else {
        match spec_decode_replica(s, i) {
            Option::None => None,
            Option::Some((r, j)) => match spec_decode_replicas(s, j, (n - 1) as nat) {
                Option::None => None,
                Option::Some((rs, k)) => Some((seq![r] + rs, k)),
            },
        }
    }
}

/// Decoding a stream's metadata at offset `i`.
pub open spec fn spec_decode_stream_meta(s: Seq<u8>, i: int) -> Option<(StreamMetaModel, int)> {
    if i < 0 || i + 28 > s.len() {
        None
    } else {
        let n = spec_le32_val(s.subrange(i + 24, i + 28));
        match spec_decode_replicas(s, i + 28, n as nat) {
            Option::None => None,
            Option::Some((rs, k)) => Some(
                (
                    StreamMetaModel {
                        stream_id: spec_le64_val(s.subrange(i, i + 8)) as u64,
                        acked_seq: spec_le64_val(s.subrange(i + 8, i + 16)) as u64,
                        initial_seq: spec_le64_val(s.subrange(i + 16, i + 24)) as u64,
                        replicas: rs,
                    },
                    k,
                ),
            ),
        }
    }
}

/// Decoding an edit payload; the whole payload must be consumed.
pub open spec fn spec_decode_edit_payload(p: Seq<u8>) -> Option<VersionEditModel> {
    if p.len() < 1 {
        None
    } else {
        let tag = p[0];
        if tag == EDIT_TAG_STREAM_TRUNCATE {
            match spec_decode_stream_meta(p, 1) {
                Option::None => None,
                Option::Some((m, end)) => if end == p.len() {
                    Some(VersionEditModel::StreamTruncate { meta: m })
                } else {
                    None
                },
            }
        } else if p.len() != 9 {
            None
        } else {
            let v = spec_le64_val(p.subrange(1, 9)) as u64;
            if tag == EDIT_TAG_STREAM_ADD {
                Some(VersionEditModel::StreamAdd { stream_id: v })
            } else if tag == EDIT_TAG_FILE_ADD {
                Some(VersionEditModel::FileAdd { file_number: v })
            } else if tag == EDIT_TAG_FILE_DELETE {
                Some(VersionEditModel::FileDelete { file_number: v })
            } else if tag == EDIT_TAG_NEXT_FILE_NUMBER {
                Some(VersionEditModel::NextFileNumber { n: v })
            } else {
                None
            }
        }
    }
}

/// Decoding an edit frame at offset `i`.
pub open spec fn spec_decode_edit(s: Seq<u8>, i: int) -> Option<(VersionEditModel, int)> {
    match spec_decode_frame(s, i) {
        Option::None => None,
        Option::Some((payload, next)) => match spec_decode_edit_payload(payload) {
            Option::None => None,
            Option::Some(e) => Some((e, next)),
        },
    }
}

/// An encoded `u64` list decodes back to itself.
proof fn lemma_decode_u64s_of_encoded(s: Seq<u8>, i: int, fs: Seq<u64>)
    requires
        encoded_at(s, i, spec_encode_u64s(fs)),
    ensures
        spec_decode_u64s(s, i, fs.len()) == Some((fs, i + spec_encode_u64s(fs).len())),
    decreases fs.len(),
{
    reveal_with_fuel(spec_decode_u64s, 2);
    reveal_with_fuel(spec_encode_u64s, 2);
    if fs.len() == 0 {
        assert(fs =~= Seq::<u64>::empty());
    } else {
        let head = spec_le64(fs[0]);
        let tail = spec_encode_u64s(fs.drop_first());
        lemma_encoded_at_split(s, i, head, tail);
        assert(s.subrange(i, i + 8) =~= head);
        lemma_le64_roundtrip(fs[0]);
        lemma_decode_u64s_of_encoded(s, i + head.len(), fs.drop_first());
        assert(seq![fs[0]] + fs.drop_first() =~= fs);
    }
}

/// An encoded replica decodes back to itself.
proof fn lemma_decode_replica_of_encoded(s: Seq<u8>, i: int, r: ReplicaMetaModel)
    requires
        r.set_files.len() <= u32::MAX,
        encoded_at(s, i, spec_encode_replica(r)),
    ensures
        spec_decode_replica(s, i) == Some((r, i + spec_encode_replica(r).len())),
{
    let f0 = spec_le32(r.epoch);
    let f1 = match r.promised_epoch {
        Option::Some(p) => seq![1u8] + spec_le32(p),
        Option::None => seq![0u8] + spec_le32(0),
    };
    let f2 = spec_le32(r.set_files.len() as u32);
    let f3 = spec_encode_u64s(r.set_files);
    lemma_encoded_at_split(s, i, f0 + f1 + f2, f3);
    lemma_encoded_at_split(s, i, f0 + f1, f2);
    lemma_encoded_at_split(s, i, f0, f1);
    assert(s.subrange(i, i + 4) =~= f0);
    lemma_le32_roundtrip(r.epoch);
    assert(s[i + 4] == f1[0]) by {
        assert(s.subrange(i + 4, i + 4 + f1.len())[0] == s[i + 4]);
    }
    assert(s.subrange(i + 5, i + 9) =~= f1.subrange(1, 5)) by {
        assert forall|k: int| 0 <= k < 4 implies s.subrange(i + 5, i + 9)[k] == f1.subrange(
            1,
            5,
        )[k] by {
            assert(s.subrange(i + 4, i + 4 + f1.len())[k + 1] == s[i + 5 + k]);
        }
    }
    match r.promised_epoch {
        Option::Some(p) => {
            assert(f1.subrange(1, 5) =~= spec_le32(p));
            lemma_le32_roundtrip(p);
        },
        Option::None => {
            assert(f1.subrange(1, 5) =~= spec_le32(0));
            lemma_le32_roundtrip(0);
        },
    }
    assert(s.subrange(i + 9, i + 13) =~= f2);
    lemma_le32_roundtrip(r.set_files.len() as u32);
    lemma_decode_u64s_of_encoded(s, i + 13, r.set_files);
}

/// An encoded replica list decodes back to itself.
proof fn lemma_decode_replicas_of_encoded(s: Seq<u8>, i: int, rs: Seq<ReplicaMetaModel>)
    requires
        forall|k: int| 0 <= k < rs.len() ==> (#[trigger] rs[k]).set_files.len() <= u32::MAX,
        encoded_at(s, i, spec_encode_replicas(rs)),
    ensures
        spec_decode_replicas(s, i, rs.len()) == Some((rs, i + spec_encode_replicas(rs).len())),
    decreases rs.len(),
{
    reveal_with_fuel(spec_decode_replicas, 2);
    reveal_with_fuel(spec_encode_replicas, 2);
    if rs.len() == 0 {
        assert(rs =~= Seq::<ReplicaMetaModel>::empty());
    } else {
        let head = spec_encode_replica(rs[0]);
        let tail = spec_encode_replicas(rs.drop_first());
        lemma_encoded_at_split(s, i, head, tail);
        lemma_decode_replica_of_encoded(s, i, rs[0]);
        lemma_decode_replicas_of_encoded(s, i + head.len(), rs.drop_first());
        assert(seq![rs[0]] + rs.drop_first() =~= rs);
    }
}

/// An encoded stream meta decodes back to itself.
proof fn lemma_decode_stream_meta_of_encoded(s: Seq<u8>, i: int, m: StreamMetaModel)
    requires
        m.replicas.len() <= u32::MAX,
        forall|k: int| 0 <= k < m.replicas.len() ==> (#[trigger] m.replicas[k]).set_files.len()
            <= u32::MAX,
        encoded_at(s, i, spec_encode_stream_meta(m)),
    ensures
        spec_decode_stream_meta(s, i) == Some((m, i + spec_encode_stream_meta(m).len())),
{
    let f0 = spec_le64(m.stream_id);
    let f1 = spec_le64(m.acked_seq);
    let f2 = spec_le64(m.initial_seq);
    let f3 = spec_le32(m.replicas.len() as u32);
    let f4 = spec_encode_replicas(m.replicas);
    lemma_encoded_at_split(s, i, f0 + f1 + f2 + f3, f4);
    lemma_encoded_at_split(s, i, f0 + f1 + f2, f3);
    lemma_encoded_at_split(s, i, f0 + f1, f2);
    lemma_encoded_at_split(s, i, f0, f1);
    assert(s.subrange(i, i + 8) =~= f0);
    assert(s.subrange(i + 8, i + 16) =~= f1);
    assert(s.subrange(i + 16, i + 24) =~= f2);
    assert(s.subrange(i + 24, i + 28) =~= f3);
    lemma_le64_roundtrip(m.stream_id);
    lemma_le64_roundtrip(m.acked_seq);
    lemma_le64_roundtrip(m.initial_seq);
    lemma_le32_roundtrip(m.replicas.len() as u32);
    lemma_decode_replicas_of_encoded(s, i + 28, m.replicas);
}

/// An encoded edit payload decodes back to itself.
proof fn lemma_decode_edit_payload_of_encoded(e: VersionEditModel)
    requires
        wf_edit(e),
    ensures
        spec_decode_edit_payload(spec_encode_edit_payload(e)) == Some(e),
{
    let p = spec_encode_edit_payload(e);
    match e {
        VersionEditModel::StreamTruncate { meta } => {
            assert(p[0] == EDIT_TAG_STREAM_TRUNCATE) by {
                assert(p == seq![EDIT_TAG_STREAM_TRUNCATE] + spec_encode_stream_meta(meta));
            }
            assert(encoded_at(p, 1, spec_encode_stream_meta(meta))) by {
                assert(p.subrange(1, 1 + spec_encode_stream_meta(meta).len() as int)
                    =~= spec_encode_stream_meta(meta));
            }
            lemma_decode_stream_meta_of_encoded(p, 1, meta);
        },
        VersionEditModel::StreamAdd { stream_id } => {
            assert(p.subrange(1, 9) =~= spec_le64(stream_id));
            lemma_le64_roundtrip(stream_id);
            assert(p[0] == EDIT_TAG_STREAM_ADD);
        },
        VersionEditModel::FileAdd { file_number } => {
            assert(p.subrange(1, 9) =~= spec_le64(file_number));
            lemma_le64_roundtrip(file_number);
            assert(p[0] == EDIT_TAG_FILE_ADD);
        },
        VersionEditModel::FileDelete { file_number } => {
            assert(p.subrange(1, 9) =~= spec_le64(file_number));
            lemma_le64_roundtrip(file_number);
            assert(p[0] == EDIT_TAG_FILE_DELETE);
        },
        VersionEditModel::NextFileNumber { n } => {
            assert(p.subrange(1, 9) =~= spec_le64(n));
            lemma_le64_roundtrip(n);
            assert(p[0] == EDIT_TAG_NEXT_FILE_NUMBER);
        },
    }
}

/// The round trip of manifest edits: decoding an encoded edit yields it back, wherever
/// the frame sits in a larger buffer.
#[verifier::rlimit(100)]
pub proof fn lemma_edit_roundtrip(s: Seq<u8>, i: int, e: VersionEditModel)
    requires
        wf_edit(e),
        encoded_at(s, i, spec_encode_edit(e)),
    ensures
        spec_decode_edit(s, i) == Some((e, i + spec_encode_edit(e).len())),
{
    let payload = spec_encode_edit_payload(e);
    let n = payload.len() as int;
    assert(payload.len() <= u32::MAX) by {
        match e {
            VersionEditModel::StreamTruncate { meta } => {},
            _ => {
                assert(payload.len() == 9);
            },
        }
    }
    assert(spec_decode_frame(s, i) == Some((payload, i + 8 + n))) by {
        lemma_decode_frame_of_encoded(s, i, payload);
    }
    assert(spec_decode_edit_payload(payload) == Some(e)) by {
        lemma_decode_edit_payload_of_encoded(e);
    }
    assert(spec_encode_edit(e).len() == 8 + n);
    assert(spec_decode_edit(s, i) == Some((e, i + 8 + n)));
}

/// Encoding one more value extends the encoded `u64` list.
proof fn lemma_encode_u64s_take(fs: Seq<u64>, i: int)
    requires
        0 <= i < fs.len(),
    ensures
        spec_encode_u64s(fs.take(i + 1)) == spec_encode_u64s(fs.take(i)) + spec_le64(fs[i]),
    decreases i,
{
    reveal_with_fuel(spec_encode_u64s, 2);
    if i == 0 {
        assert(fs.take(0) =~= Seq::<u64>::empty());
        assert(fs.take(1).drop_first() =~= Seq::<u64>::empty());
        assert(fs.take(1)[0] == fs[0]);
        assert(spec_le64(fs[0]) + Seq::<u8>::empty() =~= spec_le64(fs[0]));
        assert(Seq::<u8>::empty() + spec_le64(fs[0]) =~= spec_le64(fs[0]));
    } else {
        let d = fs.drop_first();
        lemma_encode_u64s_take(d, i - 1);
        assert(fs.take(i + 1).drop_first() =~= d.take(i));
        assert(fs.take(i).drop_first() =~= d.take(i - 1));
        assert(fs.take(i + 1)[0] == fs[0]);
        assert(fs.take(i)[0] == fs[0]);
        assert(d[i - 1] == fs[i]);
        assert(spec_le64(fs[0]) + (spec_encode_u64s(d.take(i - 1)) + spec_le64(fs[i])) =~= (
        spec_le64(fs[0]) + spec_encode_u64s(d.take(i - 1))) + spec_le64(fs[i]));
    }
}

/// Encoding one more replica extends the encoded replica list.
proof fn lemma_encode_replicas_take(rs: Seq<ReplicaMetaModel>, i: int)
    requires
        0 <= i < rs.len(),
    ensures
        spec_encode_replicas(rs.take(i + 1)) == spec_encode_replicas(rs.take(i))
            + spec_encode_replica(rs[i]),
    decreases i,
{
    reveal_with_fuel(spec_encode_replicas, 2);
    if i == 0 {
        assert(rs.take(0) =~= Seq::<ReplicaMetaModel>::empty());
        assert(rs.take(1).drop_first() =~= Seq::<ReplicaMetaModel>::empty());
        assert(rs.take(1)[0] == rs[0]);
        assert(spec_encode_replica(rs[0]) + Seq::<u8>::empty() =~= spec_encode_replica(rs[0]));
        assert(Seq::<u8>::empty() + spec_encode_replica(rs[0]) =~= spec_encode_replica(rs[0]));
    } else {
        let d = rs.drop_first();
        lemma_encode_replicas_take(d, i - 1);
        assert(rs.take(i + 1).drop_first() =~= d.take(i));
        assert(rs.take(i).drop_first() =~= d.take(i - 1));
        assert(rs.take(i + 1)[0] == rs[0]);
        assert(rs.take(i)[0] == rs[0]);
        assert(d[i - 1] == rs[i]);
        assert(spec_encode_replica(rs[0]) + (spec_encode_replicas(d.take(i - 1))
            + spec_encode_replica(rs[i])) =~= (spec_encode_replica(rs[0]) + spec_encode_replicas(
            d.take(i - 1),
        )) + spec_encode_replica(rs[i]));
    }
}

/// Append the encoding of one replica to `pw`.
#[verifier::loop_isolation(false)]
fn encode_replica(r: &ReplicaMeta, pw: &mut BufWriter) -> (res: Result<(), Error>)
    ensures
        match res {
            Ok(()) => r@.set_files.len() <= u32::MAX && final(pw)@ == old(pw)@
                + spec_encode_replica(r@),
            Err(e) => e == Error::InvalidArgument && r@.set_files.len() > u32::MAX
                && final(pw)@ == old(pw)@,
        },
{
    if r.set_files.len() > u32::MAX as usize {
        return Err(Error::InvalidArgument);
    }
    pw.put_u32(r.epoch);
    match r.promised_epoch {
        Some(p) => {
            pw.put_u8(1);
            pw.put_u32(p);
        },
        None => {
            pw.put_u8(0);
            pw.put_u32(0);
        },
    }
    pw.put_u32(r.set_files.len() as u32);
    let ghost head = pw@;
    let mut i: usize = 0;
    proof {
        reveal_with_fuel(spec_encode_u64s, 1);
        assert(r@.set_files.take(0) =~= Seq::<u64>::empty());
        assert(pw@ =~= head + spec_encode_u64s(r@.set_files.take(0)));
    }
    while i < r.set_files.len()
        invariant
            i <= r.set_files@.len(),
            pw@ == head + spec_encode_u64s(r@.set_files.take(i as int)),
        decreases r.set_files@.len() - i,
    {
        let ghost pre = pw@;
        pw.put_u64(r.set_files[i]);
        proof {
            lemma_encode_u64s_take(r@.set_files, i as int);
            assert(pw@ =~= head + spec_encode_u64s(r@.set_files.take(i as int + 1)));
        }
        i = i + 1;
    }
    proof {
        assert(r@.set_files.take(r.set_files@.len() as int) =~= r@.set_files);
        assert(pw@ =~= old(pw)@ + spec_encode_replica(r@));
    }
    Ok(())
}

/// Append the encoding of a stream's metadata to `pw`.
#[verifier::loop_isolation(false)]
fn encode_stream_meta(m: &StreamMeta, pw: &mut BufWriter) -> (res: Result<(), Error>)
    ensures
        match res {
            Ok(()) => m@.replicas.len() <= u32::MAX && (forall|k: int|
                0 <= k < m@.replicas.len() ==> (#[trigger] m@.replicas[k]).set_files.len()
                    <= u32::MAX) && final(pw)@ == old(pw)@ + spec_encode_stream_meta(m@),
            Err(e) => e == Error::InvalidArgument && final(pw)@ == old(pw)@ && !(
            m@.replicas.len() <= u32::MAX && forall|k: int|
                0 <= k < m@.replicas.len() ==> (#[trigger] m@.replicas[k]).set_files.len()
                    <= u32::MAX),
        },
{
    if m.replicas.len() > u32::MAX as usize {
        return Err(Error::InvalidArgument);
    }
    let mut body = BufWriter::new();
    body.put_u64(m.stream_id);
    body.put_u64(m.acked_seq);
    body.put_u64(m.initial_seq);
    body.put_u32(m.replicas.len() as u32);
    let ghost head = body@;
    let mut i: usize = 0;
    proof {
        reveal_with_fuel(spec_encode_replicas, 1);
        assert(m@.replicas.take(0) =~= Seq::<ReplicaMetaModel>::empty());
        assert(body@ =~= head + spec_encode_replicas(m@.replicas.take(0)));
    }
    while i < m.replicas.len()
        invariant
            i <= m.replicas@.len(),
            body@ == head + spec_encode_replicas(m@.replicas.take(i as int)),
            forall|k: int| 0 <= k < i ==> (#[trigger] m@.replicas[k]).set_files.len() <= u32::MAX,
        decreases m.replicas@.len() - i,
    {
        match encode_replica(&m.replicas[i], &mut body) {
            Ok(()) => {},
            Err(e) => {
                proof {
                    assert(m@.replicas[i as int].set_files.len() > u32::MAX);
                }
                return Err(Error::InvalidArgument);
            },
        }
        proof {
            assert(m@.replicas[i as int] == m.replicas@[i as int]@);
            lemma_encode_replicas_take(m@.replicas, i as int);
            assert(body@ =~= head + spec_encode_replicas(m@.replicas.take(i as int + 1)));
        }
        i = i + 1;
    }
    proof {
        assert(m@.replicas.take(m.replicas@.len() as int) =~= m@.replicas);
        assert(body@ =~= spec_encode_stream_meta(m@));
    }
    let bytes = body.into_bytes();
    pw.put_slice(bytes.as_slice());
    Ok(())
}

/// Build the payload of `e`.
#[verifier::rlimit(100)]
#[verifier::spinoff_prover]
fn encode_edit_payload(e: &VersionEdit) -> (res: Result<Vec<u8>, Error>)
    ensures
        match res {
            Ok(v) => wf_edit(e@) && v@ == spec_encode_edit_payload(e@),
            Err(err) => !wf_edit(e@) && err == Error::InvalidArgument,
        },
{
    let mut pw = BufWriter::new();
    match e {
        VersionEdit::StreamAdd { stream_id } => {
            pw.put_u8(EDIT_TAG_STREAM_ADD);
            pw.put_u64(*stream_id);
            proof {
                assert(pw@ =~= spec_encode_edit_payload(e@));
            }
        },
        VersionEdit::StreamTruncate { meta } => {
            pw.put_u8(EDIT_TAG_STREAM_TRUNCATE);
            match encode_stream_meta(meta, &mut pw) {
                Ok(()) => {},
                Err(err) => {
                    return Err(Error::InvalidArgument);
                },
            }
            if pw.len() > u32::MAX as usize {
                return Err(Error::InvalidArgument);
            }
            proof {
                assert(pw@ =~= spec_encode_edit_payload(e@));
            }
        },
        VersionEdit::FileAdd { file_number } => {
            pw.put_u8(EDIT_TAG_FILE_ADD);
            pw.put_u64(*file_number);
            proof {
                assert(pw@ =~= spec_encode_edit_payload(e@));
            }
        },
        VersionEdit::FileDelete { file_number } => {
            pw.put_u8(EDIT_TAG_FILE_DELETE);
            pw.put_u64(*file_number);
            proof {
                assert(pw@ =~= spec_encode_edit_payload(e@));
            }
        },
        VersionEdit::NextFileNumber { n } => {
            pw.put_u8(EDIT_TAG_NEXT_FILE_NUMBER);
            pw.put_u64(*n);
            proof {
                assert(pw@ =~= spec_encode_edit_payload(e@));
            }
        },
    }
    Ok(pw.into_bytes())
}

/// Append the frame of `e` to `out`.
///
/// Succeeds exactly on well-formed edits; on failure `out` is untouched.
pub fn encode_edit(e: &VersionEdit, out: &mut BufWriter) -> (res: Result<(), Error>)
    ensures
        match res {
            Ok(()) => wf_edit(e@) && final(out)@ == old(out)@ + spec_encode_edit(e@),
            Err(err) => !wf_edit(e@) && err == Error::InvalidArgument
                && final(out)@ == old(out)@,
        },
{
    let payload: Vec<u8> = match encode_edit_payload(e) {
        Ok(v) => v,
        Err(err) => {
            return Err(Error::InvalidArgument);
        },
    };
    if payload.len() > u32::MAX as usize {
        return Err(Error::InvalidArgument);
    }
    let crc = crc32c(payload.as_slice());
    out.put_u32(payload.len() as u32);
    out.put_u32(crc);
    out.put_slice(payload.as_slice());
    proof {
        assert(final(out)@ =~= old(out)@ + spec_encode_edit(e@));
    }
    Ok(())
}

/// Read `n` values of a `u64` list.
#[verifier::loop_isolation(false)]
fn read_u64_run(rd: &mut BufReader<'_>, n: u32) -> (res: Result<Vec<u64>, Error>)
    requires
        old(rd).wf(),
    ensures
        final(rd).wf(),
        final(rd).bytes() == old(rd).bytes(),
        match spec_decode_u64s(old(rd).bytes(), old(rd).position(), n as nat) {
            Option::Some((vs, k)) => match res {
                Ok(v) => v@ == vs && final(rd).position() == k,
                Err(_) => false,
            },
            Option::None => res == Err::<Vec<u64>, Error>(Error::Corruption),
        },
{
    let ghost s = rd.bytes();
    let mut out: Vec<u64> = Vec::new();
    let mut k: u32 = 0;
    proof {
        reveal_with_fuel(spec_decode_u64s, 1);
        assert(out@ + Seq::<u64>::empty() =~= out@);
    }
    while k < n
        invariant
            k <= n,
            rd.wf(),
            rd.bytes() == s,
            out@.len() == k,
            match spec_decode_u64s(s, rd.position(), (n - k) as nat) {
                Option::Some((vs, end)) => spec_decode_u64s(
                    s,
                    old(rd).position(),
                    n as nat,
                ) == Some((out@ + vs, end)),
                Option::None => spec_decode_u64s(s, old(rd).position(), n as nat) is None,
            },
        decreases n - k,
    {
        proof {
            rd.lemma_wf_bounds();
            reveal_with_fuel(spec_decode_u64s, 2);
        }
        if rd.remaining() < 8 {
            return Err(Error::Corruption);
        }
        let v: u64 = rd.get_u64();
        out.push(v);
        k = k + 1;
        proof {
            if let Some((vs, end)) = spec_decode_u64s(s, rd.position(), (n - k) as nat) {
                assert((out@.drop_last() + seq![out@.last()]) + vs =~= out@.drop_last() + (seq![
                    out@.last(),
                ] + vs));
                assert(out@.drop_last() + seq![out@.last()] =~= out@);
            }
        }
    }
    proof {
        reveal_with_fuel(spec_decode_u64s, 1);
        assert(out@ + Seq::<u64>::empty() =~= out@);
    }
    Ok(out)
}

/// Read one replica.
fn read_replica(rd: &mut BufReader<'_>) -> (res: Result<ReplicaMeta, Error>)
    requires
        old(rd).wf(),
    ensures
        final(rd).wf(),
        final(rd).bytes() == old(rd).bytes(),
        match spec_decode_replica(old(rd).bytes(), old(rd).position()) {
            Option::Some((r, k)) => match res {
                Ok(rm) => rm@ == r && final(rd).position() == k,
                Err(_) => false,
            },
            Option::None => res == Err::<ReplicaMeta, Error>(Error::Corruption),
        },
{
    proof {
        rd.lemma_wf_bounds();
    }
    if rd.remaining() < 13 {
        return Err(Error::Corruption);
    }
    let epoch: u32 = rd.get_u32();
    let flag: u8 = rd.get_u8();
    let promised_raw: u32 = rd.get_u32();
    let nf: u32 = rd.get_u32();
    if flag != 0 && flag != 1 {
        return Err(Error::Corruption);
    }
    let set_files: Vec<u64> = match read_u64_run(rd, nf) {
        Ok(v) => v,
        Err(_) => {
            return Err(Error::Corruption);
        },
    };
    let promised_epoch: Option<u32> = if flag == 1 {
        Some(promised_raw)
    } else {
        None
    };
    Ok(ReplicaMeta { epoch, promised_epoch, set_files })
}

/// Read `n` replicas.
#[verifier::loop_isolation(false)]
fn read_replicas(rd: &mut BufReader<'_>, n: u32) -> (res: Result<Vec<ReplicaMeta>, Error>)
    requires
        old(rd).wf(),
    ensures
        final(rd).wf(),
        final(rd).bytes() == old(rd).bytes(),
        match spec_decode_replicas(old(rd).bytes(), old(rd).position(), n as nat) {
            Option::Some((rs, k)) => match res {
                Ok(v) => v@.map_values(|r: ReplicaMeta| r@) == rs && final(rd).position() == k,
                Err(_) => false,
            },
            Option::None => res == Err::<Vec<ReplicaMeta>, Error>(Error::Corruption),
        },
{
    let ghost s = rd.bytes();
    let mut out: Vec<ReplicaMeta> = Vec::new();
    let mut k: u32 = 0;
    proof {
        reveal_with_fuel(spec_decode_replicas, 1);
        assert(out@.map_values(|r: ReplicaMeta| r@) + Seq::<ReplicaMetaModel>::empty()
            =~= out@.map_values(|r: ReplicaMeta| r@));
    }
    while k < n
        invariant
            k <= n,
            rd.wf(),
            rd.bytes() == s,
            out@.len() == k,
            match spec_decode_replicas(s, rd.position(), (n - k) as nat) {
                Option::Some((rs, end)) => spec_decode_replicas(
                    s,
                    old(rd).position(),
                    n as nat,
                ) == Some((out@.map_values(|r: ReplicaMeta| r@) + rs, end)),
                Option::None => spec_decode_replicas(s, old(rd).position(), n as nat) is None,
            },
        decreases n - k,
    {
        proof {
            reveal_with_fuel(spec_decode_replicas, 2);
        }
        let one: ReplicaMeta = match read_replica(rd) {
            Ok(r) => r,
            Err(_) => {
                return Err(Error::Corruption);
            },
        };
        out.push(one);
        k = k + 1;
        proof {
            let views = out@.map_values(|r: ReplicaMeta| r@);
            assert(views =~= out@.drop_last().map_values(|r: ReplicaMeta| r@) + seq![
                out@.last()@,
            ]);
            if let Some((rs, end)) = spec_decode_replicas(s, rd.position(), (n - k) as nat) {
                assert((out@.drop_last().map_values(|r: ReplicaMeta| r@) + seq![out@.last()@])
                    + rs =~= out@.drop_last().map_values(|r: ReplicaMeta| r@) + (seq![
                    out@.last()@,
                ] + rs));
            }
        }
    }
    proof {
        reveal_with_fuel(spec_decode_replicas, 1);
        assert(out@.map_values(|r: ReplicaMeta| r@) + Seq::<ReplicaMetaModel>::empty()
            =~= out@.map_values(|r: ReplicaMeta| r@));
    }
    Ok(out)
}

/// Decode the edit frame at `offset`.
///
/// Returns the edit and the offset just past its frame, or `Corruption`
/// exactly when the spec-level decoder rejects the bytes.
pub fn decode_edit(bytes: &[u8], offset: usize) -> (res: Result<(VersionEdit, usize), Error>)
    requires
        offset <= bytes@.len(),
    ensures
        match spec_decode_edit(bytes@, offset as int) {
            Option::Some((em, next)) => match res {
                Ok((e, nx)) => e@ == em && nx == next,
                Err(_) => false,
            },
            Option::None => res == Err::<(VersionEdit, usize), Error>(Error::Corruption),
        },
{
    let blen: usize = bytes.len();
    let mut rd = BufReader::new(bytes, offset);
    if rd.remaining() < 8 {
        return Err(Error::Corruption);
    }
    let plen: u32 = rd.get_u32();
    let crc_stored: u32 = rd.get_u32();
    if (plen as usize) > rd.remaining() {
        return Err(Error::Corruption);
    }
    let payload: Vec<u8> = rd.get_slice(plen as usize);
    if crc32c(payload.as_slice()) != crc_stored {
        return Err(Error::Corruption);
    }
    let ghost p = payload@;
    assert(spec_decode_frame(bytes@, offset as int) == Some((p, offset + 8 + plen as int)));
    let next: usize = offset + 8 + plen as usize;
    if payload.len() < 1 {
        return Err(Error::Corruption);
    }
    let mut pr = BufReader::new(payload.as_slice(), 0);
    let tag: u8 = pr.get_u8();
    if tag == EDIT_TAG_STREAM_TRUNCATE {
        if payload.len() < 29 {
            proof {
                assert(spec_decode_stream_meta(p, 1) is None);
            }
            return Err(Error::Corruption);
        }
        let stream_id: u64 = pr.get_u64();
        let acked_seq: u64 = pr.get_u64();
        let initial_seq: u64 = pr.get_u64();
        let n: u32 = pr.get_u32();
        let replicas: Vec<ReplicaMeta> = match read_replicas(&mut pr, n) {
            Ok(v) => v,
            Err(_) => {
                return Err(Error::Corruption);
            },
        };
        if pr.remaining() != 0 {
            return Err(Error::Corruption);
        }
        let meta = StreamMeta { stream_id, acked_seq, initial_seq, replicas };
        proof {
            assert(spec_decode_stream_meta(p, 1) == Some((meta@, p.len() as int)));
            assert(spec_decode_edit_payload(p) == Some(
                VersionEditModel::StreamTruncate { meta: meta@ },
            ));
        }
        return Ok((VersionEdit::StreamTruncate { meta }, next));
    }
    if payload.len() != 9 {
        return Err(Error::Corruption);
    }
    let v: u64 = pr.get_u64();
    if tag == EDIT_TAG_STREAM_ADD {
        Ok((VersionEdit::StreamAdd { stream_id: v }, next))
    } else if tag == EDIT_TAG_FILE_ADD {
        Ok((VersionEdit::FileAdd { file_number: v }, next))
    } else if tag == EDIT_TAG_FILE_DELETE {
        Ok((VersionEdit::FileDelete { file_number: v }, next))
    } else if tag == EDIT_TAG_NEXT_FILE_NUMBER {
        Ok((VersionEdit::NextFileNumber { n: v }, next))
    } else {
        Err(Error::Corruption)
    }
}

/// The mathematical shape of a version: the live file set, per-stream
/// metadata, and the next file number.
pub struct VersionModel {
    pub files: Set<u64>,
    pub streams: Map<u64, StreamMetaModel>,
    pub next_file_number: u64,
}

/// The metadata a freshly added stream starts with.
pub open spec fn spec_empty_meta(stream_id: u64) -> StreamMetaModel {
    StreamMetaModel { stream_id, acked_seq: 0, initial_seq: 0, replicas: Seq::empty() }
}

/// The one transition of a version: applying an edit.
pub open spec fn spec_apply_edit(v: VersionModel, e: VersionEditModel) -> VersionModel {
    match e {
        VersionEditModel::StreamAdd { stream_id } => VersionModel {
            streams: v.streams.insert(stream_id, spec_empty_meta(stream_id)),
            ..v
        },
        VersionEditModel::StreamTruncate { meta } => VersionModel {
            streams: v.streams.insert(meta.stream_id, meta),
            ..v
        },
        VersionEditModel::FileAdd { file_number } => VersionModel {
            files: v.files.insert(file_number),
            ..v
        },
        VersionEditModel::FileDelete { file_number } => VersionModel {
            files: v.files.remove(file_number),
            ..v
        },
        VersionEditModel::NextFileNumber { n } => VersionModel { next_file_number: n, ..v },
    }
}

/// The version reached by replaying an edit sequence.
pub open spec fn spec_replay_edits(v: VersionModel, es: Seq<VersionEditModel>) -> VersionModel
    decreases es.len(),
{
    if es.len() == 0 {
        v
    } else {
        spec_replay_edits(spec_apply_edit(v, es[0]), es.drop_first())
    }
}

/// Whether an edit touches the membership of file `f`.
pub open spec fn edit_touches_file(e: VersionEditModel, f: u64) -> bool {
    match e {
        VersionEditModel::FileAdd { file_number } => file_number == f,
        VersionEditModel::FileDelete { file_number } => file_number == f,
        _ => false,
    }
}

/// Whether an edit touches the metadata of stream `id`.
pub open spec fn edit_touches_stream(e: VersionEditModel, id: u64) -> bool {
    match e {
        VersionEditModel::StreamAdd { stream_id } => stream_id == id,
        VersionEditModel::StreamTruncate { meta } => meta.stream_id == id,
        _ => false,
    }
}

/// Whether an edit sets the next file number.
pub open spec fn edit_sets_nfn(e: VersionEditModel) -> bool {
    e is NextFileNumber
}

/// No edit of the list touches file `f`.
pub open spec fn file_untouched(es: Seq<VersionEditModel>, f: u64) -> bool {
    forall|k: int| 0 <= k < es.len() ==> !edit_touches_file(#[trigger] es[k], f)
}

/// No edit of the list touches stream `id`.
pub open spec fn stream_untouched(es: Seq<VersionEditModel>, id: u64) -> bool {
    forall|k: int| 0 <= k < es.len() ==> !edit_touches_stream(#[trigger] es[k], id)
}

/// No edit of the list sets the next file number.
pub open spec fn nfn_untouched(es: Seq<VersionEditModel>) -> bool {
    forall|k: int| 0 <= k < es.len() ==> !edit_sets_nfn(#[trigger] es[k])
}

/// Two versions that agree on every cell the edit list leaves untouched end
/// up identical after the replay: each touched cell is overwritten by its
/// last-writing edit.
proof fn lemma_replay_agree(u: VersionModel, v: VersionModel, es: Seq<VersionEditModel>)
    requires
        forall|f: u64|
            file_untouched(es, f) ==> u.files.contains(f) == #[trigger] v.files.contains(f),
        forall|id: u64|
            stream_untouched(es, id) ==> (u.streams.contains_key(id)
                == #[trigger] v.streams.contains_key(id) && (v.streams.contains_key(id)
                ==> u.streams[id] == v.streams[id])),
        nfn_untouched(es) ==> u.next_file_number == v.next_file_number,
    ensures
        spec_replay_edits(u, es) == spec_replay_edits(v, es),
    decreases es.len(),
{
    if es.len() == 0 {
        assert(u.files =~= v.files) by {
            assert forall|f: u64| u.files.contains(f) == #[trigger] v.files.contains(f) by {
                assert(file_untouched(es, f));
            }
        }
        assert_maps_equal!(u.streams, v.streams, id => {
            assert(stream_untouched(es, id));
            assert(u.streams.contains_key(id) == v.streams.contains_key(id));
            if v.streams.contains_key(id) {
                assert(u.streams[id] == v.streams[id]);
            }
        });
        assert(nfn_untouched(es));
    } else {
        let e0 = es[0];
        let u1 = spec_apply_edit(u, e0);
        let v1 = spec_apply_edit(v, e0);
        let rest = es.drop_first();
        assert forall|f: u64|
            file_untouched(rest, f) implies u1.files.contains(f) == #[trigger] v1.files.contains(
            f,
        ) by {
            if edit_touches_file(e0, f) {
            } else {
                assert(file_untouched(es, f)) by {
                    assert forall|k: int|
                        0 <= k < es.len() implies !edit_touches_file(#[trigger] es[k], f) by {
                        if k > 0 {
                            assert(rest[k - 1] == es[k]);
                        }
                    }
                }
            }
        }
        assert forall|id: u64|
            stream_untouched(rest, id) implies (u1.streams.contains_key(id)
            == #[trigger] v1.streams.contains_key(id) && (v1.streams.contains_key(id)
            ==> u1.streams[id] == v1.streams[id])) by {
            if edit_touches_stream(e0, id) {
            } else {
                assert(stream_untouched(es, id)) by {
                    assert forall|k: int|
                        0 <= k < es.len() implies !edit_touches_stream(#[trigger] es[k], id) by {
                        if k > 0 {
                            assert(rest[k - 1] == es[k]);
                        }
                    }
                }
            }
        }
        if nfn_untouched(rest) {
            if !edit_sets_nfn(e0) {
                assert(nfn_untouched(es)) by {
                    assert forall|k: int|
                        0 <= k < es.len() implies !edit_sets_nfn(#[trigger] es[k]) by {
                        if k > 0 {
                            assert(rest[k - 1] == es[k]);
                        }
                    }
                }
            }
        }
        lemma_replay_agree(u1, v1, rest);
    }
}

/// Replaying leaves untouched cells exactly as they were.
proof fn lemma_replay_untouched(v: VersionModel, es: Seq<VersionEditModel>)
    ensures
        forall|f: u64|
            file_untouched(es, f) ==> spec_replay_edits(v, es).files.contains(f)
                == #[trigger] v.files.contains(f),
        forall|id: u64|
            stream_untouched(es, id) ==> (spec_replay_edits(v, es).streams.contains_key(id)
                == #[trigger] v.streams.contains_key(id) && (v.streams.contains_key(id)
                ==> spec_replay_edits(v, es).streams[id] == v.streams[id])),
        nfn_untouched(es) ==> spec_replay_edits(v, es).next_file_number == v.next_file_number,
    decreases es.len(),
{
    if es.len() > 0 {
        let e0 = es[0];
        let v1 = spec_apply_edit(v, e0);
        let rest = es.drop_first();
        lemma_replay_untouched(v1, rest);
        assert forall|f: u64|
            file_untouched(es, f) implies spec_replay_edits(v, es).files.contains(f)
            == #[trigger] v.files.contains(f) by {
            assert(!edit_touches_file(es[0], f)) by {
                assert(0 < es.len() && !edit_touches_file(es[0], f) || !(0 < es.len()));
            }
            assert(file_untouched(rest, f)) by {
                assert forall|k: int|
                    0 <= k < rest.len() implies !edit_touches_file(#[trigger] rest[k], f) by {
                    assert(rest[k] == es[k + 1]);
                }
            }
            assert(v1.files.contains(f) == v.files.contains(f));
            assert(spec_replay_edits(v1, rest).files.contains(f) == v1.files.contains(f));
            assert(spec_replay_edits(v, es) == spec_replay_edits(v1, rest));
        }
        assert forall|id: u64|
            stream_untouched(es, id) implies (spec_replay_edits(v, es).streams.contains_key(id)
            == #[trigger] v.streams.contains_key(id) && (v.streams.contains_key(id)
            ==> spec_replay_edits(v, es).streams[id] == v.streams[id])) by {
            assert(!edit_touches_stream(es[0], id)) by {
                assert(0 < es.len() && !edit_touches_stream(es[0], id) || !(0 < es.len()));
            }
            assert(stream_untouched(rest, id)) by {
                assert forall|k: int|
                    0 <= k < rest.len() implies !edit_touches_stream(#[trigger] rest[k], id) by {
                    assert(rest[k] == es[k + 1]);
                }
            }
            assert(v1.streams.contains_key(id) == v.streams.contains_key(id));
            if v.streams.contains_key(id) {
                assert(v1.streams[id] == v.streams[id]);
            }
            assert(spec_replay_edits(v, es) == spec_replay_edits(v1, rest));
        }
        if nfn_untouched(es) {
            assert(!edit_sets_nfn(es[0]));
            assert(nfn_untouched(rest)) by {
                assert forall|k: int|
                    0 <= k < rest.len() implies !edit_sets_nfn(#[trigger] rest[k]) by {
                    assert(rest[k] == es[k + 1]);
                }
            }
        }
    }
}

/// Manifest replay is idempotent: replaying an edit list a second time, starting from
/// the version it produced, yields the identical version.
pub proof fn lemma_replay_idempotent(v: VersionModel, es: Seq<VersionEditModel>)
    ensures
        spec_replay_edits(spec_replay_edits(v, es), es) == spec_replay_edits(v, es),
{
    let w = spec_replay_edits(v, es);
    lemma_replay_untouched(v, es);
    lemma_replay_agree(w, v, es);
}

/// The file set carried by a list of file numbers.
pub open spec fn file_set(s: Seq<u64>) -> Set<u64>
    decreases s.len(),
{
    if s.len() == 0 {
        Set::empty()
    } else {
        file_set(s.drop_first()).insert(s[0])
    }
}

/// Membership in the file set is membership in the list.
proof fn lemma_file_set_contains(s: Seq<u64>, f: u64)
    ensures
        file_set(s).contains(f) <==> exists|i: int| 0 <= i < s.len() && #[trigger] s[i] == f,
    decreases s.len(),
{
    if s.len() > 0 {
        lemma_file_set_contains(s.drop_first(), f);
        if file_set(s).contains(f) {
            if s[0] == f {
                assert(s[0] == f);
            } else {
                let i = choose|i: int|
                    0 <= i < s.drop_first().len() && #[trigger] s.drop_first()[i] == f;
                assert(s[i + 1] == f);
            }
        }
        if exists|i: int| 0 <= i < s.len() && #[trigger] s[i] == f {
            let i = choose|i: int| 0 <= i < s.len() && #[trigger] s[i] == f;
            if i > 0 {
                assert(s.drop_first()[i - 1] == f);
            }
        }
    }
}

/// Pushing a fresh file inserts it into the set.
proof fn lemma_file_set_push(s: Seq<u64>, f: u64)
    ensures
        file_set(s.push(f)) =~= file_set(s).insert(f),
    decreases s.len(),
{
    if s.len() == 0 {
        assert(s.push(f)[0] == f);
        assert(s.push(f).drop_first() =~= s);
    } else {
        assert(s.push(f).drop_first() =~= s.drop_first().push(f));
        assert(s.push(f)[0] == s[0]);
        lemma_file_set_push(s.drop_first(), f);
    }
}

/// Removing slot `i` removes exactly its file from the set, when files are
/// unique.
proof fn lemma_file_set_remove(s: Seq<u64>, i: int)
    requires
        0 <= i < s.len(),
        forall|a: int, b: int| 0 <= a < b < s.len() ==> #[trigger] s[a] != #[trigger] s[b],
    ensures
        file_set(s.remove(i)) =~= file_set(s).remove(s[i]),
    decreases s.len(),
{
    if i == 0 {
        assert(s.remove(0) =~= s.drop_first());
        assert forall|f: u64| #[trigger]
            file_set(s.drop_first()).contains(f) implies f != s[0] by {
            lemma_file_set_contains(s.drop_first(), f);
            let k = choose|k: int|
                0 <= k < s.drop_first().len() && #[trigger] s.drop_first()[k] == f;
            assert(s[k + 1] == f);
        }
    } else {
        assert forall|a: int, b: int|
            0 <= a < b < s.drop_first().len() implies #[trigger] s.drop_first()[a]
            != #[trigger] s.drop_first()[b] by {
            assert(s.drop_first()[a] == s[a + 1]);
            assert(s.drop_first()[b] == s[b + 1]);
        }
        assert(s.drop_first()[i - 1] == s[i]);
        lemma_file_set_remove(s.drop_first(), i - 1);
        assert(s.remove(i).drop_first() =~= s.drop_first().remove(i - 1));
        assert(s.remove(i)[0] == s[0]);
        assert(s[0] != s[i]);
    }
}

/// The stream map carried by an association list of stream metadata.
pub open spec fn stream_map(s: Seq<(u64, StreamMeta)>) -> Map<u64, StreamMetaModel>
    decreases s.len(),
{
    if s.len() == 0 {
        Map::empty()
    } else {
        stream_map(s.drop_first()).insert(s[0].0, s[0].1@)
    }
}

/// Membership in the stream map is membership in the list.
proof fn lemma_stream_map_contains(s: Seq<(u64, StreamMeta)>, e: u64)
    ensures
        stream_map(s).contains_key(e) <==> exists|i: int|
            0 <= i < s.len() && #[trigger] s[i].0 == e,
    decreases s.len(),
{
    if s.len() > 0 {
        lemma_stream_map_contains(s.drop_first(), e);
        if stream_map(s).contains_key(e) {
            if s[0].0 == e {
                assert(s[0].0 == e);
            } else {
                let i = choose|i: int|
                    0 <= i < s.drop_first().len() && #[trigger] s.drop_first()[i].0 == e;
                assert(s[i + 1].0 == e);
            }
        }
        if exists|i: int| 0 <= i < s.len() && #[trigger] s[i].0 == e {
            let i = choose|i: int| 0 <= i < s.len() && #[trigger] s[i].0 == e;
            if i > 0 {
                assert(s.drop_first()[i - 1].0 == e);
            }
        }
    }
}

/// When keys are unique, the slot holding `e` gives its mapped value.
proof fn lemma_stream_map_at(s: Seq<(u64, StreamMeta)>, i: int)
    requires
        0 <= i < s.len(),
        forall|a: int, b: int| 0 <= a < b < s.len() ==> #[trigger] s[a].0 != #[trigger] s[b].0,
    ensures
        stream_map(s).contains_key(s[i].0),
        stream_map(s)[s[i].0] == s[i].1@,
    decreases s.len(),
{
    if i == 0 {
        lemma_stream_map_contains(s, s[0].0);
    } else {
        assert forall|a: int, b: int|
            0 <= a < b < s.drop_first().len() implies #[trigger] s.drop_first()[a].0
            != #[trigger] s.drop_first()[b].0 by {
            assert(s.drop_first()[a] == s[a + 1]);
            assert(s.drop_first()[b] == s[b + 1]);
        }
        assert(s.drop_first()[i - 1] == s[i]);
        lemma_stream_map_at(s.drop_first(), i - 1);
        assert(s[0].0 != s[i].0);
    }
}

/// Pushing a fresh pair inserts it into the stream map.
proof fn lemma_stream_map_push(s: Seq<(u64, StreamMeta)>, pair: (u64, StreamMeta))
    requires
        !stream_map(s).contains_key(pair.0),
    ensures
        stream_map(s.push(pair)) =~= stream_map(s).insert(pair.0, pair.1@),
    decreases s.len(),
{
    if s.len() == 0 {
        assert(s.push(pair)[0] == pair);
        assert(s.push(pair).drop_first() =~= s);
    } else {
        assert(s.push(pair).drop_first() =~= s.drop_first().push(pair));
        assert(s.push(pair)[0] == s[0]);
        assert(stream_map(s).contains_key(s[0].0));
        assert(pair.0 != s[0].0);
        assert(!stream_map(s.drop_first()).contains_key(pair.0)) by {
            if stream_map(s.drop_first()).contains_key(pair.0) {
                assert(stream_map(s).contains_key(pair.0));
            }
        }
        lemma_stream_map_push(s.drop_first(), pair);
        assert(stream_map(s.drop_first().push(pair)) =~= stream_map(s.drop_first()).insert(
            pair.0,
            pair.1@,
        ));
        assert(stream_map(s.push(pair)) =~= stream_map(s.drop_first().push(pair)).insert(
            s[0].0,
            s[0].1@,
        ));
        assert(stream_map(s.drop_first()).insert(pair.0, pair.1@).insert(s[0].0, s[0].1@)
            =~= stream_map(s.drop_first()).insert(s[0].0, s[0].1@).insert(pair.0, pair.1@));
    }
}

/// Updating slot `j` in place re-points its key at the new value.
proof fn lemma_stream_map_update(s: Seq<(u64, StreamMeta)>, j: int, pair: (u64, StreamMeta))
    requires
        0 <= j < s.len(),
        pair.0 == s[j].0,
        forall|a: int, b: int| 0 <= a < b < s.len() ==> #[trigger] s[a].0 != #[trigger] s[b].0,
    ensures
        stream_map(s.update(j, pair)) =~= stream_map(s).insert(pair.0, pair.1@),
    decreases s.len(),
{
    if j == 0 {
        assert(s.update(0, pair)[0] == pair);
        assert(s.update(0, pair).drop_first() =~= s.drop_first());
        assert forall|e: u64| #[trigger]
            stream_map(s.drop_first()).contains_key(e) implies e != pair.0 by {
            lemma_stream_map_contains(s.drop_first(), e);
            let i = choose|i: int|
                0 <= i < s.drop_first().len() && #[trigger] s.drop_first()[i].0 == e;
            assert(s[i + 1].0 == e);
        }
    } else {
        assert forall|a: int, b: int|
            0 <= a < b < s.drop_first().len() implies #[trigger] s.drop_first()[a].0
            != #[trigger] s.drop_first()[b].0 by {
            assert(s.drop_first()[a] == s[a + 1]);
            assert(s.drop_first()[b] == s[b + 1]);
        }
        assert(s.update(j, pair).drop_first() =~= s.drop_first().update(j - 1, pair));
        assert(s.update(j, pair)[0] == s[0]);
        assert(s.drop_first()[j - 1] == s[j]);
        lemma_stream_map_update(s.drop_first(), j - 1, pair);
    }
}

/// An immutable snapshot of the live set.
#[derive(Debug)]
pub struct Version {
    log_files: Vec<u64>,
    streams: Vec<(u64, StreamMeta)>,
    next_file_number: u64,
}

impl View for Version {
    type V = VersionModel;

    closed spec fn view(&self) -> VersionModel {
        VersionModel {
            files: file_set(self.log_files@),
            streams: stream_map(self.streams@),
            next_file_number: self.next_file_number,
        }
    }
}

impl Version {
    /// The representation keeps one slot per file and per stream.
    pub closed spec fn inv(&self) -> bool {
        &&& forall|a: int, b: int|
            0 <= a < b < self.log_files@.len() ==> #[trigger] self.log_files@[a]
                != #[trigger] self.log_files@[b]
        &&& forall|a: int, b: int|
            0 <= a < b < self.streams@.len() ==> #[trigger] self.streams@[a].0
                != #[trigger] self.streams@[b].0
    }

    /// The empty version: no files, no streams, next file number 1.
    pub fn new() -> (r: Version)
        ensures
            r.inv(),
            r@.files =~= Set::<u64>::empty(),
            r@.streams =~= Map::<u64, StreamMetaModel>::empty(),
            r@.next_file_number == 1,
    {
        Version { log_files: Vec::new(), streams: Vec::new(), next_file_number: 1 }
    }

    pub fn next_file_number(&self) -> (r: u64)
        ensures
            r == self@.next_file_number,
    {
        self.next_file_number
    }

    /// Raise the next file number; recovery calls this after analyzing the
    /// on-disk layout so it strictly exceeds every observed file number.
    pub fn set_next_file_number(&mut self, n: u64)
        requires
            old(self).inv(),
        ensures
            final(self).inv(),
            final(self)@ == (VersionModel { next_file_number: n, ..old(self)@ }),
    {
        self.next_file_number = n;
    }

    /// Whether `f` is in the live file set.
    #[verifier::loop_isolation(false)]
    pub fn contains_file(&self, f: u64) -> (r: bool)
        ensures
            r == self@.files.contains(f),
    {
        let mut i: usize = 0;
        while i < self.log_files.len()
            invariant
                i <= self.log_files@.len(),
                forall|k: int| 0 <= k < i ==> #[trigger] self.log_files@[k] != f,
            decreases self.log_files@.len() - i,
        {
            if self.log_files[i] == f {
                proof {
                    lemma_file_set_contains(self.log_files@, f);
                }
                return true;
            }
            i = i + 1;
        }
        proof {
            lemma_file_set_contains(self.log_files@, f);
        }
        false
    }

    /// Find the slot of stream `id`.
    #[verifier::loop_isolation(false)]
    fn find_stream(&self, id: u64) -> (r: Option<usize>)
        requires
            self.inv(),
        ensures
            match r {
                Some(i) => i < self.streams@.len() && self.streams@[i as int].0 == id
                    && self@.streams.contains_key(id) && self@.streams[id] == self.streams@[
                    i as int].1@,
                None => !self@.streams.contains_key(id),
            },
    {
        let mut i: usize = 0;
        while i < self.streams.len()
            invariant
                i <= self.streams@.len(),
                forall|k: int| 0 <= k < i ==> #[trigger] self.streams@[k].0 != id,
            decreases self.streams@.len() - i,
        {
            if self.streams[i].0 == id {
                proof {
                    lemma_stream_map_at(self.streams@, i as int);
                }
                return Some(i);
            }
            i = i + 1;
        }
        proof {
            lemma_stream_map_contains(self.streams@, id);
        }
        None
    }

    /// A copy of the metadata of stream `id`, if known.
    pub fn stream_meta_of(&self, id: u64) -> (r: Option<StreamMeta>)
        requires
            self.inv(),
        ensures
            match r {
                Some(m) => self@.streams.contains_key(id) && m@ == self@.streams[id],
                None => !self@.streams.contains_key(id),
            },
    {
        match self.find_stream(id) {
            Some(i) => Some(self.streams[i].1.clone()),
            None => None,
        }
    }

    /// Find the slot of file `f`.
    #[verifier::loop_isolation(false)]
    fn find_file(&self, f: u64) -> (r: Option<usize>)
        ensures
            match r {
                Some(i) => i < self.log_files@.len() && self.log_files@[i as int] == f
                    && self@.files.contains(f),
                None => !self@.files.contains(f),
            },
    {
        let mut i: usize = 0;
        while i < self.log_files.len()
            invariant
                i <= self.log_files@.len(),
                forall|k: int| 0 <= k < i ==> #[trigger] self.log_files@[k] != f,
            decreases self.log_files@.len() - i,
        {
            if self.log_files[i] == f {
                proof {
                    lemma_file_set_contains(self.log_files@, f);
                }
                return Some(i);
            }
            i = i + 1;
        }
        proof {
            lemma_file_set_contains(self.log_files@, f);
        }
        None
    }

    /// Apply one edit to the version.
    pub fn apply_edit(&mut self, e: &VersionEdit)
        requires
            old(self).inv(),
        ensures
            final(self).inv(),
            final(self)@ == spec_apply_edit(old(self)@, e@),
    {
        match e {
            VersionEdit::StreamAdd { stream_id } => {
                let meta = StreamMeta {
                    stream_id: *stream_id,
                    acked_seq: 0,
                    initial_seq: 0,
                    replicas: Vec::new(),
                };
                proof {
                    assert(meta@.replicas =~= spec_empty_meta(*stream_id).replicas);
                }
                self.put_stream(meta);
            },
            VersionEdit::StreamTruncate { meta } => {
                self.put_stream(meta.clone());
            },
            VersionEdit::FileAdd { file_number } => {
                let ghost before = self.log_files@;
                match self.find_file(*file_number) {
                    Some(_) => {
                        proof {
                            assert(self@.files =~= old(self)@.files.insert(*file_number));
                        }
                    },
                    None => {
                        self.log_files.push(*file_number);
                        proof {
                            lemma_file_set_push(before, *file_number);
                            lemma_file_set_contains(before, *file_number);
                            assert forall|a: int, b: int|
                                0 <= a < b < self.log_files@.len() implies #[trigger] self
                                .log_files@[a] != #[trigger] self.log_files@[b] by {
                                assert(self.log_files@[a] == before[a]);
                                if b < before.len() {
                                    assert(self.log_files@[b] == before[b]);
                                }
                            }
                        }
                    },
                }
            },
            VersionEdit::FileDelete { file_number } => {
                let ghost before = self.log_files@;
                match self.find_file(*file_number) {
                    Some(i) => {
                        self.log_files.remove(i);
                        proof {
                            lemma_file_set_remove(before, i as int);
                            assert forall|a: int, b: int|
                                0 <= a < b < self.log_files@.len() implies #[trigger] self
                                .log_files@[a] != #[trigger] self.log_files@[b] by {
                                let aa = if a < i { a } else { a + 1 };
                                let bb = if b < i { b } else { b + 1 };
                                assert(self.log_files@[a] == before[aa]);
                                assert(self.log_files@[b] == before[bb]);
                            }
                        }
                    },
                    None => {
                        proof {
                            assert(self@.files =~= old(self)@.files.remove(*file_number));
                        }
                    },
                }
            },
            VersionEdit::NextFileNumber { n } => {
                self.next_file_number = *n;
            },
        }
    }

    /// Install or replace the metadata of a stream.
    fn put_stream(&mut self, meta: StreamMeta)
        requires
            old(self).inv(),
        ensures
            final(self).inv(),
            final(self)@ == (VersionModel {
                streams: old(self)@.streams.insert(meta.stream_id, meta@),
                ..old(self)@
            }),
    {
        let id: u64 = meta.stream_id;
        let ghost before = self.streams@;
        match self.find_stream(id) {
            Some(i) => {
                let slot = &mut self.streams[i];
                *slot = (id, meta);
                proof {
                    assert(self.streams@ =~= before.update(i as int, self.streams@[i as int]));
                    lemma_stream_map_update(before, i as int, self.streams@[i as int]);
                    assert forall|a: int, b: int|
                        0 <= a < b < self.streams@.len() implies #[trigger] self.streams@[a].0
                        != #[trigger] self.streams@[b].0 by {
                        assert(self.streams@[a].0 == before[a].0);
                        assert(self.streams@[b].0 == before[b].0);
                    }
                }
            },
            None => {
                self.streams.push((id, meta));
                proof {
                    lemma_stream_map_push(before, self.streams@.last());
                    lemma_stream_map_contains(before, id);
                    assert forall|a: int, b: int|
                        0 <= a < b < self.streams@.len() implies #[trigger] self.streams@[a].0
                        != #[trigger] self.streams@[b].0 by {
                        assert(self.streams@[a].0 == before[a].0);
                        if b < before.len() {
                            assert(self.streams@[b].0 == before[b].0);
                        }
                    }
                }
            },
        }
    }
}

impl Clone for Version {
    /// Cloning preserves the modelled version; `current()` hands these
    /// snapshots out.
    fn clone(&self) -> (r: Self)
        ensures
            r@ == self@,
            self.inv() ==> r.inv(),
    {
        let mut files: Vec<u64> = Vec::new();
        let mut i: usize = 0;
        while i < self.log_files.len()
            invariant
                i <= self.log_files@.len(),
                files@ == self.log_files@.take(i as int),
            decreases self.log_files@.len() - i,
        {
            files.push(self.log_files[i]);
            proof {
                assert(files@ =~= self.log_files@.take(i + 1));
            }
            i = i + 1;
        }
        let mut streams: Vec<(u64, StreamMeta)> = Vec::new();
        let mut j: usize = 0;
        while j < self.streams.len()
            invariant
                j <= self.streams@.len(),
                streams@.len() == j,
                forall|k: int|
                    0 <= k < j ==> #[trigger] streams@[k].0 == self.streams@[k].0 && streams@[
                        k].1@ == self.streams@[k].1@,
            decreases self.streams@.len() - j,
        {
            let pair = (self.streams[j].0, self.streams[j].1.clone());
            streams.push(pair);
            j = j + 1;
        }
        let r = Version {
            log_files: files,
            streams,
            next_file_number: self.next_file_number,
        };
        proof {
            assert(files@ =~= self.log_files@);
            lemma_stream_map_congruent(streams@, self.streams@);
            if self.inv() {
                assert forall|a: int, b: int|
                    0 <= a < b < streams@.len() implies #[trigger] streams@[a].0
                    != #[trigger] streams@[b].0 by {
                    assert(streams@[a].0 == self.streams@[a].0);
                    assert(streams@[b].0 == self.streams@[b].0);
                }
            }
        }
        r
    }
}

/// Lists that agree pairwise on keys and metadata views carry the same map.
proof fn lemma_stream_map_congruent(a: Seq<(u64, StreamMeta)>, b: Seq<(u64, StreamMeta)>)
    requires
        a.len() == b.len(),
        forall|k: int|
            0 <= k < a.len() ==> #[trigger] a[k].0 == b[k].0 && a[k].1@ == b[k].1@,
    ensures
        stream_map(a) =~= stream_map(b),
    decreases a.len(),
{
    if a.len() > 0 {
        assert forall|k: int|
            0 <= k < a.drop_first().len() implies #[trigger] a.drop_first()[k].0
            == b.drop_first()[k].0 && a.drop_first()[k].1@ == b.drop_first()[k].1@ by {
            assert(a.drop_first()[k] == a[k + 1]);
            assert(b.drop_first()[k] == b[k + 1]);
        }
        lemma_stream_map_congruent(a.drop_first(), b.drop_first());
        assert(a[0].0 == b[0].0 && a[0].1@ == b[0].1@);
    }
}


/// The concatenated frames of an edit sequence.
pub open spec fn spec_encode_edits(es: Seq<VersionEditModel>) -> Seq<u8>
    decreases es.len(),
{
    if es.len() == 0 {
        Seq::empty()
    } else {
        spec_encode_edit(es[0]) + spec_encode_edits(es.drop_first())
    }
}

/// A manifest scan from offset `i`: the decoded edits, in order, and the
/// offset where decoding stops.
pub open spec fn spec_scan_edits(s: Seq<u8>, i: int) -> (Seq<VersionEditModel>, int)
    decreases s.len() - i,
    when 0 <= i <= s.len()
    via spec_scan_edits_decreases
{
    match spec_decode_edit(s, i) {
        Option::None => (Seq::empty(), i),
        Option::Some((e, j)) => {
            let rest = spec_scan_edits(s, j);
            (seq![e] + rest.0, rest.1)
        },
    }
}

#[via_fn]
proof fn spec_scan_edits_decreases(s: Seq<u8>, i: int) {
    if let Some((e, j)) = spec_decode_edit(s, i) {
        assert(spec_le32_val(s.subrange(i, i + 4)) >= 0);
    }
}

/// A decoded edit frame always advances past its 8-byte header and stays in
/// the buffer.
pub proof fn lemma_decode_edit_advances(s: Seq<u8>, i: int)
    requires
        spec_decode_edit(s, i) is Some,
    ensures
        i + 8 <= spec_decode_edit(s, i)->Some_0.1 <= s.len(),
{
    assert(spec_le32_val(s.subrange(i, i + 4)) >= 0);
}

/// Scanning a buffer that holds exactly the frames of well-formed edits
/// yields those edits and consumes the whole buffer.
pub proof fn lemma_scan_edits_of_encoded(s: Seq<u8>, i: int, es: Seq<VersionEditModel>)
    requires
        forall|k: int| 0 <= k < es.len() ==> wf_edit(#[trigger] es[k]),
        encoded_at(s, i, spec_encode_edits(es)),
        i + spec_encode_edits(es).len() == s.len(),
    ensures
        spec_scan_edits(s, i) == (es, s.len() as int),
    decreases es.len(),
{
    if es.len() == 0 {
        assert(spec_encode_edits(es).len() == 0);
        assert(spec_decode_edit(s, i) is None);
        assert(es =~= Seq::<VersionEditModel>::empty());
    } else {
        let head = spec_encode_edit(es[0]);
        let tail = spec_encode_edits(es.drop_first());
        lemma_encoded_at_split(s, i, head, tail);
        lemma_edit_roundtrip(s, i, es[0]);
        lemma_scan_edits_of_encoded(s, i + head.len(), es.drop_first());
        assert(seq![es[0]] + es.drop_first() =~= es);
    }
}

/// The version set: the current version plus the manifest log that rebuilds
/// it.
///
/// `recover` replays a manifest byte-for-byte; `install_edit` appends one
/// frame and applies it, so the manifest always replays to the current
/// version.
#[derive(Debug)]
pub struct VersionSet {
    current: Version,
    manifest: Vec<u8>,
}

impl VersionSet {
    pub closed spec fn spec_current(&self) -> VersionModel {
        self.current@
    }

    pub closed spec fn spec_manifest(&self) -> Seq<u8> {
        self.manifest@
    }

    pub closed spec fn inv(&self) -> bool {
        self.current.inv()
    }

    /// A fresh version set over the empty version.
    pub fn new() -> (r: VersionSet)
        ensures
            r.inv(),
            r.spec_current().files =~= Set::<u64>::empty(),
            r.spec_current().streams =~= Map::<u64, StreamMetaModel>::empty(),
            r.spec_current().next_file_number == 1,
            r.spec_manifest() == Seq::<u8>::empty(),
    {
        VersionSet { current: Version::new(), manifest: Vec::new() }
    }

    /// A cheap snapshot of the current version.
    pub fn current(&self) -> (r: Version)
        requires
            self.inv(),
        ensures
            r@ == self.spec_current(),
            r.inv(),
    {
        self.current.clone()
    }

    /// The manifest bytes to persist.
    pub fn manifest_bytes(&self) -> (r: &Vec<u8>)
        ensures
            r@ == self.spec_manifest(),
    {
        &self.manifest
    }

    /// Append one edit to the manifest and publish the new version.
    ///
    /// Succeeds exactly on well-formed edits; on failure nothing changes.
    pub fn install_edit(&mut self, e: &VersionEdit) -> (res: Result<(), Error>)
        requires
            old(self).inv(),
        ensures
            final(self).inv(),
            match res {
                Ok(()) => wf_edit(e@) && final(self).spec_manifest() == old(self).spec_manifest()
                    + spec_encode_edit(e@) && final(self).spec_current() == spec_apply_edit(
                    old(self).spec_current(),
                    e@,
                ),
                Err(err) => !wf_edit(e@) && err == Error::InvalidArgument && final(self).spec_manifest() == old(self).spec_manifest() && final(self).spec_current()
                    == old(self).spec_current(),
            },
    {
        let mut w = BufWriter::new();
        match encode_edit(e, &mut w) {
            Ok(()) => {},
            Err(err) => {
                return Err(Error::InvalidArgument);
            },
        }
        let bytes = w.into_bytes();
        self.manifest.extend_from_slice(bytes.as_slice());
        self.current.apply_edit(e);
        Ok(())
    }

    /// Install a truncation edit for `meta`.
    pub fn truncate_stream(&mut self, meta: StreamMeta) -> (res: Result<(), Error>)
        requires
            old(self).inv(),
        ensures
            final(self).inv(),
            match res {
                Ok(()) => wf_edit(VersionEditModel::StreamTruncate { meta: meta@ }) && final(self).spec_manifest() == old(self).spec_manifest() + spec_encode_edit(
                    VersionEditModel::StreamTruncate { meta: meta@ },
                ) && final(self).spec_current() == spec_apply_edit(
                    old(self).spec_current(),
                    VersionEditModel::StreamTruncate { meta: meta@ },
                ),
                Err(err) => !wf_edit(VersionEditModel::StreamTruncate { meta: meta@ }) && err
                    == Error::InvalidArgument && final(self).spec_manifest() == old(
                    self,
                ).spec_manifest() && final(self).spec_current() == old(self).spec_current(),
            },
    {
        let edit = VersionEdit::StreamTruncate { meta };
        self.install_edit(&edit)
    }

    /// Raise the next file number of the current version.
    pub fn set_next_file_number(&mut self, n: u64)
        requires
            old(self).inv(),
        ensures
            final(self).inv(),
            final(self).spec_current() == (VersionModel {
                next_file_number: n,
                ..old(self).spec_current()
            }),
            final(self).spec_manifest() == old(self).spec_manifest(),
    {
        self.current.set_next_file_number(n);
    }

    /// Rebuild a version set from manifest bytes: decode every edit and
    /// replay it. A byte tail that does not decode is a fatal corruption.
    #[verifier::loop_isolation(false)]
    pub fn recover(bytes: &[u8]) -> (res: Result<VersionSet, Error>)
        ensures
            ({
                let scan = spec_scan_edits(bytes@, 0);
                match res {
                    Ok(vs) => {
                        &&& scan.1 == bytes@.len()
                        &&& vs.inv()
                        &&& vs.spec_current() == spec_replay_edits(
                            VersionModel {
                                files: Set::empty(),
                                streams: Map::empty(),
                                next_file_number: 1,
                            },
                            scan.0,
                        )
                        &&& vs.spec_manifest() == bytes@
                    },
                    Err(e) => e == Error::Corruption && scan.1 != bytes@.len(),
                }
            }),
    {
        let blen: usize = bytes.len();
        let mut current = Version::new();
        let ghost init = current@;
        let mut cur: usize = 0;
        let ghost scan = spec_scan_edits(bytes@, 0);
        while cur < blen
            invariant
                cur <= blen,
                current.inv(),
                spec_replay_edits(init, scan.0) == spec_replay_edits(
                    current@,
                    spec_scan_edits(bytes@, cur as int).0,
                ),
                scan.1 == spec_scan_edits(bytes@, cur as int).1,
            decreases blen - cur,
        {
            let step = decode_edit(bytes, cur);
            match step {
                Ok((edit, nx)) => {
                    proof {
                        lemma_decode_edit_advances(bytes@, cur as int);
                        assert(spec_scan_edits(bytes@, cur as int).0.drop_first()
                            =~= spec_scan_edits(bytes@, nx as int).0);
                    }
                    current.apply_edit(&edit);
                    cur = nx;
                },
                Err(_) => {
                    return Err(Error::Corruption);
                },
            }
        }
        proof {
            assert(spec_scan_edits(bytes@, cur as int).0 =~= Seq::<VersionEditModel>::empty());
        }
        let mut manifest: Vec<u8> = Vec::new();
        manifest.extend_from_slice(bytes);
        Ok(VersionSet { current, manifest })
    }
}

} // verus!
