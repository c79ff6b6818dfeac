//! Persistent record frames.
//!
//! A record is the unit a stream persists to a log file:
//! `{stream_id, writer_epoch, segment_epoch, first_index, acked_seq,
//! entries[]}`. On disk it is framed as
//! `u32 length | u32 crc32c(payload) | payload`, with the payload
//! `u64 stream_id | u32 writer_epoch | u32 segment_epoch | u32 first_index |
//! u64 acked_seq | u32 num_entries | entries[]`, and each entry
//! `u8 kind | u32 len | bytes`.
//!
//! A record with `first_index == 0` is a seal marker: recovery re-establishes
//! the seal of `segment_epoch` under `writer_epoch` instead of adding entries.
//! Ordinary writes always carry `first_index >= 1`.
//!
//! The decoder is proved to be the exact inverse of the encoder
//! (`lemma_record_roundtrip`), so replaying a log reconstructs precisely the
//! records that were appended.

use vstd::prelude::*;

use crate::codec::{
    spec_le32, spec_le32_val, spec_le64, spec_le64_val, lemma_le32_roundtrip,
    lemma_le64_roundtrip, BufReader, BufWriter,
};
use crate::crc::{crc32c, spec_crc32c};
use crate::types::{Entry, EntryModel, Error, Sequence};

verus! {

pub const ENTRY_KIND_HOLE: u8 = 0;

pub const ENTRY_KIND_EVENT: u8 = 1;

pub const ENTRY_KIND_BRIDGE: u8 = 2;

/// A record frame, the persistent unit of a write or seal transaction.
#[derive(Debug)]
pub struct Record {
    pub stream_id: u64,
    pub writer_epoch: u32,
    pub segment_epoch: u32,
    /// Index of the first entry; `0` marks a seal record.
    pub first_index: u32,
    pub acked_seq: Sequence,
    pub entries: Vec<Entry>,
}

/// The mathematical shape of a record.
pub struct RecordModel {
    pub stream_id: u64,
    pub writer_epoch: u32,
    pub segment_epoch: u32,
    pub first_index: u32,
    pub acked_seq: Sequence,
    pub entries: Seq<EntryModel>,
}

impl Clone for Record {
    /// Cloning preserves the modelled value.
    fn clone(&self) -> (r: Self)
        ensures
            r@ == self@,
    {
        let mut entries: Vec<Entry> = Vec::new();
        let mut i: usize = 0;
        while i < self.entries.len()
            invariant
                i <= self.entries@.len(),
                entries@.len() == i,
                forall|k: int| 0 <= k < i ==> #[trigger] entries@[k]@ == self.entries@[k]@,
            decreases self.entries@.len() - i,
        {
            entries.push(self.entries[i].clone());
            i = i + 1;
        }
        proof {
            assert(entries@.map_values(|e: Entry| e@) =~= self.entries@.map_values(
                |e: Entry| e@,
            ));
        }
        Record {
            stream_id: self.stream_id,
            writer_epoch: self.writer_epoch,
            segment_epoch: self.segment_epoch,
            first_index: self.first_index,
            acked_seq: self.acked_seq,
            entries,
        }
    }
}

impl View for Record {
    type V = RecordModel;

    open spec fn view(&self) -> RecordModel {
        RecordModel {
            stream_id: self.stream_id,
            writer_epoch: self.writer_epoch,
            segment_epoch: self.segment_epoch,
            first_index: self.first_index,
            acked_seq: self.acked_seq,
            entries: self.entries@.map_values(|e: Entry| e@),
        }
    }
}

/// An entry's wire payload fits its `u32` length prefix.
pub open spec fn wf_entry(e: EntryModel) -> bool {
    match e {
        EntryModel::Hole => true,
        EntryModel::Event { bytes } => bytes.len() <= u32::MAX,
        EntryModel::Bridge { .. } => true,
    }
}

/// The bytes of one encoded entry.
pub open spec fn spec_encode_entry(e: EntryModel) -> Seq<u8> {
    match e {
        EntryModel::Hole => seq![ENTRY_KIND_HOLE] + spec_le32(0),
        EntryModel::Event { bytes } => seq![ENTRY_KIND_EVENT] + spec_le32(bytes.len() as u32)
            + bytes,
        EntryModel::Bridge { epoch } => seq![ENTRY_KIND_BRIDGE] + spec_le32(4) + spec_le32(epoch),
    }
}

/// The bytes of a whole entry list.
#[verifier::opaque]
pub open spec fn spec_encode_entries(es: Seq<EntryModel>) -> Seq<u8>
    decreases es.len(),
{
    if es.len() == 0 {
        Seq::empty()
    } else {
        spec_encode_entry(es[0]) + spec_encode_entries(es.drop_first())
    }
}

/// Every entry of the record is well formed, the entry count fits its `u32`,
/// and the payload fits the frame's `u32` length prefix.
pub open spec fn wf_record(r: RecordModel) -> bool {
    &&& forall|i: int| 0 <= i < r.entries.len() ==> wf_entry(#[trigger] r.entries[i])
    &&& r.entries.len() <= u32::MAX
    &&& spec_encode_payload(r).len() <= u32::MAX
}

/// The payload bytes of a record.
#[verifier::opaque]
pub open spec fn spec_encode_payload(r: RecordModel) -> Seq<u8> {
    spec_le64(r.stream_id) + spec_le32(r.writer_epoch) + spec_le32(r.segment_epoch) + spec_le32(
        r.first_index,
    ) + spec_le64(r.acked_seq.spec_pack() as u64) + spec_le32(r.entries.len() as u32)
        + spec_encode_entries(r.entries)
}

/// A CRC-guarded frame around a payload.
pub open spec fn spec_frame(payload: Seq<u8>) -> Seq<u8> {
    spec_le32(payload.len() as u32) + spec_le32(spec_crc32c(payload)) + payload
}

/// The full frame of a record.
pub open spec fn spec_encode_record(r: RecordModel) -> Seq<u8> {
    spec_frame(spec_encode_payload(r))
}

/// `enc` sits in `s` at offset `i`.
pub open spec fn encoded_at(s: Seq<u8>, i: int, enc: Seq<u8>) -> bool {
    &&& 0 <= i
    &&& i + enc.len() <= s.len()
    &&& s.subrange(i, i + enc.len()) == enc
}

/// Decoding one entry at offset `i`.
pub open spec fn spec_decode_entry(s: Seq<u8>, i: int) -> Option<(EntryModel, int)> {
    if i < 0 || i + 5 > s.len() {
        None
    } else {
        let kind = s[i];
        let len = spec_le32_val(s.subrange(i + 1, i + 5));
        if i + 5 + len > s.len() {
            None
        } else if kind == ENTRY_KIND_HOLE {
            if len == 0 {
                Some((EntryModel::Hole, i + 5))
            } else {
                None
            }
        } else if kind == ENTRY_KIND_EVENT {
            Some((EntryModel::Event { bytes: s.subrange(i + 5, i + 5 + len) }, i + 5 + len))
        } else if kind == ENTRY_KIND_BRIDGE {
            if len == 4 {
                Some(
                    (
                        EntryModel::Bridge {
                            epoch: spec_le32_val(s.subrange(i + 5, i + 9)) as u32,
                        },
                        i + 9,
                    ),
                )
            } else {
                None
            }
        } else {
            None
        }
    }
}

/// Decoding `n` entries starting at offset `i`.
#[verifier::opaque]
pub open spec fn spec_decode_entries(s: Seq<u8>, i: int, n: nat) -> Option<(Seq<EntryModel>, int)>
    decreases n,
{
    if n == 0 {
        Some((Seq::empty(), i))
    } else {
        match spec_decode_entry(s, i) {
            Option::None => None,
            Option::Some((e, j)) => match spec_decode_entries(s, j, (n - 1) as nat) {
                Option::None => None,
                Option::Some((es, k)) => Some((seq![e] + es, k)),
            },
        }
    }
}

/// Decoding a frame at offset `i`: yields the payload and the next offset.
pub open spec fn spec_decode_frame(s: Seq<u8>, i: int) -> Option<(Seq<u8>, int)> {
    if i < 0 || i + 8 > s.len() {
        None
    } else {
        let len = spec_le32_val(s.subrange(i, i + 4));
        let crc = spec_le32_val(s.subrange(i + 4, i + 8));
        if i + 8 + len > s.len() {
            None
        } else {
            let payload = s.subrange(i + 8, i + 8 + len);
            if crc == spec_crc32c(payload) {
                Some((payload, i + 8 + len))
            } else {
                None
            }
        }
    }
}

/// Decoding a record payload; the whole payload must be consumed.
pub open spec fn spec_decode_payload(p: Seq<u8>) -> Option<RecordModel> {
    if p.len() < 32 {
        None
    } else {
        let n = spec_le32_val(p.subrange(28, 32));
        match spec_decode_entries(p, 32, n as nat) {
            Option::None => None,
            Option::Some((es, end)) => if end == p.len() {
                Some(
                    RecordModel {
                        stream_id: spec_le64_val(p.subrange(0, 8)) as u64,
                        writer_epoch: spec_le32_val(p.subrange(8, 12)) as u32,
                        segment_epoch: spec_le32_val(p.subrange(12, 16)) as u32,
                        first_index: spec_le32_val(p.subrange(16, 20)) as u32,
                        acked_seq: Sequence::spec_unpack(spec_le64_val(p.subrange(20, 28))),
                        entries: es,
                    },
                )
            } else {
                None
            },
        }
    }
}

/// Decoding a record frame at offset `i`.
pub open spec fn spec_decode_record(s: Seq<u8>, i: int) -> Option<(RecordModel, int)> {
    match spec_decode_frame(s, i) {
        Option::None => None,
        Option::Some((payload, next)) => match spec_decode_payload(payload) {
            Option::None => None,
            Option::Some(r) => Some((r, next)),
        },
    }
}

/// An encoded entry decodes back to itself.
proof fn lemma_decode_entry_of_encoded(s: Seq<u8>, i: int, e: EntryModel)
    requires
        wf_entry(e),
        encoded_at(s, i, spec_encode_entry(e)),
    ensures
        spec_decode_entry(s, i) == Some((e, i + spec_encode_entry(e).len())),
{
    let enc = spec_encode_entry(e);
    assert(s[i] == enc[0]) by {
        assert(s.subrange(i, i + enc.len())[0] == s[i]);
    }
    assert(s.subrange(i + 1, i + 5) =~= enc.subrange(1, 5)) by {
        assert forall|k: int| 0 <= k < 4 implies s.subrange(i + 1, i + 5)[k] == enc.subrange(
            1,
            5,
        )[k] by {
            assert(s.subrange(i, i + enc.len())[k + 1] == s[i + 1 + k]);
        }
    }
    match e {
        EntryModel::Hole => {
            assert(enc.subrange(1, 5) =~= spec_le32(0));
            lemma_le32_roundtrip(0);
        },
        EntryModel::Event { bytes } => {
            assert(enc.subrange(1, 5) =~= spec_le32(bytes.len() as u32));
            lemma_le32_roundtrip(bytes.len() as u32);
            let len = bytes.len() as int;
            assert(s.subrange(i + 5, i + 5 + len) =~= bytes) by {
                assert forall|k: int| 0 <= k < len implies s.subrange(i + 5, i + 5 + len)[k]
                    == bytes[k] by {
                    assert(s.subrange(i, i + enc.len())[k + 5] == s[i + 5 + k]);
                }
            }
        },
        EntryModel::Bridge { epoch } => {
            assert(enc.subrange(1, 5) =~= spec_le32(4));
            lemma_le32_roundtrip(4);
            assert(s.subrange(i + 5, i + 9) =~= spec_le32(epoch)) by {
                assert forall|k: int| 0 <= k < 4 implies s.subrange(i + 5, i + 9)[k]
                    == spec_le32(epoch)[k] by {
                    assert(s.subrange(i, i + enc.len())[k + 5] == s[i + 5 + k]);
                }
            }
            lemma_le32_roundtrip(epoch);
        },
    }
}

/// A concatenation sitting at `i` splits into its two halves.
pub proof fn lemma_encoded_at_split(s: Seq<u8>, i: int, a: Seq<u8>, b: Seq<u8>)
    requires
        encoded_at(s, i, a + b),
    ensures
        encoded_at(s, i, a),
        encoded_at(s, i + a.len(), b),
{
    assert(s.subrange(i, i + a.len()) =~= a) by {
        assert forall|k: int| 0 <= k < a.len() implies s.subrange(i, i + a.len())[k] == a[k] by {
            assert(s.subrange(i, i + (a + b).len())[k] == s[i + k]);
            assert((a + b)[k] == a[k]);
        }
    }
    assert(s.subrange(i + a.len(), i + a.len() + b.len()) =~= b) by {
        assert forall|k: int| 0 <= k < b.len() implies s.subrange(
            i + a.len(),
            i + a.len() + b.len(),
        )[k] == b[k] by {
            assert(s.subrange(i, i + (a + b).len())[a.len() + k] == s[i + a.len() + k]);
            assert((a + b)[a.len() + k] == b[k]);
        }
    }
}

/// An encoded entry list decodes back to itself.
proof fn lemma_decode_entries_of_encoded(s: Seq<u8>, i: int, es: Seq<EntryModel>)
    requires
        forall|k: int| 0 <= k < es.len() ==> wf_entry(#[trigger] es[k]),
        encoded_at(s, i, spec_encode_entries(es)),
    ensures
        spec_decode_entries(s, i, es.len()) == Some((es, i + spec_encode_entries(es).len())),
    decreases es.len(),
{
    reveal_with_fuel(spec_encode_entries, 2);
    reveal_with_fuel(spec_decode_entries, 2);
    if es.len() == 0 {
        assert(spec_decode_entries(s, i, 0) == Some((Seq::<EntryModel>::empty(), i)));
        assert(es =~= Seq::<EntryModel>::empty());
    } else {
        let head = spec_encode_entry(es[0]);
        let tail = spec_encode_entries(es.drop_first());
        lemma_encoded_at_split(s, i, head, tail);
        lemma_decode_entry_of_encoded(s, i, es[0]);
        lemma_decode_entries_of_encoded(s, i + head.len(), es.drop_first());
        assert(seq![es[0]] + es.drop_first() =~= es);
    }
}

/// An encoded frame decodes back to its payload.
pub proof fn lemma_decode_frame_of_encoded(s: Seq<u8>, i: int, payload: Seq<u8>)
    requires
        payload.len() <= u32::MAX,
        encoded_at(s, i, spec_frame(payload)),
    ensures
        spec_decode_frame(s, i) == Some((payload, i + 8 + payload.len())),
{
    let lenb = spec_le32(payload.len() as u32);
    let crcb = spec_le32(spec_crc32c(payload));
    lemma_encoded_at_split(s, i, lenb + crcb, payload);
    lemma_encoded_at_split(s, i, lenb, crcb);
    assert(s.subrange(i, i + 4) =~= lenb);
    assert(s.subrange(i + 4, i + 8) =~= crcb);
    lemma_le32_roundtrip(payload.len() as u32);
    lemma_le32_roundtrip(spec_crc32c(payload));
    assert(s.subrange(i + 8, i + 8 + payload.len()) =~= payload);
}

/// An encoded payload decodes back to the record it came from.
#[verifier::rlimit(100)]
#[verifier::spinoff_prover]
proof fn lemma_decode_payload_of_encoded(r: RecordModel)
    requires
        wf_record(r),
    ensures
        spec_decode_payload(spec_encode_payload(r)) == Some(r),
{
    reveal(spec_encode_entries);
    reveal(spec_encode_payload);
    let p = spec_encode_payload(r);
    let f0 = spec_le64(r.stream_id);
    let f1 = spec_le32(r.writer_epoch);
    let f2 = spec_le32(r.segment_epoch);
    let f3 = spec_le32(r.first_index);
    r.acked_seq.lemma_pack_bounds();
    let packed = r.acked_seq.spec_pack() as u64;
    let f4 = spec_le64(packed);
    let f5 = spec_le32(r.entries.len() as u32);
    let body = spec_encode_entries(r.entries);
    assert(encoded_at(p, 0, f0 + (f1 + (f2 + (f3 + (f4 + (f5 + body))))))) by {
        assert(p =~= f0 + (f1 + (f2 + (f3 + (f4 + (f5 + body))))));
        assert(p.subrange(0, p.len() as int) =~= p);
    }
    lemma_encoded_at_split(p, 0, f0, f1 + (f2 + (f3 + (f4 + (f5 + body)))));
    lemma_encoded_at_split(p, 8, f1, f2 + (f3 + (f4 + (f5 + body))));
    lemma_encoded_at_split(p, 12, f2, f3 + (f4 + (f5 + body)));
    lemma_encoded_at_split(p, 16, f3, f4 + (f5 + body));
    lemma_encoded_at_split(p, 20, f4, f5 + body);
    lemma_encoded_at_split(p, 28, f5, body);
    assert(p.subrange(0, 8) =~= f0);
    assert(p.subrange(8, 12) =~= f1);
    assert(p.subrange(12, 16) =~= f2);
    assert(p.subrange(16, 20) =~= f3);
    assert(p.subrange(20, 28) =~= f4);
    assert(p.subrange(28, 32) =~= f5);
    lemma_le64_roundtrip(r.stream_id);
    lemma_le32_roundtrip(r.writer_epoch);
    lemma_le32_roundtrip(r.segment_epoch);
    lemma_le32_roundtrip(r.first_index);
    lemma_le64_roundtrip(packed);
    lemma_le32_roundtrip(r.entries.len() as u32);
    r.acked_seq.lemma_pack_unpack();
    lemma_decode_entries_of_encoded(p, 32, r.entries);
}

/// The views of a vector of entries.
pub open spec fn entry_views(es: Seq<Entry>) -> Seq<EntryModel> {
    es.map_values(|e: Entry| e@)
}

/// Encoding one more entry extends the encoded prefix.
proof fn lemma_encode_entries_take(es: Seq<EntryModel>, i: int)
    requires
        0 <= i < es.len(),
    ensures
        spec_encode_entries(es.take(i + 1)) == spec_encode_entries(es.take(i))
            + spec_encode_entry(es[i]),
    decreases i,
{
    reveal_with_fuel(spec_encode_entries, 2);
    if i == 0 {
        assert(es.take(0) =~= Seq::<EntryModel>::empty());
        assert(es.take(1).drop_first() =~= Seq::<EntryModel>::empty());
        assert(es.take(1)[0] == es[0]);
        assert(spec_encode_entry(es[0]) + Seq::<u8>::empty() =~= spec_encode_entry(es[0]));
        assert(Seq::<u8>::empty() + spec_encode_entry(es[0]) =~= spec_encode_entry(es[0]));
    } else {
        let d = es.drop_first();
        lemma_encode_entries_take(d, i - 1);
        assert(es.take(i + 1).drop_first() =~= d.take(i));
        assert(es.take(i).drop_first() =~= d.take(i - 1));
        assert(es.take(i + 1)[0] == es[0]);
        assert(es.take(i)[0] == es[0]);
        assert(d[i - 1] == es[i]);
        assert(spec_encode_entry(es[0]) + (spec_encode_entries(d.take(i - 1))
            + spec_encode_entry(es[i])) =~= (spec_encode_entry(es[0]) + spec_encode_entries(
            d.take(i - 1),
        )) + spec_encode_entry(es[i]));
    }
}

/// Append the frame of `r` to `out`.
///
/// Succeeds exactly on well-formed records: every entry and the payload as a
/// whole must fit their `u32` length prefixes. On failure `out` is untouched.
pub fn encode_record(r: &Record, out: &mut BufWriter) -> (res: Result<(), Error>)
    ensures
        match res {
            Ok(()) => wf_record(r@) && final(out)@ == old(out)@ + spec_encode_record(r@),
            Err(e) => !wf_record(r@) && e == Error::InvalidArgument && final(out)@ == old(out)@,
        },
{
    let mut pw = BufWriter::new();
    pw.put_u64(r.stream_id);
    pw.put_u32(r.writer_epoch);
    pw.put_u32(r.segment_epoch);
    pw.put_u32(r.first_index);
    pw.put_u64(r.acked_seq.pack());
    proof {
        r.acked_seq.lemma_pack_bounds();
    }
    if r.entries.len() > u32::MAX as usize {
        return Err(Error::InvalidArgument);
    }
    pw.put_u32(r.entries.len() as u32);
    let ghost header = spec_le64(r.stream_id) + spec_le32(r.writer_epoch) + spec_le32(
        r.segment_epoch,
    ) + spec_le32(r.first_index) + spec_le64(r@.acked_seq.spec_pack() as u64) + spec_le32(
        r.entries.len() as u32,
    );
    let mut i: usize = 0;
    proof {
        reveal_with_fuel(spec_encode_entries, 1);
        assert(r@.entries.take(0) =~= Seq::<EntryModel>::empty());
        assert(pw@ =~= header + spec_encode_entries(r@.entries.take(0)));
    }
    while i < r.entries.len()
        invariant
            i <= r.entries@.len(),
            r@.entries.len() == r.entries@.len(),
            forall|k: int| 0 <= k < i ==> wf_entry(#[trigger] r@.entries[k]),
            pw@ == header + spec_encode_entries(r@.entries.take(i as int)),
        decreases r.entries@.len() - i,
    {
        let ghost pre = pw@;
        match &r.entries[i] {
            Entry::Hole => {
                pw.put_u8(ENTRY_KIND_HOLE);
                pw.put_u32(0);
            },
            Entry::Event { bytes } => {
                if bytes.len() > u32::MAX as usize {
                    return Err(Error::InvalidArgument);
                }
                pw.put_u8(ENTRY_KIND_EVENT);
                pw.put_length_prefixed_slice(bytes.as_slice());
            },
            Entry::Bridge { epoch } => {
                pw.put_u8(ENTRY_KIND_BRIDGE);
                pw.put_u32(4);
                pw.put_u32(*epoch);
            },
        }
        proof {
            assert(r@.entries[i as int] == r.entries@[i as int]@);
            assert(pw@ =~= pre + spec_encode_entry(r@.entries[i as int]));
            lemma_encode_entries_take(r@.entries, i as int);
            assert(pw@ =~= header + spec_encode_entries(r@.entries.take(i as int + 1)));
        }
        i = i + 1;
    }
    proof {
        reveal(spec_encode_payload);
        assert(r@.entries.take(r.entries@.len() as int) =~= r@.entries);
        assert(pw@ =~= spec_encode_payload(r@));
    }
    let payload = pw.into_bytes();
    if payload.len() > u32::MAX as usize {
        return Err(Error::InvalidArgument);
    }
    let crc = crc32c(payload.as_slice());
    out.put_u32(payload.len() as u32);
    out.put_u32(crc);
    out.put_slice(payload.as_slice());
    proof {
        assert(final(out)@ =~= old(out)@ + spec_encode_record(r@));
    }
    Ok(())
}

/// The round trip of record frames: decoding an encoded record yields it back, wherever
/// the frame sits in a larger buffer.
#[verifier::spinoff_prover]
#[verifier::rlimit(100)]
pub proof fn lemma_record_roundtrip(s: Seq<u8>, i: int, r: RecordModel)
    requires
        wf_record(r),
        encoded_at(s, i, spec_encode_record(r)),
    ensures
        spec_decode_record(s, i) == Some((r, i + spec_encode_record(r).len())),
{
    let payload = spec_encode_payload(r);
    let n = payload.len() as int;
    assert(spec_decode_frame(s, i) == Some((payload, i + 8 + n))) by {
        lemma_decode_frame_of_encoded(s, i, payload);
    }
    assert(spec_decode_payload(payload) == Some(r)) by {
        lemma_decode_payload_of_encoded(r);
    }
    assert(spec_encode_record(r).len() == 8 + n);
    assert(spec_decode_record(s, i) == Some((r, i + 8 + n)));
}

/// Decode the entry section of a record payload: `n` entries starting at
/// offset 32, which must consume the payload exactly.
#[verifier::loop_isolation(false)]
fn decode_entry_section(payload: &[u8], n: u32) -> (res: Result<Vec<Entry>, Error>)
    requires
        32 <= payload@.len(),
    ensures
        match spec_decode_entries(payload@, 32, n as nat) {
            Option::Some((es, end)) => if end == payload@.len() {
                match res {
                    Ok(v) => entry_views(v@) == es,
                    Err(_) => false,
                }
            } else {
                res == Err::<Vec<Entry>, Error>(Error::Corruption)
            },
            Option::None => res == Err::<Vec<Entry>, Error>(Error::Corruption),
        },
{
    let ghost p = payload@;
    let mut pr = BufReader::new(payload, 32);
    let mut entries: Vec<Entry> = Vec::new();
    let mut k: u32 = 0;
    proof {
        reveal_with_fuel(spec_decode_entries, 1);
        assert(entry_views(entries@) + Seq::<EntryModel>::empty() =~= entry_views(entries@));
    }
    while k < n
        invariant
            k <= n,
            pr.wf(),
            pr.bytes() == p,
            entries@.len() == k,
            match spec_decode_entries(p, pr.position(), (n - k) as nat) {
                Option::Some((es, end)) => spec_decode_entries(p, 32, n as nat) == Some(
                    (entry_views(entries@) + es, end),
                ),
                Option::None => spec_decode_entries(p, 32, n as nat) is None,
            },
        decreases n - k,
    {
        let ghost pos = pr.position();
        proof {
            pr.lemma_wf_bounds();
            reveal_with_fuel(spec_decode_entries, 2);
        }
        if pr.remaining() < 5 {
            assert(spec_decode_entry(p, pos) is None);
            return Err(Error::Corruption);
        }
        let kind: u8 = pr.get_u8();
        let elen: u32 = pr.get_u32();
        proof {
            assert(elen == spec_le32_val(p.subrange(pos + 1, pos + 5)));
        }
        if (elen as usize) > pr.remaining() {
            assert(spec_decode_entry(p, pos) is None);
            return Err(Error::Corruption);
        }
        let entry: Entry;
        if kind == ENTRY_KIND_HOLE {
            if elen != 0 {
                assert(spec_decode_entry(p, pos) is None);
                return Err(Error::Corruption);
            }
            entry = Entry::Hole;
            proof {
                assert(spec_decode_entry(p, pos) == Some((entry@, pr.position())));
            }
        } else if kind == ENTRY_KIND_EVENT {
            let data: Vec<u8> = pr.get_slice(elen as usize);
            entry = Entry::Event { bytes: data };
            proof {
                assert(spec_decode_entry(p, pos) == Some((entry@, pr.position())));
            }
        } else if kind == ENTRY_KIND_BRIDGE {
            if elen != 4 {
                assert(spec_decode_entry(p, pos) is None);
                return Err(Error::Corruption);
            }
            let epoch: u32 = pr.get_u32();
            entry = Entry::Bridge { epoch };
            proof {
                assert(spec_decode_entry(p, pos) == Some((entry@, pr.position())));
            }
        } else {
            assert(spec_decode_entry(p, pos) is None);
            return Err(Error::Corruption);
        }
        entries.push(entry);
        k = k + 1;
        proof {
            assert(entry_views(entries@) =~= entry_views(entries@.drop_last()) + seq![
                entries@.last()@,
            ]);
            if let Some((es, end)) = spec_decode_entries(p, pr.position(), (n - k) as nat) {
                assert((entry_views(entries@.drop_last()) + seq![entries@.last()@]) + es
                    =~= entry_views(entries@.drop_last()) + (seq![entries@.last()@] + es));
            }
        }
    }
    proof {
        reveal_with_fuel(spec_decode_entries, 1);
        assert(entry_views(entries@) + Seq::<EntryModel>::empty() =~= entry_views(entries@));
    }
    if pr.remaining() != 0 {
        return Err(Error::Corruption);
    }
    Ok(entries)
}

/// Decode the record frame at `offset`.
///
/// Returns the record and the offset just past its frame, or `Corruption`
/// exactly when the spec-level decoder rejects the bytes: a short or
/// truncated frame, a CRC mismatch, an unknown entry kind, a malformed
/// entry, or trailing payload bytes.
pub fn decode_record(bytes: &[u8], offset: usize) -> (res: Result<(Record, usize), Error>)
    requires
        offset <= bytes@.len(),
    ensures
        match spec_decode_record(bytes@, offset as int) {
            Option::Some((rm, next)) => match res {
                Ok((rec, nx)) => rec@ == rm && nx == next,
                Err(_) => false,
            },
            Option::None => res == Err::<(Record, usize), Error>(Error::Corruption),
        },
{
    let blen: usize = bytes.len();
    let mut rd = BufReader::new(bytes, offset);
    if rd.remaining() < 8 {
        return Err(Error::Corruption);
    }
    let plen: u32 = rd.get_u32();
    let crc_stored: u32 = rd.get_u32();
    if (plen as usize) > rd.remaining() {
        return Err(Error::Corruption);
    }
    let payload: Vec<u8> = rd.get_slice(plen as usize);
    if crc32c(payload.as_slice()) != crc_stored {
        return Err(Error::Corruption);
    }
    let ghost p = payload@;
    assert(spec_decode_frame(bytes@, offset as int) == Some((p, offset + 8 + plen as int)));
    if payload.len() < 32 {
        return Err(Error::Corruption);
    }
    let mut pr = BufReader::new(payload.as_slice(), 0);
    let stream_id: u64 = pr.get_u64();
    let writer_epoch: u32 = pr.get_u32();
    let segment_epoch: u32 = pr.get_u32();
    let first_index: u32 = pr.get_u32();
    let acked_seq: Sequence = Sequence::unpack(pr.get_u64());
    let n: u32 = pr.get_u32();
    let entries: Vec<Entry> = match decode_entry_section(payload.as_slice(), n) {
        Ok(v) => v,
        Err(_) => {
            return Err(Error::Corruption);
        },
    };
    let rec = Record { stream_id, writer_epoch, segment_epoch, first_index, acked_seq, entries };
    let next: usize = offset + 8 + plen as usize;
    proof {
        assert(spec_decode_payload(p) == Some(rec@));
    }
    Ok((rec, next))
}

/// The views of a vector of records.
pub open spec fn record_views(rs: Seq<Record>) -> Seq<RecordModel> {
    rs.map_values(|r: Record| r@)
}

/// The concatenated frames of a record sequence.
pub open spec fn spec_encode_records(rs: Seq<RecordModel>) -> Seq<u8>
    decreases rs.len(),
{
    if rs.len() == 0 {
        Seq::empty()
    } else {
        spec_encode_record(rs[0]) + spec_encode_records(rs.drop_first())
    }
}

/// A recovery scan from offset `i`: the decoded records, in order, and the
/// offset where decoding stops (the end of the buffer, or the first
/// corrupted or truncated frame; records already read are retained).
pub open spec fn spec_scan(s: Seq<u8>, i: int) -> (Seq<RecordModel>, int)
    decreases s.len() - i,
    when 0 <= i <= s.len()
    via spec_scan_decreases
{
    match spec_decode_record(s, i) {
        Option::None => (Seq::empty(), i),
        Option::Some((r, j)) => {
            let rest = spec_scan(s, j);
            (seq![r] + rest.0, rest.1)
        },
    }
}

#[via_fn]
proof fn spec_scan_decreases(s: Seq<u8>, i: int) {
    if let Some((r, j)) = spec_decode_record(s, i) {
        assert(spec_le32_val(s.subrange(i, i + 4)) >= 0);
    }
}

/// A decoded frame always advances past its 8-byte header and stays in the
/// buffer.
pub proof fn lemma_decode_record_advances(s: Seq<u8>, i: int)
    requires
        spec_decode_record(s, i) is Some,
    ensures
        i + 8 <= spec_decode_record(s, i)->Some_0.1 <= s.len(),
{
    assert(spec_le32_val(s.subrange(i, i + 4)) >= 0);
}

/// Scan a log buffer from `offset`: decode frames until the buffer ends or a
/// frame is rejected. Returns the records read and the stop offset.
#[verifier::loop_isolation(false)]
pub fn recover_records(bytes: &[u8], offset: usize) -> (res: (Vec<Record>, usize))
    requires
        offset <= bytes@.len(),
    ensures
        record_views(res.0@) == spec_scan(bytes@, offset as int).0,
        res.1 == spec_scan(bytes@, offset as int).1,
{
    let blen: usize = bytes.len();
    let mut records: Vec<Record> = Vec::new();
    let mut cur: usize = offset;
    proof {
        assert(record_views(records@) + spec_scan(bytes@, cur as int).0 =~= spec_scan(
            bytes@,
            cur as int,
        ).0);
    }
    loop
        invariant
            offset <= cur <= blen,
            spec_scan(bytes@, offset as int).0 == record_views(records@) + spec_scan(
                bytes@,
                cur as int,
            ).0,
            spec_scan(bytes@, offset as int).1 == spec_scan(bytes@, cur as int).1,
        decreases blen - cur,
    {
        let step = decode_record(bytes, cur);
        match step {
            Ok((rec, nx)) => {
                proof {
                    lemma_decode_record_advances(bytes@, cur as int);
                }
                let ghost prev = cur as int;
                records.push(rec);
                cur = nx;
                proof {
                    assert(record_views(records@) =~= record_views(records@.drop_last()) + seq![
                        records@.last()@,
                    ]);
                    assert((record_views(records@.drop_last()) + seq![records@.last()@])
                        + spec_scan(bytes@, cur as int).0 =~= record_views(
                        records@.drop_last(),
                    ) + (seq![records@.last()@] + spec_scan(bytes@, cur as int).0));
                }
            },
            Err(_) => {
                proof {
                    assert(spec_scan(bytes@, cur as int).0 =~= Seq::<RecordModel>::empty());
                    assert(record_views(records@) + Seq::<RecordModel>::empty() =~= record_views(
                        records@,
                    ));
                }
                return (records, cur);
            },
        }
    }
}

/// Recovery at the byte level: scanning a buffer that
/// holds exactly the frames of well-formed records yields those records, and
/// consumes the whole buffer.
pub proof fn lemma_scan_of_encoded(s: Seq<u8>, i: int, rs: Seq<RecordModel>)
    requires
        forall|k: int| 0 <= k < rs.len() ==> wf_record(#[trigger] rs[k]),
        encoded_at(s, i, spec_encode_records(rs)),
        i + spec_encode_records(rs).len() == s.len(),
    ensures
        spec_scan(s, i) == (rs, s.len() as int),
    decreases rs.len(),
{
    if rs.len() == 0 {
        assert(spec_encode_records(rs).len() == 0);
        assert(spec_decode_record(s, i) is None);
        assert(rs =~= Seq::<RecordModel>::empty());
    } else {
        let head = spec_encode_record(rs[0]);
        let tail = spec_encode_records(rs.drop_first());
        lemma_encoded_at_split(s, i, head, tail);
        lemma_record_roundtrip(s, i, rs[0]);
        lemma_scan_of_encoded(s, i + head.len(), rs.drop_first());
        assert(seq![rs[0]] + rs.drop_first() =~= rs);
    }
}

} // verus!
