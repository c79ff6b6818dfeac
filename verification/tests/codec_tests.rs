//! Byte-level tests: the little-endian codec, CRC-32C, and record frames.

use streamstore::codec::{BufReader, BufWriter};
use streamstore::crc::crc32c;
use streamstore::record::{decode_record, encode_record, recover_records, Record};
use streamstore::types::{Entry, Sequence};

#[test]
fn writer_reader_roundtrip_fixed_width() {
    let mut w = BufWriter::new();
    w.put_u8(0xAB);
    w.put_u32(0xDEAD_BEEF);
    w.put_u64(0x0123_4567_89AB_CDEF);
    let bytes = w.into_bytes();
    assert_eq!(bytes.len(), 13);
    let mut r = BufReader::new(bytes.as_slice(), 0);
    assert_eq!(r.get_u8(), 0xAB);
    assert_eq!(r.get_u32(), 0xDEAD_BEEF);
    assert_eq!(r.get_u64(), 0x0123_4567_89AB_CDEF);
}

#[test]
fn little_endian_layout_is_exact() {
    let mut w = BufWriter::new();
    w.put_u32(0x0403_0201);
    let bytes = w.into_bytes();
    assert_eq!(bytes, vec![0x01, 0x02, 0x03, 0x04]);
}

#[test]
fn length_prefixed_slice_roundtrip() {
    let mut w = BufWriter::new();
    w.put_length_prefixed_slice(&[9, 8, 7]);
    let bytes = w.into_bytes();
    assert_eq!(bytes, vec![3, 0, 0, 0, 9, 8, 7]);
    let mut r = BufReader::new(bytes.as_slice(), 0);
    let s = r.get_length_prefixed_slice().expect("slice");
    assert_eq!(s, vec![9, 8, 7]);
}

#[test]
fn length_prefixed_slice_size_counts_prefix() {
    assert_eq!(BufWriter::length_prefixed_slice_size(&[1, 2, 3]), 7);
    assert_eq!(BufWriter::length_prefixed_slice_size(&[]), 4);
}

#[test]
fn writer_skip_reserves_zeroes_and_reader_skip_advances() {
    let mut w = BufWriter::new();
    w.skip(4);
    w.put_u8(7);
    assert_eq!(w.offset_from(0), 5);
    assert_eq!(w.offset_from(4), 1);
    let bytes = w.into_bytes();
    assert_eq!(bytes, vec![0, 0, 0, 0, 7]);
    let mut r = BufReader::new(bytes.as_slice(), 0);
    r.skip(4);
    assert_eq!(r.remaining(), 1);
    assert_eq!(r.get_u8(), 7);
}

#[test]
fn crc32c_known_vector() {
    // The classic check value for CRC-32C over the digits one to nine.
    assert_eq!(crc32c(b"123456789"), 0xE306_9283);
}

#[test]
fn crc32c_empty_is_zero() {
    assert_eq!(crc32c(b""), 0);
}

fn sample_record() -> Record {
    Record {
        stream_id: 7,
        writer_epoch: 3,
        segment_epoch: 2,
        first_index: 1,
        acked_seq: Sequence::new(2, 5),
        entries: vec![
            Entry::Event { bytes: vec![1, 2, 3] },
            Entry::Hole,
            Entry::Bridge { epoch: 9 },
        ],
    }
}

#[test]
fn record_frame_roundtrip() {
    let rec = sample_record();
    let mut w = BufWriter::new();
    encode_record(&rec, &mut w).expect("well formed");
    let bytes = w.into_bytes();
    let (decoded, next) = decode_record(bytes.as_slice(), 0).expect("decodes");
    assert_eq!(next, bytes.len());
    assert_eq!(decoded.stream_id, rec.stream_id);
    assert_eq!(decoded.writer_epoch, rec.writer_epoch);
    assert_eq!(decoded.segment_epoch, rec.segment_epoch);
    assert_eq!(decoded.first_index, rec.first_index);
    assert_eq!(decoded.acked_seq, rec.acked_seq);
    assert_eq!(decoded.entries, rec.entries);

    // Re-encoding the decoded record yields the identical bytes.
    let mut w2 = BufWriter::new();
    encode_record(&decoded, &mut w2).expect("well formed");
    assert_eq!(w2.into_bytes(), bytes);
}

#[test]
fn corrupted_frame_is_rejected() {
    let rec = sample_record();
    let mut w = BufWriter::new();
    encode_record(&rec, &mut w).expect("well formed");
    let mut bytes = w.into_bytes();
    let last = bytes.len() - 1;
    bytes[last] ^= 0xFF;
    assert!(decode_record(bytes.as_slice(), 0).is_err());
}

#[test]
fn truncated_frame_is_rejected() {
    let rec = sample_record();
    let mut w = BufWriter::new();
    encode_record(&rec, &mut w).expect("well formed");
    let mut bytes = w.into_bytes();
    bytes.pop();
    assert!(decode_record(bytes.as_slice(), 0).is_err());
}

#[test]
fn recovery_scan_reads_all_frames_and_stops_at_corruption() {
    let mut w = BufWriter::new();
    let rec = sample_record();
    encode_record(&rec, &mut w).expect("well formed");
    encode_record(&rec, &mut w).expect("well formed");
    let clean = w.into_bytes();
    let (records, end) = recover_records(clean.as_slice(), 0);
    assert_eq!(records.len(), 2);
    assert_eq!(end, clean.len());

    // A torn tail keeps the records already read.
    let mut torn = clean.clone();
    let boundary = clean.len() / 2;
    torn.truncate(clean.len() - 3);
    let (partial, stop) = recover_records(torn.as_slice(), 0);
    assert_eq!(partial.len(), 1);
    assert_eq!(stop, boundary);
}

#[test]
fn sequence_packs_lexicographically() {
    let a = Sequence::new(1, 0xFFFF_FFFF);
    let b = Sequence::new(2, 0);
    assert!(a.le(b));
    assert!(a.pack() < b.pack());
    assert_eq!(Sequence::unpack(a.pack()), a);
    assert_eq!(Sequence::unpack(b.pack()), b);
}
