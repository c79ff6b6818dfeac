//! Manifest edits: round trips, recovery, and idempotent replay.

use streamstore::codec::BufWriter;
use streamstore::manifest::{
    decode_edit, encode_edit, ReplicaMeta, StreamMeta, Version, VersionEdit, VersionSet,
};
use streamstore::pipeline::{PipelinedWriter, SubmitOutcome};
use streamstore::record::Record;
use streamstore::types::{Entry, Sequence};

fn sample_meta() -> StreamMeta {
    StreamMeta {
        stream_id: 4,
        acked_seq: Sequence::new(3, 17).pack(),
        initial_seq: Sequence::new(3, 9).pack(),
        replicas: vec![
            ReplicaMeta { epoch: 1, promised_epoch: Some(3), set_files: vec![10, 11] },
            ReplicaMeta { epoch: 2, promised_epoch: None, set_files: vec![] },
        ],
    }
}

#[test]
fn edit_frames_roundtrip() {
    let edits = vec![
        VersionEdit::StreamAdd { stream_id: 9 },
        VersionEdit::StreamTruncate { meta: sample_meta() },
        VersionEdit::FileAdd { file_number: 12 },
        VersionEdit::FileDelete { file_number: 12 },
        VersionEdit::NextFileNumber { n: 99 },
    ];
    for edit in &edits {
        let mut w = BufWriter::new();
        encode_edit(edit, &mut w).expect("well formed");
        let bytes = w.into_bytes();
        let (decoded, next) = decode_edit(bytes.as_slice(), 0).expect("decodes");
        assert_eq!(next, bytes.len());
        assert_eq!(&decoded, edit);
    }
}

#[test]
fn corrupted_edit_is_rejected() {
    let mut w = BufWriter::new();
    encode_edit(&VersionEdit::FileAdd { file_number: 12 }, &mut w).expect("well formed");
    let mut bytes = w.into_bytes();
    bytes[9] ^= 0x55;
    assert!(decode_edit(bytes.as_slice(), 0).is_err());
}

#[test]
fn version_set_replays_to_current() {
    let mut vs = VersionSet::new();
    vs.install_edit(&VersionEdit::StreamAdd { stream_id: 4 }).expect("install");
    vs.install_edit(&VersionEdit::FileAdd { file_number: 7 }).expect("install");
    vs.install_edit(&VersionEdit::StreamTruncate { meta: sample_meta() }).expect("install");
    vs.install_edit(&VersionEdit::FileDelete { file_number: 7 }).expect("install");
    vs.install_edit(&VersionEdit::NextFileNumber { n: 8 }).expect("install");
    let manifest = vs.manifest_bytes().clone();

    let recovered = VersionSet::recover(manifest.as_slice()).expect("recover");
    let v: Version = recovered.current();
    assert!(!v.contains_file(7));
    assert_eq!(v.next_file_number(), 8);
    let meta = v.stream_meta_of(4).expect("stream known");
    assert_eq!(meta.initial_seq, Sequence::new(3, 9).pack());
    assert_eq!(meta.replicas.len(), 2);

    // Replaying the identical manifest a second time yields the identical
    // version.
    let again = VersionSet::recover(manifest.as_slice()).expect("recover");
    let v2 = again.current();
    assert_eq!(v2.next_file_number(), v.next_file_number());
    assert_eq!(v2.contains_file(7), v.contains_file(7));
    let meta2 = v2.stream_meta_of(4).expect("stream known");
    assert_eq!(meta2, meta);
}

#[test]
fn torn_manifest_is_fatal() {
    let mut vs = VersionSet::new();
    vs.install_edit(&VersionEdit::FileAdd { file_number: 7 }).expect("install");
    let mut manifest = vs.manifest_bytes().clone();
    manifest.pop();
    assert!(VersionSet::recover(manifest.as_slice()).is_err());
}

fn tiny_record(stream_id: u64, first_index: u32) -> Record {
    Record {
        stream_id,
        writer_epoch: 1,
        segment_epoch: 1,
        first_index,
        acked_seq: Sequence::new(0, 0),
        entries: vec![Entry::Event { bytes: vec![7] }],
    }
}

#[test]
fn pipeline_coalesces_pending_into_one_batch() {
    // Three submissions while a flush is pending end in one batch: the
    // group-commit shape, one sync for many records.
    let mut w = PipelinedWriter::new(1, 16);
    for k in 0..3u32 {
        match w.submit(tiny_record(1, k + 1)) {
            SubmitOutcome::Queued => {},
            SubmitOutcome::Busy(_) => panic!("queue below high water"),
        }
    }
    let batch = w.begin_flush().expect("batch pending");
    assert_eq!(batch.len(), 3);
    // While in flight, nothing else can flush.
    assert!(w.begin_flush().is_none());
    let wakes = w.complete_flush();
    assert_eq!(wakes, 0);
}

#[test]
fn pipeline_back_pressure_returns_record() {
    let mut w = PipelinedWriter::new(1, 1);
    match w.submit(tiny_record(1, 1)) {
        SubmitOutcome::Queued => {},
        SubmitOutcome::Busy(_) => panic!("first submit fits"),
    }
    let _batch = w.begin_flush().expect("one pending");
    match w.submit(tiny_record(1, 2)) {
        SubmitOutcome::Queued => {},
        SubmitOutcome::Busy(_) => panic!("empty queue accepts even in flight"),
    }
    // At the high-water mark with a batch in flight, the record comes back.
    match w.submit(tiny_record(1, 3)) {
        SubmitOutcome::Queued => panic!("expected back-pressure"),
        SubmitOutcome::Busy(r) => assert_eq!(r.first_index, 3),
    }
    w.complete_flush();
    // After completion the queue drains again.
    match w.submit(tiny_record(1, 3)) {
        SubmitOutcome::Queued => {},
        SubmitOutcome::Busy(_) => panic!("flush completed"),
    }
}

#[test]
fn reader_wakes_are_collected_on_completion() {
    let mut w = PipelinedWriter::new(1, 16);
    w.register_reading_waiter();
    w.register_reading_waiter();
    match w.submit(tiny_record(1, 1)) {
        SubmitOutcome::Queued => {},
        SubmitOutcome::Busy(_) => panic!("fits"),
    }
    let _batch = w.begin_flush().expect("pending");
    assert_eq!(w.complete_flush(), 2);
}
