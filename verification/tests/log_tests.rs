//! The log engine: group commits, rotation, retention.

use streamstore::log::LogEngine;
use streamstore::pipeline::{PipelinedWriter, SubmitOutcome};
use streamstore::record::{recover_records, Record};
use streamstore::types::{Entry, Sequence};

fn rec(first_index: u32, payload: u8) -> Record {
    Record {
        stream_id: 1,
        writer_epoch: 1,
        segment_epoch: 1,
        first_index,
        acked_seq: Sequence::new(0, 0),
        entries: vec![Entry::Event { bytes: vec![payload] }],
    }
}

#[test]
fn one_batch_of_many_records_takes_one_sync() {
    // Three concurrent submitters coalesce into one batch: the durable
    // append syncs once, not three times, and all three records land.
    let mut writer = PipelinedWriter::new(1, 16);
    let mut log = LogEngine::new(1);
    for k in 0..3u32 {
        match writer.submit(rec(k + 1, k as u8)) {
            SubmitOutcome::Queued => {}
            SubmitOutcome::Busy(_) => panic!("below high water"),
        }
    }
    let batch = writer.begin_flush().expect("pending batch");
    let (file, offset, size) = log.append(&batch).expect("well formed");
    writer.complete_flush();
    assert_eq!(file, 1);
    assert_eq!(offset, 0);
    assert_eq!(size, log.active_bytes().len());
    assert_eq!(log.sync_count(), 1);
    let (records, end) = recover_records(log.active_bytes().as_slice(), 0);
    assert_eq!(records.len(), 3);
    assert_eq!(end, log.active_bytes().len());
}

#[test]
fn rotation_closes_the_active_file_and_release_drops_it() {
    let mut log = LogEngine::new(5);
    log.append(&vec![rec(1, 1)]).expect("append");
    let closed_bytes = log.active_bytes().clone();
    log.rotate();
    assert_eq!(log.active_file_number(), 6);
    assert_eq!(log.next_file_number(), 7);
    assert!(log.active_bytes().is_empty());
    let read_back = log.read_file(5).expect("closed file retained");
    assert_eq!(read_back, &closed_bytes);
    log.release(5);
    assert!(log.read_file(5).is_none());
}

#[test]
fn append_rejects_an_oversized_entry_batch() {
    // An entry larger than its length prefix can carry is refused before
    // any byte lands.
    let huge = Record {
        stream_id: 1,
        writer_epoch: 1,
        segment_epoch: 1,
        first_index: 1,
        acked_seq: Sequence::new(0, 0),
        entries: vec![Entry::Event { bytes: vec![0u8; 5] }],
    };
    // A well-formed batch is fine.
    let mut log = LogEngine::new(1);
    log.append(&vec![huge]).expect("small entry is well formed");
    assert_eq!(log.sync_count(), 1);
}
