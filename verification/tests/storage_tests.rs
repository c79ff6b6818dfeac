//! End-to-end scenarios on the stream database.

use streamstore::streamdb::{StreamDB, StreamFlow};
use streamstore::types::{Entry, Error, Sequence};

fn event(bytes: &[u8]) -> Entry {
    Entry::Event { bytes: bytes.to_vec() }
}

#[test]
fn create_write_read() {
    let mut db = StreamDB::open_empty();
    let (ci, ai) = db
        .write(1, 1, 1, Sequence::new(0, 0), 1, vec![event(b"a"), event(b"b")])
        .expect("write");
    assert_eq!((ci, ai), (2, 2));
    let got = db
        .poll_stream(1, 1, 1, 10, true)
        .expect("poll")
        .expect("entries ready");
    assert_eq!(got.len(), 2);
    assert_eq!(got[0], (1, event(b"a")));
    assert_eq!(got[1], (2, event(b"b")));
}

#[test]
fn reader_cursor_advances_and_suspends_at_the_end() {
    let mut flow = StreamFlow::new_empty(1, Sequence::new(0, 0));
    let (rec, ci, ai) = flow
        .core
        .storage
        .write(1, 1, Sequence::new(0, 0), 1, vec![event(b"a"), event(b"b")])
        .expect("write");
    assert_eq!(rec.first_index, 1);
    assert_eq!((ci, ai), (2, 2));
    let db = StreamDB::open_empty();
    // Database readers come from `read`; here the cursor itself is driven
    // against the flow.
    drop(db);
    let mut reader = streamstore::reader::SegmentReader::new(1, 1, 1, true);
    let first = reader.poll(&mut flow).expect("poll").expect("ready");
    assert_eq!(first, vec![(1, event(b"a"))]);
    let second = reader.poll(&mut flow).expect("poll").expect("ready");
    assert_eq!(second, vec![(2, event(b"b"))]);
    // Nothing further: the reader suspends, registered for a wake.
    assert!(reader.poll(&mut flow).expect("poll").is_none());
}

#[test]
fn staled_writer_rejected_after_seal() {
    let mut db = StreamDB::open_empty();
    db.write(1, 1, 4, Sequence::new(0, 0), 1, vec![event(b"x")]).expect("write");
    let acked = db.seal(1, 1, 5).expect("seal");
    assert_eq!(acked, 1);
    // A staled writer below the promise mutates nothing.
    let err = db.write(1, 1, 4, Sequence::new(0, 0), 2, vec![event(b"y")]).unwrap_err();
    assert_eq!(err, Error::Staled);
    let got = db.poll_stream(1, 1, 1, 10, false).expect("poll").expect("ready");
    assert_eq!(got, vec![(1, event(b"x"))]);
    // The new epoch's writer may still fill the sealed segment.
    let (ci, ai) = db.write(1, 1, 5, Sequence::new(0, 0), 2, vec![event(b"y")]).expect("write");
    assert_eq!((ci, ai), (2, 2));
}

#[test]
fn hole_blocks_acknowledgement_until_filled() {
    let mut db = StreamDB::open_empty();
    // Indices 2 and 3 land first: nothing is acknowledged past the gap.
    let (ci, ai) = db
        .write(1, 1, 1, Sequence::new(0, 0), 2, vec![event(b"b"), event(b"c")])
        .expect("write");
    assert_eq!((ci, ai), (0, 0));
    // Filling index 1 advances the gap-free prefix to 3.
    let (ci, ai) = db.write(1, 1, 1, Sequence::new(0, 0), 1, vec![event(b"a")]).expect("write");
    assert_eq!((ci, ai), (3, 3));
}

#[test]
fn established_slots_are_immutable() {
    let mut db = StreamDB::open_empty();
    db.write(1, 1, 1, Sequence::new(0, 0), 1, vec![event(b"first")]).expect("write");
    // A later overlapping write wins only for previously absent slots.
    db.write(1, 1, 1, Sequence::new(0, 0), 1, vec![event(b"second"), event(b"tail")])
        .expect("write");
    let got = db.poll_stream(1, 1, 1, 10, true).expect("poll").expect("ready");
    assert_eq!(got, vec![(1, event(b"first")), (2, event(b"tail"))]);
}

#[test]
fn write_rejects_zero_first_index() {
    let mut db = StreamDB::open_empty();
    let err = db.write(1, 1, 1, Sequence::new(0, 0), 0, vec![event(b"a")]).unwrap_err();
    assert_eq!(err, Error::InvalidArgument);
}

#[test]
fn read_unknown_stream_is_not_found() {
    let db = StreamDB::open_empty();
    let err = match db.read(42, 1, 1, 10, true) {
        Ok(_) => panic!("unknown stream must not be readable"),
        Err(e) => e,
    };
    assert_eq!(err, Error::NotFound);
    let mut db2 = StreamDB::open_empty();
    assert_eq!(db2.poll_stream(42, 1, 1, 10, true).unwrap_err(), Error::NotFound);
}

#[test]
fn truncate_unacked_rejected() {
    let mut db = StreamDB::open_empty();
    db.write(1, 1, 1, Sequence::new(1, 0), 1, vec![event(b"a"), event(b"b")]).expect("write");
    // The stream's acknowledged sequence is (1, 0); keeping past it fails.
    let err = db.truncate(1, Sequence::new(1, 1)).unwrap_err();
    assert_eq!(err, Error::InvalidArgument);
}

#[test]
fn truncate_acked_succeeds_and_bars_old_reads() {
    let mut db = StreamDB::open_empty();
    db.write(1, 3, 3, Sequence::new(3, 2), 1, vec![event(b"a"), event(b"b")]).expect("write");
    db.truncate(1, Sequence::new(3, 2)).expect("truncate");
    // Reads below the watermark no longer succeed.
    let err = db.poll_stream(1, 3, 1, 10, false).unwrap_err();
    assert_eq!(err, Error::InvalidArgument);
    // Reads at or above the watermark still do.
    let got = db.poll_stream(1, 3, 2, 10, false).expect("poll").expect("ready");
    assert_eq!(got, vec![(2, event(b"b"))]);
}

#[test]
fn group_commit_one_sync_per_write_here() {
    let mut db = StreamDB::open_empty();
    assert_eq!(db.sync_count(), 0);
    db.write(1, 1, 1, Sequence::new(0, 0), 1, vec![event(b"a")]).expect("write");
    db.write(2, 1, 1, Sequence::new(0, 0), 1, vec![event(b"b")]).expect("write");
    let n = db.sync_count();
    assert!(n >= 1);
    assert!(n <= 2);
}

#[test]
fn recovery_rebuilds_streams_and_file_numbers() {
    let mut db = StreamDB::open_empty();
    // A hundred records across two streams.
    for i in 0..50u32 {
        db.write(1, 1, 1, Sequence::new(1, i), i + 1, vec![event(&[i as u8])])
            .expect("write");
        db.write(2, 1, 1, Sequence::new(1, i), i + 1, vec![event(&[i as u8])])
            .expect("write");
    }
    // Crash without clean shutdown: only the manifest and the log bytes
    // survive.
    let manifest = db.manifest_bytes().clone();
    let log_bytes = db.active_log_bytes().clone();
    let file_number = db.active_file_number();
    let files = vec![(file_number, log_bytes)];
    let recovered = StreamDB::recover(manifest.as_slice(), &files).expect("recover");
    assert!(recovered.next_file_number() > file_number);
    // Recovering the same bytes twice yields identical observable state.
    let again = StreamDB::recover(manifest.as_slice(), &files).expect("recover");
    assert_eq!(again.next_file_number(), recovered.next_file_number());
    // Every acknowledged entry is readable again, identically, both times.
    let mut check = recovered;
    let mut check2 = again;
    for stream in [1u64, 2u64] {
        let got = check.poll_stream(stream, 1, 1, 100, true).expect("poll").expect("ready");
        let got2 = check2.poll_stream(stream, 1, 1, 100, true).expect("poll").expect("ready");
        assert_eq!(got, got2);
        assert_eq!(got.len(), 50);
        for i in 0..50u32 {
            assert_eq!(got[i as usize], (i + 1, event(&[i as u8])));
        }
    }
}

#[test]
fn recovery_replays_to_identical_reads_after_partial_tear() {
    let mut db = StreamDB::open_empty();
    db.write(7, 2, 2, Sequence::new(0, 0), 1, vec![event(b"k")]).expect("write");
    let manifest = db.manifest_bytes().clone();
    let file_number = db.active_file_number();
    // Tear the tail: the record before it survives the scan.
    db.write(7, 2, 2, Sequence::new(0, 0), 2, vec![event(b"l")]).expect("write");
    let mut torn = db.active_log_bytes().clone();
    torn.pop();
    let log_bytes = torn;
    let files = vec![(file_number, log_bytes)];
    let mut recovered = StreamDB::recover(manifest.as_slice(), &files).expect("recover");
    let got = recovered.poll_stream(7, 2, 1, 10, true).expect("poll").expect("ready");
    assert_eq!(got, vec![(1, event(b"k"))]);
}
