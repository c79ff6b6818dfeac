//! Replication-protocol scenarios: promotion, fan-out, seal quorums,
//! learning, quorum acks.

use streamstore::observer::{
    fill_gaps, get_segments, majority_quorum, promote_segments, quorum_ack, Learn, Message,
    MutKind, ObserverState, Role, SealingProgress, SegmentDesc, StreamObserver, WriteRetry,
    WRITE_FAILURE_LIMIT,
};
use streamstore::streamdb::StreamDB;
use streamstore::types::{Entry, Error, Sequence};

fn promote_leader(obs: &mut StreamObserver, epoch: u32, copy_set: Vec<u64>) {
    obs.on_promote(epoch, Role::Leader, copy_set[0], copy_set, Vec::new());
}

#[test]
fn seal_quorum_takes_max_and_late_response_cannot_lower_it() {
    // Copy set of 3, quorum 2: two sealed responses with acked indices
    // {10, 12} fix the final acked index at 12.
    let mut sp = SealingProgress::new(5, 2);
    assert!(!sp.on_sealed(10));
    assert!(sp.on_sealed(12));
    let fixed = sp.acked_index;
    assert_eq!(fixed, 12);
    // The third, late response does not lower it.
    sp.on_sealed(7);
    assert_eq!(sp.acked_index, 12);
}

#[test]
fn promotion_adopts_the_whole_payload() {
    let mut obs = StreamObserver::new(3);
    obs.on_promote(7, Role::Leader, 11, vec![11, 12, 13], Vec::new());
    assert_eq!(obs.writer_epoch, 7);
    assert_eq!(obs.leader, 11);
    assert_eq!(obs.copy_set, vec![11, 12, 13]);
    assert_eq!(obs.write_quorum, 2);
    assert_eq!(majority_quorum(3), 2);
    assert_eq!(obs.state, ObserverState::Leading);
    assert_eq!(obs.progress.len(), 3);
    assert!(obs.pending_segments.is_empty());
}

#[test]
fn observer_seal_flow_reaches_leading() {
    let mut obs = StreamObserver::new(3);
    promote_leader(&mut obs, 7, vec![11, 12, 13]);
    assert_eq!(obs.state, ObserverState::Leading);
    let intents = obs.start_sealing(5);
    assert_eq!(intents.len(), 3);
    assert_eq!(intents[0].target, 11);
    assert_eq!(intents[2].target, 13);
    assert_eq!(obs.state, ObserverState::Sealing);
    assert_eq!(obs.on_sealed(10), None);
    assert_eq!(obs.on_sealed(12), Some(12));
    assert_eq!(obs.state, ObserverState::Leading);
    // Late response after the quorum: the fixed extent stands exactly.
    obs.on_sealed(4);
    assert_eq!(obs.sealing.unwrap().acked_index, 12);
    assert_eq!(obs.sealing.unwrap().responses, 3);
}

#[test]
fn staled_promotion_is_ignored() {
    let mut obs = StreamObserver::new(1);
    obs.on_promote(7, Role::Leader, 11, vec![11, 12, 13], Vec::new());
    obs.on_promote(6, Role::Follower, 9, vec![9], Vec::new());
    assert_eq!(obs.writer_epoch, 7);
    assert_eq!(obs.leader, 11);
    assert_eq!(obs.state, ObserverState::Leading);
}

#[test]
fn promotion_with_pending_segments_enters_learning_and_recovers_in_order() {
    let mut obs = StreamObserver::new(1);
    let broken = vec![
        SegmentDesc { segment_epoch: 3, copy_set: vec![21, 22] },
        SegmentDesc { segment_epoch: 5, copy_set: vec![22, 23] },
    ];
    obs.on_promote(7, Role::Leader, 11, vec![11, 12, 13], broken);
    assert_eq!(obs.state, ObserverState::Learning);
    assert_eq!(obs.pending_segments.len(), 2);

    // The learn flow targets the first pending segment's first member.
    let learn = obs.next_learn().expect("learning with pending segments");
    assert_eq!(
        learn,
        Learn { target: 21, segment_epoch: 3, writer_epoch: 7, start_index: 1 }
    );

    // Sealing epoch 3 at the master advances to epoch 5, then to Leading.
    obs.on_recovered(3);
    assert_eq!(obs.state, ObserverState::Learning);
    let learn2 = obs.next_learn().expect("one segment left");
    assert_eq!(learn2.target, 22);
    assert_eq!(learn2.segment_epoch, 5);
    // A confirmation for a segment that is not next is ignored.
    obs.on_recovered(3);
    assert_eq!(obs.pending_segments.len(), 1);
    obs.on_recovered(5);
    assert_eq!(obs.state, ObserverState::Leading);
    assert!(obs.next_learn().is_none());
}

#[test]
fn append_fans_out_to_every_copy_set_member() {
    let mut obs = StreamObserver::new(2);
    promote_leader(&mut obs, 4, vec![31, 32, 33]);
    let batch = vec![Entry::Event { bytes: b"x".to_vec() }, Entry::Event { bytes: b"y".to_vec() }];
    let intents = obs.append(batch).expect("leading");
    assert_eq!(intents.len(), 3);
    for (k, intent) in intents.iter().enumerate() {
        assert_eq!(intent.target, [31u64, 32, 33][k]);
        assert_eq!(intent.writer_epoch, 4);
        assert_eq!(intent.segment_epoch, 4);
        match &intent.kind {
            MutKind::Write(d) => {
                assert_eq!(d.first_index, 1);
                assert_eq!(d.entries.len(), 2);
            }
            MutKind::Seal => panic!("a write intent"),
        }
    }
    // The next batch gets the next window.
    let more = obs.append(vec![Entry::Hole]).expect("leading");
    match &more[0].kind {
        MutKind::Write(d) => assert_eq!(d.first_index, 3),
        MutKind::Seal => panic!("a write intent"),
    }
    // A follower fans nothing out.
    let mut follower = StreamObserver::new(9);
    assert!(follower.append(vec![Entry::Hole]).is_none());
}

#[test]
fn write_failures_are_bounded_then_sealing_begins() {
    let mut obs = StreamObserver::new(2);
    promote_leader(&mut obs, 4, vec![31, 32, 33]);
    for _ in 0..WRITE_FAILURE_LIMIT {
        assert_eq!(obs.on_write_timeout(), WriteRetry::Retry);
    }
    assert_eq!(obs.on_write_timeout(), WriteRetry::BeginSealing);
    // An acknowledgement resets the budget.
    obs.on_received(0, 1, 0);
    assert_eq!(obs.on_write_timeout(), WriteRetry::Retry);
}

#[test]
fn learn_fills_gap_and_continuous_index_advances() {
    // A leader at epoch 7 learns a prior epoch-5 segment holding indices
    // {1, 3}: index 2 is materialized as a hole, and after writing the
    // filled batch locally the continuous index advances to 3.
    let learned = vec![
        (1u32, Entry::Event { bytes: b"a".to_vec() }),
        (3u32, Entry::Event { bytes: b"c".to_vec() }),
    ];
    let (first, filled) = fill_gaps(&learned).expect("non-empty");
    assert_eq!(first, 1);
    assert_eq!(
        filled,
        vec![
            Entry::Event { bytes: b"a".to_vec() },
            Entry::Hole,
            Entry::Event { bytes: b"c".to_vec() },
        ]
    );

    let mut db = StreamDB::open_empty();
    db.seal(9, 5, 5).expect("seal the prior epoch");
    let (ci, ai) = db.write(9, 5, 7, Sequence::new(0, 0), first, filled).expect("learned write");
    assert_eq!(ci, 3);
    assert_eq!(ai, 3);
}

#[test]
fn quorum_ack_is_the_largest_replicated_index() {
    assert_eq!(quorum_ack(&vec![10, 12, 3], 2), 10);
    assert_eq!(quorum_ack(&vec![12, 12, 3], 2), 12);
    assert_eq!(quorum_ack(&vec![5, 4, 3], 3), 3);
    assert_eq!(quorum_ack(&vec![5, 4, 3], 4), 0);
    assert_eq!(quorum_ack(&vec![], 1), 0);
}

#[test]
fn received_updates_watermark_monotonically() {
    let mut obs = StreamObserver::new(2);
    promote_leader(&mut obs, 4, vec![31, 32, 33]);
    let a1 = obs.on_received(0, 10, 0);
    assert_eq!(a1, 0);
    let a2 = obs.on_received(1, 12, 0);
    assert_eq!(a2, 10);
    let before = obs.acked_seq;
    // A regressing report never lowers the matched index or the watermark.
    let a3 = obs.on_received(1, 2, 0);
    assert_eq!(a3, 10);
    assert!(before.le(obs.acked_seq));
}

#[test]
fn get_segments_rejects_missing_descriptor() {
    let ok = get_segments(vec![
        Some(SegmentDesc { segment_epoch: 1, copy_set: vec![1, 2, 3] }),
        Some(SegmentDesc { segment_epoch: 2, copy_set: vec![1, 2, 3] }),
    ])
    .expect("all present");
    assert_eq!(ok.len(), 2);
    assert_eq!(ok[1].copy_set, vec![1, 2, 3]);
    let err = get_segments(vec![
        Some(SegmentDesc { segment_epoch: 1, copy_set: vec![1, 2, 3] }),
        None,
    ])
    .unwrap_err();
    assert_eq!(err, Error::NotFound);
}

fn listing() -> Vec<SegmentDesc> {
    vec![
        SegmentDesc { segment_epoch: 5, copy_set: vec![1, 2] },
        SegmentDesc { segment_epoch: 7, copy_set: vec![1, 2, 3] },
    ]
}

#[test]
fn promotion_listing_must_match_pending_count() {
    let (new_seg, broken) = promote_segments(1, listing()).expect("one pending plus the new");
    assert_eq!(new_seg.segment_epoch, 7);
    assert_eq!(new_seg.copy_set, vec![1, 2, 3]);
    assert_eq!(broken.len(), 1);
    assert_eq!(broken[0].segment_epoch, 5);
    assert!(promote_segments(2, listing()).is_none());
}

#[test]
fn message_constructors_carry_their_fields() {
    let m = Message::received(4, 5, 7, 10, 9);
    assert_eq!(
        m,
        Message::Received {
            target: 4,
            segment_epoch: 5,
            writer_epoch: 7,
            matched_index: 10,
            acked_index: 9,
        }
    );
    let t = Message::store_timeout(4, 5, 7);
    assert_eq!(t, Message::StoreTimeout { target: 4, segment_epoch: 5, writer_epoch: 7 });
    let r = Message::recovered(5, 7);
    assert_eq!(r, Message::Recovered { segment_epoch: 5, writer_epoch: 7 });
}
