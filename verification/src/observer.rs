//! The per-stream observer: the replication state machine.
//!
//! An observer follows heartbeats until the master promotes it, recovers
//! broken prior segments by learning from peers, seals old epochs, and
//! leads writes by fanning batches out to its copy set. Everything here is
//! a decision on plain values: the host performs the transport operations
//! and feeds the outcomes back as messages.

use vstd::prelude::*;

use crate::types::{Entry, EntryModel, Sequence};

verus! {

/// The role the master assigns.
#[derive(Clone, Copy, Debug, PartialEq, Eq, Structural)]
pub enum Role {
    Leader,
    Follower,
}

/// The observer's lifecycle state.
#[derive(Clone, Copy, Debug, PartialEq, Eq, Structural)]
pub enum ObserverState {
    /// Passive: heartbeats only.
    Following,
    /// Catching up broken prior segments before leading.
    Learning,
    /// Accepting client appends and fanning them out.
    Leading,
    /// Sealing a segment at a higher epoch before promoting.
    Sealing,
}

/// One replica's replication progress, as the leader tracks it.
#[derive(Clone, Copy, Debug, PartialEq, Eq, Structural)]
pub struct ReplicaProgress {
    /// The highest index the replica has matched.
    pub matched_index: u32,
    /// The highest index the replica has acknowledged.
    pub acked_index: u32,
}

/// How many replicas of `ms` have matched at least `c`.
pub open spec fn spec_count_at_least(ms: Seq<u32>, c: u32) -> int
    decreases ms.len(),
{
    if ms.len() == 0 {
        0int
    } else {
        (if ms[0] >= c {
            1int
        } else {
            0int
        }) + spec_count_at_least(ms.drop_first(), c)
    }
}

/// The quorum-acknowledged index: the largest matched index replicated on
/// at least `quorum` members (0 when no index is).
pub open spec fn spec_is_quorum_ack(ms: Seq<u32>, quorum: usize, a: u32) -> bool {
    &&& (a == 0 || exists|i: int| 0 <= i < ms.len() && #[trigger] ms[i] == a)
    &&& (a == 0 || spec_count_at_least(ms, a) >= quorum)
    &&& forall|i: int|
        0 <= i < ms.len() && #[trigger] ms[i] > a ==> spec_count_at_least(ms, ms[i]) < quorum
}

/// Compute the quorum-acknowledged index of a matched vector.
#[verifier::loop_isolation(false)]
pub fn quorum_ack(ms: &Vec<u32>, quorum: usize) -> (a: u32)
    ensures
        spec_is_quorum_ack(ms@, quorum, a),
{
    let mut best: u32 = 0;
    let mut i: usize = 0;
    while i < ms.len()
        invariant
            i <= ms@.len(),
            best == 0 || exists|k: int| 0 <= k < ms@.len() && #[trigger] ms@[k] == best,
            best == 0 || spec_count_at_least(ms@, best) >= quorum,
            forall|k: int|
                0 <= k < i && #[trigger] ms@[k] > best ==> spec_count_at_least(ms@, ms@[k])
                    < quorum,
        decreases ms@.len() - i,
    {
        let candidate: u32 = ms[i];
        if candidate > best {
            let count: usize = count_at_least(ms, candidate);
            if count >= quorum {
                proof {
                    assert forall|k: int|
                        0 <= k < i && #[trigger] ms@[k] > candidate implies spec_count_at_least(
                        ms@,
                        ms@[k],
                    ) < quorum by {
                    }
                }
                best = candidate;
            } else {
                proof {
                    assert(ms@[i as int] == candidate);
                }
            }
        }
        i = i + 1;
    }
    best
}

/// Count the replicas that have matched at least `c`.
#[verifier::loop_isolation(false)]
fn count_at_least(ms: &Vec<u32>, c: u32) -> (n: usize)
    ensures
        n == spec_count_at_least(ms@, c),
        n <= ms@.len(),
{
    let mut n: usize = 0;
    let mut i: usize = 0;
    proof {
        lemma_count_prefix(ms@, c, 0);
    }
    while i < ms.len()
        invariant
            i <= ms@.len(),
            n <= i,
            n == spec_count_at_least(ms@.take(i as int), c),
        decreases ms@.len() - i,
    {
        if ms[i] >= c {
            n = n + 1;
        }
        proof {
            lemma_count_take_step(ms@, c, i as int);
        }
        i = i + 1;
    }
    proof {
        assert(ms@.take(ms@.len() as int) =~= ms@);
    }
    n
}

proof fn lemma_count_prefix(ms: Seq<u32>, c: u32, i: int) {
    assert(ms.take(0) =~= Seq::<u32>::empty());
}

/// Extending the prefix by one element adds its contribution.
proof fn lemma_count_take_step(ms: Seq<u32>, c: u32, i: int)
    requires
        0 <= i < ms.len(),
    ensures
        spec_count_at_least(ms.take(i + 1), c) == spec_count_at_least(ms.take(i), c) + (if ms[i]
            >= c {
            1int
        } else {
            0int
        }),
    decreases i,
{
    if i == 0 {
        assert(ms.take(0) =~= Seq::<u32>::empty());
        assert(ms.take(1).drop_first() =~= Seq::<u32>::empty());
        assert(ms.take(1)[0] == ms[0]);
    } else {
        lemma_count_take_step(ms.drop_first(), c, i - 1);
        assert(ms.take(i + 1).drop_first() =~= ms.drop_first().take(i));
        assert(ms.take(i).drop_first() =~= ms.drop_first().take(i - 1));
        assert(ms.take(i + 1)[0] == ms[0]);
        assert(ms.take(i)[0] == ms[0]);
        assert(ms.drop_first()[i - 1] == ms[i]);
    }
}

/// Progress of one seal: responses collected so far and the largest
/// acknowledged index any responder reported.
#[derive(Clone, Copy, Debug, PartialEq, Eq, Structural)]
pub struct SealingProgress {
    pub segment_epoch: u32,
    pub responses: usize,
    pub acked_index: u32,
    pub quorum: usize,
}

impl SealingProgress {
    /// A fresh seal of `segment_epoch` waiting for `quorum` responses.
    pub fn new(segment_epoch: u32, quorum: usize) -> (r: SealingProgress)
        ensures
            r == (SealingProgress { segment_epoch, responses: 0, acked_index: 0, quorum }),
    {
        SealingProgress { segment_epoch, responses: 0, acked_index: 0, quorum }
    }

    /// Whether a quorum has responded, fixing the segment's final extent.
    pub open spec fn spec_done(self) -> bool {
        self.responses >= self.quorum
    }

    /// Record one `sealed` response.
    ///
    /// The collected acknowledged index is the maximum over responders, so
    /// a late response never lowers it: once a quorum has fixed the extent,
    /// further responses can only confirm or raise the floor, never sink
    /// it.
    pub fn on_sealed(&mut self, acked_index: u32) -> (done: bool)
        ensures
            final(self).segment_epoch == old(self).segment_epoch,
            final(self).quorum == old(self).quorum,
            final(self).responses == (if old(self).responses < usize::MAX {
                old(self).responses + 1
            } else {
                old(self).responses as int
            }),
            final(self).acked_index == (if acked_index > old(self).acked_index {
                acked_index
            } else {
                old(self).acked_index
            }),
            old(self).acked_index <= final(self).acked_index,
            done == final(self).spec_done(),
            old(self).spec_done() ==> final(self).spec_done(),
    {
        if self.responses < usize::MAX {
            self.responses = self.responses + 1;
        }
        if acked_index > self.acked_index {
            self.acked_index = acked_index;
        }
        self.responses >= self.quorum
    }
}

/// Turn a learned batch into the contiguous write that fills its gaps:
/// entries are laid out from the first learned index, with holes
/// materialized for the indices the peer did not have, so the continuous
/// index can advance past them.
#[verifier::loop_isolation(false)]
pub fn fill_gaps(learned: &Vec<(u32, Entry)>) -> (res: Option<(u32, Vec<Entry>)>)
    requires
        forall|a: int, b: int|
            0 <= a < b < learned@.len() ==> #[trigger] learned@[a].0 < #[trigger] learned@[b].0,
        forall|i: int| 0 <= i < learned@.len() ==> (#[trigger] learned@[i]).0 >= 1,
    ensures
        match res {
            Option::Some((first, filled)) => {
                &&& learned@.len() >= 1
                &&& first == learned@[0].0
                &&& filled@.len() == learned@.last().0 - first + 1
                &&& forall|i: int|
                    0 <= i < learned@.len() ==> #[trigger] filled@[learned@[i].0 - first]@
                        == learned@[i].1@
                &&& forall|j: int|
                    0 <= j < filled@.len() && !(exists|i: int|
                        0 <= i < learned@.len() && #[trigger] learned@[i].0 - first == j)
                        ==> #[trigger] filled@[j]@ == EntryModel::Hole
            },
            Option::None => learned@.len() == 0,
        },
{
    if learned.len() == 0 {
        return None;
    }
    let first: u32 = learned[0].0;
    let mut filled: Vec<Entry> = Vec::new();
    let mut k: usize = 0;
    while k < learned.len()
        invariant
            k <= learned@.len(),
            k == 0 ==> filled@.len() == 0,
            k >= 1 ==> filled@.len() == learned@[k - 1].0 - first + 1,
            forall|i: int|
                0 <= i < k ==> #[trigger] filled@[learned@[i].0 - first]@ == learned@[i].1@,
            forall|j: int|
                0 <= j < filled@.len() && !(exists|i: int|
                    0 <= i < k && #[trigger] learned@[i].0 - first == j) ==> #[trigger] filled@[
                    j]@ == EntryModel::Hole,
        decreases learned@.len() - k,
    {
        let target: u32 = learned[k].0;
        proof {
            if k >= 1 {
                assert(learned@[k - 1].0 < learned@[k as int].0);
            }
            assert forall|i: int| 0 <= i < k implies #[trigger] learned@[i].0 - first
                < filled@.len() by {
                if i < k - 1 {
                    assert(learned@[i].0 < learned@[k - 1].0);
                }
            }
        }
        while filled.len() < (target - first) as usize
            invariant
                filled@.len() <= target - first,
                forall|i: int|
                    0 <= i < k ==> #[trigger] learned@[i].0 - first < filled@.len(),
                forall|i: int|
                    0 <= i < k ==> #[trigger] filled@[learned@[i].0 - first]@ == learned@[i].1@,
                forall|j: int|
                    0 <= j < filled@.len() && !(exists|i: int|
                        0 <= i < k && #[trigger] learned@[i].0 - first == j)
                        ==> #[trigger] filled@[j]@ == EntryModel::Hole,
            decreases (target - first) as int - filled@.len(),
        {
            filled.push(Entry::Hole);
        }
        filled.push(learned[k].1.clone());
        proof {
            assert(filled@[target - first]@ == learned@[k as int].1@);
            assert forall|j: int|
                0 <= j < filled@.len() && !(exists|i: int|
                    0 <= i < k + 1 && #[trigger] learned@[i].0 - first == j)
                    implies #[trigger] filled@[j]@ == EntryModel::Hole by {
                if j < filled@.len() - 1 {
                    if exists|i: int| 0 <= i < k && #[trigger] learned@[i].0 - first == j {
                        let i = choose|i: int|
                            0 <= i < k && #[trigger] learned@[i].0 - first == j;
                        assert(learned@[i].0 - first == j);
                    }
                }
            }
        }
        k = k + 1;
    }
    Some((first, filled))
}

/// A write detail carried by a mutate intent.
#[derive(Debug, PartialEq, Eq)]
pub struct WriteDetail {
    pub acked_seq: Sequence,
    pub first_index: u32,
    pub entries: Vec<Entry>,
}

/// What a mutate intent does at the replica.
#[derive(Debug, PartialEq, Eq)]
pub enum MutKind {
    Seal,
    Write(WriteDetail),
}

/// An intent the scheduler turns into one transport operation.
#[derive(Debug, PartialEq, Eq)]
pub struct Mutate {
    pub target: u64,
    pub writer_epoch: u32,
    pub segment_epoch: u32,
    pub kind: MutKind,
}

/// What a leader does after a failed write.
#[derive(Clone, Copy, Debug, PartialEq, Eq, Structural)]
pub enum WriteRetry {
    /// Retry the same batch on the same replica, with host-side back-off.
    Retry,
    /// The failure budget is spent: give up and seal the segment.
    BeginSealing,
}

/// A catch-up intent: stream entries of a prior segment from a peer.
#[derive(Clone, Copy, Debug, PartialEq, Eq, Structural)]
pub struct Learn {
    pub target: u64,
    pub segment_epoch: u32,
    pub writer_epoch: u32,
    pub start_index: u32,
}

/// A message fed back into the state machine. Every transport outcome —
/// success or failure — becomes exactly one of these; nothing throws.
#[derive(Debug, PartialEq, Eq)]
pub enum Message {
    /// A replica acknowledged a write.
    Received { target: u64, segment_epoch: u32, writer_epoch: u32, matched_index: u32, acked_index: u32 },
    /// A replica sealed a segment and reported its acknowledged extent.
    Sealed { target: u64, segment_epoch: u32, writer_epoch: u32, acked_index: u32 },
    /// A peer streamed one learned batch; an empty batch ends the stream.
    Learned { target: u64, segment_epoch: u32, writer_epoch: u32, entries: Vec<(u32, Entry)> },
    /// A store-level operation failed.
    StoreTimeout { target: u64, segment_epoch: u32, writer_epoch: u32 },
    /// A write failed; its range is retried with back-off.
    WriteTimeout { target: u64, segment_epoch: u32, writer_epoch: u32, first_index: u32 },
    /// The master confirmed a segment seal.
    Recovered { segment_epoch: u32, writer_epoch: u32 },
    /// The master itself could not be reached.
    ConClusterTimeout { segment_epoch: u32, writer_epoch: u32 },
}

impl Message {
    pub fn received(target: u64, segment_epoch: u32, writer_epoch: u32, matched_index: u32, acked_index: u32) -> (r: Message)
        ensures
            r == (Message::Received { target, segment_epoch, writer_epoch, matched_index, acked_index }),
    {
        Message::Received { target, segment_epoch, writer_epoch, matched_index, acked_index }
    }

    pub fn sealed(target: u64, segment_epoch: u32, writer_epoch: u32, acked_index: u32) -> (r: Message)
        ensures
            r == (Message::Sealed { target, segment_epoch, writer_epoch, acked_index }),
    {
        Message::Sealed { target, segment_epoch, writer_epoch, acked_index }
    }

    pub fn learned(target: u64, segment_epoch: u32, writer_epoch: u32, entries: Vec<(u32, Entry)>) -> (r: Message)
        ensures
            r == (Message::Learned { target, segment_epoch, writer_epoch, entries }),
    {
        Message::Learned { target, segment_epoch, writer_epoch, entries }
    }

    pub fn store_timeout(target: u64, segment_epoch: u32, writer_epoch: u32) -> (r: Message)
        ensures
            r == (Message::StoreTimeout { target, segment_epoch, writer_epoch }),
    {
        Message::StoreTimeout { target, segment_epoch, writer_epoch }
    }

    pub fn write_timeout(target: u64, segment_epoch: u32, writer_epoch: u32, first_index: u32) -> (r: Message)
        ensures
            r == (Message::WriteTimeout { target, segment_epoch, writer_epoch, first_index }),
    {
        Message::WriteTimeout { target, segment_epoch, writer_epoch, first_index }
    }

    pub fn recovered(segment_epoch: u32, writer_epoch: u32) -> (r: Message)
        ensures
            r == (Message::Recovered { segment_epoch, writer_epoch }),
    {
        Message::Recovered { segment_epoch, writer_epoch }
    }

    pub fn con_cluster_timeout(segment_epoch: u32, writer_epoch: u32) -> (r: Message)
        ensures
            r == (Message::ConClusterTimeout { segment_epoch, writer_epoch }),
    {
        Message::ConClusterTimeout { segment_epoch, writer_epoch }
    }
}

/// What the observer reports to the master on each heartbeat.
#[derive(Clone, Copy, Debug, PartialEq, Eq, Structural)]
pub struct ObserverMeta {
    pub observer_id: u64,
    pub writer_epoch: u32,
    pub state: ObserverState,
    pub acked_seq: Sequence,
}

/// A segment descriptor the master hands out.
#[derive(Debug, PartialEq, Eq)]
pub struct SegmentDesc {
    pub segment_epoch: u32,
    /// The members holding this segment's replicas.
    pub copy_set: Vec<u64>,
}

/// A command from the master.
#[derive(Debug, PartialEq, Eq)]
pub enum Command {
    /// Nothing to do.
    Nop,
    /// Become leader (or follower) at `epoch`; `pending_epochs` are broken
    /// prior segments to learn first.
    Promote { epoch: u32, role: Role, leader: u64, pending_epochs: Vec<u32> },
}

/// The per-stream observer state machine.
pub struct StreamObserver {
    pub observer_id: u64,
    pub writer_epoch: u32,
    pub role: Role,
    pub state: ObserverState,
    pub acked_seq: Sequence,
    /// The leader the master named for the current epoch.
    pub leader: u64,
    /// The copy set of the current epoch's segment, as the master listed it.
    pub copy_set: Vec<u64>,
    /// Matched and acknowledged progress, one slot per copy-set member.
    pub progress: Vec<ReplicaProgress>,
    pub write_quorum: usize,
    /// Broken prior segments still to learn, in the master's order.
    pub pending_segments: Vec<SegmentDesc>,
    /// The first index the next client batch will be assigned.
    pub next_index: u32,
    /// Consecutive write failures since the last acknowledgement.
    pub write_failures: u32,
    /// The seal in progress, if any.
    pub sealing: Option<SealingProgress>,
}

/// Consecutive write failures a leader tolerates before sealing.
pub const WRITE_FAILURE_LIMIT: u32 = 5;

/// The majority write quorum of a copy set.
pub open spec fn spec_majority(n: int) -> int {
    n / 2 + 1
}

/// Compute the majority write quorum of a copy set of `n` members.
pub fn majority_quorum(n: usize) -> (r: usize)
    ensures
        r == spec_majority(n as int),
{
    n / 2 + 1
}

impl StreamObserver {
    /// A fresh observer, following.
    pub fn new(observer_id: u64) -> (r: StreamObserver)
        ensures
            r.state == ObserverState::Following,
            r.writer_epoch == 0,
            r.acked_seq == (Sequence { epoch: 0, index: 0 }),
            r.observer_id == observer_id,
            r.pending_segments@ == Seq::<SegmentDesc>::empty(),
            r.copy_set@ == Seq::<u64>::empty(),
            r.next_index == 1,
            r.write_failures == 0,
            r.sealing is None,
    {
        StreamObserver {
            observer_id,
            writer_epoch: 0,
            role: Role::Follower,
            state: ObserverState::Following,
            acked_seq: Sequence { epoch: 0, index: 0 },
            leader: 0,
            copy_set: Vec::new(),
            progress: Vec::new(),
            write_quorum: 1,
            pending_segments: Vec::new(),
            next_index: 1,
            write_failures: 0,
            sealing: None,
        }
    }

    /// The heartbeat the observer sends the master.
    pub fn heartbeat(&self) -> (r: ObserverMeta)
        ensures
            r == (ObserverMeta {
                observer_id: self.observer_id,
                writer_epoch: self.writer_epoch,
                state: self.state,
                acked_seq: self.acked_seq,
            }),
    {
        ObserverMeta {
            observer_id: self.observer_id,
            writer_epoch: self.writer_epoch,
            state: self.state,
            acked_seq: self.acked_seq,
        }
    }

    /// Adopt a promotion: the master's epoch, role, leader, copy set and
    /// broken prior segments, as one payload.
    ///
    /// A promotion whose epoch is not above the current one is staled and
    /// ignored. Otherwise the observer adopts the whole payload: the write
    /// quorum becomes the majority of the copy set, a leader with broken
    /// segments pending enters `Learning`, a leader with none enters
    /// `Leading`, and a follower just follows.
    pub fn on_promote(
        &mut self,
        epoch: u32,
        role: Role,
        leader: u64,
        copy_set: Vec<u64>,
        broken_segments: Vec<SegmentDesc>,
    )
        ensures
            epoch <= old(self).writer_epoch ==> *final(self) == *old(self),
            epoch > old(self).writer_epoch ==> {
                &&& final(self).writer_epoch == epoch
                &&& final(self).role == role
                &&& final(self).leader == leader
                &&& final(self).copy_set == copy_set
                &&& final(self).pending_segments == broken_segments
                &&& final(self).write_quorum == spec_majority(copy_set@.len() as int)
                &&& final(self).state == (if role != Role::Leader {
                    ObserverState::Following
                } else if broken_segments@.len() > 0 {
                    ObserverState::Learning
                } else {
                    ObserverState::Leading
                })
                &&& final(self).progress@.len() == (if role == Role::Leader {
                    copy_set@.len() as int
                } else {
                    0int
                })
                &&& (forall|k: int|
                    0 <= k < final(self).progress@.len() ==> #[trigger] final(self).progress@[k]
                        == (ReplicaProgress { matched_index: 0, acked_index: 0 }))
                &&& final(self).acked_seq == old(self).acked_seq
                &&& final(self).observer_id == old(self).observer_id
                &&& final(self).next_index == 1
                &&& final(self).write_failures == 0
                &&& final(self).sealing is None
            },
    {
        if epoch <= self.writer_epoch {
            return;
        }
        self.writer_epoch = epoch;
        self.role = role;
        self.leader = leader;
        self.write_quorum = majority_quorum(copy_set.len());
        let copy_set_len: usize = copy_set.len();
        self.copy_set = copy_set;
        let has_pending: bool = broken_segments.len() > 0;
        self.pending_segments = broken_segments;
        self.progress = Vec::new();
        self.next_index = 1;
        self.write_failures = 0;
        self.sealing = None;
        if role != Role::Leader {
            self.state = ObserverState::Following;
            return;
        }
        let mut k: usize = 0;
        while k < copy_set_len
            invariant
                k <= copy_set_len,
                self.progress@.len() == k,
                forall|j: int|
                    0 <= j < k ==> #[trigger] self.progress@[j] == (ReplicaProgress {
                        matched_index: 0,
                        acked_index: 0,
                    }),
                self.writer_epoch == epoch,
                self.role == role,
                self.leader == leader,
                self.write_quorum == spec_majority(copy_set@.len() as int),
                self.copy_set == copy_set,
                self.pending_segments == broken_segments,
                self.acked_seq == old(self).acked_seq,
                self.observer_id == old(self).observer_id,
                self.next_index == 1,
                self.write_failures == 0,
                self.sealing is None,
            decreases copy_set_len - k,
        {
            self.progress.push(ReplicaProgress { matched_index: 0, acked_index: 0 });
            k = k + 1;
        }
        if has_pending {
            self.state = ObserverState::Learning;
        } else {
            self.state = ObserverState::Leading;
        }
    }

    /// Record a replica's acknowledgement of a write and recompute the
    /// quorum-acknowledged index; the client-visible watermark only moves
    /// forward.
    pub fn on_received(&mut self, replica: usize, matched_index: u32, acked_index: u32) -> (a:
        u32)
        requires
            replica < old(self).progress@.len(),
        ensures
            final(self).progress@ == old(self).progress@.update(
                replica as int,
                ReplicaProgress {
                    matched_index: if matched_index > old(self).progress@[
                        replica as int].matched_index {
                        matched_index
                    } else {
                        old(self).progress@[replica as int].matched_index
                    },
                    acked_index: if acked_index > old(self).progress@[
                        replica as int].acked_index {
                        acked_index
                    } else {
                        old(self).progress@[replica as int].acked_index
                    },
                },
            ),
            final(self).writer_epoch == old(self).writer_epoch,
            final(self).state == old(self).state,
            final(self).write_quorum == old(self).write_quorum,
            final(self).sealing == old(self).sealing,
            final(self).leader == old(self).leader,
            final(self).copy_set == old(self).copy_set,
            final(self).pending_segments == old(self).pending_segments,
            final(self).next_index == old(self).next_index,
            final(self).write_failures == 0,
            final(self).acked_seq == crate::tributary::seq_max(
                old(self).acked_seq,
                Sequence { epoch: old(self).writer_epoch, index: a },
            ),
            old(self).acked_seq.spec_le(final(self).acked_seq),
            spec_is_quorum_ack(
                final(self).progress@.map_values(|p: ReplicaProgress| p.matched_index),
                final(self).write_quorum,
                a,
            ),
    {
        let ghost before = self.progress@;
        let slot = &mut self.progress[replica];
        if matched_index > slot.matched_index {
            slot.matched_index = matched_index;
        }
        if acked_index > slot.acked_index {
            slot.acked_index = acked_index;
        }
        let mut ms: Vec<u32> = Vec::new();
        let mut k: usize = 0;
        while k < self.progress.len()
            invariant
                k <= self.progress@.len(),
                ms@ == self.progress@.map_values(|p: ReplicaProgress| p.matched_index).take(
                    k as int,
                ),
            decreases self.progress@.len() - k,
        {
            ms.push(self.progress[k].matched_index);
            proof {
                assert(ms@ =~= self.progress@.map_values(
                    |p: ReplicaProgress| p.matched_index,
                ).take(k + 1));
            }
            k = k + 1;
        }
        proof {
            assert(ms@ =~= self.progress@.map_values(|p: ReplicaProgress| p.matched_index));
        }
        let a: u32 = quorum_ack(&ms, self.write_quorum);
        let candidate = Sequence { epoch: self.writer_epoch, index: a };
        if self.acked_seq.le(candidate) {
            self.acked_seq = candidate;
        }
        self.write_failures = 0;
        a
    }

    /// Fan a client batch out to the copy set: the batch is assigned the
    /// index window starting at `next_index`, carries a snapshot of the
    /// acknowledged sequence, and yields one write intent per member, all
    /// against the leader's own segment (the segment of its epoch).
    ///
    /// `None` — with the observer untouched — when the observer is not
    /// leading, the batch is empty, or the window would escape the 32-bit
    /// index space.
    #[verifier::loop_isolation(false)]
    pub fn append(&mut self, entries: Vec<Entry>) -> (res: Option<Vec<Mutate>>)
        ensures
            match res {
                Option::Some(intents) => {
                    &&& old(self).state == ObserverState::Leading
                    &&& entries@.len() > 0
                    &&& old(self).next_index + entries@.len() <= u32::MAX
                    &&& intents@.len() == old(self).copy_set@.len()
                    &&& forall|k: int|
                        #![trigger intents@[k]]
                        0 <= k < intents@.len() ==> {
                            &&& intents@[k].target == old(self).copy_set@[k]
                            &&& intents@[k].writer_epoch == old(self).writer_epoch
                            &&& intents@[k].segment_epoch == old(self).writer_epoch
                            &&& match intents@[k].kind {
                                MutKind::Write(d) => d.first_index == old(self).next_index
                                    && d.acked_seq == old(self).acked_seq
                                    && d.entries@.map_values(|e: Entry| e@)
                                    == entries@.map_values(|e: Entry| e@),
                                MutKind::Seal => false,
                            }
                        }
                    &&& *final(self) == (StreamObserver {
                        next_index: (old(self).next_index + entries@.len()) as u32,
                        ..*old(self)
                    })
                },
                Option::None => *final(self) == *old(self) && (old(self).state
                    != ObserverState::Leading || entries@.len() == 0 || old(self).next_index
                    + entries@.len() > u32::MAX),
            },
    {
        if !(self.state == ObserverState::Leading) {
            return None;
        }
        if entries.len() == 0 {
            return None;
        }
        if entries.len() > (u32::MAX - self.next_index) as usize {
            return None;
        }
        let first_index: u32 = self.next_index;
        let mut intents: Vec<Mutate> = Vec::new();
        let mut k: usize = 0;
        while k < self.copy_set.len()
            invariant
                k <= self.copy_set@.len(),
                intents@.len() == k,
                *self == *old(self),
                forall|j: int|
                    #![trigger intents@[j]]
                    0 <= j < k ==> {
                        &&& intents@[j].target == self.copy_set@[j]
                        &&& intents@[j].writer_epoch == self.writer_epoch
                        &&& intents@[j].segment_epoch == self.writer_epoch
                        &&& match intents@[j].kind {
                            MutKind::Write(d) => d.first_index == first_index && d.acked_seq
                                == self.acked_seq && d.entries@.map_values(|e: Entry| e@)
                                == entries@.map_values(|e: Entry| e@),
                            MutKind::Seal => false,
                        }
                    },
            decreases self.copy_set@.len() - k,
        {
            let copied: Vec<Entry> = clone_entries(&entries);
            intents.push(
                Mutate {
                    target: self.copy_set[k],
                    writer_epoch: self.writer_epoch,
                    segment_epoch: self.writer_epoch,
                    kind: MutKind::Write(
                        WriteDetail {
                            acked_seq: self.acked_seq,
                            first_index,
                            entries: copied,
                        },
                    ),
                },
            );
            k = k + 1;
        }
        self.next_index = self.next_index + entries.len() as u32;
        Some(intents)
    }

    /// Account one failed write. Within the failure budget the same batch
    /// is retried (with host-side back-off); past it the leader gives up
    /// and must seal the segment.
    pub fn on_write_timeout(&mut self) -> (r: WriteRetry)
        ensures
            old(self).write_failures < WRITE_FAILURE_LIMIT ==> r == WriteRetry::Retry && *final(self) == (StreamObserver {
                write_failures: (old(self).write_failures + 1) as u32,
                ..*old(self)
            }),
            old(self).write_failures >= WRITE_FAILURE_LIMIT ==> r == WriteRetry::BeginSealing
                && *final(self) == *old(self),
    {
        if self.write_failures < WRITE_FAILURE_LIMIT {
            self.write_failures = self.write_failures + 1;
            WriteRetry::Retry
        } else {
            WriteRetry::BeginSealing
        }
    }

    /// The next catch-up to issue: while learning with broken segments
    /// pending, read the first pending segment from the start, from its
    /// first listed copy-set member (the host may reorder the copy set to
    /// prefer the replica that reported the highest index).
    pub fn next_learn(&self) -> (r: Option<Learn>)
        ensures
            match r {
                Option::Some(l) => {
                    &&& self.state == ObserverState::Learning
                    &&& self.pending_segments@.len() > 0
                    &&& self.pending_segments@[0].copy_set@.len() > 0
                    &&& l == (Learn {
                        target: self.pending_segments@[0].copy_set@[0],
                        segment_epoch: self.pending_segments@[0].segment_epoch,
                        writer_epoch: self.writer_epoch,
                        start_index: 1,
                    })
                },
                Option::None => self.state != ObserverState::Learning
                    || self.pending_segments@.len() == 0 || self.pending_segments@[
                    0].copy_set@.len() == 0,
            },
    {
        if !(self.state == ObserverState::Learning) {
            return None;
        }
        if self.pending_segments.len() == 0 {
            return None;
        }
        if self.pending_segments[0].copy_set.len() == 0 {
            return None;
        }
        Some(
            Learn {
                target: self.pending_segments[0].copy_set[0],
                segment_epoch: self.pending_segments[0].segment_epoch,
                writer_epoch: self.writer_epoch,
                start_index: 1,
            },
        )
    }

    /// The master confirmed the seal of the broken segment under recovery:
    /// advance to the next broken epoch, or to `Leading` once none remain.
    pub fn on_recovered(&mut self, segment_epoch: u32)
        ensures
            ({
                let p = old(self).pending_segments@;
                if p.len() > 0 && p[0].segment_epoch == segment_epoch {
                    &&& final(self).pending_segments@ == p.drop_first()
                    &&& final(self).state == (if p.len() == 1 && old(self).state
                        == ObserverState::Learning {
                        ObserverState::Leading
                    } else {
                        old(self).state
                    })
                    &&& final(self).writer_epoch == old(self).writer_epoch
                    &&& final(self).copy_set == old(self).copy_set
                    &&& final(self).acked_seq == old(self).acked_seq
                    &&& final(self).progress == old(self).progress
                    &&& final(self).sealing == old(self).sealing
                    &&& final(self).write_quorum == old(self).write_quorum
                    &&& final(self).leader == old(self).leader
                    &&& final(self).next_index == old(self).next_index
                    &&& final(self).write_failures == old(self).write_failures
                    &&& final(self).observer_id == old(self).observer_id
                    &&& final(self).role == old(self).role
                } else {
                    *final(self) == *old(self)
                }
            }),
    {
        if self.pending_segments.len() == 0 {
            return;
        }
        if self.pending_segments[0].segment_epoch != segment_epoch {
            return;
        }
        self.pending_segments.remove(0);
        proof {
            assert(self.pending_segments@ =~= old(self).pending_segments@.drop_first());
        }
        if self.pending_segments.len() == 0 && self.state == ObserverState::Learning {
            self.state = ObserverState::Leading;
        }
    }

    /// Enter `Sealing` for `segment_epoch`, producing one seal intent per
    /// copy-set member; the seal quorum is the observer's write quorum.
    pub fn start_sealing(&mut self, segment_epoch: u32) -> (r: Vec<Mutate>)
        ensures
            final(self).state == ObserverState::Sealing,
            final(self).sealing == Some(
                SealingProgress {
                    segment_epoch,
                    responses: 0,
                    acked_index: 0,
                    quorum: old(self).write_quorum,
                },
            ),
            r@.len() == old(self).copy_set@.len(),
            forall|k: int|
                0 <= k < r@.len() ==> (#[trigger] r@[k]).target == old(self).copy_set@[k] && r@[
                    k].kind == MutKind::Seal && r@[k].segment_epoch == segment_epoch && r@[
                    k].writer_epoch == old(self).writer_epoch,
            final(self).acked_seq == old(self).acked_seq,
            final(self).copy_set == old(self).copy_set,
            final(self).writer_epoch == old(self).writer_epoch,
            final(self).write_quorum == old(self).write_quorum,
            final(self).pending_segments == old(self).pending_segments,
            final(self).progress == old(self).progress,
    {
        self.state = ObserverState::Sealing;
        self.sealing = Some(SealingProgress::new(segment_epoch, self.write_quorum));
        let mut out: Vec<Mutate> = Vec::new();
        let mut k: usize = 0;
        while k < self.copy_set.len()
            invariant
                k <= self.copy_set@.len(),
                out@.len() == k,
                forall|j: int|
                    0 <= j < k ==> (#[trigger] out@[j]).target == self.copy_set@[j] && out@[
                        j].kind == MutKind::Seal && out@[j].segment_epoch == segment_epoch
                        && out@[j].writer_epoch == self.writer_epoch,
                *self == old(self).with_sealing_started(segment_epoch),
            decreases self.copy_set@.len() - k,
        {
            out.push(
                Mutate {
                    target: self.copy_set[k],
                    writer_epoch: self.writer_epoch,
                    segment_epoch,
                    kind: MutKind::Seal,
                },
            );
            k = k + 1;
        }
        out
    }

    /// The observer as `start_sealing` leaves it, before emitting intents.
    pub open spec fn with_sealing_started(self, segment_epoch: u32) -> StreamObserver {
        StreamObserver {
            state: ObserverState::Sealing,
            sealing: Some(
                SealingProgress {
                    segment_epoch,
                    responses: 0,
                    acked_index: 0,
                    quorum: self.write_quorum,
                },
            ),
            ..self
        }
    }

    /// Record a `sealed` response. When a quorum has answered, the
    /// segment's final acknowledged index is fixed as the maximum across
    /// responders — a late response never lowers it — and the observer
    /// advances to `Leading`.
    pub fn on_sealed(&mut self, acked_index: u32) -> (r: Option<u32>)
        ensures
            match old(self).sealing {
                Option::None => *final(self) == *old(self) && r is None,
                Option::Some(sp) => {
                    &&& final(self).sealing == Some(
                        SealingProgress {
                            segment_epoch: sp.segment_epoch,
                            quorum: sp.quorum,
                            responses: if sp.responses < usize::MAX {
                                (sp.responses + 1) as usize
                            } else {
                                sp.responses
                            },
                            acked_index: if acked_index > sp.acked_index {
                                acked_index
                            } else {
                                sp.acked_index
                            },
                        },
                    )
                    &&& sp.acked_index <= final(self).sealing->Some_0.acked_index
                    &&& (sp.spec_done() ==> final(self).sealing->Some_0.spec_done())
                    &&& match r {
                        Option::Some(a) => final(self).sealing->Some_0.spec_done() && a == final(self).sealing->Some_0.acked_index && final(self).state
                            == ObserverState::Leading,
                        Option::None => !final(self).sealing->Some_0.spec_done() && final(self).state == old(self).state,
                    }
                },
            },
    {
        let mut sp: SealingProgress = match &self.sealing {
            Some(sp) => *sp,
            None => {
                return None;
            },
        };
        let done: bool = sp.on_sealed(acked_index);
        self.sealing = Some(sp);
        if done {
            self.state = ObserverState::Leading;
            Some(sp.acked_index)
        } else {
            None
        }
    }
}

/// Resolve the master's segment listing: every requested epoch must be
/// present, else the listing is a protocol violation.
#[verifier::loop_isolation(false)]
pub fn get_segments(resp: Vec<Option<SegmentDesc>>) -> (res: Result<
    Vec<SegmentDesc>,
    crate::types::Error,
>)
    ensures
        match res {
            Ok(v) => v@.len() == resp@.len() && forall|k: int|
                0 <= k < resp@.len() ==> resp@[k] == Some(#[trigger] v@[k]),
            Err(e) => e == crate::types::Error::NotFound && exists|k: int|
                0 <= k < resp@.len() && resp@[k] is None,
        },
{
    let ghost orig = resp@;
    let mut rest = resp;
    let mut out: Vec<SegmentDesc> = Vec::new();
    proof {
        assert(rest@ =~= orig.skip(0));
    }
    while rest.len() > 0
        invariant
            out@.len() <= orig.len(),
            rest@ == orig.skip(out@.len() as int),
            forall|j: int| 0 <= j < out@.len() ==> orig[j] == Some(#[trigger] out@[j]),
        decreases rest@.len(),
    {
        let ghost k = out@.len() as int;
        let head: Option<SegmentDesc> = rest.remove(0);
        proof {
            assert(orig.skip(k)[0] == orig[k]);
            assert(orig.skip(k).remove(0) =~= orig.skip(k + 1));
        }
        match head {
            Some(d) => {
                out.push(d);
            },
            None => {
                proof {
                    assert(orig[k] is None);
                }
                return Err(crate::types::Error::NotFound);
            },
        }
    }
    proof {
        assert(out@.len() == orig.len());
    }
    Ok(out)
}

/// Check the master's answer to a promotion: it must list one descriptor
/// per broken epoch plus the new segment itself; a mismatch is a protocol
/// violation and the promotion is refused. On success the new segment and
/// the broken descriptors, in the master's order, come back separately.
pub fn promote_segments(pending_len: usize, segments: Vec<SegmentDesc>) -> (res: Option<
    (SegmentDesc, Vec<SegmentDesc>),
>)
    ensures
        match res {
            Option::Some((new_seg, broken)) => {
                &&& broken@.len() == pending_len
                &&& broken@.len() + 1 == segments@.len()
                &&& new_seg == segments@.last()
                &&& forall|k: int| 0 <= k < broken@.len() ==> #[trigger] broken@[k]
                    == segments@[k]
            },
            Option::None => segments@.len() != pending_len + 1 || pending_len == usize::MAX,
        },
{
    if pending_len == usize::MAX {
        return None;
    }
    if segments.len() != pending_len + 1 {
        return None;
    }
    let mut broken = segments;
    let new_seg: SegmentDesc = match broken.pop() {
        Some(d) => d,
        None => {
            return None;
        },
    };
    Some((new_seg, broken))
}

/// A copy of an entry batch, preserving every entry's value.
fn clone_entries(entries: &Vec<Entry>) -> (r: Vec<Entry>)
    ensures
        r@.map_values(|e: Entry| e@) == entries@.map_values(|e: Entry| e@),
{
    let mut out: Vec<Entry> = Vec::new();
    let mut i: usize = 0;
    while i < entries.len()
        invariant
            i <= entries@.len(),
            out@.len() == i,
            forall|k: int| 0 <= k < i ==> #[trigger] out@[k]@ == entries@[k]@,
        decreases entries@.len() - i,
    {
        out.push(entries[i].clone());
        i = i + 1;
    }
    proof {
        assert(out@.map_values(|e: Entry| e@) =~= entries@.map_values(|e: Entry| e@));
    }
    out
}

} // verus!
