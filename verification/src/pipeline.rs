//! The pipelined writer: a per-stream group-commit batcher.
//!
//! Writers enqueue transaction records; one flusher at a time takes the
//! whole pending queue as a single batch, makes it durable with one sync,
//! and completes it, waking suspended readers. Ghost counters relate
//! submissions, durable records, and syncs: syncs never exceed
//! submissions, and once everything submitted is durable at least one sync
//! happened — the group-commit law.

use vstd::prelude::*;

use crate::record::Record;

verus! {

/// The answer to a submission.
pub enum SubmitOutcome {
    /// The transaction is queued for the next batch.
    Queued,
    /// The queue is at its high-water mark while a batch is in flight; the
    /// caller gets the record back and retries after the current batch
    /// completes.
    Busy(Record),
}

/// A per-stream write batcher.
pub struct PipelinedWriter {
    stream_id: u64,
    pending: Vec<Record>,
    in_flight: bool,
    in_flight_count: usize,
    reader_waiters: u64,
    high_water: usize,
    submitted: Ghost<int>,
    flushed: Ghost<int>,
    syncs: Ghost<int>,
}

impl PipelinedWriter {
    pub closed spec fn spec_pending(&self) -> Seq<Record> {
        self.pending@
    }

    pub closed spec fn spec_in_flight(&self) -> bool {
        self.in_flight
    }

    pub closed spec fn spec_in_flight_count(&self) -> int {
        self.in_flight_count as int
    }

    pub closed spec fn spec_reader_waiters(&self) -> u64 {
        self.reader_waiters
    }

    pub closed spec fn spec_high_water(&self) -> usize {
        self.high_water
    }

    pub closed spec fn spec_submitted(&self) -> int {
        self.submitted@
    }

    pub closed spec fn spec_flushed(&self) -> int {
        self.flushed@
    }

    pub closed spec fn spec_syncs(&self) -> int {
        self.syncs@
    }

    /// The accounting invariant of the pipeline.
    pub open spec fn wf(&self) -> bool {
        &&& self.spec_syncs() <= self.spec_flushed()
        &&& self.spec_flushed() + self.spec_pending().len() + self.spec_in_flight_count()
            == self.spec_submitted()
        &&& (self.spec_in_flight_count() > 0 ==> self.spec_in_flight())
        &&& (self.spec_in_flight() ==> self.spec_in_flight_count() > 0)
        &&& (self.spec_flushed() > 0 ==> self.spec_syncs() >= 1)
        &&& 0 <= self.spec_syncs()
        &&& 0 <= self.spec_flushed()
    }

    /// A fresh writer with the given back-pressure mark.
    pub fn new(stream_id: u64, high_water: usize) -> (r: PipelinedWriter)
        ensures
            r.wf(),
            r.spec_pending() == Seq::<Record>::empty(),
            !r.spec_in_flight(),
            r.spec_reader_waiters() == 0,
            r.spec_high_water() == high_water,
            r.spec_submitted() == 0,
            r.spec_flushed() == 0,
            r.spec_syncs() == 0,
    {
        PipelinedWriter {
            stream_id,
            pending: Vec::new(),
            in_flight: false,
            in_flight_count: 0,
            reader_waiters: 0,
            high_water,
            submitted: Ghost(0),
            flushed: Ghost(0),
            syncs: Ghost(0),
        }
    }

    /// Submit one transaction record.
    ///
    /// Refused with `Busy` — handing the record back untouched — exactly
    /// when the queue is at the high-water mark while a batch is in flight.
    pub fn submit(&mut self, record: Record) -> (res: SubmitOutcome)
        requires
            old(self).wf(),
        ensures
            final(self).wf(),
            final(self).spec_in_flight() == old(self).spec_in_flight(),
            final(self).spec_reader_waiters() == old(self).spec_reader_waiters(),
            final(self).spec_flushed() == old(self).spec_flushed(),
            final(self).spec_syncs() == old(self).spec_syncs(),
            match res {
                SubmitOutcome::Queued => {
                    &&& final(self).spec_pending() == old(self).spec_pending().push(record)
                    &&& final(self).spec_submitted() == old(self).spec_submitted() + 1
                },
                SubmitOutcome::Busy(r) => {
                    &&& r == record
                    &&& *final(self) == *old(self)
                    &&& old(self).spec_pending().len() >= old(self).spec_high_water()
                    &&& old(self).spec_in_flight()
                },
            },
            (res is Busy) <==> (old(self).spec_pending().len() >= old(self).spec_high_water()
                && old(self).spec_in_flight()),
    {
        if self.pending.len() >= self.high_water && self.in_flight {
            return SubmitOutcome::Busy(record);
        }
        self.pending.push(record);
        proof {
            self.submitted@ = self.submitted@ + 1;
        }
        SubmitOutcome::Queued
    }

    /// Begin a flush: take the whole pending queue as one batch.
    ///
    /// Returns `None` when a batch is already in flight or nothing is
    /// pending. A returned batch always holds at least one record.
    pub fn begin_flush(&mut self) -> (res: Option<Vec<Record>>)
        requires
            old(self).wf(),
        ensures
            final(self).wf(),
            final(self).spec_reader_waiters() == old(self).spec_reader_waiters(),
            final(self).spec_submitted() == old(self).spec_submitted(),
            final(self).spec_flushed() == old(self).spec_flushed(),
            final(self).spec_syncs() == old(self).spec_syncs(),
            match res {
                Option::Some(batch) => {
                    &&& batch@ == old(self).spec_pending()
                    &&& batch@.len() >= 1
                    &&& final(self).spec_pending() == Seq::<Record>::empty()
                    &&& final(self).spec_in_flight()
                    &&& final(self).spec_in_flight_count() == batch@.len()
                },
                Option::None => {
                    &&& *final(self) == *old(self)
                    &&& (old(self).spec_in_flight() || old(self).spec_pending().len() == 0)
                },
            },
    {
        if self.in_flight || self.pending.len() == 0 {
            return None;
        }
        let mut batch: Vec<Record> = Vec::new();
        core::mem::swap(&mut batch, &mut self.pending);
        self.in_flight = true;
        self.in_flight_count = batch.len();
        Some(batch)
    }

    /// Complete the in-flight batch after it became durable: account one
    /// sync, and hand back how many suspended readers to wake.
    pub fn complete_flush(&mut self) -> (wakes: u64)
        requires
            old(self).wf(),
            old(self).spec_in_flight(),
        ensures
            final(self).wf(),
            wakes == old(self).spec_reader_waiters(),
            final(self).spec_reader_waiters() == 0,
            !final(self).spec_in_flight(),
            final(self).spec_pending() == old(self).spec_pending(),
            final(self).spec_submitted() == old(self).spec_submitted(),
            final(self).spec_flushed() == old(self).spec_flushed() + old(
                self,
            ).spec_in_flight_count(),
            final(self).spec_syncs() == old(self).spec_syncs() + 1,
    {
        self.in_flight = false;
        proof {
            self.flushed@ = self.flushed@ + self.in_flight_count as int;
            self.syncs@ = self.syncs@ + 1;
        }
        self.in_flight_count = 0;
        let wakes: u64 = self.reader_waiters;
        self.reader_waiters = 0;
        wakes
    }

    /// Register a suspended reader; it is woken on the next completed batch.
    pub fn register_reading_waiter(&mut self)
        requires
            old(self).wf(),
        ensures
            final(self).wf(),
            final(self).spec_reader_waiters() == (if old(self).spec_reader_waiters() < u64::MAX {
                old(self).spec_reader_waiters() + 1
            } else {
                old(self).spec_reader_waiters() as int
            }),
            final(self).spec_pending() == old(self).spec_pending(),
            final(self).spec_in_flight() == old(self).spec_in_flight(),
            final(self).spec_in_flight_count() == old(self).spec_in_flight_count(),
            final(self).spec_submitted() == old(self).spec_submitted(),
            final(self).spec_flushed() == old(self).spec_flushed(),
            final(self).spec_syncs() == old(self).spec_syncs(),
    {
        if self.reader_waiters < u64::MAX {
            self.reader_waiters = self.reader_waiters + 1;
        }
    }

    /// The group-commit law: syncs never exceed submissions, and once
    /// every submitted record is durable, between one sync (everything
    /// coalesced) and one sync per record happened.
    pub proof fn lemma_group_commit(&self)
        requires
            self.wf(),
        ensures
            self.spec_syncs() <= self.spec_submitted(),
            self.spec_flushed() == self.spec_submitted() && self.spec_submitted() > 0 ==> 1
                <= self.spec_syncs() <= self.spec_submitted(),
    {
    }
}

} // verus!
