//! The store client's request channel, as a verified queue core.
//!
//! Producers append record requests (or a shutdown marker) and learn
//! whether a sleeping consumer must be notified; the consumer takes the
//! whole queue at once, or registers as waiting when it is empty. The
//! blocking and notification themselves belong to the host; every queue
//! decision is made here.

use vstd::prelude::*;

use crate::record::Record;

verus! {

/// One queued request: a completion ticket and the record to append, or a
/// shutdown marker when the record is absent.
#[derive(Debug)]
pub struct Request {
    /// The host maps this ticket to the submitter's completion signal.
    pub ticket: u64,
    /// A shutdown is delivered if the record is `None`.
    pub record: Option<Record>,
}

/// The queue core of the channel.
pub struct Channel {
    requests: Vec<Request>,
    waiting: bool,
    next_ticket: u64,
}

impl Channel {
    pub closed spec fn spec_requests(&self) -> Seq<Request> {
        self.requests@
    }

    pub closed spec fn spec_waiting(&self) -> bool {
        self.waiting
    }

    pub closed spec fn spec_next_ticket(&self) -> u64 {
        self.next_ticket
    }

    /// An empty channel with no waiting consumer.
    pub fn new() -> (r: Channel)
        ensures
            r.spec_requests() == Seq::<Request>::empty(),
            !r.spec_waiting(),
            r.spec_next_ticket() == 0,
    {
        Channel { requests: Vec::new(), waiting: false, next_ticket: 0 }
    }

    /// Take the whole queue; when it is empty, register as waiting instead
    /// and come back after a notification.
    pub fn take(&mut self) -> (r: Vec<Request>)
        ensures
            r@ == old(self).spec_requests(),
            final(self).spec_requests() == Seq::<Request>::empty(),
            final(self).spec_next_ticket() == old(self).spec_next_ticket(),
            final(self).spec_waiting() == (old(self).spec_requests().len() == 0),
    {
        if self.requests.len() == 0 {
            self.waiting = true;
            let r: Vec<Request> = Vec::new();
            proof {
                assert(r@ =~= old(self).spec_requests());
            }
            return r;
        }
        self.waiting = false;
        let mut taken: Vec<Request> = Vec::new();
        core::mem::swap(&mut taken, &mut self.requests);
        taken
    }

    /// Append a record request; returns its completion ticket and whether
    /// the host must notify the sleeping consumer.
    pub fn append(&mut self, record: Record) -> (r: (u64, bool))
        ensures
            final(self).spec_requests().len() == old(self).spec_requests().len() + 1,
            final(self).spec_requests().last().ticket == r.0,
            final(self).spec_requests().last().record == Some(record),
            forall|k: int|
                0 <= k < old(self).spec_requests().len() ==> #[trigger] final(self).spec_requests()[k] == old(self).spec_requests()[k],
            r.1 == old(self).spec_waiting(),
            !final(self).spec_waiting(),
            r.0 == old(self).spec_next_ticket(),
    {
        let ticket: u64 = self.next_ticket;
        if self.next_ticket < u64::MAX {
            self.next_ticket = self.next_ticket + 1;
        }
        self.requests.push(Request { ticket, record: Some(record) });
        let notify: bool = self.waiting;
        self.waiting = false;
        (ticket, notify)
    }

    /// Append a shutdown marker; returns whether the host must notify the
    /// sleeping consumer.
    pub fn shutdown(&mut self) -> (notify: bool)
        ensures
            final(self).spec_requests().len() == old(self).spec_requests().len() + 1,
            final(self).spec_requests().last().record is None,
            forall|k: int|
                0 <= k < old(self).spec_requests().len() ==> #[trigger] final(self).spec_requests()[k] == old(self).spec_requests()[k],
            notify == old(self).spec_waiting(),
            !final(self).spec_waiting(),
    {
        let ticket: u64 = self.next_ticket;
        if self.next_ticket < u64::MAX {
            self.next_ticket = self.next_ticket + 1;
        }
        self.requests.push(Request { ticket, record: None });
        let notify: bool = self.waiting;
        self.waiting = false;
        notify
    }
}

} // verus!
