//! A lazy segment reader.
//!
//! The reader keeps a cursor into one segment and repeatedly polls the
//! stream; when nothing is readable yet it suspends, registered on the
//! stream's writer, and is woken on the next acknowledged advance.

use vstd::prelude::*;

use crate::streamdb::StreamFlow;
use crate::tributary::PartialStream;
use crate::types::{Entry, Error, Sequence};

verus! {

/// A cursor over one segment of a stream.
pub struct SegmentReader {
    segment_epoch: u32,
    next_index: u64,
    limit: usize,
    require_acked: bool,
}

impl SegmentReader {
    pub closed spec fn spec_segment_epoch(&self) -> u32 {
        self.segment_epoch
    }

    pub closed spec fn spec_next_index(&self) -> int {
        self.next_index as int
    }

    pub closed spec fn spec_limit(&self) -> usize {
        self.limit
    }

    pub closed spec fn spec_require_acked(&self) -> bool {
        self.require_acked
    }

    /// A reader over `segment_epoch` starting at `start_index`.
    pub fn new(segment_epoch: u32, start_index: u32, limit: usize, require_acked: bool) -> (r:
        SegmentReader)
        ensures
            r.spec_segment_epoch() == segment_epoch,
            r.spec_next_index() == start_index,
            r.spec_limit() == limit,
            r.spec_require_acked() == require_acked,
    {
        SegmentReader { segment_epoch, next_index: start_index as u64, limit, require_acked }
    }

    /// Poll the next batch of entries, advancing the cursor past what was
    /// returned; `None` suspends the reader on the stream's writer.
    pub fn poll(&mut self, flow: &mut StreamFlow) -> (res: Result<
        Option<Vec<(u32, Entry)>>,
        Error,
    >)
        requires
            old(self).spec_next_index() >= 1,
            old(flow).inv(),
        ensures
            final(flow).inv(),
            final(flow).core.storage == old(flow).core.storage,
            final(self).spec_segment_epoch() == old(self).spec_segment_epoch(),
            final(self).spec_limit() == old(self).spec_limit(),
            final(self).spec_require_acked() == old(self).spec_require_acked(),
            final(self).spec_next_index() >= old(self).spec_next_index(),
            match res {
                Ok(Option::Some(v)) => {
                    &&& old(self).spec_next_index() <= u32::MAX
                    &&& final(self).spec_next_index() == old(self).spec_next_index() + v@.len()
                    &&& PartialStream::spec_scan_ok(
                        old(flow).core.storage@,
                        old(self).spec_segment_epoch(),
                        old(self).spec_next_index(),
                        old(self).spec_require_acked(),
                        old(self).spec_limit(),
                        v@,
                    )
                },
                Ok(Option::None) => final(self).spec_next_index() == old(self).spec_next_index()
                    && (old(self).spec_next_index() > u32::MAX || old(self).spec_limit() == 0
                    || !PartialStream::spec_readable(
                    old(flow).core.storage@,
                    old(self).spec_segment_epoch(),
                    old(self).spec_next_index(),
                    old(self).spec_require_acked(),
                )),
                Err(e) => e == Error::InvalidArgument && final(self).spec_next_index() == old(
                    self,
                ).spec_next_index() && old(self).spec_next_index() <= u32::MAX && (Sequence {
                    epoch: old(self).spec_segment_epoch(),
                    index: old(self).spec_next_index() as u32,
                }).spec_lt(old(flow).core.storage@.initial_seq),
            },
    {
        if self.next_index > u32::MAX as u64 {
            // The 32-bit index space is exhausted; nothing further can ever
            // satisfy this reader.
            return Ok(None);
        }
        let start: u32 = self.next_index as u32;
        let res = flow.poll_entries(self.segment_epoch, start, self.limit, self.require_acked);
        match res {
            Ok(Some(v)) => {
                proof {
                    let k = v@.len() - 1;
                    assert(v@[k].0 == start + k);
                    assert(v@[k].0 <= u32::MAX);
                }
                self.next_index = self.next_index + v.len() as u64;
                Ok(Some(v))
            },
            Ok(None) => Ok(None),
            Err(e) => Err(e),
        }
    }
}

} // verus!
