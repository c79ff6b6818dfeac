//! The log file manager, modelled over bytes.
//!
//! Records are framed into the active file's byte buffer; a group-commit
//! append makes one batch durable with one sync. Closed files are retained
//! for recovery scans until released. The host environment persists the
//! byte buffers; everything the engine decides — framing, rotation,
//! retention, the sync count — is verified here.

use vstd::prelude::*;

use crate::record::{
    encode_record, record_views, spec_encode_record, spec_encode_records, wf_record, Record,
    RecordModel,
};
use crate::types::Error;

verus! {

/// Encoding one more record extends the encoded batch.
proof fn lemma_encode_records_take(rs: Seq<RecordModel>, i: int)
    requires
        0 <= i < rs.len(),
    ensures
        spec_encode_records(rs.take(i + 1)) == spec_encode_records(rs.take(i))
            + spec_encode_record(rs[i]),
    decreases i,
{
    if i == 0 {
        assert(rs.take(0) =~= Seq::<RecordModel>::empty());
        assert(rs.take(1).drop_first() =~= Seq::<RecordModel>::empty());
        assert(rs.take(1)[0] == rs[0]);
        assert(spec_encode_record(rs[0]) + Seq::<u8>::empty() =~= spec_encode_record(rs[0]));
        assert(Seq::<u8>::empty() + spec_encode_record(rs[0]) =~= spec_encode_record(rs[0]));
    } else {
        let d = rs.drop_first();
        lemma_encode_records_take(d, i - 1);
        assert(rs.take(i + 1).drop_first() =~= d.take(i));
        assert(rs.take(i).drop_first() =~= d.take(i - 1));
        assert(rs.take(i + 1)[0] == rs[0]);
        assert(rs.take(i)[0] == rs[0]);
        assert(d[i - 1] == rs[i]);
        assert(spec_encode_record(rs[0]) + (spec_encode_records(d.take(i - 1))
            + spec_encode_record(rs[i])) =~= (spec_encode_record(rs[0]) + spec_encode_records(
            d.take(i - 1),
        )) + spec_encode_record(rs[i]));
    }
}

/// The log engine: one active append-only file and the closed ones.
#[derive(Debug)]
pub struct LogEngine {
    active_file_number: u64,
    active: Vec<u8>,
    files: Vec<(u64, Vec<u8>)>,
    next_file_number: u64,
    sync_count: u64,
}

impl LogEngine {
    pub closed spec fn spec_active_file_number(&self) -> u64 {
        self.active_file_number
    }

    pub closed spec fn spec_active(&self) -> Seq<u8> {
        self.active@
    }

    pub closed spec fn spec_files(&self) -> Seq<(u64, Vec<u8>)> {
        self.files@
    }

    pub closed spec fn spec_next_file_number(&self) -> u64 {
        self.next_file_number
    }

    pub closed spec fn spec_sync_count(&self) -> u64 {
        self.sync_count
    }

    /// A fresh engine whose active file is `file_number`.
    pub fn new(file_number: u64) -> (r: LogEngine)
        requires
            file_number < u64::MAX,
        ensures
            r.spec_active_file_number() == file_number,
            r.spec_active() == Seq::<u8>::empty(),
            r.spec_files() == Seq::<(u64, Vec<u8>)>::empty(),
            r.spec_next_file_number() == file_number + 1,
            r.spec_sync_count() == 0,
    {
        LogEngine {
            active_file_number: file_number,
            active: Vec::new(),
            files: Vec::new(),
            next_file_number: file_number + 1,
            sync_count: 0,
        }
    }

    pub fn sync_count(&self) -> (r: u64)
        ensures
            r == self.spec_sync_count(),
    {
        self.sync_count
    }

    pub fn active_file_number(&self) -> (r: u64)
        ensures
            r == self.spec_active_file_number(),
    {
        self.active_file_number
    }

    pub fn next_file_number(&self) -> (r: u64)
        ensures
            r == self.spec_next_file_number(),
    {
        self.next_file_number
    }

    /// The bytes of the active file, for the host to persist.
    pub fn active_bytes(&self) -> (r: &Vec<u8>)
        ensures
            r@ == self.spec_active(),
    {
        &self.active
    }

    /// Append a batch of records as one durable group commit.
    ///
    /// The whole batch lands in the active file with a single sync;
    /// returns the file number, the offset of the batch, and its size.
    /// Fails with `InvalidArgument`, leaving the engine untouched, exactly
    /// when some record of the batch is not well formed.
    #[verifier::loop_isolation(false)]
    pub fn append(&mut self, batch: &Vec<Record>) -> (res: Result<(u64, usize, usize), Error>)
        ensures
            match res {
                Ok((file_number, offset, size)) => {
                    &&& (forall|k: int|
                        0 <= k < batch@.len() ==> wf_record(#[trigger] record_views(batch@)[k]))
                    &&& file_number == old(self).spec_active_file_number()
                    &&& offset == old(self).spec_active().len()
                    &&& final(self).spec_active() == old(self).spec_active()
                        + spec_encode_records(record_views(batch@))
                    &&& size == spec_encode_records(record_views(batch@)).len()
                    &&& final(self).spec_sync_count() == (if old(self).spec_sync_count()
                        < u64::MAX {
                        old(self).spec_sync_count() + 1
                    } else {
                        old(self).spec_sync_count() as int
                    })
                    &&& final(self).spec_files() == old(self).spec_files()
                    &&& final(self).spec_active_file_number() == old(
                        self,
                    ).spec_active_file_number()
                    &&& final(self).spec_next_file_number() == old(self).spec_next_file_number()
                },
                Err(e) => {
                    &&& e == Error::InvalidArgument
                    &&& !(forall|k: int|
                        0 <= k < batch@.len() ==> wf_record(#[trigger] record_views(batch@)[k]))
                    &&& *final(self) == *old(self)
                },
            },
    {
        let mut w = crate::codec::BufWriter::new();
        let ghost views = record_views(batch@);
        let mut i: usize = 0;
        proof {
            assert(views.take(0) =~= Seq::<RecordModel>::empty());
            assert(w@ =~= spec_encode_records(views.take(0)));
        }
        while i < batch.len()
            invariant
                i <= batch@.len(),
                w@ == spec_encode_records(views.take(i as int)),
                forall|k: int| 0 <= k < i ==> wf_record(#[trigger] views[k]),
            decreases batch@.len() - i,
        {
            match encode_record(&batch[i], &mut w) {
                Ok(()) => {},
                Err(_) => {
                    proof {
                        assert(!wf_record(views[i as int]));
                    }
                    return Err(Error::InvalidArgument);
                },
            }
            proof {
                assert(views[i as int] == batch@[i as int]@);
                lemma_encode_records_take(views, i as int);
            }
            i = i + 1;
        }
        proof {
            assert(views.take(batch@.len() as int) =~= views);
        }
        let bytes = w.into_bytes();
        let offset: usize = self.active.len();
        let size: usize = bytes.len();
        self.active.extend_from_slice(bytes.as_slice());
        if self.sync_count < u64::MAX {
            self.sync_count = self.sync_count + 1;
        }
        Ok((self.active_file_number, offset, size))
    }

    /// Close the active file and open a fresh one.
    pub fn rotate(&mut self)
        requires
            old(self).spec_next_file_number() < u64::MAX,
        ensures
            final(self).spec_files().len() == old(self).spec_files().len() + 1,
            forall|k: int|
                0 <= k < old(self).spec_files().len() ==> #[trigger] final(self).spec_files()[k]
                    == old(self).spec_files()[k],
            final(self).spec_files().last().0 == old(self).spec_active_file_number(),
            final(self).spec_files().last().1@ == old(self).spec_active(),
            final(self).spec_active() == Seq::<u8>::empty(),
            final(self).spec_active_file_number() == old(self).spec_next_file_number(),
            final(self).spec_next_file_number() == old(self).spec_next_file_number() + 1,
            final(self).spec_sync_count() == old(self).spec_sync_count(),
    {
        let mut closed: Vec<u8> = Vec::new();
        core::mem::swap(&mut closed, &mut self.active);
        let number: u64 = self.active_file_number;
        self.files.push((number, closed));
        self.active_file_number = self.next_file_number;
        self.next_file_number = self.next_file_number + 1;
    }

    /// The bytes of a closed file, for a recovery or learn scan.
    #[verifier::loop_isolation(false)]
    pub fn read_file(&self, file_number: u64) -> (r: Option<&Vec<u8>>)
        ensures
            match r {
                Some(bytes) => exists|i: int|
                    0 <= i < self.spec_files().len() && #[trigger] self.spec_files()[i].0
                        == file_number && self.spec_files()[i].1@ == bytes@,
                None => forall|i: int|
                    0 <= i < self.spec_files().len() ==> #[trigger] self.spec_files()[i].0
                        != file_number,
            },
    {
        let mut i: usize = 0;
        while i < self.files.len()
            invariant
                i <= self.files@.len(),
                forall|k: int| 0 <= k < i ==> #[trigger] self.files@[k].0 != file_number,
            decreases self.files@.len() - i,
        {
            if self.files[i].0 == file_number {
                proof {
                    assert(self.spec_files()[i as int].0 == file_number);
                }
                return Some(&self.files[i].1);
            }
            i = i + 1;
        }
        None
    }

    /// Drop a closed file that no live version references any more.
    #[verifier::loop_isolation(false)]
    pub fn release(&mut self, file_number: u64)
        ensures
            forall|k: int|
                0 <= k < final(self).spec_files().len() ==> #[trigger] final(self).spec_files()[
                    k].0 != file_number,
            final(self).spec_active() == old(self).spec_active(),
            final(self).spec_active_file_number() == old(self).spec_active_file_number(),
            final(self).spec_next_file_number() == old(self).spec_next_file_number(),
            final(self).spec_sync_count() == old(self).spec_sync_count(),
    {
        let mut i: usize = 0;
        while i < self.files.len()
            invariant
                i <= self.files@.len(),
                forall|k: int| 0 <= k < i ==> #[trigger] self.files@[k].0 != file_number,
                self.active@ == old(self).spec_active(),
                self.active_file_number == old(self).spec_active_file_number(),
                self.next_file_number == old(self).spec_next_file_number(),
                self.sync_count == old(self).spec_sync_count(),
            decreases self.files@.len() - i,
        {
            if self.files[i].0 == file_number {
                let ghost before = self.files@;
                self.files.remove(i);
                proof {
                    assert forall|k: int| 0 <= k < i implies #[trigger] self.files@[k].0
                        != file_number by {
                        assert(self.files@[k] == before[k]);
                    }
                }
            } else {
                i = i + 1;
            }
        }
    }
}

} // verus!
