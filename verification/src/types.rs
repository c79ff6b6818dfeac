//! Core value types: sequences, log entries, and the error taxonomy.

use vstd::prelude::*;

verus! {

/// A 64-bit ordering key `(epoch, index)`, compared lexicographically.
///
/// Packed into a `u64` as `epoch << 32 | index` for persistence; the packing
/// preserves the lexicographic order (see `lemma_sequence_order_embedding`).
#[derive(Clone, Copy, Debug, PartialEq, Eq, Structural)]
pub struct Sequence {
    pub epoch: u32,
    pub index: u32,
}

impl Sequence {
    pub open spec fn spec_le(self, other: Sequence) -> bool {
        self.epoch < other.epoch || (self.epoch == other.epoch && self.index <= other.index)
    }

    pub open spec fn spec_lt(self, other: Sequence) -> bool {
        self.spec_le(other) && self != other
    }

    pub open spec fn spec_pack(self) -> int {
        (self.epoch as int) * 0x1_0000_0000 + (self.index as int)
    }

    /// The sequence a packed `u64` stands for.
    pub open spec fn spec_unpack(v: int) -> Sequence {
        Sequence { epoch: (v / 0x1_0000_0000) as u32, index: (v % 0x1_0000_0000) as u32 }
    }

    pub fn new(epoch: u32, index: u32) -> (r: Sequence)
        ensures
            r == (Sequence { epoch, index }),
    {
        Sequence { epoch, index }
    }

    /// Pack into the on-disk `u64` representation.
    pub fn pack(self) -> (r: u64)
        ensures
            r == self.spec_pack(),
    {
        proof {
            assert((self.epoch as int) * 0x1_0000_0000 <= 0xffff_ffff * 0x1_0000_0000)
                by (nonlinear_arith)
                requires
                    self.epoch <= 0xffff_ffffu32,
            ;
        }
        (self.epoch as u64) * 0x1_0000_0000 + (self.index as u64)
    }

    /// Recover a sequence from its packed representation.
    pub fn unpack(v: u64) -> (r: Sequence)
        ensures
            r.spec_pack() == v,
            r == Sequence::spec_unpack(v as int),
    {
        let epoch: u32 = (v / 0x1_0000_0000) as u32;
        let index: u32 = (v % 0x1_0000_0000) as u32;
        proof {
            vstd::arithmetic::div_mod::lemma_fundamental_div_mod(v as int, 0x1_0000_0000);
            assert(v as int / 0x1_0000_0000 <= 0xffff_ffff) by (nonlinear_arith)
                requires
                    v <= 0xffff_ffff_ffff_ffffu64,
            ;
        }
        Sequence { epoch, index }
    }

    /// Executable lexicographic comparison.
    pub fn le(self, other: Sequence) -> (r: bool)
        ensures
            r == self.spec_le(other),
    {
        self.epoch < other.epoch || (self.epoch == other.epoch && self.index <= other.index)
    }

    /// The packed representation embeds the lexicographic order.
    pub proof fn lemma_order_embedding(a: Sequence, b: Sequence)
        ensures
            a.spec_le(b) <==> a.spec_pack() <= b.spec_pack(),
    {
        assert(a.spec_pack() == (a.epoch as u64) * 0x1_0000_0000 + (a.index as u64));
        if a.epoch < b.epoch {
            assert((a.epoch as u64) * 0x1_0000_0000 + 0x1_0000_0000 <= (b.epoch as u64)
                * 0x1_0000_0000) by (nonlinear_arith)
                requires
                    a.epoch < b.epoch,
            ;
        } else if a.epoch > b.epoch {
            assert((b.epoch as u64) * 0x1_0000_0000 + 0x1_0000_0000 <= (a.epoch as u64)
                * 0x1_0000_0000) by (nonlinear_arith)
                requires
                    b.epoch < a.epoch,
            ;
        }
    }
}

impl Sequence {
    /// Proof helper: the packing is injective.
    pub proof fn lemma_pack_injective(a: Sequence, b: Sequence)
        ensures
            a.spec_pack() == b.spec_pack() ==> a == b,
    {
        Self::lemma_order_embedding(a, b);
        Self::lemma_order_embedding(b, a);
    }

    /// The packed value fits in 64 bits.
    pub proof fn lemma_pack_bounds(self)
        ensures
            0 <= self.spec_pack() < 0x1_0000_0000_0000_0000,
    {
        assert((self.epoch as int) * 0x1_0000_0000 <= 0xffff_ffff * 0x1_0000_0000)
            by (nonlinear_arith)
            requires
                self.epoch <= 0xffff_ffffu32,
        ;
    }

    /// Unpacking a packed sequence yields it again.
    pub proof fn lemma_pack_unpack(self)
        ensures
            Sequence::spec_unpack(self.spec_pack()) == self,
    {
        vstd::arithmetic::div_mod::lemma_fundamental_div_mod_converse(
            self.spec_pack(),
            0x1_0000_0000,
            self.epoch as int,
            self.index as int,
        );
    }
}

/// One entry of a stream segment.
///
/// `Hole` materializes a gap so acknowledgement can pass it, `Event` carries
/// client bytes, and `Bridge` links a sealed segment to its successor epoch.
#[derive(Debug, PartialEq, Eq)]
pub enum Entry {
    Hole,
    Event { bytes: Vec<u8> },
    Bridge { epoch: u32 },
}

impl Clone for Entry {
    /// Cloning preserves the modelled value.
    fn clone(&self) -> (r: Self)
        ensures
            r@ == self@,
    {
        match self {
            Entry::Hole => Entry::Hole,
            Entry::Event { bytes } => Entry::Event { bytes: bytes.clone() },
            Entry::Bridge { epoch } => Entry::Bridge { epoch: *epoch },
        }
    }
}

/// The mathematical shape of an `Entry`: bytes become a sequence.
pub enum EntryModel {
    Hole,
    Event { bytes: Seq<u8> },
    Bridge { epoch: u32 },
}

impl View for Entry {
    type V = EntryModel;

    open spec fn view(&self) -> EntryModel {
        match self {
            Entry::Hole => EntryModel::Hole,
            Entry::Event { bytes } => EntryModel::Event { bytes: bytes@ },
            Entry::Bridge { epoch } => EntryModel::Bridge { epoch: *epoch },
        }
    }
}

/// The error taxonomy of the store.
#[derive(Clone, Copy, Debug, PartialEq, Eq, Structural)]
pub enum Error {
    /// A stream, segment or file that does not exist.
    NotFound,
    /// A stream or segment collision.
    AlreadyExists,
    /// A malformed request, or truncating entries that are not acknowledged.
    InvalidArgument,
    /// A writer epoch below the segment's promised epoch.
    Staled,
    /// A CRC failure, a truncated record, or a malformed manifest.
    Corruption,
    /// An underlying storage failure.
    IO,
    /// A transport-level timeout, surfaced as a state-machine message.
    Timeout,
}

} // verus!
