//! CRC-32C (Castagnoli), bit by bit.
//!
//! Every record frame and manifest edit carries this checksum over its
//! payload. The executable function is proved equal to the mathematical
//! definition `spec_crc32c`, a fold of the reflected polynomial update over
//! the byte sequence.

use vstd::prelude::*;

verus! {

/// The reflected CRC-32C polynomial.
pub const CRC32C_POLY: u32 = 0x82F63B78;

/// One shift-and-conditionally-xor round.
pub open spec fn spec_crc_round(c: u32) -> u32 {
    if c & 1 == 1 {
        (c >> 1) ^ CRC32C_POLY
    } else {
        c >> 1
    }
}

/// `n` rounds applied to `c`.
#[verifier::opaque]
pub open spec fn spec_crc_rounds(c: u32, n: nat) -> u32
    decreases n,
{
    if n == 0 {
        c
    } else {
        spec_crc_round(spec_crc_rounds(c, (n - 1) as nat))
    }
}

/// Fold one byte into the running value.
pub open spec fn spec_crc_byte(c: u32, b: u8) -> u32 {
    spec_crc_rounds(c ^ (b as u32), 8)
}

/// Fold a whole byte sequence into the running value.
#[verifier::opaque]
pub open spec fn spec_crc_fold(s: Seq<u8>, c: u32) -> u32
    decreases s.len(),
{
    if s.len() == 0 {
        c
    } else {
        spec_crc_fold(s.drop_first(), spec_crc_byte(c, s[0]))
    }
}

/// The CRC-32C of a byte sequence.
pub open spec fn spec_crc32c(s: Seq<u8>) -> u32 {
    spec_crc_fold(s, 0xffff_ffffu32) ^ 0xffff_ffffu32
}

/// Compute the CRC-32C of `bytes`.
pub fn crc32c(bytes: &[u8]) -> (r: u32)
    ensures
        r == spec_crc32c(bytes@),
{
    let mut c: u32 = 0xffff_ffff;
    let mut i: usize = 0;
    let n: usize = bytes.len();
    proof {
        assert(bytes@.skip(0) =~= bytes@);
        reveal_with_fuel(spec_crc_fold, 1);
    }
    while i < n
        invariant
            i <= n,
            n == bytes@.len(),
            spec_crc_fold(bytes@, 0xffff_ffffu32) == spec_crc_fold(bytes@.skip(i as int), c),
        decreases n - i,
    {
        let b: u8 = bytes[i];
        let mut cc: u32 = c ^ (b as u32);
        proof {
            reveal_with_fuel(spec_crc_rounds, 1);
        }
        let mut j: usize = 0;
        while j < 8
            invariant
                j <= 8,
                cc == spec_crc_rounds(c ^ (b as u32), j as nat),
            decreases 8 - j,
        {
            cc = if cc & 1 == 1 {
                (cc >> 1usize) ^ CRC32C_POLY
            } else {
                cc >> 1usize
            };
            j = j + 1;
            proof {
                reveal_with_fuel(spec_crc_rounds, 2);
            }
        }
        proof {
            reveal_with_fuel(spec_crc_fold, 2);
            assert(bytes@.skip(i as int).drop_first() =~= bytes@.skip(i as int + 1));
            assert(bytes@.skip(i as int)[0] == bytes@[i as int]);
        }
        c = cc;
        i = i + 1;
    }
    proof {
        reveal_with_fuel(spec_crc_fold, 1);
        assert(bytes@.skip(n as int) =~= Seq::<u8>::empty());
    }
    c ^ 0xffff_ffff
}

} // verus!
