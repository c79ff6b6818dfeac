//! A bit-exact little-endian buffer codec.
//!
//! Every persistent format of the store is framed through these two types:
//! `BufWriter` appends fixed-width integers and length-prefixed slices to a
//! growing buffer, `BufReader` walks a byte buffer with a caller-visible
//! cursor. The byte-level meaning of each operation is pinned by the
//! `spec_le_*` functions, so the record and manifest codecs can be proved
//! round-trip exact.

use vstd::prelude::*;

verus! {

/// The four little-endian bytes of a 32-bit value.
pub open spec fn spec_le32(v: u32) -> Seq<u8> {
    seq![
        (v as int % 256) as u8,
        (v as int / 256 % 256) as u8,
        (v as int / 0x10000 % 256) as u8,
        (v as int / 0x1000000 % 256) as u8,
    ]
}

/// The value read back from four little-endian bytes.
pub open spec fn spec_le32_val(s: Seq<u8>) -> int {
    s[0] + s[1] * 256 + s[2] * 0x10000 + s[3] * 0x1000000
}

/// The eight little-endian bytes of a 64-bit value.
pub open spec fn spec_le64(v: u64) -> Seq<u8> {
    spec_le32((v as int % 0x1_0000_0000) as u32) + spec_le32((v as int / 0x1_0000_0000) as u32)
}

/// The value read back from eight little-endian bytes.
pub open spec fn spec_le64_val(s: Seq<u8>) -> int {
    spec_le32_val(s.subrange(0, 4)) + spec_le32_val(s.subrange(4, 8)) * 0x1_0000_0000
}

/// Reading the four bytes of `v` yields `v` again.
pub proof fn lemma_le32_roundtrip(v: u32)
    ensures
        spec_le32_val(spec_le32(v)) == v,
{
    let x = v as int;
    vstd::arithmetic::div_mod::lemma_fundamental_div_mod(x, 256);
    vstd::arithmetic::div_mod::lemma_fundamental_div_mod(x / 256, 256);
    vstd::arithmetic::div_mod::lemma_fundamental_div_mod(x / 256 / 256, 256);
    assert(x / 256 / 256 == x / 0x10000) by (nonlinear_arith);
    assert(x / 256 / 256 / 256 == x / 0x1000000) by (nonlinear_arith);
    assert(x / 0x1000000 < 256) by (nonlinear_arith)
        requires
            0 <= x && x < 0x1_0000_0000,
    ;
    assert(x / 0x1000000 % 256 == x / 0x1000000) by {
        vstd::arithmetic::div_mod::lemma_small_mod((x / 0x1000000) as nat, 256);
    };
}

/// Reading the eight bytes of `v` yields `v` again.
pub proof fn lemma_le64_roundtrip(v: u64)
    ensures
        spec_le64_val(spec_le64(v)) == v,
{
    let lo = (v as int % 0x1_0000_0000) as u32;
    let hi = (v as int / 0x1_0000_0000) as u32;
    vstd::arithmetic::div_mod::lemma_fundamental_div_mod(v as int, 0x1_0000_0000);
    assert(v as int / 0x1_0000_0000 < 0x1_0000_0000) by (nonlinear_arith)
        requires
            0 <= (v as int) < 0x1_0000_0000_0000_0000,
    ;
    lemma_le32_roundtrip(lo);
    lemma_le32_roundtrip(hi);
    assert(spec_le64(v).subrange(0, 4) =~= spec_le32(lo));
    assert(spec_le64(v).subrange(4, 8) =~= spec_le32(hi));
}

/// A little-endian buffer writer: appends to an owned byte buffer.
pub struct BufWriter {
    buf: Vec<u8>,
}

impl View for BufWriter {
    type V = Seq<u8>;

    closed spec fn view(&self) -> Seq<u8> {
        self.buf@
    }
}

impl BufWriter {
    /// An empty writer.
    pub fn new() -> (r: BufWriter)
        ensures
            r@ == Seq::<u8>::empty(),
    {
        BufWriter { buf: Vec::new() }
    }

    /// The number of bytes written so far.
    pub fn len(&self) -> (r: usize)
        ensures
            r == self@.len(),
    {
        self.buf.len()
    }

    /// Reserve `n` bytes, filled with zeroes.
    pub fn skip(&mut self, n: usize)
        requires
            old(self)@.len() + n <= usize::MAX,
        ensures
            final(self)@ == old(self)@ + Seq::<u8>::new(n as nat, |i: int| 0u8),
    {
        let mut i: usize = 0;
        while i < n
            invariant
                i <= n,
                self@ == old(self)@ + Seq::<u8>::new(i as nat, |j: int| 0u8),
                old(self)@.len() + n <= usize::MAX,
            decreases n - i,
        {
            self.buf.push(0u8);
            i = i + 1;
            proof {
                assert(self@ =~= old(self)@ + Seq::<u8>::new(i as nat, |j: int| 0u8));
            }
        }
    }

    /// Bytes written since the position `origin`.
    pub fn offset_from(&self, origin: usize) -> (r: usize)
        requires
            origin <= self@.len(),
        ensures
            r == self@.len() - origin,
    {
        self.buf.len() - origin
    }

    /// Append one byte.
    pub fn put_u8(&mut self, v: u8)
        ensures
            final(self)@ == old(self)@ + seq![v],
    {
        self.buf.push(v);
    }

    /// Append a 32-bit value, little endian.
    pub fn put_u32(&mut self, v: u32)
        ensures
            final(self)@ == old(self)@ + spec_le32(v),
    {
        self.buf.push((v % 256) as u8);
        self.buf.push((v / 256 % 256) as u8);
        self.buf.push((v / 0x10000 % 256) as u8);
        self.buf.push((v / 0x1000000 % 256) as u8);
        proof {
            assert(self@ =~= old(self)@ + spec_le32(v));
        }
    }

    /// Append a 64-bit value, little endian.
    pub fn put_u64(&mut self, v: u64)
        ensures
            final(self)@ == old(self)@ + spec_le64(v),
    {
        let lo: u32 = (v % 0x1_0000_0000) as u32;
        let hi: u32 = (v / 0x1_0000_0000) as u32;
        proof {
            assert(v as int / 0x1_0000_0000 < 0x1_0000_0000) by (nonlinear_arith)
                requires
                    0 <= (v as int) < 0x1_0000_0000_0000_0000,
            ;
        }
        self.put_u32(lo);
        self.put_u32(hi);
        proof {
            assert(self@ =~= old(self)@ + spec_le64(v));
        }
    }

    /// Append raw bytes.
    pub fn put_slice(&mut self, slice: &[u8])
        ensures
            final(self)@ == old(self)@ + slice@,
    {
        self.buf.extend_from_slice(slice);
    }

    /// Append a `u32` length prefix followed by the bytes themselves.
    pub fn put_length_prefixed_slice(&mut self, slice: &[u8])
        requires
            slice@.len() <= u32::MAX,
        ensures
            final(self)@ == old(self)@ + spec_le32(slice@.len() as u32) + slice@,
    {
        self.put_u32(slice.len() as u32);
        self.put_slice(slice);
    }

    /// The encoded size of a length-prefixed slice.
    pub fn length_prefixed_slice_size(slice: &[u8]) -> (r: usize)
        requires
            slice@.len() + 4 <= usize::MAX,
        ensures
            r == slice@.len() + 4,
    {
        4 + slice.len()
    }

    /// Surrender the written bytes.
    pub fn into_bytes(self) -> (r: Vec<u8>)
        ensures
            r@ == self@,
    {
        self.buf
    }
}

/// A little-endian buffer reader: a byte buffer with a cursor.
pub struct BufReader<'a> {
    buf: &'a [u8],
    pos: usize,
}

impl<'a> BufReader<'a> {
    pub closed spec fn bytes(&self) -> Seq<u8> {
        self.buf@
    }

    pub closed spec fn position(&self) -> int {
        self.pos as int
    }

    /// Well-formed: the cursor is inside the buffer.
    pub closed spec fn wf(&self) -> bool {
        self.pos <= self.buf@.len()
    }

    /// The cursor always sits between 0 and the buffer length.
    pub proof fn lemma_wf_bounds(&self)
        requires
            self.wf(),
        ensures
            0 <= self.position() <= self.bytes().len(),
    {
    }

    /// A reader over `buf` starting at offset `pos`.
    pub fn new(buf: &'a [u8], pos: usize) -> (r: BufReader<'a>)
        requires
            pos <= buf@.len(),
        ensures
            r.wf(),
            r.bytes() == buf@,
            r.position() == pos,
    {
        BufReader { buf, pos }
    }

    /// Bytes left to read.
    pub fn remaining(&self) -> (r: usize)
        requires
            self.wf(),
        ensures
            r == self.bytes().len() - self.position(),
    {
        self.buf.len() - self.pos
    }

    /// Advance the cursor by `n` bytes.
    pub fn skip(&mut self, n: usize)
        requires
            old(self).wf(),
            old(self).position() + n <= old(self).bytes().len(),
        ensures
            final(self).wf(),
            final(self).bytes() == old(self).bytes(),
            final(self).position() == old(self).position() + n,
    {
        let total: usize = self.buf.len();
        self.pos = self.pos + n;
    }

    /// Read one byte.
    pub fn get_u8(&mut self) -> (r: u8)
        requires
            old(self).wf(),
            old(self).position() + 1 <= old(self).bytes().len(),
        ensures
            final(self).wf(),
            final(self).bytes() == old(self).bytes(),
            final(self).position() == old(self).position() + 1,
            r == old(self).bytes()[old(self).position()],
    {
        let b: u8 = self.buf[self.pos];
        self.pos = self.pos + 1;
        b
    }

    /// Read a 32-bit value, little endian.
    pub fn get_u32(&mut self) -> (r: u32)
        requires
            old(self).wf(),
            old(self).position() + 4 <= old(self).bytes().len(),
        ensures
            final(self).wf(),
            final(self).bytes() == old(self).bytes(),
            final(self).position() == old(self).position() + 4,
            r == spec_le32_val(old(self).bytes().subrange(
                old(self).position(),
                old(self).position() + 4,
            )),
    {
        let b0: u32 = self.buf[self.pos] as u32;
        let b1: u32 = self.buf[self.pos + 1] as u32;
        let b2: u32 = self.buf[self.pos + 2] as u32;
        let b3: u32 = self.buf[self.pos + 3] as u32;
        self.pos = self.pos + 4;
        b0 + b1 * 256 + b2 * 0x10000 + b3 * 0x1000000
    }

    /// Read a 64-bit value, little endian.
    pub fn get_u64(&mut self) -> (r: u64)
        requires
            old(self).wf(),
            old(self).position() + 8 <= old(self).bytes().len(),
        ensures
            final(self).wf(),
            final(self).bytes() == old(self).bytes(),
            final(self).position() == old(self).position() + 8,
            r == spec_le64_val(old(self).bytes().subrange(
                old(self).position(),
                old(self).position() + 8,
            )),
    {
        let lo: u64 = self.get_u32() as u64;
        let hi: u64 = self.get_u32() as u64;
        proof {
            let s = old(self).bytes().subrange(old(self).position(), old(self).position() + 8);
            assert(s.subrange(0, 4) =~= old(self).bytes().subrange(
                old(self).position(),
                old(self).position() + 4,
            ));
            assert(s.subrange(4, 8) =~= old(self).bytes().subrange(
                old(self).position() + 4,
                old(self).position() + 8,
            ));
        }
        lo + hi * 0x1_0000_0000
    }

    /// Read `len` raw bytes into an owned buffer.
    pub fn get_slice(&mut self, len: usize) -> (r: Vec<u8>)
        requires
            old(self).wf(),
            old(self).position() + len <= old(self).bytes().len(),
        ensures
            final(self).wf(),
            final(self).bytes() == old(self).bytes(),
            final(self).position() == old(self).position() + len,
            r@ == old(self).bytes().subrange(old(self).position(), old(self).position() + len),
    {
        let total: usize = self.buf.len();
        let mut out: Vec<u8> = Vec::new();
        let mut i: usize = 0;
        while i < len
            invariant
                i <= len,
                self.wf(),
                self.bytes() == old(self).bytes(),
                self.position() == old(self).position(),
                old(self).position() + len <= old(self).bytes().len(),
                out@ == old(self).bytes().subrange(
                    old(self).position(),
                    old(self).position() + i,
                ),
                total == self.bytes().len(),
            decreases len - i,
        {
            out.push(self.buf[self.pos + i]);
            i = i + 1;
            proof {
                assert(out@ =~= old(self).bytes().subrange(
                    old(self).position(),
                    old(self).position() + i,
                ));
            }
        }
        self.pos = self.pos + len;
        out
    }

    /// Read a `u32` length prefix, then that many raw bytes.
    pub fn get_length_prefixed_slice(&mut self) -> (r: Option<Vec<u8>>)
        requires
            old(self).wf(),
        ensures
            final(self).wf(),
            final(self).bytes() == old(self).bytes(),
            match r {
                Some(v) => {
                    &&& old(self).position() + 4 <= old(self).bytes().len()
                    &&& v@.len() == spec_le32_val(old(self).bytes().subrange(
                        old(self).position(),
                        old(self).position() + 4,
                    ))
                    &&& v@ == old(self).bytes().subrange(
                        old(self).position() + 4,
                        old(self).position() + 4 + v@.len(),
                    )
                    &&& final(self).position() == old(self).position() + 4 + v@.len()
                },
                None => {
                    &&& final(self).position() == old(self).position()
                    &&& (old(self).bytes().len() - old(self).position() < 4 || spec_le32_val(
                        old(self).bytes().subrange(
                            old(self).position(),
                            old(self).position() + 4,
                        ),
                    ) > old(self).bytes().len() - old(self).position() - 4)
                },
            },
    {
        if self.remaining() < 4 {
            return None;
        }
        let saved: usize = self.pos;
        let len: u32 = self.get_u32();
        if (len as usize) > self.remaining() {
            self.pos = saved;
            return None;
        }
        Some(self.get_slice(len as usize))
    }
}

} // verus!
