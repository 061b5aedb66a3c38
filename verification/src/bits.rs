//! Sequential bit-level reading and writing over in-memory byte buffers.
//!
//! A bit stream is modelled as a `Seq<bool>`. Within each byte, bits are
//! packed most significant first; multi-byte integer fields use a
//! caller-chosen [`ByteOrder`], each of their bytes again contributing its
//! bits most significant first.

use vstd::prelude::*;

verus! {

use crate::errors::CodecError;

/// Byte order of multi-byte integer fields in a bit stream.
///
/// Single bits are always packed most-significant-bit first within each byte,
/// whichever order the integer fields use.
#[derive(Clone, Copy, Debug, PartialEq, Eq, Structural)]
pub enum ByteOrder {
    /// Most significant byte first.
    Big,
    /// Least significant byte first.
    Little,
}

/// The eight bits of a byte, most significant first.
pub open spec fn byte_bits(b: u8) -> Seq<bool> {
    Seq::new(8, |i: int| (b >> ((7 - i) as u8)) & 1 == 1)
}

/// All bits of a byte stream: each byte contributes its eight bits, most
/// significant first.
pub open spec fn stream_bits(bytes: Seq<u8>) -> Seq<bool> {
    Seq::new(bytes.len() * 8, |i: int| byte_bits(bytes[i / 8])[i % 8])
}

/// The byte whose bits, most significant first, are the first eight bits of `s`.
pub open spec fn byte_of_bits(s: Seq<bool>) -> u8 {
    ((if s[0] { 128int } else { 0 }) + (if s[1] { 64int } else { 0 }) + (if s[2] { 32int } else { 0 }) + (if s[3] { 16int } else { 0 })
        + (if s[4] { 8int } else { 0 }) + (if s[5] { 4int } else { 0 }) + (if s[6] { 2int } else { 0 }) + (if s[7] { 1int } else { 0 })) as u8
}

/// The 32 bits of `v` as they appear in a stream under `order`.
pub open spec fn u32_bits(v: u32, order: ByteOrder) -> Seq<bool> {
    match order {
        ByteOrder::Big => byte_bits((v / 0x1000000) as u8) + byte_bits(((v / 0x10000) % 0x100) as u8)
            + byte_bits(((v / 0x100) % 0x100) as u8) + byte_bits((v % 0x100) as u8),
        ByteOrder::Little => byte_bits((v % 0x100) as u8) + byte_bits(((v / 0x100) % 0x100) as u8)
            + byte_bits(((v / 0x10000) % 0x100) as u8) + byte_bits((v / 0x1000000) as u8),
    }
}

/// The value whose 32 stream bits under `order` are the first 32 bits of `s`.
pub open spec fn u32_of_bits(s: Seq<bool>, order: ByteOrder) -> u32 {
    let b0 = byte_of_bits(s.subrange(0, 8));
    let b1 = byte_of_bits(s.subrange(8, 16));
    let b2 = byte_of_bits(s.subrange(16, 24));
    let b3 = byte_of_bits(s.subrange(24, 32));
    match order {
        ByteOrder::Big => (b0 * 0x1000000 + b1 * 0x10000 + b2 * 0x100 + b3) as u32,
        ByteOrder::Little => (b3 * 0x1000000 + b2 * 0x10000 + b1 * 0x100 + b0) as u32,
    }
}

/// `s` followed by the zero bits that pad it to the next byte boundary.
pub open spec fn pad_bits(s: Seq<bool>) -> Seq<bool> {
    s + Seq::new(((8 - s.len() % 8) % 8) as nat, |i: int| false)
}

/// Reading back the eight bits of a byte yields that byte.
pub proof fn lemma_byte_of_byte_bits(b: u8)
    ensures
        byte_of_bits(byte_bits(b)) == b,
{
    let s = byte_bits(b);
    assert(s[0] == ((b >> 7) & 1 == 1));
    assert(s[1] == ((b >> 6) & 1 == 1));
    assert(s[2] == ((b >> 5) & 1 == 1));
    assert(s[3] == ((b >> 4) & 1 == 1));
    assert(s[4] == ((b >> 3) & 1 == 1));
    assert(s[5] == ((b >> 2) & 1 == 1));
    assert(s[6] == ((b >> 1) & 1 == 1));
    assert(s[7] == ((b >> 0) & 1 == 1));
    assert((if (b >> 7) & 1 == 1 { 128int } else { 0 }) + (if (b >> 6) & 1 == 1 { 64int } else { 0 })
        + (if (b >> 5) & 1 == 1 { 32int } else { 0 }) + (if (b >> 4) & 1 == 1 { 16int } else { 0 })
        + (if (b >> 3) & 1 == 1 { 8int } else { 0 }) + (if (b >> 2) & 1 == 1 { 4int } else { 0 })
        + (if (b >> 1) & 1 == 1 { 2int } else { 0 }) + (if (b >> 0) & 1 == 1 { 1int } else { 0 }) == b) by (bit_vector);
}

/// Reading back the 32 stream bits of a value yields that value.
pub proof fn lemma_u32_of_u32_bits(v: u32, order: ByteOrder)
    ensures
        u32_of_bits(u32_bits(v, order), order) == v,
{
    let c0 = (v / 0x1000000) as u8;
    let c1 = ((v / 0x10000) % 0x100) as u8;
    let c2 = ((v / 0x100) % 0x100) as u8;
    let c3 = (v % 0x100) as u8;
    lemma_byte_of_byte_bits(c0);
    lemma_byte_of_byte_bits(c1);
    lemma_byte_of_byte_bits(c2);
    lemma_byte_of_byte_bits(c3);
    assert((v / 0x1000000) as u8 * 0x1000000 + ((v / 0x10000) % 0x100) as u8 * 0x10000
        + ((v / 0x100) % 0x100) as u8 * 0x100 + (v % 0x100) as u8 == v) by (bit_vector);
    let s = u32_bits(v, order);
    match order {
        ByteOrder::Big => {
            assert(s.subrange(0, 8) =~= byte_bits(c0));
            assert(s.subrange(8, 16) =~= byte_bits(c1));
            assert(s.subrange(16, 24) =~= byte_bits(c2));
            assert(s.subrange(24, 32) =~= byte_bits(c3));
        },
        ByteOrder::Little => {
            assert(s.subrange(0, 8) =~= byte_bits(c3));
            assert(s.subrange(8, 16) =~= byte_bits(c2));
            assert(s.subrange(16, 24) =~= byte_bits(c1));
            assert(s.subrange(24, 32) =~= byte_bits(c0));
        },
    }
}

/// Appending a byte to a stream appends its eight bits.
pub proof fn lemma_stream_bits_push(s: Seq<u8>, b: u8)
    ensures
        stream_bits(s.push(b)) == stream_bits(s) + byte_bits(b),
{
    let l = stream_bits(s.push(b));
    let r = stream_bits(s) + byte_bits(b);
    assert forall|i: int| 0 <= i < l.len() implies l[i] == r[i] by {
        if i < 8 * s.len() {
            assert(0 <= i / 8 < s.len() && i % 8 == i - 8 * (i / 8) && 0 <= i % 8 < 8) by (nonlinear_arith)
                requires 0 <= i < 8 * s.len();
            assert(s.push(b)[i / 8] == s[i / 8]);
        } else {
            assert(i / 8 == s.len() && i % 8 == i - 8 * s.len()) by (nonlinear_arith)
                requires 8 * s.len() <= i < 8 * s.len() + 8;
            assert(s.push(b)[i / 8] == b);
        }
    }
    assert(l =~= r);
}

/// Truncating a stream at a byte boundary truncates its bits there.
pub proof fn lemma_stream_bits_take(s: Seq<u8>, k: int)
    requires
        0 <= k <= s.len(),
    ensures
        stream_bits(s.take(k)) == stream_bits(s).take(8 * k),
{
    let l = stream_bits(s.take(k));
    let r = stream_bits(s).take(8 * k);
    assert(8 * k <= 8 * s.len());
    assert forall|i: int| 0 <= i < l.len() implies l[i] == r[i] by {
        assert(0 <= i / 8 < k && 0 <= i % 8 < 8) by (nonlinear_arith)
            requires 0 <= i < 8 * k;
        assert(s.take(k)[i / 8] == s[i / 8]);
    }
    assert(l =~= r);
}

/// No bit of the zero byte is set.
pub proof fn lemma_byte_bits_zero()
    ensures
        forall|i: int| 0 <= i < 8 ==> !byte_bits(0u8)[i],
{
    assert forall|i: int| 0 <= i < 8 implies !byte_bits(0u8)[i] by {
        let j = (7 - i) as u8;
        assert((0u8 >> j) & 1 == 0) by (bit_vector);
    }
}

/// Setting bit `n` (most significant first) leaves the other bits unchanged.
proof fn lemma_or_bit(c: u8, n: u8)
    requires
        n < 8,
    ensures
        forall|i: int| 0 <= i < 8 && i != n ==> byte_bits(c | (1u8 << ((7 - n) as u8)))[i] == byte_bits(c)[i],
        byte_bits(c | (1u8 << ((7 - n) as u8)))[n as int],
{
    let c2 = c | (1u8 << ((7 - n) as u8));
    assert forall|i: int| 0 <= i < 8 && i != n implies byte_bits(c2)[i] == byte_bits(c)[i] by {
        let j = (7 - i) as u8;
        assert(((c | (1u8 << ((7 - n) as u8))) >> j) & 1 == (c >> j) & 1) by (bit_vector)
            requires n < 8, j < 8, j + n != 7;
    }
    assert(((c | (1u8 << ((7 - n) as u8))) >> ((7 - n) as u8)) & 1 == 1) by (bit_vector)
        requires n < 8;
}

/// Sequential bit reader over a borrowed byte slice.
///
/// Bits are consumed most significant first within each byte. After a failed
/// read the position is unspecified; callers abort on failure.
pub struct BitReader<'a> {
    /// The underlying bytes.
    pub data: &'a [u8],
    /// Index of the byte holding the next unread bit.
    pub byte_idx: usize,
    /// Index of the next unread bit within that byte, counted from the most
    /// significant bit.
    pub bit_idx: u8,
}

impl<'a> BitReader<'a> {
    /// The underlying byte stream.
    pub open spec fn source(self) -> Seq<u8> {
        self.data@
    }

    /// The whole underlying bit stream.
    pub open spec fn bits(self) -> Seq<bool> {
        stream_bits(self.data@)
    }

    /// Current position in the stream, in bits.
    pub open spec fn pos(self) -> int {
        8 * self.byte_idx + self.bit_idx
    }

    pub open spec fn wf(self) -> bool {
        self.bit_idx < 8 && (self.byte_idx < self.data@.len() || (self.byte_idx == self.data@.len() && self.bit_idx == 0))
    }

    pub fn new(data: &'a [u8]) -> (r: BitReader<'a>)
        ensures
            r.wf(),
            r.pos() == 0,
            r.source() == data@,
    {
        BitReader { data, byte_idx: 0, bit_idx: 0 }
    }

    /// Consume one bit; fail if the stream is exhausted.
    pub fn read_bit(&mut self) -> (r: Result<bool, CodecError>)
        requires
            old(self).wf(),
        ensures
            final(self).wf(),
            final(self).source() == old(self).source(),
            match r {
                Ok(b) => final(self).pos() == old(self).pos() + 1
                    && old(self).pos() + 1 <= old(self).bits().len()
                    && b == old(self).bits()[old(self).pos()],
                Err(e) => e == CodecError::UnexpectedEndOfStream
                    && old(self).bits().len() < old(self).pos() + 1
                    && *final(self) == *old(self),
            },
    {
        if self.byte_idx < self.data.len() {
            let byte = self.data[self.byte_idx];
            let b = (byte >> (7 - self.bit_idx)) & 1 == 1;
            proof {
                let p = self.pos();
                let bi = self.byte_idx as int;
                let ki = self.bit_idx as int;
                let dlen = self.data@.len() as int;
                assert(p / 8 == bi && p % 8 == ki) by (nonlinear_arith)
                    requires p == 8 * bi + ki, 0 <= ki < 8, bi >= 0;
                assert(0 <= p < 8 * dlen) by (nonlinear_arith)
                    requires p == 8 * bi + ki, 0 <= ki < 8, 0 <= bi < dlen;
                assert(self.bits()[p] == byte_bits(self.data@[p / 8])[p % 8]);
                assert(byte_bits(byte)[self.bit_idx as int] == ((byte >> ((7 - self.bit_idx) as u8)) & 1 == 1));
            }
            if self.bit_idx == 7 {
                self.bit_idx = 0;
                self.byte_idx = self.byte_idx + 1;
            } else {
                self.bit_idx = self.bit_idx + 1;
            }
            Ok(b)
        } else {
            proof {
                assert(self.bits().len() == 8 * self.data@.len());
            }
            Err(CodecError::UnexpectedEndOfStream)
        }
    }

    /// Consume eight bits and return them as one byte, most significant first.
    pub fn read_byte(&mut self) -> (r: Result<u8, CodecError>)
        requires
            old(self).wf(),
        ensures
            final(self).wf(),
            final(self).source() == old(self).source(),
            match r {
                Ok(b) => final(self).pos() == old(self).pos() + 8
                    && old(self).pos() + 8 <= old(self).bits().len()
                    && b == byte_of_bits(old(self).bits().subrange(old(self).pos(), old(self).pos() + 8)),
                Err(e) => e == CodecError::UnexpectedEndOfStream
                    && old(self).bits().len() < old(self).pos() + 8,
            },
    {
        let b0 = match self.read_bit() { Ok(b) => b, Err(e) => { return Err(e); } };
        let b1 = match self.read_bit() { Ok(b) => b, Err(e) => { return Err(e); } };
        let b2 = match self.read_bit() { Ok(b) => b, Err(e) => { return Err(e); } };
        let b3 = match self.read_bit() { Ok(b) => b, Err(e) => { return Err(e); } };
        let b4 = match self.read_bit() { Ok(b) => b, Err(e) => { return Err(e); } };
        let b5 = match self.read_bit() { Ok(b) => b, Err(e) => { return Err(e); } };
        let b6 = match self.read_bit() { Ok(b) => b, Err(e) => { return Err(e); } };
        let b7 = match self.read_bit() { Ok(b) => b, Err(e) => { return Err(e); } };
        let r: u8 = (if b0 { 128 } else { 0 }) + (if b1 { 64 } else { 0 }) + (if b2 { 32 } else { 0 })
            + (if b3 { 16 } else { 0 }) + (if b4 { 8 } else { 0 }) + (if b5 { 4 } else { 0 })
            + (if b6 { 2 } else { 0 }) + (if b7 { 1 } else { 0 });
        proof {
            let s = old(self).bits().subrange(old(self).pos(), old(self).pos() + 8);
            assert(s[0] == b0 && s[1] == b1 && s[2] == b2 && s[3] == b3
                && s[4] == b4 && s[5] == b5 && s[6] == b6 && s[7] == b7);
        }
        Ok(r)
    }

    /// Consume 32 bits as four bytes and assemble them under `order`.
    pub fn read_u32(&mut self, order: ByteOrder) -> (r: Result<u32, CodecError>)
        requires
            old(self).wf(),
        ensures
            final(self).wf(),
            final(self).source() == old(self).source(),
            match r {
                Ok(v) => final(self).pos() == old(self).pos() + 32
                    && old(self).pos() + 32 <= old(self).bits().len()
                    && v == u32_of_bits(old(self).bits().subrange(old(self).pos(), old(self).pos() + 32), order),
                Err(e) => e == CodecError::UnexpectedEndOfStream
                    && old(self).bits().len() < old(self).pos() + 32,
            },
    {
        let c0 = match self.read_byte() { Ok(b) => b, Err(e) => { return Err(e); } };
        let c1 = match self.read_byte() { Ok(b) => b, Err(e) => { return Err(e); } };
        let c2 = match self.read_byte() { Ok(b) => b, Err(e) => { return Err(e); } };
        let c3 = match self.read_byte() { Ok(b) => b, Err(e) => { return Err(e); } };
        let v = match order {
            ByteOrder::Big => (c0 as u32) * 0x1000000 + (c1 as u32) * 0x10000 + (c2 as u32) * 0x100 + (c3 as u32),
            ByteOrder::Little => (c3 as u32) * 0x1000000 + (c2 as u32) * 0x10000 + (c1 as u32) * 0x100 + (c0 as u32),
        };
        proof {
            let p = old(self).pos();
            let s = old(self).bits().subrange(p, p + 32);
            assert(s.subrange(0, 8) =~= old(self).bits().subrange(p, p + 8));
            assert(s.subrange(8, 16) =~= old(self).bits().subrange(p + 8, p + 16));
            assert(s.subrange(16, 24) =~= old(self).bits().subrange(p + 16, p + 24));
            assert(s.subrange(24, 32) =~= old(self).bits().subrange(p + 24, p + 32));
        }
        Ok(v)
    }
}

/// Sequential bit writer producing a byte buffer.
///
/// Bits are buffered until a full byte is assembled; only whole bytes are
/// appended to the output.
pub struct BitWriter {
    /// Completed bytes.
    pub bytes: Vec<u8>,
    /// The byte being assembled, its unwritten low bits zero.
    pub cur: u8,
    /// How many bits of `cur` are filled, from the most significant bit down.
    pub nbits: u8,
}

impl BitWriter {
    /// Bits written so far.
    pub open spec fn bits(self) -> Seq<bool> {
        stream_bits(self.bytes@) + byte_bits(self.cur).take(self.nbits as int)
    }

    pub open spec fn wf(self) -> bool {
        self.nbits < 8 && (forall|i: int| self.nbits <= i < 8 ==> !byte_bits(self.cur)[i])
    }

    pub fn new() -> (r: BitWriter)
        ensures
            r.wf(),
            r.bits() == Seq::<bool>::empty(),
    {
        let w = BitWriter { bytes: Vec::new(), cur: 0, nbits: 0 };
        proof {
            lemma_byte_bits_zero();
            assert(w.bits() =~= Seq::<bool>::empty());
        }
        w
    }

    /// Append one bit.
    pub fn write_bit(&mut self, b: bool)
        requires
            old(self).wf(),
        ensures
            final(self).wf(),
            final(self).bits() == old(self).bits().push(b),
    {
        let n = self.nbits;
        let ghost c = self.cur;
        if b {
            self.cur = self.cur | (1u8 << (7 - n));
            proof {
                lemma_or_bit(c, n);
            }
        } else {
            proof {
                assert(!byte_bits(c)[n as int]);
            }
        }
        let ghost c2 = self.cur;
        proof {
            // Bits below `n` are unchanged and bit `n` now holds `b`.
            assert(forall|i: int| 0 <= i < 8 && i != n ==> byte_bits(c2)[i] == byte_bits(c)[i]);
            assert(byte_bits(c2)[n as int] == b);
            assert(byte_bits(c2).take(n as int + 1) =~= byte_bits(c).take(n as int).push(b));
        }
        if n == 7 {
            let full = self.cur;
            self.bytes.push(full);
            self.cur = 0;
            self.nbits = 0;
            proof {
                lemma_stream_bits_push(old(self).bytes@, full);
                lemma_byte_bits_zero();
                assert(byte_bits(c2) =~= byte_bits(c2).take(8));
                assert(self.bits() =~= old(self).bits().push(b));
            }
        } else {
            self.nbits = n + 1;
            proof {
                assert(self.bits() =~= old(self).bits().push(b));
            }
        }
    }

    /// Append the eight bits of `b`, most significant first.
    pub fn write_byte(&mut self, b: u8)
        requires
            old(self).wf(),
        ensures
            final(self).wf(),
            final(self).bits() == old(self).bits() + byte_bits(b),
    {
        let mut i: u8 = 0;
        while i < 8
            invariant
                i <= 8,
                self.wf(),
                self.bits() == old(self).bits() + byte_bits(b).take(i as int),
            decreases 8 - i,
        {
            let bit = (b >> (7 - i)) & 1 == 1;
            proof {
                assert(byte_bits(b)[i as int] == bit);
            }
            self.write_bit(bit);
            proof {
                assert(byte_bits(b).take(i as int + 1) =~= byte_bits(b).take(i as int).push(bit));
                assert((old(self).bits() + byte_bits(b).take(i as int)).push(bit)
                    =~= old(self).bits() + byte_bits(b).take(i as int + 1));
            }
            i = i + 1;
        }
        proof {
            assert(byte_bits(b).take(8) =~= byte_bits(b));
        }
    }

    /// Append the 32 bits of `v` as four bytes under `order`.
    pub fn write_u32(&mut self, v: u32, order: ByteOrder)
        requires
            old(self).wf(),
        ensures
            final(self).wf(),
            final(self).bits() == old(self).bits() + u32_bits(v, order),
    {
        let b_hi = (v / 0x1000000) as u8;
        let b_mh = ((v / 0x10000) % 0x100) as u8;
        let b_ml = ((v / 0x100) % 0x100) as u8;
        let b_lo = (v % 0x100) as u8;
        match order {
            ByteOrder::Big => {
                self.write_byte(b_hi);
                self.write_byte(b_mh);
                self.write_byte(b_ml);
                self.write_byte(b_lo);
                proof {
                    assert(final(self).bits() =~= old(self).bits() + u32_bits(v, order));
                }
            },
            ByteOrder::Little => {
                self.write_byte(b_lo);
                self.write_byte(b_ml);
                self.write_byte(b_mh);
                self.write_byte(b_hi);
                proof {
                    assert(final(self).bits() =~= old(self).bits() + u32_bits(v, order));
                }
            },
        }
    }

    /// Pad the current byte with zero bits up to the next byte boundary.
    pub fn align_to_byte(&mut self)
        requires
            old(self).wf(),
        ensures
            final(self).wf(),
            final(self).bits() == pad_bits(old(self).bits()),
            final(self).bits().len() % 8 == 0,
    {
        proof {
            let len = old(self).bits().len() as int;
            let nb = old(self).nbits as int;
            let blen = old(self).bytes@.len() as int;
            assert(len == 8 * blen + nb);
            assert(len % 8 == nb) by (nonlinear_arith)
                requires len == 8 * blen + nb, 0 <= nb < 8, blen >= 0;
        }
        if self.nbits > 0 {
            let full = self.cur;
            let ghost n = self.nbits;
            self.bytes.push(full);
            self.cur = 0;
            self.nbits = 0;
            proof {
                lemma_stream_bits_push(old(self).bytes@, full);
                lemma_byte_bits_zero();
                assert(byte_bits(full) =~= byte_bits(full).take(n as int)
                    + Seq::new((8 - n) as nat, |i: int| false));
                assert(self.bits() =~= pad_bits(old(self).bits()));
                let len2 = self.bits().len() as int;
                let blen2 = self.bytes@.len() as int;
                assert(len2 == 8 * blen2);
                assert(len2 % 8 == 0) by (nonlinear_arith)
                    requires len2 == 8 * blen2, blen2 >= 0;
            }
        } else {
            proof {
                assert(self.bits() =~= pad_bits(old(self).bits()));
            }
        }
    }

    /// Hand the assembled bytes out; every written bit must already lie in a
    /// full byte.
    pub fn into_bytes(self) -> (r: Vec<u8>)
        requires
            self.wf(),
            self.bits().len() % 8 == 0,
        ensures
            stream_bits(r@) == self.bits(),
            8 * r@.len() == self.bits().len(),
    {
        proof {
            let len = self.bits().len() as int;
            let nb = self.nbits as int;
            let blen = self.bytes@.len() as int;
            assert(len == 8 * blen + nb);
            assert(len % 8 == nb) by (nonlinear_arith)
                requires len == 8 * blen + nb, 0 <= nb < 8, blen >= 0;
            assert(self.nbits == 0);
            assert(self.bits() =~= stream_bits(self.bytes@));
        }
        self.bytes
    }
}

} // verus!
