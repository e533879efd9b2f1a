//! LSB-first bit stream matching the Source engine's `bf_read`: bits come
//! out of each byte least-significant first, bytes in memory order.

use vstd::prelude::*;
use vstd::arithmetic::power2::pow2;
use vstd::string::StringSliceAdditionalSpecFns;
use crate::text::{string_from_utf8_lossy, decoded_text};

verus! {

/// Bit `j` (0 = least significant) of byte `b`.
pub open spec fn byte_bit(b: u8, j: int) -> bool {
    (b >> (j as u8)) & 1u8 == 1u8
}

/// Bit `i` of a byte sequence read LSB-first.
pub open spec fn bit_at(data: Seq<u8>, i: int) -> bool {
    byte_bit(data[i / 8], i % 8)
}

/// The first `n` bits of `data`, in stream order.
pub open spec fn stream_bits(data: Seq<u8>, n: nat) -> Seq<bool> {
    Seq::new(n, |i: int| bit_at(data, i))
}

/// The unsigned value of the `n` bits starting at `pos`, first bit least
/// significant.
pub open spec fn bits_value(bits: Seq<bool>, pos: int, n: nat) -> nat
    decreases n,
{
    if n == 0 {
        0
    } else {
        bits_value(bits, pos, (n - 1) as nat) + if bits[pos + n - 1] {
            pow2((n - 1) as nat)
        } else {
            0
        }
    }
}

/// What reading `n` bits at `pos` yields: their value, or nothing when
/// fewer than `n` bits remain.
pub open spec fn spec_read(bits: Seq<bool>, pos: int, n: nat) -> Option<nat> {
    if 0 <= pos && pos + n <= bits.len() {
        Some(bits_value(bits, pos, n))
    } else {
        None
    }
}

/// The bytes of a NUL-terminated string starting at `pos` (8 bits per
/// byte, terminator excluded), or nothing when the stream ends first.
pub open spec fn spec_cstring(bits: Seq<bool>, pos: int) -> Option<Seq<u8>>
    decreases bits.len() - pos,
{
    if pos < 0 || pos + 8 > bits.len() {
        None
    } else {
        let b = bits_value(bits, pos, 8);
        if b == 0 {
            Some(Seq::<u8>::empty())
        } else {
            match spec_cstring(bits, pos + 8) {
                Some(rest) => Some(seq![b as u8] + rest),
                None => None,
            }
        }
    }
}

/// Where the cursor stands after the string read at `pos`.
pub open spec fn cstring_end(pos: int, s: Seq<u8>) -> int {
    pos + 8 * (s.len() + 1)
}

/// The variable-length integer of the engine's ReadVarInt32 at `pos`: up
/// to five groups of 8 bits, each contributing its low 7 bits at 7-bit
/// steps (truncated to 32 bits) and continuing while its top bit is set.
/// Yields the cursor after the last group read and the value.
pub open spec fn spec_varint(bits: Seq<bool>, pos: int, count: nat, acc: u32) -> Option<(int, u32)>
    decreases 5 - count,
{
    if count >= 5 {
        Some((pos, acc))
    } else {
        match spec_read(bits, pos, 8) {
            None => None,
            Some(b) => {
                let acc2 = acc | (((b as u32) & 0x7fu32) << ((7 * count) as u32));
                if (b as u32) & 0x80u32 != 0 {
                    spec_varint(bits, pos + 8, count + 1, acc2)
                } else {
                    Some((pos + 8, acc2))
                }
            },
        }
    }
}

/// The parts of a bit-packed world coordinate (the engine's ReadBitCoord),
/// kept as the integers that were transmitted.
#[derive(Debug, Clone, Copy, PartialEq, Eq)]
pub struct BitCoord {
    pub negative: bool,
    /// Whole units; 0 when absent (the transmitted 14-bit field plus 1).
    pub integer: u32,
    /// 1/32 units; 0 when absent (the transmitted 5-bit field).
    pub fraction: u32,
}

/// A ReadBitCoord at `pos`: integer and fraction presence flags, then (if
/// either is set) a sign bit, the 14-bit integer part and the 5-bit
/// fraction part, each only when flagged.
pub open spec fn spec_bit_coord(bits: Seq<bool>, pos: int) -> Option<(int, BitCoord)> {
    if pos < 0 || pos + 2 > bits.len() {
        None
    } else {
        let has_int = bits[pos];
        let has_frac = bits[pos + 1];
        if !has_int && !has_frac {
            Some((pos + 2, BitCoord { negative: false, integer: 0, fraction: 0 }))
        } else {
            let int_len: int = if has_int { 14 } else { 0 };
            let frac_len: int = if has_frac { 5 } else { 0 };
            let end = pos + 3 + int_len + frac_len;
            if end > bits.len() {
                None
            } else {
                Some((end, BitCoord {
                    negative: bits[pos + 2],
                    integer: if has_int { (bits_value(bits, pos + 3, 14) + 1) as u32 } else { 0 },
                    fraction: if has_frac { bits_value(bits, pos + 3 + int_len, 5) as u32 } else { 0 },
                }))
            }
        }
    }
}

/// The `n` bytes (8 bits each) at `pos`.
pub open spec fn spec_bytes_at(bits: Seq<bool>, pos: int, n: nat) -> Seq<u8> {
    Seq::new(n, |k: int| bits_value(bits, pos + 8 * k, 8) as u8)
}

/// Why reading a bit-packed wire format failed.
#[derive(Debug, Clone, Copy, PartialEq, Eq)]
pub enum WireError {
    /// Fewer bits were left than the read needed.
    Exhausted,
    /// A net message type this engine branch does not define.
    UnknownMessage(u8),
    /// A game event whose type id has no definition in the demo.
    UnknownEventId(u16),
    /// A game-event field type other than 1..=7.
    UnknownValueKind(u8),
}

pub struct BitReader<'a> {
    data: &'a [u8],
    /// Number of readable bits (at most `data.len() * 8`).
    end: usize,
    /// Cursor in bits from the start of `data`.
    pos: usize,
}

impl<'a> BitReader<'a> {
    /// The readable bits of the stream.
    pub closed spec fn bits(&self) -> Seq<bool> {
        stream_bits(self.data@, self.end as nat)
    }

    /// The cursor, in bits.
    pub closed spec fn pos(&self) -> nat {
        self.pos as nat
    }

    pub closed spec fn wf(&self) -> bool {
        &&& self.end <= self.data@.len() * 8
        &&& self.data@.len() * 8 <= usize::MAX
        &&& self.end + 8 <= usize::MAX
        &&& self.pos <= self.end
    }

    /// The reader's invariant as its users see it.
    pub open spec fn valid(&self) -> bool {
        &&& self.wf()
        &&& self.pos() <= self.bits().len()
        &&& self.bits().len() + 8 <= usize::MAX
    }

    pub fn new(data: &'a [u8]) -> (r: Self)
        requires
            data@.len() * 8 + 8 <= usize::MAX,
        ensures
            r.valid(),
            r.pos() == 0,
            r.bits() == stream_bits(data@, (data@.len() * 8) as nat),
    {
        BitReader { data, end: data.len() * 8, pos: 0 }
    }

    pub fn bits_left(&self) -> (n: usize)
        requires
            self.valid(),
        ensures
            n == self.bits().len() - self.pos(),
    {
        self.end - self.pos
    }

    /// Read `n` bits (n <= 32), LSB-first.
    pub fn read_bits(&mut self, n: u32) -> (r: Result<u32, WireError>)
        requires
            old(self).valid(),
            n <= 32,
        ensures
            final(self).valid(),
            final(self).bits() == old(self).bits(),
            old(self).pos() <= final(self).pos(),
            spec_read(old(self).bits(), old(self).pos() as int, n as nat) matches Some(v) ==> {
                &&& r == Ok::<u32, WireError>(v as u32)
                &&& v < pow2(n as nat)
                &&& v <= u32::MAX
                &&& final(self).pos() == old(self).pos() + n
            },
            spec_read(old(self).bits(), old(self).pos() as int, n as nat) is None ==> {
                &&& r == Err::<u32, WireError>(WireError::Exhausted)
                &&& final(self).pos() == old(self).pos()
            },
    {
        if self.end - self.pos < n as usize {
            return Err(WireError::Exhausted);
        }
        let ghost bits = self.bits();
        let ghost start = self.pos as int;
        let mut out: u32 = 0;
        let mut i: u32 = 0;
        proof {
            vstd::arithmetic::power2::lemma_pow2_pos(0);
        }
        while i < n
            invariant
                self.wf(),
                self.bits() == bits,
                i <= n <= 32,
                self.pos == start + i,
                start + n <= bits.len(),
                out as nat == bits_value(bits, start, i as nat),
                (out as nat) < pow2(i as nat),
            decreases n - i,
        {
            let p = self.pos;
            let byte = self.data[p / 8];
            let bit: u8 = (byte >> ((p % 8) as u8)) & 1u8;
            proof {
                assert(bits[start + i] == bit_at(self.data@, p as int));
                lemma_bit_is_0_or_1(byte, (p % 8) as u8);
                lemma_or_shifted_bit(out, bit as u32, i);
                vstd::arithmetic::power2::lemma_pow2_unfold((i + 1) as nat);
            }
            out = out | ((bit as u32) << i);
            self.pos = self.pos + 1;
            i = i + 1;
        }
        Ok(out)
    }
}

impl<'a> BitReader<'a> {
    pub fn read_bit(&mut self) -> (r: Result<bool, WireError>)
        requires
            old(self).valid(),
        ensures
            final(self).valid(),
            final(self).bits() == old(self).bits(),
            old(self).pos() <= final(self).pos(),
            old(self).pos() < old(self).bits().len() ==> {
                &&& r == Ok::<bool, WireError>(old(self).bits()[old(self).pos() as int])
                &&& final(self).pos() == old(self).pos() + 1
            },
            old(self).pos() >= old(self).bits().len() ==> {
                &&& r == Err::<bool, WireError>(WireError::Exhausted)
                &&& final(self).pos() == old(self).pos()
            },
    {
        let v = self.read_bits(1)?;
        proof {
            reveal_with_fuel(bits_value, 2);
            vstd::arithmetic::power2::lemma2_to64();
        }
        Ok(v == 1)
    }

    pub fn read_u8(&mut self) -> (r: Result<u8, WireError>)
        requires
            old(self).valid(),
        ensures
            final(self).valid(),
            final(self).bits() == old(self).bits(),
            old(self).pos() <= final(self).pos(),
            spec_read(old(self).bits(), old(self).pos() as int, 8) matches Some(v) ==> {
                &&& r == Ok::<u8, WireError>(v as u8)
                &&& final(self).pos() == old(self).pos() + 8
            },
            spec_read(old(self).bits(), old(self).pos() as int, 8) is None ==> {
                &&& r == Err::<u8, WireError>(WireError::Exhausted)
                &&& final(self).pos() == old(self).pos()
            },
    {
        let v = self.read_bits(8)?;
        proof {
            lemma_bits_value_bound(old(self).bits(), old(self).pos() as int, 8);
            vstd::arithmetic::power2::lemma2_to64();
        }
        Ok(v as u8)
    }

    pub fn read_i16(&mut self) -> (r: Result<i16, WireError>)
        requires
            old(self).valid(),
        ensures
            final(self).valid(),
            final(self).bits() == old(self).bits(),
            old(self).pos() <= final(self).pos(),
            spec_read(old(self).bits(), old(self).pos() as int, 16) matches Some(v) ==> {
                &&& r == Ok::<i16, WireError>(v as u16 as i16)
                &&& final(self).pos() == old(self).pos() + 16
            },
            spec_read(old(self).bits(), old(self).pos() as int, 16) is None ==> {
                &&& r == Err::<i16, WireError>(WireError::Exhausted)
                &&& final(self).pos() == old(self).pos()
            },
    {
        let v = self.read_bits(16)?;
        proof {
            lemma_bits_value_bound(old(self).bits(), old(self).pos() as int, 16);
            vstd::arithmetic::power2::lemma2_to64();
        }
        Ok(v as u16 as i16)
    }

    pub fn read_u32(&mut self) -> (r: Result<u32, WireError>)
        requires
            old(self).valid(),
        ensures
            final(self).valid(),
            final(self).bits() == old(self).bits(),
            old(self).pos() <= final(self).pos(),
            spec_read(old(self).bits(), old(self).pos() as int, 32) matches Some(v) ==> {
                &&& r == Ok::<u32, WireError>(v as u32)
                &&& final(self).pos() == old(self).pos() + 32
            },
            spec_read(old(self).bits(), old(self).pos() as int, 32) is None ==> {
                &&& r == Err::<u32, WireError>(WireError::Exhausted)
                &&& final(self).pos() == old(self).pos()
            },
    {
        self.read_bits(32)
    }

    /// Advance the cursor by `n` bits without reading them.
    pub fn skip_bits(&mut self, n: usize) -> (r: Result<(), WireError>)
        requires
            old(self).valid(),
        ensures
            final(self).valid(),
            final(self).bits() == old(self).bits(),
            old(self).pos() <= final(self).pos(),
            old(self).pos() + n <= old(self).bits().len() ==> {
                &&& r == Ok::<(), WireError>(())
                &&& final(self).pos() == old(self).pos() + n
            },
            old(self).pos() + n > old(self).bits().len() ==> {
                &&& r == Err::<(), WireError>(WireError::Exhausted)
                &&& final(self).pos() == old(self).pos()
            },
    {
        if self.end - self.pos < n {
            return Err(WireError::Exhausted);
        }
        self.pos = self.pos + n;
        Ok(())
    }

    /// Read the bytes of a NUL-terminated string (terminator consumed, not
    /// returned). On failure the cursor does not move.
    pub fn read_string_bytes(&mut self) -> (r: Result<Vec<u8>, WireError>)
        requires
            old(self).valid(),
        ensures
            final(self).valid(),
            final(self).bits() == old(self).bits(),
            old(self).pos() <= final(self).pos(),
            spec_cstring(old(self).bits(), old(self).pos() as int) matches Some(s) ==> {
                &&& r matches Ok(v) && v@ == s
                &&& final(self).pos() == cstring_end(old(self).pos() as int, s)
            },
            spec_cstring(old(self).bits(), old(self).pos() as int) is None ==> {
                &&& r == Err::<Vec<u8>, WireError>(WireError::Exhausted)
                &&& final(self).pos() == old(self).pos()
            },
    {
        let start = self.pos;
        let ghost bits = self.bits();
        let mut out: Vec<u8> = Vec::new();
        loop
            invariant
                self.valid(),
                self.bits() == bits,
                bits == old(self).bits(),
                start == old(self).pos(),
                start <= self.pos(),
                self.pos() == start + 8 * out@.len(),
                spec_cstring(bits, start as int) == match spec_cstring(bits, self.pos() as int) {
                    Some(rest) => Some(out@ + rest),
                    None => None::<Seq<u8>>,
                },
            decreases bits.len() - self.pos(),
        {
            let ghost p = self.pos() as int;
            match self.read_bits(8) {
                Err(e) => {
                    self.pos = start;
                    return Err(e);
                },
                Ok(b) => {
                    proof {
                        lemma_bits_value_bound(bits, p, 8);
                        vstd::arithmetic::power2::lemma2_to64();
                    }
                    if b == 0 {
                        proof {
                            assert(spec_cstring(bits, p) == Some(Seq::<u8>::empty()));
                            assert(out@ + Seq::<u8>::empty() =~= out@);
                        }
                        return Ok(out);
                    }
                    proof {
                        lemma_bits_value_bound(bits, p, 8);
                        vstd::arithmetic::power2::lemma2_to64();
                        match spec_cstring(bits, p + 8) {
                            Some(rest) => {
                                assert(out@ + (seq![b as u8] + rest) =~= out@.push(b as u8) + rest);
                            },
                            None => {},
                        }
                    }
                    out.push(b as u8);
                },
            }
        }
    }

    /// Read `n` whole bytes, 8 bits each. On failure the cursor does not
    /// move.
    pub fn read_bytes(&mut self, n: usize) -> (r: Result<Vec<u8>, WireError>)
        requires
            old(self).valid(),
        ensures
            final(self).valid(),
            final(self).bits() == old(self).bits(),
            old(self).pos() <= final(self).pos(),
            old(self).pos() + 8 * n <= old(self).bits().len() ==> {
                &&& r matches Ok(v) && v@ == spec_bytes_at(old(self).bits(), old(self).pos() as int, n as nat)
                &&& final(self).pos() == old(self).pos() + 8 * n
            },
            old(self).pos() + 8 * n > old(self).bits().len() ==> {
                &&& r == Err::<Vec<u8>, WireError>(WireError::Exhausted)
                &&& final(self).pos() == old(self).pos()
            },
    {
        if n > (self.end - self.pos) / 8 {
            return Err(WireError::Exhausted);
        }
        let ghost bits = self.bits();
        let ghost start = self.pos() as int;
        let mut out: Vec<u8> = Vec::new();
        let mut k: usize = 0;
        while k < n
            invariant
                self.valid(),
                self.bits() == bits,
                bits == old(self).bits(),
                start == old(self).pos(),
                0 <= start,
                k <= n,
                start + 8 * n <= bits.len(),
                self.pos() == start + 8 * k,
                out@ == spec_bytes_at(bits, start, k as nat),
            decreases n - k,
        {
            let b = match self.read_bits(8) {
                Ok(b) => b,
                Err(e) => {
                    return Err(e);
                },
            };
            proof {
                vstd::arithmetic::power2::lemma2_to64();
            }
            out.push(b as u8);
            proof {
                assert(out@ =~= spec_bytes_at(bits, start, (k + 1) as nat));
            }
            k = k + 1;
        }
        Ok(out)
    }

    /// Read a NUL-terminated string, decoded lossily. On failure the cursor
    /// does not move.
    pub fn read_string(&mut self) -> (r: Result<String, WireError>)
        requires
            old(self).valid(),
        ensures
            final(self).valid(),
            final(self).bits() == old(self).bits(),
            old(self).pos() <= final(self).pos(),
            spec_cstring(old(self).bits(), old(self).pos() as int) matches Some(s) ==> {
                &&& r matches Ok(t) && t@ == decoded_text(s)
                &&& final(self).pos() == cstring_end(old(self).pos() as int, s)
            },
            spec_cstring(old(self).bits(), old(self).pos() as int) is None ==> {
                &&& r == Err::<String, WireError>(WireError::Exhausted)
                &&& final(self).pos() == old(self).pos()
            },
    {
        let bytes = self.read_string_bytes()?;
        Ok(string_from_utf8_lossy(bytes.as_slice()))
    }

    /// Read `n` bits into a chunk of their own. On failure the cursor does
    /// not move.
    pub fn read_chunk(&mut self, n: usize) -> (r: Result<BitChunk, WireError>)
        requires
            old(self).valid(),
        ensures
            final(self).valid(),
            final(self).bits() == old(self).bits(),
            old(self).pos() <= final(self).pos(),
            old(self).pos() + n <= old(self).bits().len() ==> {
                &&& r matches Ok(c) && c.wf()
                    && c@ == old(self).bits().subrange(old(self).pos() as int, old(self).pos() + n)
                &&& final(self).pos() == old(self).pos() + n
            },
            old(self).pos() + n > old(self).bits().len() ==> {
                &&& r is Err
                &&& r == Err::<BitChunk, WireError>(WireError::Exhausted)
                &&& final(self).pos() == old(self).pos()
            },
    {
        if self.end - self.pos < n {
            return Err(WireError::Exhausted);
        }
        let ghost bits = self.bits();
        let ghost start = self.pos() as int;
        let mut w = BitWriter::new();
        let mut i: usize = 0;
        while i < n
            invariant
                self.valid(),
                self.bits() == bits,
                i <= n,
                start + n <= bits.len(),
                self.pos() == start + i,
                w.wf(),
                0 <= start,
                w@ == bits.subrange(start, start + i),
                w@.len() == i,
                bits.len() + 8 <= usize::MAX,
            decreases n - i,
        {
            let b = self.read_bit();
            let b = match b {
                Ok(b) => b,
                Err(e) => {
                    return Err(e);
                },
            };
            let ghost before = w@;
            w.write_bit(b);
            proof {
                assert(b == bits[start + i]);
                assert(w@ == before.push(b));
                assert(w@ =~= bits.subrange(start, start + i + 1));
            }
            i = i + 1;
        }
        Ok(w.into_chunk())
    }

    /// The engine's ReadVarInt32. On failure the cursor does not move.
    pub fn read_var_int(&mut self) -> (r: Result<u32, WireError>)
        requires
            old(self).valid(),
        ensures
            final(self).valid(),
            final(self).bits() == old(self).bits(),
            old(self).pos() <= final(self).pos(),
            spec_varint(old(self).bits(), old(self).pos() as int, 0, 0) matches Some((end, v)) ==> {
                &&& r == Ok::<u32, WireError>(v)
                &&& final(self).pos() == end
            },
            spec_varint(old(self).bits(), old(self).pos() as int, 0, 0) is None ==> {
                &&& r == Err::<u32, WireError>(WireError::Exhausted)
                &&& final(self).pos() == old(self).pos()
            },
    {
        let start = self.pos;
        let ghost bits = self.bits();
        let mut result: u32 = 0;
        let mut count: u32 = 0;
        while count < 5
            invariant
                self.valid(),
                self.bits() == bits,
                bits == old(self).bits(),
                start == old(self).pos(),
                count <= 5,
                start <= self.pos(),
                spec_varint(bits, start as int, 0, 0) == spec_varint(bits, self.pos() as int, count as nat, result),
            decreases 5 - count,
        {
            let b = match self.read_bits(8) {
                Ok(b) => b,
                Err(e) => {
                    self.pos = start;
                    return Err(e);
                },
            };
            result = result | ((b & 0x7f) << (7 * count));
            count = count + 1;
            if b & 0x80 == 0 {
                return Ok(result);
            }
        }
        Ok(result)
    }

    /// The engine's ReadBitCoord, as the transmitted integers. On failure
    /// the cursor does not move.
    pub fn read_bit_coord(&mut self) -> (r: Result<BitCoord, WireError>)
        requires
            old(self).valid(),
        ensures
            final(self).valid(),
            final(self).bits() == old(self).bits(),
            old(self).pos() <= final(self).pos(),
            spec_bit_coord(old(self).bits(), old(self).pos() as int) matches Some((end, c)) ==> {
                &&& r == Ok::<BitCoord, WireError>(c)
                &&& final(self).pos() == end
            },
            spec_bit_coord(old(self).bits(), old(self).pos() as int) is None ==> {
                &&& r == Err::<BitCoord, WireError>(WireError::Exhausted)
                &&& final(self).pos() == old(self).pos()
            },
    {
        let start = self.pos;
        let has_int = match self.read_bit() {
            Ok(b) => b,
            Err(e) => {
                return Err(e);
            },
        };
        let has_frac = match self.read_bit() {
            Ok(b) => b,
            Err(e) => {
                self.pos = start;
                return Err(e);
            },
        };
        if !has_int && !has_frac {
            return Ok(BitCoord { negative: false, integer: 0, fraction: 0 });
        }
        let need: usize = 1 + if has_int { 14 } else { 0 } + if has_frac { 5 } else { 0 };
        if self.end - self.pos < need {
            self.pos = start;
            return Err(WireError::Exhausted);
        }
        let negative = match self.read_bit() {
            Ok(b) => b,
            Err(e) => {
                self.pos = start;
                return Err(e);
            },
        };
        let mut integer: u32 = 0;
        if has_int {
            integer = match self.read_bits(14) {
                Ok(v) => v,
                Err(e) => {
                    self.pos = start;
                    return Err(e);
                },
            };
            proof {
                lemma_bits_value_bound(self.bits(), start + 3, 14);
                vstd::arithmetic::power2::lemma2_to64();
            }
            integer = integer + 1;
        }
        let mut fraction: u32 = 0;
        if has_frac {
            fraction = match self.read_bits(5) {
                Ok(v) => v,
                Err(e) => {
                    self.pos = start;
                    return Err(e);
                },
            };
        }
        Ok(BitCoord { negative, integer, fraction })
    }
}

/// A run of bits cut out of a stream, packed LSB-first into bytes (unused
/// high bits of the last byte are zero).
pub struct BitChunk {
    pub bytes: Vec<u8>,
    len: usize,
}

impl View for BitChunk {
    type V = Seq<bool>;

    closed spec fn view(&self) -> Seq<bool> {
        stream_bits(self.bytes@, self.len as nat)
    }
}

/// The bytes hold exactly `len` bits, the rest zero.
pub open spec fn packed(bytes: Seq<u8>, len: nat) -> bool {
    &&& bytes.len() == (len + 7) / 8
    &&& forall|i: int| len <= i < bytes.len() * 8 ==> !#[trigger] bit_at(bytes, i)
}

impl BitChunk {
    pub closed spec fn wf(&self) -> bool {
        &&& packed(self.bytes@, self.len as nat)
        &&& self.len + 8 <= usize::MAX
    }

    /// The chunk's bits, as the number of them.
    pub fn len_bits(&self) -> (n: usize)
        ensures
            n == self@.len(),
    {
        self.len
    }

    /// A reader over exactly the chunk's bits.
    pub fn reader(&self) -> (r: BitReader<'_>)
        requires
            self.wf(),
        ensures
            r.valid(),
            r.pos() == 0,
            r.bits() == self@,
    {
        BitReader { data: self.bytes.as_slice(), end: self.len, pos: 0 }
    }
}

/// Writes bits LSB-first into bytes; the inverse of [`BitReader`].
pub struct BitWriter {
    pub bytes: Vec<u8>,
    len: usize,
}

impl View for BitWriter {
    type V = Seq<bool>;

    closed spec fn view(&self) -> Seq<bool> {
        stream_bits(self.bytes@, self.len as nat)
    }
}

/// The bits of each byte in turn, 8 per byte, LSB-first.
pub open spec fn byte_bits(bytes: Seq<u8>) -> Seq<bool> {
    stream_bits(bytes, bytes.len() * 8)
}

/// The low `n` bits of `v`, least significant first.
pub open spec fn u32_bits(v: u32, n: nat) -> Seq<bool> {
    Seq::new(n, |i: int| (v >> (i as u32)) & 1u32 == 1u32)
}

impl BitWriter {
    pub closed spec fn wf(&self) -> bool {
        &&& packed(self.bytes@, self.len as nat)
        &&& self.len + 8 <= usize::MAX
    }

    pub fn new() -> (w: Self)
        ensures
            w.wf(),
            w@ == Seq::<bool>::empty(),
    {
        let w = BitWriter { bytes: Vec::new(), len: 0 };
        proof {
            assert(w@ =~= Seq::<bool>::empty());
        }
        w
    }

    /// Number of bits written so far.
    pub fn len_bits(&self) -> (n: usize)
        ensures
            n == self@.len(),
    {
        self.len
    }

    pub fn write_bit(&mut self, b: bool)
        requires
            old(self).wf(),
            old(self)@.len() + 9 <= usize::MAX,
        ensures
            final(self).wf(),
            final(self)@ == old(self)@.push(b),
    {
        let ghost old_bytes = self.bytes@;
        let ghost old_len = self.len as int;
        let s = self.len % 8;
        let k = self.len / 8;
        if s == 0 {
            self.bytes.push(0u8);
        }
        if b {
            let x = self.bytes[k];
            self.bytes[k] = x | (1u8 << (s as u8));
        }
        self.len = self.len + 1;
        proof {
            let nb = self.bytes@;
            assert(nb.len() == (old_len + 1 + 7) / 8);
            assert forall|i: int| 0 <= i < nb.len() * 8 implies #[trigger] bit_at(nb, i) == if i
                < old_len {
                bit_at(old_bytes, i)
            } else if i == old_len {
                b
            } else {
                false
            } by {
                let q = i / 8;
                let j = (i % 8) as u8;
                if q < k {
                    assert(nb[q] == old_bytes[q]);
                } else {
                    assert(q == k);
                    let sb = s as u8;
                    let ob: u8 = if s == 0 { 0u8 } else { old_bytes[q] };
                    if s == 0 {
                        assert(nb[q] == if b { 0u8 | (1u8 << sb) } else { 0u8 });
                    } else {
                        assert(nb[q] == if b { ob | (1u8 << sb) } else { ob });
                        assert(bit_at(old_bytes, i) == byte_bit(ob, j as int));
                    }
                    lemma_set_bit(ob, sb, j);
                    assert(((0u8 >> j) & 1u8) == 0u8) by (bit_vector)
                        requires j < 8;
                    if i > old_len {
                        assert(old_len <= i < old_bytes.len() * 8 || s == 0);
                    }
                }
            }
            assert(self@ =~= old(self)@.push(b));
        }
    }

    /// Append the low `n` bits of `v`, least significant first.
    pub fn write_bits(&mut self, v: u32, n: u32)
        requires
            old(self).wf(),
            n <= 32,
            old(self)@.len() + n + 9 <= usize::MAX,
        ensures
            final(self).wf(),
            final(self)@ == old(self)@ + u32_bits(v, n as nat),
    {
        let mut i: u32 = 0;
        while i < n
            invariant
                self.wf(),
                i <= n <= 32,
                old(self)@.len() + n + 9 <= usize::MAX,
                self@ == old(self)@ + u32_bits(v, i as nat),
            decreases n - i,
        {
            self.write_bit((v >> i) & 1 == 1);
            proof {
                assert(self@ =~= old(self)@ + u32_bits(v, (i + 1) as nat));
            }
            i = i + 1;
        }
    }

    /// Append the bytes of `s` and a NUL terminator, 8 bits each.
    pub fn write_string(&mut self, s: &str)
        requires
            old(self).wf(),
            old(self)@.len() + s.spec_bytes().len() * 8 + 17 <= usize::MAX,
        ensures
            final(self).wf(),
            final(self)@ == old(self)@ + byte_bits(s.spec_bytes().push(0u8)),
    {
        let bytes = s.as_bytes();
        let ghost all = bytes@.push(0u8);
        let mut i: usize = 0;
        while i < bytes.len()
            invariant
                self.wf(),
                i <= bytes@.len(),
                bytes@ == s.spec_bytes(),
                all == bytes@.push(0u8),
                old(self)@.len() + bytes@.len() * 8 + 17 <= usize::MAX,
                self@ == old(self)@ + byte_bits(all).subrange(0, 8 * i as int),
            decreases bytes.len() - i,
        {
            let ghost before = self@;
            self.write_bits(bytes[i] as u32, 8);
            proof {
                lemma_byte_bits_u32(bytes[i as int]);
                assert forall|t: int| 8 * i <= t < 8 * i + 8 implies #[trigger] byte_bits(all)[t]
                    == u32_bits(bytes[i as int] as u32, 8)[t - 8 * i] by {
                    assert(t / 8 == i);
                    assert(all[i as int] == bytes[i as int]);
                }
                assert(self@ =~= old(self)@ + byte_bits(all).subrange(0, 8 * (i + 1) as int));
            }
            i = i + 1;
        }
        self.write_bits(0, 8);
        proof {
            lemma_byte_bits_u32(0u8);
            assert forall|t: int| 8 * i <= t < 8 * i + 8 implies #[trigger] byte_bits(all)[t]
                == u32_bits(0u32, 8)[t - 8 * i] by {
                assert(t / 8 == i);
            }
            assert(self@ =~= old(self)@ + byte_bits(all));
        }
    }

    /// The bits written so far, as a chunk.
    pub fn into_chunk(self) -> (c: BitChunk)
        requires
            self.wf(),
        ensures
            c.wf(),
            c@ == self@,
    {
        BitChunk { bytes: self.bytes, len: self.len }
    }
}

impl Default for BitWriter {
    fn default() -> (w: Self)
        ensures
            w.wf(),
            w@ == Seq::<bool>::empty(),
    {
        BitWriter::new()
    }
}

/// Bit `j` of a byte, read through `u32` shifts, is the byte's bit `j`.
pub(crate) proof fn lemma_byte_bits_u32(b: u8)
    ensures
        forall|j: int| 0 <= j < 8 ==> #[trigger] u32_bits(b as u32, 8)[j] == byte_bit(b, j),
{
    assert forall|j: int| 0 <= j < 8 implies #[trigger] u32_bits(b as u32, 8)[j] == byte_bit(b, j) by {
        let ju = j as u32;
        let j8 = j as u8;
        assert((((b as u32) >> ju) & 1u32 == 1u32) == ((b >> j8) & 1u8 == 1u8)) by (bit_vector)
            requires ju < 8, j8 == ju;
    }
}

/// Setting bit `s` of a byte sets that bit and keeps the others.
proof fn lemma_set_bit(x: u8, s: u8, j: u8)
    requires
        s < 8,
        j < 8,
    ensures
        j == s ==> ((x | (1u8 << s)) >> j) & 1u8 == 1u8,
        j != s ==> ((x | (1u8 << s)) >> j) & 1u8 == (x >> j) & 1u8,
{
    assert(j == s ==> ((x | (1u8 << s)) >> j) & 1u8 == 1u8) by (bit_vector)
        requires s < 8, j < 8;
    assert(j != s ==> ((x | (1u8 << s)) >> j) & 1u8 == (x >> j) & 1u8) by (bit_vector)
        requires s < 8, j < 8;
}

/// A string read at `pos` ends inside the stream.
pub proof fn lemma_cstring_bound(bits: Seq<bool>, pos: int)
    ensures
        spec_cstring(bits, pos) matches Some(s) ==> pos + 8 <= cstring_end(pos, s) <= bits.len(),
    decreases bits.len() - pos,
{
    if 0 <= pos && pos + 8 <= bits.len() && bits_value(bits, pos, 8) != 0 {
        lemma_cstring_bound(bits, pos + 8);
    }
}

/// The value of `n` bits depends on those bits alone.
proof fn lemma_bits_value_frame(a: Seq<bool>, b: Seq<bool>, p: int, n: nat)
    requires
        forall|i: int| p <= i < p + n ==> #[trigger] a[i] == b[i],
    ensures
        bits_value(a, p, n) == bits_value(b, p, n),
    decreases n,
{
    if n > 0 {
        lemma_bits_value_frame(a, b, p, (n - 1) as nat);
        assert(a[p + n - 1] == b[p + n - 1]);
    }
}

/// Bit `k` of `v` splits off its residue modulo `2^(k+1)`.
proof fn lemma_mod_pow2_step(v: u32, k: nat)
    requires
        k < 32,
    ensures
        (v as nat) % pow2(k + 1) == (v as nat) % pow2(k) + if (v >> (k as u32)) & 1u32 == 1u32 {
            pow2(k)
        } else {
            0
        },
{
    let kk = k as u32;
    vstd::bits::lemma_u32_shr_is_div(v, kk);
    vstd::arithmetic::power2::lemma_pow2_pos(k);
    vstd::arithmetic::power2::lemma_pow2_unfold(k + 1);
    let q = (v as nat) / pow2(k);
    assert((v >> kk) & 1u32 == (v >> kk) % 2) by (bit_vector);
    assert((v >> kk) as nat == q);
    vstd::arithmetic::div_mod::lemma_mod_breakdown(v as int, pow2(k) as int, 2);
    assert(pow2(k) * 2 == pow2(k + 1));
    assert((v as int) % (pow2(k) as int * 2) == pow2(k) as int * (((v as int) / pow2(k) as int) % 2) + (v as int) % (pow2(k) as int));
    if q % 2 == 1 {
        assert(pow2(k) as int * (q as int % 2) == pow2(k) as int);
    } else {
        assert(q % 2 == 0);
        assert(pow2(k) as int * (q as int % 2) == 0);
    }
}

/// What [`BitWriter::write_bits`] appends reads back, at the position it
/// was written, as the value written truncated to the bit count: writing
/// `v` in `n` bits and reading `n` bits there gives `v mod 2^n`.
pub proof fn lemma_write_read(prefix: Seq<bool>, v: u32, n: nat)
    requires
        n <= 32,
    ensures
        spec_read(prefix + u32_bits(v, n), prefix.len() as int, n) == Some((v as nat) % pow2(n)),
    decreases n,
{
    let all = prefix + u32_bits(v, n);
    if n == 0 {
        vstd::arithmetic::power2::lemma2_to64();
    } else {
        let shorter = prefix + u32_bits(v, (n - 1) as nat);
        lemma_write_read(prefix, v, (n - 1) as nat);
        assert forall|i: int| prefix.len() <= i < prefix.len() + (n - 1) implies #[trigger] all[i] == shorter[i] by {}
        lemma_bits_value_frame(all, shorter, prefix.len() as int, (n - 1) as nat);
        lemma_mod_pow2_step(v, (n - 1) as nat);
        assert(all[prefix.len() + n - 1] == ((v >> ((n - 1) as u32)) & 1u32 == 1u32));
    }
}

/// Bits written in the middle of a stream read back the same whatever
/// follows them.
pub proof fn lemma_write_read_before(prefix: Seq<bool>, v: u32, n: nat, post: Seq<bool>)
    requires
        n <= 32,
    ensures
        spec_read(prefix + (u32_bits(v, n) + post), prefix.len() as int, n) == Some((v as nat) % pow2(n)),
{
    lemma_write_read(prefix, v, n);
    let a = prefix + u32_bits(v, n);
    let b = prefix + (u32_bits(v, n) + post);
    assert forall|i: int| prefix.len() <= i < prefix.len() + n implies #[trigger] a[i] == b[i] by {}
    lemma_bits_value_frame(a, b, prefix.len() as int, n);
}

/// The value of `n` bits at `pos` is that of the same bits cut out.
pub(crate) proof fn lemma_bits_value_cut(a: Seq<bool>, pos: int, n: nat)
    requires
        0 <= pos,
        pos + n <= a.len(),
    ensures
        bits_value(a, pos, n) == bits_value(a.subrange(pos, pos + n), 0, n),
    decreases n,
{
    if n > 0 {
        lemma_bits_value_cut(a, pos, (n - 1) as nat);
        let full = a.subrange(pos, pos + n);
        let short = a.subrange(pos, pos + n - 1);
        lemma_bits_value_same(full, short, (n - 1) as nat);
        assert(full[n - 1] == a[pos + n - 1]);
    }
}

/// Two bit sequences that agree on their first `n` bits give those bits
/// the same value.
proof fn lemma_bits_value_same(a: Seq<bool>, b: Seq<bool>, n: nat)
    requires
        n <= a.len(),
        n <= b.len(),
        forall|i: int| 0 <= i < n ==> #[trigger] a[i] == b[i],
    ensures
        bits_value(a, 0, n) == bits_value(b, 0, n),
    decreases n,
{
    if n > 0 {
        lemma_bits_value_same(a, b, (n - 1) as nat);
        assert(a[n - 1] == b[n - 1]);
    }
}

/// Eight bits whose bits are those of byte `x`, LSB first, have value `x`.
pub(crate) proof fn lemma_byte_value(bits: Seq<bool>, pos: int, x: u8)
    requires
        0 <= pos,
        pos + 8 <= bits.len(),
        forall|t: int| 0 <= t < 8 ==> #[trigger] bits[pos + t] == byte_bit(x, t),
    ensures
        bits_value(bits, pos, 8) == x,
{
    lemma_bits_value_cut(bits, pos, 8);
    lemma_byte_bits_u32(x);
    lemma_write_read(Seq::<bool>::empty(), x as u32, 8);
    let w = Seq::<bool>::empty() + u32_bits(x as u32, 8);
    assert forall|t: int| 0 <= t < 8 implies #[trigger] bits.subrange(pos, pos + 8)[t] == w[t] by {
        assert(bits.subrange(pos, pos + 8)[t] == bits[pos + t]);
        assert(w[t] == u32_bits(x as u32, 8)[t]);
    }
    lemma_bits_value_same(bits.subrange(pos, pos + 8), w, 8);
    vstd::arithmetic::power2::lemma2_to64();
    assert((x as nat) % 256 == x);
}

/// The bits of a byte sequence hold byte `i` at bit `8i`.
pub(crate) proof fn lemma_byte_bits_value(bs: Seq<u8>, i: int)
    requires
        0 <= i < bs.len(),
    ensures
        bits_value(byte_bits(bs), 8 * i, 8) == bs[i],
{
    let bits = byte_bits(bs);
    assert forall|t: int| 0 <= t < 8 implies #[trigger] bits[8 * i + t] == byte_bit(bs[i], t) by {
        let q = 8 * i + t;
        assert(q / 8 == i && q % 8 == t);
    }
    lemma_byte_value(bits, 8 * i, bs[i]);
}


/// A string written by [`BitWriter::write_string`] reads back: at the
/// position where it was written, the NUL-terminated read yields its bytes
/// (which hold no NUL of their own).
pub proof fn lemma_string_read_back(prefix: Seq<bool>, bytes: Seq<u8>)
    requires
        forall|i: int| 0 <= i < bytes.len() ==> #[trigger] bytes[i] != 0,
    ensures
        spec_cstring(prefix + byte_bits(bytes.push(0u8)), prefix.len() as int) == Some(bytes),
{
    lemma_cstring_from(prefix, bytes, 0);
    assert(bytes.skip(0) =~= bytes);
}

proof fn lemma_cstring_from(prefix: Seq<bool>, bytes: Seq<u8>, i: nat)
    requires
        i <= bytes.len(),
        forall|k: int| 0 <= k < bytes.len() ==> #[trigger] bytes[k] != 0,
    ensures
        spec_cstring(prefix + byte_bits(bytes.push(0u8)), (prefix.len() + 8 * i) as int) == Some(bytes.skip(i as int)),
    decreases bytes.len() - i,
{
    let all = bytes.push(0u8);
    let bits = prefix + byte_bits(all);
    let pos = (prefix.len() + 8 * i) as int;
    let at = (8 * i) as int;
    assert(bits.len() == prefix.len() + 8 * all.len());
    lemma_bits_value_cut(bits, pos, 8);
    lemma_bits_value_cut(byte_bits(all), at, 8);
    assert(bits.subrange(pos, pos + 8) =~= byte_bits(all).subrange(at, at + 8));
    lemma_byte_bits_value(all, i as int);
    assert(bits_value(bits, pos, 8) == all[i as int]);
    if i == bytes.len() {
        assert(all[i as int] == 0u8);
        assert(bytes.skip(i as int) =~= Seq::<u8>::empty());
    } else {
        assert(all[i as int] == bytes[i as int]);
        lemma_cstring_from(prefix, bytes, i + 1);
        assert(seq![bytes[i as int]] + bytes.skip((i + 1) as int) =~= bytes.skip(i as int));
    }
}

/// A value read from `n` bits is below `2^n`.
pub proof fn lemma_bits_value_bound(bits: Seq<bool>, pos: int, n: nat)
    ensures
        bits_value(bits, pos, n) < pow2(n),
    decreases n,
{
    if n == 0 {
        vstd::arithmetic::power2::lemma2_to64();
    } else {
        lemma_bits_value_bound(bits, pos, (n - 1) as nat);
        vstd::arithmetic::power2::lemma_pow2_unfold(n);
    }
}

proof fn lemma_bit_is_0_or_1(b: u8, s: u8)
    requires
        s < 8,
    ensures
        (b >> s) & 1u8 <= 1,
{
    assert((b >> s) & 1u8 <= 1) by (bit_vector);
}

/// Setting bit `i` of a value below `2^i` adds `2^i`.
proof fn lemma_or_shifted_bit(out: u32, b: u32, i: u32)
    requires
        i < 32,
        b <= 1,
        (out as nat) < pow2(i as nat),
    ensures
        (out | (b << i)) as nat == out as nat + b * pow2(i as nat),
{
    vstd::bits::lemma_u32_pow2_no_overflow(i as nat);
    vstd::bits::lemma_u32_shl_is_mul(1, i);
    vstd::bits::lemma_u32_shl_is_mul(b, i);
    assert(out < (1u32 << i) && b <= 1 && i < 32 ==> (out | (b << i)) == out + (b << i))
        by (bit_vector);
}

} // verus!
