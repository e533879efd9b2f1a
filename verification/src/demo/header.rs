//! The fixed 1072-byte HL2DEMO header at the start of every demo.

use vstd::prelude::*;
use crate::text::{string_from_utf8_lossy, decoded_text};

verus! {

pub const HEADER_SIZE: usize = 1072;

/// Little-endian unsigned 32-bit value of the four bytes at `off`.
pub open spec fn le_u32(s: Seq<u8>, off: int) -> u32 {
    (s[off] + s[off + 1] * 256 + s[off + 2] * 65536 + s[off + 3] * 16777216) as u32
}

/// Little-endian two's-complement 32-bit value of the four bytes at `off`.
pub open spec fn le_i32(s: Seq<u8>, off: int) -> i32 {
    le_u32(s, off) as i32
}

/// The bytes before the first NUL (all of them when there is none).
pub open spec fn until_nul(s: Seq<u8>) -> Seq<u8>
    decreases s.len(),
{
    if s.len() == 0 || s[0] == 0 {
        Seq::<u8>::empty()
    } else {
        seq![s[0]] + until_nul(s.drop_first())
    }
}

/// A fixed-size NUL-padded text field, decoded lossily.
pub open spec fn fixed_text(s: Seq<u8>) -> Seq<char> {
    decoded_text(until_nul(s))
}

/// The header's eight-byte magic, `HL2DEMO` and a NUL.
pub open spec fn is_magic(s: Seq<u8>) -> bool {
    s == seq![0x48u8, 0x4cu8, 0x32u8, 0x44u8, 0x45u8, 0x4du8, 0x4fu8, 0u8]
}

/// Fixed-size header at the start of every Source engine demo.
#[derive(Debug)]
pub struct DemoHeader {
    pub demo_protocol: i32,
    pub network_protocol: i32,
    pub server_name: String,
    pub client_name: String,
    pub map_name: String,
    pub game_directory: String,
    /// Recording length in seconds, as the IEEE-754 bit pattern stored on disk.
    pub playback_seconds_bits: u32,
    pub playback_ticks: i32,
    pub playback_frames: i32,
    pub signon_length: i32,
}

/// Why a file is not a demo this library reads.
#[derive(Debug, Clone, Copy, PartialEq, Eq)]
pub enum HeaderError {
    /// Shorter than the fixed header (the file's length).
    TooSmall(usize),
    /// The first eight bytes are not `HL2DEMO\0`.
    BadMagic,
    /// A demo protocol other than 3 (Source SDK 2013).
    UnsupportedProtocol(i32),
}

/// The header's fields are those stored at their fixed offsets in `data`.
pub open spec fn header_of(h: DemoHeader, data: Seq<u8>) -> bool {
    &&& h.demo_protocol == le_i32(data, 8)
    &&& h.network_protocol == le_i32(data, 12)
    &&& h.server_name@ == fixed_text(data.subrange(16, 276))
    &&& h.client_name@ == fixed_text(data.subrange(276, 536))
    &&& h.map_name@ == fixed_text(data.subrange(536, 796))
    &&& h.game_directory@ == fixed_text(data.subrange(796, 1056))
    &&& h.playback_seconds_bits == le_u32(data, 1056)
    &&& h.playback_ticks == le_i32(data, 1060)
    &&& h.playback_frames == le_i32(data, 1064)
    &&& h.signon_length == le_i32(data, 1068)
}

proof fn lemma_le_u32_bits(b0: u8, b1: u8, b2: u8, b3: u8)
    ensures
        (b0 as u32) | ((b1 as u32) << 8u32) | ((b2 as u32) << 16u32) | ((b3 as u32) << 24u32)
            == (b0 + b1 * 256 + b2 * 65536 + b3 * 16777216) as u32,
{
    assert((b0 as u32) | ((b1 as u32) << 8u32) | ((b2 as u32) << 16u32) | ((b3 as u32) << 24u32)
        == (b0 + b1 * 256 + b2 * 65536 + b3 * 16777216) as u32) by (bit_vector);
}

/// The little-endian `u32` at `off`.
pub fn u32_at(buf: &[u8], off: usize) -> (v: u32)
    requires
        off + 4 <= buf@.len(),
    ensures
        v == le_u32(buf@, off as int),
{
    proof {
        lemma_le_u32_bits(buf@[off as int], buf@[off + 1], buf@[off + 2], buf@[off + 3]);
    }
    (buf[off] as u32) | ((buf[off + 1] as u32) << 8u32) | ((buf[off + 2] as u32) << 16u32) | ((
    buf[off + 3] as u32) << 24u32)
}

/// The little-endian `i32` at `off`.
pub fn i32_at(buf: &[u8], off: usize) -> (v: i32)
    requires
        off + 4 <= buf@.len(),
    ensures
        v == le_i32(buf@, off as int),
{
    u32_at(buf, off) as i32
}

/// A NUL-terminated (or NUL-padded) text field, decoded lossily.
pub fn cstr(buf: &[u8]) -> (s: String)
    ensures
        s@ == fixed_text(buf@),
{
    let mut end: usize = 0;
    proof {
        assert(buf@.subrange(0, buf@.len() as int) =~= buf@);
        assert(buf@.subrange(0, 0) + until_nul(buf@) =~= until_nul(buf@));
    }
    while end < buf.len() && buf[end] != 0
        invariant
            end <= buf@.len(),
            until_nul(buf@) == buf@.subrange(0, end as int) + until_nul(buf@.subrange(end as int, buf@.len() as int)),
        decreases buf.len() - end,
    {
        proof {
            let rest = buf@.subrange(end as int, buf@.len() as int);
            assert(rest.drop_first() =~= buf@.subrange(end + 1, buf@.len() as int));
            assert(buf@.subrange(0, end as int) + seq![rest[0]] =~= buf@.subrange(0, end + 1));
            assert(buf@.subrange(0, end as int) + (seq![rest[0]] + until_nul(rest.drop_first()))
                =~= buf@.subrange(0, end + 1) + until_nul(rest.drop_first()));
        }
        end = end + 1;
    }
    proof {
        assert(until_nul(buf@.subrange(end as int, buf@.len() as int)) =~= Seq::<u8>::empty());
        assert(buf@.subrange(0, end as int) + Seq::<u8>::empty() =~= buf@.subrange(0, end as int));
    }
    let prefix = &buf[0..end];
    string_from_utf8_lossy(prefix)
}

impl DemoHeader {
    pub fn parse(data: &[u8]) -> (r: Result<DemoHeader, HeaderError>)
        ensures
            data@.len() < HEADER_SIZE ==> r == Err::<DemoHeader, HeaderError>(
                HeaderError::TooSmall(data@.len() as usize),
            ),
            data@.len() >= HEADER_SIZE && !is_magic(data@.subrange(0, 8)) ==> r == Err::<
                DemoHeader,
                HeaderError,
            >(HeaderError::BadMagic),
            data@.len() >= HEADER_SIZE && is_magic(data@.subrange(0, 8)) && le_i32(data@, 8) != 3
                ==> r == Err::<DemoHeader, HeaderError>(
                HeaderError::UnsupportedProtocol(le_i32(data@, 8)),
            ),
            data@.len() >= HEADER_SIZE && is_magic(data@.subrange(0, 8)) && le_i32(data@, 8) == 3
                ==> (r matches Ok(h) && header_of(h, data@)),
    {
        if data.len() < HEADER_SIZE {
            return Err(HeaderError::TooSmall(data.len()));
        }
        let magic: [u8; 8] = [0x48u8, 0x4cu8, 0x32u8, 0x44u8, 0x45u8, 0x4du8, 0x4fu8, 0u8];
        let mut k: usize = 0;
        while k < 8
            invariant
                k <= 8,
                data@.len() >= HEADER_SIZE,
                magic@ == seq![0x48u8, 0x4cu8, 0x32u8, 0x44u8, 0x45u8, 0x4du8, 0x4fu8, 0u8],
                forall|j: int| 0 <= j < k ==> data@[j] == magic@[j],
            decreases 8 - k,
        {
            if data[k] != magic[k] {
                proof {
                    assert(data@.subrange(0, 8)[k as int] != magic@[k as int]);
                }
                return Err(HeaderError::BadMagic);
            }
            k = k + 1;
        }
        proof {
            assert(data@.subrange(0, 8) =~= magic@);
        }
        let header = DemoHeader {
            demo_protocol: i32_at(data, 8),
            network_protocol: i32_at(data, 12),
            server_name: cstr(&data[16..276]),
            client_name: cstr(&data[276..536]),
            map_name: cstr(&data[536..796]),
            game_directory: cstr(&data[796..1056]),
            playback_seconds_bits: u32_at(data, 1056),
            playback_ticks: i32_at(data, 1060),
            playback_frames: i32_at(data, 1064),
            signon_length: i32_at(data, 1068),
        };
        if header.demo_protocol != 3 {
            return Err(HeaderError::UnsupportedProtocol(header.demo_protocol));
        }
        Ok(header)
    }
}

} // verus!
