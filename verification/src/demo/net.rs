//! Net-message framing for packet payloads (network protocol 24, the
//! SDK2013-MP / TF2 engine branch).
//!
//! Walks the bit-packed message stream inside a signon/packet frame: every
//! message type's wire format is known well enough to either skip it or
//! hand it to the caller. Game events are returned as raw bit chunks and
//! parsed generically against the demo's own event definitions
//! ([`parse_game_event`]), never against a hardcoded schema; NT;RE's
//! definitions differ from other games on this engine branch.

use vstd::prelude::*;
use std::collections::HashMap;
use crate::demo::bits::{
    BitChunk, BitReader, WireError, bits_value, cstring_end, spec_bit_coord, spec_cstring,
    spec_read, spec_varint, stream_bits,
};
use crate::text::decoded_text;
use vstd::arithmetic::power2::pow2;

verus! {

broadcast use vstd::std_specs::hash::group_hash_axioms;

pub const NETMSG_TYPE_BITS: u32 = 6;

/// One game-event field definition: name + wire type.
#[derive(Debug)]
pub struct EventEntry {
    pub name: String,
    /// GameEventValueType: 1 string, 2 float, 3 long, 4 short, 5 byte,
    /// 6 bool, 7 local.
    pub kind: u8,
}

#[derive(Debug)]
pub struct EventDef {
    pub name: String,
    pub entries: Vec<EventEntry>,
}

/// An event definition as values: its name and its fields' names and types.
pub type DefView = (Seq<char>, Seq<(Seq<char>, u8)>);

impl View for EventEntry {
    type V = (Seq<char>, u8);

    open spec fn view(&self) -> (Seq<char>, u8) {
        (self.name@, self.kind)
    }
}

impl View for EventDef {
    type V = DefView;

    open spec fn view(&self) -> DefView {
        (self.name@, self.entries@.map_values(|e: EventEntry| e@))
    }
}

pub type EventDefs = HashMap<u16, EventDef>;

/// The definitions as values.
pub open spec fn defs_view(defs: Map<u16, EventDef>) -> Map<u16, DefView> {
    defs.map_values(|d: EventDef| d@)
}

/// A parsed game-event field value. A float is kept as its IEEE-754 bit
/// pattern.
#[derive(Debug, Clone)]
pub enum EventValue {
    Str(String),
    Float(u32),
    Int(u32),
    Bool(bool),
}

/// A field value as a value.
pub enum ValueView {
    Str(Seq<char>),
    Float(u32),
    Int(u32),
    Bool(bool),
}

impl View for EventValue {
    type V = ValueView;

    open spec fn view(&self) -> ValueView {
        match self {
            EventValue::Str(s) => ValueView::Str(s@),
            EventValue::Float(f) => ValueView::Float(*f),
            EventValue::Int(n) => ValueView::Int(*n),
            EventValue::Bool(b) => ValueView::Bool(*b),
        }
    }
}

/// Messages surfaced to the caller; everything else is validated and
/// skipped.
pub enum NetMessage {
    GameEventList(EventDefs),
    /// Raw event payload (starts with the 9-bit event type id).
    GameEvent(BitChunk),
    UserMessage { kind: u8, data: BitChunk },
}

/// A surfaced message as a value.
pub enum MsgView {
    EventList(Map<u16, DefView>),
    Event(Seq<bool>),
    User(u8, Seq<bool>),
}

impl View for NetMessage {
    type V = MsgView;

    open spec fn view(&self) -> MsgView {
        match self {
            NetMessage::GameEventList(defs) => MsgView::EventList(defs_view(defs@)),
            NetMessage::GameEvent(c) => MsgView::Event(c@),
            NetMessage::UserMessage { kind, data } => MsgView::User(*kind, data@),
        }
    }
}

impl NetMessage {
    /// Its chunks can be read.
    pub open spec fn wf(&self) -> bool {
        match self {
            NetMessage::GameEventList(_) => true,
            NetMessage::GameEvent(c) => c.wf(),
            NetMessage::UserMessage { data, .. } => data.wf(),
        }
    }
}

// ---------------------------------------------------------------------
// The wire grammar. Positions are bit offsets; `None` means the stream
// ended first.

/// Skip `n` bits at `p`.
pub open spec fn sk(bits: Seq<bool>, p: int, n: int) -> Option<int> {
    if 0 <= p && 0 <= n && p + n <= bits.len() {
        Some(p + n)
    } else {
        None
    }
}

/// Skip `n` bits after `o`.
pub open spec fn then_sk(bits: Seq<bool>, o: Option<int>, n: int) -> Option<int> {
    match o {
        Some(p) => sk(bits, p, n),
        None => None,
    }
}

/// Skip a NUL-terminated string at `p`.
pub open spec fn st(bits: Seq<bool>, p: int) -> Option<int> {
    match spec_cstring(bits, p) {
        Some(s) => Some(cstring_end(p, s)),
        None => None,
    }
}

/// Skip a string after `o`.
pub open spec fn then_st(bits: Seq<bool>, o: Option<int>) -> Option<int> {
    match o {
        Some(p) => st(bits, p),
        None => None,
    }
}

/// Skip `k` strings at `p`.
pub open spec fn skip_strings(bits: Seq<bool>, p: int, k: nat) -> Option<int>
    decreases k,
{
    if k == 0 {
        Some(p)
    } else {
        match st(bits, p) {
            Some(q) => skip_strings(bits, q, (k - 1) as nat),
            None => None,
        }
    }
}

/// Skip `k` svc_ClassInfo entries at `p`: a `w`-bit class id and two
/// strings each.
pub open spec fn skip_classes(bits: Seq<bool>, p: int, k: nat, w: int) -> Option<int>
    decreases k,
{
    if k == 0 {
        Some(p)
    } else {
        match then_st(bits, then_st(bits, sk(bits, p, w))) {
            Some(q) => skip_classes(bits, q, (k - 1) as nat, w),
            None => None,
        }
    }
}

/// Read `n` bits at `p`: the position after them and their value.
pub open spec fn rd(bits: Seq<bool>, p: int, n: nat) -> Option<(int, nat)> {
    match spec_read(bits, p, n) {
        Some(v) => Some((p + n, v)),
        None => None,
    }
}

/// Read one bit at `p` as a flag.
pub open spec fn rb(bits: Seq<bool>, p: int) -> Option<(int, bool)> {
    if 0 <= p < bits.len() {
        Some((p + 1, bits[p]))
    } else {
        None
    }
}

/// Floor of log2 of `n` (0 for 0 and 1).
pub open spec fn spec_log2(n: nat) -> nat
    decreases n,
{
    if n <= 1 {
        0
    } else {
        1 + spec_log2(n / 2)
    }
}

/// A length-prefixed run of `len_bits`-bit length at `p`, then that many
/// bits skipped (`scale` bits per unit of length).
pub open spec fn skip_sized(bits: Seq<bool>, p: int, len_bits: nat, scale: int) -> Option<int> {
    match rd(bits, p, len_bits) {
        Some((q, n)) => sk(bits, q, n * scale),
        None => None,
    }
}

/// svc_ServerInfo body at `p`.
pub open spec fn skip_server_info(bits: Seq<bool>, p: int, protocol: i32) -> Option<int> {
    let a = then_sk(bits, then_sk(bits, sk(bits, p, 98), if protocol > 17 { 128 } else { 32 }), 56);
    let b = match a {
        Some(q) => skip_strings(bits, q, 4),
        None => None,
    };
    if protocol > 15 {
        then_sk(bits, b, 1)
    } else {
        b
    }
}

/// svc_ClassInfo body at `p`: a 16-bit count, a create-on-client flag and,
/// without it, the class entries.
pub open spec fn skip_class_info(bits: Seq<bool>, p: int) -> Option<int> {
    match rd(bits, p, 16) {
        None => None,
        Some((q, count)) => match rb(bits, q) {
            None => None,
            Some((q2, create)) => if create {
                Some(q2)
            } else {
                skip_classes(bits, q2, count, (spec_log2(count) + 1) as int)
            },
        },
    }
}

/// svc_CreateStringTable body at `p`: table name, max entries, entry
/// count, data length (var-int from protocol 24), optional fixed userdata
/// size, compressed flag, then the data.
pub open spec fn skip_create_string_table(bits: Seq<bool>, p: int, protocol: i32) -> Option<int> {
    match st(bits, p) {
        None => None,
        Some(q) => match rd(bits, q, 16) {
            None => None,
            Some((q2, max_entries)) => match sk(bits, q2, (spec_log2(max_entries as u16 as nat) + 1) as int) {
                None => None,
                Some(q3) => {
                    let len = if protocol > 23 {
                        spec_varint(bits, q3, 0, 0)
                    } else {
                        match rd(bits, q3, 20) {
                            Some((q4, v)) => Some((q4, v as u32)),
                            None => None,
                        }
                    };
                    match len {
                        None => None,
                        Some((q4, length)) => match rb(bits, q4) {
                            None => None,
                            Some((q5, flag)) => {
                                let q6 = if flag { sk(bits, q5, 16) } else { Some(q5) };
                                then_sk(bits, then_sk(bits, q6, 1), length as int)
                            },
                        },
                    }
                },
            },
        },
    }
}

/// svc_UpdateStringTable body at `p`.
pub open spec fn skip_update_string_table(bits: Seq<bool>, p: int) -> Option<int> {
    match rb(bits, p + 5) {
        None => None,
        Some((q, flag)) => {
            if p < 0 || p + 5 > bits.len() {
                None
            } else {
                let q2 = if flag { sk(bits, q, 16) } else { Some(q) };
                match q2 {
                    Some(q3) => skip_sized(bits, q3, 20, 1),
                    None => None,
                }
            }
        },
    }
}

/// svc_VoiceInit body at `p`: codec name, quality, and a sampling rate
/// when the quality is 255.
pub open spec fn skip_voice_init(bits: Seq<bool>, p: int) -> Option<int> {
    match st(bits, p) {
        None => None,
        Some(q) => match rd(bits, q, 8) {
            None => None,
            Some((q2, quality)) => if quality == 255 {
                sk(bits, q2, 16)
            } else {
                Some(q2)
            },
        },
    }
}

/// svc_Sounds body at `p`.
pub open spec fn skip_sounds(bits: Seq<bool>, p: int) -> Option<int> {
    match rb(bits, p) {
        None => None,
        Some((q, reliable)) => if reliable {
            skip_sized(bits, q, 8, 1)
        } else {
            match sk(bits, q, 8) {
                Some(q2) => skip_sized(bits, q2, 16, 1),
                None => None,
            }
        },
    }
}

/// An optional bit coordinate after a flag that was already read.
pub open spec fn opt_coord(bits: Seq<bool>, o: Option<int>, present: bool) -> Option<int> {
    match o {
        None => None,
        Some(p) => if present {
            match spec_bit_coord(bits, p) {
                Some((q, _)) => Some(q),
                None => None,
            }
        } else {
            Some(p)
        },
    }
}

/// svc_BSPDecal body at `p`.
pub open spec fn skip_bsp_decal(bits: Seq<bool>, p: int) -> Option<int> {
    if p < 0 || p + 3 > bits.len() {
        None
    } else {
        let c = opt_coord(bits, opt_coord(bits, opt_coord(bits, Some(p + 3), bits[p]), bits[p + 1]), bits[p + 2]);
        match then_sk(bits, c, 9) {
            None => None,
            Some(q) => match rb(bits, q) {
                None => None,
                Some((q2, has_entity)) => {
                    let q3 = if has_entity { sk(bits, q2, 24) } else { Some(q2) };
                    then_sk(bits, q3, 1)
                },
            },
        }
    }
}

/// svc_PacketEntities body at `p`.
pub open spec fn skip_packet_entities(bits: Seq<bool>, p: int) -> Option<int> {
    match rb(bits, p + 11) {
        None => None,
        Some((q, delta)) => if p < 0 || p + 11 > bits.len() {
            None
        } else {
            let q2 = if delta { sk(bits, q, 32) } else { Some(q) };
            match then_sk(bits, q2, 12) {
                None => None,
                Some(q3) => match rd(bits, q3, 20) {
                    None => None,
                    Some((q4, length)) => then_sk(bits, sk(bits, q4, 1), length as int),
                },
            }
        },
    }
}

/// svc_TempEntities body at `p`.
pub open spec fn skip_temp_entities(bits: Seq<bool>, p: int, protocol: i32) -> Option<int> {
    match sk(bits, p, 8) {
        None => None,
        Some(q) => if protocol > 23 {
            match spec_varint(bits, q, 0, 0) {
                Some((q2, length)) => sk(bits, q2, length as int),
                None => None,
            }
        } else {
            skip_sized(bits, q, 17, 1)
        },
    }
}

/// The body of a message of type `t` that is validated and skipped, at
/// `p`; `None` when the stream ends first. Only called for the types that
/// [`spec_message`] skips.
pub open spec fn spec_skip_body(bits: Seq<bool>, p: int, t: nat, protocol: i32) -> Option<int> {
    if t == 0 {
        Some(p)  // net_NOP (also zero padding at the end of a payload)
    } else if t == 1 || t == 4 || t == 7 {
        st(bits, p)  // net_Disconnect, net_StringCmd, svc_Print
    } else if t == 2 {
        then_sk(bits, then_st(bits, sk(bits, p, 32)), 1)  // net_File
    } else if t == 3 {
        sk(bits, p, 64)  // net_Tick
    } else if t == 5 {
        match rd(bits, p, 8) {  // net_SetConVar
            Some((q, count)) => skip_strings(bits, q, 2 * count),
            None => None,
        }
    } else if t == 6 {
        sk(bits, p, 40)  // net_SignonState
    } else if t == 8 {
        skip_server_info(bits, p, protocol)
    } else if t == 10 {
        skip_class_info(bits, p)
    } else if t == 11 {
        sk(bits, p, 1)  // svc_SetPause
    } else if t == 12 {
        skip_create_string_table(bits, p, protocol)
    } else if t == 13 {
        skip_update_string_table(bits, p)
    } else if t == 14 {
        skip_voice_init(bits, p)
    } else if t == 15 {
        match sk(bits, p, 16) {  // svc_VoiceData
            Some(q) => skip_sized(bits, q, 16, 1),
            None => None,
        }
    } else if t == 17 {
        skip_sounds(bits, p)
    } else if t == 18 {
        sk(bits, p, 11)  // svc_SetView
    } else if t == 19 {
        sk(bits, p, 49)  // svc_FixAngle
    } else if t == 21 {
        skip_bsp_decal(bits, p)
    } else if t == 24 {
        match sk(bits, p, 20) {  // svc_EntityMessage
            Some(q) => skip_sized(bits, q, 11, 1),
            None => None,
        }
    } else if t == 26 {
        skip_packet_entities(bits, p)
    } else if t == 27 {
        skip_temp_entities(bits, p, protocol)
    } else if t == 28 {
        sk(bits, p, if protocol > 22 { 14 } else { 13 })  // svc_Prefetch
    } else if t == 29 {
        match sk(bits, p, 16) {  // svc_Menu
            Some(q) => skip_sized(bits, q, 16, 8),
            None => None,
        }
    } else if t == 31 {
        then_st(bits, sk(bits, p, 32))  // svc_GetCvarValue
    } else {
        skip_sized(bits, p, 32, 8)  // svc_CmdKeyValues (32)
    }
}

/// Message types that are validated and skipped.
pub open spec fn is_skipped_type(t: nat) -> bool {
    t <= 8 || (10 <= t <= 15) || t == 17 || t == 18 || t == 19 || t == 21 || t == 24 || (26
        <= t <= 29) || t == 31 || t == 32
}

/// The fields of a game-event definition list entry, until a zero type.
pub open spec fn spec_entries(bits: Seq<bool>, pos: int) -> Option<(int, Seq<(Seq<char>, u8)>)>
    decreases bits.len() - pos,
{
    match spec_read(bits, pos, 3) {
        None => None,
        Some(kind) => if kind == 0 {
            Some((pos + 3, Seq::empty()))
        } else {
            match spec_cstring(bits, pos + 3) {
                None => None,
                Some(nm) => {
                    proof {
                        crate::demo::bits::lemma_cstring_bound(bits, pos + 3);
                    }
                    match spec_entries(bits, cstring_end(pos + 3, nm)) {
                        None => None,
                        Some((e, rest)) => Some((e, seq![(decoded_text(nm), kind as u8)] + rest)),
                    }
                },
            }
        },
    }
}

/// `k` event definitions at `pos`, added to `acc` (a later definition of
/// the same id replaces an earlier one).
pub open spec fn spec_event_list(
    bits: Seq<bool>,
    pos: int,
    k: nat,
    acc: Map<u16, DefView>,
) -> Result<Map<u16, DefView>, WireError>
    decreases k,
{
    if k == 0 {
        Ok(acc)
    } else {
        match rd(bits, pos, 9) {
            None => Err(WireError::Exhausted),
            Some((q, id)) => match spec_cstring(bits, q) {
                None => Err(WireError::Exhausted),
                Some(nm) => match spec_entries(bits, cstring_end(q, nm)) {
                    None => Err(WireError::Exhausted),
                    Some((e, entries)) => spec_event_list(
                        bits,
                        e,
                        (k - 1) as nat,
                        acc.insert(id as u16, (decoded_text(nm), entries)),
                    ),
                },
            },
        }
    }
}

/// A length-prefixed chunk at `p` (`len_bits`-bit length): the position
/// after it and its bits.
pub open spec fn spec_chunk(bits: Seq<bool>, p: int, len_bits: nat) -> Option<(int, Seq<bool>)> {
    match rd(bits, p, len_bits) {
        None => None,
        Some((q, n)) => if q + n <= bits.len() {
            Some((q + n, bits.subrange(q, q + n)))
        } else {
            None
        },
    }
}

/// The message of type `t` whose body starts at `p`: where it ends and
/// what it surfaces, if anything.
pub open spec fn spec_message(bits: Seq<bool>, p: int, t: nat, protocol: i32) -> Result<
    (int, Option<MsgView>),
    WireError,
> {
    if is_skipped_type(t) {
        match spec_skip_body(bits, p, t, protocol) {
            Some(q) => Ok((q, None)),
            None => Err(WireError::Exhausted),
        }
    } else if t == 23 {
        // svc_UserMessage: kind, 11-bit length, data
        match rd(bits, p, 8) {
            None => Err(WireError::Exhausted),
            Some((q, kind)) => match spec_chunk(bits, q, 11) {
                None => Err(WireError::Exhausted),
                Some((e, c)) => Ok((e, Some(MsgView::User(kind as u8, c)))),
            },
        }
    } else if t == 25 {
        // svc_GameEvent: 11-bit length, data
        match spec_chunk(bits, p, 11) {
            None => Err(WireError::Exhausted),
            Some((e, c)) => Ok((e, Some(MsgView::Event(c)))),
        }
    } else if t == 30 {
        // svc_GameEventList: 9-bit count, 20-bit length, definitions
        match rd(bits, p, 9) {
            None => Err(WireError::Exhausted),
            Some((q, count)) => match spec_chunk(bits, q, 20) {
                None => Err(WireError::Exhausted),
                Some((e, c)) => match spec_event_list(c, 0, count, Map::empty()) {
                    Ok(defs) => Ok((e, Some(MsgView::EventList(defs)))),
                    Err(err) => Err(err),
                },
            },
        }
    } else {
        Err(WireError::UnknownMessage(t as u8))
    }
}

/// One message at `pos`: its 6-bit type, then its body.
pub open spec fn spec_step(bits: Seq<bool>, pos: int, protocol: i32) -> Result<
    (int, Option<MsgView>),
    WireError,
> {
    spec_message(bits, pos + 6, bits_value(bits, pos, 6), protocol)
}

/// The messages of a payload from `pos` on, each a 6-bit type and a body,
/// while at least 6 bits remain: the surfaced messages in order, and the
/// error that stopped the walk, if any (messages before it are kept).
/// `fuel` bounds the number of messages; each takes at least 6 bits, so
/// the stream's length in bits is always enough.
pub open spec fn spec_walk(bits: Seq<bool>, pos: int, protocol: i32, fuel: nat) -> (
    Seq<MsgView>,
    Option<WireError>,
)
    decreases fuel,
{
    if fuel == 0 || pos < 0 || pos + 6 > bits.len() {
        (Seq::empty(), None)
    } else {
        match spec_step(bits, pos, protocol) {
            Err(e) => (Seq::empty(), Some(e)),
            Ok((q, m)) => {
                let (rest, err) = spec_walk(bits, q, protocol, (fuel - 1) as nat);
                (
                    match m {
                        Some(msg) => seq![msg] + rest,
                        None => rest,
                    },
                    err,
                )
            },
        }
    }
}

// ---------------------------------------------------------------------
// Reading the grammar.

/// A skip helper's outcome matches the grammar's `s`.
pub open spec fn skip_matches(res: Result<(), WireError>, new_pos: nat, s: Option<int>) -> bool {
    match s {
        Some(q) => res is Ok && new_pos == q,
        None => res == Err::<(), WireError>(WireError::Exhausted),
    }
}

/// Floor of log2 of `n` (0 for 0 and 1).
pub fn log_base2(n: u16) -> (r: u32)
    ensures
        r == spec_log2(n as nat),
        r <= 15,
{
    let mut m = n;
    let mut result: u32 = 0;
    proof {
        vstd::arithmetic::power2::lemma2_to64();
        lemma_log2_below(n as nat, 16);
    }
    while m > 1
        invariant
            result + spec_log2(m as nat) == spec_log2(n as nat),
            spec_log2(n as nat) <= 15,
        decreases m,
    {
        m = m / 2;
        result = result + 1;
    }
    result
}

/// A number below `2^k` has a log2 below `k`.
proof fn lemma_log2_below(m: nat, k: nat)
    requires
        k >= 1,
        m < pow2(k),
    ensures
        spec_log2(m) <= k - 1,
    decreases k,
{
    if m > 1 {
        vstd::arithmetic::power2::lemma_pow2_unfold(k);
        if k == 1 {
            assert(pow2(0) == 1) by {
                vstd::arithmetic::power2::lemma2_to64();
            }
        } else {
            lemma_log2_below(m / 2, (k - 1) as nat);
        }
    }
}

fn skip_str(r: &mut BitReader) -> (res: Result<(), WireError>)
    requires
        old(r).valid(),
    ensures
        final(r).valid(),
        final(r).bits() == old(r).bits(),
        old(r).pos() <= final(r).pos(),
        skip_matches(res, final(r).pos(), st(old(r).bits(), old(r).pos() as int)),
{
    r.read_string_bytes()?;
    Ok(())
}

/// Skip `n * scale` bits, however large the product.
fn skip_scaled(r: &mut BitReader, n: u32, scale: u32) -> (res: Result<(), WireError>)
    requires
        old(r).valid(),
        scale == 1 || scale == 8,
    ensures
        final(r).valid(),
        final(r).bits() == old(r).bits(),
        old(r).pos() <= final(r).pos(),
        skip_matches(res, final(r).pos(), sk(old(r).bits(), old(r).pos() as int, n * scale)),
{
    let want: u64 = if scale == 8 { n as u64 * 8 } else { n as u64 };
    if want > r.bits_left() as u64 {
        return Err(WireError::Exhausted);
    }
    r.skip_bits(want as usize)
}

fn skip_sized_exec(r: &mut BitReader, len_bits: u32, scale: u32) -> (res: Result<(), WireError>)
    requires
        old(r).valid(),
        len_bits <= 32,
        scale == 1 || scale == 8,
    ensures
        final(r).valid(),
        final(r).bits() == old(r).bits(),
        old(r).pos() <= final(r).pos(),
        skip_matches(
            res,
            final(r).pos(),
            skip_sized(old(r).bits(), old(r).pos() as int, len_bits as nat, scale as int),
        ),
{
    let n = r.read_bits(len_bits)?;
    proof {
        crate::demo::bits::lemma_bits_value_bound(old(r).bits(), old(r).pos() as int, len_bits as nat);
        vstd::arithmetic::power2::lemma2_to64();
        if len_bits < 32 {
            vstd::arithmetic::power2::lemma_pow2_strictly_increases(len_bits as nat, 32);
        }
    }
    skip_scaled(r, n, scale)
}

fn skip_strings_exec(r: &mut BitReader, k: u32) -> (res: Result<(), WireError>)
    requires
        old(r).valid(),
    ensures
        final(r).valid(),
        final(r).bits() == old(r).bits(),
        old(r).pos() <= final(r).pos(),
        skip_matches(res, final(r).pos(), skip_strings(old(r).bits(), old(r).pos() as int, k as nat)),
{
    let mut i: u32 = 0;
    while i < k
        invariant
            r.valid(),
            r.bits() == old(r).bits(),
            old(r).pos() <= r.pos(),
            i <= k,
            skip_strings(old(r).bits(), old(r).pos() as int, k as nat) == skip_strings(
                r.bits(),
                r.pos() as int,
                (k - i) as nat,
            ),
        decreases k - i,
    {
        skip_str(r)?;
        i = i + 1;
    }
    Ok(())
}

fn skip_classes_exec(r: &mut BitReader, k: u32, w: u32) -> (res: Result<(), WireError>)
    requires
        old(r).valid(),
        w <= 32,
    ensures
        final(r).valid(),
        final(r).bits() == old(r).bits(),
        old(r).pos() <= final(r).pos(),
        skip_matches(
            res,
            final(r).pos(),
            skip_classes(old(r).bits(), old(r).pos() as int, k as nat, w as int),
        ),
{
    let mut i: u32 = 0;
    while i < k
        invariant
            r.valid(),
            r.bits() == old(r).bits(),
            old(r).pos() <= r.pos(),
            i <= k,
            w <= 32,
            skip_classes(old(r).bits(), old(r).pos() as int, k as nat, w as int) == skip_classes(
                r.bits(),
                r.pos() as int,
                (k - i) as nat,
                w as int,
            ),
        decreases k - i,
    {
        r.read_bits(w)?;
        skip_str(r)?;
        skip_str(r)?;
        i = i + 1;
    }
    Ok(())
}

fn skip_server_info_exec(r: &mut BitReader, protocol: i32) -> (res: Result<(), WireError>)
    requires
        old(r).valid(),
    ensures
        final(r).valid(),
        final(r).bits() == old(r).bits(),
        old(r).pos() <= final(r).pos(),
        skip_matches(res, final(r).pos(), skip_server_info(old(r).bits(), old(r).pos() as int, protocol)),
{
    r.skip_bits(16 + 32 + 1 + 1 + 32 + 16)?;
    if protocol > 17 {
        r.skip_bits(128)?;  // map md5
    } else {
        r.skip_bits(32)?;  // map crc
    }
    r.skip_bits(8 + 8 + 32 + 8)?;  // player slot, max clients, tick interval, os
    skip_strings_exec(r, 4)?;  // game dir, map, sky, host name
    if protocol > 15 {
        r.skip_bits(1)?;  // replay flag
    }
    Ok(())
}

fn skip_class_info_exec(r: &mut BitReader) -> (res: Result<(), WireError>)
    requires
        old(r).valid(),
    ensures
        final(r).valid(),
        final(r).bits() == old(r).bits(),
        old(r).pos() <= final(r).pos(),
        skip_matches(res, final(r).pos(), skip_class_info(old(r).bits(), old(r).pos() as int)),
{
    let count = r.read_bits(16)?;
    let create_on_client = r.read_bit()?;
    if !create_on_client {
        proof {
            crate::demo::bits::lemma_bits_value_bound(old(r).bits(), old(r).pos() as int, 16);
            vstd::arithmetic::power2::lemma2_to64();
        }
        let w = log_base2(count as u16) + 1;
        skip_classes_exec(r, count, w)?;
    }
    Ok(())
}

fn skip_create_string_table_exec(r: &mut BitReader, protocol: i32) -> (res: Result<(), WireError>)
    requires
        old(r).valid(),
    ensures
        final(r).valid(),
        final(r).bits() == old(r).bits(),
        old(r).pos() <= final(r).pos(),
        skip_matches(
            res,
            final(r).pos(),
            skip_create_string_table(old(r).bits(), old(r).pos() as int, protocol),
        ),
{
    skip_str(r)?;  // table name
    let max_entries = r.read_bits(16)?;
    proof {
        vstd::arithmetic::power2::lemma2_to64();
    }
    let max_entries = max_entries as u16;
    r.skip_bits((log_base2(max_entries) + 1) as usize)?;  // entry count
    let length = if protocol > 23 {
        r.read_var_int()?
    } else {
        r.read_bits(20)?
    };
    if r.read_bit()? {
        r.skip_bits(12 + 4)?;  // fixed userdata size + bits
    }
    r.skip_bits(1)?;  // compressed
    r.skip_bits(length as usize)
}

fn skip_update_string_table_exec(r: &mut BitReader) -> (res: Result<(), WireError>)
    requires
        old(r).valid(),
    ensures
        final(r).valid(),
        final(r).bits() == old(r).bits(),
        old(r).pos() <= final(r).pos(),
        skip_matches(res, final(r).pos(), skip_update_string_table(old(r).bits(), old(r).pos() as int)),
{
    r.skip_bits(5)?;  // table id
    if r.read_bit()? {
        r.skip_bits(16)?;  // changed entry count
    }
    skip_sized_exec(r, 20, 1)
}

fn skip_voice_init_exec(r: &mut BitReader) -> (res: Result<(), WireError>)
    requires
        old(r).valid(),
    ensures
        final(r).valid(),
        final(r).bits() == old(r).bits(),
        old(r).pos() <= final(r).pos(),
        skip_matches(res, final(r).pos(), skip_voice_init(old(r).bits(), old(r).pos() as int)),
{
    skip_str(r)?;  // codec
    let quality = r.read_bits(8)?;
    if quality == 255 {
        r.skip_bits(16)?;  // sampling rate
    }
    Ok(())
}

fn skip_sounds_exec(r: &mut BitReader) -> (res: Result<(), WireError>)
    requires
        old(r).valid(),
    ensures
        final(r).valid(),
        final(r).bits() == old(r).bits(),
        old(r).pos() <= final(r).pos(),
        skip_matches(res, final(r).pos(), skip_sounds(old(r).bits(), old(r).pos() as int)),
{
    let reliable = r.read_bit()?;
    if reliable {
        skip_sized_exec(r, 8, 1)
    } else {
        r.skip_bits(8)?;  // sound count
        skip_sized_exec(r, 16, 1)
    }
}

fn skip_opt_coord(r: &mut BitReader, present: bool) -> (res: Result<(), WireError>)
    requires
        old(r).valid(),
    ensures
        final(r).valid(),
        final(r).bits() == old(r).bits(),
        old(r).pos() <= final(r).pos(),
        skip_matches(res, final(r).pos(), opt_coord(old(r).bits(), Some(old(r).pos() as int), present)),
{
    if present {
        r.read_bit_coord()?;
    }
    Ok(())
}

fn skip_bsp_decal_exec(r: &mut BitReader) -> (res: Result<(), WireError>)
    requires
        old(r).valid(),
    ensures
        final(r).valid(),
        final(r).bits() == old(r).bits(),
        old(r).pos() <= final(r).pos(),
        skip_matches(res, final(r).pos(), skip_bsp_decal(old(r).bits(), old(r).pos() as int)),
{
    let has_x = r.read_bit()?;
    let has_y = r.read_bit()?;
    let has_z = r.read_bit()?;
    skip_opt_coord(r, has_x)?;
    skip_opt_coord(r, has_y)?;
    skip_opt_coord(r, has_z)?;
    r.skip_bits(9)?;  // decal texture index
    if r.read_bit()? {
        r.skip_bits(11 + 13)?;  // entity + model index
    }
    r.skip_bits(1)  // low priority
}

fn skip_packet_entities_exec(r: &mut BitReader) -> (res: Result<(), WireError>)
    requires
        old(r).valid(),
    ensures
        final(r).valid(),
        final(r).bits() == old(r).bits(),
        old(r).pos() <= final(r).pos(),
        skip_matches(res, final(r).pos(), skip_packet_entities(old(r).bits(), old(r).pos() as int)),
{
    r.skip_bits(11)?;  // max entries
    if r.read_bit()? {
        r.skip_bits(32)?;  // delta-from tick
    }
    r.skip_bits(1)?;  // baseline
    r.skip_bits(11)?;  // updated entries
    let length = r.read_bits(20)?;
    r.skip_bits(1)?;  // update baseline
    r.skip_bits(length as usize)
}

fn skip_temp_entities_exec(r: &mut BitReader, protocol: i32) -> (res: Result<(), WireError>)
    requires
        old(r).valid(),
    ensures
        final(r).valid(),
        final(r).bits() == old(r).bits(),
        old(r).pos() <= final(r).pos(),
        skip_matches(res, final(r).pos(), skip_temp_entities(old(r).bits(), old(r).pos() as int, protocol)),
{
    r.skip_bits(8)?;  // entry count
    if protocol > 23 {
        let length = r.read_var_int()?;
        r.skip_bits(length as usize)
    } else {
        skip_sized_exec(r, 17, 1)
    }
}

fn skip_body(r: &mut BitReader, t: u32, protocol: i32) -> (res: Result<(), WireError>)
    requires
        old(r).valid(),
        is_skipped_type(t as nat),
    ensures
        final(r).valid(),
        final(r).bits() == old(r).bits(),
        old(r).pos() <= final(r).pos(),
        skip_matches(res, final(r).pos(), spec_skip_body(old(r).bits(), old(r).pos() as int, t as nat, protocol)),
{
    match t {
        0 => Ok(()),
        1 | 4 | 7 => skip_str(r),
        2 => {
            r.skip_bits(32)?;  // net_File: transfer id, name, requested flag
            skip_str(r)?;
            r.skip_bits(1)
        },
        3 => r.skip_bits(32 + 16 + 16),  // net_Tick: tick + host frametime/stddev
        5 => {
            let count = r.read_bits(8)?;  // net_SetConVar: count * (name, value)
            proof {
                vstd::arithmetic::power2::lemma2_to64();
            }
            skip_strings_exec(r, 2 * count)
        },
        6 => r.skip_bits(8 + 32),
        8 => skip_server_info_exec(r, protocol),
        10 => skip_class_info_exec(r),
        11 => r.skip_bits(1),
        12 => skip_create_string_table_exec(r, protocol),
        13 => skip_update_string_table_exec(r),
        14 => skip_voice_init_exec(r),
        15 => {
            r.skip_bits(8 + 8)?;
            skip_sized_exec(r, 16, 1)
        },
        17 => skip_sounds_exec(r),
        18 => r.skip_bits(11),
        19 => r.skip_bits(1 + 48),
        21 => skip_bsp_decal_exec(r),
        24 => {
            r.skip_bits(11 + 9)?;
            skip_sized_exec(r, 11, 1)
        },
        26 => skip_packet_entities_exec(r),
        27 => skip_temp_entities_exec(r, protocol),
        28 => r.skip_bits(if protocol > 22 { 14 } else { 13 }),
        29 => {
            r.skip_bits(16)?;
            skip_sized_exec(r, 16, 8)
        },
        31 => {
            r.skip_bits(32)?;
            skip_str(r)
        },
        _ => skip_sized_exec(r, 32, 8),
    }
}

/// Read a definition's fields, up to and including the zero type that
/// ends them.
fn read_entries(r: &mut BitReader) -> (res: Result<Vec<EventEntry>, WireError>)
    requires
        old(r).valid(),
    ensures
        final(r).valid(),
        final(r).bits() == old(r).bits(),
        old(r).pos() <= final(r).pos(),
        match spec_entries(old(r).bits(), old(r).pos() as int) {
            Some((e, es)) => res matches Ok(v) && v@.map_values(|x: EventEntry| x@) == es
                && final(r).pos() == e,
            None => res == Err::<Vec<EventEntry>, WireError>(WireError::Exhausted),
        },
{
    let ghost bits = old(r).bits();
    let ghost start = old(r).pos() as int;
    let mut entries: Vec<EventEntry> = Vec::new();
    loop
        invariant
            r.valid(),
            r.bits() == bits,
            bits == old(r).bits(),
            start == old(r).pos(),
            start <= r.pos(),
            spec_entries(bits, start) == match spec_entries(bits, r.pos() as int) {
                Some((e, rest)) => Some((e, entries@.map_values(|x: EventEntry| x@) + rest)),
                None => None::<(int, Seq<(Seq<char>, u8)>)>,
            },
        decreases bits.len() - r.pos(),
    {
        let ghost p = r.pos() as int;
        let kind = r.read_bits(3)?;
        if kind == 0 {
            proof {
                assert(entries@.map_values(|x: EventEntry| x@) + Seq::<(Seq<char>, u8)>::empty()
                    =~= entries@.map_values(|x: EventEntry| x@));
            }
            return Ok(entries);
        }
        let name = r.read_string()?;
        proof {
            crate::demo::bits::lemma_bits_value_bound(bits, p, 3);
            vstd::arithmetic::power2::lemma2_to64();
            crate::demo::bits::lemma_cstring_bound(bits, p + 3);
        }
        let ghost before = entries@.map_values(|x: EventEntry| x@);
        entries.push(EventEntry { name, kind: kind as u8 });
        proof {
            let item = (entries@.last().name@, kind as u8);
            assert(entries@.map_values(|x: EventEntry| x@) =~= before.push(item));
            match spec_entries(bits, r.pos() as int) {
                Some((e, rest)) => {
                    assert(before + (seq![item] + rest) =~= before.push(item) + rest);
                },
                None => {},
            }
        }
    }
}

/// The definitions as values after one more is added.
proof fn lemma_defs_view_insert(m: Map<u16, EventDef>, k: u16, d: EventDef)
    ensures
        defs_view(m.insert(k, d)) == defs_view(m).insert(k, d@),
{
    assert(defs_view(m.insert(k, d)) =~= defs_view(m).insert(k, d@));
}

/// Parse the `count` definitions of an svc_GameEventList chunk.
pub fn parse_event_list(chunk: &BitChunk, count: u32) -> (res: Result<EventDefs, WireError>)
    requires
        chunk.wf(),
    ensures
        match spec_event_list(chunk@, 0, count as nat, Map::empty()) {
            Ok(m) => res matches Ok(defs) && defs_view(defs@) == m,
            Err(e) => res == Err::<EventDefs, WireError>(e),
        },
{
    let mut r = chunk.reader();
    let ghost bits = chunk@;
    let mut defs: EventDefs = HashMap::new();
    proof {
        assert(defs_view(defs@) =~= Map::<u16, DefView>::empty());
    }
    let mut i: u32 = 0;
    while i < count
        invariant
            r.valid(),
            r.bits() == bits,
            bits == chunk@,
            i <= count,
            spec_event_list(bits, 0, count as nat, Map::empty()) == spec_event_list(
                bits,
                r.pos() as int,
                (count - i) as nat,
                defs_view(defs@),
            ),
        decreases count - i,
    {
        let id = r.read_bits(9)?;
        proof {
            crate::demo::bits::lemma_bits_value_bound(bits, r.pos() - 9, 9);
            vstd::arithmetic::power2::lemma2_to64();
        }
        let name = r.read_string()?;
        let entries = read_entries(&mut r)?;
        let def = EventDef { name, entries };
        proof {
            lemma_defs_view_insert(defs@, id as u16, def);
        }
        defs.insert(id as u16, def);
        i = i + 1;
    }
    Ok(defs)
}

/// Read the message of type `t` whose body is at the cursor.
fn read_message(r: &mut BitReader, t: u32, protocol: i32) -> (res: Result<Option<NetMessage>, WireError>)
    requires
        old(r).valid(),
        t < 64,
    ensures
        final(r).valid(),
        final(r).bits() == old(r).bits(),
        old(r).pos() <= final(r).pos(),
        match spec_message(old(r).bits(), old(r).pos() as int, t as nat, protocol) {
            Ok((q, m)) => res matches Ok(om) && final(r).pos() == q && match om {
                Some(msg) => m == Some(msg@) && msg.wf(),
                None => m is None,
            },
            Err(e) => res == Err::<Option<NetMessage>, WireError>(e),
        },
{
    if t <= 8 || (10 <= t && t <= 15) || t == 17 || t == 18 || t == 19 || t == 21 || t == 24 || (26
        <= t && t <= 29) || t == 31 || t == 32 {
        skip_body(r, t, protocol)?;
        return Ok(None);
    }
    if t == 23 {
        // svc_UserMessage
        let kind = r.read_bits(8)?;
        proof {
            vstd::arithmetic::power2::lemma2_to64();
        }
        let length = r.read_bits(11)?;
        let data = r.read_chunk(length as usize)?;
        return Ok(Some(NetMessage::UserMessage { kind: kind as u8, data }));
    }
    if t == 25 {
        // svc_GameEvent
        let length = r.read_bits(11)?;
        let data = r.read_chunk(length as usize)?;
        return Ok(Some(NetMessage::GameEvent(data)));
    }
    if t == 30 {
        // svc_GameEventList
        let count = r.read_bits(9)?;
        let length = r.read_bits(20)?;
        let chunk = r.read_chunk(length as usize)?;
        let defs = parse_event_list(&chunk, count)?;
        return Ok(Some(NetMessage::GameEventList(defs)));
    }
    Err(WireError::UnknownMessage(t as u8))
}

/// Read one message (type and body) at the cursor.
fn read_step(r: &mut BitReader, protocol: i32) -> (res: Result<Option<NetMessage>, WireError>)
    requires
        old(r).valid(),
        old(r).pos() + 6 <= old(r).bits().len(),
    ensures
        final(r).valid(),
        final(r).bits() == old(r).bits(),
        old(r).pos() <= final(r).pos(),
        match spec_step(old(r).bits(), old(r).pos() as int, protocol) {
            Ok((q, m)) => res matches Ok(om) && final(r).pos() == q && q >= old(r).pos() + 6 && match om {
                Some(msg) => m == Some(msg@) && msg.wf(),
                None => m is None,
            },
            Err(e) => res == Err::<Option<NetMessage>, WireError>(e),
        },
{
    let msg_type = r.read_bits(NETMSG_TYPE_BITS)?;
    proof {
        vstd::arithmetic::power2::lemma2_to64();
    }
    read_message(r, msg_type, protocol)
}

/// The messages surfaced from a walk, as values.
pub open spec fn msgs_view(ms: Seq<NetMessage>) -> Seq<MsgView> {
    ms.map_values(|m: NetMessage| m@)
}

/// Walk every net message in a packet payload and return the surfaced
/// ones in order, with the error that stopped the walk early, if any (the
/// messages before it are still returned). `protocol` is the header's
/// network protocol.
pub fn walk_packet(payload: &[u8], protocol: i32) -> (res: (Vec<NetMessage>, Result<(), WireError>))
    requires
        payload@.len() * 8 + 8 <= usize::MAX,
    ensures
        ({
            let bits = stream_bits(payload@, (payload@.len() * 8) as nat);
            let (ms, err) = spec_walk(bits, 0, protocol, bits.len());
            &&& msgs_view(res.0@) == ms
            &&& forall|i: int| 0 <= i < res.0@.len() ==> (#[trigger] res.0@[i]).wf()
            &&& match err {
                Some(e) => res.1 == Err::<(), WireError>(e),
                None => res.1 is Ok,
            }
        }),
{
    let mut r = BitReader::new(payload);
    let ghost bits = r.bits();
    let mut msgs: Vec<NetMessage> = Vec::new();
    let mut fuel: usize = r.bits_left();
    proof {
        assert(msgs_view(msgs@) =~= Seq::<MsgView>::empty());
        assert(msgs_view(msgs@) + spec_walk(bits, 0, protocol, bits.len()).0 =~= spec_walk(bits, 0, protocol, bits.len()).0);
    }
    while r.bits_left() >= NETMSG_TYPE_BITS as usize
        invariant
            r.valid(),
            r.bits() == bits,
            bits == stream_bits(payload@, (payload@.len() * 8) as nat),
            fuel >= bits.len() - r.pos(),
            forall|i: int| 0 <= i < msgs@.len() ==> (#[trigger] msgs@[i]).wf(),
            ({
                let (all, err) = spec_walk(bits, 0, protocol, bits.len());
                let (rest, err2) = spec_walk(bits, r.pos() as int, protocol, fuel as nat);
                all == msgs_view(msgs@) + rest && err == err2
            }),
        decreases bits.len() - r.pos(),
    {
        let ghost p = r.pos() as int;
        match read_step(&mut r, protocol) {
            Err(e) => {
                proof {
                    assert(msgs_view(msgs@) + Seq::<MsgView>::empty() =~= msgs_view(msgs@));
                }
                return (msgs, Err(e));
            },
            Ok(None) => {},
            Ok(Some(m)) => {
                let ghost before = msgs@;
                msgs.push(m);
                proof {
                    assert(msgs_view(msgs@) =~= msgs_view(before).push(msgs@.last()@));
                    let rest = spec_walk(bits, r.pos() as int, protocol, (fuel - 1) as nat).0;
                    assert(msgs_view(before) + (seq![msgs@.last()@] + rest) =~= msgs_view(msgs@) + rest);
                }
            },
        }
        fuel = fuel - 1;
    }
    proof {
        assert(msgs_view(msgs@) + Seq::<MsgView>::empty() =~= msgs_view(msgs@));
    }
    (msgs, Ok(()))
}

// ---------------------------------------------------------------------
// Game events, parsed against the demo's own definitions.

/// A field value of wire type `kind` at `pos`: where it ends and its value
/// (none for type 7, "local", which is not transmitted).
pub open spec fn spec_value(bits: Seq<bool>, pos: int, kind: u8) -> Result<(int, Option<ValueView>), WireError> {
    let exhausted = Err::<(int, Option<ValueView>), WireError>(WireError::Exhausted);
    if kind == 1 {
        match spec_cstring(bits, pos) {
            Some(s) => Ok((cstring_end(pos, s), Some(ValueView::Str(decoded_text(s))))),
            None => exhausted,
        }
    } else if kind == 2 || kind == 3 || kind == 4 || kind == 5 {
        let n: nat = if kind <= 3 { 32 } else if kind == 4 { 16 } else { 8 };
        match rd(bits, pos, n) {
            Some((q, v)) => Ok((q, Some(if kind == 2 { ValueView::Float(v as u32) } else { ValueView::Int(v as u32) }))),
            None => exhausted,
        }
    } else if kind == 6 {
        match rb(bits, pos) {
            Some((q, b)) => Ok((q, Some(ValueView::Bool(b)))),
            None => exhausted,
        }
    } else if kind == 7 {
        Ok((pos, None))
    } else {
        Err(WireError::UnknownValueKind(kind))
    }
}

/// The fields of an event at `pos`, one per definition entry in order
/// (type-7 entries contribute none).
pub open spec fn spec_fields(bits: Seq<bool>, pos: int, entries: Seq<(Seq<char>, u8)>) -> Result<
    Seq<(Seq<char>, ValueView)>,
    WireError,
>
    decreases entries.len(),
{
    if entries.len() == 0 {
        Ok(Seq::empty())
    } else {
        match spec_value(bits, pos, entries[0].1) {
            Err(e) => Err(e),
            Ok((q, v)) => match spec_fields(bits, q, entries.drop_first()) {
                Err(e) => Err(e),
                Ok(rest) => Ok(
                    match v {
                        Some(x) => seq![(entries[0].0, x)] + rest,
                        None => rest,
                    },
                ),
            },
        }
    }
}

/// An event's fields as values.
pub open spec fn fields_view(fs: Seq<(String, EventValue)>) -> Seq<(Seq<char>, ValueView)> {
    fs.map_values(|f: (String, EventValue)| (f.0@, f.1@))
}

/// What parsing a raw event against `defs` yields: its 9-bit type id
/// selects the definition, whose entries give the fields.
pub open spec fn spec_game_event(bits: Seq<bool>, defs: Map<u16, DefView>) -> Result<
    (Seq<char>, Seq<(Seq<char>, ValueView)>),
    WireError,
> {
    match rd(bits, 0, 9) {
        None => Err(WireError::Exhausted),
        Some((q, id)) => if !defs.contains_key(id as u16) {
            Err(WireError::UnknownEventId(id as u16))
        } else {
            match spec_fields(bits, q, defs[id as u16].1) {
                Err(e) => Err(e),
                Ok(fs) => Ok((defs[id as u16].0, fs)),
            }
        },
    }
}

fn read_value(r: &mut BitReader, kind: u8) -> (res: Result<Option<EventValue>, WireError>)
    requires
        old(r).valid(),
    ensures
        final(r).valid(),
        final(r).bits() == old(r).bits(),
        old(r).pos() <= final(r).pos(),
        match spec_value(old(r).bits(), old(r).pos() as int, kind) {
            Ok((q, v)) => res matches Ok(ov) && final(r).pos() == q && match ov {
                Some(x) => v == Some(x@),
                None => v is None,
            },
            Err(e) => res == Err::<Option<EventValue>, WireError>(e),
        },
{
    match kind {
        1 => Ok(Some(EventValue::Str(r.read_string()?))),
        2 => Ok(Some(EventValue::Float(r.read_bits(32)?))),
        3 => Ok(Some(EventValue::Int(r.read_bits(32)?))),
        4 => Ok(Some(EventValue::Int(r.read_bits(16)?))),
        5 => Ok(Some(EventValue::Int(r.read_bits(8)?))),
        6 => Ok(Some(EventValue::Bool(r.read_bit()?))),
        7 => Ok(None),  // local: not transmitted
        other => Err(WireError::UnknownValueKind(other)),
    }
}

/// Parse a raw game event against the demo's definitions. Returns the
/// event name and its fields in definition order.
pub fn parse_game_event(chunk: &BitChunk, defs: &EventDefs) -> (res: Result<
    (String, Vec<(String, EventValue)>),
    WireError,
>)
    requires
        chunk.wf(),
    ensures
        match spec_game_event(chunk@, defs_view(defs@)) {
            Ok((name, fs)) => res matches Ok((n, v)) && n@ == name && fields_view(v@) == fs,
            Err(e) => res == Err::<(String, Vec<(String, EventValue)>), WireError>(e),
        },
{
    let mut r = chunk.reader();
    let ghost bits = chunk@;
    let id = r.read_bits(9)?;
    proof {
        vstd::arithmetic::power2::lemma2_to64();
    }
    let id = id as u16;
    let def = match defs.get(&id) {
        Some(d) => d,
        None => {
            return Err(WireError::UnknownEventId(id));
        },
    };
    let ghost entries = def@.1;
    let ghost start = r.pos() as int;
    let mut fields: Vec<(String, EventValue)> = Vec::new();
    let mut i: usize = 0;
    proof {
        assert(entries.skip(0) =~= entries);
        assert(fields_view(fields@) =~= Seq::<(Seq<char>, ValueView)>::empty());
    }
    while i < def.entries.len()
        invariant
            r.valid(),
            r.bits() == bits,
            bits == chunk@,
            i <= def.entries@.len(),
            entries == def@.1,
            entries.len() == def.entries@.len(),
            spec_game_event(chunk@, defs_view(defs@)) == match spec_fields(bits, start, entries) {
                Err(e) => Err(e),
                Ok(fs) => Ok::<(Seq<char>, Seq<(Seq<char>, ValueView)>), WireError>((def@.0, fs)),
            },
            spec_fields(bits, start, entries) == match spec_fields(bits, r.pos() as int, entries.skip(i as int)) {
                Ok(rest) => Ok(fields_view(fields@) + rest),
                Err(e) => Err::<Seq<(Seq<char>, ValueView)>, WireError>(e),
            },
        decreases def.entries@.len() - i,
    {
        let entry = &def.entries[i];
        proof {
            assert(entries.skip(i as int)[0] == entry@);
            assert(entries.skip(i as int).drop_first() =~= entries.skip(i + 1));
        }
        let v = read_value(&mut r, entry.kind)?;
        match v {
            Some(value) => {
                let ghost before = fields_view(fields@);
                let name = entry.name.clone();
                fields.push((name, value));
                proof {
                    assert(fields_view(fields@) =~= before.push((entry.name@, value@)));
                    match spec_fields(bits, r.pos() as int, entries.skip(i + 1)) {
                        Ok(rest) => {
                            assert(before + (seq![(entry.name@, value@)] + rest) =~= fields_view(fields@) + rest);
                        },
                        Err(_) => {},
                    }
                }
            },
            None => {},
        }
        i = i + 1;
    }
    proof {
        assert(entries.skip(i as int) =~= Seq::<(Seq<char>, u8)>::empty());
        assert(fields_view(fields@) + Seq::<(Seq<char>, ValueView)>::empty() =~= fields_view(fields@));
    }
    Ok((def.name.clone(), fields))
}

} // verus!
