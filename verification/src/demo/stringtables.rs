//! `dem_stringtables` frame decoding: a full dump of every string table,
//! written at recording start. Its `userinfo` table is the player roster
//! (name, userid, steamid) as of the moment recording began. Players who
//! join later surface via `player_connect`/`player_info` game events.

use vstd::prelude::*;
use crate::demo::bits::{BitReader, WireError, cstring_end, spec_bytes_at, spec_cstring, spec_read, stream_bits};
use crate::demo::header::{cstr, fixed_text, le_u32, u32_at};
use crate::demo::net::{rb, rd};
use crate::text::{parse_u32, spec_parse_u32, str_eq, decoded_text};

verus! {

#[derive(Debug)]
pub struct PlayerInfo {
    /// Client slot from the table index; entity id is slot + 1.
    pub entity_id: u32,
    pub name: String,
    pub user_id: u32,
    pub steam_id: String,
    pub is_fake_player: bool,
    pub is_hltv: bool,
}

/// A player's roster entry as values.
pub struct PlayerInfoView {
    pub entity_id: u32,
    pub name: Seq<char>,
    pub user_id: u32,
    pub steam_id: Seq<char>,
    pub is_fake_player: bool,
    pub is_hltv: bool,
}

impl View for PlayerInfo {
    type V = PlayerInfoView;

    open spec fn view(&self) -> PlayerInfoView {
        PlayerInfoView {
            entity_id: self.entity_id,
            name: self.name@,
            user_id: self.user_id,
            steam_id: self.steam_id@,
            is_fake_player: self.is_fake_player,
            is_hltv: self.is_hltv,
        }
    }
}

/// The player_info_s record for this engine branch (132 bytes):
/// name[32], user_id u32, steam_id[32], extra u32, friends_id u32,
/// friends_name[32], fake u8, hltv u8, replay u8, custom_files u32[4],
/// files_downloaded u32, padding u8. A layout without the 4-byte `extra`
/// field also exists; the flag offsets are picked by total length, and
/// records shorter than 108 bytes are not read.
pub open spec fn spec_player_info(d: Seq<u8>, entity_id: u32) -> Option<PlayerInfoView> {
    if d.len() < 108 {
        None
    } else {
        let fake_off: int = if d.len() >= 132 { 108 } else { 104 };
        Some(
            PlayerInfoView {
                entity_id,
                name: fixed_text(d.subrange(0, 32)),
                user_id: le_u32(d, 32),
                steam_id: fixed_text(d.subrange(36, 68)),
                is_fake_player: d[fake_off] != 0,
                is_hltv: d[fake_off + 1] != 0,
            },
        )
    }
}

/// Where the player_info_s flags lie: in a record of 132 bytes or more the
/// fake-player flag is byte 108 and the SourceTV flag byte 109, right after
/// it; in a record of 108 to 131 bytes (no `extra` field) they are bytes
/// 104 and 105; the name is the text of bytes 0..32, the user id the
/// little-endian u32 at byte 32, the SteamID the text of bytes 36..68, and
/// the entity id is the one given. Shorter records give nothing.
pub proof fn lemma_player_info_layout(d: Seq<u8>, entity_id: u32)
    ensures
        d.len() < 108 <==> spec_player_info(d, entity_id) is None,
        d.len() >= 132 ==> (spec_player_info(d, entity_id) matches Some(p) && p.is_fake_player == (d[108] != 0)
            && p.is_hltv == (d[109] != 0)),
        108 <= d.len() < 132 ==> (spec_player_info(d, entity_id) matches Some(p) && p.is_fake_player == (d[104]
            != 0) && p.is_hltv == (d[105] != 0)),
        d.len() >= 108 ==> (spec_player_info(d, entity_id) matches Some(p) && p.entity_id == entity_id
            && p.user_id as int == (d[32] + d[33] * 256 + d[34] * 65536 + d[35] * 16777216) as u32 as int
            && p.name == fixed_text(d.take(32)) && p.steam_id == fixed_text(d.subrange(36, 68))),
{
}

/// A NUL-padded fixed-size text field, decoded lossily.
pub fn fixed_str(bytes: &[u8]) -> (s: String)
    ensures
        s@ == fixed_text(bytes@),
{
    cstr(bytes)
}

pub fn parse_player_info(data: &[u8], entity_id: u32) -> (r: Option<PlayerInfo>)
    ensures
        match spec_player_info(data@, entity_id) {
            Some(v) => r matches Some(p) && p@ == v,
            None => r is None,
        },
{
    if data.len() < 108 {
        return None;
    }
    let name = fixed_str(&data[0..32]);
    let user_id = u32_at(data, 32);
    let steam_id = fixed_str(&data[36..68]);
    let (fake_off, hltv_off) = if data.len() >= 132 {
        (108usize, 109usize)
    } else {
        (104usize, 105usize)
    };
    Some(
        PlayerInfo {
            entity_id,
            name,
            user_id,
            steam_id,
            is_fake_player: data[fake_off] != 0,
            is_hltv: data[hltv_off] != 0,
        },
    )
}

/// An entry's optional user data at `pos`: a presence bit, then a 16-bit
/// byte length and the bytes.
pub open spec fn spec_userdata(bits: Seq<bool>, pos: int) -> Option<(int, Option<Seq<u8>>)> {
    match rb(bits, pos) {
        None => None,
        Some((q, false)) => Some((q, None)),
        Some((q, true)) => match rd(bits, q, 16) {
            None => None,
            Some((q2, n)) => if q2 + 8 * n <= bits.len() {
                Some((q2 + 8 * n, Some(spec_bytes_at(bits, q2, n))))
            } else {
                None
            },
        },
    }
}

/// The wrapping increment of a slot into an entity id.
pub open spec fn slot_entity(slot: u32) -> u32 {
    if slot == u32::MAX { 0 } else { (slot + 1) as u32 }
}

/// The roster entry an entry of the `userinfo` table gives: its text is
/// the client slot, its user data the player_info_s record.
pub open spec fn userinfo_entry(text: Seq<u8>, ud: Option<Seq<u8>>) -> Seq<PlayerInfoView> {
    match (spec_parse_u32(decoded_text(text)), ud) {
        (Some(slot), Some(d)) => match spec_player_info(d, slot_entity(slot)) {
            Some(p) => seq![p],
            None => Seq::empty(),
        },
        _ => Seq::empty(),
    }
}

/// `k` table entries at `pos`; entries of the `userinfo` table yield
/// roster entries.
pub open spec fn spec_table_entries(bits: Seq<bool>, pos: int, k: nat, userinfo: bool) -> Option<
    (int, Seq<PlayerInfoView>),
>
    decreases k,
{
    if k == 0 {
        Some((pos, Seq::empty()))
    } else {
        match spec_cstring(bits, pos) {
            None => None,
            Some(text) => match spec_userdata(bits, cstring_end(pos, text)) {
                None => None,
                Some((q, ud)) => match spec_table_entries(bits, q, (k - 1) as nat, userinfo) {
                    None => None,
                    Some((e, rest)) => Some(
                        (e, if userinfo { userinfo_entry(text, ud) + rest } else { rest }),
                    ),
                },
            },
        }
    }
}

/// `k` client-side entries at `pos` (same layout, nothing kept).
pub open spec fn spec_client_entries(bits: Seq<bool>, pos: int, k: nat) -> Option<int>
    decreases k,
{
    if k == 0 {
        Some(pos)
    } else {
        match spec_cstring(bits, pos) {
            None => None,
            Some(text) => match spec_userdata(bits, cstring_end(pos, text)) {
                None => None,
                Some((q, _)) => spec_client_entries(bits, q, (k - 1) as nat),
            },
        }
    }
}

/// One table at `pos`: name, 16-bit entry count, entries, then optional
/// client-side entries.
pub open spec fn spec_table(bits: Seq<bool>, pos: int) -> Option<(int, Seq<PlayerInfoView>)> {
    match spec_cstring(bits, pos) {
        None => None,
        Some(name) => match rd(bits, cstring_end(pos, name), 16) {
            None => None,
            Some((q, n)) => match spec_table_entries(bits, q, n, decoded_text(name) == "userinfo"@) {
                None => None,
                Some((q2, found)) => match rb(bits, q2) {
                    None => None,
                    Some((q3, false)) => Some((q3, found)),
                    Some((q3, true)) => match rd(bits, q3, 16) {
                        None => None,
                        Some((q4, c)) => match spec_client_entries(bits, q4, c) {
                            None => None,
                            Some(e) => Some((e, found)),
                        },
                    },
                },
            },
        },
    }
}

/// `k` tables at `pos`, their roster entries in order.
pub open spec fn spec_tables(bits: Seq<bool>, pos: int, k: nat) -> Option<Seq<PlayerInfoView>>
    decreases k,
{
    if k == 0 {
        Some(Seq::empty())
    } else {
        match spec_table(bits, pos) {
            None => None,
            Some((q, found)) => match spec_tables(bits, q, (k - 1) as nat) {
                None => None,
                Some(rest) => Some(found + rest),
            },
        }
    }
}

/// A table dump: an 8-bit table count, then the tables.
pub open spec fn spec_userinfo(bits: Seq<bool>) -> Option<Seq<PlayerInfoView>> {
    match rd(bits, 0, 8) {
        None => None,
        Some((q, n)) => spec_tables(bits, q, n),
    }
}

/// The roster entries, as values.
pub open spec fn players_view(ps: Seq<PlayerInfo>) -> Seq<PlayerInfoView> {
    ps.map_values(|p: PlayerInfo| p@)
}

/// Read an entry's optional user data.
fn read_userdata(r: &mut BitReader) -> (res: Result<Option<Vec<u8>>, WireError>)
    requires
        old(r).valid(),
    ensures
        final(r).valid(),
        final(r).bits() == old(r).bits(),
        old(r).pos() <= final(r).pos(),
        match spec_userdata(old(r).bits(), old(r).pos() as int) {
            None => res is Err,
            Some((q, ud)) => final(r).pos() == q && match ud {
                None => res == Ok::<Option<Vec<u8>>, WireError>(None),
                Some(d) => res matches Ok(Some(v)) && v@ == d,
            },
        },
{
    if r.read_bit()? {
        let byte_len = r.read_bits(16)?;
        Ok(Some(r.read_bytes(byte_len as usize)?))
    } else {
        Ok(None)
    }
}

/// Read `k` table entries, keeping the roster entries of a `userinfo`
/// table.
fn read_table_entries(r: &mut BitReader, k: u32, userinfo: bool, players: &mut Vec<PlayerInfo>) -> (res: Result<(), WireError>)
    requires
        old(r).valid(),
    ensures
        final(r).valid(),
        final(r).bits() == old(r).bits(),
        old(r).pos() <= final(r).pos(),
        match spec_table_entries(old(r).bits(), old(r).pos() as int, k as nat, userinfo) {
            None => res is Err,
            Some((e, found)) => res is Ok && final(r).pos() == e && players_view(final(players)@)
                == players_view(old(players)@) + found,
        },
{
    let ghost bits = old(r).bits();
    let ghost start = old(r).pos() as int;
    let mut i: u32 = 0;
    proof {
        assert(players_view(players@) + Seq::<PlayerInfoView>::empty() =~= players_view(players@));
    }
    while i < k
        invariant
            r.valid(),
            r.bits() == bits,
            bits == old(r).bits(),
            start == old(r).pos(),
            start <= r.pos(),
            i <= k,
            match spec_table_entries(bits, start, k as nat, userinfo) {
                None => spec_table_entries(bits, r.pos() as int, (k - i) as nat, userinfo) is None,
                Some((e, found)) => match spec_table_entries(bits, r.pos() as int, (k - i) as nat, userinfo) {
                    None => false,
                    Some((e2, rest)) => e2 == e && players_view(old(players)@) + found
                        == players_view(players@) + rest,
                },
            },
        decreases k - i,
    {
        let ghost before = players_view(players@);
        let ghost p = r.pos() as int;
        let text = r.read_string()?;
        let userdata = read_userdata(r)?;
        if userinfo {
            if let Some(data) = &userdata {
                if let Some(slot) = parse_u32(text.as_str()) {
                    if let Some(info) = parse_player_info(data.as_slice(), slot.wrapping_add(1)) {
                        players.push(info);
                    }
                }
            }
        }
        proof {
            let t = spec_cstring(bits, p).unwrap();
            let ud = spec_userdata(bits, cstring_end(p, t)).unwrap().1;
            let got = if userinfo { userinfo_entry(t, ud) } else { Seq::empty() };
            assert(players_view(players@) =~= before + got);
            match spec_table_entries(bits, r.pos() as int, (k - i - 1) as nat, userinfo) {
                Some((e2, rest)) => {
                    assert(before + (got + rest) =~= players_view(players@) + rest);
                },
                None => {},
            }
        }
        i = i + 1;
    }
    Ok(())
}

/// Skip `k` client-side entries.
fn skip_client_entries(r: &mut BitReader, k: u32) -> (res: Result<(), WireError>)
    requires
        old(r).valid(),
    ensures
        final(r).valid(),
        final(r).bits() == old(r).bits(),
        old(r).pos() <= final(r).pos(),
        match spec_client_entries(old(r).bits(), old(r).pos() as int, k as nat) {
            None => res is Err,
            Some(e) => res is Ok && final(r).pos() == e,
        },
{
    let mut i: u32 = 0;
    while i < k
        invariant
            r.valid(),
            r.bits() == old(r).bits(),
            old(r).pos() <= r.pos(),
            i <= k,
            spec_client_entries(old(r).bits(), old(r).pos() as int, k as nat) == spec_client_entries(
                r.bits(),
                r.pos() as int,
                (k - i) as nat,
            ),
        decreases k - i,
    {
        r.read_string_bytes()?;
        read_userdata(r)?;
        i = i + 1;
    }
    Ok(())
}

/// Read one table, keeping the roster entries of `userinfo`.
fn read_table(r: &mut BitReader, players: &mut Vec<PlayerInfo>) -> (res: Result<(), WireError>)
    requires
        old(r).valid(),
    ensures
        final(r).valid(),
        final(r).bits() == old(r).bits(),
        old(r).pos() <= final(r).pos(),
        match spec_table(old(r).bits(), old(r).pos() as int) {
            None => res is Err,
            Some((e, found)) => res is Ok && final(r).pos() == e && players_view(final(players)@)
                == players_view(old(players)@) + found,
        },
{
    let table_name = r.read_string()?;
    let entry_count = r.read_bits(16)?;
    let userinfo = str_eq(table_name.as_str(), "userinfo");
    read_table_entries(r, entry_count, userinfo, players)?;
    if r.read_bit()? {
        // client-side entries: same format, nothing needed
        let client_count = r.read_bits(16)?;
        skip_client_entries(r, client_count)?;
    }
    Ok(())
}

/// Parse the userinfo entries out of a dem_stringtables frame payload.
pub fn parse_userinfo(payload: &[u8]) -> (res: Result<Vec<PlayerInfo>, WireError>)
    requires
        payload@.len() * 8 + 8 <= usize::MAX,
    ensures
        match spec_userinfo(stream_bits(payload@, (payload@.len() * 8) as nat)) {
            None => res is Err,
            Some(found) => res matches Ok(ps) && players_view(ps@) == found,
        },
{
    let mut r = BitReader::new(payload);
    let ghost bits = r.bits();
    let mut players: Vec<PlayerInfo> = Vec::new();
    let table_count = r.read_bits(8)?;
    let mut i: u32 = 0;
    proof {
        assert(players_view(players@) =~= Seq::<PlayerInfoView>::empty());
    }
    while i < table_count
        invariant
            r.valid(),
            r.bits() == bits,
            bits == stream_bits(payload@, (payload@.len() * 8) as nat),
            i <= table_count,
            spec_read(bits, 0, 8) == Some(table_count as nat),
            match spec_tables(bits, 8, table_count as nat) {
                None => spec_tables(bits, r.pos() as int, (table_count - i) as nat) is None,
                Some(all) => match spec_tables(bits, r.pos() as int, (table_count - i) as nat) {
                    None => false,
                    Some(rest) => all == players_view(players@) + rest,
                },
            },
        decreases table_count - i,
    {
        let ghost before = players_view(players@);
        read_table(&mut r, &mut players)?;
        proof {
            match spec_tables(bits, r.pos() as int, (table_count - i - 1) as nat) {
                Some(rest) => {
                    let found = players_view(players@).subrange(before.len() as int, players_view(players@).len() as int);
                    assert(players_view(players@) =~= before + found);
                    assert(before + (found + rest) =~= players_view(players@) + rest);
                },
                None => {},
            }
        }
        i = i + 1;
    }
    proof {
        assert(players_view(players@) + Seq::<PlayerInfoView>::empty() =~= players_view(players@));
    }
    Ok(players)
}

} // verus!
