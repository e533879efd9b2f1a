//! `dem_usercmd` payload decoding: the recorder's raw input for one tick.
//!
//! Wire format is Source SDK 2013's `ReadUsercmd`, which NT;RE does not
//! modify: every field is prefixed by one presence bit; absent fields keep
//! their default. Demo usercmds are encoded against a null cmd, so each
//! frame is self-contained. NT;RE ships extra buttons (aim, lean,
//! thermoptic, vision) inside the standard 32-bit buttons field.

use vstd::prelude::*;
use crate::demo::bits::{BitReader, WireError, lemma_write_read_before, spec_read, u32_bits};
use vstd::arithmetic::power2::pow2;

verus! {

/// NEO-relevant button bits (in_buttons.h in the NT;RE repo). Reference for
/// consumers of the raw `buttons` field.
pub const BUTTON_ATTACK: u32 = 0x1;
pub const BUTTON_JUMP: u32 = 0x2;
pub const BUTTON_DUCK: u32 = 0x4;
pub const BUTTON_USE: u32 = 0x20;
pub const BUTTON_ATTACK2: u32 = 0x800;
pub const BUTTON_RELOAD: u32 = 0x2000;
/// Sprint.
pub const BUTTON_SPEED: u32 = 0x20000;
pub const BUTTON_WALK: u32 = 0x40000;
/// Held aim-down-sights state.
pub const BUTTON_ZOOM: u32 = 0x80000;
pub const BUTTON_DROP: u32 = 0x4000000;
/// Aim-down-sights toggle keypress.
pub const BUTTON_AIM: u32 = 0x8000000;
pub const BUTTON_LEAN_LEFT: u32 = 0x10000000;
pub const BUTTON_LEAN_RIGHT: u32 = 0x20000000;
pub const BUTTON_THERMOPTIC: u32 = 0x40000000;
pub const BUTTON_VISION: u32 = 0x80000000;

/// One tick of recorder input. The float fields hold the IEEE-754 bit
/// patterns that were transmitted (0 when absent, i.e. `0.0`).
#[derive(Debug, Clone, Copy, PartialEq, Eq)]
pub struct UserCmd {
    /// pitch, yaw, roll
    pub viewangles: [u32; 3],
    pub forwardmove: u32,
    pub sidemove: u32,
    pub upmove: u32,
    pub buttons: u32,
    pub impulse: u8,
    /// Weapon the player switched to this tick (entity index), if any.
    pub weaponselect: Option<u32>,
    pub mousedx: i16,
    pub mousedy: i16,
}

pub const MAX_EDICT_BITS: u32 = 11;
pub const WEAPON_SUBTYPE_BITS: u32 = 6;

/// An optional field at `pos`: a presence bit, then `n` bits if present.
pub open spec fn spec_opt_field(bits: Seq<bool>, pos: int, n: nat) -> Option<(int, Option<nat>)> {
    if pos < 0 || pos + 1 > bits.len() {
        None
    } else if !bits[pos] {
        Some((pos + 1, None))
    } else {
        match spec_read(bits, pos + 1, n) {
            Some(v) => Some((pos + 1 + n, Some(v))),
            None => None,
        }
    }
}

/// The value of an optional field, `d` when absent.
pub open spec fn or_default(v: Option<nat>, d: nat) -> nat {
    match v {
        Some(x) => x,
        None => d,
    }
}

/// The weapon selection at `pos`: a presence bit, then an 11-bit entity
/// index and an optional 6-bit subtype (read and dropped).
pub open spec fn spec_weaponselect(bits: Seq<bool>, pos: int) -> Option<(int, Option<nat>)> {
    match spec_opt_field(bits, pos, MAX_EDICT_BITS as nat) {
        None => None,
        Some((p, None)) => Some((p, None)),
        Some((p, Some(w))) => match spec_opt_field(bits, p, WEAPON_SUBTYPE_BITS as nat) {
            None => None,
            Some((q, _)) => Some((q, Some(w))),
        },
    }
}

/// The fields after the view angles, decoded into `cmd` (whose angles are
/// already set), starting at `pos`.
pub open spec fn spec_usercmd_tail(bits: Seq<bool>, pos: int, angles: [u32; 3]) -> Option<UserCmd> {
    match spec_opt_field(bits, pos, 32) {
        None => None,
        Some((p1, fwd)) => match spec_opt_field(bits, p1, 32) {
            None => None,
            Some((p2, side)) => match spec_opt_field(bits, p2, 32) {
                None => None,
                Some((p3, up)) => match spec_opt_field(bits, p3, 32) {
                    None => None,
                    Some((p4, buttons)) => match spec_opt_field(bits, p4, 8) {
                        None => None,
                        Some((p5, impulse)) => match spec_weaponselect(bits, p5) {
                            None => None,
                            Some((p6, ws)) => match spec_opt_field(bits, p6, 16) {
                                None => None,
                                Some((p7, dx)) => match spec_opt_field(bits, p7, 16) {
                                    None => None,
                                    Some((_, dy)) => Some(
                                        UserCmd {
                                            viewangles: angles,
                                            forwardmove: or_default(fwd, 0) as u32,
                                            sidemove: or_default(side, 0) as u32,
                                            upmove: or_default(up, 0) as u32,
                                            buttons: or_default(buttons, 0) as u32,
                                            impulse: or_default(impulse, 0) as u32 as u8,
                                            weaponselect: match ws {
                                                Some(w) => Some(w as u32),
                                                None => None,
                                            },
                                            mousedx: or_default(dx, 0) as u32 as u16 as i16,
                                            mousedy: or_default(dy, 0) as u32 as u16 as i16,
                                        },
                                    ),
                                },
                            },
                        },
                    },
                },
            },
        },
    }
}

/// A usercmd payload: command number and tick count (read and dropped;
/// the frame header's tick is authoritative), three view angles, then the
/// remaining fields. Anything after the last field is ignored.
pub open spec fn spec_usercmd(bits: Seq<bool>) -> Option<UserCmd> {
    match spec_opt_field(bits, 0, 32) {
        None => None,
        Some((p1, _)) => match spec_opt_field(bits, p1, 32) {
            None => None,
            Some((p2, _)) => match spec_opt_field(bits, p2, 32) {
                None => None,
                Some((p3, a0)) => match spec_opt_field(bits, p3, 32) {
                    None => None,
                    Some((p4, a1)) => match spec_opt_field(bits, p4, 32) {
                        None => None,
                        Some((p5, a2)) => spec_usercmd_tail(
                            bits,
                            p5,
                            [or_default(a0, 0) as u32, or_default(a1, 0) as u32, or_default(a2, 0) as u32],
                        ),
                    },
                },
            },
        },
    }
}

/// An optional field as a writer puts it on the wire: a presence bit,
/// then, when present, the value's low `n` bits, least significant first.
pub open spec fn opt_bits(v: Option<u32>, n: nat) -> Seq<bool> {
    match v {
        Some(x) => seq![true] + u32_bits(x, n),
        None => seq![false],
    }
}

/// The weapon selection as a writer puts it: the entity index as an
/// 11-bit field, then the subtype as an optional 6-bit field; or a lone
/// clear presence bit.
pub open spec fn weapon_bits(w: Option<(u32, Option<u32>)>) -> Seq<bool> {
    match w {
        Some((e, sub)) => opt_bits(Some(e), MAX_EDICT_BITS as nat) + opt_bits(sub, WEAPON_SUBTYPE_BITS as nat),
        None => seq![false],
    }
}

/// A field's value, 0 when absent.
pub open spec fn or_zero(v: Option<u32>) -> u32 {
    match v {
        Some(x) => x,
        None => 0,
    }
}

/// The fields after the view angles as a writer puts them, in wire order,
/// followed by `rest`: forward, side and up movement, buttons, impulse,
/// weapon selection, mouse dx and dy.
pub open spec fn usercmd_tail_bits(
    fwd: Option<u32>,
    side: Option<u32>,
    up: Option<u32>,
    buttons: Option<u32>,
    impulse: Option<u8>,
    weapon: Option<(u32, Option<u32>)>,
    dx: Option<u16>,
    dy: Option<u16>,
    rest: Seq<bool>,
) -> Seq<bool> {
    opt_bits(fwd, 32) + (opt_bits(side, 32) + (opt_bits(up, 32) + (opt_bits(buttons, 32) + (opt_bits(
        match impulse {
            Some(x) => Some(x as u32),
            None => None,
        },
        8,
    ) + (weapon_bits(weapon) + (opt_bits(
        match dx {
            Some(x) => Some(x as u32),
            None => None,
        },
        16,
    ) + (opt_bits(
        match dy {
            Some(x) => Some(x as u32),
            None => None,
        },
        16,
    ) + rest)))))))
}

/// A whole usercmd as a writer puts it: command number, tick count, the
/// three view angles, then the fields of [`usercmd_tail_bits`].
pub open spec fn usercmd_bits(
    number: Option<u32>,
    tick: Option<u32>,
    angles: [Option<u32>; 3],
    tail: Seq<bool>,
) -> Seq<bool> {
    opt_bits(number, 32) + (opt_bits(tick, 32) + (opt_bits(angles[0], 32) + (opt_bits(angles[1], 32) + (
    opt_bits(angles[2], 32) + tail))))
}

/// The usercmd the fields of a written command stand for: each value
/// where it was sent, 0 where it was not, the weapon's entity index where
/// a switch was sent.
pub open spec fn sent_usercmd(
    angles: [Option<u32>; 3],
    fwd: Option<u32>,
    side: Option<u32>,
    up: Option<u32>,
    buttons: Option<u32>,
    impulse: Option<u8>,
    weapon: Option<(u32, Option<u32>)>,
    dx: Option<u16>,
    dy: Option<u16>,
) -> UserCmd {
    UserCmd {
        viewangles: [or_zero(angles[0]), or_zero(angles[1]), or_zero(angles[2])],
        forwardmove: or_zero(fwd),
        sidemove: or_zero(side),
        upmove: or_zero(up),
        buttons: or_zero(buttons),
        impulse: match impulse {
            Some(x) => x,
            None => 0,
        },
        weaponselect: match weapon {
            Some((e, _)) => Some(e),
            None => None,
        },
        mousedx: match dx {
            Some(x) => x as i16,
            None => 0,
        },
        mousedy: match dy {
            Some(x) => x as i16,
            None => 0,
        },
    }
}

pub open spec fn opt_value(v: Option<u32>) -> Option<nat> {
    match v {
        Some(x) => Some(x as nat),
        None => None,
    }
}

proof fn lemma_opt_read(pre: Seq<bool>, v: Option<u32>, n: nat, post: Seq<bool>)
    requires
        n <= 32,
        v matches Some(x) ==> (x as nat) < pow2(n),
    ensures
        spec_opt_field(pre + (opt_bits(v, n) + post), pre.len() as int, n) == Some(
            ((pre.len() + opt_bits(v, n).len()) as int, opt_value(v)),
        ),
{
    let all = pre + (opt_bits(v, n) + post);
    match v {
        Some(x) => {
            let p1 = pre.push(true);
            assert(all =~= p1 + (u32_bits(x, n) + post));
            assert(all[pre.len() as int] == true);
            lemma_write_read_before(p1, x, n, post);
            vstd::arithmetic::div_mod::lemma_small_mod(x as nat, pow2(n));
        },
        None => {
            assert(all[pre.len() as int] == false);
        },
    }
}

proof fn lemma_weapon_read(pre: Seq<bool>, w: Option<(u32, Option<u32>)>, post: Seq<bool>)
    requires
        w matches Some((e, sub)) ==> e < 2048 && (sub matches Some(t) ==> t < 64),
    ensures
        spec_weaponselect(pre + (weapon_bits(w) + post), pre.len() as int) == Some(
            (
                (pre.len() + weapon_bits(w).len()) as int,
                match w {
                    Some((e, _)) => Some(e as nat),
                    None => None,
                },
            ),
        ),
{
    vstd::arithmetic::power2::lemma2_to64();
    match w {
        Some((e, sub)) => {
            let a = opt_bits(Some(e), 11);
            let b = opt_bits(sub, 6);
            assert(pre + (weapon_bits(w) + post) =~= pre + (a + (b + post)));
            lemma_opt_read(pre, Some(e), 11, b + post);
            assert(pre + (a + (b + post)) =~= (pre + a) + (b + post));
            lemma_opt_read(pre + a, sub, 6, post);
        },
        None => {
            lemma_opt_read(pre, None, 11, post);
        },
    }
}

/// A command written field by field reads back field by field: whatever
/// precedes the fields after the view angles (`pre`) and whatever follows
/// them, the first movement field on the wire is the forward move, the
/// second the side move, the third the up move, then the buttons, the
/// impulse, the weapon switch and the two mouse deltas, each the value
/// sent or 0 where it was not.
pub proof fn lemma_usercmd_tail_read_back(
    pre: Seq<bool>,
    angles: [u32; 3],
    fwd: Option<u32>,
    side: Option<u32>,
    up: Option<u32>,
    buttons: Option<u32>,
    impulse: Option<u8>,
    weapon: Option<(u32, Option<u32>)>,
    dx: Option<u16>,
    dy: Option<u16>,
    rest: Seq<bool>,
)
    requires
        weapon matches Some((e, sub)) ==> e < 2048 && (sub matches Some(t) ==> t < 64),
    ensures
        spec_usercmd_tail(
            pre + usercmd_tail_bits(fwd, side, up, buttons, impulse, weapon, dx, dy, rest),
            pre.len() as int,
            angles,
        ) == Some(
            UserCmd {
                viewangles: angles,
                ..sent_usercmd([None, None, None], fwd, side, up, buttons, impulse, weapon, dx, dy)
            },
        ),
{
    vstd::arithmetic::power2::lemma2_to64();
    let imp = match impulse {
        Some(x) => Some(x as u32),
        None => None,
    };
    let dx32 = match dx {
        Some(x) => Some(x as u32),
        None => None,
    };
    let dy32 = match dy {
        Some(x) => Some(x as u32),
        None => None,
    };
    let t8 = opt_bits(dy32, 16) + rest;
    let t7 = opt_bits(dx32, 16) + t8;
    let t6 = weapon_bits(weapon) + t7;
    let t5 = opt_bits(imp, 8) + t6;
    let t4 = opt_bits(buttons, 32) + t5;
    let t3 = opt_bits(up, 32) + t4;
    let t2 = opt_bits(side, 32) + t3;
    let t1 = opt_bits(fwd, 32) + t2;
    let bits = pre + t1;
    assert(usercmd_tail_bits(fwd, side, up, buttons, impulse, weapon, dx, dy, rest) == t1);
    let p2 = pre + opt_bits(fwd, 32);
    let p3 = p2 + opt_bits(side, 32);
    let p4 = p3 + opt_bits(up, 32);
    let p5 = p4 + opt_bits(buttons, 32);
    let p6 = p5 + opt_bits(imp, 8);
    let p7 = p6 + weapon_bits(weapon);
    let p8 = p7 + opt_bits(dx32, 16);
    assert(spec_opt_field(bits, pre.len() as int, 32) == Some((p2.len() as int, opt_value(fwd)))) by {
        lemma_opt_read(pre, fwd, 32, t2);
    }
    assert(bits == p2 + t2) by {
        vstd::seq_lib::lemma_concat_associative(pre, opt_bits(fwd, 32), t2);
    }
    assert(spec_opt_field(bits, p2.len() as int, 32) == Some((p3.len() as int, opt_value(side)))) by {
        lemma_opt_read(p2, side, 32, t3);
    }
    assert(bits == p3 + t3) by {
        vstd::seq_lib::lemma_concat_associative(p2, opt_bits(side, 32), t3);
    }
    assert(spec_opt_field(bits, p3.len() as int, 32) == Some((p4.len() as int, opt_value(up)))) by {
        lemma_opt_read(p3, up, 32, t4);
    }
    assert(bits == p4 + t4) by {
        vstd::seq_lib::lemma_concat_associative(p3, opt_bits(up, 32), t4);
    }
    assert(spec_opt_field(bits, p4.len() as int, 32) == Some((p5.len() as int, opt_value(buttons)))) by {
        lemma_opt_read(p4, buttons, 32, t5);
    }
    assert(bits == p5 + t5) by {
        vstd::seq_lib::lemma_concat_associative(p4, opt_bits(buttons, 32), t5);
    }
    assert(spec_opt_field(bits, p5.len() as int, 8) == Some((p6.len() as int, opt_value(imp)))) by {
        lemma_opt_read(p5, imp, 8, t6);
    }
    assert(bits == p6 + t6) by {
        vstd::seq_lib::lemma_concat_associative(p5, opt_bits(imp, 8), t6);
    }
    let wv = match weapon {
        Some((e, _)) => Some(e as nat),
        None => None,
    };
    assert(spec_weaponselect(bits, p6.len() as int) == Some((p7.len() as int, wv))) by {
        lemma_weapon_read(p6, weapon, t7);
    }
    assert(bits == p7 + t7) by {
        vstd::seq_lib::lemma_concat_associative(p6, weapon_bits(weapon), t7);
    }
    assert(spec_opt_field(bits, p7.len() as int, 16) == Some((p8.len() as int, opt_value(dx32)))) by {
        lemma_opt_read(p7, dx32, 16, t8);
    }
    assert(bits == p8 + t8) by {
        vstd::seq_lib::lemma_concat_associative(p7, opt_bits(dx32, 16), t8);
    }
    assert(spec_opt_field(bits, p8.len() as int, 16) == Some(((p8.len() + opt_bits(dy32, 16).len()) as int, opt_value(dy32)))) by {
        lemma_opt_read(p8, dy32, 16, rest);
    }
}

/// A whole command written field by field reads back field by field: the
/// three view angles after the command number and tick count, then the
/// fields of [`lemma_usercmd_tail_read_back`], whatever follows them.
pub proof fn lemma_usercmd_read_back(
    number: Option<u32>,
    tick: Option<u32>,
    angles: [Option<u32>; 3],
    fwd: Option<u32>,
    side: Option<u32>,
    up: Option<u32>,
    buttons: Option<u32>,
    impulse: Option<u8>,
    weapon: Option<(u32, Option<u32>)>,
    dx: Option<u16>,
    dy: Option<u16>,
    rest: Seq<bool>,
)
    requires
        weapon matches Some((e, sub)) ==> e < 2048 && (sub matches Some(t) ==> t < 64),
    ensures
        spec_usercmd(
            usercmd_bits(
                number,
                tick,
                angles,
                usercmd_tail_bits(fwd, side, up, buttons, impulse, weapon, dx, dy, rest),
            ),
        ) == Some(sent_usercmd(angles, fwd, side, up, buttons, impulse, weapon, dx, dy)),
{
    vstd::arithmetic::power2::lemma2_to64();
    let tail = usercmd_tail_bits(fwd, side, up, buttons, impulse, weapon, dx, dy, rest);
    let h5 = opt_bits(angles[2], 32) + tail;
    let h4 = opt_bits(angles[1], 32) + h5;
    let h3 = opt_bits(angles[0], 32) + h4;
    let h2 = opt_bits(tick, 32) + h3;
    let h1 = opt_bits(number, 32) + h2;
    let bits = usercmd_bits(number, tick, angles, tail);
    assert(bits == h1);
    let p1 = Seq::<bool>::empty();
    let p2 = p1 + opt_bits(number, 32);
    let p3 = p2 + opt_bits(tick, 32);
    let p4 = p3 + opt_bits(angles[0], 32);
    let p5 = p4 + opt_bits(angles[1], 32);
    let p6 = p5 + opt_bits(angles[2], 32);
    assert(bits == p1 + h1) by {
        assert(bits =~= p1 + h1);
    }
    assert(spec_opt_field(bits, 0, 32) == Some((p2.len() as int, opt_value(number)))) by {
        lemma_opt_read(p1, number, 32, h2);
    }
    assert(bits == p2 + h2) by {
        vstd::seq_lib::lemma_concat_associative(p1, opt_bits(number, 32), h2);
    }
    assert(spec_opt_field(bits, p2.len() as int, 32) == Some((p3.len() as int, opt_value(tick)))) by {
        lemma_opt_read(p2, tick, 32, h3);
    }
    assert(bits == p3 + h3) by {
        vstd::seq_lib::lemma_concat_associative(p2, opt_bits(tick, 32), h3);
    }
    assert(spec_opt_field(bits, p3.len() as int, 32) == Some((p4.len() as int, opt_value(angles[0])))) by {
        lemma_opt_read(p3, angles[0], 32, h4);
    }
    assert(bits == p4 + h4) by {
        vstd::seq_lib::lemma_concat_associative(p3, opt_bits(angles[0], 32), h4);
    }
    assert(spec_opt_field(bits, p4.len() as int, 32) == Some((p5.len() as int, opt_value(angles[1])))) by {
        lemma_opt_read(p4, angles[1], 32, h5);
    }
    assert(bits == p5 + h5) by {
        vstd::seq_lib::lemma_concat_associative(p4, opt_bits(angles[1], 32), h5);
    }
    assert(spec_opt_field(bits, p5.len() as int, 32) == Some((p6.len() as int, opt_value(angles[2])))) by {
        lemma_opt_read(p5, angles[2], 32, tail);
    }
    assert(bits == p6 + tail) by {
        vstd::seq_lib::lemma_concat_associative(p5, opt_bits(angles[2], 32), tail);
    }
    let av = [or_zero(angles[0]), or_zero(angles[1]), or_zero(angles[2])];
    lemma_usercmd_tail_read_back(p6, av, fwd, side, up, buttons, impulse, weapon, dx, dy, rest);
    assert(av == [or_default(opt_value(angles[0]), 0) as u32, or_default(opt_value(angles[1]), 0) as u32, or_default(opt_value(angles[2]), 0) as u32]);
}

/// Read an optional field of `n` bits.
fn read_opt(r: &mut BitReader, n: u32) -> (res: Result<Option<u32>, WireError>)
    requires
        old(r).valid(),
        n <= 32,
    ensures
        final(r).valid(),
        final(r).bits() == old(r).bits(),
        match spec_opt_field(old(r).bits(), old(r).pos() as int, n as nat) {
            None => res is Err,
            Some((p, v)) => final(r).pos() == p && res == Ok::<Option<u32>, WireError>(
                match v {
                    Some(x) => Some(x as u32),
                    None => None,
                },
            ),
        },
{
    if r.read_bit()? {
        let v = r.read_bits(n)?;
        Ok(Some(v))
    } else {
        Ok(None)
    }
}

fn read_weaponselect(r: &mut BitReader) -> (res: Result<Option<u32>, WireError>)
    requires
        old(r).valid(),
    ensures
        final(r).valid(),
        final(r).bits() == old(r).bits(),
        match spec_weaponselect(old(r).bits(), old(r).pos() as int) {
            None => res is Err,
            Some((p, v)) => final(r).pos() == p && res == Ok::<Option<u32>, WireError>(
                match v {
                    Some(x) => Some(x as u32),
                    None => None,
                },
            ),
        },
{
    match read_opt(r, MAX_EDICT_BITS)? {
        None => Ok(None),
        Some(w) => {
            read_opt(r, WEAPON_SUBTYPE_BITS)?;  // weaponsubtype: a TF2-only concept
            Ok(Some(w))
        },
    }
}

fn opt_or_zero(v: Option<u32>) -> (r: u32)
    ensures
        r == match v {
            Some(x) => x,
            None => 0u32,
        },
{
    match v {
        Some(x) => x,
        None => 0,
    }
}

fn read_tail(r: &mut BitReader, angles: [u32; 3]) -> (res: Result<UserCmd, WireError>)
    requires
        old(r).valid(),
    ensures
        match spec_usercmd_tail(old(r).bits(), old(r).pos() as int, angles) {
            None => res is Err,
            Some(c) => res == Ok::<UserCmd, WireError>(c),
        },
{
    let fwd = read_opt(r, 32)?;
    let side = read_opt(r, 32)?;
    let up = read_opt(r, 32)?;
    let buttons = read_opt(r, 32)?;
    let impulse = read_opt(r, 8)?;
    let weaponselect = read_weaponselect(r)?;
    let dx = read_opt(r, 16)?;
    let dy = read_opt(r, 16)?;
    Ok(UserCmd {
        viewangles: angles,
        forwardmove: opt_or_zero(fwd),
        sidemove: opt_or_zero(side),
        upmove: opt_or_zero(up),
        buttons: opt_or_zero(buttons),
        impulse: opt_or_zero(impulse) as u8,
        weaponselect,
        mousedx: opt_or_zero(dx) as u16 as i16,
        mousedy: opt_or_zero(dy) as u16 as i16,
    })
}

/// Decode a `dem_usercmd` payload.
pub fn read_usercmd(payload: &[u8]) -> (res: Result<UserCmd, WireError>)
    requires
        payload@.len() * 8 + 8 <= usize::MAX,
    ensures
        match spec_usercmd(crate::demo::bits::stream_bits(payload@, (payload@.len() * 8) as nat)) {
            None => res is Err,
            Some(c) => res == Ok::<UserCmd, WireError>(c),
        },
{
    let mut r = BitReader::new(payload);
    read_opt(&mut r, 32)?;  // command_number: meaningless against the null cmd
    read_opt(&mut r, 32)?;  // tick_count: the frame header's tick is authoritative
    let a0 = read_opt(&mut r, 32)?;
    let a1 = read_opt(&mut r, 32)?;
    let a2 = read_opt(&mut r, 32)?;
    read_tail(&mut r, [opt_or_zero(a0), opt_or_zero(a1), opt_or_zero(a2)])
}

} // verus!
