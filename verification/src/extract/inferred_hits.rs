//! Inferred hit attribution: who dealt each point of damage.
//!
//! NT;RE builds from 2026-07-25 onward no longer network the per-attacker
//! damage accumulator, so SourceTV demos show every health drop but not who
//! caused it. The attacker is reconstructed from what the demo still
//! carries. This module holds the integer part of that rule: which samples
//! are health drops, how much was lost, and, for a fatal drop, the attacker
//! the kill feed names. Choosing the enemy whose aim points closest at the
//! victim (floating-point geometry) is the caller's.

use vstd::prelude::*;
use std::collections::HashMap;
use crate::extract::net::{Kill, Player, PlayerView, keyed_by_userid};
use crate::text::{chars_of, str_eq, string_of};

verus! {

broadcast use vstd::std_specs::hash::group_hash_axioms;

/// Kill events land within this many ticks of the fatal health drop.
pub const KILL_WINDOW: u32 = 4;

/// A char with an ASCII capital letter made small.
pub open spec fn lower_ascii(c: char) -> char {
    if 'A' <= c <= 'Z' {
        ((c as u8) + 32) as char
    } else {
        c
    }
}

/// A name with its ASCII capitals made small.
pub open spec fn lower_name(s: Seq<char>) -> Seq<char> {
    s.map_values(|c: char| lower_ascii(c))
}

/// The weapons that cannot land a hitscan or melee hit by aiming at the
/// victim (and the empty name, no weapon). Names are compared without
/// regard to ASCII case: a weapon name keeps the case of its class
/// (`Ghost`, `SmokeGrenade`).
pub open spec fn no_aimed_hits(weapon: Seq<char>) -> bool {
    let w = lower_name(weapon);
    ||| w.len() == 0
    ||| w == "ghost"@
    ||| w == "smokegrenade"@
    ||| w == "grenade"@
    ||| w == "detpack"@
    ||| w == "proxmine"@
    ||| w == "remotedet"@
}

fn lowered(s: &str) -> (r: String)
    ensures
        r@ == lower_name(s@),
{
    let cs = chars_of(s);
    let mut out: Vec<char> = Vec::new();
    let mut i: usize = 0;
    while i < cs.len()
        invariant
            i <= cs@.len(),
            cs@ == s@,
            out@ == lower_name(cs@.take(i as int)),
        decreases cs.len() - i,
    {
        let c = cs[i];
        let l = if 'A' <= c && c <= 'Z' {
            ((c as u8) + 32) as char
        } else {
            c
        };
        proof {
            assert(l == lower_ascii(c));
            assert(cs@.take(i + 1) =~= cs@.take(i as int).push(c));
        }
        out.push(l);
        proof {
            assert(out@ =~= lower_name(cs@.take(i + 1)));
        }
        i = i + 1;
    }
    proof {
        assert(cs@.take(i as int) =~= cs@);
    }
    string_of(out.as_slice(), 0, out.len())
}

/// Weapons that cannot land a hitscan or melee hit by aiming at the victim.
pub fn cannot_hit(weapon: &str) -> (r: bool)
    ensures
        r == no_aimed_hits(weapon@),
{
    let w = lowered(weapon);
    let w = w.as_str();
    w.unicode_len() == 0 || str_eq(w, "ghost") || str_eq(w, "smokegrenade") || str_eq(w, "grenade")
        || str_eq(w, "detpack") || str_eq(w, "proxmine") || str_eq(w, "remotedet")
}

/// The entity of a userid, where the roster knows it.
pub open spec fn entity_of(players: Map<u32, PlayerView>, uid: u32) -> Option<u32> {
    if players.contains_key(uid) {
        Some(players[uid].entity_id)
    } else {
        None
    }
}

/// A kill as the fatal-hit rule reads it: the tick (as an unsigned tick)
/// and the attacker's entity, where the attacker is a known player (userid
/// 0 is the world).
pub open spec fn kill_entry(players: Map<u32, PlayerView>, k: (i32, u32, u32)) -> (u32, Option<u32>) {
    (k.0 as u32, if k.2 != 0 { entity_of(players, k.2) } else { None })
}

/// The kills of the victim entity `victim`, in feed order.
pub open spec fn kills_of(players: Map<u32, PlayerView>, kills: Seq<(i32, u32, u32)>, victim: u32) -> Seq<(u32, Option<u32>)>
    decreases kills.len(),
{
    if kills.len() == 0 {
        Seq::empty()
    } else {
        let k = kills.last();
        kills_of(players, kills.drop_last(), victim) + if entity_of(players, k.1) == Some(victim) {
            seq![kill_entry(players, k)]
        } else {
            Seq::empty()
        }
    }
}

/// The kills as (tick, victim userid, attacker userid).
pub open spec fn kill_keys(kills: Seq<Kill>) -> Seq<(i32, u32, u32)> {
    kills.map_values(|k: Kill| (k.tick, k.victim_userid, k.attacker_userid))
}

/// `|a - b|` of two ticks.
pub open spec fn tick_distance(a: u32, b: u32) -> int {
    if a >= b { a - b } else { b - a }
}

/// The attacker of the first kill within [`KILL_WINDOW`] ticks of `tick`,
/// if any kill is that close.
pub open spec fn first_close_kill(kills: Seq<(u32, Option<u32>)>, tick: u32) -> Option<Option<u32>>
    decreases kills.len(),
{
    if kills.len() == 0 {
        None
    } else if tick_distance(kills[0].0, tick) <= KILL_WINDOW {
        Some(kills[0].1)
    } else {
        first_close_kill(kills.drop_first(), tick)
    }
}

/// What is remembered of a player between samples.
#[derive(Debug, Clone, Copy, PartialEq, Eq)]
pub struct LastSeen {
    pub health: i64,
    pub alive: bool,
}

/// What one player sample means for hit attribution.
#[derive(Debug, Clone, Copy, PartialEq, Eq)]
pub enum HitStep {
    /// Not a health drop of a fighting player.
    NoHit,
    /// A fatal drop that the kill feed attributes (`None`: to no player).
    Fatal { damage: i64, attacker: Option<u32> },
    /// A drop to attribute by aim.
    ByAim { damage: i64 },
}

/// The meaning of a sample of entity `eid` at `tick` with `health`,
/// `team` and `alive`, after `prev`: a drop is a fall in health of a player
/// who was alive with health above zero, on team 2 or 3. It is fatal where
/// health reaches zero or the player died; a fatal drop that the kill feed
/// attributes takes the feed's attacker, other drops go by aim.
pub open spec fn hit_step(
    prev: Option<LastSeen>,
    kills: Seq<(u32, Option<u32>)>,
    tick: u32,
    health: i64,
    team: i64,
    alive: bool,
) -> HitStep {
    match prev {
        None => HitStep::NoHit,
        Some(p) => if p.alive && health < p.health && p.health > 0 && (team == 2 || team == 3) {
            // the health lost (wrapping at 64 bits)
            let lost = p.health - health;
            let damage = if lost > i64::MAX { (lost - 0x1_0000_0000_0000_0000) as i64 } else { lost as i64 };
            let fatal = health <= 0 || !alive;
            match (if fatal { first_close_kill(kills, tick) } else { None }) {
                Some(attacker) => HitStep::Fatal { damage, attacker },
                None => HitStep::ByAim { damage },
            }
        } else {
            HitStep::NoHit
        },
    }
}

/// A hit is a fall in health: a sample whose health is not below the
/// entity's previous one (or the entity's first sample) is never a hit,
/// whatever else holds. A hit's damage is the health lost, positive
/// (wrapping at 64 bits only where the loss exceeds `i64::MAX`); a fatal
/// hit is one where the health reached zero or the player died, and is
/// attributed to the first kill of the victim within the window.
pub proof fn lemma_hits_are_health_drops(
    prev: Option<LastSeen>,
    kills: Seq<(u32, Option<u32>)>,
    tick: u32,
    health: i64,
    team: i64,
    alive: bool,
)
    ensures
        prev is None ==> hit_step(prev, kills, tick, health, team, alive) == HitStep::NoHit,
        prev matches Some(p) && health >= p.health ==> hit_step(prev, kills, tick, health, team, alive)
            == HitStep::NoHit,
        prev matches Some(p) && (!p.alive || p.health <= 0 || (team != 2 && team != 3)) ==> hit_step(
            prev,
            kills,
            tick,
            health,
            team,
            alive,
        ) == HitStep::NoHit,
        hit_step(prev, kills, tick, health, team, alive) matches HitStep::ByAim { damage } ==> (prev matches Some(
            p,
        ) && health < p.health && (p.health - health <= i64::MAX ==> damage == p.health - health && damage > 0)),
        hit_step(prev, kills, tick, health, team, alive) matches HitStep::Fatal { damage, attacker } ==> (
        prev matches Some(p) && health < p.health && (health <= 0 || !alive) && first_close_kill(kills, tick)
            == Some(attacker) && (p.health - health <= i64::MAX ==> damage == p.health - health && damage > 0)),
{
}

/// The integer half of hit inference: the kill feed by victim and the last
/// health and life state of every player sampled.
pub struct HitTracker {
    kills_by_victim: HashMap<u32, Vec<(u32, Option<u32>)>>,
    last: HashMap<u32, LastSeen>,
}

impl HitTracker {
    /// The kills of a victim entity as the tracker holds them.
    pub closed spec fn kills_for(&self, victim: u32) -> Seq<(u32, Option<u32>)> {
        if self.kills_by_victim@.contains_key(victim) {
            self.kills_by_victim@[victim]@
        } else {
            Seq::empty()
        }
    }

    /// What the tracker remembers of each entity.
    pub closed spec fn last_seen(&self) -> Map<u32, LastSeen> {
        self.last@
    }

    /// Index the kill feed by victim entity.
    pub fn new(kills: &[Kill], players: &HashMap<u32, Player>) -> (t: Self)
        requires
            keyed_by_userid(players@.map_values(|p: Player| p@)),
        ensures
            forall|v: u32|
                #[trigger] t.kills_for(v) == kills_of(players@.map_values(|p: Player| p@), kill_keys(kills@), v),
            t.last_seen() == Map::<u32, LastSeen>::empty(),
    {
        let ghost pm = players@.map_values(|p: Player| p@);
        let ghost ks = kill_keys(kills@);
        let mut by_victim: HashMap<u32, Vec<(u32, Option<u32>)>> = HashMap::new();
        let mut i: usize = 0;
        proof {
            assert(ks.take(0) =~= Seq::<(i32, u32, u32)>::empty());
        }
        while i < kills.len()
            invariant
                pm == players@.map_values(|p: Player| p@),
                ks == kill_keys(kills@),
                i <= kills@.len(),
                forall|v: u32|
                    #[trigger] kills_of(pm, ks.take(i as int), v) == if by_victim@.contains_key(v) {
                        by_victim@[v]@
                    } else {
                        Seq::empty()
                    },
            decreases kills.len() - i,
        {
            let k = &kills[i];
            proof {
                assert(ks.take(i + 1).drop_last() =~= ks.take(i as int));
                assert(ks.take(i + 1).last() == (k.tick, k.victim_userid, k.attacker_userid));
            }
            match players.get(&k.victim_userid) {
                Some(vp) => {
                    let victim = vp.entity_id;
                    let attacker = if k.attacker_userid != 0 {
                        match players.get(&k.attacker_userid) {
                            Some(ap) => Some(ap.entity_id),
                            None => None,
                        }
                    } else {
                        None
                    };
                    let entry = (k.tick as u32, attacker);
                    let ghost before = by_victim@;
                    let mut list = match by_victim.remove(&victim) {
                        Some(l) => l,
                        None => Vec::new(),
                    };
                    let ghost old_list = list@;
                    list.push(entry);
                    by_victim.insert(victim, list);
                    proof {
                        assert(entry == kill_entry(pm, (k.tick, k.victim_userid, k.attacker_userid)));
                        assert(pm.contains_key(k.victim_userid) && pm[k.victim_userid] == vp@);
                        assert(entity_of(pm, k.victim_userid) == Some(victim));
                        assert(old_list == if before.contains_key(victim) { before[victim]@ } else { Seq::empty() });
                        assert(kills_of(pm, ks.take(i as int), victim) == old_list);
                        assert forall|v: u32| #[trigger]
                            kills_of(pm, ks.take(i + 1), v) == if by_victim@.contains_key(v) {
                                by_victim@[v]@
                            } else {
                                Seq::empty()
                            } by {
                            if v == victim {
                                assert(kills_of(pm, ks.take(i + 1), v) =~= old_list.push(entry));
                            } else {
                                assert(kills_of(pm, ks.take(i + 1), v) =~= kills_of(pm, ks.take(i as int), v));
                            }
                        }
                    }
                },
                None => {
                    proof {
                        assert forall|v: u32| #[trigger]
                            kills_of(pm, ks.take(i + 1), v) == if by_victim@.contains_key(v) {
                                by_victim@[v]@
                            } else {
                                Seq::empty()
                            } by {
                            assert(kills_of(pm, ks.take(i + 1), v) =~= kills_of(pm, ks.take(i as int), v));
                        }
                    }
                },
            }
            i = i + 1;
        }
        proof {
            assert(ks.take(ks.len() as int) =~= ks);
        }
        HitTracker { kills_by_victim: by_victim, last: HashMap::new() }
    }

    fn close_kill(&self, victim: u32, tick: u32) -> (r: Option<Option<u32>>)
        ensures
            r == first_close_kill(self.kills_for(victim), tick),
    {
        match self.kills_by_victim.get(&victim) {
            None => None,
            Some(list) => {
                let ghost ks = list@;
                let mut i: usize = 0;
                proof {
                    assert(ks.skip(0) =~= ks);
                }
                while i < list.len()
                    invariant
                        ks == list@,
                        ks == self.kills_for(victim),
                        i <= ks.len(),
                        first_close_kill(ks, tick) == first_close_kill(ks.skip(i as int), tick),
                    decreases list.len() - i,
                {
                    let (t, attacker) = list[i];
                    let dist = if t >= tick { t - tick } else { tick - t };
                    proof {
                        assert(ks.skip(i as int)[0] == (t, attacker));
                        assert(ks.skip(i as int).drop_first() =~= ks.skip(i + 1));
                    }
                    if dist <= KILL_WINDOW {
                        return Some(attacker);
                    }
                    i = i + 1;
                }
                None
            },
        }
    }

    /// Take in the next player sample (samples come in tick order): say
    /// whether it is a hit and how it is attributed, and remember the
    /// player's health and life state.
    pub fn on_sample(&mut self, tick: u32, entity_id: u32, health: i64, team: i64, alive: bool) -> (step: HitStep)
        ensures
            step == hit_step(
                if old(self).last_seen().contains_key(entity_id) {
                    Some(old(self).last_seen()[entity_id])
                } else {
                    None
                },
                old(self).kills_for(entity_id),
                tick,
                health,
                team,
                alive,
            ),
            final(self).last_seen() == old(self).last_seen().insert(entity_id, LastSeen { health, alive }),
            forall|v: u32| #[trigger] final(self).kills_for(v) == old(self).kills_for(v),
    {
        let prev = match self.last.get(&entity_id) {
            Some(p) => Some(*p),
            None => None,
        };
        let step = match prev {
            None => HitStep::NoHit,
            Some(p) => {
                if p.alive && health < p.health && p.health > 0 && (team == 2 || team == 3) {
                    let damage = p.health.wrapping_sub(health);
                    let fatal = health <= 0 || !alive;
                    let attributed = if fatal { self.close_kill(entity_id, tick) } else { None };
                    match attributed {
                        Some(attacker) => HitStep::Fatal { damage, attacker },
                        None => HitStep::ByAim { damage },
                    }
                } else {
                    HitStep::NoHit
                }
            },
        };
        self.last.insert(entity_id, LastSeen { health, alive });
        step
    }
}

} // verus!
