//! All-player entity samples: position, eye angles, active weapon, health,
//! team, and life state, decoded from svc_PacketEntities. The sendtable
//! machinery that decodes entity props is tf-demo-parser's; this module
//! holds what is made of the decoded props: the class bookkeeping, the
//! per-entity state, and the on-change samples of players, ghosts, the
//! scoreboard and the damage accumulators.
//!
//! Decoded prop values arrive as plain values: a float is its IEEE-754 bit
//! pattern, compared the way `f32` compares.

use vstd::prelude::*;
use std::collections::HashMap;
use crate::text::{chars_of, parse_u32, spec_parse_u32, str_eq};

verus! {

broadcast use vstd::std_specs::hash::group_hash_axioms;

// ---------------------------------------------------------------------
// Floats as bit patterns.

/// The bit pattern is a NaN.
pub open spec fn is_nan_bits(a: u32) -> bool {
    (a & 0x7f80_0000u32) == 0x7f80_0000u32 && (a & 0x007f_ffffu32) != 0
}

/// The bit pattern is +0.0 or -0.0.
pub open spec fn is_zero_bits(a: u32) -> bool {
    (a & 0x7fff_ffffu32) == 0
}

/// `!=` of the two `f32` values with these bit patterns: a NaN differs from
/// everything, the two zeros are equal, other values differ exactly when
/// their bits do.
pub open spec fn float_ne(a: u32, b: u32) -> bool {
    is_nan_bits(a) || is_nan_bits(b) || (a != b && !(is_zero_bits(a) && is_zero_bits(b)))
}

fn floats_differ(a: u32, b: u32) -> (r: bool)
    ensures
        r == float_ne(a, b),
{
    let nan_a = (a & 0x7f80_0000u32) == 0x7f80_0000u32 && (a & 0x007f_ffffu32) != 0;
    let nan_b = (b & 0x7f80_0000u32) == 0x7f80_0000u32 && (b & 0x007f_ffffu32) != 0;
    let zeros = (a & 0x7fff_ffffu32) == 0 && (b & 0x7fff_ffffu32) == 0;
    nan_a || nan_b || (a != b && !zeros)
}

// ---------------------------------------------------------------------
// Class names.

/// `p` is a prefix of `s`.
pub open spec fn has_prefix(s: Seq<char>, p: Seq<char>) -> bool {
    p.len() <= s.len() && s.subrange(0, p.len() as int) == p
}

/// `p` is a suffix of `s`.
pub open spec fn has_suffix(s: Seq<char>, p: Seq<char>) -> bool {
    p.len() <= s.len() && s.subrange(s.len() - p.len(), s.len() as int) == p
}

/// The weapon a class name names: the first of the prefixes `CNEO_Weapon`,
/// `CNEOWeapon`, `CWeapon`, `C` that the name starts with is removed, and
/// the rest is kept as it is (`CWeaponSRM` names `SRM`).
pub open spec fn weapon_of_class(name: Seq<char>) -> Seq<char> {
    if has_prefix(name, "CNEO_Weapon"@) {
        name.skip("CNEO_Weapon"@.len() as int)
    } else if has_prefix(name, "CNEOWeapon"@) {
        name.skip("CNEOWeapon"@.len() as int)
    } else if has_prefix(name, "CWeapon"@) {
        name.skip("CWeapon"@.len() as int)
    } else if has_prefix(name, "C"@) {
        name.skip("C"@.len() as int)
    } else {
        name
    }
}

fn starts_with(s: &[char], p: &str) -> (r: bool)
    ensures
        r == has_prefix(s@, p@),
{
    let pc = chars_of(p);
    if pc.len() > s.len() {
        return false;
    }
    let mut i: usize = 0;
    while i < pc.len()
        invariant
            pc@ == p@,
            pc@.len() <= s@.len(),
            i <= pc@.len(),
            forall|k: int| 0 <= k < i ==> s@[k] == pc@[k],
        decreases pc.len() - i,
    {
        if s[i] != pc[i] {
            return false;
        }
        i = i + 1;
    }
    proof {
        assert(s@.subrange(0, pc@.len() as int) =~= p@);
    }
    true
}

/// Whether `s` ends with `suffix`.
pub fn ends_with(s: &str, suffix: &str) -> (r: bool)
    ensures
        r == has_suffix(s@, suffix@),
{
    let sc = chars_of(s);
    let pc = chars_of(suffix);
    if pc.len() > sc.len() {
        return false;
    }
    let off = sc.len() - pc.len();
    let mut i: usize = 0;
    while i < pc.len()
        invariant
            sc@ == s@,
            pc@ == suffix@,
            off + pc@.len() == sc@.len(),
            off + pc@.len() <= sc.len(),
            i <= pc@.len(),
            forall|k: int| 0 <= k < i ==> sc@[off + k] == pc@[k],
        decreases pc.len() - i,
    {
        if sc[off + i] != pc[i] {
            return false;
        }
        i = i + 1;
    }
    proof {
        assert(sc@.subrange(off as int, sc@.len() as int) =~= suffix@);
    }
    true
}

/// The weapon name for a server class name: `CNEO_Weapon`, `CNEOWeapon`,
/// `CWeapon` or `C` removed from the front.
pub fn weapon_name(class_name: &str) -> (w: String)
    ensures
        w@ == weapon_of_class(class_name@),
{
    let cs = chars_of(class_name);
    let start: usize = if starts_with(cs.as_slice(), "CNEO_Weapon") {
        chars_of("CNEO_Weapon").len()
    } else if starts_with(cs.as_slice(), "CNEOWeapon") {
        chars_of("CNEOWeapon").len()
    } else if starts_with(cs.as_slice(), "CWeapon") {
        chars_of("CWeapon").len()
    } else if starts_with(cs.as_slice(), "C") {
        chars_of("C").len()
    } else {
        0
    };
    let ghost stripped = cs@.skip(start as int);
    proof {
        assert(stripped =~= if has_prefix(class_name@, "CNEO_Weapon"@) {
            class_name@.skip("CNEO_Weapon"@.len() as int)
        } else if has_prefix(class_name@, "CNEOWeapon"@) {
            class_name@.skip("CNEOWeapon"@.len() as int)
        } else if has_prefix(class_name@, "CWeapon"@) {
            class_name@.skip("CWeapon"@.len() as int)
        } else if has_prefix(class_name@, "C"@) {
            class_name@.skip("C"@.len() as int)
        } else {
            class_name@
        });
    }
    proof {
        assert(cs@.subrange(start as int, cs@.len() as int) =~= stripped);
    }
    crate::text::string_of(cs.as_slice(), start, cs.len())
}


// ---------------------------------------------------------------------
// Send tables and server classes.

/// The identifier tf-demo-parser gives a prop, by send-table name and prop
/// name.
pub uninterp spec fn prop_identifier(table: Seq<char>, prop: Seq<char>) -> u64;

/// `SendPropIdentifier::new` (tf-demo-parser): the identifier of the prop
/// `prop` of send table `table`, a hash of the two names. Claimed: the
/// result is a function of the two names and nothing else.
#[verifier::external_body]
fn send_prop_id(table: &str, prop: &str) -> (id: u64)
    ensures
        id == prop_identifier(table@, prop@),
{
    u64::from(tf_demo_parser::demo::sendprop::SendPropIdentifier::new(table, prop))
}

/// A send table as the data tables describe it: its name and the names of
/// its props.
pub struct SendTableInfo {
    pub name: String,
    pub props: Vec<String>,
}

/// A server class: its id and name.
pub struct ServerClassInfo {
    pub id: u16,
    pub name: String,
}

/// A send table as values.
pub open spec fn table_view(t: SendTableInfo) -> (Seq<char>, Seq<Seq<char>>) {
    (t.name@, t.props@.map_values(|p: String| p@))
}

/// The send tables as values.
pub open spec fn tables_view(ts: Seq<SendTableInfo>) -> Seq<(Seq<char>, Seq<Seq<char>>)> {
    ts.map_values(|t: SendTableInfo| table_view(t))
}

/// The server classes as values.
pub open spec fn classes_view(cs: Seq<ServerClassInfo>) -> Seq<(u16, Seq<char>)> {
    cs.map_values(|c: ServerClassInfo| (c.id, c.name@))
}

/// The prop-name and array-element maps after the props of one table: each
/// prop's identifier maps to its name, and a prop whose name is a decimal
/// index (an element of a SendPropArray3 table named after the array
/// member) also maps to the table name and that index.
pub open spec fn after_table(
    names: Map<u64, Seq<char>>,
    arrays: Map<u64, (Seq<char>, u32)>,
    table: Seq<char>,
    props: Seq<Seq<char>>,
) -> (Map<u64, Seq<char>>, Map<u64, (Seq<char>, u32)>)
    decreases props.len(),
{
    if props.len() == 0 {
        (names, arrays)
    } else {
        let (n1, a1) = after_table(names, arrays, table, props.drop_last());
        let p = props.last();
        let id = prop_identifier(table, p);
        (
            n1.insert(id, p),
            match spec_parse_u32(p) {
                Some(index) => a1.insert(id, (table, index)),
                None => a1,
            },
        )
    }
}

/// [`after_table`] over every table in order.
pub open spec fn after_tables(
    names: Map<u64, Seq<char>>,
    arrays: Map<u64, (Seq<char>, u32)>,
    tables: Seq<(Seq<char>, Seq<Seq<char>>)>,
) -> (Map<u64, Seq<char>>, Map<u64, (Seq<char>, u32)>)
    decreases tables.len(),
{
    if tables.len() == 0 {
        (names, arrays)
    } else {
        let (n1, a1) = after_tables(names, arrays, tables.drop_last());
        after_table(n1, a1, tables.last().0, tables.last().1)
    }
}

/// The ids of the classes whose name ends with `suffix`, in order.
pub open spec fn ids_ending(classes: Seq<(u16, Seq<char>)>, suffix: Seq<char>) -> Seq<u16>
    decreases classes.len(),
{
    if classes.len() == 0 {
        Seq::empty()
    } else {
        ids_ending(classes.drop_last(), suffix) + if has_suffix(classes.last().1, suffix) {
            seq![classes.last().0]
        } else {
            Seq::empty()
        }
    }
}

fn class_ids_ending(classes: &[ServerClassInfo], suffix: &str) -> (ids: Vec<u16>)
    ensures
        ids@ == ids_ending(classes_view(classes@), suffix@),
{
    let ghost cv = classes_view(classes@);
    let mut ids: Vec<u16> = Vec::new();
    let mut i: usize = 0;
    proof {
        assert(cv.take(0) =~= Seq::<(u16, Seq<char>)>::empty());
    }
    while i < classes.len()
        invariant
            cv == classes_view(classes@),
            i <= classes@.len(),
            ids@ == ids_ending(cv.take(i as int), suffix@),
        decreases classes.len() - i,
    {
        proof {
            assert(cv.take(i + 1).drop_last() =~= cv.take(i as int));
            assert(cv.take(i + 1).last() == cv[i as int]);
        }
        if ends_with(classes[i].name.as_str(), suffix) {
            ids.push(classes[i].id);
            proof {
                assert(ids@ =~= ids_ending(cv.take(i + 1), suffix@));
            }
        } else {
            proof {
                assert(ids@ =~= ids_ending(cv.take(i + 1), suffix@));
            }
        }
        i = i + 1;
    }
    proof {
        assert(cv.take(classes@.len() as int) =~= cv);
    }
    ids
}


// ---------------------------------------------------------------------
// Decoded entity updates.

/// How an entity changed in a packet-entities message.
#[derive(Debug, Clone, Copy, PartialEq, Eq, Structural)]
pub enum UpdateKind {
    Delta,
    Leave,
    Enter,
    Delete,
}

/// A decoded prop value. Floats are bit patterns; of an array only its
/// float elements are kept (other elements are `None`); strings are not
/// kept.
pub enum PropValue {
    Vector(u32, u32, u32),
    VectorXY(u32, u32),
    Integer(i64),
    Float(u32),
    Text,
    Array(Vec<Option<u32>>),
}

/// A prop value as a value.
pub enum PropVal {
    Vector(u32, u32, u32),
    VectorXY(u32, u32),
    Integer(i64),
    Float(u32),
    Text,
    Array(Seq<Option<u32>>),
}

impl View for PropValue {
    type V = PropVal;

    open spec fn view(&self) -> PropVal {
        match self {
            PropValue::Vector(x, y, z) => PropVal::Vector(*x, *y, *z),
            PropValue::VectorXY(x, y) => PropVal::VectorXY(*x, *y),
            PropValue::Integer(n) => PropVal::Integer(*n),
            PropValue::Float(f) => PropVal::Float(*f),
            PropValue::Text => PropVal::Text,
            PropValue::Array(v) => PropVal::Array(v@),
        }
    }
}

/// One prop of an entity update: its identifier and decoded value.
pub struct PropUpdate {
    pub identifier: u64,
    pub value: PropValue,
}

/// One entity of a packet-entities message, with the props that apply to
/// it (for an entering entity, its baseline props included).
pub struct EntityUpdate {
    pub entity_id: u32,
    pub update: UpdateKind,
    pub server_class: u16,
    pub props: Vec<PropUpdate>,
}

/// The props as values.
pub open spec fn props_view(ps: Seq<PropUpdate>) -> Seq<(u64, PropVal)> {
    ps.map_values(|p: PropUpdate| (p.identifier, p.value@))
}

// ---------------------------------------------------------------------
// Samples and per-entity state.

/// One on-change sample of a player entity (floats as bit patterns).
pub struct PlayerSample {
    pub tick: u32,
    pub entity_id: u32,
    pub x: u32,
    pub y: u32,
    pub z: u32,
    pub eye_pitch: u32,
    pub eye_yaw: u32,
    pub vx: u32,
    pub vy: u32,
    pub vz: u32,
    pub weapon: String,
    pub health: i64,
    pub team: i64,
    pub class_num: i64,
    pub camo: bool,
    pub alive: bool,
    pub in_pvs: bool,
}

/// A player sample as values.
pub struct PlayerSampleView {
    pub tick: u32,
    pub entity_id: u32,
    pub x: u32,
    pub y: u32,
    pub z: u32,
    pub eye_pitch: u32,
    pub eye_yaw: u32,
    pub vx: u32,
    pub vy: u32,
    pub vz: u32,
    pub weapon: Seq<char>,
    pub health: i64,
    pub team: i64,
    pub class_num: i64,
    pub camo: bool,
    pub alive: bool,
    pub in_pvs: bool,
}

impl View for PlayerSample {
    type V = PlayerSampleView;

    open spec fn view(&self) -> PlayerSampleView {
        PlayerSampleView {
            tick: self.tick,
            entity_id: self.entity_id,
            x: self.x,
            y: self.y,
            z: self.z,
            eye_pitch: self.eye_pitch,
            eye_yaw: self.eye_yaw,
            vx: self.vx,
            vy: self.vy,
            vz: self.vz,
            weapon: self.weapon@,
            health: self.health,
            team: self.team,
            class_num: self.class_num,
            camo: self.camo,
            alive: self.alive,
            in_pvs: self.in_pvs,
        }
    }
}

/// One on-change position sample of a ghost entity (floats as bit
/// patterns).
#[derive(Debug, Clone, Copy, PartialEq, Eq)]
pub struct GhostSample {
    pub tick: u32,
    pub entity_id: u32,
    pub x: u32,
    pub y: u32,
    pub z: u32,
}

/// One on-change reading of a victim's per-attacker damage accumulator
/// (the float as its bit pattern).
#[derive(Debug, Clone, Copy, PartialEq, Eq)]
pub struct DamageSample {
    pub tick: u32,
    pub victim_entity_id: u32,
    pub attacker_entity_id: u32,
    pub damage: u32,
}

/// One on-change scoreboard sample from the player resource entity.
#[derive(Debug, Clone, Copy, PartialEq, Eq)]
pub struct ResourceSample {
    pub tick: u32,
    pub entity_id: u32,
    pub xp: i64,
    pub score: i64,
    pub deaths: i64,
    pub ping: i64,
}

/// What is known of a player entity (floats as bit patterns).
pub struct PlayerState {
    pub x: u32,
    pub y: u32,
    pub z: u32,
    pub eye_pitch: u32,
    pub eye_yaw: u32,
    pub vx: u32,
    pub vy: u32,
    pub vz: u32,
    pub weapon_entity: u32,
    pub health: i64,
    pub team: i64,
    pub class_num: i64,
    pub camo: bool,
    pub life_state: i64,
    /// The last m_rfAttackersAccumlator reading, by attacker entity id.
    pub attackers: Vec<u32>,
}

/// A player's state as values.
pub struct PlayerStateView {
    pub x: u32,
    pub y: u32,
    pub z: u32,
    pub eye_pitch: u32,
    pub eye_yaw: u32,
    pub vx: u32,
    pub vy: u32,
    pub vz: u32,
    pub weapon_entity: u32,
    pub health: i64,
    pub team: i64,
    pub class_num: i64,
    pub camo: bool,
    pub life_state: i64,
    pub attackers: Seq<u32>,
}

impl View for PlayerState {
    type V = PlayerStateView;

    open spec fn view(&self) -> PlayerStateView {
        PlayerStateView {
            x: self.x,
            y: self.y,
            z: self.z,
            eye_pitch: self.eye_pitch,
            eye_yaw: self.eye_yaw,
            vx: self.vx,
            vy: self.vy,
            vz: self.vz,
            weapon_entity: self.weapon_entity,
            health: self.health,
            team: self.team,
            class_num: self.class_num,
            camo: self.camo,
            life_state: self.life_state,
            attackers: self.attackers@,
        }
    }
}

/// The state of a player not seen before: everything zero.
pub open spec fn fresh_player() -> PlayerStateView {
    PlayerStateView {
        x: 0,
        y: 0,
        z: 0,
        eye_pitch: 0,
        eye_yaw: 0,
        vx: 0,
        vy: 0,
        vz: 0,
        weapon_entity: 0,
        health: 0,
        team: 0,
        class_num: 0,
        camo: false,
        life_state: 0,
        attackers: Seq::empty(),
    }
}

/// One scoreboard slot.
#[derive(Debug, Clone, Copy, PartialEq, Eq)]
pub struct ResourceState {
    pub xp: i64,
    pub score: i64,
    pub deaths: i64,
    pub ping: i64,
}

/// A scoreboard slot not seen before.
pub open spec fn fresh_slot() -> ResourceState {
    ResourceState { xp: 0, score: 0, deaths: 0, ping: 0 }
}

// ---------------------------------------------------------------------
// The analyser.

/// Tracks entity classes and state across packet-entities messages and
/// records on-change samples.
pub struct EntityAnalyser {
    /// prop identifier -> bare prop name, for every prop in the send tables
    prop_names: HashMap<u64, String>,
    /// array-element props (numeric names): identifier -> (owner table, index)
    array_props: HashMap<u64, (String, u32)>,
    /// server class id (as index) -> class name
    class_names: Vec<String>,
    /// class ids whose name ends with "Player" (the mod's player classes)
    player_classes: Vec<u16>,
    /// class ids whose name ends with "WeaponGhost" (the objective)
    ghost_classes: Vec<u16>,
    /// class ids whose name ends with "PlayerResource" (scoreboard arrays)
    resource_classes: Vec<u16>,
    /// entity id -> class id, tracked from updates (weapon lookups)
    entity_classes: HashMap<u32, u16>,
    players: HashMap<u32, PlayerState>,
    ghosts: HashMap<u32, (u32, u32, u32)>,
    resource: HashMap<u32, ResourceState>,
    samples: Vec<PlayerSample>,
    ghost_samples: Vec<GhostSample>,
    resource_samples: Vec<ResourceSample>,
    damage_samples: Vec<DamageSample>,
}

/// The analyser as values.
pub struct AnalyserView {
    pub prop_names: Map<u64, Seq<char>>,
    pub array_props: Map<u64, (Seq<char>, u32)>,
    pub class_names: Seq<Seq<char>>,
    pub player_classes: Seq<u16>,
    pub ghost_classes: Seq<u16>,
    pub resource_classes: Seq<u16>,
    pub entity_classes: Map<u32, u16>,
    pub players: Map<u32, PlayerStateView>,
    pub ghosts: Map<u32, (u32, u32, u32)>,
    pub resource: Map<u32, ResourceState>,
    pub samples: Seq<PlayerSampleView>,
    pub ghost_samples: Seq<GhostSample>,
    pub resource_samples: Seq<ResourceSample>,
    pub damage_samples: Seq<DamageSample>,
}

/// The names as values.
pub open spec fn names_view(ns: Seq<String>) -> Seq<Seq<char>> {
    ns.map_values(|n: String| n@)
}

impl View for EntityAnalyser {
    type V = AnalyserView;

    closed spec fn view(&self) -> AnalyserView {
        AnalyserView {
            prop_names: self.prop_names@.map_values(|n: String| n@),
            array_props: self.array_props@.map_values(|a: (String, u32)| (a.0@, a.1)),
            class_names: names_view(self.class_names@),
            player_classes: self.player_classes@,
            ghost_classes: self.ghost_classes@,
            resource_classes: self.resource_classes@,
            entity_classes: self.entity_classes@,
            players: self.players@.map_values(|p: PlayerState| p@),
            ghosts: self.ghosts@,
            resource: self.resource@,
            samples: self.samples@.map_values(|p: PlayerSample| p@),
            ghost_samples: self.ghost_samples@,
            resource_samples: self.resource_samples@,
            damage_samples: self.damage_samples@,
        }
    }
}

/// What the data tables change: the prop maps grow by every prop of every
/// table; the class names and the player, ghost and resource class lists
/// are replaced by those of these classes.
pub open spec fn after_data_tables(
    s: AnalyserView,
    tables: Seq<(Seq<char>, Seq<Seq<char>>)>,
    classes: Seq<(u16, Seq<char>)>,
) -> AnalyserView {
    let (names, arrays) = after_tables(s.prop_names, s.array_props, tables);
    AnalyserView {
        prop_names: names,
        array_props: arrays,
        class_names: classes.map_values(|c: (u16, Seq<char>)| c.1),
        player_classes: ids_ending(classes, "Player"@),
        ghost_classes: ids_ending(classes, "WeaponGhost"@),
        resource_classes: ids_ending(classes, "PlayerResource"@),
        ..s
    }
}

impl EntityAnalyser {
    pub fn new() -> (a: Self)
        ensures
            a@ == (AnalyserView {
                prop_names: Map::empty(),
                array_props: Map::empty(),
                class_names: Seq::empty(),
                player_classes: Seq::empty(),
                ghost_classes: Seq::empty(),
                resource_classes: Seq::empty(),
                entity_classes: Map::empty(),
                players: Map::empty(),
                ghosts: Map::empty(),
                resource: Map::empty(),
                samples: Seq::empty(),
                ghost_samples: Seq::empty(),
                resource_samples: Seq::empty(),
                damage_samples: Seq::empty(),
            }),
    {
        let a = EntityAnalyser {
            prop_names: HashMap::new(),
            array_props: HashMap::new(),
            class_names: Vec::new(),
            player_classes: Vec::new(),
            ghost_classes: Vec::new(),
            resource_classes: Vec::new(),
            entity_classes: HashMap::new(),
            players: HashMap::new(),
            ghosts: HashMap::new(),
            resource: HashMap::new(),
            samples: Vec::new(),
            ghost_samples: Vec::new(),
            resource_samples: Vec::new(),
            damage_samples: Vec::new(),
        };
        proof {
            assert(a@.prop_names =~= Map::empty());
            assert(a@.array_props =~= Map::empty());
            assert(a@.class_names =~= Seq::empty());
            assert(a@.players =~= Map::empty());
            assert(a@.samples =~= Seq::empty());
        }
        a
    }

    /// Take in the send tables and server classes.
    pub fn handle_data_tables(&mut self, tables: &[SendTableInfo], server_classes: &[ServerClassInfo])
        ensures
            final(self)@ == after_data_tables(old(self)@, tables_view(tables@), classes_view(server_classes@)),
    {
        let ghost tv = tables_view(tables@);
        let ghost s0 = self@;
        let mut t: usize = 0;
        proof {
            assert(tv.take(0) =~= Seq::<(Seq<char>, Seq<Seq<char>>)>::empty());
        }
        while t < tables.len()
            invariant
                tv == tables_view(tables@),
                t <= tables@.len(),
                (self@.prop_names, self@.array_props) == after_tables(s0.prop_names, s0.array_props, tv.take(t as int)),
                self@ == (AnalyserView { prop_names: self@.prop_names, array_props: self@.array_props, ..s0 }),
            decreases tables.len() - t,
        {
            let table = &tables[t];
            let ghost tname = table.name@;
            let ghost pv = table_view(*table).1;
            let ghost n0 = self@.prop_names;
            let ghost a0 = self@.array_props;
            let mut k: usize = 0;
            proof {
                assert(pv.take(0) =~= Seq::<Seq<char>>::empty());
                assert(tv.take(t + 1).drop_last() =~= tv.take(t as int));
                assert(tv.take(t + 1).last() == (tname, pv));
            }
            while k < table.props.len()
                invariant
                    tv == tables_view(tables@),
                    t < tables@.len(),
                    *table == tables@[t as int],
                    tname == table.name@,
                    pv == table_view(*table).1,
                    pv.len() == table.props@.len(),
                    k <= table.props@.len(),
                    (self@.prop_names, self@.array_props) == after_table(n0, a0, tname, pv.take(k as int)),
                    self@ == (AnalyserView { prop_names: self@.prop_names, array_props: self@.array_props, ..s0 }),
                decreases table.props.len() - k,
            {
                let prop = &table.props[k];
                let id = send_prop_id(table.name.as_str(), prop.as_str());
                let ghost before = self@;
                self.prop_names.insert(id, prop.clone());
                let parsed = parse_u32(prop.as_str());
                match parsed {
                    Some(index) => {
                        self.array_props.insert(id, (table.name.clone(), index));
                    },
                    None => {},
                }
                proof {
                    assert(pv.take(k + 1).drop_last() =~= pv.take(k as int));
                    assert(pv.take(k + 1).last() == prop@);
                    assert(self@.prop_names =~= before.prop_names.insert(id, prop@));
                    match parsed {
                        Some(index) => {
                            assert(self@.array_props =~= before.array_props.insert(id, (tname, index)));
                        },
                        None => {
                            assert(self@.array_props =~= before.array_props);
                        },
                    }
                    assert(self@.players =~= s0.players);
                    assert(self@.samples =~= s0.samples);
                    assert(self@.class_names =~= s0.class_names);
                }
                k = k + 1;
            }
            proof {
                assert(pv.take(pv.len() as int) =~= pv);
            }
            t = t + 1;
        }
        proof {
            assert(tv.take(tv.len() as int) =~= tv);
        }
        let mut names: Vec<String> = Vec::new();
        let mut i: usize = 0;
        while i < server_classes.len()
            invariant
                i <= server_classes@.len(),
                names@.len() == i,
                forall|j: int| 0 <= j < i ==> (#[trigger] names@[j])@ == server_classes@[j].name@,
            decreases server_classes.len() - i,
        {
            let n = server_classes[i].name.clone();
            names.push(n);
            i = i + 1;
        }
        proof {
            assert(names_view(names@) =~= classes_view(server_classes@).map_values(|c: (u16, Seq<char>)| c.1));
        }
        self.class_names = names;
        self.player_classes = class_ids_ending(server_classes, "Player");
        self.ghost_classes = class_ids_ending(server_classes, "WeaponGhost");
        self.resource_classes = class_ids_ending(server_classes, "PlayerResource");
        proof {
            assert(self@.players =~= s0.players);
            assert(self@.samples =~= s0.samples);
        }
    }
}


// ---------------------------------------------------------------------
// Ghosts.

/// A ghost position after one prop: `m_vecOrigin` (a vector, or its x and
/// y) and `m_vecOrigin[2]` (z) move it. Yields the position and whether it
/// moved so far.
pub open spec fn ghost_step(g: (u32, u32, u32), moved: bool, name: Seq<char>, v: PropVal) -> ((u32, u32, u32), bool) {
    if name == "m_vecOrigin"@ {
        match v {
            PropVal::Vector(x, y, z) => ((x, y, z), true),
            PropVal::VectorXY(x, y) => ((x, y, g.2), true),
            _ => (g, moved),
        }
    } else if name == "m_vecOrigin[2]"@ {
        match v {
            PropVal::Float(z) => ((g.0, g.1, z), true),
            _ => (g, moved),
        }
    } else {
        (g, moved)
    }
}

/// The props applied in order (props of unknown identifiers are passed
/// over).
pub open spec fn ghost_fold(
    g: (u32, u32, u32),
    moved: bool,
    names: Map<u64, Seq<char>>,
    props: Seq<(u64, PropVal)>,
) -> ((u32, u32, u32), bool)
    decreases props.len(),
{
    if props.len() == 0 {
        (g, moved)
    } else {
        let (g1, m1) = ghost_fold(g, moved, names, props.drop_last());
        let (id, v) = props.last();
        if names.contains_key(id) {
            ghost_step(g1, m1, names[id], v)
        } else {
            (g1, m1)
        }
    }
}

/// What an update of a ghost entity changes: a delete forgets it; other
/// updates move it (from the origin where it is new) and, where it moved,
/// add a sample.
pub open spec fn after_ghost(s: AnalyserView, tick: u32, eid: u32, update: UpdateKind, props: Seq<(u64, PropVal)>) -> AnalyserView {
    if update == UpdateKind::Delete {
        AnalyserView { ghosts: s.ghosts.remove(eid), ..s }
    } else {
        let g0 = if s.ghosts.contains_key(eid) { s.ghosts[eid] } else { (0u32, 0u32, 0u32) };
        let (g, moved) = ghost_fold(g0, false, s.prop_names, props);
        AnalyserView {
            ghosts: s.ghosts.insert(eid, g),
            ghost_samples: if moved {
                s.ghost_samples.push(GhostSample { tick, entity_id: eid, x: g.0, y: g.1, z: g.2 })
            } else {
                s.ghost_samples
            },
            ..s
        }
    }
}

// ---------------------------------------------------------------------
// The scoreboard.

/// The scoreboard after one prop, and the slots changed so far (each once,
/// in order of first change). An integer element of the `m_iXP`,
/// `m_iScore`, `m_iDeaths` or `m_iPing` array sets that column of its slot
/// (a slot not seen before starts at zero, and is kept even when the array
/// is another one).
pub open spec fn resource_step(
    res: Map<u32, ResourceState>,
    changed: Seq<u32>,
    arrays: Map<u64, (Seq<char>, u32)>,
    id: u64,
    v: PropVal,
) -> (Map<u32, ResourceState>, Seq<u32>) {
    match v {
        PropVal::Integer(val) => if !arrays.contains_key(id) {
            (res, changed)
        } else {
            let (table, slot) = arrays[id];
            let e = if res.contains_key(slot) { res[slot] } else { fresh_slot() };
            let e2 = if table == "m_iXP"@ {
                ResourceState { xp: val, ..e }
            } else if table == "m_iScore"@ {
                ResourceState { score: val, ..e }
            } else if table == "m_iDeaths"@ {
                ResourceState { deaths: val, ..e }
            } else if table == "m_iPing"@ {
                ResourceState { ping: val, ..e }
            } else {
                e
            };
            (
                res.insert(slot, e2),
                if e2 != e && !changed.contains(slot) {
                    changed.push(slot)
                } else {
                    changed
                },
            )
        },
        _ => (res, changed),
    }
}

/// The props applied in order.
pub open spec fn resource_fold(
    res: Map<u32, ResourceState>,
    changed: Seq<u32>,
    arrays: Map<u64, (Seq<char>, u32)>,
    props: Seq<(u64, PropVal)>,
) -> (Map<u32, ResourceState>, Seq<u32>)
    decreases props.len(),
{
    if props.len() == 0 {
        (res, changed)
    } else {
        let (r1, c1) = resource_fold(res, changed, arrays, props.drop_last());
        resource_step(r1, c1, arrays, props.last().0, props.last().1)
    }
}

/// The samples of the changed slots, in order, with their values after the
/// update.
pub open spec fn slot_samples(tick: u32, res: Map<u32, ResourceState>, slots: Seq<u32>) -> Seq<ResourceSample> {
    slots.map_values(
        |slot: u32|
            ResourceSample {
                tick,
                entity_id: slot,
                xp: res[slot].xp,
                score: res[slot].score,
                deaths: res[slot].deaths,
                ping: res[slot].ping,
            },
    )
}

/// What an update of the player-resource entity changes: unless it is a
/// delete, the scoreboard takes its props and each changed slot adds a
/// sample.
pub open spec fn after_resource(s: AnalyserView, tick: u32, update: UpdateKind, props: Seq<(u64, PropVal)>) -> AnalyserView {
    if update == UpdateKind::Delete {
        s
    } else {
        let (res, changed) = resource_fold(s.resource, Seq::empty(), s.array_props, props);
        AnalyserView {
            resource: res,
            resource_samples: s.resource_samples + slot_samples(tick, res, changed),
            ..s
        }
    }
}

fn contains_u32(v: &Vec<u32>, x: u32) -> (r: bool)
    ensures
        r == v@.contains(x),
{
    let mut i: usize = 0;
    while i < v.len()
        invariant
            i <= v@.len(),
            forall|k: int| 0 <= k < i ==> v@[k] != x,
        decreases v.len() - i,
    {
        if v[i] == x {
            return true;
        }
        i = i + 1;
    }
    false
}

fn contains_u16(v: &Vec<u16>, x: u16) -> (r: bool)
    ensures
        r == v@.contains(x),
{
    let mut i: usize = 0;
    while i < v.len()
        invariant
            i <= v@.len(),
            forall|k: int| 0 <= k < i ==> v@[k] != x,
        decreases v.len() - i,
    {
        if v[i] == x {
            return true;
        }
        i = i + 1;
    }
    false
}

impl EntityAnalyser {
    fn prop_name(&self, id: u64) -> (r: Option<&String>)
        ensures
            match r {
                Some(n) => self@.prop_names.contains_key(id) && self@.prop_names[id] == n@,
                None => !self@.prop_names.contains_key(id),
            },
    {
        self.prop_names.get(&id)
    }

    fn apply_ghost(&mut self, tick: u32, entity_id: u32, update: UpdateKind, props: &Vec<PropUpdate>)
        ensures
            final(self)@ == after_ghost(old(self)@, tick, entity_id, update, props_view(props@)),
    {
        let ghost s0 = self@;
        if update == UpdateKind::Delete {
            self.ghosts.remove(&entity_id);
            proof {
                assert(self@.players =~= s0.players);
                assert(self@.samples =~= s0.samples);
                assert(self@.prop_names =~= s0.prop_names);
                assert(self@.array_props =~= s0.array_props);
            }
            return;
        }
        let mut pos: (u32, u32, u32) = match self.ghosts.get(&entity_id) {
            Some(g) => *g,
            None => (0, 0, 0),
        };
        let mut moved = false;
        let ghost pv = props_view(props@);
        let ghost g0 = pos;
        let mut i: usize = 0;
        proof {
            assert(pv.take(0) =~= Seq::<(u64, PropVal)>::empty());
        }
        while i < props.len()
            invariant
                pv == props_view(props@),
                i <= props@.len(),
                self@ == s0,
                (pos, moved) == ghost_fold(g0, false, s0.prop_names, pv.take(i as int)),
            decreases props.len() - i,
        {
            let prop = &props[i];
            proof {
                assert(pv.take(i + 1).drop_last() =~= pv.take(i as int));
                assert(pv.take(i + 1).last() == (prop.identifier, prop.value@));
            }
            match self.prop_name(prop.identifier) {
                Some(name) => {
                    if str_eq(name.as_str(), "m_vecOrigin") {
                        match &prop.value {
                            PropValue::Vector(x, y, z) => {
                                pos = (*x, *y, *z);
                                moved = true;
                            },
                            PropValue::VectorXY(x, y) => {
                                pos = (*x, *y, pos.2);
                                moved = true;
                            },
                            _ => {},
                        }
                    } else if str_eq(name.as_str(), "m_vecOrigin[2]") {
                        match &prop.value {
                            PropValue::Float(z) => {
                                pos = (pos.0, pos.1, *z);
                                moved = true;
                            },
                            _ => {},
                        }
                    }
                },
                None => {},
            }
            i = i + 1;
        }
        proof {
            assert(pv.take(pv.len() as int) =~= pv);
        }
        self.ghosts.insert(entity_id, pos);
        if moved {
            self.ghost_samples.push(GhostSample { tick, entity_id, x: pos.0, y: pos.1, z: pos.2 });
        }
        proof {
            assert(self@.players =~= s0.players);
            assert(self@.samples =~= s0.samples);
            assert(self@.prop_names =~= s0.prop_names);
            assert(self@.array_props =~= s0.array_props);
        }
    }

    fn apply_resource(&mut self, tick: u32, update: UpdateKind, props: &Vec<PropUpdate>)
        ensures
            final(self)@ == after_resource(old(self)@, tick, update, props_view(props@)),
    {
        if update == UpdateKind::Delete {
            return;
        }
        let ghost s0 = self@;
        let ghost pv = props_view(props@);
        let mut changed: Vec<u32> = Vec::new();
        let mut i: usize = 0;
        proof {
            assert(pv.take(0) =~= Seq::<(u64, PropVal)>::empty());
        }
        while i < props.len()
            invariant
                pv == props_view(props@),
                i <= props@.len(),
                self@ == (AnalyserView { resource: self@.resource, ..s0 }),
                (self@.resource, changed@) == resource_fold(s0.resource, Seq::empty(), s0.array_props, pv.take(i as int)),
                forall|k: int| 0 <= k < changed@.len() ==> self@.resource.contains_key(#[trigger] changed@[k]),
            decreases props.len() - i,
        {
            let prop = &props[i];
            proof {
                assert(pv.take(i + 1).drop_last() =~= pv.take(i as int));
                assert(pv.take(i + 1).last() == (prop.identifier, prop.value@));
            }
            match self.array_props.get(&prop.identifier) {
                Some(entry) => {
                    match &prop.value {
                        PropValue::Integer(val) => {
                            let val = *val;
                            let slot = entry.1;
                            let e = match self.resource.get(&slot) {
                                Some(r) => *r,
                                None => ResourceState { xp: 0, score: 0, deaths: 0, ping: 0 },
                            };
                            let table = entry.0.as_str();
                            let mut e2 = e;
                            if str_eq(table, "m_iXP") {
                                e2.xp = val;
                            } else if str_eq(table, "m_iScore") {
                                e2.score = val;
                            } else if str_eq(table, "m_iDeaths") {
                                e2.deaths = val;
                            } else if str_eq(table, "m_iPing") {
                                e2.ping = val;
                            }
                            let differs = e2.xp != e.xp || e2.score != e.score || e2.deaths != e.deaths || e2.ping != e.ping;
                            let ghost before = self@;
                            self.resource.insert(slot, e2);
                            if differs && !contains_u32(&changed, slot) {
                                changed.push(slot);
                            }
                            proof {
                                assert(self@.resource =~= before.resource.insert(slot, e2));
                                assert(differs == (e2 != e));
                                assert(self@ =~= (AnalyserView { resource: self@.resource, ..s0 }));
                            }
                        },
                        _ => {},
                    }
                },
                None => {},
            }
            i = i + 1;
        }
        proof {
            assert(pv.take(pv.len() as int) =~= pv);
        }
        let ghost res = self@.resource;
        let ghost before_samples = self@.resource_samples;
        let mut k: usize = 0;
        while k < changed.len()
            invariant
                k <= changed@.len(),
                self@ == (AnalyserView { resource: res, resource_samples: self@.resource_samples, ..s0 }),
                res == self@.resource,
                forall|j: int| 0 <= j < changed@.len() ==> res.contains_key(#[trigger] changed@[j]),
                self@.resource_samples == before_samples + slot_samples(tick, res, changed@.take(k as int)),
            decreases changed.len() - k,
        {
            let slot = changed[k];
            let r = match self.resource.get(&slot) {
                Some(r) => *r,
                None => ResourceState { xp: 0, score: 0, deaths: 0, ping: 0 },
            };
            self.resource_samples.push(
                ResourceSample { tick, entity_id: slot, xp: r.xp, score: r.score, deaths: r.deaths, ping: r.ping },
            );
            proof {
                assert(changed@.take(k + 1) =~= changed@.take(k as int).push(slot));
                assert(before_samples + slot_samples(tick, res, changed@.take(k + 1)) =~= (before_samples
                    + slot_samples(tick, res, changed@.take(k as int))).push(
                    ResourceSample { tick, entity_id: slot, xp: r.xp, score: r.score, deaths: r.deaths, ping: r.ping },
                ));
            }
            k = k + 1;
        }
        proof {
            assert(changed@.take(changed@.len() as int) =~= changed@);
        }
    }
}


// ---------------------------------------------------------------------
// Players.

/// The player props the analyser reads, by name.
#[derive(PartialEq, Eq, Structural)]
pub enum PlayerProp {
    Origin,
    OriginZ,
    VelocityX,
    VelocityY,
    VelocityZ,
    Pitch,
    Yaw,
    ActiveWeapon,
    Health,
    Team,
    NeoClass,
    Camo,
    LifeState,
    Attackers,
    Other,
}

/// Which player prop a prop name is.
pub open spec fn player_prop(name: Seq<char>) -> PlayerProp {
    if name == "m_vecOrigin"@ {
        PlayerProp::Origin
    } else if name == "m_vecOrigin[2]"@ {
        PlayerProp::OriginZ
    } else if name == "m_vecVelocity[0]"@ {
        PlayerProp::VelocityX
    } else if name == "m_vecVelocity[1]"@ {
        PlayerProp::VelocityY
    } else if name == "m_vecVelocity[2]"@ {
        PlayerProp::VelocityZ
    } else if name == "m_angEyeAngles[0]"@ {
        PlayerProp::Pitch
    } else if name == "m_angEyeAngles[1]"@ {
        PlayerProp::Yaw
    } else if name == "m_hActiveWeapon"@ {
        PlayerProp::ActiveWeapon
    } else if name == "m_iHealth"@ {
        PlayerProp::Health
    } else if name == "m_iTeamNum"@ {
        PlayerProp::Team
    } else if name == "m_iNeoClass"@ {
        PlayerProp::NeoClass
    } else if name == "m_bInThermOpticCamo"@ {
        PlayerProp::Camo
    } else if name == "m_lifeState"@ {
        PlayerProp::LifeState
    } else if name == "m_rfAttackersAccumlator"@ || name == "m_rflAttackersAccumlator"@ {
        PlayerProp::Attackers
    } else {
        PlayerProp::Other
    }
}

fn classify(name: &str) -> (r: PlayerProp)
    ensures
        r == player_prop(name@),
{
    if str_eq(name, "m_vecOrigin") {
        PlayerProp::Origin
    } else if str_eq(name, "m_vecOrigin[2]") {
        PlayerProp::OriginZ
    } else if str_eq(name, "m_vecVelocity[0]") {
        PlayerProp::VelocityX
    } else if str_eq(name, "m_vecVelocity[1]") {
        PlayerProp::VelocityY
    } else if str_eq(name, "m_vecVelocity[2]") {
        PlayerProp::VelocityZ
    } else if str_eq(name, "m_angEyeAngles[0]") {
        PlayerProp::Pitch
    } else if str_eq(name, "m_angEyeAngles[1]") {
        PlayerProp::Yaw
    } else if str_eq(name, "m_hActiveWeapon") {
        PlayerProp::ActiveWeapon
    } else if str_eq(name, "m_iHealth") {
        PlayerProp::Health
    } else if str_eq(name, "m_iTeamNum") {
        PlayerProp::Team
    } else if str_eq(name, "m_iNeoClass") {
        PlayerProp::NeoClass
    } else if str_eq(name, "m_bInThermOpticCamo") {
        PlayerProp::Camo
    } else if str_eq(name, "m_lifeState") {
        PlayerProp::LifeState
    } else if str_eq(name, "m_rfAttackersAccumlator") || str_eq(name, "m_rflAttackersAccumlator") {
        PlayerProp::Attackers
    } else {
        PlayerProp::Other
    }
}

/// The entity-index bits of an entity handle.
pub const EHANDLE_ENTITY_MASK: i64 = 2047;

/// The attacker readings widened with zeros to at least `n` entries.
pub open spec fn widen(att: Seq<u32>, n: nat) -> Seq<u32> {
    if att.len() < n {
        att + Seq::new((n - att.len()) as nat, |i: int| 0u32)
    } else {
        att
    }
}

/// The first `k` elements of an accumulator array applied: each float
/// element at an index above 0 that differs (as `f32`) from the last
/// reading replaces it and adds a damage sample.
pub open spec fn accumulate(
    att: Seq<u32>,
    dmg: Seq<DamageSample>,
    vals: Seq<Option<u32>>,
    tick: u32,
    eid: u32,
    k: nat,
) -> (Seq<u32>, Seq<DamageSample>)
    decreases k,
{
    if k == 0 {
        (att, dmg)
    } else {
        let (a, d) = accumulate(att, dmg, vals, tick, eid, (k - 1) as nat);
        let i = k - 1;
        match vals[i] {
            Some(x) => if i > 0 && float_ne(a[i], x) {
                (
                    a.update(i, x),
                    d.push(DamageSample { tick, victim_entity_id: eid, attacker_entity_id: i as u32, damage: x }),
                )
            } else {
                (a, d)
            },
            None => (a, d),
        }
    }
}

/// A player's state after one named prop, whether a sampled column changed
/// so far, and the damage samples. Origin, velocity, eye angles, health,
/// team, class, camo and life state are taken as they come; the active
/// weapon only where the handle names an entity (not the 2047 "none") other
/// than the current one; the attacker accumulators add damage samples and
/// never count as a change.
pub open spec fn player_step(
    p: PlayerStateView,
    changed: bool,
    dmg: Seq<DamageSample>,
    tick: u32,
    eid: u32,
    name: Seq<char>,
    v: PropVal,
) -> (PlayerStateView, bool, Seq<DamageSample>) {
    let same = (p, changed, dmg);
    match (player_prop(name), v) {
        (PlayerProp::Origin, PropVal::Vector(x, y, z)) => (PlayerStateView { x, y, z, ..p }, true, dmg),
        (PlayerProp::Origin, PropVal::VectorXY(x, y)) => (PlayerStateView { x, y, ..p }, true, dmg),
        (PlayerProp::OriginZ, PropVal::Float(z)) => (PlayerStateView { z, ..p }, true, dmg),
        (PlayerProp::VelocityX, PropVal::Float(f)) => (PlayerStateView { vx: f, ..p }, true, dmg),
        (PlayerProp::VelocityY, PropVal::Float(f)) => (PlayerStateView { vy: f, ..p }, true, dmg),
        (PlayerProp::VelocityZ, PropVal::Float(f)) => (PlayerStateView { vz: f, ..p }, true, dmg),
        (PlayerProp::Pitch, PropVal::Float(f)) => (PlayerStateView { eye_pitch: f, ..p }, true, dmg),
        (PlayerProp::Yaw, PropVal::Float(f)) => (PlayerStateView { eye_yaw: f, ..p }, true, dmg),
        (PlayerProp::ActiveWeapon, PropVal::Integer(h)) => {
            let index = (h & EHANDLE_ENTITY_MASK) as u32;
            if index != 2047 && p.weapon_entity != index {
                (PlayerStateView { weapon_entity: index, ..p }, true, dmg)
            } else {
                same
            }
        },
        (PlayerProp::Health, PropVal::Integer(n)) => (PlayerStateView { health: n, ..p }, true, dmg),
        (PlayerProp::Team, PropVal::Integer(n)) => (PlayerStateView { team: n, ..p }, true, dmg),
        (PlayerProp::NeoClass, PropVal::Integer(n)) => (PlayerStateView { class_num: n, ..p }, true, dmg),
        (PlayerProp::Camo, PropVal::Integer(n)) => (PlayerStateView { camo: n != 0, ..p }, true, dmg),
        (PlayerProp::LifeState, PropVal::Integer(n)) => (PlayerStateView { life_state: n, ..p }, true, dmg),
        (PlayerProp::Attackers, PropVal::Array(vals)) => {
            let (att, d) = accumulate(widen(p.attackers, vals.len()), dmg, vals, tick, eid, vals.len());
            (PlayerStateView { attackers: att, ..p }, changed, d)
        },
        _ => same,
    }
}

/// The props applied in order (props of unknown identifiers are passed
/// over).
pub open spec fn player_fold(
    p: PlayerStateView,
    changed: bool,
    dmg: Seq<DamageSample>,
    names: Map<u64, Seq<char>>,
    tick: u32,
    eid: u32,
    props: Seq<(u64, PropVal)>,
) -> (PlayerStateView, bool, Seq<DamageSample>)
    decreases props.len(),
{
    if props.len() == 0 {
        (p, changed, dmg)
    } else {
        let (p1, c1, d1) = player_fold(p, changed, dmg, names, tick, eid, props.drop_last());
        let (id, v) = props.last();
        if names.contains_key(id) {
            player_step(p1, c1, d1, tick, eid, names[id], v)
        } else {
            (p1, c1, d1)
        }
    }
}

/// The weapon a player holds, by the class of its weapon entity; empty for
/// entity 0 (no handle seen yet) or a weapon entity of unknown class.
pub open spec fn weapon_for(s: AnalyserView, w: u32) -> Seq<char> {
    if w != 0 && s.entity_classes.contains_key(w) && (s.entity_classes[w] as int) < s.class_names.len() {
        weapon_of_class(s.class_names[s.entity_classes[w] as int])
    } else {
        Seq::empty()
    }
}

/// The sample of a player's state.
pub open spec fn sample_of(s: AnalyserView, tick: u32, eid: u32, p: PlayerStateView, in_pvs: bool) -> PlayerSampleView {
    PlayerSampleView {
        tick,
        entity_id: eid,
        x: p.x,
        y: p.y,
        z: p.z,
        eye_pitch: p.eye_pitch,
        eye_yaw: p.eye_yaw,
        vx: p.vx,
        vy: p.vy,
        vz: p.vz,
        weapon: weapon_for(s, p.weapon_entity),
        health: p.health,
        team: p.team,
        class_num: p.class_num,
        camo: p.camo,
        alive: p.life_state == 0,
        in_pvs,
    }
}

/// What an update of a player entity changes. Leave and delete: a known
/// player gets a last sample, marked out of the PVS, and a delete forgets
/// it. Other updates: the props apply (to a zeroed state where the player
/// is new) and, where a sampled column changed, a sample is added.
pub open spec fn after_player(s: AnalyserView, tick: u32, eid: u32, update: UpdateKind, props: Seq<(u64, PropVal)>) -> AnalyserView {
    if update == UpdateKind::Leave || update == UpdateKind::Delete {
        let s2 = if s.players.contains_key(eid) {
            AnalyserView { samples: s.samples.push(sample_of(s, tick, eid, s.players[eid], false)), ..s }
        } else {
            s
        };
        if update == UpdateKind::Delete {
            AnalyserView { players: s2.players.remove(eid), ..s2 }
        } else {
            s2
        }
    } else {
        let p0 = if s.players.contains_key(eid) { s.players[eid] } else { fresh_player() };
        let (p, changed, dmg) = player_fold(p0, false, s.damage_samples, s.prop_names, tick, eid, props);
        let s2 = AnalyserView { players: s.players.insert(eid, p), damage_samples: dmg, ..s };
        if changed {
            AnalyserView { samples: s2.samples.push(sample_of(s2, tick, eid, p, true)), ..s2 }
        } else {
            s2
        }
    }
}

/// What one entity update changes. The entity's class is tracked (a delete
/// resolves it from what was tracked and forgets it; a delete of an
/// untracked entity changes nothing); then ghost, resource and player
/// classes are handled as [`after_ghost`], [`after_resource`] and
/// [`after_player`] say, and other classes change nothing more.
pub open spec fn after_entity(s: AnalyserView, tick: u32, e: EntityUpdateView) -> AnalyserView {
    let eid = e.entity_id;
    if e.update == UpdateKind::Delete && !s.entity_classes.contains_key(eid) {
        s
    } else {
        let class_id = if e.update == UpdateKind::Delete { s.entity_classes[eid] } else { e.server_class };
        let s1 = AnalyserView {
            entity_classes: if e.update == UpdateKind::Delete {
                s.entity_classes.remove(eid)
            } else {
                s.entity_classes.insert(eid, e.server_class)
            },
            ..s
        };
        if s1.ghost_classes.contains(class_id) {
            after_ghost(s1, tick, eid, e.update, e.props)
        } else if s1.resource_classes.contains(class_id) {
            after_resource(s1, tick, e.update, e.props)
        } else if s1.player_classes.contains(class_id) {
            after_player(s1, tick, eid, e.update, e.props)
        } else {
            s1
        }
    }
}

/// An entity update as values.
pub struct EntityUpdateView {
    pub entity_id: u32,
    pub update: UpdateKind,
    pub server_class: u16,
    pub props: Seq<(u64, PropVal)>,
}

impl View for EntityUpdate {
    type V = EntityUpdateView;

    open spec fn view(&self) -> EntityUpdateView {
        EntityUpdateView {
            entity_id: self.entity_id,
            update: self.update,
            server_class: self.server_class,
            props: props_view(self.props@),
        }
    }
}


/// The updates of one packet-entities message applied in order.
pub open spec fn after_entities(s: AnalyserView, tick: u32, es: Seq<EntityUpdateView>) -> AnalyserView
    decreases es.len(),
{
    if es.len() == 0 {
        s
    } else {
        after_entity(after_entities(s, tick, es.drop_last()), tick, es.last())
    }
}

/// The names of the classes with these ids, where the id is a known class.
pub open spec fn names_of(ids: Seq<u16>, names: Seq<Seq<char>>) -> Seq<Seq<char>>
    decreases ids.len(),
{
    if ids.len() == 0 {
        Seq::empty()
    } else {
        names_of(ids.drop_last(), names) + if (ids.last() as int) < names.len() {
            seq![names[ids.last() as int]]
        } else {
            Seq::empty()
        }
    }
}

/// What the entity pass yields.
pub struct EntityOutput {
    pub samples: Vec<PlayerSample>,
    pub ghost_samples: Vec<GhostSample>,
    pub resource_samples: Vec<ResourceSample>,
    pub damage_samples: Vec<DamageSample>,
    pub player_classes: Vec<String>,
    /// Why the pass stopped before the end of the demo, if it did.
    pub warning: Option<String>,
}

fn fresh_player_state() -> (p: PlayerState)
    ensures
        p@ == fresh_player(),
{
    PlayerState {
        x: 0,
        y: 0,
        z: 0,
        eye_pitch: 0,
        eye_yaw: 0,
        vx: 0,
        vy: 0,
        vz: 0,
        weapon_entity: 0,
        health: 0,
        team: 0,
        class_num: 0,
        camo: false,
        life_state: 0,
        attackers: Vec::new(),
    }
}

fn apply_attackers(att: &mut Vec<u32>, dmg: &mut Vec<DamageSample>, vals: &Vec<Option<u32>>, tick: u32, eid: u32)
    ensures
        (final(att)@, final(dmg)@) == accumulate(widen(old(att)@, vals@.len()), old(dmg)@, vals@, tick, eid, vals@.len()),
{
    let ghost a0 = att@;
    while att.len() < vals.len()
        invariant
            a0.len() <= att@.len(),
            att@.len() <= a0.len() || att@.len() <= vals@.len(),
            att@ == a0 + Seq::new((att@.len() - a0.len()) as nat, |i: int| 0u32),
        decreases vals.len() - att.len(),
    {
        let ghost before = att@;
        att.push(0);
        proof {
            assert(att@ =~= a0 + Seq::new((att@.len() - a0.len()) as nat, |i: int| 0u32));
        }
    }
    let ghost w = att@;
    proof {
        if a0.len() < vals@.len() {
            assert(w =~= widen(a0, vals@.len()));
        } else {
            assert(w =~= a0);
        }
    }
    let ghost d0 = dmg@;
    let mut k: usize = 0;
    while k < vals.len()
        invariant
            w == widen(a0, vals@.len()),
            w.len() >= vals@.len(),
            att@.len() == w.len(),
            k <= vals@.len(),
            (att@, dmg@) == accumulate(w, d0, vals@, tick, eid, k as nat),
        decreases vals.len() - k,
    {
        match vals[k] {
            Some(x) => {
                if k > 0 && floats_differ(att[k], x) {
                    att.set(k, x);
                    dmg.push(DamageSample { tick, victim_entity_id: eid, attacker_entity_id: k as u32, damage: x });
                }
            },
            None => {},
        }
        k = k + 1;
    }
}

impl EntityAnalyser {
    fn weapon_lookup(&self, w: u32) -> (r: String)
        ensures
            r@ == weapon_for(self@, w),
    {
        if w == 0 {
            return String::new();
        }
        match self.entity_classes.get(&w) {
            Some(id) => {
                let ix = *id as usize;
                if ix < self.class_names.len() {
                    weapon_name(self.class_names[ix].as_str())
                } else {
                    String::new()
                }
            },
            None => String::new(),
        }
    }

    fn make_sample(&self, tick: u32, eid: u32, p: &PlayerState, in_pvs: bool) -> (r: PlayerSample)
        ensures
            r@ == sample_of(self@, tick, eid, p@, in_pvs),
    {
        PlayerSample {
            tick,
            entity_id: eid,
            x: p.x,
            y: p.y,
            z: p.z,
            eye_pitch: p.eye_pitch,
            eye_yaw: p.eye_yaw,
            vx: p.vx,
            vy: p.vy,
            vz: p.vz,
            weapon: self.weapon_lookup(p.weapon_entity),
            health: p.health,
            team: p.team,
            class_num: p.class_num,
            camo: p.camo,
            alive: p.life_state == 0,
            in_pvs,
        }
    }

    fn apply_player(&mut self, tick: u32, eid: u32, update: UpdateKind, props: &Vec<PropUpdate>)
        ensures
            final(self)@ == after_player(old(self)@, tick, eid, update, props_view(props@)),
    {
        let ghost s0 = self@;
        if update == UpdateKind::Leave || update == UpdateKind::Delete {
            let last = match self.players.get(&eid) {
                Some(p) => Some(self.make_sample(tick, eid, p, false)),
                None => None,
            };
            match last {
                Some(smp) => {
                    let ghost sv = smp@;
                    self.samples.push(smp);
                    proof {
                        assert(self@.samples =~= s0.samples.push(sv));
                        assert(self@.players =~= s0.players);
                        assert(self@.prop_names =~= s0.prop_names);
                        assert(self@.array_props =~= s0.array_props);
                    }
                },
                None => {},
            }
            if update == UpdateKind::Delete {
                let ghost mid = self@;
                self.players.remove(&eid);
                proof {
                    assert(self@.players =~= mid.players.remove(eid));
                    assert(self@.samples =~= mid.samples);
                    assert(self@.prop_names =~= s0.prop_names);
                    assert(self@.array_props =~= s0.array_props);
                }
            }
            return;
        }
        let mut p = match self.players.remove(&eid) {
            Some(p) => p,
            None => fresh_player_state(),
        };
        let ghost p0 = p@;
        let ghost pv = props_view(props@);
        let mut changed = false;
        let mut i: usize = 0;
        proof {
            assert(self@.players =~= s0.players.remove(eid));
            assert(p0 == if s0.players.contains_key(eid) { s0.players[eid] } else { fresh_player() });
            assert(pv.take(0) =~= Seq::<(u64, PropVal)>::empty());
            assert(self@.prop_names =~= s0.prop_names);
            assert(self@.array_props =~= s0.array_props);
            assert(self@.samples =~= s0.samples);
        }
        while i < props.len()
            invariant
                pv == props_view(props@),
                i <= props@.len(),
                self@ == (AnalyserView {
                    players: s0.players.remove(eid),
                    damage_samples: self@.damage_samples,
                    ..s0
                }),
                (p@, changed, self@.damage_samples) == player_fold(
                    p0,
                    false,
                    s0.damage_samples,
                    s0.prop_names,
                    tick,
                    eid,
                    pv.take(i as int),
                ),
            decreases props.len() - i,
        {
            let prop = &props[i];
            proof {
                assert(pv.take(i + 1).drop_last() =~= pv.take(i as int));
                assert(pv.take(i + 1).last() == (prop.identifier, prop.value@));
            }
            let role = match self.prop_name(prop.identifier) {
                Some(name) => Some(classify(name.as_str())),
                None => None,
            };
            let ghost before = self@;
            match role {
                None => {},
                Some(role) => {
                    match (role, &prop.value) {
                        (PlayerProp::Origin, PropValue::Vector(x, y, z)) => {
                            p.x = *x;
                            p.y = *y;
                            p.z = *z;
                            changed = true;
                        },
                        (PlayerProp::Origin, PropValue::VectorXY(x, y)) => {
                            p.x = *x;
                            p.y = *y;
                            changed = true;
                        },
                        (PlayerProp::OriginZ, PropValue::Float(f)) => {
                            p.z = *f;
                            changed = true;
                        },
                        (PlayerProp::VelocityX, PropValue::Float(f)) => {
                            p.vx = *f;
                            changed = true;
                        },
                        (PlayerProp::VelocityY, PropValue::Float(f)) => {
                            p.vy = *f;
                            changed = true;
                        },
                        (PlayerProp::VelocityZ, PropValue::Float(f)) => {
                            p.vz = *f;
                            changed = true;
                        },
                        (PlayerProp::Pitch, PropValue::Float(f)) => {
                            p.eye_pitch = *f;
                            changed = true;
                        },
                        (PlayerProp::Yaw, PropValue::Float(f)) => {
                            p.eye_yaw = *f;
                            changed = true;
                        },
                        (PlayerProp::ActiveWeapon, PropValue::Integer(h)) => {
                            let index = (*h & EHANDLE_ENTITY_MASK) as u32;
                            if index != 2047 && p.weapon_entity != index {
                                p.weapon_entity = index;
                                changed = true;
                            }
                        },
                        (PlayerProp::Health, PropValue::Integer(n)) => {
                            p.health = *n;
                            changed = true;
                        },
                        (PlayerProp::Team, PropValue::Integer(n)) => {
                            p.team = *n;
                            changed = true;
                        },
                        (PlayerProp::NeoClass, PropValue::Integer(n)) => {
                            p.class_num = *n;
                            changed = true;
                        },
                        (PlayerProp::Camo, PropValue::Integer(n)) => {
                            p.camo = *n != 0;
                            changed = true;
                        },
                        (PlayerProp::LifeState, PropValue::Integer(n)) => {
                            p.life_state = *n;
                            changed = true;
                        },
                        (PlayerProp::Attackers, PropValue::Array(vals)) => {
                            apply_attackers(&mut p.attackers, &mut self.damage_samples, vals, tick, eid);
                        },
                        _ => {},
                    }
                },
            }
            proof {
                assert(self@ =~= (AnalyserView {
                    players: s0.players.remove(eid),
                    damage_samples: self@.damage_samples,
                    ..s0
                }));
            }
            i = i + 1;
        }
        proof {
            assert(pv.take(pv.len() as int) =~= pv);
        }
        let smp = if changed { Some(self.make_sample(tick, eid, &p, true)) } else { None };
        let ghost pw = p@;
        let ghost mid = self@;
        self.players.insert(eid, p);
        proof {
            assert(mid.players == s0.players.remove(eid));
            assert(self@.players =~= mid.players.insert(eid, pw));
            assert(mid.players.insert(eid, pw) =~= s0.players.insert(eid, pw));
            assert(self@ =~= (AnalyserView {
                players: s0.players.insert(eid, pw),
                damage_samples: mid.damage_samples,
                ..s0
            }));
        }
        match smp {
            Some(smp) => {
                let ghost sv = smp@;
                let ghost s2 = self@;
                self.samples.push(smp);
                proof {
                    assert(self@.samples =~= s2.samples.push(sv));
                    assert(self@ =~= (AnalyserView { samples: s2.samples.push(sv), ..s2 }));
                }
            },
            None => {},
        }
    }

    /// Take in one entity of a packet-entities message.
    pub fn apply_entity(&mut self, tick: u32, entity: &EntityUpdate)
        ensures
            final(self)@ == after_entity(old(self)@, tick, entity@),
    {
        let ghost s0 = self@;
        let eid = entity.entity_id;
        let class_id: u16 = if entity.update == UpdateKind::Delete {
            match self.entity_classes.remove(&eid) {
                Some(id) => id,
                None => {
                    proof {
                        assert(self@.entity_classes =~= s0.entity_classes);
                        assert(self@.players =~= s0.players);
                        assert(self@.samples =~= s0.samples);
                        assert(self@.prop_names =~= s0.prop_names);
                        assert(self@.array_props =~= s0.array_props);
                        assert(self@.class_names =~= s0.class_names);
                    }
                    return;
                },
            }
        } else {
            self.entity_classes.insert(eid, entity.server_class);
            entity.server_class
        };
        proof {
            assert(self@.players =~= s0.players);
            assert(self@.samples =~= s0.samples);
            assert(self@.prop_names =~= s0.prop_names);
            assert(self@.array_props =~= s0.array_props);
            assert(self@.class_names =~= s0.class_names);
        }
        if contains_u16(&self.ghost_classes, class_id) {
            self.apply_ghost(tick, eid, entity.update, &entity.props);
            return;
        }
        if contains_u16(&self.resource_classes, class_id) {
            self.apply_resource(tick, entity.update, &entity.props);
            return;
        }
        if !contains_u16(&self.player_classes, class_id) {
            return;
        }
        self.apply_player(tick, eid, entity.update, &entity.props);
    }

    /// Take in the entities of one packet-entities message, in order.
    pub fn handle_entities(&mut self, tick: u32, entities: &[EntityUpdate])
        ensures
            final(self)@ == after_entities(old(self)@, tick, entities@.map_values(|e: EntityUpdate| e@)),
    {
        let ghost s0 = self@;
        let ghost ev = entities@.map_values(|e: EntityUpdate| e@);
        let mut i: usize = 0;
        proof {
            assert(ev.take(0) =~= Seq::<EntityUpdateView>::empty());
        }
        while i < entities.len()
            invariant
                ev == entities@.map_values(|e: EntityUpdate| e@),
                i <= entities@.len(),
                self@ == after_entities(s0, tick, ev.take(i as int)),
            decreases entities.len() - i,
        {
            proof {
                assert(ev.take(i + 1).drop_last() =~= ev.take(i as int));
                assert(ev.take(i + 1).last() == entities@[i as int]@);
            }
            self.apply_entity(tick, &entities[i]);
            i = i + 1;
        }
        proof {
            assert(ev.take(ev.len() as int) =~= ev);
        }
    }

    /// Hand over the samples, with the names of the player classes.
    pub fn into_output(self) -> (o: EntityOutput)
        ensures
            o.samples@.map_values(|p: PlayerSample| p@) == self@.samples,
            o.ghost_samples@ == self@.ghost_samples,
            o.resource_samples@ == self@.resource_samples,
            o.damage_samples@ == self@.damage_samples,
            names_view(o.player_classes@) == names_of(self@.player_classes, self@.class_names),
            o.warning is None,
    {
        let ghost s = self@;
        let mut names: Vec<String> = Vec::new();
        let mut i: usize = 0;
        proof {
            assert(s.player_classes.take(0) =~= Seq::<u16>::empty());
            assert(names_view(names@) =~= Seq::<Seq<char>>::empty());
        }
        while i < self.player_classes.len()
            invariant
                s == self@,
                i <= s.player_classes.len(),
                names_view(names@) == names_of(s.player_classes.take(i as int), s.class_names),
            decreases self.player_classes.len() - i,
        {
            let id = self.player_classes[i];
            let ix = id as usize;
            proof {
                assert(s.player_classes.take(i + 1).drop_last() =~= s.player_classes.take(i as int));
                assert(s.player_classes.take(i + 1).last() == id);
            }
            if ix < self.class_names.len() {
                let ghost before = names_view(names@);
                names.push(self.class_names[ix].clone());
                proof {
                    assert(names_view(names@) =~= before.push(s.class_names[ix as int]));
                }
            } else {
                proof {
                    assert(names_view(names@) =~= names_of(s.player_classes.take(i + 1), s.class_names));
                }
            }
            i = i + 1;
        }
        proof {
            assert(s.player_classes.take(s.player_classes.len() as int) =~= s.player_classes);
        }
        EntityOutput {
            samples: self.samples,
            ghost_samples: self.ghost_samples,
            resource_samples: self.resource_samples,
            damage_samples: self.damage_samples,
            player_classes: names,
            warning: None,
        }
    }
}


// ---------------------------------------------------------------------
// Samples are append-only.

/// `a` is a prefix of `b`.
pub open spec fn extends<T>(a: Seq<T>, b: Seq<T>) -> bool {
    a.len() <= b.len() && b.subrange(0, a.len() as int) == a
}

proof fn lemma_extends_trans<T>(a: Seq<T>, b: Seq<T>, c: Seq<T>)
    requires
        extends(a, b),
        extends(b, c),
    ensures
        extends(a, c),
{
    assert(c.subrange(0, a.len() as int) =~= b.subrange(0, a.len() as int));
}

proof fn lemma_extends_push<T>(a: Seq<T>, x: T)
    ensures
        extends(a, a.push(x)),
{
    assert(a.push(x).subrange(0, a.len() as int) =~= a);
}

proof fn lemma_accumulate_extends(att: Seq<u32>, dmg: Seq<DamageSample>, vals: Seq<Option<u32>>, tick: u32, eid: u32, k: nat)
    ensures
        extends(dmg, accumulate(att, dmg, vals, tick, eid, k).1),
    decreases k,
{
    if k == 0 {
        assert(dmg.subrange(0, dmg.len() as int) =~= dmg);
    } else {
        lemma_accumulate_extends(att, dmg, vals, tick, eid, (k - 1) as nat);
        let (a, d) = accumulate(att, dmg, vals, tick, eid, (k - 1) as nat);
        let i = k - 1;
        match vals[i] {
            Some(x) => if i > 0 && float_ne(a[i], x) {
                let sample = DamageSample { tick, victim_entity_id: eid, attacker_entity_id: i as u32, damage: x };
                lemma_extends_push(d, sample);
                lemma_extends_trans(dmg, d, d.push(sample));
            },
            None => {},
        }
    }
}

proof fn lemma_player_fold_extends(
    p: PlayerStateView,
    changed: bool,
    dmg: Seq<DamageSample>,
    names: Map<u64, Seq<char>>,
    tick: u32,
    eid: u32,
    props: Seq<(u64, PropVal)>,
)
    ensures
        extends(dmg, player_fold(p, changed, dmg, names, tick, eid, props).2),
    decreases props.len(),
{
    if props.len() == 0 {
        assert(dmg.subrange(0, dmg.len() as int) =~= dmg);
    } else {
        lemma_player_fold_extends(p, changed, dmg, names, tick, eid, props.drop_last());
        let (p1, c1, d1) = player_fold(p, changed, dmg, names, tick, eid, props.drop_last());
        let (id, v) = props.last();
        if names.contains_key(id) {
            match (player_prop(names[id]), v) {
                (PlayerProp::Attackers, PropVal::Array(vals)) => {
                    lemma_accumulate_extends(widen(p1.attackers, vals.len()), d1, vals, tick, eid, vals.len());
                    lemma_extends_trans(dmg, d1, player_fold(p, changed, dmg, names, tick, eid, props).2);
                },
                _ => {},
            }
        }
    }
}

/// Samples are only ever appended: an entity update keeps every player,
/// ghost, scoreboard and damage sample already recorded, in place.
pub proof fn lemma_samples_appended(s: AnalyserView, tick: u32, e: EntityUpdateView)
    ensures
        extends(s.samples, after_entity(s, tick, e).samples),
        extends(s.ghost_samples, after_entity(s, tick, e).ghost_samples),
        extends(s.resource_samples, after_entity(s, tick, e).resource_samples),
        extends(s.damage_samples, after_entity(s, tick, e).damage_samples),
{
    let t = after_entity(s, tick, e);
    assert(s.samples.subrange(0, s.samples.len() as int) =~= s.samples);
    assert(s.ghost_samples.subrange(0, s.ghost_samples.len() as int) =~= s.ghost_samples);
    assert(s.resource_samples.subrange(0, s.resource_samples.len() as int) =~= s.resource_samples);
    assert(s.damage_samples.subrange(0, s.damage_samples.len() as int) =~= s.damage_samples);
    let eid = e.entity_id;
    if !(e.update == UpdateKind::Delete && !s.entity_classes.contains_key(eid)) {
        let class_id = if e.update == UpdateKind::Delete { s.entity_classes[eid] } else { e.server_class };
        let s1 = AnalyserView {
            entity_classes: if e.update == UpdateKind::Delete {
                s.entity_classes.remove(eid)
            } else {
                s.entity_classes.insert(eid, e.server_class)
            },
            ..s
        };
        if s1.ghost_classes.contains(class_id) {
            if e.update != UpdateKind::Delete {
                let g0 = if s1.ghosts.contains_key(eid) { s1.ghosts[eid] } else { (0u32, 0u32, 0u32) };
                let (g, moved) = ghost_fold(g0, false, s1.prop_names, e.props);
                lemma_extends_push(s.ghost_samples, GhostSample { tick, entity_id: eid, x: g.0, y: g.1, z: g.2 });
            }
        } else if s1.resource_classes.contains(class_id) {
            if e.update != UpdateKind::Delete {
                let (res, changed) = resource_fold(s1.resource, Seq::empty(), s1.array_props, e.props);
                assert((s.resource_samples + slot_samples(tick, res, changed)).subrange(
                    0,
                    s.resource_samples.len() as int,
                ) =~= s.resource_samples);
            }
        } else if s1.player_classes.contains(class_id) {
            if e.update == UpdateKind::Leave || e.update == UpdateKind::Delete {
                if s1.players.contains_key(eid) {
                    lemma_extends_push(s.samples, sample_of(s1, tick, eid, s1.players[eid], false));
                }
            } else {
                let p0 = if s1.players.contains_key(eid) { s1.players[eid] } else { fresh_player() };
                let (p, changed, dmg) = player_fold(p0, false, s1.damage_samples, s1.prop_names, tick, eid, e.props);
                lemma_player_fold_extends(p0, false, s1.damage_samples, s1.prop_names, tick, eid, e.props);
                let s2 = AnalyserView { players: s1.players.insert(eid, p), damage_samples: dmg, ..s1 };
                lemma_extends_push(s.samples, sample_of(s2, tick, eid, p, true));
            }
        }
    }
}

} // verus!
