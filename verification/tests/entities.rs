use ntre_demo_dumper::extract::entities::{
    ends_with, weapon_name, EntityAnalyser, EntityUpdate, PropUpdate, PropValue, SendTableInfo, ServerClassInfo,
    UpdateKind,
};
use ntre_demo_dumper::extract::inferred_hits::{cannot_hit, HitStep, HitTracker};
use ntre_demo_dumper::extract::net::{Kill, Player};
use std::collections::HashMap;
use tf_demo_parser::demo::sendprop::SendPropIdentifier;

fn id(table: &str, prop: &str) -> u64 {
    u64::from(SendPropIdentifier::new(table, prop))
}

fn f(x: f32) -> u32 {
    x.to_bits()
}

fn prop(table: &str, name: &str, value: PropValue) -> PropUpdate {
    PropUpdate { identifier: id(table, name), value }
}

fn update(entity_id: u32, update: UpdateKind, server_class: u16, props: Vec<PropUpdate>) -> EntityUpdate {
    EntityUpdate { entity_id, update, server_class, props }
}

fn analyser() -> EntityAnalyser {
    let strings = |v: &[&str]| v.iter().map(|s| s.to_string()).collect::<Vec<String>>();
    let tables = vec![
        SendTableInfo {
            name: "DT_NEO_Player".to_string(),
            props: strings(&[
                "m_vecOrigin",
                "m_iHealth",
                "m_hActiveWeapon",
                "m_lifeState",
                "m_rfAttackersAccumlator",
                "m_iTeamNum",
            ]),
        },
        SendTableInfo { name: "m_iXP".to_string(), props: strings(&["000", "001"]) },
        SendTableInfo { name: "m_iPing".to_string(), props: strings(&["000", "001"]) },
    ];
    let classes = vec![
        ServerClassInfo { id: 0, name: "CNEO_Player".to_string() },
        ServerClassInfo { id: 1, name: "CWeaponSRM".to_string() },
        ServerClassInfo { id: 2, name: "CWeaponGhost".to_string() },
        ServerClassInfo { id: 3, name: "CNEO_PlayerResource".to_string() },
    ];
    let mut a = EntityAnalyser::new();
    a.handle_data_tables(&tables, &classes);
    a
}

#[test]
fn weapon_names_and_suffixes() {
    assert_eq!(weapon_name("CWeaponSRM"), "SRM");
    assert_eq!(weapon_name("CNEO_WeaponMPN"), "MPN");
    assert_eq!(weapon_name("CNEOWeaponKyla"), "Kyla");
    assert_eq!(weapon_name("CKnife"), "Knife");
    assert_eq!(weapon_name("Zr68"), "Zr68");
    assert_eq!(weapon_name(""), "");
    assert!(ends_with("CNEO_Player", "Player"));
    assert!(!ends_with("CNEO_PlayerResource", "Player"));
    assert!(ends_with("x", ""));
    assert!(!ends_with("", "x"));
}

#[test]
fn player_samples_follow_changes() {
    let mut a = analyser();
    let p = "DT_NEO_Player";
    a.apply_entity(1, &update(7, UpdateKind::Enter, 1, vec![]));
    a.apply_entity(
        2,
        &update(
            5,
            UpdateKind::Enter,
            0,
            vec![
                prop(p, "m_vecOrigin", PropValue::Vector(f(1.0), f(2.0), f(3.0))),
                prop(p, "m_iHealth", PropValue::Integer(100)),
                prop(p, "m_hActiveWeapon", PropValue::Integer(7 | (3 << 11))),
                prop(p, "m_iTeamNum", PropValue::Integer(2)),
            ],
        ),
    );
    a.apply_entity(3, &update(5, UpdateKind::Delta, 0, vec![prop(p, "m_iHealth", PropValue::Integer(70))]));
    // same weapon again and an unknown prop: nothing to sample
    a.apply_entity(
        4,
        &update(
            5,
            UpdateKind::Delta,
            0,
            vec![prop(p, "m_hActiveWeapon", PropValue::Integer(7)), prop("DT_X", "m_other", PropValue::Integer(1))],
        ),
    );
    // the damage accumulator: index 0 is never an attacker; -0.0 equals 0.0
    a.apply_entity(
        5,
        &update(
            5,
            UpdateKind::Delta,
            0,
            vec![prop(
                p,
                "m_rfAttackersAccumlator",
                PropValue::Array(vec![Some(f(9.0)), Some(f(0.5)), Some(f(-0.0)), None]),
            )],
        ),
    );
    a.apply_entity(6, &update(5, UpdateKind::Leave, 0, vec![]));
    a.apply_entity(7, &update(99, UpdateKind::Delete, 0, vec![])); // never seen
    let out = a.into_output();
    assert_eq!(out.player_classes, vec!["CNEO_Player".to_string()]);
    assert!(out.warning.is_none());
    let s = &out.samples;
    assert_eq!(s.len(), 3);
    assert_eq!((s[0].tick, s[0].entity_id, s[0].health, s[0].team), (2, 5, 100, 2));
    assert_eq!((f32::from_bits(s[0].x), f32::from_bits(s[0].y), f32::from_bits(s[0].z)), (1.0, 2.0, 3.0));
    assert_eq!(s[0].weapon, "SRM");
    assert!(s[0].alive && s[0].in_pvs);
    assert_eq!((s[1].tick, s[1].health), (3, 70));
    assert_eq!((s[2].tick, s[2].health, s[2].in_pvs), (6, 70, false));
    assert_eq!(out.damage_samples.len(), 1);
    let d = out.damage_samples[0];
    assert_eq!((d.tick, d.victim_entity_id, d.attacker_entity_id, f32::from_bits(d.damage)), (5, 5, 1, 0.5));
}

#[test]
fn nan_readings_always_differ() {
    let mut a = analyser();
    let p = "DT_NEO_Player";
    let nan = f32::NAN.to_bits();
    for tick in 0..2 {
        a.apply_entity(
            tick,
            &update(
                5,
                UpdateKind::Delta,
                0,
                vec![prop(p, "m_rfAttackersAccumlator", PropValue::Array(vec![None, Some(nan)]))],
            ),
        );
    }
    let out = a.into_output();
    assert_eq!(out.damage_samples.len(), 2);
    assert!(out.samples.is_empty());
}

#[test]
fn ghosts_and_scoreboard() {
    let mut a = analyser();
    a.apply_entity(
        10,
        &update(40, UpdateKind::Enter, 2, vec![prop("DT_NEO_Player", "m_vecOrigin", PropValue::VectorXY(f(4.0), f(5.0)))]),
    );
    a.apply_entity(11, &update(40, UpdateKind::Delta, 2, vec![]));
    a.apply_entity(
        12,
        &update(
            41,
            UpdateKind::Delta,
            3,
            vec![
                prop("m_iXP", "001", PropValue::Integer(5)),
                prop("m_iPing", "001", PropValue::Integer(30)),
                prop("m_iXP", "001", PropValue::Integer(5)),
                prop("m_iXP", "000", PropValue::Integer(0)),
                prop("m_iPing", "000", PropValue::Float(f(1.0))),
            ],
        ),
    );
    let out = a.into_output();
    assert_eq!(out.ghost_samples.len(), 1);
    let g = out.ghost_samples[0];
    assert_eq!((g.tick, g.entity_id, f32::from_bits(g.x), f32::from_bits(g.y), g.z), (10, 40, 4.0, 5.0, 0));
    assert_eq!(out.resource_samples.len(), 1);
    let r = out.resource_samples[0];
    assert_eq!((r.tick, r.entity_id, r.xp, r.score, r.deaths, r.ping), (12, 1, 5, 0, 0, 30));
}

#[test]
fn weapons_that_cannot_hit() {
    for w in ["", "ghost", "smokegrenade", "grenade", "detpack", "proxmine", "remotedet"] {
        assert!(cannot_hit(w));
    }
    assert!(!cannot_hit("mx"));
    assert!(!cannot_hit("grenades"));
}

fn player(uid: u32, ent: u32) -> Player {
    Player { entity_id: ent, user_id: uid, name: String::new(), steam_id: String::new(), is_bot: false, first_seen_tick: 0 }
}

#[test]
fn hit_tracker_scenario() {
    let mut players = HashMap::new();
    for (uid, ent) in [(10, 1), (20, 2), (30, 3)] {
        players.insert(uid, player(uid, ent));
    }
    let kills = [Kill {
        tick: 9,
        victim_userid: 20,
        attacker_userid: 30,
        assists: 0,
        weapon: "mx".into(),
        headshot: false,
        suicide: false,
        explosive: false,
        ghoster: false,
    }];
    let mut t = HitTracker::new(&kills, &players);
    assert_eq!(t.on_sample(1, 1, 100, 2, true), HitStep::NoHit);
    assert_eq!(t.on_sample(1, 2, 100, 3, true), HitStep::NoHit);
    assert_eq!(t.on_sample(5, 2, 70, 3, true), HitStep::ByAim { damage: 30 });
    assert_eq!(t.on_sample(9, 2, -5, 3, false), HitStep::Fatal { damage: 75, attacker: Some(3) });
    // dead players take no more hits; spectators take none
    assert_eq!(t.on_sample(10, 2, -10, 3, false), HitStep::NoHit);
    assert_eq!(t.on_sample(2, 4, 50, 1, true), HitStep::NoHit);
    assert_eq!(t.on_sample(3, 4, 40, 1, true), HitStep::NoHit);
}

#[test]
fn fatal_hits_outside_the_window_go_by_aim() {
    let mut players = HashMap::new();
    players.insert(20, player(20, 2));
    let kills = [Kill {
        tick: 100,
        victim_userid: 20,
        attacker_userid: 0,
        assists: 0,
        weapon: String::new(),
        headshot: false,
        suicide: false,
        explosive: false,
        ghoster: false,
    }];
    let mut t = HitTracker::new(&kills, &players);
    t.on_sample(1, 2, 100, 2, true);
    assert_eq!(t.on_sample(50, 2, 0, 2, false), HitStep::ByAim { damage: 100 });
    let mut t = HitTracker::new(&kills, &players);
    t.on_sample(1, 2, 100, 2, true);
    assert_eq!(t.on_sample(104, 2, 0, 2, false), HitStep::Fatal { damage: 100, attacker: None });
}

#[test]
fn class_cased_weapons_that_cannot_hit() {
    for w in ["Ghost", "SmokeGrenade", "GRENADE", "DetPack", "ProxMine", "RemoteDet"] {
        assert!(cannot_hit(w));
    }
    assert!(!cannot_hit("SRM"));
    assert!(!cannot_hit("Knife"));
}
