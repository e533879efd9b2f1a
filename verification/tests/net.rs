use ntre_demo_dumper::demo::bits::{BitWriter, WireError};
use ntre_demo_dumper::demo::frames::{ByteRange, Frame, FrameKind};
use ntre_demo_dumper::demo::header::DemoHeader;
use ntre_demo_dumper::demo::net::{log_base2, parse_game_event, walk_packet, EventDef, EventEntry, EventValue, NetMessage};
use ntre_demo_dumper::extract::net::{fields_to_json, json_escape, strip_chat_codes, NetPass};
use ntre_demo_dumper::extract::DemoContext;

/// A payload: GameEventList defining a NEO-style player_death, then a
/// GameEvent using it, then a SayText2 user message.
fn sample_payload() -> Vec<u8> {
    let mut w = BitWriter::default();

    // svc_GameEventList (30): count 9 bits, length 20 bits, defs
    let mut defs = BitWriter::default();
    defs.write_bits(42, 9); // event id
    defs.write_string("player_death");
    for (name, kind) in [
        ("userid", 4u32), // short
        ("attacker", 4),
        ("assists", 4),
        ("weapon", 1), // string
        ("headshot", 6), // bool
        ("suicide", 6),
        ("deathIcon", 1),
        ("explosive", 6),
        ("ghoster", 6),
    ] {
        defs.write_bits(kind, 3);
        defs.write_string(name);
    }
    defs.write_bits(0, 3); // end of entries
    let defs_bits = defs.bytes.len() * 8; // whole bytes; fine for the test
    w.write_bits(30, 6);
    w.write_bits(1, 9);
    w.write_bits(defs_bits as u32, 20);
    for b in &defs.bytes {
        w.write_bits(*b as u32, 8);
    }

    // svc_GameEvent (25): length 11 bits, then id + values per definition
    let mut ev = BitWriter::default();
    ev.write_bits(42, 9);
    ev.write_bits(7, 16); // userid
    ev.write_bits(3, 16); // attacker
    ev.write_bits(1, 16); // assists
    ev.write_string("wep_mpn"); // weapon
    ev.write_bit(true); // headshot
    ev.write_bit(false); // suicide
    ev.write_string("mpn"); // deathIcon
    ev.write_bit(false); // explosive
    ev.write_bit(true); // ghoster
    let ev_bits = ev.bytes.len() * 8;
    w.write_bits(25, 6);
    w.write_bits(ev_bits as u32, 11);
    for b in &ev.bytes {
        w.write_bits(*b as u32, 8);
    }

    // svc_UserMessage (23): kind 8 bits, length 11 bits, data
    let mut um = BitWriter::default();
    um.write_bits(2, 8); // client entity
    um.write_bits(1, 8); // raw flag
    um.write_string("NEO_Chat_All");
    um.write_string("sun");
    um.write_string("gg");
    let um_bits = um.bytes.len() * 8;
    w.write_bits(23, 6);
    w.write_bits(4, 8); // SayText2
    w.write_bits(um_bits as u32, 11);
    for b in &um.bytes {
        w.write_bits(*b as u32, 8);
    }
    w.bytes
}

#[test]
fn walks_event_list_event_and_user_message() {
    let payload = sample_payload();
    let (msgs, result) = walk_packet(&payload, 24);
    result.unwrap();

    let mut got_defs = None;
    let mut got_event = None;
    let mut got_um = None;
    for msg in msgs {
        match msg {
            NetMessage::GameEventList(d) => got_defs = Some(d),
            NetMessage::GameEvent(c) => got_event = Some(c),
            NetMessage::UserMessage { kind, data } => got_um = Some((kind, data)),
        }
    }

    let defs = got_defs.expect("event list");
    assert_eq!(defs.get(&42).unwrap().name, "player_death");
    assert_eq!(defs.get(&42).unwrap().entries.len(), 9);

    let (name, fields) = parse_game_event(&got_event.expect("event"), &defs).unwrap();
    assert_eq!(name, "player_death");
    let get = |n: &str| fields.iter().find(|(f, _)| f == n).map(|(_, v)| v.clone());
    assert!(matches!(get("userid"), Some(EventValue::Int(7))));
    assert!(matches!(get("attacker"), Some(EventValue::Int(3))));
    assert!(matches!(get("headshot"), Some(EventValue::Bool(true))));
    assert!(matches!(get("ghoster"), Some(EventValue::Bool(true))));
    match get("weapon") {
        Some(EventValue::Str(s)) => assert_eq!(s, "wep_mpn"),
        other => panic!("bad weapon field: {other:?}"),
    }

    let (kind, _data) = got_um.expect("user message");
    assert_eq!(kind, 4);
}

/// Skippable messages must consume exactly their wire size.
#[test]
fn skips_messages_without_desync() {
    let mut w = BitWriter::default();
    // net_Tick
    w.write_bits(3, 6);
    w.write_bits(1234, 32);
    w.write_bits(10, 16);
    w.write_bits(2, 16);
    // svc_SetView
    w.write_bits(18, 6);
    w.write_bits(1, 11);
    // svc_GameEvent with empty defs is still framed correctly
    w.write_bits(25, 6);
    w.write_bits(9, 11);
    w.write_bits(500, 9);
    let (msgs, result) = walk_packet(&w.bytes, 24);
    result.unwrap();
    let events = msgs.iter().filter(|m| matches!(m, NetMessage::GameEvent(_))).count();
    assert_eq!(events, 1);
}

#[test]
fn unknown_message_type_stops_the_walk_keeping_earlier_messages() {
    let mut w = BitWriter::default();
    w.write_bits(25, 6);
    w.write_bits(9, 11);
    w.write_bits(500, 9);
    w.write_bits(63, 6); // not a message type of this protocol
    let (msgs, result) = walk_packet(&w.bytes, 24);
    assert_eq!(msgs.len(), 1);
    assert_eq!(result, Err(WireError::UnknownMessage(63)));
}

#[test]
fn unknown_event_id_is_an_error() {
    let payload = sample_payload();
    let (msgs, _) = walk_packet(&payload, 24);
    let chunk = msgs
        .into_iter()
        .find_map(|m| match m {
            NetMessage::GameEvent(c) => Some(c),
            _ => None,
        })
        .unwrap();
    let empty = std::collections::HashMap::new();
    assert_eq!(parse_game_event(&chunk, &empty).err(), Some(WireError::UnknownEventId(42)));
}

#[test]
fn log_base2_floors() {
    assert_eq!(log_base2(0), 0);
    assert_eq!(log_base2(1), 0);
    assert_eq!(log_base2(2), 1);
    assert_eq!(log_base2(255), 7);
    assert_eq!(log_base2(256), 8);
    assert_eq!(log_base2(u16::MAX), 15);
}

#[test]
fn chat_codes_are_stripped() {
    assert_eq!(strip_chat_codes("\u{1}hi \u{3}there"), "hi there");
    assert_eq!(strip_chat_codes("\u{7}FF0000red"), "red");
    assert_eq!(strip_chat_codes("\u{8}FF0000AAx"), "x");
    assert_eq!(strip_chat_codes("end\u{7}FF"), "end");
    assert_eq!(strip_chat_codes(""), "");
}

#[test]
fn json_strings_are_escaped() {
    let mut out = String::new();
    json_escape("a\"b\\c\nd\re\tf\u{1}g", &mut out);
    assert_eq!(out, "\"a\\\"b\\\\c\\nd\\re\\tf\\u0001g\"");
    let mut out = String::from("x");
    json_escape("\u{1f}é", &mut out);
    assert_eq!(out, "x\"\\u001fé\"");
}

#[test]
fn fields_become_a_json_object() {
    let fields = vec![
        ("userid".to_string(), EventValue::Int(7)),
        ("name".to_string(), EventValue::Str("s\"un".to_string())),
        ("speed".to_string(), EventValue::Float(1.5f32.to_bits())),
        ("bot".to_string(), EventValue::Bool(false)),
        ("ok".to_string(), EventValue::Bool(true)),
        ("big".to_string(), EventValue::Int(4_294_967_295)),
    ];
    let floats: Vec<String> = fields
        .iter()
        .map(|(_, v)| match v {
            EventValue::Float(b) => format!("{}", f32::from_bits(*b)),
            _ => String::new(),
        })
        .collect();
    assert_eq!(
        fields_to_json(&fields, &floats),
        "{\"userid\":7,\"name\":\"s\\\"un\",\"speed\":1.5,\"bot\":false,\"ok\":true,\"big\":4294967295}"
    );
    assert_eq!(fields_to_json(&[], &[]), "{}");
}

fn header() -> DemoHeader {
    DemoHeader {
        demo_protocol: 3,
        network_protocol: 24,
        server_name: String::new(),
        client_name: String::new(),
        map_name: String::new(),
        game_directory: String::new(),
        playback_seconds_bits: 0,
        playback_ticks: 0,
        playback_frames: 0,
        signon_length: 0,
    }
}

#[test]
fn net_pass_builds_kills_chat_and_events() {
    let payload = sample_payload();
    let h = header();
    let ctx = DemoContext { data: &payload, header: &h, threads: 1 };
    let frame = Frame {
        kind: FrameKind::Packet,
        tick: 500,
        view: None,
        payload: ByteRange { start: 0, end: payload.len() },
    };
    let mut pass = NetPass::new();
    pass.on_frame(&ctx, &frame);
    assert_eq!(pass.warnings(), 0);
    assert_eq!(pass.kills.len(), 1);
    let k = &pass.kills[0];
    assert_eq!((k.tick, k.victim_userid, k.attacker_userid, k.assists), (500, 7, 3, 1));
    assert_eq!(k.weapon, "wep_mpn");
    assert!(k.headshot && !k.suicide && !k.explosive && k.ghoster);
    assert_eq!(pass.events.len(), 1);
    assert_eq!(pass.events[0].1, "player_death");
    assert_eq!(pass.events[0].2.len(), 9);
    assert_eq!(pass.chat.len(), 1);
    let c = &pass.chat[0];
    assert_eq!((c.tick, c.client_entity, c.from.as_str(), c.text.as_str(), c.team_chat), (500, 2, "sun", "gg", false));

    // a frame of another kind changes nothing
    let other = Frame { kind: FrameKind::ConsoleCmd, ..frame };
    pass.on_frame(&ctx, &other);
    assert_eq!(pass.kills.len(), 1);
}

#[test]
fn events_before_definitions_are_warnings() {
    let mut w = BitWriter::default();
    w.write_bits(25, 6);
    w.write_bits(9, 11);
    w.write_bits(42, 9);
    let h = header();
    let ctx = DemoContext { data: &w.bytes, header: &h, threads: 1 };
    let frame = Frame { kind: FrameKind::Signon, tick: 1, view: None, payload: ByteRange { start: 0, end: w.bytes.len() } };
    let mut pass = NetPass::default();
    pass.on_frame(&ctx, &frame);
    assert_eq!(pass.warnings(), 1);
    assert!(pass.events.is_empty());
}

fn event_pass(events: &[(u32, &[(&str, u32, &str)])]) -> Vec<u8> {
    // one definition per (id, fields); fields are (name, kind, value-text)
    let mut w = BitWriter::default();
    let mut defs = BitWriter::default();
    for (id, fields) in events {
        defs.write_bits(*id, 9);
        defs.write_string(if *id == 1 { "player_connect" } else { "player_changename" });
        for (name, kind, _) in fields.iter() {
            defs.write_bits(*kind, 3);
            defs.write_string(name);
        }
        defs.write_bits(0, 3);
    }
    w.write_bits(30, 6);
    w.write_bits(events.len() as u32, 9);
    w.write_bits((defs.bytes.len() * 8) as u32, 20);
    for b in &defs.bytes {
        w.write_bits(*b as u32, 8);
    }
    for (id, fields) in events {
        let mut ev = BitWriter::default();
        ev.write_bits(*id, 9);
        for (_, kind, value) in fields.iter() {
            match kind {
                1 => ev.write_string(value),
                4 => ev.write_bits(value.parse().unwrap(), 16),
                5 => ev.write_bits(value.parse().unwrap(), 8),
                _ => ev.write_bit(*value == "1"),
            }
        }
        w.write_bits(25, 6);
        w.write_bits((ev.bytes.len() * 8) as u32, 11);
        for b in &ev.bytes {
            w.write_bits(*b as u32, 8);
        }
    }
    w.bytes
}

#[test]
fn roster_keeps_first_sighting_and_latest_name() {
    let connect: &[(&str, u32, &str)] =
        &[("userid", 4, "12"), ("index", 5, "4"), ("name", 1, "old"), ("networkid", 1, "BOT"), ("bot", 6, "1")];
    let rename: &[(&str, u32, &str)] = &[("userid", 4, "12"), ("newname", 1, "new")];
    let payload = event_pass(&[(1, connect), (2, rename)]);
    let h = header();
    let ctx = DemoContext { data: &payload, header: &h, threads: 1 };
    let frame = Frame { kind: FrameKind::Packet, tick: 77, view: None, payload: ByteRange { start: 0, end: payload.len() } };
    let mut pass = NetPass::new();
    pass.on_frame(&ctx, &frame);
    let p = pass.players.get(&12).unwrap();
    assert_eq!((p.entity_id, p.user_id, p.name.as_str(), p.steam_id.as_str(), p.is_bot, p.first_seen_tick), (5, 12, "new", "BOT", true, 77));
    // seen again later: the first sighting stays
    let later = Frame { tick: 900, ..frame };
    pass.on_frame(&ctx, &later);
    let p = pass.players.get(&12).unwrap();
    assert_eq!((p.first_seen_tick, p.name.as_str()), (77, "new"));
    assert_eq!(pass.events.len(), 4);
}

#[test]
fn unknown_value_kind_is_an_error() {
    let mut defs = std::collections::HashMap::new();
    defs.insert(3u16, EventDef { name: "odd".to_string(), entries: vec![EventEntry { name: "x".to_string(), kind: 9 }] });
    let mut w = BitWriter::default();
    w.write_bits(3, 9);
    w.write_bits(0, 8);
    let chunk = w.into_chunk();
    assert_eq!(parse_game_event(&chunk, &defs).err(), Some(WireError::UnknownValueKind(9)));
    // a local (type 7) field is not transmitted and yields no field
    defs.insert(4u16, EventDef { name: "local".to_string(), entries: vec![EventEntry { name: "y".to_string(), kind: 7 }] });
    let mut w = BitWriter::default();
    w.write_bits(4, 9);
    let (name, fields) = parse_game_event(&w.into_chunk(), &defs).unwrap();
    assert_eq!(name, "local");
    assert!(fields.is_empty());
}
