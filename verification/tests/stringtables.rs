use ntre_demo_dumper::demo::bits::BitWriter;
use ntre_demo_dumper::demo::stringtables::{fixed_str, parse_player_info, parse_userinfo};

#[test]
fn parses_userinfo_from_table_dump() {
    // 132-byte player_info_s
    let mut info = vec![0u8; 132];
    info[..3].copy_from_slice(b"sun");
    info[32..36].copy_from_slice(&7u32.to_le_bytes()); // user id
    info[36..47].copy_from_slice(b"[U:1:12345]");
    info[108] = 0; // not fake
    info[109] = 0; // not hltv

    let mut w = BitWriter::default();
    w.write_bits(1, 8); // one table
    w.write_string("userinfo");
    w.write_bits(1, 16); // one entry
    w.write_string("2"); // slot 2 -> entity 3
    w.write_bit(true); // has userdata
    w.write_bits(info.len() as u32, 16);
    for b in &info {
        w.write_bits(*b as u32, 8);
    }
    w.write_bit(false); // no client entries

    let players = parse_userinfo(&w.bytes).unwrap();
    assert_eq!(players.len(), 1);
    assert_eq!(players[0].name, "sun");
    assert_eq!(players[0].user_id, 7);
    assert_eq!(players[0].steam_id, "[U:1:12345]");
    assert_eq!(players[0].entity_id, 3);
    assert!(!players[0].is_fake_player);
}

#[test]
fn short_player_info_layout_and_too_short_records() {
    let mut info = vec![0u8; 108];
    info[..4].copy_from_slice(b"bot1");
    info[32..36].copy_from_slice(&9u32.to_le_bytes());
    info[36..39].copy_from_slice(b"BOT");
    info[104] = 1; // fake
    info[105] = 0;
    let p = parse_player_info(&info, 5).unwrap();
    assert_eq!(p.name, "bot1");
    assert_eq!(p.user_id, 9);
    assert_eq!(p.steam_id, "BOT");
    assert_eq!(p.entity_id, 5);
    assert!(p.is_fake_player);
    assert!(!p.is_hltv);
    assert!(parse_player_info(&info[..107], 5).is_none());
}

#[test]
fn other_tables_and_truncated_dumps() {
    let mut w = BitWriter::default();
    w.write_bits(1, 8);
    w.write_string("modelprecache");
    w.write_bits(1, 16);
    w.write_string("2");
    w.write_bit(false); // no userdata
    w.write_bit(false);
    assert_eq!(parse_userinfo(&w.bytes).unwrap().len(), 0);
    // a dump cut short
    let cut = &w.bytes[..3];
    assert!(parse_userinfo(cut).is_err());
}

#[test]
fn fixed_text_is_cut_at_nul_and_decoded_lossily() {
    assert_eq!(fixed_str(b"a\xffb\0junk"), "a\u{FFFD}b");
    assert_eq!(fixed_str(b"full"), "full");
    assert_eq!(fixed_str(b""), "");
}
