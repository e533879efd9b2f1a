use ntre_demo_dumper::demo::bits::BitWriter;
use ntre_demo_dumper::demo::frames::{ByteRange, Frame, FrameError, FrameIter, FrameKind, ViewInfo};
use ntre_demo_dumper::demo::header::{DemoHeader, HeaderError, HEADER_SIZE};
use ntre_demo_dumper::extract::announcements::{compile_patterns, Announcements};
use ntre_demo_dumper::extract::console::ConsoleCmds;
use ntre_demo_dumper::extract::inputs::RecorderInputs;
use ntre_demo_dumper::extract::net::NetPass;
use ntre_demo_dumper::extract::pov::PovSampler;
use ntre_demo_dumper::extract::DemoContext;
use ntre_demo_dumper::pipeline::{log_label, walk_frames, Extractors, LogLevel};

fn header_bytes(protocol: i32) -> Vec<u8> {
    let mut h = vec![0u8; HEADER_SIZE];
    h[..8].copy_from_slice(b"HL2DEMO\0");
    h[8..12].copy_from_slice(&protocol.to_le_bytes());
    h[12..16].copy_from_slice(&24i32.to_le_bytes());
    h[16..22].copy_from_slice(b"server");
    h[276..279].copy_from_slice(b"sun");
    h[536..550].copy_from_slice(b"nt_saitama_ctg");
    h[796..799].copy_from_slice(b"neo");
    h[1056..1060].copy_from_slice(&60.0f32.to_bits().to_le_bytes());
    h[1060..1064].copy_from_slice(&4000i32.to_le_bytes());
    h[1064..1068].copy_from_slice(&3900i32.to_le_bytes());
    h[1068..1072].copy_from_slice(&5i32.to_le_bytes());
    h
}

fn push_frame(out: &mut Vec<u8>, cmd: u8, tick: i32, payload: &[u8]) {
    out.push(cmd);
    out.extend_from_slice(&tick.to_le_bytes());
    match cmd {
        1 | 2 => {
            let mut info = vec![0u8; 76];
            info[4..8].copy_from_slice(&1.5f32.to_bits().to_le_bytes());
            info[20..24].copy_from_slice(&90.0f32.to_bits().to_le_bytes());
            out.extend_from_slice(&info);
            out.extend_from_slice(&[0u8; 8]);
        }
        5 => out.extend_from_slice(&[0u8; 4]),
        _ => {}
    }
    if cmd != 3 && cmd != 7 {
        out.extend_from_slice(&(payload.len() as i32).to_le_bytes());
        out.extend_from_slice(payload);
    }
}

fn usercmd_payload() -> Vec<u8> {
    let mut w = BitWriter::default();
    w.write_bit(false); // command number
    w.write_bit(false); // tick count
    w.write_bit(true);
    w.write_bits(10.0f32.to_bits(), 32); // pitch
    w.write_bit(false); // yaw
    w.write_bit(false); // roll
    w.write_bit(false); // forward
    w.write_bit(false); // side
    w.write_bit(false); // up
    w.write_bit(true);
    w.write_bits(1, 32); // buttons: attack
    w.write_bit(false); // impulse
    w.write_bit(true);
    w.write_bits(33, 11); // weapon switch
    w.write_bit(false); // no subtype
    w.write_bit(false); // mousedx
    w.write_bit(true);
    w.write_bits(0xFFFF, 16); // mousedy -1
    w.bytes
}

fn demo() -> Vec<u8> {
    let mut d = header_bytes(3);
    push_frame(&mut d, 4, 10, b"  say hi  \0junk");
    push_frame(&mut d, 4, 11, b"   \0");
    push_frame(&mut d, 5, 12, &usercmd_payload());
    push_frame(&mut d, 5, 13, &[0x01]); // cut short
    push_frame(&mut d, 2, 14, &[]);
    push_frame(&mut d, 3, 15, &[]);
    push_frame(&mut d, 2, 16, &[]);
    push_frame(&mut d, 7, 17, &[]);
    push_frame(&mut d, 4, 18, b"after stop\0");
    d
}

#[test]
fn header_fields_and_errors() {
    let data = demo();
    let h = DemoHeader::parse(&data).unwrap();
    assert_eq!((h.demo_protocol, h.network_protocol), (3, 24));
    assert_eq!(h.server_name, "server");
    assert_eq!(h.client_name, "sun");
    assert_eq!(h.map_name, "nt_saitama_ctg");
    assert_eq!(h.game_directory, "neo");
    assert_eq!(f32::from_bits(h.playback_seconds_bits), 60.0);
    assert_eq!((h.playback_ticks, h.playback_frames, h.signon_length), (4000, 3900, 5));
    assert_eq!(DemoHeader::parse(&data[..100]).err(), Some(HeaderError::TooSmall(100)));
    let mut bad = data.clone();
    bad[0] = b'X';
    assert_eq!(DemoHeader::parse(&bad).err(), Some(HeaderError::BadMagic));
    assert_eq!(DemoHeader::parse(&header_bytes(4)).err(), Some(HeaderError::UnsupportedProtocol(4)));
}

#[test]
fn frames_walk_and_stop() {
    let data = demo();
    let mut it = FrameIter::new(&data, HEADER_SIZE);
    let mut kinds = Vec::new();
    while let Some(f) = it.next() {
        let f = f.unwrap();
        assert!(f.payload.start <= f.payload.end && f.payload.end <= data.len());
        kinds.push((f.kind, f.tick));
    }
    assert_eq!(
        kinds,
        vec![
            (FrameKind::ConsoleCmd, 10),
            (FrameKind::ConsoleCmd, 11),
            (FrameKind::UserCmd, 12),
            (FrameKind::UserCmd, 13),
            (FrameKind::Packet, 14),
            (FrameKind::SyncTick, 15),
            (FrameKind::Packet, 16),
            (FrameKind::Stop, 17),
        ]
    );
    assert!(it.next().is_none());
}

#[test]
fn truncated_and_unknown_frames() {
    let mut d = header_bytes(3);
    push_frame(&mut d, 4, 1, b"ok\0");
    d.extend_from_slice(&[4, 2, 0, 0, 0, 9, 0, 0, 0, b'x']); // wants 9 bytes, has 1
    let mut it = FrameIter::new(&d, HEADER_SIZE);
    assert!(it.next().unwrap().is_ok());
    let off = HEADER_SIZE + 5 + 4 + 3 + 5 + 4;
    assert_eq!(it.next().unwrap().err(), Some(FrameError::Truncated { wanted: 9, offset: off }));
    assert!(it.next().is_none());

    let mut d = header_bytes(3);
    d.extend_from_slice(&[9, 0, 0, 0, 0]);
    let mut it = FrameIter::new(&d, HEADER_SIZE);
    assert_eq!(it.next().unwrap().err(), Some(FrameError::UnknownCommand { command: 9, offset: HEADER_SIZE }));

    // a missing final frame header is a clean end
    let mut d = header_bytes(3);
    d.extend_from_slice(&[2, 0, 0]);
    let mut it = FrameIter::new(&d, HEADER_SIZE);
    assert!(it.next().is_none());
}

fn extractors() -> Extractors {
    Extractors {
        announcements: Announcements::new(compile_patterns(&[]).unwrap(), false),
        pov: PovSampler::new(1),
        console: ConsoleCmds::new(),
        inputs: RecorderInputs::new(),
        net: NetPass::new(),
    }
}

#[test]
fn walk_feeds_every_extractor_until_stop() {
    let data = demo();
    let h = DemoHeader::parse(&data).unwrap();
    let ctx = DemoContext { data: &data, header: &h, threads: 1 };
    let mut ex = extractors();
    assert_eq!(walk_frames(&ctx, &mut ex), None);
    assert_eq!(ex.console.cmds().len(), 1);
    assert_eq!(ex.console.cmds()[0], (10, "say hi".to_string()));
    assert_eq!(ex.inputs.cmds.len(), 1);
    assert_eq!(ex.inputs.decode_errors(), 1);
    let (tick, cmd) = ex.inputs.cmds[0];
    assert_eq!(tick, 12);
    assert_eq!(f32::from_bits(cmd.viewangles[0]), 10.0);
    assert_eq!((cmd.viewangles[1], cmd.forwardmove, cmd.buttons), (0, 0, 1));
    assert_eq!((cmd.impulse, cmd.weaponselect, cmd.mousedx, cmd.mousedy), (0, Some(33), 0, -1));
    assert_eq!(ex.announcements.packets().len(), 2);
    assert_eq!(ex.announcements.packets()[0].0, 14);
    let samples = ex.pov.samples();
    assert_eq!(samples.len(), 2);
    assert_eq!((samples[0].0, samples[1].0), (14, 16));
    assert_eq!(f32::from_bits(samples[0].1.origin[0]), 1.5);
    assert_eq!(f32::from_bits(samples[0].1.angles[1]), 90.0);
    assert_eq!(ex.net.warnings(), 0);
}

#[test]
fn walk_reports_a_truncated_demo() {
    let mut data = header_bytes(3);
    push_frame(&mut data, 4, 1, b"first\0");
    data.extend_from_slice(&[4, 2, 0, 0, 0, 50, 0, 0, 0]);
    let h = DemoHeader::parse(&data).unwrap();
    let ctx = DemoContext { data: &data, header: &h, threads: 1 };
    let mut ex = extractors();
    let off = HEADER_SIZE + 5 + 4 + 6 + 5 + 4;
    assert_eq!(walk_frames(&ctx, &mut ex), Some(FrameError::Truncated { wanted: 50, offset: off }));
    assert_eq!(ex.console.cmds().len(), 1);
}

#[test]
fn pov_thinning_keeps_every_nth_view() {
    let view = ViewInfo { origin: [0, 0, 0], angles: [0, 0, 0] };
    let mut p = PovSampler::new(3);
    for tick in 0..7 {
        let f = Frame { kind: FrameKind::Packet, tick, view: Some(view), payload: ByteRange { start: 0, end: 0 } };
        p.on_frame(&f);
        let other = Frame { kind: FrameKind::Signon, ..f };
        p.on_frame(&other);
    }
    let ticks: Vec<i32> = p.samples().iter().map(|s| s.0).collect();
    assert_eq!(ticks, vec![0, 3, 6]);
    let mut all = PovSampler::new(0); // 0 counts as 1
    let f = Frame { kind: FrameKind::Packet, tick: 5, view: Some(view), payload: ByteRange { start: 0, end: 0 } };
    all.on_frame(&f);
    all.on_frame(&f);
    assert_eq!(all.samples().len(), 2);
    let no_view = Frame { view: None, ..f };
    all.on_frame(&no_view);
    assert_eq!(all.samples().len(), 2);
}

#[test]
fn log_labels() {
    assert_eq!(log_label(LogLevel::Warning, false), "warning");
    assert_eq!(log_label(LogLevel::Error, false), "error");
    assert_eq!(log_label(LogLevel::Warning, true), "\x1b[33mwarning\x1b[0m");
    assert_eq!(log_label(LogLevel::Error, true), "\x1b[31merror\x1b[0m");
}

fn view_frame(kind: FrameKind, tick: i32, x: u32) -> Frame {
    let view = ViewInfo { origin: [x, 0, 0], angles: [0, 0, 0] };
    Frame { kind, tick, view: Some(view), payload: ByteRange { start: 0, end: 0 } }
}

#[test]
fn pov_keeps_every_nth_packet_view() {
    let mut s = PovSampler::new(3);
    let mut frames = Vec::new();
    for i in 0..8 {
        frames.push(view_frame(FrameKind::Packet, 10 * i, i as u32));
        frames.push(view_frame(FrameKind::Signon, 10 * i + 1, 100));
        frames.push(Frame { view: None, ..view_frame(FrameKind::Packet, 10 * i + 2, 200) });
    }
    for f in &frames {
        s.on_frame(f);
    }
    let got: Vec<(i32, u32)> = s.samples().iter().map(|(t, v)| (*t, v.origin[0])).collect();
    assert_eq!(got, vec![(0, 0), (30, 3), (60, 6)]);
    let mut all = PovSampler::new(0);
    for f in &frames {
        all.on_frame(f);
    }
    assert_eq!(all.samples().len(), 8);
}
