use ntre_demo_dumper::demo::frames::{ByteRange, Frame, FrameKind};
use ntre_demo_dumper::extract::announcements::{compile_patterns, dedup, finish, Announcement, Announcements};
use ntre_demo_dumper::pattern::Pattern;
use ntre_demo_dumper::sort::sort_by_tick;

fn ann(tick: i32, text: &str) -> Announcement {
    Announcement { tick, text: text.to_string() }
}

#[test]
fn patterns_compile_or_name_the_bad_one() {
    assert_eq!(compile_patterns(&[]).unwrap().len(), 4);
    let extra = vec!["GHOST (\\w+)".to_string()];
    let ps = compile_patterns(&extra).unwrap();
    assert_eq!(ps.len(), 5);
    assert_eq!(ps[4].as_str(), "GHOST (\\w+)");
    let bad = vec!["ok".to_string(), "(".to_string(), "[".to_string()];
    assert_eq!(compile_patterns(&bad).err().unwrap().pattern, "(");
}

#[test]
fn patterns_keep_only_their_matches() {
    let p = Pattern::new("Team (\\w+) wins").unwrap();
    assert_eq!(p.as_str(), "Team (\\w+) wins");
    assert!(Pattern::new("(").is_err());
    let a = Announcements::new(vec![p], false);
    let payload = b"\0xx Team NSF wins!\0";
    let found = a.matches_in(payload, 7);
    assert_eq!(found.len(), 1);
    assert_eq!((found[0].tick, found[0].text.as_str()), (7, "Team NSF wins"));
    let everything = Announcements::new(Vec::new(), true);
    let found = everything.matches_in(payload, 8);
    assert_eq!(found.len(), 1);
    assert_eq!(found[0].text, "xx Team NSF wins!");
    assert!(a.matches_in(b"\0nothing to see\0", 9).is_empty());
}

#[test]
fn dedup_drops_resends_within_window() {
    let anns = vec![ann(10, "A"), ann(12, "A"), ann(40, "A"), ann(41, "B"), ann(45, "A")];
    let kept = dedup(anns, 10);
    let got: Vec<(i32, &str)> = kept.iter().map(|a| (a.tick, a.text.as_str())).collect();
    assert_eq!(got, vec![(10, "A"), (40, "A"), (41, "B"), (45, "A")]);
}

#[test]
fn sort_is_stable_by_tick() {
    let anns = vec![ann(5, "x"), ann(1, "a"), ann(5, "y"), ann(3, "b"), ann(1, "c")];
    let sorted = sort_by_tick(anns);
    let got: Vec<(i32, &str)> = sorted.iter().map(|a| (a.tick, a.text.as_str())).collect();
    assert_eq!(got, vec![(1, "a"), (1, "c"), (3, "b"), (5, "x"), (5, "y")]);
}

#[test]
fn collects_announcements_from_packets() {
    let msg = b"\0junk- CTG ROUND 2 STARTED -\0";
    let mut data = vec![0u8; 3];
    data.extend_from_slice(msg);
    let mut a = Announcements::new(compile_patterns(&[]).unwrap(), false);
    let f = Frame { kind: FrameKind::Packet, tick: 99, view: None, payload: ByteRange { start: 3, end: data.len() } };
    a.on_frame(&f);
    a.on_frame(&Frame { kind: FrameKind::Signon, ..f });
    assert_eq!(a.packets().len(), 1);
    let found = a.collect(&data);
    let found = finish(found, 10);
    assert!(found.iter().any(|x| x.tick == 99 && x.text == "- CTG ROUND 2 STARTED -"));
}

#[test]
fn split_skim_matches_whole_collect() {
    let msgs: [&[u8]; 4] = [
        b"\0ab- CTG ROUND 1 STARTED -\0",
        b"\0Team NSF wins!\0zz",
        b"\0Team NSF wins!\0",
        b"\0- CTG ROUND 2 STARTED -xx\0",
    ];
    let mut data = Vec::new();
    let mut a = Announcements::new(compile_patterns(&[]).unwrap(), false);
    let ticks = [40, 10, 12, 30];
    for (m, t) in msgs.iter().zip(ticks) {
        let start = data.len();
        data.extend_from_slice(m);
        a.on_frame(&Frame { kind: FrameKind::Packet, tick: t, view: None, payload: ByteRange { start, end: data.len() } });
    }
    let whole = finish(a.collect(&data), 10);
    let whole: Vec<(i32, String)> = whole.into_iter().map(|x| (x.tick, x.text)).collect();
    assert_eq!(
        whole,
        vec![
            (10, "Team NSF wins!".to_string()),
            (30, "- CTG ROUND 2 STARTED -".to_string()),
            (40, "- CTG ROUND 1 STARTED -".to_string()),
        ]
    );
    for size in 1..=4 {
        let mut found = Vec::new();
        for chunk in a.packets().chunks(size) {
            for (tick, r) in chunk {
                found.extend(a.matches_in(&data[r.start..r.end], *tick));
            }
        }
        let split: Vec<(i32, String)> = finish(found, 10).into_iter().map(|x| (x.tick, x.text)).collect();
        assert_eq!(split, whole);
    }
}
