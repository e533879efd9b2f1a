use ntre_demo_dumper::extract::announcements::Announcement;
use ntre_demo_dumper::extract::rounds::{end_from_groups, rounds_from, start_from_groups, RoundEnd, RoundResult};

fn ann(tick: i32, text: &str) -> Announcement {
    Announcement { tick, text: text.to_string() }
}

fn res(tick: i32, team: &str, message: &str) -> RoundResult {
    RoundResult { tick, team: team.to_string(), message: message.to_string() }
}

#[test]
fn results_supply_winners_including_ties() {
    let anns = [
        ann(2, "- CTG ROUND 1 STARTED -"),
        ann(100, "- CTG ROUND 2 STARTED -"),
        ann(200, "- CTG ROUND 3 STARTED -"),
    ];
    let results = [res(90, "tie", "TIE"), res(190, "nsf", "Team NSF wins by capturing the ghost!")];
    let rounds = ntre_demo_dumper::extract::rounds::derive(&anns, &results);
    assert_eq!(rounds.len(), 3);
    assert_eq!(
        (rounds[0].number, rounds[0].end_tick, rounds[0].winner.as_deref(), rounds[0].reason.as_deref()),
        (Some(1), Some(90), Some("Tie"), Some("tie"))
    );
    assert_eq!(
        (rounds[1].winner.as_deref(), rounds[1].reason.as_deref()),
        (Some("NSF"), Some("by capturing the ghost"))
    );
    assert_eq!((rounds[2].number, rounds[2].end_tick), (Some(3), None));
}

#[test]
fn aborted_round_stays_open_when_restarted() {
    let anns = [ann(2, "- CTG ROUND 9 STARTED -"), ann(50, "- CTG ROUND 9 STARTED -")];
    let results = [res(120, "jinrai", "Team Jinrai wins by eliminating the other team!")];
    let rounds = ntre_demo_dumper::extract::rounds::derive(&anns, &results);
    assert_eq!(rounds.len(), 2);
    assert_eq!(
        (rounds[0].start_tick, rounds[0].end_tick, rounds[0].winner.as_deref()),
        (Some(2), None, None)
    );
    assert_eq!(
        (rounds[1].start_tick, rounds[1].end_tick, rounds[1].winner.as_deref()),
        (Some(50), Some(120), Some("Jinrai"))
    );
}

#[test]
fn falls_back_to_win_announcements() {
    let anns = [
        ann(10, "Team NSF wins the match!"),
        ann(20, "- CTG ROUND 4 STARTED -"),
        ann(90, "Team Jinrai wins by numbers!"),
    ];
    let rounds = ntre_demo_dumper::extract::rounds::derive(&anns, &[]);
    assert_eq!(rounds.len(), 2);
    assert_eq!(
        (rounds[0].number, rounds[0].winner.as_deref(), rounds[0].reason.as_deref()),
        (Some(3), Some("NSF"), Some("the match"))
    );
    assert_eq!((rounds[1].number, rounds[1].winner.as_deref()), (Some(4), Some("Jinrai")));
}

#[test]
fn no_announcements_no_rounds() {
    assert!(ntre_demo_dumper::extract::rounds::derive(&[], &[]).is_empty());
}

#[test]
fn groups_give_round_starts_and_ends() {
    let s = |v: &str| Some(v.to_string());
    assert_eq!(start_from_groups(30, &vec![s("ROUND 4 STARTED"), s("4")]), Some((30, Some(4))));
    assert_eq!(start_from_groups(31, &vec![s("ROUND 4x STARTED"), s("4x")]), Some((31, None)));
    assert_eq!(start_from_groups(32, &vec![s("ROUND")]), None);
    let e = end_from_groups(80, &vec![s("Team NSF wins by ghost!"), s("NSF"), s(" by ghost ")]).unwrap();
    assert_eq!((e.tick, e.winner.as_str(), e.reason.as_deref()), (80, "NSF", Some("by ghost")));
    let e = end_from_groups(81, &vec![s("Team jinrai wins!"), s("jinrai"), None]).unwrap();
    assert_eq!((e.tick, e.winner.as_str(), e.reason), (81, "jinrai", None));
    assert!(end_from_groups(82, &vec![s("x"), None]).is_none());
}

#[test]
fn rounds_pair_ordered_ends_with_starts() {
    let end = |tick: i32, w: &str, r: Option<&str>| RoundEnd {
        tick,
        winner: w.to_string(),
        reason: r.map(|x| x.to_string()),
    };
    let starts = vec![(10, Some(1)), (100, None), (200, Some(7))];
    let rounds = rounds_from(&starts, vec![end(150, "NSF", None), end(90, "Jinrai", Some("x"))]);
    let got: Vec<_> = rounds
        .iter()
        .map(|r| (r.number, r.start_tick, r.end_tick, r.winner.as_deref(), r.reason.as_deref()))
        .collect();
    assert_eq!(
        got,
        vec![
            (Some(1), Some(10), Some(90), Some("Jinrai"), Some("x")),
            (Some(6), Some(100), Some(150), Some("NSF"), None),
            (Some(7), Some(200), None, None, None),
        ]
    );
    let early = rounds_from(&vec![(50, Some(3))], vec![end(20, "NSF", None)]);
    assert_eq!(early.len(), 2);
    assert_eq!((early[0].number, early[0].start_tick, early[0].end_tick), (Some(2), None, Some(20)));
    assert_eq!((early[1].number, early[1].start_tick), (Some(3), Some(50)));
}
