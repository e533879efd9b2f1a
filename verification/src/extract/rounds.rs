//! Round reconstruction from start markers and round ends.
//!
//! Pairs "ROUND N STARTED" announcements with round ends. Ends come from
//! the server's RoundResult user message when the demo carries it (it
//! names the winner, and "tie" for stalemates, which no on-screen text
//! announces); otherwise from "Team X wins ..." announcements. Handles
//! demos that begin mid-round (first round has no start marker) or end
//! mid-round (last round has no end).

use vstd::prelude::*;
use crate::extract::announcements::{Announcement, anns_view};
use crate::pattern::{Pattern, captures, regex_captures, regex_compiles};
use crate::sort::{Ticked, lemma_sort_map, sort_by_tick, stable_sort};
use crate::text::{lowercase, owned, parse_i32, spec_parse_i32, str_eq, to_lowercase, trim, trimmed};

verus! {

/// A round result reported by the server.
#[derive(Debug)]
pub struct RoundResult {
    pub tick: i32,
    /// `jinrai`, `nsf` or `tie`.
    pub team: String,
    pub message: String,
}

#[derive(Debug)]
pub struct Round {
    pub number: Option<i32>,
    pub start_tick: Option<i32>,
    pub end_tick: Option<i32>,
    pub winner: Option<String>,
    pub reason: Option<String>,
}

/// A round as values.
pub struct RoundView {
    pub number: Option<i32>,
    pub start_tick: Option<i32>,
    pub end_tick: Option<i32>,
    pub winner: Option<Seq<char>>,
    pub reason: Option<Seq<char>>,
}

pub open spec fn opt_text(o: Option<String>) -> Option<Seq<char>> {
    match o {
        Some(s) => Some(s@),
        None => None,
    }
}

impl View for Round {
    type V = RoundView;

    open spec fn view(&self) -> RoundView {
        RoundView {
            number: self.number,
            start_tick: self.start_tick,
            end_tick: self.end_tick,
            winner: opt_text(self.winner),
            reason: opt_text(self.reason),
        }
    }
}

impl Round {
    fn unstarted() -> (r: Self)
        ensures
            r@ == unstarted_view(),
    {
        Round { number: None, start_tick: None, end_tick: None, winner: None, reason: None }
    }
}

pub open spec fn unstarted_view() -> RoundView {
    RoundView { number: None, start_tick: None, end_tick: None, winner: None, reason: None }
}

/// A round end from either source, normalized.
pub struct RoundEnd {
    pub tick: i32,
    pub winner: String,
    pub reason: Option<String>,
}

/// A round end as values.
pub struct EndView {
    pub tick: i32,
    pub winner: Seq<char>,
    pub reason: Option<Seq<char>>,
}

impl View for RoundEnd {
    type V = EndView;

    open spec fn view(&self) -> EndView {
        EndView { tick: self.tick, winner: self.winner@, reason: opt_text(self.reason) }
    }
}

impl Ticked for RoundEnd {
    open spec fn key(&self) -> int {
        self.tick as int
    }

    fn tick(&self) -> (t: i32) {
        self.tick
    }
}

impl Ticked for EndView {
    open spec fn key(&self) -> int {
        self.tick as int
    }

    fn tick(&self) -> (t: i32) {
        self.tick
    }
}

/// Pattern of a round start marker; group 1 is the round number.
pub open spec fn start_source() -> Seq<char> {
    "ROUND (\\d+) STARTED"@
}

/// Pattern of a win message; group 1 is the team, group 2 the reason.
pub open spec fn win_source() -> Seq<char> {
    "Team (\\w+) wins( [a-z ]*)?!"@
}

/// The capture groups of `source` in `text` (nothing if the pattern does
/// not compile).
pub open spec fn caps(source: Seq<char>, text: Seq<char>) -> Option<Seq<Option<Seq<char>>>> {
    if regex_compiles(source) {
        regex_captures(source, text)
    } else {
        None
    }
}

/// Group `i` of a match, if it participated.
pub open spec fn group(c: Seq<Option<Seq<char>>>, i: int) -> Option<Seq<char>> {
    if 0 <= i < c.len() {
        c[i]
    } else {
        None
    }
}

pub open spec fn trim_opt(o: Option<Seq<char>>) -> Option<Seq<char>> {
    match o {
        Some(s) => Some(trim(s)),
        None => None,
    }
}

/// The round end that the groups of a win-pattern match at `tick` give:
/// group 1 is the winning team, group 2 (trimmed) the reason.
pub open spec fn end_of_groups(tick: i32, c: Seq<Option<Seq<char>>>) -> Option<EndView> {
    match group(c, 1) {
        Some(w) => Some(EndView { tick, winner: w, reason: trim_opt(group(c, 2)) }),
        None => None,
    }
}

/// The round end a "Team X wins ..." announcement gives.
pub open spec fn win_end(a: (i32, Seq<char>)) -> Option<EndView> {
    match caps(win_source(), a.1) {
        Some(c) => end_of_groups(a.0, c),
        None => None,
    }
}

/// The ends given by win announcements, in announcement order.
pub open spec fn win_ends(anns: Seq<(i32, Seq<char>)>) -> Seq<EndView>
    decreases anns.len(),
{
    if anns.len() == 0 {
        Seq::empty()
    } else {
        win_ends(anns.drop_last()) + match win_end(anns.last()) {
            Some(e) => seq![e],
            None => Seq::empty(),
        }
    }
}

/// A server team name as shown: `Jinrai`, `NSF`, `Tie`, others as sent.
pub open spec fn team_winner(team: Seq<char>) -> Seq<char> {
    if team == "jinrai"@ {
        "Jinrai"@
    } else if team == "nsf"@ {
        "NSF"@
    } else if team == "tie"@ {
        "Tie"@
    } else {
        team
    }
}

/// A round result as values.
pub open spec fn result_view(r: RoundResult) -> (i32, Seq<char>, Seq<char>) {
    (r.tick, r.team@, r.message@)
}

/// The round end a server result gives; the reason comes from the
/// message's "wins ..." part, else the message lowercased (none if empty).
pub open spec fn result_end(r: (i32, Seq<char>, Seq<char>)) -> EndView {
    EndView {
        tick: r.0,
        winner: team_winner(r.1),
        reason: match caps(win_source(), r.2) {
            Some(c) => trim_opt(group(c, 2)),
            None => if r.2.len() == 0 {
                None
            } else {
                Some(lowercase(r.2))
            },
        },
    }
}

/// The round ends, before ordering: from the results when there are any,
/// else from the win announcements.
pub open spec fn spec_ends(anns: Seq<(i32, Seq<char>)>, results: Seq<(i32, Seq<char>, Seq<char>)>) -> Seq<EndView> {
    if results.len() == 0 {
        win_ends(anns)
    } else {
        results.map_values(|r: (i32, Seq<char>, Seq<char>)| result_end(r))
    }
}

/// When the server's round results are present they alone give the round
/// ends, one per result, in result order, with the result's tick and its
/// team as shown; win announcements then add nothing, so two announcement
/// lists with the same round starts give the same rounds.
pub proof fn lemma_results_give_the_ends(
    anns: Seq<(i32, Seq<char>)>,
    other: Seq<(i32, Seq<char>)>,
    results: Seq<(i32, Seq<char>, Seq<char>)>,
)
    requires
        results.len() > 0,
    ensures
        spec_ends(anns, results).len() == results.len(),
        forall|i: int|
            0 <= i < results.len() ==> (#[trigger] spec_ends(anns, results)[i]).tick == results[i].0
                && spec_ends(anns, results)[i].winner == team_winner(results[i].1),
        spec_ends(anns, results) == spec_ends(other, results),
        spec_starts(anns) == spec_starts(other) ==> spec_derive(anns, results) == spec_derive(other, results),
{
}

/// Without round results the ends come from the win announcements alone,
/// so announcements that are not wins do not change them.
pub proof fn lemma_no_results_wins_give_the_ends(anns: Seq<(i32, Seq<char>)>)
    ensures
        spec_ends(anns, Seq::empty()) == win_ends(anns),
        (forall|i: int| 0 <= i < anns.len() ==> win_end(#[trigger] anns[i]) is None) ==> spec_ends(
            anns,
            Seq::empty(),
        ).len() == 0,
    decreases anns.len(),
{
    if anns.len() > 0 {
        lemma_no_results_wins_give_the_ends(anns.drop_last());
        if forall|i: int| 0 <= i < anns.len() ==> win_end(#[trigger] anns[i]) is None {
            assert forall|i: int| 0 <= i < anns.drop_last().len() implies win_end(#[trigger] anns.drop_last()[i]) is None by {
                assert(anns.drop_last()[i] == anns[i]);
            }
            assert(win_end(anns[anns.len() - 1]) is None);
        }
    }
}

/// The round start that the groups of a start-pattern match at `tick`
/// give: the tick and the number in group 1, if it parses.
pub open spec fn start_of_groups(tick: i32, c: Seq<Option<Seq<char>>>) -> Option<(i32, Option<i32>)> {
    match group(c, 1) {
        Some(d) => Some((tick, spec_parse_i32(d))),
        None => None,
    }
}

/// The round start a "ROUND N STARTED" announcement gives: its tick and
/// the number, if it parses.
pub open spec fn start_of(a: (i32, Seq<char>)) -> Option<(i32, Option<i32>)> {
    match caps(start_source(), a.1) {
        Some(c) => start_of_groups(a.0, c),
        None => None,
    }
}

/// The rounds that the starts and ends give: the ends ordered by tick,
/// merged with the starts by [`pair`], then numbered by [`renumber`].
pub open spec fn rounds_of(starts: Seq<(i32, Option<i32>)>, ends: Seq<EndView>) -> Seq<RoundView> {
    renumber(pair(starts, stable_sort(ends), None))
}

/// The round starts, in announcement order.
pub open spec fn spec_starts(anns: Seq<(i32, Seq<char>)>) -> Seq<(i32, Option<i32>)>
    decreases anns.len(),
{
    if anns.len() == 0 {
        Seq::empty()
    } else {
        spec_starts(anns.drop_last()) + match start_of(anns.last()) {
            Some(s) => seq![s],
            None => Seq::empty(),
        }
    }
}

/// The open round (if any) closed by `e`; an end with no open round
/// closes a round whose start was not seen.
pub open spec fn closed(open: Option<RoundView>, e: EndView) -> RoundView {
    let r = match open {
        Some(r) => r,
        None => unstarted_view(),
    };
    RoundView { end_tick: Some(e.tick), winner: Some(e.winner), reason: e.reason, ..r }
}

pub open spec fn opt_seq(o: Option<RoundView>) -> Seq<RoundView> {
    match o {
        Some(r) => seq![r],
        None => Seq::empty(),
    }
}

/// Starts and (tick-ordered) ends merged in tick order, an end going
/// first only when strictly earlier: a start leaves any open round
/// unfinished and opens a new one, an end closes the open round.
pub open spec fn pair(starts: Seq<(i32, Option<i32>)>, ends: Seq<EndView>, open: Option<RoundView>) -> Seq<RoundView>
    decreases starts.len() + ends.len(),
{
    if starts.len() > 0 && (ends.len() == 0 || ends[0].tick >= starts[0].0) {
        opt_seq(open) + pair(
            starts.drop_first(),
            ends,
            Some(RoundView { number: starts[0].1, start_tick: Some(starts[0].0), ..unstarted_view() }),
        )
    } else if ends.len() > 0 {
        seq![closed(open, ends[0])] + pair(starts, ends.drop_first(), None)
    } else {
        opt_seq(open)
    }
}

/// The number a round without one gets: one less than the next round's
/// (a round that ended before the first start marker is the one prior
/// to it), else its 1-based position.
pub open spec fn fill_number(rs: Seq<RoundView>, i: int) -> i32 {
    if i + 1 < rs.len() && rs[i + 1].number is Some && rs[i + 1].number.unwrap() > i32::MIN {
        (rs[i + 1].number.unwrap() - 1) as i32
    } else {
        (i + 1) as i32
    }
}

pub open spec fn renumber(rs: Seq<RoundView>) -> Seq<RoundView> {
    Seq::new(
        rs.len(),
        |i: int| if rs[i].number is Some { rs[i] } else { RoundView { number: Some(fill_number(rs, i)), ..rs[i] } },
    )
}

/// The rounds of a demo.
pub open spec fn spec_derive(anns: Seq<(i32, Seq<char>)>, results: Seq<(i32, Seq<char>, Seq<char>)>) -> Seq<RoundView> {
    rounds_of(spec_starts(anns), spec_ends(anns, results))
}

pub open spec fn rounds_view(rs: Seq<Round>) -> Seq<RoundView> {
    rs.map_values(|r: Round| r@)
}

pub open spec fn results_view(rs: Seq<RoundResult>) -> Seq<(i32, Seq<char>, Seq<char>)> {
    rs.map_values(|r: RoundResult| result_view(r))
}

/// The capture groups of `source` in `text`, with `re` the compiled
/// `source` (absent when it does not compile).
fn caps_of(re: &Option<Pattern>, Ghost(source): Ghost<Seq<char>>, text: &str) -> (r: Option<Vec<Option<String>>>)
    requires
        re is Some <==> regex_compiles(source),
        re matches Some(p) ==> p.source() == source,
    ensures
        r.deep_view() == caps(source, text@),
{
    match re {
        Some(p) => captures(p, text),
        None => None,
    }
}

/// Group `i` of a match, if it participated.
fn group_of(c: &Vec<Option<String>>, i: usize) -> (r: Option<String>)
    ensures
        r.deep_view() == group(c.deep_view(), i as int),
{
    if i < c.len() {
        match &c[i] {
            Some(s) => Some(s.clone()),
            None => None,
        }
    } else {
        None
    }
}

fn trim_opt_exec(o: Option<String>) -> (r: Option<String>)
    ensures
        r.deep_view() == trim_opt(o.deep_view()),
{
    match o {
        Some(s) => Some(trimmed(s.as_str())),
        None => None,
    }
}

fn compile_or_none(source: &str) -> (r: Option<Pattern>)
    ensures
        r is Some <==> regex_compiles(source@),
        r matches Some(p) ==> p.source() == source@,
{
    match Pattern::new(source) {
        Ok(p) => Some(p),
        Err(_) => None,
    }
}

/// Round ends as values.
pub open spec fn ends_view(s: Seq<RoundEnd>) -> Seq<EndView> {
    s.map_values(|e: RoundEnd| e@)
}

fn team_winner_exec(team: &str) -> (r: String)
    ensures
        r@ == team_winner(team@),
{
    if str_eq(team, "jinrai") {
        owned("Jinrai")
    } else if str_eq(team, "nsf") {
        owned("NSF")
    } else if str_eq(team, "tie") {
        owned("Tie")
    } else {
        owned(team)
    }
}

/// The round end that the groups of a win-pattern match at `tick` give:
/// group 1 names the winning team, group 2 (trimmed) the reason.
pub fn end_from_groups(tick: i32, c: &Vec<Option<String>>) -> (r: Option<RoundEnd>)
    ensures
        match end_of_groups(tick, c.deep_view()) {
            Some(e) => r matches Some(x) && x@ == e,
            None => r is None,
        },
{
    match group_of(c, 1) {
        Some(w) => {
            let reason = trim_opt_exec(group_of(c, 2));
            Some(RoundEnd { tick, winner: w, reason })
        },
        None => None,
    }
}

/// The round start that the groups of a start-pattern match at `tick`
/// give: the tick and the round number in group 1, if it parses.
pub fn start_from_groups(tick: i32, c: &Vec<Option<String>>) -> (r: Option<(i32, Option<i32>)>)
    ensures
        r == start_of_groups(tick, c.deep_view()),
{
    match group_of(c, 1) {
        Some(d) => Some((tick, parse_i32(d.as_str()))),
        None => None,
    }
}

fn collect_ends(announcements: &[Announcement], results: &[RoundResult], win_re: &Option<Pattern>) -> (ends: Vec<RoundEnd>)
    requires
        win_re is Some <==> regex_compiles(win_source()),
        win_re matches Some(p) ==> p.source() == win_source(),
    ensures
        ends_view(ends@) == spec_ends(anns_view(announcements@), results_view(results@)),
{
    let mut ends: Vec<RoundEnd> = Vec::new();
    if results.len() == 0 {
        let mut i: usize = 0;
        while i < announcements.len()
            invariant
                i <= announcements@.len(),
                win_re is Some <==> regex_compiles(win_source()),
                win_re matches Some(p) ==> p.source() == win_source(),
                ends_view(ends@) == win_ends(anns_view(announcements@.take(i as int))),
            decreases announcements.len() - i,
        {
            let a = &announcements[i];
            let ghost before = ends_view(ends@);
            if let Some(c) = caps_of(win_re, Ghost(win_source()), a.text.as_str()) {
                if let Some(e) = end_from_groups(a.tick, &c) {
                    ends.push(e);
                }
            }
            proof {
                assert(anns_view(announcements@.take(i + 1)).drop_last() =~= anns_view(announcements@.take(i as int)));
                assert(anns_view(announcements@.take(i + 1)).last() == a@);
                assert(ends_view(ends@) =~= before + match win_end(a@) {
                    Some(e) => seq![e],
                    None => Seq::empty(),
                });
            }
            i = i + 1;
        }
        proof {
            assert(announcements@.take(i as int) =~= announcements@);
        }
    } else {
        let mut i: usize = 0;
        while i < results.len()
            invariant
                i <= results@.len(),
                results@.len() > 0,
                win_re is Some <==> regex_compiles(win_source()),
                win_re matches Some(p) ==> p.source() == win_source(),
                ends_view(ends@) == results_view(results@).take(i as int).map_values(
                    |r: (i32, Seq<char>, Seq<char>)| result_end(r),
                ),
            decreases results.len() - i,
        {
            let r = &results[i];
            let winner = team_winner_exec(r.team.as_str());
            let reason = match caps_of(win_re, Ghost(win_source()), r.message.as_str()) {
                Some(c) => trim_opt_exec(group_of(&c, 2)),
                None => if r.message.as_str().is_empty() {
                    None
                } else {
                    Some(to_lowercase(r.message.as_str()))
                },
            };
            let ghost before = ends_view(ends@);
            let e = RoundEnd { tick: r.tick, winner, reason };
            proof {
                assert(results_view(results@)[i as int] == result_view(*r));
                assert(e@.winner == result_end(result_view(*r)).winner);
                assert(e@.reason == result_end(result_view(*r)).reason);
                assert(e@ == result_end(result_view(*r)));
                assert(before == results_view(results@).take(i as int).map_values(
                    |r: (i32, Seq<char>, Seq<char>)| result_end(r),
                ));
            }
            let ghost ev = e@;
            ends.push(e);
            proof {
                assert(ends_view(ends@) =~= before.push(ev));
                assert(results_view(results@).take(i + 1) =~= results_view(results@).take(i as int).push(results_view(results@)[i as int]));
                assert(ends_view(ends@) =~= results_view(results@).take(i + 1).map_values(
                    |r: (i32, Seq<char>, Seq<char>)| result_end(r),
                ));
            }
            i = i + 1;
        }
        proof {
            assert(results_view(results@).take(i as int) =~= results_view(results@));
        }
    }
    ends
}

fn collect_starts(announcements: &[Announcement], start_re: &Option<Pattern>) -> (starts: Vec<(i32, Option<i32>)>)
    requires
        start_re is Some <==> regex_compiles(start_source()),
        start_re matches Some(p) ==> p.source() == start_source(),
    ensures
        starts@ == spec_starts(anns_view(announcements@)),
{
    let mut starts: Vec<(i32, Option<i32>)> = Vec::new();
    let mut i: usize = 0;
    while i < announcements.len()
        invariant
            i <= announcements@.len(),
            start_re is Some <==> regex_compiles(start_source()),
            start_re matches Some(p) ==> p.source() == start_source(),
            starts@ == spec_starts(anns_view(announcements@.take(i as int))),
        decreases announcements.len() - i,
    {
        let a = &announcements[i];
        let ghost before = starts@;
        if let Some(c) = caps_of(start_re, Ghost(start_source()), a.text.as_str()) {
            if let Some(st) = start_from_groups(a.tick, &c) {
                starts.push(st);
            }
        }
        proof {
            assert(anns_view(announcements@.take(i + 1)).drop_last() =~= anns_view(announcements@.take(i as int)));
            assert(anns_view(announcements@.take(i + 1)).last() == a@);
            assert(starts@ =~= before + match start_of(a@) {
                Some(s) => seq![s],
                None => Seq::empty(),
            });
        }
        i = i + 1;
    }
    proof {
        assert(announcements@.take(i as int) =~= announcements@);
    }
    starts
}

fn clone_opt(o: &Option<String>) -> (r: Option<String>)
    ensures
        opt_text(r) == opt_text(*o),
{
    match o {
        Some(s) => Some(s.clone()),
        None => None,
    }
}

/// Close the open round (or a round whose start was not seen) with `e`.
fn close(open: &mut Option<Round>, e: &RoundEnd, rounds: &mut Vec<Round>)
    ensures
        *final(open) is None,
        rounds_view(final(rounds)@) == rounds_view(old(rounds)@).push(
            closed(
                match *old(open) {
                    Some(r) => Some(r@),
                    None => None,
                },
                e@,
            ),
        ),
{
    let r = match open.take() {
        Some(r) => r,
        None => Round::unstarted(),
    };
    let ghost before = rounds_view(rounds@);
    rounds.push(Round {
        number: r.number,
        start_tick: r.start_tick,
        end_tick: Some(e.tick),
        winner: Some(e.winner.clone()),
        reason: clone_opt(&e.reason),
    });
    proof {
        assert(rounds_view(rounds@) =~= before.push(rounds@.last()@));
    }
}

pub open spec fn open_view(o: Option<Round>) -> Option<RoundView> {
    match o {
        Some(r) => Some(r@),
        None => None,
    }
}

/// Merge the starts and the tick-ordered ends into rounds.
fn pair_exec(starts: &Vec<(i32, Option<i32>)>, ends: &Vec<RoundEnd>) -> (rounds: Vec<Round>)
    ensures
        rounds_view(rounds@) == pair(starts@, ends_view(ends@), None),
{
    let mut rounds: Vec<Round> = Vec::new();
    let mut open: Option<Round> = None;
    let mut si: usize = 0;
    let mut ei: usize = 0;
    let ghost es = ends_view(ends@);
    proof {
        assert(starts@.skip(0) =~= starts@);
        assert(es.skip(0) =~= es);
        assert(rounds_view(rounds@) + pair(starts@, es, None) =~= pair(starts@, es, None));
    }
    while si < starts.len()
        invariant
            si <= starts@.len(),
            ei <= ends@.len(),
            es == ends_view(ends@),
            pair(starts@, es, None) == rounds_view(rounds@) + pair(starts@.skip(si as int), es.skip(ei as int), open_view(open)),
        decreases starts.len() - si,
    {
        let (start_tick, number) = starts[si];
        while ei < ends.len() && ends[ei].tick < start_tick
            invariant
                si < starts@.len(),
                ei <= ends@.len(),
                es == ends_view(ends@),
                starts@[si as int] == (start_tick, number),
                pair(starts@, es, None) == rounds_view(rounds@) + pair(starts@.skip(si as int), es.skip(ei as int), open_view(open)),
            decreases ends.len() - ei,
        {
            let ghost before = rounds_view(rounds@);
            let ghost op = open_view(open);
            close(&mut open, &ends[ei], &mut rounds);
            proof {
                assert(es.skip(ei as int)[0] == ends@[ei as int]@);
                assert(es.skip(ei as int).drop_first() =~= es.skip(ei + 1));
                assert(before + (seq![closed(op, ends@[ei as int]@)] + pair(starts@.skip(si as int), es.skip(ei + 1), None))
                    =~= rounds_view(rounds@) + pair(starts@.skip(si as int), es.skip(ei + 1), None));
            }
            ei = ei + 1;
        }
        let ghost before = rounds_view(rounds@);
        let ghost op = open_view(open);
        if let Some(r) = open.take() {
            rounds.push(r);
        }
        open = Some(Round { number, start_tick: Some(start_tick), ..Round::unstarted() });
        proof {
            assert(starts@.skip(si as int)[0] == (start_tick, number));
            assert(starts@.skip(si as int).drop_first() =~= starts@.skip(si + 1));
            assert(rounds_view(rounds@) =~= before + opt_seq(op));
            let nxt = pair(starts@.skip(si + 1), es.skip(ei as int), open_view(open));
            assert(before + (opt_seq(op) + nxt) =~= rounds_view(rounds@) + nxt);
        }
        si = si + 1;
    }
    while ei < ends.len()
        invariant
            si == starts@.len(),
            ei <= ends@.len(),
            es == ends_view(ends@),
            pair(starts@, es, None) == rounds_view(rounds@) + pair(starts@.skip(si as int), es.skip(ei as int), open_view(open)),
        decreases ends.len() - ei,
    {
        let ghost before = rounds_view(rounds@);
        let ghost op = open_view(open);
        close(&mut open, &ends[ei], &mut rounds);
        proof {
            assert(starts@.skip(si as int) =~= Seq::<(i32, Option<i32>)>::empty());
            assert(es.skip(ei as int)[0] == ends@[ei as int]@);
            assert(es.skip(ei as int).drop_first() =~= es.skip(ei + 1));
            assert(before + (seq![closed(op, ends@[ei as int]@)] + pair(starts@.skip(si as int), es.skip(ei + 1), None))
                =~= rounds_view(rounds@) + pair(starts@.skip(si as int), es.skip(ei + 1), None));
        }
        ei = ei + 1;
    }
    let ghost before = rounds_view(rounds@);
    let ghost op = open_view(open);
    if let Some(r) = open {
        rounds.push(r);
    }
    proof {
        assert(starts@.skip(si as int) =~= Seq::<(i32, Option<i32>)>::empty());
        assert(es.skip(ei as int) =~= Seq::<EndView>::empty());
        assert(rounds_view(rounds@) =~= before + opt_seq(op));
    }
    rounds
}

/// Give every round without a number one.
fn renumber_exec(rounds: Vec<Round>) -> (out: Vec<Round>)
    requires
        rounds@.len() < i32::MAX,
    ensures
        rounds_view(out@) == renumber(rounds_view(rounds@)),
{
    let ghost rs = rounds_view(rounds@);
    let mut out: Vec<Round> = Vec::new();
    let mut i: usize = 0;
    while i < rounds.len()
        invariant
            i <= rounds@.len() < i32::MAX,
            rs == rounds_view(rounds@),
            rounds_view(out@) == renumber(rs).take(i as int),
        decreases rounds.len() - i,
    {
        let r = &rounds[i];
        let number = match r.number {
            Some(n) => Some(n),
            None => {
                let fallback = (i + 1) as i32;
                if i + 1 < rounds.len() {
                    match rounds[i + 1].number {
                        Some(next) => match next.checked_sub(1) {
                            Some(m) => Some(m),
                            None => Some(fallback),
                        },
                        None => Some(fallback),
                    }
                } else {
                    Some(fallback)
                }
            },
        };
        let ghost before = rounds_view(out@);
        out.push(Round {
            number,
            start_tick: r.start_tick,
            end_tick: r.end_tick,
            winner: clone_opt(&r.winner),
            reason: clone_opt(&r.reason),
        });
        proof {
            assert(rs[i as int] == r@);
            if i + 1 < rounds@.len() {
                assert(rs[i + 1] == rounds@[i + 1]@);
            }
            assert(out@.last()@ == renumber(rs)[i as int]);
            assert(rounds_view(out@) =~= before.push(out@.last()@));
            assert(renumber(rs).take(i + 1) =~= renumber(rs).take(i as int).push(renumber(rs)[i as int]));
            assert(rounds_view(out@) =~= renumber(rs).take(i + 1));
        }
        i = i + 1;
    }
    proof {
        assert(renumber(rs).take(i as int) =~= renumber(rs));
    }
    out
}

/// The rounds that round starts (tick and number, if known) and round ends
/// give: the ends are ordered by tick, merged with the starts in tick order
/// (an end goes first only when strictly earlier; a start leaves any open
/// round unfinished), and rounds without a number are numbered.
pub fn rounds_from(starts: &Vec<(i32, Option<i32>)>, ends: Vec<RoundEnd>) -> (rounds: Vec<Round>)
    requires
        starts@.len() + ends@.len() < i32::MAX,
    ensures
        rounds_view(rounds@) == rounds_of(starts@, ends_view(ends@)),
{
    let ghost unsorted = ends@;
    let ends = sort_by_tick(ends);
    proof {
        lemma_sort_map(unsorted, |e: RoundEnd| e@);
    }
    let rounds = pair_exec(starts, &ends);
    proof {
        lemma_pair_len(starts@, ends_view(ends@), None);
        assert(rounds_view(rounds@).len() == rounds@.len());
        crate::sort::lemma_sort_len(unsorted);
        assert(ends_view(ends@).len() == ends@.len());
    }
    renumber_exec(rounds)
}

/// The rounds of a demo, from its announcements and the server's round
/// results (the win announcements give the ends only when there are no
/// results).
pub fn derive(announcements: &[Announcement], results: &[RoundResult]) -> (rounds: Vec<Round>)
    requires
        2 * announcements@.len() + results@.len() < i32::MAX,
    ensures
        rounds_view(rounds@) == spec_derive(anns_view(announcements@), results_view(results@)),
{
    let start_re = compile_or_none("ROUND (\\d+) STARTED");
    let win_re = compile_or_none("Team (\\w+) wins( [a-z ]*)?!");
    let ends = collect_ends(announcements, results, &win_re);
    let starts = collect_starts(announcements, &start_re);
    proof {
        lemma_starts_len(anns_view(announcements@));
        lemma_ends_len(anns_view(announcements@), results_view(results@));
        assert(ends_view(ends@).len() == ends@.len());
    }
    rounds_from(&starts, ends)
}

proof fn lemma_pair_len(starts: Seq<(i32, Option<i32>)>, ends: Seq<EndView>, open: Option<RoundView>)
    ensures
        pair(starts, ends, open).len() <= starts.len() + ends.len() + opt_seq(open).len(),
    decreases starts.len() + ends.len(),
{
    if starts.len() > 0 && (ends.len() == 0 || ends[0].tick >= starts[0].0) {
        lemma_pair_len(
            starts.drop_first(),
            ends,
            Some(RoundView { number: starts[0].1, start_tick: Some(starts[0].0), ..unstarted_view() }),
        );
    } else if ends.len() > 0 {
        lemma_pair_len(starts, ends.drop_first(), None);
    }
}

proof fn lemma_starts_len(anns: Seq<(i32, Seq<char>)>)
    ensures
        spec_starts(anns).len() <= anns.len(),
    decreases anns.len(),
{
    if anns.len() > 0 {
        lemma_starts_len(anns.drop_last());
    }
}

proof fn lemma_win_ends_len(anns: Seq<(i32, Seq<char>)>)
    ensures
        win_ends(anns).len() <= anns.len(),
    decreases anns.len(),
{
    if anns.len() > 0 {
        lemma_win_ends_len(anns.drop_last());
    }
}

proof fn lemma_ends_len(anns: Seq<(i32, Seq<char>)>, results: Seq<(i32, Seq<char>, Seq<char>)>)
    ensures
        spec_ends(anns, results).len() <= anns.len() + results.len(),
{
    lemma_win_ends_len(anns);
}

} // verus!
