//! Center-text announcement recovery.
//!
//! Packet payloads are collected during the frame walk; afterwards the
//! ASCII skim runs over them, substrings that match the announcement
//! patterns are kept, the list is ordered by tick and reliable-message
//! resends are dropped. Rounds are derived from the result
//! (`crate::rounds`).

use vstd::prelude::*;
use crate::demo::frames::{ByteRange, Frame, FrameKind};
use crate::pattern::{Pattern, PatternError, find, regex_compiles, regex_find};
use crate::extract::skim::{skim, spec_skim, texts};
use crate::sort::{Ticked, lemma_sort_map, sort_by_tick, stable_sort};

verus! {

/// A line of game text, anchored to the tick of the packet that carried it.
#[derive(Debug)]
pub struct Announcement {
    pub tick: i32,
    pub text: String,
}

impl View for Announcement {
    type V = (i32, Seq<char>);

    open spec fn view(&self) -> (i32, Seq<char>) {
        (self.tick, self.text@)
    }
}

impl Ticked for Announcement {
    open spec fn key(&self) -> int {
        self.tick as int
    }

    fn tick(&self) -> (t: i32) {
        self.tick
    }
}

impl Ticked for (i32, Seq<char>) {
    open spec fn key(&self) -> int {
        self.0 as int
    }

    fn tick(&self) -> (t: i32) {
        self.0
    }
}

/// Announcements as values.
pub open spec fn anns_view(s: Seq<Announcement>) -> Seq<(i32, Seq<char>)> {
    s.map_values(|a: Announcement| a@)
}

/// The announcement texts extracted by default. Each pattern's match is
/// what gets stored; the bit-shifted extraction leaves garbage bytes
/// around the real message, so a pattern covers the full text it keeps.
pub open spec fn default_sources() -> Seq<Seq<char>> {
    seq![
        "- [A-Z]+ ROUND \\d+ STARTED -"@,
        "Team \\w+ wins[ a-z]*!"@,
        "[A-Za-z ]*captured the ghost[^!]*!"@,
        "OVERTIME|SUDDEN DEATH|MATCH POINT"@,
    ]
}

/// The sources of some patterns.
pub open spec fn sources(ps: Seq<Pattern>) -> Seq<Seq<char>> {
    ps.map_values(|p: Pattern| p.source())
}

/// Every pattern compiles.
pub open spec fn all_compile(srcs: Seq<Seq<char>>) -> bool {
    forall|i: int| 0 <= i < srcs.len() ==> regex_compiles(#[trigger] srcs[i])
}

/// Compile the default patterns, then `extra`: all of them, or the error
/// of the first one that does not compile.
pub fn compile_patterns(extra: &[String]) -> (r: Result<Vec<Pattern>, PatternError>)
    ensures
        ({
            let all = default_sources() + extra@.map_values(|s: String| s@);
            &&& r is Ok <==> all_compile(all)
            &&& r matches Ok(ps) ==> sources(ps@) == all
            &&& r matches Err(e) ==> exists|k: int|
                0 <= k < all.len() && !regex_compiles(#[trigger] all[k]) && e.pattern@ == all[k]
                    && all_compile(all.take(k))
        }),
{
    let ghost all = default_sources() + extra@.map_values(|s: String| s@);
    let defaults = [
        "- [A-Z]+ ROUND \\d+ STARTED -",
        "Team \\w+ wins[ a-z]*!",
        "[A-Za-z ]*captured the ghost[^!]*!",
        "OVERTIME|SUDDEN DEATH|MATCH POINT",
    ];
    let mut patterns: Vec<Pattern> = Vec::new();
    let mut i: usize = 0;
    proof {
        assert(defaults@.map_values(|s: &str| s@) =~= default_sources());
    }
    while i < 4
        invariant
            i <= 4,
            defaults@.len() == 4,
            defaults@.map_values(|s: &str| s@) == default_sources(),
            all == default_sources() + extra@.map_values(|s: String| s@),
            all.len() == 4 + extra@.len(),
            sources(patterns@) == all.take(i as int),
            all_compile(all.take(i as int)),
        decreases 4 - i,
    {
        let ghost before = sources(patterns@);
        match Pattern::new(defaults[i]) {
            Ok(p) => {
                let ghost src = p.source();
                patterns.push(p);
                proof {
                    assert(all[i as int] == defaults@[i as int]@);
                    assert(sources(patterns@) =~= before.push(src));
                    assert(sources(patterns@) =~= all.take(i + 1));
                    assert forall|k: int| 0 <= k < i + 1 implies regex_compiles(#[trigger] all.take(i + 1)[k]) by {
                        if k < i {
                            assert(all.take(i + 1)[k] == all.take(i as int)[k]);
                        }
                    }
                }
            },
            Err(e) => {
                proof {
                    assert(all[i as int] == defaults@[i as int]@);
                    assert(!regex_compiles(all[i as int]));
                    assert(!all_compile(all));
                }
                return Err(e);
            },
        }
        i = i + 1;
    }
    let mut j: usize = 0;
    while j < extra.len()
        invariant
            j <= extra@.len(),
            all == default_sources() + extra@.map_values(|s: String| s@),
            all.len() == 4 + extra@.len(),
            sources(patterns@) == all.take(4 + j),
            all_compile(all.take(4 + j)),
        decreases extra.len() - j,
    {
        let ghost before = sources(patterns@);
        match Pattern::new(extra[j].as_str()) {
            Ok(p) => {
                let ghost src = p.source();
                patterns.push(p);
                proof {
                    assert(all[4 + j] == extra@[j as int]@);
                    assert(sources(patterns@) =~= before.push(src));
                    assert(sources(patterns@) =~= all.take(4 + j + 1));
                    assert forall|k: int| 0 <= k < 4 + j + 1 implies regex_compiles(#[trigger] all.take(4 + j + 1)[k]) by {
                        if k < 4 + j {
                            assert(all.take(4 + j + 1)[k] == all.take(4 + j)[k]);
                        }
                    }
                }
            },
            Err(e) => {
                proof {
                    assert(all[4 + j] == extra@[j as int]@);
                    assert(!regex_compiles(all[4 + j]));
                    assert(!all_compile(all));
                }
                return Err(e);
            },
        }
        j = j + 1;
    }
    proof {
        assert(all.take(4 + j) =~= all);
        assert forall|k: int| 0 <= k < all.len() implies regex_compiles(#[trigger] all[k]) by {
            assert(all.take(4 + j)[k] == all[k]);
        }
    }
    Ok(patterns)
}

/// What one recovered string yields: itself when every string is kept,
/// else the match of each pattern in turn.
pub open spec fn finds(srcs: Seq<Seq<char>>, tick: i32, raw: Seq<char>) -> Seq<(i32, Seq<char>)>
    decreases srcs.len(),
{
    if srcs.len() == 0 {
        Seq::empty()
    } else {
        finds(srcs.drop_last(), tick, raw) + match regex_find(srcs.last(), raw) {
            Some(m) => seq![(tick, m)],
            None => Seq::empty(),
        }
    }
}

pub open spec fn matches_of(srcs: Seq<Seq<char>>, all_strings: bool, tick: i32, raw: Seq<char>) -> Seq<(i32, Seq<char>)> {
    if all_strings {
        seq![(tick, raw)]
    } else {
        finds(srcs, tick, raw)
    }
}

/// The announcements in the strings recovered from one packet.
pub open spec fn packet_matches(
    srcs: Seq<Seq<char>>,
    all_strings: bool,
    tick: i32,
    strings: Seq<Seq<char>>,
) -> Seq<(i32, Seq<char>)>
    decreases strings.len(),
{
    if strings.len() == 0 {
        Seq::empty()
    } else {
        packet_matches(srcs, all_strings, tick, strings.drop_last()) + matches_of(
            srcs,
            all_strings,
            tick,
            strings.last(),
        )
    }
}

/// A frame payload's bytes (nothing when the range does not lie in the file).
pub open spec fn payload_of(data: Seq<u8>, r: ByteRange) -> Seq<u8> {
    if r.start <= r.end <= data.len() {
        data.subrange(r.start as int, r.end as int)
    } else {
        Seq::empty()
    }
}

/// The announcements of all collected packets, packet by packet.
pub open spec fn all_matches(
    srcs: Seq<Seq<char>>,
    all_strings: bool,
    data: Seq<u8>,
    packets: Seq<(i32, ByteRange)>,
) -> Seq<(i32, Seq<char>)>
    decreases packets.len(),
{
    if packets.len() == 0 {
        Seq::empty()
    } else {
        all_matches(srcs, all_strings, data, packets.drop_last()) + packet_matches(
            srcs,
            all_strings,
            packets.last().0,
            spec_skim(payload_of(data, packets.last().1)),
        )
    }
}

/// Announcements kept in order, dropping one whose text equals the last
/// kept one's and that arrives fewer than `window` ticks after it.
pub open spec fn dedup_from(kept: Seq<(i32, Seq<char>)>, rest: Seq<(i32, Seq<char>)>, window: i32) -> Seq<(i32, Seq<char>)>
    decreases rest.len(),
{
    if rest.len() == 0 {
        kept
    } else {
        let a = rest[0];
        if kept.len() > 0 && kept.last().1 == a.1 && a.0 - kept.last().0 < window {
            dedup_from(kept, rest.drop_first(), window)
        } else {
            dedup_from(kept.push(a), rest.drop_first(), window)
        }
    }
}

/// The engine may resend a reliable message; repeats of the same text
/// arriving within `window` ticks of the last kept one are dropped.
pub fn dedup(announcements: Vec<Announcement>, window: i32) -> (out: Vec<Announcement>)
    ensures
        anns_view(out@) == dedup_from(Seq::empty(), anns_view(announcements@), window),
{
    let ghost all = anns_view(announcements@);
    let mut rest = announcements;
    let mut kept: Vec<Announcement> = Vec::new();
    let ghost mut consumed: int = 0;
    proof {
        assert(all.skip(0) =~= all);
        assert(anns_view(kept@) =~= Seq::<(i32, Seq<char>)>::empty());
    }
    while rest.len() > 0
        invariant
            0 <= consumed <= all.len(),
            anns_view(rest@) == all.skip(consumed),
            dedup_from(Seq::empty(), all, window) == dedup_from(anns_view(kept@), anns_view(rest@), window),
        decreases rest.len(),
    {
        let ghost old_rest = anns_view(rest@);
        let a = rest.remove(0);
        let ghost av = a@;
        proof {
            assert(old_rest[0] == av);
            assert(anns_view(rest@) =~= old_rest.drop_first());
        }
        let drop = if kept.len() > 0 {
            let last = &kept[kept.len() - 1];
            last.text == a.text && (a.tick as i64) - (last.tick as i64) < window as i64
        } else {
            false
        };
        if !drop {
            let ghost before = anns_view(kept@);
            kept.push(a);
            proof {
                assert(anns_view(kept@) =~= before.push(av));
            }
        }
        proof {
            consumed = consumed + 1;
            assert(anns_view(rest@) =~= all.skip(consumed));
        }
    }
    kept
}

/// Collects packet payload ranges during the frame walk and recovers the
/// announcements in them afterwards.
pub struct Announcements {
    patterns: Vec<Pattern>,
    all_strings: bool,
    packets: Vec<(i32, ByteRange)>,
}

impl Announcements {
    pub closed spec fn pattern_sources(&self) -> Seq<Seq<char>> {
        sources(self.patterns@)
    }

    pub closed spec fn keeps_all_strings(&self) -> bool {
        self.all_strings
    }

    /// The packets collected so far: tick and payload range.
    pub closed spec fn packet_list(&self) -> Seq<(i32, ByteRange)> {
        self.packets@
    }

    pub fn new(patterns: Vec<Pattern>, all_strings: bool) -> (a: Self)
        ensures
            a.pattern_sources() == sources(patterns@),
            a.keeps_all_strings() == all_strings,
            a.packet_list() == Seq::<(i32, ByteRange)>::empty(),
    {
        Announcements { patterns, all_strings, packets: Vec::new() }
    }

    /// Keep a packet frame's tick and payload range.
    pub fn on_frame(&mut self, frame: &Frame)
        ensures
            final(self).pattern_sources() == old(self).pattern_sources(),
            final(self).keeps_all_strings() == old(self).keeps_all_strings(),
            final(self).packet_list() == if frame.kind == FrameKind::Packet {
                old(self).packet_list().push((frame.tick, frame.payload))
            } else {
                old(self).packet_list()
            },
    {
        if frame.kind == FrameKind::Packet {
            self.packets.push((frame.tick, frame.payload));
        }
    }

    /// The collected packets.
    pub fn packets(&self) -> (p: &Vec<(i32, ByteRange)>)
        ensures
            p@ == self.packet_list(),
    {
        &self.packets
    }

    /// The announcements that one recovered string yields.
    fn matches_in_string(&self, tick: i32, raw: &String, out: &mut Vec<Announcement>)
        ensures
            anns_view(final(out)@) == anns_view(old(out)@) + matches_of(
                self.pattern_sources(),
                self.keeps_all_strings(),
                tick,
                raw@,
            ),
    {
        if self.all_strings {
            let ghost before = anns_view(out@);
            out.push(Announcement { tick, text: raw.clone() });
            proof {
                assert(anns_view(out@) =~= before.push((tick, raw@)));
            }
            return;
        }
        let ghost srcs = self.pattern_sources();
        let mut k: usize = 0;
        proof {
            assert(anns_view(out@) =~= anns_view(old(out)@) + finds(srcs.take(0), tick, raw@));
        }
        while k < self.patterns.len()
            invariant
                k <= self.patterns@.len(),
                srcs == sources(self.patterns@),
                !self.all_strings,
                anns_view(out@) == anns_view(old(out)@) + finds(srcs.take(k as int), tick, raw@),
            decreases self.patterns.len() - k,
        {
            let ghost before = anns_view(out@);
            let found = find(&self.patterns[k], raw.as_str());
            proof {
                assert(srcs.take(k + 1).drop_last() =~= srcs.take(k as int));
                assert(srcs.take(k + 1).last() == self.patterns@[k as int].source());
            }
            match found {
                Some(m) => {
                    let ghost mv = m@;
                    proof {
                        assert(found.deep_view() == Some(mv));
                        assert(regex_find(srcs.take(k + 1).last(), raw@) == Some(mv));
                    }
                    out.push(Announcement { tick, text: m });
                    proof {
                        assert(anns_view(out@) =~= before.push((tick, mv)));
                        assert(anns_view(out@) =~= anns_view(old(out)@) + finds(srcs.take(k + 1), tick, raw@));
                    }
                },
                None => {
                    proof {
                        assert(anns_view(out@) =~= anns_view(old(out)@) + finds(srcs.take(k + 1), tick, raw@));
                    }
                },
            }
            k = k + 1;
        }
        proof {
            assert(srcs.take(k as int) =~= srcs);
        }
    }

    /// The announcements in one packet's payload: its skimmed strings,
    /// each kept whole or filtered through the patterns.
    pub fn matches_in(&self, payload: &[u8], tick: i32) -> (found: Vec<Announcement>)
        ensures
            anns_view(found@) == packet_matches(
                self.pattern_sources(),
                self.keeps_all_strings(),
                tick,
                spec_skim(payload@),
            ),
    {
        let mut strings: Vec<String> = Vec::new();
        skim(payload, &mut strings);
        proof {
            assert(texts(Seq::<String>::empty()) =~= Seq::<Seq<char>>::empty());
            assert(texts(strings@) =~= spec_skim(payload@));
        }
        let ghost ts = texts(strings@);
        let mut out: Vec<Announcement> = Vec::new();
        let mut i: usize = 0;
        proof {
            assert(anns_view(out@) =~= Seq::<(i32, Seq<char>)>::empty());
            assert(ts.take(0) =~= Seq::<Seq<char>>::empty());
        }
        while i < strings.len()
            invariant
                i <= strings@.len(),
                ts == texts(strings@),
                anns_view(out@) == packet_matches(
                    self.pattern_sources(),
                    self.keeps_all_strings(),
                    tick,
                    ts.take(i as int),
                ),
            decreases strings.len() - i,
        {
            self.matches_in_string(tick, &strings[i], &mut out);
            proof {
                assert(ts.take(i + 1).drop_last() =~= ts.take(i as int));
                assert(ts.take(i + 1).last() == strings@[i as int]@);
            }
            i = i + 1;
        }
        proof {
            assert(ts.take(i as int) =~= ts);
        }
        out
    }

    /// The announcements of every collected packet, packet by packet.
    pub fn collect(&self, data: &[u8]) -> (found: Vec<Announcement>)
        ensures
            anns_view(found@) == all_matches(
                self.pattern_sources(),
                self.keeps_all_strings(),
                data@,
                self.packet_list(),
            ),
    {
        let mut out: Vec<Announcement> = Vec::new();
        let mut i: usize = 0;
        let ghost ps = self.packet_list();
        proof {
            assert(anns_view(out@) =~= Seq::<(i32, Seq<char>)>::empty());
            assert(ps.take(0) =~= Seq::<(i32, ByteRange)>::empty());
        }
        while i < self.packets.len()
            invariant
                i <= self.packets@.len(),
                ps == self.packet_list(),
                ps == self.packets@,
                anns_view(out@) == all_matches(
                    self.pattern_sources(),
                    self.keeps_all_strings(),
                    data@,
                    ps.take(i as int),
                ),
            decreases self.packets.len() - i,
        {
            let (tick, range) = self.packets[i];
            let payload: &[u8] = if range.start <= range.end && range.end <= data.len() {
                &data[range.start..range.end]
            } else {
                &data[0..0]
            };
            let found = self.matches_in(payload, tick);
            let ghost before = anns_view(out@);
            let mut found = found;
            out.append(&mut found);
            proof {
                assert(ps.take(i + 1).drop_last() =~= ps.take(i as int));
                assert(ps.take(i + 1).last() == (tick, range));
                assert(payload@ =~= payload_of(data@, range));
                assert(anns_view(out@) =~= before + packet_matches(
                    self.pattern_sources(),
                    self.keeps_all_strings(),
                    tick,
                    spec_skim(payload@),
                ));
            }
            i = i + 1;
        }
        proof {
            assert(ps.take(i as int) =~= ps);
        }
        out
    }
}

/// Order recovered announcements by tick (packets in file order keep
/// their order among equal ticks) and drop resends within `window` ticks.
pub fn finish(found: Vec<Announcement>, window: i32) -> (out: Vec<Announcement>)
    ensures
        anns_view(out@) == dedup_from(Seq::empty(), stable_sort(anns_view(found@)), window),
{
    let ghost unsorted = found@;
    let sorted = sort_by_tick(found);
    proof {
        lemma_sort_map(unsorted, |a: Announcement| a@);
    }
    dedup(sorted, window)
}

/// The announcements of packet chunks, each chunk's in packet order and the
/// chunks one after another.
pub open spec fn chunk_matches(
    srcs: Seq<Seq<char>>,
    all_strings: bool,
    data: Seq<u8>,
    chunks: Seq<Seq<(i32, ByteRange)>>,
) -> Seq<(i32, Seq<char>)>
    decreases chunks.len(),
{
    if chunks.len() == 0 {
        Seq::empty()
    } else {
        all_matches(srcs, all_strings, data, chunks[0]) + chunk_matches(
            srcs,
            all_strings,
            data,
            chunks.drop_first(),
        )
    }
}

proof fn lemma_all_matches_append(
    srcs: Seq<Seq<char>>,
    all_strings: bool,
    data: Seq<u8>,
    a: Seq<(i32, ByteRange)>,
    b: Seq<(i32, ByteRange)>,
)
    ensures
        all_matches(srcs, all_strings, data, a + b) == all_matches(srcs, all_strings, data, a)
            + all_matches(srcs, all_strings, data, b),
    decreases b.len(),
{
    if b.len() == 0 {
        assert(a + b =~= a);
        assert(all_matches(srcs, all_strings, data, a) + all_matches(srcs, all_strings, data, b)
            =~= all_matches(srcs, all_strings, data, a));
    } else {
        lemma_all_matches_append(srcs, all_strings, data, a, b.drop_last());
        assert((a + b).drop_last() =~= a + b.drop_last());
        assert((a + b).last() == b.last());
        let last = packet_matches(srcs, all_strings, b.last().0, spec_skim(payload_of(data, b.last().1)));
        assert(all_matches(srcs, all_strings, data, a) + all_matches(srcs, all_strings, data, b.drop_last()) + last
            =~= all_matches(srcs, all_strings, data, a) + (all_matches(srcs, all_strings, data, b.drop_last()) + last));
    }
}

/// Splitting the packet list into consecutive chunks (any number, of any
/// sizes), recovering each chunk's announcements on its own and joining
/// the results in chunk order gives exactly the announcements of the whole
/// list; the ordered, deduplicated result is therefore the same however
/// the packets are split among workers.
pub proof fn lemma_skim_split(
    srcs: Seq<Seq<char>>,
    all_strings: bool,
    data: Seq<u8>,
    chunks: Seq<Seq<(i32, ByteRange)>>,
    window: i32,
)
    ensures
        chunk_matches(srcs, all_strings, data, chunks) == all_matches(
            srcs,
            all_strings,
            data,
            chunks.flatten(),
        ),
        dedup_from(Seq::empty(), stable_sort(chunk_matches(srcs, all_strings, data, chunks)), window)
            == dedup_from(
            Seq::empty(),
            stable_sort(all_matches(srcs, all_strings, data, chunks.flatten())),
            window,
        ),
    decreases chunks.len(),
{
    if chunks.len() == 0 {
        assert(chunks.flatten() =~= Seq::<(i32, ByteRange)>::empty());
    } else {
        lemma_skim_split(srcs, all_strings, data, chunks.drop_first(), window);
        assert(chunks.flatten() == chunks[0] + chunks.drop_first().flatten());
        lemma_all_matches_append(srcs, all_strings, data, chunks[0], chunks.drop_first().flatten());
    }
}

} // verus!
