//! Net-level extraction: walks the net-message stream inside signon/packet
//! frames and produces the kill feed, chat, player roster, and a generic
//! game-events table (every event with its fields). Game events are parsed
//! against the demo's own definitions, so NT;RE-specific events (ghost
//! captures, rank changes…) decode without any hardcoded schema.

use vstd::prelude::*;
use std::collections::HashMap;
use crate::demo::bits::{BitChunk, cstring_end, spec_cstring, spec_read, stream_bits};
use crate::demo::frames::{Frame, FrameKind};
use crate::demo::net::{
    DefView, EventDefs, EventValue, MsgView, NetMessage, ValueView, defs_view, fields_view,
    msgs_view, parse_game_event, rd, spec_game_event, spec_walk, walk_packet,
};
use crate::demo::stringtables::{PlayerInfoView, parse_userinfo, players_view, spec_userinfo};
use crate::extract::DemoContext;
use crate::text::{chars_of, contains, contains_text, occurs_at, push_char, str_eq, trim, trimmed, decoded_text};

verus! {

broadcast use vstd::std_specs::hash::group_hash_axioms;

// ---------------------------------------------------------------------
// JSON text for event fields.

/// The lowercase hexadecimal digits.
pub open spec fn hex_digits() -> Seq<char> {
    seq!['0', '1', '2', '3', '4', '5', '6', '7', '8', '9', 'a', 'b', 'c', 'd', 'e', 'f']
}

/// How one char is written inside a JSON string literal.
pub open spec fn escape_char(c: char) -> Seq<char> {
    if c == '"' {
        seq!['\\', '"']
    } else if c == '\\' {
        seq!['\\', '\\']
    } else if c == '\n' {
        seq!['\\', 'n']
    } else if c == '\r' {
        seq!['\\', 'r']
    } else if c == '\t' {
        seq!['\\', 't']
    } else if (c as u32) < 0x20 {
        seq!['\\', 'u', '0', '0', hex_digits()[(c as u32) as int / 16], hex_digits()[(c as u32) as int % 16]]
    } else {
        seq![c]
    }
}

/// The chars of `s`, each escaped.
pub open spec fn escaped(s: Seq<char>) -> Seq<char>
    decreases s.len(),
{
    if s.len() == 0 {
        Seq::empty()
    } else {
        escaped(s.drop_last()) + escape_char(s.last())
    }
}

/// `s` as a JSON string literal.
pub open spec fn json_string(s: Seq<char>) -> Seq<char> {
    seq!['"'] + escaped(s) + seq!['"']
}

/// An escaped string holds no raw control char (below U+0020), so the
/// JSON text stays on one line and parses.
pub proof fn lemma_escaped_no_controls(s: Seq<char>)
    ensures
        forall|i: int| 0 <= i < escaped(s).len() ==> (#[trigger] escaped(s)[i]) as u32 >= 0x20,
    decreases s.len(),
{
    if s.len() > 0 {
        lemma_escaped_no_controls(s.drop_last());
        let front = escaped(s.drop_last());
        let tail = escape_char(s.last());
        let h = hex_digits();
        assert(h.len() == 16);
        assert(h[0] == '0' && h[1] == '1' && h[2] == '2' && h[3] == '3' && h[4] == '4' && h[5] == '5');
        assert(h[6] == '6' && h[7] == '7' && h[8] == '8' && h[9] == '9' && h[10] == 'a' && h[11] == 'b');
        assert(h[12] == 'c' && h[13] == 'd' && h[14] == 'e' && h[15] == 'f');
        assert forall|k: int| 0 <= k < 16 implies (#[trigger] h[k]) as u32 >= 0x20 by {}
        let d = (s.last() as u32) as int;
        if d < 0x20 {
            assert(0 <= d / 16 < 16);
            assert(0 <= d % 16 < 16);
            assert(h[d / 16] as u32 >= 0x20);
            assert(h[d % 16] as u32 >= 0x20);
        }
        assert forall|i: int| 0 <= i < tail.len() implies (#[trigger] tail[i]) as u32 >= 0x20 by {}
        assert forall|i: int| 0 <= i < escaped(s).len() implies (#[trigger] escaped(s)[i]) as u32 >= 0x20 by {
            if i < front.len() {
                assert(escaped(s)[i] == front[i]);
            } else {
                assert(escaped(s)[i] == tail[i - front.len()]);
            }
        }
    }
}

fn hex_digit(n: u32) -> (c: char)
    requires
        n < 16,
    ensures
        c == hex_digits()[n as int],
{
    let digits: [char; 16] = ['0', '1', '2', '3', '4', '5', '6', '7', '8', '9', 'a', 'b', 'c', 'd', 'e', 'f'];
    proof {
        assert(digits@ =~= hex_digits());
    }
    digits[n as usize]
}

fn push_escaped(out: &mut String, c: char)
    ensures
        final(out)@ == old(out)@ + escape_char(c),
{
    let ghost before = out@;
    if c == '"' {
        push_char(out, '\\');
        push_char(out, '"');
    } else if c == '\\' {
        push_char(out, '\\');
        push_char(out, '\\');
    } else if c == '\n' {
        push_char(out, '\\');
        push_char(out, 'n');
    } else if c == '\r' {
        push_char(out, '\\');
        push_char(out, 'r');
    } else if c == '\t' {
        push_char(out, '\\');
        push_char(out, 't');
    } else if (c as u32) < 0x20 {
        let n = c as u32;
        push_char(out, '\\');
        push_char(out, 'u');
        push_char(out, '0');
        push_char(out, '0');
        push_char(out, hex_digit(n / 16));
        push_char(out, hex_digit(n % 16));
    } else {
        push_char(out, c);
    }
    proof {
        assert(out@ =~= before + escape_char(c));
    }
}

/// Append `s` as a JSON string literal: quoted, with `"`, `\`, newline,
/// carriage return and tab backslash-escaped and other control chars
/// written as `\u00XX`.
pub fn json_escape(s: &str, out: &mut String)
    ensures
        final(out)@ == old(out)@ + json_string(s@),
{
    let ghost start = out@;
    let cs = chars_of(s);
    push_char(out, '"');
    let mut i: usize = 0;
    while i < cs.len()
        invariant
            cs@ == s@,
            i <= cs@.len(),
            out@ == start + seq!['"'] + escaped(cs@.subrange(0, i as int)),
        decreases cs.len() - i,
    {
        proof {
            assert(cs@.subrange(0, i + 1).drop_last() =~= cs@.subrange(0, i as int));
        }
        push_escaped(out, cs[i]);
        proof {
            assert(out@ =~= start + seq!['"'] + escaped(cs@.subrange(0, i + 1)));
        }
        i = i + 1;
    }
    push_char(out, '"');
    proof {
        assert(cs@.subrange(0, cs@.len() as int) =~= s@);
        assert(out@ =~= start + json_string(s@));
    }
}

/// The decimal digits of `n`, as `{}` formats an unsigned integer.
pub open spec fn decimal(n: nat) -> Seq<char>
    decreases n,
{
    if n < 10 {
        seq![hex_digits()[n as int]]
    } else {
        decimal(n / 10).push(hex_digits()[(n % 10) as int])
    }
}

fn push_decimal(out: &mut String, n: u32)
    ensures
        final(out)@ == old(out)@ + decimal(n as nat),
    decreases n,
{
    let ghost before = out@;
    if n >= 10 {
        push_decimal(out, n / 10);
    }
    push_char(out, hex_digit(n % 10));
    proof {
        assert(out@ =~= before + decimal(n as nat));
    }
}

/// A field value as JSON; a float is written as `float_text`.
pub open spec fn value_json(v: ValueView, float_text: Seq<char>) -> Seq<char> {
    match v {
        ValueView::Str(s) => json_string(s),
        ValueView::Float(_) => float_text,
        ValueView::Int(n) => decimal(n as nat),
        ValueView::Bool(b) => if b {
            seq!['t', 'r', 'u', 'e']
        } else {
            seq!['f', 'a', 'l', 's', 'e']
        },
    }
}

/// `"name":value` for one field.
pub open spec fn member_json(f: (Seq<char>, ValueView), float_text: Seq<char>) -> Seq<char> {
    json_string(f.0) + seq![':'] + value_json(f.1, float_text)
}

/// The fields as comma-separated JSON members; field `i`, if a float, is
/// written as `float_texts[i]`.
pub open spec fn members_json(fs: Seq<(Seq<char>, ValueView)>, float_texts: Seq<Seq<char>>) -> Seq<char>
    decreases fs.len(),
{
    if fs.len() == 0 {
        Seq::empty()
    } else if fs.len() == 1 {
        member_json(fs[0], float_texts[0])
    } else {
        members_json(fs.drop_last(), float_texts) + seq![','] + member_json(fs.last(), float_texts[fs.len() - 1])
    }
}

/// The fields as one JSON object.
pub open spec fn object_json(fs: Seq<(Seq<char>, ValueView)>, float_texts: Seq<Seq<char>>) -> Seq<char> {
    seq!['{'] + members_json(fs, float_texts) + seq!['}']
}

/// The views of a list of strings.
pub open spec fn texts_view(ts: Seq<String>) -> Seq<Seq<char>> {
    ts.map_values(|t: String| t@)
}

fn push_text(out: &mut String, s: &str)
    ensures
        final(out)@ == old(out)@ + s@,
{
    let ghost start = out@;
    let cs = chars_of(s);
    let mut i: usize = 0;
    while i < cs.len()
        invariant
            cs@ == s@,
            i <= cs@.len(),
            out@ == start + cs@.subrange(0, i as int),
        decreases cs.len() - i,
    {
        push_char(out, cs[i]);
        proof {
            assert(out@ =~= start + cs@.subrange(0, i + 1));
        }
        i = i + 1;
    }
    proof {
        assert(cs@.subrange(0, cs@.len() as int) =~= s@);
    }
}

/// The fields of an event as a JSON object, members in field order. Float
/// values are written as the text given for them: `float_texts[i]` is the
/// text of field `i` (entries for other fields are not used).
pub fn fields_to_json(fields: &[(String, EventValue)], float_texts: &[String]) -> (s: String)
    requires
        float_texts@.len() == fields@.len(),
    ensures
        s@ == object_json(fields_view(fields@), texts_view(float_texts@)),
{
    let ghost fs = fields_view(fields@);
    let ghost ft = texts_view(float_texts@);
    let mut out = String::new();
    push_char(&mut out, '{');
    let mut i: usize = 0;
    while i < fields.len()
        invariant
            fs == fields_view(fields@),
            ft == texts_view(float_texts@),
            float_texts@.len() == fields@.len(),
            i <= fields@.len(),
            out@ == seq!['{'] + members_json(fs.subrange(0, i as int), ft),
        decreases fields.len() - i,
    {
        let ghost before = out@;
        if i > 0 {
            push_char(&mut out, ',');
        }
        let (name, value) = &fields[i];
        json_escape(name.as_str(), &mut out);
        push_char(&mut out, ':');
        match value {
            EventValue::Str(t) => json_escape(t.as_str(), &mut out),
            EventValue::Float(_) => push_text(&mut out, float_texts[i].as_str()),
            EventValue::Int(n) => push_decimal(&mut out, *n),
            EventValue::Bool(b) => {
                if *b {
                    push_char(&mut out, 't');
                    push_char(&mut out, 'r');
                    push_char(&mut out, 'u');
                    push_char(&mut out, 'e');
                } else {
                    push_char(&mut out, 'f');
                    push_char(&mut out, 'a');
                    push_char(&mut out, 'l');
                    push_char(&mut out, 's');
                    push_char(&mut out, 'e');
                }
            },
        }
        proof {
            let sub = fs.subrange(0, i + 1);
            assert(sub.drop_last() =~= fs.subrange(0, i as int));
            assert(sub.last() == fs[i as int]);
            assert(fs[i as int] == (name@, value@));
            assert(ft[i as int] == float_texts@[i as int]@);
            if i == 0 {
                assert(out@ =~= seq!['{'] + members_json(sub, ft));
            } else {
                assert(out@ =~= seq!['{'] + members_json(sub, ft));
            }
        }
        i = i + 1;
    }
    push_char(&mut out, '}');
    proof {
        assert(fs.subrange(0, fields@.len() as int) =~= fs);
        assert(out@ =~= object_json(fs, ft));
    }
    out
}


// ---------------------------------------------------------------------
// Chat text.

/// Source chat control codes removed: `\x01`..`\x06` are mode markers,
/// `\x07` is followed by six colour chars (RRGGBB) and `\x08` by eight
/// (RRGGBBAA); a code near the end takes whatever chars remain.
pub open spec fn strip_codes(s: Seq<char>) -> Seq<char>
    decreases s.len(),
{
    if s.len() == 0 {
        Seq::empty()
    } else {
        let c = s[0] as u32;
        if 1 <= c <= 6 {
            strip_codes(s.drop_first())
        } else if c == 7 {
            if s.len() <= 7 {
                Seq::empty()
            } else {
                strip_codes(s.skip(7))
            }
        } else if c == 8 {
            if s.len() <= 9 {
                Seq::empty()
            } else {
                strip_codes(s.skip(9))
            }
        } else {
            seq![s[0]] + strip_codes(s.drop_first())
        }
    }
}

/// Strip Source chat control codes: `\x01`-`\x06` mode markers, `\x07` +
/// RRGGBB, `\x08` + RRGGBBAA.
pub fn strip_chat_codes(text: &str) -> (out: String)
    ensures
        out@ == strip_codes(text@),
{
    let cs = chars_of(text);
    let n = cs.len();
    let mut out = String::new();
    let mut i: usize = 0;
    proof {
        assert(cs@.skip(0) =~= cs@);
    }
    while i < n
        invariant
            cs@ == text@,
            n == cs@.len(),
            i <= n,
            strip_codes(text@) == out@ + strip_codes(cs@.skip(i as int)),
        decreases n - i,
    {
        let c = cs[i];
        let code = c as u32;
        let ghost rest = cs@.skip(i as int);
        proof {
            assert(rest[0] == c);
        }
        if 1 <= code && code <= 6 {
            proof {
                assert(rest.drop_first() =~= cs@.skip(i + 1));
            }
            i = i + 1;
        } else if code == 7 {
            if n - i <= 7 {
                proof {
                    assert(cs@.skip(n as int) =~= Seq::<char>::empty());
                    assert(out@ + Seq::<char>::empty() =~= out@);
                }
                i = n;
            } else {
                proof {
                    assert(rest.skip(7) =~= cs@.skip(i + 7));
                }
                i = i + 7;
            }
        } else if code == 8 {
            if n - i <= 9 {
                proof {
                    assert(cs@.skip(n as int) =~= Seq::<char>::empty());
                    assert(out@ + Seq::<char>::empty() =~= out@);
                }
                i = n;
            } else {
                proof {
                    assert(rest.skip(9) =~= cs@.skip(i + 9));
                }
                i = i + 9;
            }
        } else {
            let ghost before = out@;
            push_char(&mut out, c);
            proof {
                assert(rest.drop_first() =~= cs@.skip(i + 1));
                assert(before + (seq![c] + strip_codes(cs@.skip(i + 1))) =~= out@ + strip_codes(cs@.skip(i + 1)));
            }
            i = i + 1;
        }
    }
    proof {
        assert(cs@.skip(n as int) =~= Seq::<char>::empty());
        assert(out@ + Seq::<char>::empty() =~= out@);
    }
    out
}

/// No chat control code (`\x01` to `\x08`) survives stripping.
pub proof fn lemma_strip_codes_clean(s: Seq<char>)
    ensures
        forall|i: int|
            0 <= i < strip_codes(s).len() ==> !(1 <= (#[trigger] strip_codes(s)[i]) as u32 <= 8),
    decreases s.len(),
{
    if s.len() > 0 {
        let c = s[0] as u32;
        if 1 <= c <= 6 {
            lemma_strip_codes_clean(s.drop_first());
            assert(strip_codes(s) == strip_codes(s.drop_first()));
        } else if c == 7 {
            if s.len() > 7 {
                lemma_strip_codes_clean(s.skip(7));
                assert(strip_codes(s) == strip_codes(s.skip(7)));
            } else {
                assert(strip_codes(s).len() == 0);
            }
        } else if c == 8 {
            if s.len() > 9 {
                lemma_strip_codes_clean(s.skip(9));
                assert(strip_codes(s) == strip_codes(s.skip(9)));
            } else {
                assert(strip_codes(s).len() == 0);
            }
        } else {
            lemma_strip_codes_clean(s.drop_first());
            let rest = strip_codes(s.drop_first());
            assert forall|i: int| 0 <= i < strip_codes(s).len() implies !(1 <= (#[trigger] strip_codes(s)[i]) as u32 <= 8) by {
                if i > 0 {
                    assert(strip_codes(s)[i] == rest[i - 1]);
                }
            }
        }
    }
}

// ---------------------------------------------------------------------
// Event fields by name.

/// The value of the first field called `name`.
pub open spec fn find_field(fs: Seq<(Seq<char>, ValueView)>, name: Seq<char>) -> Option<ValueView>
    decreases fs.len(),
{
    if fs.len() == 0 {
        None
    } else if fs[0].0 == name {
        Some(fs[0].1)
    } else {
        find_field(fs.drop_first(), name)
    }
}

/// An integer field, or 0 where it is missing or of another type.
pub open spec fn int_of(fs: Seq<(Seq<char>, ValueView)>, name: Seq<char>) -> u32 {
    match find_field(fs, name) {
        Some(ValueView::Int(n)) => n,
        _ => 0,
    }
}

/// A bool field; false where it is missing or of another type.
pub open spec fn bool_of(fs: Seq<(Seq<char>, ValueView)>, name: Seq<char>) -> bool {
    find_field(fs, name) == Some(ValueView::Bool(true))
}

/// A string field, or empty where it is missing or of another type.
pub open spec fn str_of(fs: Seq<(Seq<char>, ValueView)>, name: Seq<char>) -> Seq<char> {
    match find_field(fs, name) {
        Some(ValueView::Str(s)) => s,
        _ => Seq::empty(),
    }
}

fn field<'a>(fields: &'a [(String, EventValue)], name: &str) -> (r: Option<&'a EventValue>)
    ensures
        match find_field(fields_view(fields@), name@) {
            Some(v) => r matches Some(x) && x@ == v,
            None => r is None,
        },
{
    let ghost fs = fields_view(fields@);
    let mut i: usize = 0;
    proof {
        assert(fs.skip(0) =~= fs);
    }
    while i < fields.len()
        invariant
            fs == fields_view(fields@),
            i <= fields@.len(),
            find_field(fs, name@) == find_field(fs.skip(i as int), name@),
        decreases fields.len() - i,
    {
        let (n, v) = &fields[i];
        proof {
            assert(fs.skip(i as int)[0] == (n@, v@));
        }
        if str_eq(n.as_str(), name) {
            return Some(v);
        }
        proof {
            assert(fs.skip(i as int).drop_first() =~= fs.skip(i + 1));
        }
        i = i + 1;
    }
    None
}

fn int_field(fields: &[(String, EventValue)], name: &str) -> (n: u32)
    ensures
        n == int_of(fields_view(fields@), name@),
{
    match field(fields, name) {
        Some(EventValue::Int(n)) => *n,
        _ => 0,
    }
}

fn bool_field(fields: &[(String, EventValue)], name: &str) -> (b: bool)
    ensures
        b == bool_of(fields_view(fields@), name@),
{
    match field(fields, name) {
        Some(EventValue::Bool(b)) => *b,
        _ => false,
    }
}

fn str_field(fields: &[(String, EventValue)], name: &str) -> (s: String)
    ensures
        s@ == str_of(fields_view(fields@), name@),
{
    match field(fields, name) {
        Some(EventValue::Str(s)) => s.clone(),
        _ => String::new(),
    }
}


// ---------------------------------------------------------------------
// The facts kept.

pub struct Kill {
    pub tick: i32,
    pub victim_userid: u32,
    pub attacker_userid: u32,
    pub assists: u32,
    pub weapon: String,
    pub headshot: bool,
    pub suicide: bool,
    pub explosive: bool,
    pub ghoster: bool,
}

/// A kill as values.
pub struct KillView {
    pub tick: i32,
    pub victim_userid: u32,
    pub attacker_userid: u32,
    pub assists: u32,
    pub weapon: Seq<char>,
    pub headshot: bool,
    pub suicide: bool,
    pub explosive: bool,
    pub ghoster: bool,
}

impl View for Kill {
    type V = KillView;

    open spec fn view(&self) -> KillView {
        KillView {
            tick: self.tick,
            victim_userid: self.victim_userid,
            attacker_userid: self.attacker_userid,
            assists: self.assists,
            weapon: self.weapon@,
            headshot: self.headshot,
            suicide: self.suicide,
            explosive: self.explosive,
            ghoster: self.ghoster,
        }
    }
}

pub struct ChatLine {
    pub tick: i32,
    pub client_entity: u32,
    pub from: String,
    pub text: String,
    pub team_chat: bool,
}

/// A chat line as values.
pub struct ChatView {
    pub tick: i32,
    pub client_entity: u32,
    pub from: Seq<char>,
    pub text: Seq<char>,
    pub team_chat: bool,
}

impl View for ChatLine {
    type V = ChatView;

    open spec fn view(&self) -> ChatView {
        ChatView {
            tick: self.tick,
            client_entity: self.client_entity,
            from: self.from@,
            text: self.text@,
            team_chat: self.team_chat,
        }
    }
}

pub struct Player {
    pub entity_id: u32,
    pub user_id: u32,
    pub name: String,
    pub steam_id: String,
    pub is_bot: bool,
    pub first_seen_tick: i32,
}

/// A roster entry as values.
pub struct PlayerView {
    pub entity_id: u32,
    pub user_id: u32,
    pub name: Seq<char>,
    pub steam_id: Seq<char>,
    pub is_bot: bool,
    pub first_seen_tick: i32,
}

impl View for Player {
    type V = PlayerView;

    open spec fn view(&self) -> PlayerView {
        PlayerView {
            entity_id: self.entity_id,
            user_id: self.user_id,
            name: self.name@,
            steam_id: self.steam_id@,
            is_bot: self.is_bot,
            first_seen_tick: self.first_seen_tick,
        }
    }
}

/// A game event as values: tick, event name, fields.
pub type EventView = (i32, Seq<char>, Seq<(Seq<char>, ValueView)>);

/// The state of the net pass as values.
pub struct NetView {
    /// The game-event definitions last announced by the demo.
    pub defs: Map<u16, DefView>,
    pub events: Seq<EventView>,
    pub kills: Seq<KillView>,
    pub chat: Seq<ChatView>,
    /// The roster, by userid.
    pub players: Map<u32, PlayerView>,
    /// Packets and events that did not decode (counting stops at the
    /// largest `usize`).
    pub warnings: usize,
}

/// Collects kills, chat, the roster and every game event from the net
/// messages of the demo.
pub struct NetPass {
    defs: EventDefs,
    /// tick, event name, fields
    pub events: Vec<(i32, String, Vec<(String, EventValue)>)>,
    pub kills: Vec<Kill>,
    pub chat: Vec<ChatLine>,
    /// By userid.
    pub players: HashMap<u32, Player>,
    warnings: usize,
}

/// The events as values.
pub open spec fn events_view(es: Seq<(i32, String, Vec<(String, EventValue)>)>) -> Seq<EventView> {
    es.map_values(|e: (i32, String, Vec<(String, EventValue)>)| (e.0, e.1@, fields_view(e.2@)))
}

impl NetPass {
    /// The event definitions in force, as values.
    pub closed spec fn defs_in_force(&self) -> Map<u16, DefView> {
        defs_view(self.defs@)
    }

    /// The number of decode warnings.
    pub closed spec fn warning_count(&self) -> usize {
        self.warnings
    }
}

impl View for NetPass {
    type V = NetView;

    closed spec fn view(&self) -> NetView {
        NetView {
            defs: self.defs_in_force(),
            events: events_view(self.events@),
            kills: self.kills@.map_values(|k: Kill| k@),
            chat: self.chat@.map_values(|c: ChatLine| c@),
            players: self.players@.map_values(|p: Player| p@),
            warnings: self.warning_count(),
        }
    }
}

/// The NT;RE user message id of SayText2.
pub const SAY_TEXT2: u8 = 4;

/// One more decode warning.
pub open spec fn warn(s: NetView) -> NetView {
    NetView { warnings: if s.warnings < usize::MAX { (s.warnings + 1) as usize } else { s.warnings }, ..s }
}

/// The kill that a `player_death` event with these fields reports.
pub open spec fn kill_of(tick: i32, fs: Seq<(Seq<char>, ValueView)>) -> KillView {
    KillView {
        tick,
        victim_userid: int_of(fs, "userid"@),
        attacker_userid: int_of(fs, "attacker"@),
        assists: int_of(fs, "assists"@),
        weapon: str_of(fs, "weapon"@),
        headshot: bool_of(fs, "headshot"@),
        suicide: bool_of(fs, "suicide"@),
        explosive: bool_of(fs, "explosive"@),
        ghoster: bool_of(fs, "ghoster"@),
    }
}

/// The entity id of a player slot: slot + 1 (wrapping).
pub open spec fn entity_of(index: u32) -> u32 {
    if index == u32::MAX { 0 } else { (index + 1) as u32 }
}

/// What a decoded game event changes: `player_death` adds a kill;
/// `player_connect` and `player_info` add a roster entry for a userid not
/// seen before; `player_changename` and `player_changeneoname` rename a
/// known player to a non-empty new name. Other events change nothing here.
pub open spec fn after_game_event(s: NetView, tick: i32, name: Seq<char>, fs: Seq<(Seq<char>, ValueView)>) -> NetView {
    if name == "player_death"@ {
        NetView { kills: s.kills.push(kill_of(tick, fs)), ..s }
    } else if name == "player_connect"@ || name == "player_info"@ {
        let uid = int_of(fs, "userid"@);
        if s.players.contains_key(uid) {
            s
        } else {
            NetView {
                players: s.players.insert(
                    uid,
                    PlayerView {
                        entity_id: entity_of(int_of(fs, "index"@)),
                        user_id: uid,
                        name: str_of(fs, "name"@),
                        steam_id: str_of(fs, "networkid"@),
                        is_bot: bool_of(fs, "bot"@),
                        first_seen_tick: tick,
                    },
                ),
                ..s
            }
        }
    } else if name == "player_changename"@ || name == "player_changeneoname"@ {
        let uid = int_of(fs, "userid"@);
        let newname = str_of(fs, "newname"@);
        if s.players.contains_key(uid) && newname.len() > 0 {
            NetView { players: s.players.insert(uid, PlayerView { name: newname, ..s.players[uid] }), ..s }
        } else {
            s
        }
    } else {
        s
    }
}


/// What one SayText2 payload holds: client entity (8 bits), a raw-text
/// flag (8 bits), then either a bare message string or, where the first
/// string starts with `#` or mentions `Chat`, the chat kind, the sender and
/// the message. Yields client, sender, message and whether the kind names
/// team chat.
pub open spec fn say_text(bits: Seq<bool>) -> Option<(u32, Seq<char>, Seq<char>, bool)> {
    match rd(bits, 0, 8) {
        None => None,
        Some((p1, client)) => match rd(bits, p1, 8) {
            None => None,
            Some((p2, _)) => match spec_cstring(bits, p2) {
                None => None,
                Some(f) => {
                    let first = decoded_text(f);
                    let p3 = cstring_end(p2, f);
                    if (first.len() > 0 && first[0] == '#') || contains_text(first, "Chat"@) {
                        match spec_cstring(bits, p3) {
                            None => None,
                            Some(fr) => match spec_cstring(bits, cstring_end(p3, fr)) {
                                None => None,
                                Some(tx) => Some(
                                    (client as u32, decoded_text(fr), decoded_text(tx), contains_text(first, "Team"@)),
                                ),
                            },
                        }
                    } else {
                        Some((client as u32, Seq::empty(), first, false))
                    }
                },
            },
        },
    }
}

/// `word` occurs in `text` at some position.
pub open spec fn mentions(text: Seq<char>, word: Seq<char>) -> bool {
    exists|i: int| 0 <= i && i + word.len() <= text.len() && #[trigger] text.subrange(i, i + word.len()) == word
}

/// A SayText2 payload read: the client is the first byte; when the first
/// string is a chat kind (starts with `#` or mentions `Chat`) the line is
/// team chat exactly when that kind mentions `Team` (case counts: `NEO_Chat_Team`
/// is team chat, `NEO_Chat_All` is not); any other first string is the
/// message itself, from nobody, and never team chat. After a chat kind
/// come the sender, then the message.
pub proof fn lemma_say_text_kind(bits: Seq<bool>)
    ensures
        say_text(bits) matches Some((client, from, text, team)) ==> ({
            &&& spec_read(bits, 0, 8) == Some(client as nat)
            &&& spec_cstring(bits, 16) is Some
            &&& ({
                let kind = decoded_text(spec_cstring(bits, 16)->0);
                let chat_kind = (kind.len() > 0 && kind[0] == '#') || mentions(kind, seq!['C', 'h', 'a', 't']);
                &&& team <==> (chat_kind && mentions(kind, seq!['T', 'e', 'a', 'm']))
                &&& !chat_kind ==> from.len() == 0 && text == kind
                &&& chat_kind ==> ({
                    let p3 = cstring_end(16, spec_cstring(bits, 16)->0);
                    &&& spec_cstring(bits, p3) is Some
                    &&& from == decoded_text(spec_cstring(bits, p3)->0)
                    &&& text == decoded_text(spec_cstring(bits, cstring_end(p3, spec_cstring(bits, p3)->0))->0)
                })
            })
        }),
{
    reveal_strlit("Team");
    reveal_strlit("Chat");
    assert("Team"@ =~= seq!['T', 'e', 'a', 'm']);
    assert("Chat"@ =~= seq!['C', 'h', 'a', 't']);
    crate::demo::bits::lemma_bits_value_bound(bits, 0, 8);
    vstd::arithmetic::power2::lemma2_to64();
    if let Some((client, from, text, team)) = say_text(bits) {
        assert(spec_read(bits, 0, 8) is Some);
        assert(spec_read(bits, 8, 8) is Some);
        let f = spec_cstring(bits, 16)->0;
        let kind = decoded_text(f);
        assert(contains_text(kind, "Team"@) == mentions(kind, seq!['T', 'e', 'a', 'm'])) by {
            if contains_text(kind, "Team"@) {
                let i = choose|i: int| #[trigger] occurs_at(kind, "Team"@, i);
                assert(kind.subrange(i, i + 4) == seq!['T', 'e', 'a', 'm']);
            }
            if mentions(kind, seq!['T', 'e', 'a', 'm']) {
                let i = choose|i: int| 0 <= i && i + 4 <= kind.len() && #[trigger] kind.subrange(i, i + 4) == seq!['T', 'e', 'a', 'm'];
                assert(occurs_at(kind, "Team"@, i));
            }
        }
        assert(contains_text(kind, "Chat"@) == mentions(kind, seq!['C', 'h', 'a', 't'])) by {
            if contains_text(kind, "Chat"@) {
                let i = choose|i: int| #[trigger] occurs_at(kind, "Chat"@, i);
                assert(kind.subrange(i, i + 4) == seq!['C', 'h', 'a', 't']);
            }
            if mentions(kind, seq!['C', 'h', 'a', 't']) {
                let i = choose|i: int| 0 <= i && i + 4 <= kind.len() && #[trigger] kind.subrange(i, i + 4) == seq!['C', 'h', 'a', 't'];
                assert(occurs_at(kind, "Chat"@, i));
            }
        }
    }
}

/// What a user message changes: a SayText2 whose message is not empty once
/// control codes and surrounding whitespace are removed adds a chat line
/// (sender cleaned the same way). Other user messages change nothing.
pub open spec fn after_user_message(s: NetView, tick: i32, kind: u8, bits: Seq<bool>) -> NetView {
    if kind != SAY_TEXT2 {
        s
    } else {
        match say_text(bits) {
            None => s,
            Some((client, from, text, team)) => {
                let t = trim(strip_codes(text));
                if t.len() > 0 {
                    NetView {
                        chat: s.chat.push(
                            ChatView {
                                tick,
                                client_entity: client,
                                from: trim(strip_codes(from)),
                                text: t,
                                team_chat: team,
                            },
                        ),
                        ..s
                    }
                } else {
                    s
                }
            },
        }
    }
}

fn read_say_text(data: &BitChunk) -> (r: Option<(u32, String, String, bool)>)
    requires
        data.wf(),
    ensures
        match say_text(data@) {
            None => r is None,
            Some((c, f, t, team)) => r matches Some((c2, f2, t2, team2)) && c2 == c && f2@ == f && t2@
                == t && team2 == team,
        },
{
    let mut r = data.reader();
    let client = match r.read_bits(8) {
        Ok(v) => v,
        Err(_) => return None,
    };
    match r.read_bits(8) {
        Ok(_) => {},
        Err(_) => return None,
    }
    let first = match r.read_string() {
        Ok(s) => s,
        Err(_) => return None,
    };
    let fc = chars_of(first.as_str());
    if (fc.len() > 0 && fc[0] == '#') || contains(fc.as_slice(), "Chat") {
        let from = match r.read_string() {
            Ok(s) => s,
            Err(_) => return None,
        };
        let text = match r.read_string() {
            Ok(s) => s,
            Err(_) => return None,
        };
        let team_chat = contains(fc.as_slice(), "Team");
        Some((client, from, text, team_chat))
    } else {
        Some((client, String::new(), first, false))
    }
}

/// What one surfaced net message changes: an event list replaces the
/// definitions; an event that decodes against them is applied and kept
/// (one that does not is a warning); a user message goes to
/// [`after_user_message`].
pub open spec fn after_message(s: NetView, tick: i32, m: MsgView) -> NetView {
    match m {
        MsgView::EventList(d) => NetView { defs: d, ..s },
        MsgView::Event(bits) => match spec_game_event(bits, s.defs) {
            Ok((name, fs)) => {
                let s2 = after_game_event(s, tick, name, fs);
                NetView { events: s2.events.push((tick, name, fs)), ..s2 }
            },
            Err(_) => warn(s),
        },
        MsgView::User(kind, bits) => after_user_message(s, tick, kind, bits),
    }
}

/// The messages applied in order.
pub open spec fn after_messages(s: NetView, tick: i32, ms: Seq<MsgView>) -> NetView
    decreases ms.len(),
{
    if ms.len() == 0 {
        s
    } else {
        after_message(after_messages(s, tick, ms.drop_last()), tick, ms.last())
    }
}

/// The roster of a string-tables frame applied in order: each player who is
/// not the SourceTV client and whose userid is not known yet is added.
pub open spec fn after_roster(s: NetView, tick: i32, ps: Seq<PlayerInfoView>) -> NetView
    decreases ps.len(),
{
    if ps.len() == 0 {
        s
    } else {
        let s1 = after_roster(s, tick, ps.drop_last());
        let p = ps.last();
        if p.is_hltv || s1.players.contains_key(p.user_id) {
            s1
        } else {
            NetView {
                players: s1.players.insert(
                    p.user_id,
                    PlayerView {
                        entity_id: p.entity_id,
                        user_id: p.user_id,
                        name: p.name,
                        steam_id: p.steam_id,
                        is_bot: p.is_fake_player,
                        first_seen_tick: tick,
                    },
                ),
                ..s1
            }
        }
    }
}

/// The bits of a byte string.
pub open spec fn bits_of(bytes: Seq<u8>) -> Seq<bool> {
    stream_bits(bytes, (bytes.len() * 8) as nat)
}

/// What one frame changes. Signon and packet frames: their net messages
/// are walked and applied in order, a walk that stops on an error counting
/// one warning first. String-tables frames: the userinfo roster is applied,
/// where the tables decode. Other frames change nothing.
pub open spec fn after_frame(s: NetView, data: Seq<u8>, protocol: i32, frame: Frame) -> NetView {
    let bits = bits_of(data.subrange(frame.payload.start as int, frame.payload.end as int));
    if frame.kind == FrameKind::Signon || frame.kind == FrameKind::Packet {
        let (ms, err) = spec_walk(bits, 0, protocol, bits.len());
        after_messages(if err is Some { warn(s) } else { s }, frame.tick, ms)
    } else if frame.kind == FrameKind::StringTables {
        match spec_userinfo(bits) {
            None => s,
            Some(ps) => after_roster(s, frame.tick, ps),
        }
    } else {
        s
    }
}

/// Every player of `a` is in `b` with the same entity, userid, steam id,
/// bot flag and first sighting; only the name may differ.
pub open spec fn roster_kept(a: Map<u32, PlayerView>, b: Map<u32, PlayerView>) -> bool {
    forall|uid: u32|
        #[trigger] a.contains_key(uid) ==> {
            &&& b.contains_key(uid)
            &&& b[uid].entity_id == a[uid].entity_id
            &&& b[uid].user_id == a[uid].user_id
            &&& b[uid].steam_id == a[uid].steam_id
            &&& b[uid].is_bot == a[uid].is_bot
            &&& b[uid].first_seen_tick == a[uid].first_seen_tick
        }
}

proof fn lemma_roster_kept_trans(a: Map<u32, PlayerView>, b: Map<u32, PlayerView>, c: Map<u32, PlayerView>)
    requires
        roster_kept(a, b),
        roster_kept(b, c),
    ensures
        roster_kept(a, c),
{
    assert forall|uid: u32| #[trigger] a.contains_key(uid) implies {
        &&& c.contains_key(uid)
        &&& c[uid].entity_id == a[uid].entity_id
        &&& c[uid].user_id == a[uid].user_id
        &&& c[uid].steam_id == a[uid].steam_id
        &&& c[uid].is_bot == a[uid].is_bot
        &&& c[uid].first_seen_tick == a[uid].first_seen_tick
    } by {
        assert(b.contains_key(uid));
    }
}

proof fn lemma_message_keeps_roster(s: NetView, tick: i32, m: MsgView)
    ensures
        roster_kept(s.players, after_message(s, tick, m).players),
{
    match m {
        MsgView::Event(bits) => match spec_game_event(bits, s.defs) {
            Ok((name, fs)) => {
                let s2 = after_game_event(s, tick, name, fs);
                assert(roster_kept(s.players, s2.players));
            },
            Err(_) => {},
        },
        _ => {},
    }
}

proof fn lemma_messages_keep_roster(s: NetView, tick: i32, ms: Seq<MsgView>)
    ensures
        roster_kept(s.players, after_messages(s, tick, ms).players),
    decreases ms.len(),
{
    if ms.len() > 0 {
        let mid = after_messages(s, tick, ms.drop_last());
        lemma_messages_keep_roster(s, tick, ms.drop_last());
        lemma_message_keeps_roster(mid, tick, ms.last());
        lemma_roster_kept_trans(s.players, mid.players, after_messages(s, tick, ms).players);
    }
}

proof fn lemma_roster_frames_keep(s: NetView, tick: i32, ps: Seq<PlayerInfoView>)
    ensures
        roster_kept(s.players, after_roster(s, tick, ps).players),
    decreases ps.len(),
{
    if ps.len() > 0 {
        let mid = after_roster(s, tick, ps.drop_last());
        lemma_roster_frames_keep(s, tick, ps.drop_last());
        assert(roster_kept(mid.players, after_roster(s, tick, ps).players));
        lemma_roster_kept_trans(s.players, mid.players, after_roster(s, tick, ps).players);
    }
}

/// A player, once on the roster, stays on it with the same entity, userid,
/// steam id, bot flag and first-seen tick: later sightings (string tables,
/// `player_connect`, `player_info`) never replace the entry, and a rename
/// changes only the name.
pub proof fn lemma_roster_kept(s: NetView, data: Seq<u8>, protocol: i32, frame: Frame)
    ensures
        roster_kept(s.players, after_frame(s, data, protocol, frame).players),
{
    let bits = bits_of(data.subrange(frame.payload.start as int, frame.payload.end as int));
    if frame.kind == FrameKind::Signon || frame.kind == FrameKind::Packet {
        let (ms, err) = spec_walk(bits, 0, protocol, bits.len());
        let s1 = if err is Some { warn(s) } else { s };
        lemma_messages_keep_roster(s1, frame.tick, ms);
    } else if frame.kind == FrameKind::StringTables {
        match spec_userinfo(bits) {
            None => {},
            Some(ps) => lemma_roster_frames_keep(s, frame.tick, ps),
        }
    }
}

/// Every roster entry is filed under its own userid.
pub open spec fn keyed_by_userid(players: Map<u32, PlayerView>) -> bool {
    forall|k: u32| #[trigger] players.contains_key(k) ==> players[k].user_id == k
}

proof fn lemma_messages_keep_keys(s: NetView, tick: i32, ms: Seq<MsgView>)
    requires
        keyed_by_userid(s.players),
    ensures
        keyed_by_userid(after_messages(s, tick, ms).players),
    decreases ms.len(),
{
    if ms.len() > 0 {
        lemma_messages_keep_keys(s, tick, ms.drop_last());
        let mid = after_messages(s, tick, ms.drop_last());
        match ms.last() {
            MsgView::Event(bits) => match spec_game_event(bits, mid.defs) {
                Ok((name, fs)) => {
                    assert(keyed_by_userid(after_game_event(mid, tick, name, fs).players));
                },
                Err(_) => {},
            },
            _ => {},
        }
    }
}

proof fn lemma_roster_keeps_keys(s: NetView, tick: i32, ps: Seq<PlayerInfoView>)
    requires
        keyed_by_userid(s.players),
    ensures
        keyed_by_userid(after_roster(s, tick, ps).players),
    decreases ps.len(),
{
    if ps.len() > 0 {
        lemma_roster_keeps_keys(s, tick, ps.drop_last());
    }
}

/// The roster stays filed by userid: every entry's key is its userid, so a
/// lookup by userid finds that player.
pub proof fn lemma_roster_keyed(s: NetView, data: Seq<u8>, protocol: i32, frame: Frame)
    requires
        keyed_by_userid(s.players),
    ensures
        keyed_by_userid(after_frame(s, data, protocol, frame).players),
{
    let bits = bits_of(data.subrange(frame.payload.start as int, frame.payload.end as int));
    if frame.kind == FrameKind::Signon || frame.kind == FrameKind::Packet {
        let (ms, err) = spec_walk(bits, 0, protocol, bits.len());
        let s1 = if err is Some { warn(s) } else { s };
        lemma_messages_keep_keys(s1, frame.tick, ms);
    } else if frame.kind == FrameKind::StringTables {
        match spec_userinfo(bits) {
            None => {},
            Some(ps) => lemma_roster_keeps_keys(s, frame.tick, ps),
        }
    }
}

impl NetPass {
    pub fn new() -> (p: Self)
        ensures
            p@ == (NetView {
                defs: Map::empty(),
                events: Seq::empty(),
                kills: Seq::empty(),
                chat: Seq::empty(),
                players: Map::empty(),
                warnings: 0,
            }),
    {
        let p = NetPass {
            defs: HashMap::new(),
            events: Vec::new(),
            kills: Vec::new(),
            chat: Vec::new(),
            players: HashMap::new(),
            warnings: 0,
        };
        proof {
            assert(p@.defs =~= Map::empty());
            assert(p@.events =~= Seq::empty());
            assert(p@.kills =~= Seq::empty());
            assert(p@.chat =~= Seq::empty());
            assert(p@.players =~= Map::empty());
        }
        p
    }

    /// How many packets and events did not decode.
    pub fn warnings(&self) -> (n: usize)
        ensures
            n == self@.warnings,
    {
        self.warnings
    }

    fn add_warning(&mut self)
        ensures
            final(self)@ == warn(old(self)@),
    {
        self.warnings = self.warnings.saturating_add(1);
        proof {
            assert(self@.events =~= old(self)@.events);
            assert(self@.kills =~= old(self)@.kills);
            assert(self@.chat =~= old(self)@.chat);
            assert(self@.players =~= old(self)@.players);
        }
    }

    fn on_game_event(&mut self, tick: i32, name: &str, fields: &[(String, EventValue)])
        ensures
            final(self)@ == after_game_event(old(self)@, tick, name@, fields_view(fields@)),
    {
        let ghost fs = fields_view(fields@);
        if str_eq(name, "player_death") {
            let kill = Kill {
                tick,
                victim_userid: int_field(fields, "userid"),
                attacker_userid: int_field(fields, "attacker"),
                assists: int_field(fields, "assists"),
                weapon: str_field(fields, "weapon"),
                headshot: bool_field(fields, "headshot"),
                suicide: bool_field(fields, "suicide"),
                explosive: bool_field(fields, "explosive"),
                ghoster: bool_field(fields, "ghoster"),
            };
            self.kills.push(kill);
            proof {
                assert(self@.kills =~= old(self)@.kills.push(kill_of(tick, fs)));
                assert(self@.events =~= old(self)@.events);
                assert(self@.chat =~= old(self)@.chat);
                assert(self@.players =~= old(self)@.players);
            }
        } else if str_eq(name, "player_connect") || str_eq(name, "player_info") {
            let user_id = int_field(fields, "userid");
            if !self.players.contains_key(&user_id) {
                let index = int_field(fields, "index");
                let entity_id = if index == u32::MAX { 0 } else { index + 1 };
                let player = Player {
                    entity_id,
                    user_id,
                    name: str_field(fields, "name"),
                    steam_id: str_field(fields, "networkid"),
                    is_bot: bool_field(fields, "bot"),
                    first_seen_tick: tick,
                };
                let ghost pv = player@;
                self.players.insert(user_id, player);
                proof {
                    assert(self@.players =~= old(self)@.players.insert(user_id, pv));
                    assert(self@.events =~= old(self)@.events);
                    assert(self@.kills =~= old(self)@.kills);
                    assert(self@.chat =~= old(self)@.chat);
                }
            } else {
                proof {
                    assert(self@ == old(self)@);
                }
            }
        } else if str_eq(name, "player_changename") || str_eq(name, "player_changeneoname") {
            let user_id = int_field(fields, "userid");
            match self.players.remove(&user_id) {
                Some(mut p) => {
                    let newname = str_field(fields, "newname");
                    let renamed = newname.as_str().unicode_len() > 0;
                    if renamed {
                        p.name = newname;
                    }
                    let ghost pv = p@;
                    self.players.insert(user_id, p);
                    proof {
                        if renamed {
                            assert(self@.players =~= old(self)@.players.insert(
                                user_id,
                                PlayerView { name: str_of(fs, "newname"@), ..old(self)@.players[user_id] },
                            ));
                        } else {
                            assert(self@.players =~= old(self)@.players);
                        }
                        assert(self@.events =~= old(self)@.events);
                        assert(self@.kills =~= old(self)@.kills);
                        assert(self@.chat =~= old(self)@.chat);
                    }
                },
                None => {
                    proof {
                        assert(self@.players =~= old(self)@.players);
                        assert(self@ == old(self)@);
                    }
                },
            }
        } else {
            proof {
                assert(self@ == old(self)@);
            }
        }
    }

    /// Take in one user message (SayText2 becomes a chat line).
    pub fn on_user_message(&mut self, tick: i32, kind: u8, data: &BitChunk)
        requires
            data.wf(),
        ensures
            final(self)@ == after_user_message(old(self)@, tick, kind, data@),
    {
        if kind != SAY_TEXT2 {
            return;
        }
        match read_say_text(data) {
            None => {},
            Some((client, from, text, team_chat)) => {
                let text = trimmed(strip_chat_codes(text.as_str()).as_str());
                let from = trimmed(strip_chat_codes(from.as_str()).as_str());
                if text.as_str().unicode_len() > 0 {
                    let line = ChatLine { tick, client_entity: client, from, text, team_chat };
                    let ghost lv = line@;
                    self.chat.push(line);
                    proof {
                        assert(self@.chat =~= old(self)@.chat.push(lv));
                        assert(self@.events =~= old(self)@.events);
                        assert(self@.kills =~= old(self)@.kills);
                        assert(self@.players =~= old(self)@.players);
                    }
                }
            },
        }
    }
}


impl Default for NetPass {
    fn default() -> (p: Self)
        ensures
            p@ == (NetView {
                defs: Map::empty(),
                events: Seq::empty(),
                kills: Seq::empty(),
                chat: Seq::empty(),
                players: Map::empty(),
                warnings: 0,
            }),
    {
        NetPass::new()
    }
}

impl NetPass {
    fn on_message(&mut self, tick: i32, msg: NetMessage)
        requires
            msg.wf(),
        ensures
            final(self)@ == after_message(old(self)@, tick, msg@),
    {
        match msg {
            NetMessage::GameEventList(defs) => {
                self.defs = defs;
                proof {
                    assert(self@.events =~= old(self)@.events);
                    assert(self@.kills =~= old(self)@.kills);
                    assert(self@.chat =~= old(self)@.chat);
                    assert(self@.players =~= old(self)@.players);
                }
            },
            NetMessage::GameEvent(chunk) => {
                match parse_game_event(&chunk, &self.defs) {
                    Ok((name, fields)) => {
                        self.on_game_event(tick, name.as_str(), fields.as_slice());
                        let ghost mid = self@;
                        let ghost ev = (tick, name@, fields_view(fields@));
                        self.events.push((tick, name, fields));
                        proof {
                            assert(self@.events =~= mid.events.push(ev));
                            assert(self@.kills =~= mid.kills);
                            assert(self@.chat =~= mid.chat);
                            assert(self@.players =~= mid.players);
                        }
                    },
                    Err(_) => self.add_warning(),
                }
            },
            NetMessage::UserMessage { kind, data } => {
                self.on_user_message(tick, kind, &data);
            },
        }
    }

    fn on_roster(&mut self, tick: i32, roster: Vec<crate::demo::stringtables::PlayerInfo>)
        ensures
            final(self)@ == after_roster(old(self)@, tick, players_view(roster@)),
    {
        let ghost all = players_view(roster@);
        let ghost start = self@;
        let ghost v = roster@;
        proof {
            assert(all.take(0) =~= Seq::<PlayerInfoView>::empty());
        }
        for p in it: roster.into_iter()
            invariant
                all == players_view(v),
                it.seq() == v,
                self@ == after_roster(start, tick, all.take(it.index() as int)),
        {
            let ghost i = it.index() as int;
            proof {
                assert(p@ == all[i]);
                assert(all.take(i + 1).drop_last() =~= all.take(i));
                assert(all.take(i + 1).last() == all[i]);
            }
            if !p.is_hltv && !self.players.contains_key(&p.user_id) {
                let user_id = p.user_id;
                let player = Player {
                    entity_id: p.entity_id,
                    user_id,
                    name: p.name,
                    steam_id: p.steam_id,
                    is_bot: p.is_fake_player,
                    first_seen_tick: tick,
                };
                let ghost before = self@;
                let ghost pv = player@;
                self.players.insert(user_id, player);
                proof {
                    assert(self@.players =~= before.players.insert(user_id, pv));
                    assert(self@.events =~= before.events);
                    assert(self@.kills =~= before.kills);
                    assert(self@.chat =~= before.chat);
                }
            }
        }
        proof {
            assert(all.take(all.len() as int) =~= all);
        }
    }

    /// Take in one frame: net messages of signon and packet frames, the
    /// roster of string-tables frames.
    pub fn on_frame(&mut self, ctx: &DemoContext, frame: &Frame)
        requires
            frame.payload.start <= frame.payload.end <= ctx.data@.len(),
            ctx.data@.len() * 8 + 8 <= usize::MAX,
        ensures
            final(self)@ == after_frame(old(self)@, ctx.data@, ctx.header.network_protocol, *frame),
    {
        let payload = frame.payload_in(ctx.data);
        if frame.kind == FrameKind::Signon || frame.kind == FrameKind::Packet {
            let tick = frame.tick;
            let (msgs, result) = walk_packet(payload, ctx.header.network_protocol);
            if result.is_err() {
                self.add_warning();
            }
            let ghost start = self@;
            let ghost ms = msgs_view(msgs@);
            let ghost v = msgs@;
            proof {
                assert(ms.take(0) =~= Seq::<MsgView>::empty());
            }
            for m in it: msgs.into_iter()
                invariant
                    ms == msgs_view(v),
                    it.seq() == v,
                    forall|k: int| 0 <= k < v.len() ==> (#[trigger] v[k]).wf(),
                    self@ == after_messages(start, tick, ms.take(it.index() as int)),
            {
                let ghost i = it.index() as int;
                proof {
                    assert(m@ == ms[i]);
                    assert(ms.take(i + 1).drop_last() =~= ms.take(i));
                    assert(ms.take(i + 1).last() == ms[i]);
                }
                self.on_message(tick, m);
            }
            proof {
                assert(ms.take(ms.len() as int) =~= ms);
            }
        } else if frame.kind == FrameKind::StringTables {
            match parse_userinfo(payload) {
                Ok(players) => self.on_roster(frame.tick, players),
                Err(_) => {},
            }
        }
    }
}

} // verus!
