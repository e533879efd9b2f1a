//! Text helpers: byte strings to `String`, char-level access and the
//! whitespace trimming that the extractors apply.

use vstd::prelude::*;

verus! {

/// What `String::from_utf8_lossy` makes of a byte string.
pub uninterp spec fn utf8_lossy(bytes: Seq<u8>) -> Seq<char>;

/// The text of a byte string as `String::from_utf8_lossy` decodes it:
/// valid UTF-8 is exactly the text it encodes; other bytes decode lossily.
pub open spec fn decoded_text(bytes: Seq<u8>) -> Seq<char> {
    if vstd::utf8::valid_utf8(bytes) {
        vstd::utf8::decode_utf8(bytes)
    } else {
        utf8_lossy(bytes)
    }
}

/// ASCII bytes decode to the chars with the same codes, one per byte.
pub proof fn lemma_ascii_decoded(bytes: Seq<u8>)
    requires
        forall|i: int| 0 <= i < bytes.len() ==> #[trigger] bytes[i] < 0x80,
    ensures
        vstd::utf8::valid_utf8(bytes),
        decoded_text(bytes) == bytes.map_values(|b: u8| b as char),
    decreases bytes.len(),
{
    if bytes.len() > 0 {
        let b = bytes[0];
        let rest = bytes.drop_first();
        assert forall|i: int| 0 <= i < rest.len() implies #[trigger] rest[i] < 0x80 by {
            assert(rest[i] == bytes[i + 1]);
        }
        lemma_ascii_decoded(rest);
        assert(b < 0x80);
        assert((b & 0x7Fu8) == b) by (bit_vector)
            requires b < 0x80u8;
        assert(vstd::utf8::pop_first_scalar(bytes) =~= rest);
        assert(vstd::utf8::valid_utf8(bytes));
        assert(decoded_text(bytes) =~= bytes.map_values(|b: u8| b as char));
    } else {
        assert(decoded_text(bytes) =~= bytes.map_values(|b: u8| b as char));
    }
}

/// `String::from_utf8_lossy` (std), owned. Claims that the result is the
/// lossy decoding of the bytes, and, as its documentation states, that
/// valid UTF-8 comes back as exactly the text it encodes.
#[verifier::external_body]
pub(crate) fn string_from_utf8_lossy(bytes: &[u8]) -> (s: String)
    ensures
        s@ == utf8_lossy(bytes@),
        vstd::utf8::valid_utf8(bytes@) ==> s@ == vstd::utf8::decode_utf8(bytes@),
{
    String::from_utf8_lossy(bytes).into_owned()
}

/// `String::push` (std): appends one char.
#[verifier::external_body]
pub(crate) fn push_char(s: &mut String, c: char)
    ensures
        final(s)@ == old(s)@.push(c),
{
    s.push(c);
}

/// The chars of a string slice.
pub fn chars_of(s: &str) -> (v: Vec<char>)
    ensures
        v@ == s@,
{
    let mut v: Vec<char> = Vec::new();
    for c in it: s.chars()
        invariant
            v@ == it.seq().take(it.index() as int),
    {
        v.push(c);
    }
    v
}

/// Whether two string slices hold the same text.
pub fn str_eq(a: &str, b: &str) -> (r: bool)
    ensures
        r == (a@ == b@),
{
    let x = chars_of(a);
    let y = chars_of(b);
    if x.len() != y.len() {
        return false;
    }
    let mut i: usize = 0;
    while i < x.len()
        invariant
            x@ == a@,
            y@ == b@,
            x@.len() == y@.len(),
            i <= x@.len(),
            forall|j: int| 0 <= j < i ==> x@[j] == y@[j],
        decreases x.len() - i,
    {
        if x[i] != y[i] {
            return false;
        }
        i = i + 1;
    }
    proof {
        assert(x@ =~= y@);
    }
    true
}

/// Whether `c` is an ASCII decimal digit.
pub open spec fn is_digit(c: char) -> bool {
    '0' <= c <= '9'
}

/// The value of a run of decimal digits, most significant first.
pub open spec fn decimal_value(ds: Seq<char>) -> int
    decreases ds.len(),
{
    if ds.len() == 0 {
        0
    } else {
        decimal_value(ds.drop_last()) * 10 + (ds.last() as int - '0' as int)
    }
}

/// The digits that `u32::from_str` reads: all of the text, or all after
/// a leading `+`.
pub open spec fn unsigned_digits(s: Seq<char>) -> Seq<char> {
    if s.len() > 0 && s[0] == '+' {
        s.drop_first()
    } else {
        s
    }
}

/// Every char is an ASCII digit.
pub open spec fn all_digits(ds: Seq<char>) -> bool {
    forall|i: int| 0 <= i < ds.len() ==> is_digit(#[trigger] ds[i])
}

/// The sign-stripped digits of a signed decimal.
pub open spec fn signed_digits(s: Seq<char>) -> Seq<char> {
    if s.len() > 0 && (s[0] == '-' || s[0] == '+') {
        s.drop_first()
    } else {
        s
    }
}

/// A run of one or more ASCII digits whose value fits in 32 bits, and
/// that value.
pub open spec fn spec_digits(ds: Seq<char>) -> Option<u32> {
    if ds.len() > 0 && all_digits(ds) && decimal_value(ds) <= u32::MAX {
        Some(decimal_value(ds) as u32)
    } else {
        None
    }
}

/// What `str::parse::<u32>` yields: an optional `+`, then one or more
/// ASCII digits whose value fits in 32 bits.
pub open spec fn spec_parse_u32(s: Seq<char>) -> Option<u32> {
    spec_digits(unsigned_digits(s))
}

/// What `str::parse::<i32>` yields: an optional sign, then one or more
/// ASCII digits whose signed value fits in 32 bits.
pub open spec fn spec_parse_i32(s: Seq<char>) -> Option<i32> {
    if s.len() == 0 {
        None
    } else {
        let neg = s[0] == '-';
        let ds = signed_digits(s);
        if ds.len() > 0 && all_digits(ds) {
            let v = decimal_value(ds);
            if neg && v <= 0x8000_0000 {
                Some((-v) as i32)
            } else if !neg && v <= 0x7fff_ffff {
                Some(v as i32)
            } else {
                None
            }
        } else {
            None
        }
    }
}

/// Extending a digit run by one digit.
proof fn lemma_decimal_push(ds: Seq<char>, c: char)
    ensures
        decimal_value(ds.push(c)) == decimal_value(ds) * 10 + (c as int - '0' as int),
{
    assert(ds.push(c).drop_last() =~= ds);
}

/// The value of the digits `cs[start..]`.
fn digits_value(cs: &Vec<char>, start: usize) -> (r: Option<u32>)
    requires
        start <= cs@.len(),
    ensures
        r == spec_digits(cs@.subrange(start as int, cs@.len() as int)),
{
    let ghost ds = cs@.subrange(start as int, cs@.len() as int);
    if start >= cs.len() {
        return None;
    }
    let mut acc: u32 = 0;
    let mut i: usize = start;
    proof {
        assert(cs@.subrange(start as int, start as int) =~= Seq::<char>::empty());
    }
    while i < cs.len()
        invariant
            start <= i <= cs@.len(),
            ds == cs@.subrange(start as int, cs@.len() as int),
            forall|j: int| start <= j < i ==> is_digit(#[trigger] cs@[j]),
            acc as int == decimal_value(cs@.subrange(start as int, i as int)),
        decreases cs.len() - i,
    {
        let c = cs[i];
        if !('0' <= c && c <= '9') {
            proof {
                assert(ds[i - start] == c);
                assert(!is_digit(ds[(i - start) as int]));
            }
            return None;
        }
        proof {
            lemma_decimal_push(cs@.subrange(start as int, i as int), c);
            assert(cs@.subrange(start as int, i as int).push(c) =~= cs@.subrange(start as int, i + 1));
        }
        let d = (c as u32) - ('0' as u32);
        let m = match acc.checked_mul(10) {
            Some(m) => m,
            None => {
                proof {
                    assert(ds.subrange(0, (i + 1 - start) as int) =~= cs@.subrange(start as int, i + 1));
                    if all_digits(ds) {
                        lemma_decimal_prefix_bound(ds, (i + 1 - start) as nat);
                    }
                }
                return None;
            },
        };
        acc = match m.checked_add(d) {
            Some(v) => v,
            None => {
                proof {
                    assert(ds.subrange(0, (i + 1 - start) as int) =~= cs@.subrange(start as int, i + 1));
                    if all_digits(ds) {
                        lemma_decimal_prefix_bound(ds, (i + 1 - start) as nat);
                    }
                }
                return None;
            },
        };
        i = i + 1;
    }
    proof {
        assert(cs@.subrange(start as int, i as int) =~= ds);
        assert forall|j: int| 0 <= j < ds.len() implies is_digit(#[trigger] ds[j]) by {
            assert(ds[j] == cs@[start + j]);
        }
    }
    Some(acc)
}

/// Parse a decimal `u32` as `str::parse::<u32>` does.
pub fn parse_u32(s: &str) -> (r: Option<u32>)
    ensures
        r == spec_parse_u32(s@),
{
    let cs = chars_of(s);
    let start: usize = if cs.len() > 0 && cs[0] == '+' { 1 } else { 0 };
    proof {
        assert(unsigned_digits(s@) =~= cs@.subrange(start as int, cs@.len() as int));
    }
    digits_value(&cs, start)
}

/// Parse a decimal `i32` as `str::parse::<i32>` does.
pub fn parse_i32(s: &str) -> (r: Option<i32>)
    ensures
        r == spec_parse_i32(s@),
{
    let cs = chars_of(s);
    if cs.len() == 0 {
        return None;
    }
    let neg = cs[0] == '-';
    let start: usize = if cs[0] == '-' || cs[0] == '+' { 1 } else { 0 };
    let ghost ds = cs@.subrange(start as int, cs@.len() as int);
    proof {
        assert(ds =~= signed_digits(s@));
    }
    match digits_value(&cs, start) {
        None => {
            proof {
                if ds.len() > 0 && all_digits(ds) {
                    assert(decimal_value(ds) > u32::MAX);
                }
                assert(spec_parse_i32(s@) is None);
            }
            None
        },
        Some(v) => {
            proof {
                lemma_decimal_prefix_bound(ds, ds.len());
                assert(ds.subrange(0, ds.len() as int) =~= ds);
                assert(v as int == decimal_value(ds));
                assert(neg == (s@[0] == '-'));
            }
            if neg {
                if v <= 0x8000_0000 {
                    let r = (0i64 - v as i64) as i32;
                    assert(r as int == -decimal_value(ds));
                    assert(spec_parse_i32(s@) == Some(r));
                    Some(r)
                } else {
                    None
                }
            } else if v <= 0x7fff_ffff {
                assert(spec_parse_i32(s@) == Some(v as i32));
                Some(v as i32)
            } else {
                None
            }
        },
    }
}

/// A run of digits is worth at least any of its prefixes.
proof fn lemma_decimal_prefix_bound(ds: Seq<char>, k: nat)
    requires
        k <= ds.len(),
        forall|i: int| 0 <= i < ds.len() ==> is_digit(#[trigger] ds[i]),
    ensures
        0 <= decimal_value(ds.subrange(0, k as int)) <= decimal_value(ds),
    decreases ds.len(),
{
    if k < ds.len() {
        lemma_decimal_prefix_bound(ds.drop_last(), k);
        assert(ds.drop_last().subrange(0, k as int) =~= ds.subrange(0, k as int));
        assert(is_digit(ds[ds.len() - 1]));
        lemma_decimal_prefix_bound(ds.drop_last(), (ds.len() - 1) as nat);
        assert(ds.drop_last().subrange(0, ds.len() - 1) =~= ds.drop_last());
    } else {
        assert(ds.subrange(0, k as int) =~= ds);
        if ds.len() > 0 {
            lemma_decimal_prefix_bound(ds.drop_last(), (ds.len() - 1) as nat);
            assert(ds.drop_last().subrange(0, ds.len() - 1) =~= ds.drop_last());
            assert(is_digit(ds[ds.len() - 1]));
        }
    }
}

/// The chars with the Unicode White_Space property (what `char::is_whitespace`
/// and `str::trim` go by).
pub open spec fn is_whitespace(c: char) -> bool {
    ||| '\u{9}' <= c <= '\u{d}'
    ||| c == ' '
    ||| c == '\u{85}'
    ||| c == '\u{a0}'
    ||| c == '\u{1680}'
    ||| '\u{2000}' <= c <= '\u{200a}'
    ||| c == '\u{2028}'
    ||| c == '\u{2029}'
    ||| c == '\u{202f}'
    ||| c == '\u{205f}'
    ||| c == '\u{3000}'
}

pub fn char_is_whitespace(c: char) -> (r: bool)
    ensures
        r == is_whitespace(c),
{
    ('\u{9}' <= c && c <= '\u{d}') || c == ' ' || c == '\u{85}' || c == '\u{a0}' || c == '\u{1680}'
        || ('\u{2000}' <= c && c <= '\u{200a}') || c == '\u{2028}' || c == '\u{2029}' || c == '\u{202f}'
        || c == '\u{205f}' || c == '\u{3000}'
}

/// Leading whitespace removed.
pub open spec fn trim_start(s: Seq<char>) -> Seq<char>
    decreases s.len(),
{
    if s.len() > 0 && is_whitespace(s[0]) {
        trim_start(s.drop_first())
    } else {
        s
    }
}

/// Trailing whitespace removed.
pub open spec fn trim_end(s: Seq<char>) -> Seq<char>
    decreases s.len(),
{
    if s.len() > 0 && is_whitespace(s.last()) {
        trim_end(s.drop_last())
    } else {
        s
    }
}

/// Leading and trailing whitespace removed, as `str::trim` does.
pub open spec fn trim(s: Seq<char>) -> Seq<char> {
    trim_end(trim_start(s))
}

/// A string of the chars `cs[from..to]`.
pub fn string_of(cs: &[char], from: usize, to: usize) -> (s: String)
    requires
        from <= to <= cs@.len(),
    ensures
        s@ == cs@.subrange(from as int, to as int),
{
    let mut s = String::new();
    let mut i = from;
    while i < to
        invariant
            from <= i <= to <= cs@.len(),
            s@ == cs@.subrange(from as int, i as int),
        decreases to - i,
    {
        push_char(&mut s, cs[i]);
        proof {
            assert(cs@.subrange(from as int, i + 1) =~= cs@.subrange(from as int, i as int).push(cs@[i as int]));
        }
        i = i + 1;
    }
    s
}

/// The text with leading and trailing whitespace removed.
pub fn trimmed(text: &str) -> (s: String)
    ensures
        s@ == trim(text@),
{
    let cs = chars_of(text);
    let n = cs.len();
    let mut i: usize = 0;
    proof {
        assert(cs@.subrange(0, n as int) =~= cs@);
    }
    while i < n && char_is_whitespace(cs[i])
        invariant
            cs@ == text@,
            n == cs@.len(),
            i <= n,
            trim_start(text@) == trim_start(cs@.subrange(i as int, n as int)),
        decreases n - i,
    {
        proof {
            assert(cs@.subrange(i as int, n as int).drop_first() =~= cs@.subrange(i + 1, n as int));
        }
        i = i + 1;
    }
    let mut j: usize = n;
    proof {
        assert(trim_start(text@) == cs@.subrange(i as int, n as int));
    }
    while j > i && char_is_whitespace(cs[j - 1])
        invariant
            cs@ == text@,
            n == cs@.len(),
            i <= j <= n,
            trim_start(text@) == cs@.subrange(i as int, n as int),
            trim(text@) == trim_end(cs@.subrange(i as int, j as int)),
        decreases j,
    {
        proof {
            assert(cs@.subrange(i as int, j as int).drop_last() =~= cs@.subrange(i as int, j - 1));
        }
        j = j - 1;
    }
    string_of(cs.as_slice(), i, j)
}

/// Lowercase mapping of `str::to_lowercase`.
pub uninterp spec fn lowercase(s: Seq<char>) -> Seq<char>;

/// `str::to_lowercase` (std): the Unicode lowercase mapping of the text.
#[verifier::external_body]
pub(crate) fn to_lowercase(s: &str) -> (r: String)
    ensures
        r@ == lowercase(s@),
{
    s.to_lowercase()
}

/// An owned copy of a string slice.
pub fn owned(s: &str) -> (r: String)
    ensures
        r@ == s@,
{
    s.to_owned()
}

/// `needle` occurs in `hay` starting at `i`.
pub open spec fn occurs_at(hay: Seq<char>, needle: Seq<char>, i: int) -> bool {
    0 <= i && i + needle.len() <= hay.len() && hay.subrange(i, i + needle.len()) == needle
}

/// `needle` occurs somewhere in `hay`.
pub open spec fn contains_text(hay: Seq<char>, needle: Seq<char>) -> bool {
    exists|i: int| #[trigger] occurs_at(hay, needle, i)
}

/// Whether `needle` occurs in `hay`.
pub fn contains(hay: &[char], needle: &str) -> (r: bool)
    ensures
        r == contains_text(hay@, needle@),
{
    let nd = chars_of(needle);
    if nd.len() > hay.len() {
        proof {
            assert forall|i: int| !#[trigger] occurs_at(hay@, needle@, i) by {}
        }
        return false;
    }
    let last = hay.len() - nd.len();
    let mut i: usize = 0;
    while i <= last
        invariant
            nd@ == needle@,
            last + nd@.len() == hay@.len(),
            i <= last + 1,
            forall|k: int| 0 <= k < i ==> !#[trigger] occurs_at(hay@, needle@, k),
        decreases last + 1 - i,
    {
        let mut j: usize = 0;
        let mut same = true;
        while j < nd.len()
            invariant
                nd@ == needle@,
                i <= last,
                last + nd@.len() == hay@.len(),
                i + nd@.len() <= hay.len(),
                j <= nd@.len(),
                same == (forall|t: int| 0 <= t < j ==> hay@[i + t] == nd@[t]),
            decreases nd.len() - j,
        {
            if hay[i + j] != nd[j] {
                same = false;
            }
            j = j + 1;
        }
        if same {
            proof {
                assert(hay@.subrange(i as int, i + nd@.len()) =~= needle@);
                assert(occurs_at(hay@, needle@, i as int));
            }
            return true;
        }
        proof {
            if occurs_at(hay@, needle@, i as int) {
                let t = choose|t: int| 0 <= t < nd@.len() && hay@[i + t] != nd@[t];
                assert(hay@.subrange(i as int, i + nd@.len())[t] == hay@[i + t]);
            }
        }
        if i == last {
            proof {
                assert forall|k: int| !#[trigger] occurs_at(hay@, needle@, k) by {
                    if k > last {
                        assert(k + needle@.len() > hay@.len());
                    }
                }
            }
            return false;
        }
        i = i + 1;
    }
    proof {
        assert forall|k: int| !#[trigger] occurs_at(hay@, needle@, k) by {}
    }
    false
}

} // verus!
