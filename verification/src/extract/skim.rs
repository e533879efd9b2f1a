//! ASCII skim of bit-packed packet payloads.
//!
//! Net messages inside a packet payload are bit-packed, so embedded text
//! lands at an arbitrary bit alignment. Rather than decoding the message
//! stream, the payload is shifted by each of the 8 possible bit offsets and
//! the printable ASCII runs are collected. Callers filter the result
//! against the patterns they care about.

use vstd::prelude::*;
use crate::text::push_char;
use crate::demo::bits::{
    bit_at, bits_value, byte_bit, byte_bits, lemma_bits_value_cut, lemma_byte_bits_value, lemma_byte_value, stream_bits,
};

verus! {

/// Shortest run that is kept.
pub const MIN_LEN: usize = 8;

/// Printable ASCII: space through `~`.
pub open spec fn printable(b: u8) -> bool {
    0x20 <= b < 0x7f
}

/// The payload's byte stream read `shift` bits later (little-endian bit
/// order): byte `i` joins the high bits of byte `i` with the low bits of
/// byte `i + 1`. Shift 0 is the payload itself.
pub open spec fn shifted(p: Seq<u8>, shift: nat) -> Seq<u8> {
    if shift == 0 {
        p
    } else if p.len() < 2 {
        Seq::empty()
    } else {
        Seq::new(
            (p.len() - 1) as nat,
            |i: int| (p[i] >> (shift as u8)) | (p[i + 1] << ((8 - shift) as u8)),
        )
    }
}

/// A finished run, kept when long enough.
pub open spec fn emit(run: Seq<u8>) -> Seq<Seq<u8>> {
    if run.len() >= MIN_LEN {
        seq![run]
    } else {
        Seq::empty()
    }
}

/// The maximal printable runs of `bytes` from index `i` on, with `run`
/// the part of the current run already seen, in order; runs shorter than
/// [`MIN_LEN`] are dropped.
pub open spec fn runs_from(bytes: Seq<u8>, i: int, run: Seq<u8>) -> Seq<Seq<u8>>
    decreases bytes.len() - i,
{
    if i < 0 || i >= bytes.len() {
        emit(run)
    } else if printable(bytes[i]) {
        runs_from(bytes, i + 1, run.push(bytes[i]))
    } else {
        emit(run) + runs_from(bytes, i + 1, Seq::empty())
    }
}

/// The runs of printable bytes, at least [`MIN_LEN`] long, in order.
pub open spec fn printable_runs(bytes: Seq<u8>) -> Seq<Seq<u8>> {
    runs_from(bytes, 0, Seq::empty())
}

/// A run of ASCII bytes as text.
pub open spec fn ascii_text(run: Seq<u8>) -> Seq<char> {
    run.map_values(|b: u8| b as char)
}

/// The texts found at shifts `0..k`, shift by shift.
pub open spec fn skim_upto(p: Seq<u8>, k: nat) -> Seq<Seq<char>>
    decreases k,
{
    if k == 0 {
        Seq::empty()
    } else {
        skim_upto(p, (k - 1) as nat) + printable_runs(shifted(p, (k - 1) as nat)).map_values(
            |r: Seq<u8>| ascii_text(r),
        )
    }
}

/// Everything the skim of a payload recovers: the printable runs at each
/// of the 8 bit alignments, alignment 0 first.
pub open spec fn spec_skim(p: Seq<u8>) -> Seq<Seq<char>> {
    skim_upto(p, 8)
}

/// The texts of some strings.
pub open spec fn texts(v: Seq<String>) -> Seq<Seq<char>> {
    v.map_values(|s: String| s@)
}

/// Append `run` as text when it is long enough; empties `run`.
fn emit_run(run: &mut Vec<u8>, out: &mut Vec<String>)
    ensures
        final(run)@ == Seq::<u8>::empty(),
        texts(final(out)@) == texts(old(out)@) + emit(old(run)@).map_values(|r: Seq<u8>| ascii_text(r)),
{
    let ghost before = texts(out@);
    if run.len() >= MIN_LEN {
        let mut s = String::new();
        let mut i: usize = 0;
        while i < run.len()
            invariant
                i <= run@.len(),
                s@ == ascii_text(run@.subrange(0, i as int)),
            decreases run.len() - i,
        {
            push_char(&mut s, run[i] as char);
            proof {
                assert(ascii_text(run@.subrange(0, i + 1)) =~= ascii_text(run@.subrange(0, i as int)).push(run@[i as int] as char));
            }
            i = i + 1;
        }
        proof {
            assert(run@.subrange(0, run@.len() as int) =~= run@);
        }
        out.push(s);
        proof {
            assert(texts(out@) =~= before + emit(old(run)@).map_values(|r: Seq<u8>| ascii_text(r)));
        }
    } else {
        proof {
            assert(before + emit(old(run)@).map_values(|r: Seq<u8>| ascii_text(r)) =~= before);
        }
    }
    run.clear();
}

/// Byte `i` of the payload read `shift` bits later.
fn shifted_byte(payload: &[u8], i: usize, shift: u32) -> (b: u8)
    requires
        1 <= shift < 8,
        i + 1 < payload@.len(),
    ensures
        b == shifted(payload@, shift as nat)[i as int],
{
    (payload[i] >> (shift as u8)) | (payload[i + 1] << ((8 - shift) as u8))
}

/// Extract printable ASCII runs (at least [`MIN_LEN`] chars) at every bit
/// alignment, appending them to `out`.
pub fn skim(payload: &[u8], out: &mut Vec<String>)
    ensures
        texts(final(out)@) == texts(old(out)@) + spec_skim(payload@),
{
    let mut shift: u32 = 0;
    proof {
        assert(texts(out@) =~= texts(old(out)@) + skim_upto(payload@, 0));
    }
    while shift < 8
        invariant
            shift <= 8,
            texts(out@) == texts(old(out)@) + skim_upto(payload@, shift as nat),
        decreases 8 - shift,
    {
        let ghost bytes = shifted(payload@, shift as nat);
        let ghost base = texts(out@);
        let n: usize = if shift == 0 {
            payload.len()
        } else if payload.len() < 2 {
            0
        } else {
            payload.len() - 1
        };
        let mut run: Vec<u8> = Vec::new();
        let mut i: usize = 0;
        proof {
            assert(base + Seq::<Seq<char>>::empty() =~= base);
        }
        while i < n
            invariant
                bytes == shifted(payload@, shift as nat),
                n == bytes.len(),
                shift < 8,
                i <= n,
                base + printable_runs(bytes).map_values(|r: Seq<u8>| ascii_text(r)) == texts(out@)
                    + runs_from(bytes, i as int, run@).map_values(|r: Seq<u8>| ascii_text(r)),
            decreases n - i,
        {
            let b = if shift == 0 {
                payload[i]
            } else {
                shifted_byte(payload, i, shift)
            };
            if 0x20 <= b && b < 0x7f {
                run.push(b);
            } else {
                let ghost old_run = run@;
                let ghost pre = texts(out@);
                emit_run(&mut run, out);
                proof {
                    let f = |r: Seq<u8>| ascii_text(r);
                    let rest = runs_from(bytes, i + 1, Seq::empty());
                    assert((emit(old_run) + rest).map_values(f) =~= emit(old_run).map_values(f) + rest.map_values(f));
                    assert(pre + (emit(old_run).map_values(f) + rest.map_values(f)) =~= texts(out@) + rest.map_values(f));
                }
            }
            i = i + 1;
        }
        let ghost old_run = run@;
        emit_run(&mut run, out);
        proof {
            let f = |r: Seq<u8>| ascii_text(r);
            assert(texts(out@) =~= base + printable_runs(bytes).map_values(f));
            assert(texts(out@) =~= texts(old(out)@) + skim_upto(payload@, (shift + 1) as nat));
        }
        shift = shift + 1;
    }
}


// ---------------------------------------------------------------------
// Text at any bit offset is recovered.

/// Byte `i` of the payload read `k` bits later holds bits `8i + k ..` of
/// the payload's stream.
proof fn lemma_shifted_byte_bits(p: Seq<u8>, k: nat, i: int)
    requires
        k < 8,
        0 <= i,
        if k == 0 { i < p.len() } else { i + 1 < p.len() },
    ensures
        bits_value(stream_bits(p, p.len() * 8), 8 * i + k, 8) == shifted(p, k)[i],
{
    let bits = stream_bits(p, p.len() * 8);
    let x = shifted(p, k)[i];
    assert forall|t: int| 0 <= t < 8 implies #[trigger] bits[8 * i + k + t] == byte_bit(x, t) by {
        let q = 8 * i + k + t;
        assert(bits[q] == bit_at(p, q));
        let t8 = t as u8;
        let k8 = k as u8;
        if k == 0 {
            assert(q / 8 == i && q % 8 == t);
        } else {
            let a = p[i];
            let b = p[i + 1];
            assert(x == (a >> k8) | (b << ((8 - k) as u8)));
            assert(byte_bit(x, t) == ((x >> t8) & 1u8 == 1u8));
            let s8 = (8 - k) as u8;
            if k + t < 8 {
                let up = (k + t) as u8;
                assert((((a >> k8) | (b << s8)) >> t8) & 1u8 == (a >> up) & 1u8) by (bit_vector)
                    requires 1 <= k8 < 8, t8 < 8, s8 == 8 - k8, up == k8 + t8, k8 + t8 < 8;
                assert(q / 8 == i && q % 8 == k + t);
            } else {
                let down = (k + t - 8) as u8;
                assert((((a >> k8) | (b << s8)) >> t8) & 1u8 == (b >> down) & 1u8) by (bit_vector)
                    requires 1 <= k8 < 8, t8 < 8, s8 == 8 - k8, down == k8 + t8 - 8, k8 + t8 >= 8;
                assert(q / 8 == i + 1 && q % 8 == k + t - 8);
            }
        }
    }
    lemma_byte_value(bits, 8 * i + k, x);
}

/// The runs from `i` end with the runs after a non-printable byte `j`.
proof fn lemma_runs_suffix(bytes: Seq<u8>, i: int, run: Seq<u8>, j: int) -> (pre: Seq<Seq<u8>>)
    requires
        0 <= i <= j < bytes.len(),
        !printable(bytes[j]),
    ensures
        runs_from(bytes, i, run) == pre + runs_from(bytes, j + 1, Seq::empty()),
    decreases j - i,
{
    if i == j {
        emit(run)
    } else if printable(bytes[i]) {
        lemma_runs_suffix(bytes, i + 1, run.push(bytes[i]), j)
    } else {
        let rest = lemma_runs_suffix(bytes, i + 1, Seq::empty(), j);
        assert(emit(run) + (rest + runs_from(bytes, j + 1, Seq::empty())) =~= (emit(run) + rest) + runs_from(
            bytes,
            j + 1,
            Seq::empty(),
        ));
        emit(run) + rest
    }
}

/// A printable stretch `s` at `start` is gathered into the current run.
proof fn lemma_runs_gather(bytes: Seq<u8>, start: int, s: Seq<u8>, t: nat)
    requires
        0 <= start,
        start + s.len() <= bytes.len(),
        t <= s.len(),
        forall|m: int| 0 <= m < s.len() ==> bytes[start + m] == #[trigger] s[m] && printable(s[m]),
    ensures
        runs_from(bytes, start, Seq::empty()) == runs_from(bytes, start + t, s.take(t as int)),
    decreases t,
{
    if t == 0 {
        assert(s.take(0) =~= Seq::<u8>::empty());
    } else {
        lemma_runs_gather(bytes, start, s, (t - 1) as nat);
        assert(bytes[start + t - 1] == s[t - 1]);
        assert(s.take(t - 1).push(s[t - 1]) =~= s.take(t as int));
    }
}

/// The skim up to alignment `n` holds the texts found at every alignment
/// below `n`.
proof fn lemma_skim_upto_has(p: Seq<u8>, n: nat, k: nat, x: Seq<char>)
    requires
        k < n,
        printable_runs(shifted(p, k)).map_values(|r: Seq<u8>| ascii_text(r)).contains(x),
    ensures
        skim_upto(p, n).contains(x),
    decreases n,
{
    let f = |r: Seq<u8>| ascii_text(r);
    let here = printable_runs(shifted(p, (n - 1) as nat)).map_values(f);
    let before = skim_upto(p, (n - 1) as nat);
    assert(skim_upto(p, n) == before + here);
    if k == n - 1 {
        let i = choose|i: int| 0 <= i < here.len() && here[i] == x;
        assert((before + here)[before.len() + i] == x);
    } else {
        lemma_skim_upto_has(p, (n - 1) as nat, k, x);
        let i = choose|i: int| 0 <= i < before.len() && before[i] == x;
        assert((before + here)[i] == x);
    }
}

/// Text is recovered at any bit offset: wherever the payload's bit stream
/// holds, from any bit position on, a NUL byte, a run `s` of at least
/// [`MIN_LEN`] printable bytes and another NUL byte, the skim's output
/// includes `s` as text.
pub proof fn lemma_skim_finds_framed(p: Seq<u8>, pos: nat, s: Seq<u8>)
    requires
        s.len() >= MIN_LEN,
        forall|m: int| 0 <= m < s.len() ==> printable(#[trigger] s[m]),
        pos + 8 * (s.len() + 2) <= p.len() * 8,
        stream_bits(p, p.len() * 8).subrange(pos as int, (pos + 8 * (s.len() + 2)) as int) == byte_bits(
            seq![0u8] + s + seq![0u8],
        ),
    ensures
        spec_skim(p).contains(ascii_text(s)),
{
    let framed = seq![0u8] + s + seq![0u8];
    let n = s.len() + 2;
    let bits = stream_bits(p, p.len() * 8);
    let k = pos % 8;
    let j = (pos / 8) as int;
    let q = shifted(p, k);
    assert(pos == 8 * j + k);
    assert(framed.len() == n);
    // Each framed byte sits in the shifted stream at `j + i`.
    assert forall|i: int| 0 <= i < n implies #[trigger] q[j + i] == framed[i] by {
        if k == 0 {
            assert(j + i < p.len());
        } else {
            assert(j + i + 1 < p.len());
        }
        lemma_shifted_byte_bits(p, k, j + i);
        lemma_byte_bits_value(framed, i);
        lemma_bits_value_cut(bits, pos + 8 * i, 8);
        lemma_bits_value_cut(byte_bits(framed), 8 * i, 8);
        assert(bits.subrange(pos + 8 * i, pos + 8 * i + 8) =~= byte_bits(framed).subrange(8 * i, 8 * i + 8)) by {
            assert forall|t: int| 0 <= t < 8 implies #[trigger] bits.subrange(pos + 8 * i, pos + 8 * i + 8)[t]
                == byte_bits(framed).subrange(8 * i, 8 * i + 8)[t] by {
                assert(bits.subrange(pos as int, (pos + 8 * n) as int)[8 * i + t] == bits[pos + 8 * i + t]);
            }
        }
        assert(8 * (j + i) + k == pos + 8 * i);
    }
    if k == 0 {
        assert(q.len() == p.len());
    } else {
        assert(q.len() == p.len() - 1);
    }
    assert(j + n <= q.len());
    let zero: int = 0;
    assert(q[j + zero] == framed[zero]);
    assert(framed[0] == 0u8);
    assert(q[j] == 0u8);
    let pre = lemma_runs_suffix(q, 0, Seq::empty(), j);
    assert forall|m: int| 0 <= m < s.len() implies q[j + 1 + m] == #[trigger] s[m] && printable(s[m]) by {
        assert(q[j + (1 + m)] == framed[1 + m]);
        assert(framed[1 + m] == s[m]);
    }
    lemma_runs_gather(q, j + 1, s, s.len());
    assert(s.take(s.len() as int) =~= s);
    assert(q[j + (s.len() + 1)] == framed[(s.len() + 1) as int]);
    let rest = runs_from(q, j + 1 + s.len() + 1, Seq::empty());
    assert(runs_from(q, j + 1 + s.len(), s) == emit(s) + rest);
    assert(emit(s) == seq![s]);
    let runs = printable_runs(q);
    assert(runs == pre + (seq![s] + rest));
    let f = |r: Seq<u8>| ascii_text(r);
    assert(runs[pre.len() as int] == s);
    assert(runs.map_values(f)[pre.len() as int] == ascii_text(s));
    assert(runs.map_values(f).contains(ascii_text(s)));
    lemma_skim_upto_has(p, 8, k, ascii_text(s));
}

} // verus!
