//! The sample-level model of a channel plane.
//!
//! A plane is a row-major sequence of 16-bit samples.  This module defines
//! how samples relate to their little-endian byte pairs, the Paeth-style
//! predictor shared by the encoder and the decoder, and the 64-slot recency
//! cache that both sides update after every written sample.

use vstd::prelude::*;

verus! {

/// The 16-bit sample stored as the little-endian byte pair `(lo, hi)`.
pub open spec fn le16(lo: u8, hi: u8) -> u16 {
    (lo + hi * 256) as u16
}

/// Low byte of a sample.
pub open spec fn sample_lo(v: u16) -> u8 {
    (v % 256) as u8
}

/// High byte of a sample.
pub open spec fn sample_hi(v: u16) -> u8 {
    (v / 256) as u8
}

/// The samples of channel `ch` of a pixel-interleaved buffer with
/// `cc` channels: sample `i` sits at byte offset `2 * (i * cc + ch)`.
pub open spec fn plane_seq(pix: Seq<u8>, cc: int, ch: int, n: int) -> Seq<u16> {
    Seq::new(n as nat, |i: int| le16(pix[2 * (i * cc + ch)], pix[2 * (i * cc + ch) + 1]))
}

/// A plane stored verbatim: each sample as its little-endian byte pair.
pub open spec fn raw_bytes(p: Seq<u16>) -> Seq<u8> {
    Seq::new((2 * p.len()) as nat, |b: int| if b % 2 == 0 { sample_lo(p[b / 2]) } else { sample_hi(p[b / 2]) })
}

/// The sample before position `i`, or zero at the start of the plane.
pub open spec fn prev_at(p: Seq<u16>, i: int) -> u16 {
    if i <= 0 { 0 } else { p[i - 1] }
}

/// 16-bit wrap-around sum `a + b - c`.
pub open spec fn wrap_add_sub(a: u16, b: u16, c: u16) -> u16 {
    ((a + b + 0x10000 - c) % 0x10000) as u16
}

/// Absolute difference of two unsigned 16-bit values.
pub open spec fn abs_diff16(a: u16, b: u16) -> u16 {
    if a >= b { (a - b) as u16 } else { (b - a) as u16 }
}

/// The Paeth-style predictor for position `i` of a plane of width `w`.
///
/// On the first row and the left column it is the previous sample; elsewhere
/// it is whichever of left, above, and above-left lies nearest to the wrapped
/// sum `left + above - above_left`, ties resolved in that order.  Only
/// samples before position `i` are consulted.
pub open spec fn paeth_at(p: Seq<u16>, w: int, i: int) -> u16 {
    if w <= 0 || i < w || i % w == 0 {
        prev_at(p, i)
    } else {
        let a = p[i - 1];
        let b = p[i - w];
        let c = p[i - w - 1];
        let pr = wrap_add_sub(a, b, c);
        let da = abs_diff16(pr, a);
        let db = abs_diff16(pr, b);
        let dc = abs_diff16(pr, c);
        if da <= db && da <= dc {
            a
        } else if db <= dc {
            b
        } else {
            c
        }
    }
}

/// Contents of recency-cache slot `slot` after the samples `p` have been
/// written in order: the most recent sample congruent to `slot` modulo 64,
/// or zero if there is none.
pub open spec fn cache_at(p: Seq<u16>, slot: int) -> u16
    decreases p.len(),
{
    if p.len() == 0 {
        0
    } else if p.last() % 64 == slot {
        p.last()
    } else {
        cache_at(p.drop_last(), slot)
    }
}

/// Writing one more sample only moves the slot that sample occupies.
pub proof fn lemma_cache_push(p: Seq<u16>, v: u16, slot: int)
    ensures
        cache_at(p.push(v), slot) == if v % 64 == slot { v } else { cache_at(p, slot) },
{
    assert(p.push(v).drop_last() =~= p);
}

/// The predictor reads only samples before `i`, so any two planes that agree
/// up to `i` agree on the prediction there.
pub proof fn lemma_paeth_prefix(s: Seq<u16>, t: Seq<u16>, w: int, i: int)
    requires
        0 <= i <= s.len(),
        i <= t.len(),
        s.take(i) =~= t.take(i),
    ensures
        paeth_at(s, w, i) == paeth_at(t, w, i),
{
    assert forall|j: int| 0 <= j < i implies s[j] == t[j] by {
        assert(s.take(i)[j] == s[j]);
        assert(t.take(i)[j] == t[j]);
    }
    if i >= 1 {
        assert(s[i - 1] == t[i - 1]);
    }
    if !(w <= 0 || i < w || i % w == 0) {
        vstd::arithmetic::div_mod::lemma_mod_self_0(w);
        assert(i > w);
        assert(s[i - w] == t[i - w]);
        assert(s[i - w - 1] == t[i - w - 1]);
    }
}

/// Reads the sample before position `i`, or zero at the start of the plane.
pub fn previous(s: &[u16], i: usize) -> (r: u16)
    requires
        i <= s@.len(),
    ensures
        r == prev_at(s@, i as int),
{
    if i == 0 {
        0
    } else {
        s[i - 1]
    }
}

/// Computes the Paeth-style predictor for position `i` over the samples
/// already present in `s`.
pub fn paeth(s: &[u16], w: usize, i: usize) -> (r: u16)
    requires
        1 <= w,
        i <= s@.len(),
    ensures
        r == paeth_at(s@, w as int, i as int),
{
    if i < w || i % w == 0 {
        previous(s, i)
    } else {
        proof {
            vstd::arithmetic::div_mod::lemma_mod_self_0(w as int);
            assert(i > w);
        }
        let a = s[i - 1];
        let b = s[i - w];
        let c = s[i - w - 1];
        let pr = (((a as u32) + (b as u32) + 0x10000 - (c as u32)) % 0x10000) as u16;
        let da = if pr >= a { pr - a } else { a - pr };
        let db = if pr >= b { pr - b } else { b - pr };
        let dc = if pr >= c { pr - c } else { c - pr };
        if da <= db && da <= dc {
            a
        } else if db <= dc {
            b
        } else {
            c
        }
    }
}

/// A byte pair round-trips through its sample and back.
pub proof fn lemma_le16_bytes(v: u16)
    ensures
        le16(sample_lo(v), sample_hi(v)) == v,
        sample_lo(v) == v % 256,
        sample_hi(v) == v / 256,
{
}

/// The verbatim byte form of a plane reads back as the same samples.
pub proof fn lemma_raw_bytes_roundtrip(p: Seq<u16>)
    ensures
        plane_seq(raw_bytes(p), 1, 0, p.len() as int) =~= p,
{
    assert forall|i: int| 0 <= i < p.len() implies plane_seq(raw_bytes(p), 1, 0, p.len() as int)[i]
        == p[i] by {
        assert(raw_bytes(p)[2 * i] == sample_lo(p[i]));
        assert(raw_bytes(p)[2 * i + 1] == sample_hi(p[i]));
        lemma_le16_bytes(p[i]);
    }
}

} // verus!
