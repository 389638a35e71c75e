//! The laws of the codec.
//!
//! This module proves the format's central properties: decoding inverts
//! encoding bit for bit, planes are encoded independently, a stored plane
//! never exceeds its raw size, and every encoded container carries a
//! well-formed header.

use vstd::prelude::*;

use crate::decode::{
    apply_diff, be32_at, csize_at, dec_plane, dec_planes, decode_spec, header_issue, interleave,
    dtm_of, lemma_dec_unfold, magic_ok, spec_channel_count, sum_sizes, total_of,
    DecodeError,
};
use crate::encode::{
    be32_bytes, channel_payload, diff_at, enc_from, enc_plane, enc_plane_payload, encoded_bytes,
    flush_bytes, header_bytes, in_double, in_single, op_cache, op_double, op_default, op_run,
    op_single, payloads_from, size_entry, step_bytes, step_od,
};
use crate::plane::{
    cache_at, le16, lemma_le16_bytes, lemma_paeth_prefix, lemma_raw_bytes_roundtrip, paeth_at,
    plane_seq, prev_at, raw_bytes, sample_hi, sample_lo,
};
use crate::{encodable_descriptor, spec_image_size, DTM};

verus! {

/// Applying the exact difference between a sample and its prediction
/// reproduces the sample.
proof fn lemma_apply_diff_exact(pa: u16, v: u16)
    ensures
        apply_diff(pa, v - pa) == v,
{
}

/// The single-diff opcode byte classifies and reads back correctly.
proof fn lemma_op_single(d: int)
    requires
        in_single(d),
    ensures
        0x40 <= op_single(d) <= 0x7F,
        op_single(d) - 0x40 - 32 == d,
{
}

/// The double-diff opcode byte classifies and reads back correctly.
proof fn lemma_op_double(d0: int, d1: int)
    requires
        in_double(d0),
        in_double(d1),
    ensures
        0x80 <= op_double(d0, d1) <= 0xBF,
        (op_double(d0, d1) - 0x80) / 8 - 4 == d0,
        (op_double(d0, d1) - 0x80) % 8 - 4 == d1,
{
    vstd::arithmetic::div_mod::lemma_fundamental_div_mod_converse(
        (d0 + 4) * 8 + (d1 + 4),
        8,
        d0 + 4,
        d1 + 4,
    );
}

/// The run-length opcode byte classifies and reads back correctly.
proof fn lemma_op_run(rl: int)
    requires
        1 <= rl <= 63,
    ensures
        0xC0 <= op_run(rl) <= 0xFE,
        op_run(rl) - 0xC0 + 1 == rl,
{
}

/// In a stretch where every sample equals its predecessor, all of them
/// equal the sample just before the stretch.
proof fn lemma_run_all_equal(p: Seq<u16>, start: int, end: int)
    requires
        1 <= start <= end <= p.len(),
        forall|t: int| start <= t < end ==> #[trigger] p[t] == prev_at(p, t),
    ensures
        forall|t: int| start <= t < end ==> #[trigger] p[t] == p[start - 1],
    decreases end - start,
{
    if start < end {
        lemma_run_all_equal(p, start + 1, end);
        assert(p[start] == prev_at(p, start));
        assert forall|t: int| start <= t < end implies #[trigger] p[t] == p[start - 1] by {
            if t > start {
                assert(p[t] == p[start + 1 - 1]);
            }
        }
    }
}

/// The predictor over a decoded prefix agrees with the predictor over the
/// whole plane.
proof fn lemma_paeth_of_prefix(p: Seq<u16>, w: int, k: int)
    requires
        0 <= k <= p.len(),
    ensures
        paeth_at(p.take(k), w, k) == paeth_at(p, w, k),
{
    assert(p.take(k).take(k) =~= p.take(k));
    lemma_paeth_prefix(p.take(k), p, w, k);
}

/// Decoding one single-diff opcode from the prefix `p.take(k)` appends
/// exactly `p[k]` when the opcode carries that sample's difference.
proof fn lemma_dec_single_step(p: Seq<u16>, w: int, n: int, k: int, rest: Seq<u8>)
    requires
        0 <= k < p.len(),
        n == p.len(),
        in_single(diff_at(p, w, k)),
    ensures
        dec_plane(seq![op_single(diff_at(p, w, k))] + rest, w, n, p.take(k)) == dec_plane(
            rest,
            w,
            n,
            p.take(k + 1),
        ),
{
    let d = diff_at(p, w, k);
    let bytes = seq![op_single(d)] + rest;
    lemma_op_single(d);
    lemma_dec_unfold(bytes, w, n, p.take(k));
    lemma_paeth_of_prefix(p, w, k);
    lemma_apply_diff_exact(paeth_at(p, w, k), p[k]);
    assert(bytes.skip(1) =~= rest);
    assert(p.take(k).push(p[k]) =~= p.take(k + 1));
    assert(apply_diff(paeth_at(p.take(k), w, k), bytes[0] - 0x40 - 32) == p[k]);
}

/// Decoding one double-diff opcode from the prefix `p.take(k)` appends
/// exactly `p[k]` and `p[k + 1]` when it carries their differences.
proof fn lemma_dec_double_step(p: Seq<u16>, w: int, n: int, k: int, rest: Seq<u8>)
    requires
        0 <= k,
        k + 1 < p.len(),
        n == p.len(),
        in_double(diff_at(p, w, k)),
        in_double(diff_at(p, w, k + 1)),
    ensures
        dec_plane(seq![op_double(diff_at(p, w, k), diff_at(p, w, k + 1))] + rest, w, n, p.take(k))
            == dec_plane(rest, w, n, p.take(k + 2)),
{
    let d0 = diff_at(p, w, k);
    let d1 = diff_at(p, w, k + 1);
    let bytes = seq![op_double(d0, d1)] + rest;
    lemma_op_double(d0, d1);
    lemma_dec_unfold(bytes, w, n, p.take(k));
    lemma_paeth_of_prefix(p, w, k);
    lemma_apply_diff_exact(paeth_at(p, w, k), p[k]);
    assert(p.take(k).push(p[k]) =~= p.take(k + 1));
    lemma_paeth_of_prefix(p, w, k + 1);
    lemma_apply_diff_exact(paeth_at(p, w, k + 1), p[k + 1]);
    assert(p.take(k + 1).push(p[k + 1]) =~= p.take(k + 2));
    assert(bytes.skip(1) =~= rest);
    assert(apply_diff(paeth_at(p.take(k), w, k), (bytes[0] - 0x80) / 8 - 4) == p[k]);
    assert(apply_diff(paeth_at(p.take(k + 1), w, k + 1), (bytes[0] - 0x80) % 8 - 4) == p[k + 1]);
}

/// Decoding one run-length opcode from the prefix `p.take(k)` appends the
/// `rl` equal samples `p[k .. k + rl]`.
proof fn lemma_dec_run_step(p: Seq<u16>, w: int, n: int, k: int, rl: int, rest: Seq<u8>)
    requires
        1 <= k,
        0 <= rl,
        1 <= rl <= 63,
        k + rl <= p.len(),
        n == p.len(),
        forall|t: int| k <= t < k + rl ==> #[trigger] p[t] == prev_at(p, t),
    ensures
        dec_plane(seq![op_run(rl)] + rest, w, n, p.take(k)) == dec_plane(
            rest,
            w,
            n,
            p.take(k + rl),
        ),
{
    let bytes = seq![op_run(rl)] + rest;
    lemma_op_run(rl);
    lemma_dec_unfold(bytes, w, n, p.take(k));
    lemma_run_all_equal(p, k, k + rl);
    let pv = prev_at(p.take(k), k);
    assert(pv == p[k - 1]);
    assert(bytes.skip(1) =~= rest);
    assert(p.take(k) + Seq::new(rl as nat, |t: int| pv) =~= p.take(k + rl)) by {
        assert forall|t: int| k <= t < k + rl implies #[trigger] p[t] == pv by {
            assert(p[t] == p[k - 1]);
        }
    }
}

/// Decoding one cache opcode from the prefix `p.take(k)` appends `p[k]`
/// when the sample is present in its recency slot.
proof fn lemma_dec_cache_step(p: Seq<u16>, w: int, n: int, k: int, rest: Seq<u8>)
    requires
        0 <= k < p.len(),
        n == p.len(),
        p[k] == cache_at(p.take(k), p[k] as int % 64),
    ensures
        dec_plane(seq![op_cache(p[k])] + rest, w, n, p.take(k)) == dec_plane(
            rest,
            w,
            n,
            p.take(k + 1),
        ),
{
    let bytes = seq![op_cache(p[k])] + rest;
    lemma_dec_unfold(bytes, w, n, p.take(k));
    assert(bytes.skip(1) =~= rest);
    assert(bytes[0] == p[k] as int % 64);
    assert(p.take(k).push(p[k]) =~= p.take(k + 1));
}

/// Decoding one literal opcode from the prefix `p.take(k)` appends `p[k]`.
proof fn lemma_dec_default_step(p: Seq<u16>, w: int, n: int, k: int, rest: Seq<u8>)
    requires
        0 <= k < p.len(),
        n == p.len(),
    ensures
        dec_plane(op_default(p[k]) + rest, w, n, p.take(k)) == dec_plane(rest, w, n, p.take(k + 1)),
{
    let bytes = op_default(p[k]) + rest;
    lemma_dec_unfold(bytes, w, n, p.take(k));
    lemma_le16_bytes(p[k]);
    assert(bytes.skip(3) =~= rest);
    assert(bytes[1] == sample_lo(p[k]) && bytes[2] == sample_hi(p[k]));
    assert(le16(bytes[1], bytes[2]) == p[k]);
    assert(p.take(k).push(p[k]) =~= p.take(k + 1));
}


/// One if an outstanding diff is pending, zero otherwise.
spec fn odc(od: Option<int>) -> int {
    if od is Some {
        1
    } else {
        0
    }
}

/// Closing a run decodes to exactly the samples it covers: starting from
/// the prefix `p.take(k)`, the flushed opcodes extend the decode to
/// `p.take(e)` and leave the rest of the stream untouched.
proof fn lemma_flush_decodes(
    p: Seq<u16>,
    w: int,
    idx: int,
    rl: int,
    od: Option<int>,
    k: int,
    e: int,
    rest: Seq<u8>,
)
    requires
        1 <= rl <= 63,
        0 <= k,
        e <= p.len(),
        e == k + odc(od) + rl,
        od matches Some(d0) ==> in_double(d0) && d0 == diff_at(p, w, k),
        k + odc(od) >= 1,
        forall|t: int| k + odc(od) <= t < e ==> #[trigger] p[t] == prev_at(p, t),
        (od is Some && rl == 1) ==> idx == e,
    ensures
        dec_plane(flush_bytes(p, w, idx, rl, od) + rest, w, p.len() as int, p.take(k)) == dec_plane(
            rest,
            w,
            p.len() as int,
            p.take(e),
        ),
{
    let n = p.len() as int;
    match od {
        Some(d0) => {
            if rl == 1 && in_double(d0) && in_double(diff_at(p, w, idx - 1)) {
                assert(idx == e);
                assert(e == k + 2);
                lemma_dec_double_step(p, w, n, k, rest);
                assert(flush_bytes(p, w, idx, rl, od) + rest =~= seq![
                    op_double(d0, diff_at(p, w, k + 1)),
                ] + rest);
            } else {
                let mid = seq![op_run(rl)] + rest;
                assert(k < p.len());
                lemma_dec_single_step(p, w, n, k, mid);
                assert(p[k + 1] == prev_at(p, k + 1));
                lemma_dec_run_step(p, w, n, k + 1, rl, rest);
                assert(flush_bytes(p, w, idx, rl, od) + rest =~= seq![op_single(d0)] + mid);
            }
        },
        None => {
            assert(k >= 1);
            assert(p[k] == prev_at(p, k));
            lemma_dec_run_step(p, w, n, k, rl, rest);
            assert(flush_bytes(p, w, idx, rl, od) + rest =~= seq![op_run(rl)] + rest);
        },
    }
}

/// The heart of the round trip: from any reachable encoder state, decoding
/// what the encoder will still emit extends the decoded prefix to the whole
/// plane.
#[verifier::rlimit(100)]
proof fn lemma_enc_dec(p: Seq<u16>, w: int, i: int, rl: int, od: Option<int>)
    requires
        w >= 1,
        0 <= i <= p.len(),
        0 <= rl <= 62,
        rl <= i,
        i - rl - odc(od) >= 0,
        od matches Some(d0) ==> in_double(d0) && d0 == diff_at(p, w, i - rl - 1) && i - rl - 1
            < p.len(),
        rl >= 1 ==> i - rl >= 1,
        od is Some && rl == 0 ==> i >= 1,
        forall|t: int| i - rl <= t < i ==> #[trigger] p[t] == prev_at(p, t),
    ensures
        dec_plane(enc_from(p, w, i, rl, od), w, p.len() as int, p.take(i - rl - odc(od))) == Some(
            p,
        ),
    decreases p.len() - i,
{
    let n = p.len() as int;
    let k = i - rl - odc(od);
    if i >= n {
        if rl > 0 {
            lemma_flush_decodes(p, w, n, rl, od, k, i, Seq::empty());
            assert(flush_bytes(p, w, n, rl, od) + Seq::<u8>::empty() =~= flush_bytes(
                p,
                w,
                n,
                rl,
                od,
            ));
            reveal_with_fuel(dec_plane, 2);
            assert(p.take(n) =~= p);
        } else {
            match od {
                Some(d0) => {
                    lemma_dec_single_step(p, w, n, n - 1, Seq::empty());
                    assert(seq![op_single(diff_at(p, w, n - 1))] + Seq::<u8>::empty() =~= seq![
                        op_single(diff_at(p, w, n - 1)),
                    ]);
                    reveal_with_fuel(dec_plane, 2);
                    assert(p.take(n) =~= p);
                },
                None => {
                    reveal_with_fuel(dec_plane, 2);
                    assert(p.take(n) =~= p);
                },
            }
        }
    } else {
        if i >= 1 && p[i] == p[i - 1] {
            if rl + 1 == 63 {
                let rest = enc_from(p, w, i + 1, 0, None);
                lemma_flush_decodes(p, w, i, 63, od, k, i + 1, rest);
                lemma_enc_dec(p, w, i + 1, 0, None);
                assert(enc_from(p, w, i, rl, od) == flush_bytes(p, w, i, 63, od) + rest);
            } else {
                lemma_enc_dec(p, w, i + 1, rl + 1, od);
                assert(enc_from(p, w, i, rl, od) == enc_from(p, w, i + 1, rl + 1, od));
            }
        } else {
            let d = diff_at(p, w, i);
            let od1 = if rl > 0 {
                None
            } else {
                od
            };
            let od2 = step_od(p, w, i, od1);
            let k1 = i - odc(od1);
            let sb = step_bytes(p, w, i, od1);
            let cont = enc_from(p, w, i + 1, 0, od2);
            if rl > 0 {
                lemma_flush_decodes(p, w, i, rl, od, k, i, sb + cont);
                assert(enc_from(p, w, i, rl, od) =~= flush_bytes(p, w, i, rl, od) + (sb + cont));
            } else {
                assert(enc_from(p, w, i, rl, od) =~= sb + cont);
            }
            assert(dec_plane(enc_from(p, w, i, rl, od), w, n, p.take(k)) == dec_plane(
                sb + cont,
                w,
                n,
                p.take(k1),
            ));

            if in_double(d) {
                match od1 {
                    Some(d0) => {
                        assert(k1 == i - 1);
                        assert(od2 is None);
                        lemma_dec_double_step(p, w, n, i - 1, cont);
                        assert(sb + cont =~= seq![op_double(d0, d)] + cont);
                        lemma_enc_dec(p, w, i + 1, 0, None);
                    },
                    None => {
                        assert(k1 == i);
                        assert(od2 == Some(d));
                        assert(sb + cont =~= cont);
                        lemma_enc_dec(p, w, i + 1, 0, Some(d));
                    },
                }
            } else {
                let tailop = if in_single(d) {
                    seq![op_single(d)]
                } else if p[i] == cache_at(p.take(i), p[i] as int % 64) {
                    seq![op_cache(p[i])]
                } else {
                    op_default(p[i])
                };
                assert(od2 is None);
                match od1 {
                    Some(d0) => {
                        assert(k1 == i - 1);
                        lemma_dec_single_step(p, w, n, i - 1, tailop + cont);
                        assert(sb + cont =~= seq![op_single(d0)] + (tailop + cont));
                    },
                    None => {
                        assert(k1 == i);
                        assert(sb + cont =~= tailop + cont);
                    },
                }
                assert(dec_plane(sb + cont, w, n, p.take(k1)) == dec_plane(
                    tailop + cont,
                    w,
                    n,
                    p.take(i),
                ));
                if in_single(d) {
                    lemma_dec_single_step(p, w, n, i, cont);
                } else if p[i] == cache_at(p.take(i), p[i] as int % 64) {
                    lemma_dec_cache_step(p, w, n, i, cont);
                } else {
                    lemma_dec_default_step(p, w, n, i, cont);
                }
                lemma_enc_dec(p, w, i + 1, 0, None);
            }
        }
    }
}

/// Decoding a plane's opcode stream reproduces the plane exactly.
pub proof fn lemma_plane_roundtrip(p: Seq<u16>, w: int)
    requires
        w >= 1,
    ensures
        dec_plane(enc_plane(p, w), w, p.len() as int, Seq::empty()) == Some(p),
{
    lemma_enc_dec(p, w, 0, 0, None);
    assert(p.take(0) =~= Seq::<u16>::empty());
}


/// Reading back four big-endian bytes yields the value they were made from.
proof fn lemma_be32_at(s: Seq<u8>, off: int, x: u32)
    requires
        0 <= off,
        off + 4 <= s.len(),
        s[off] == be32_bytes(x)[0],
        s[off + 1] == be32_bytes(x)[1],
        s[off + 2] == be32_bytes(x)[2],
        s[off + 3] == be32_bytes(x)[3],
    ensures
        be32_at(s, off) == x,
{
    vstd::arithmetic::div_mod::lemma_fundamental_div_mod(x as int, 256);
    vstd::arithmetic::div_mod::lemma_fundamental_div_mod(x as int / 256, 256);
    vstd::arithmetic::div_mod::lemma_fundamental_div_mod(x as int / 0x10000, 256);
    vstd::arithmetic::div_mod::lemma_div_denominator(x as int, 256, 256);
    vstd::arithmetic::div_mod::lemma_div_denominator(x as int, 0x10000, 256);
}

/// A used channel's payload is non-empty and never exceeds the raw plane
/// size; this is the format's no-expansion guarantee.
pub proof fn lemma_payload_len_bounds(p: Seq<u16>, w: int)
    requires
        w >= 1,
        p.len() >= 1,
    ensures
        1 <= enc_plane_payload(p, w).len() <= 2 * p.len(),
        enc_plane_payload(p, w).len() < 2 * p.len() <==> enc_plane(p, w).len() < 2 * p.len(),
{
    if enc_plane(p, w).len() >= 2 * p.len() {
        assert(enc_plane_payload(p, w) =~= raw_bytes(p));
        assert(raw_bytes(p).len() == 2 * p.len());
    } else {
        lemma_plane_roundtrip(p, w);
        if enc_plane(p, w).len() == 0 {
            reveal_with_fuel(dec_plane, 2);
            assert(enc_plane(p, w) =~= Seq::<u8>::empty());
            assert(dec_plane(enc_plane(p, w), w, p.len() as int, Seq::empty()) is None);
        }
    }
}


/// The length and field bytes of an encoded container's header.
proof fn lemma_header_fields(d: DTM, pix: Seq<u8>)
    ensures
        header_bytes(d, pix).len() == 28,
        encoded_bytes(d, pix).len() == 28 + payloads_from(pix, d, 0).len(),
        encoded_bytes(d, pix).skip(28) =~= payloads_from(pix, d, 0),
        magic_ok(encoded_bytes(d, pix)),
        encoded_bytes(d, pix)[3] == d.pixel_size as u8,
        be32_at(encoded_bytes(d, pix), 4) == d.width,
        be32_at(encoded_bytes(d, pix), 8) == d.height,
        csize_at(encoded_bytes(d, pix), 0) == size_entry(pix, d, 0),
        csize_at(encoded_bytes(d, pix), 1) == size_entry(pix, d, 1),
        csize_at(encoded_bytes(d, pix), 2) == size_entry(pix, d, 2),
        csize_at(encoded_bytes(d, pix), 3) == size_entry(pix, d, 3),
{
    let hd = header_bytes(d, pix);
    let out = encoded_bytes(d, pix);
    assert(hd.len() == 28);
    assert(out.len() == 28 + payloads_from(pix, d, 0).len());
    assert(out.skip(28) =~= payloads_from(pix, d, 0));
    assert(out[0] == 0x64 && out[1] == 0x74 && out[2] == 0x6D && out[3] == d.pixel_size as u8);
    assert forall|t: int| 0 <= t < 4 implies out[4 + t] == be32_bytes(d.width)[t] by {}
    lemma_be32_at(out, 4, d.width);
    assert forall|t: int| 0 <= t < 4 implies out[8 + t] == be32_bytes(d.height)[t] by {}
    lemma_be32_at(out, 8, d.height);
    assert forall|t: int| 0 <= t < 4 implies out[12 + t] == be32_bytes(size_entry(pix, d, 0))[t] by {}
    lemma_be32_at(out, 12, size_entry(pix, d, 0));
    assert forall|t: int| 0 <= t < 4 implies out[16 + t] == be32_bytes(size_entry(pix, d, 1))[t] by {}
    lemma_be32_at(out, 16, size_entry(pix, d, 1));
    assert forall|t: int| 0 <= t < 4 implies out[20 + t] == be32_bytes(size_entry(pix, d, 2))[t] by {}
    lemma_be32_at(out, 20, size_entry(pix, d, 2));
    assert forall|t: int| 0 <= t < 4 implies out[24 + t] == be32_bytes(size_entry(pix, d, 3))[t] by {}
    lemma_be32_at(out, 24, size_entry(pix, d, 3));
}

/// The payload of a used channel is between one byte and the raw plane
/// size, and its length is what the header's table records.
proof fn lemma_cp_len(d: DTM, pix: Seq<u8>, ch: int)
    requires
        encodable_descriptor(d),
        0 <= ch < d.channel_count,
    ensures
        1 <= channel_payload(pix, d, ch).len() <= 2 * (d.width * d.height),
        size_entry(pix, d, ch) == channel_payload(pix, d, ch).len(),
        2 * (d.width * d.height) <= u32::MAX,
        d.width * d.height >= 1,
{
    let n = d.width * d.height;
    let plane = plane_seq(pix, d.channel_count as int, ch, n);
    assert(n >= 1 && 2 * n <= spec_image_size(d)) by (nonlinear_arith)
        requires
            spec_image_size(d) == d.pixel_size * d.channel_count * d.width * d.height,
            d.pixel_size == 2,
            n == d.width * d.height,
            d.width >= 1,
            d.height >= 1,
            d.channel_count >= 1,
    ;
    assert(plane.len() == n);
    lemma_payload_len_bounds(plane, d.width as int);
}

/// Where each channel's payload begins, and how the header's running total
/// relates to the payload bytes that remain.
proof fn lemma_payload_skip(d: DTM, pix: Seq<u8>, ch: int)
    requires
        encodable_descriptor(d),
        0 <= ch <= d.channel_count,
    ensures
        encoded_bytes(d, pix).skip(28 + sum_sizes(encoded_bytes(d, pix), ch)) =~= payloads_from(
            pix,
            d,
            ch,
        ),
        sum_sizes(encoded_bytes(d, pix), ch) + payloads_from(pix, d, ch).len() == payloads_from(
            pix,
            d,
            0,
        ).len(),
        sum_sizes(encoded_bytes(d, pix), ch) >= 0,
    decreases ch,
{
    let out = encoded_bytes(d, pix);
    lemma_header_fields(d, pix);
    if ch == 0 {
    } else {
        lemma_payload_skip(d, pix, ch - 1);
        lemma_cp_len(d, pix, ch - 1);
        let prev = 28 + sum_sizes(out, ch - 1);
        let cp = channel_payload(pix, d, ch - 1);
        assert(sum_sizes(out, ch) == sum_sizes(out, ch - 1) + csize_at(out, ch - 1));
        assert(csize_at(out, ch - 1) == cp.len());
        assert(payloads_from(pix, d, ch - 1) == cp + payloads_from(pix, d, ch));
        assert(out.skip(prev + cp.len() as int) =~= out.skip(prev).skip(cp.len() as int));
        assert((cp + payloads_from(pix, d, ch)).skip(cp.len() as int) =~= payloads_from(
            pix,
            d,
            ch,
        ));
    }
}


/// Every channel of an encoded container parses back to exactly the plane
/// that was encoded into it.
#[verifier::rlimit(100)]
proof fn lemma_dec_planes_encoded(d: DTM, pix: Seq<u8>, ch: int)
    requires
        encodable_descriptor(d),
        0 <= ch <= d.channel_count,
    ensures
        dec_planes(
            encoded_bytes(d, pix),
            d.width as int,
            d.width * d.height,
            d.channel_count as int,
            ch,
            28 + sum_sizes(encoded_bytes(d, pix), ch),
        ) == Ok::<Seq<Seq<u16>>, DecodeError>(
            Seq::new(
                (d.channel_count - ch) as nat,
                |k: int| plane_seq(pix, d.channel_count as int, ch + k, d.width * d.height),
            ),
        ),
    decreases d.channel_count - ch,
{
    let out = encoded_bytes(d, pix);
    let cc = d.channel_count as int;
    let n = d.width * d.height;
    let w = d.width as int;
    let off = 28 + sum_sizes(out, ch);
    if ch >= cc {
        assert(Seq::new(0nat, |k: int| plane_seq(pix, cc, ch + k, n)) =~= Seq::<Seq<u16>>::empty());
    } else {
        lemma_header_fields(d, pix);
        lemma_payload_skip(d, pix, ch);
        lemma_payload_skip(d, pix, ch + 1);
        lemma_cp_len(d, pix, ch);
        let cp = channel_payload(pix, d, ch);
        let plane = plane_seq(pix, cc, ch, n);
        let l = csize_at(out, ch);
        assert(l == cp.len());
        let seg = out.subrange(off, off + l);
        assert(seg =~= out.skip(off).take(l));
        assert((cp + payloads_from(pix, d, ch + 1)).take(cp.len() as int) =~= cp);
        assert(seg =~= cp);
        assert(plane.len() == n);

        if enc_plane(plane, w).len() >= 2 * plane.len() {
            assert(cp =~= raw_bytes(plane));
            assert(l == 2 * n);
            lemma_raw_bytes_roundtrip(plane);
            assert(plane_seq(seg, 1, 0, n) =~= plane);
        } else {
            assert(cp =~= enc_plane(plane, w));
            assert(l < 2 * n);
            lemma_plane_roundtrip(plane, w);
            assert(dec_plane(seg, w, n, Seq::empty()) == Some(plane));
        }

        lemma_dec_planes_encoded(d, pix, ch + 1);
        assert(sum_sizes(out, ch + 1) == sum_sizes(out, ch) + l);
        let rest = Seq::new((cc - ch - 1) as nat, |k: int| plane_seq(pix, cc, ch + 1 + k, n));
        assert(dec_planes(out, w, n, cc, ch + 1, off + l) == Ok::<Seq<Seq<u16>>, DecodeError>(
            rest,
        ));
        assert(seq![plane] + rest =~= Seq::new((cc - ch) as nat, |k: int| plane_seq(pix, cc, ch + k, n)));
    }
}

/// Gathering a pixel buffer into planes and interleaving them back is the
/// identity.
proof fn lemma_interleave_inverse(pix: Seq<u8>, cc: int, n: int)
    requires
        cc >= 1,
        n >= 0,
        pix.len() == 2 * cc * n,
    ensures
        interleave(Seq::new(cc as nat, |ch: int| plane_seq(pix, cc, ch, n)), n) =~= pix,
{
    let planes = Seq::new(cc as nat, |ch: int| plane_seq(pix, cc, ch, n));
    assert(planes.len() == cc);
    assert(interleave(planes, n).len() == 2 * cc * n);
    assert forall|bx: int| 0 <= bx < pix.len() implies interleave(planes, n)[bx] == pix[bx] by {
        let j = bx / 2;
        vstd::arithmetic::div_mod::lemma_fundamental_div_mod(bx, 2);
        vstd::arithmetic::div_mod::lemma_mod_bound(bx, 2);
        assert(bx == 2 * j + bx % 2);
        assert(2 * j < 2 * cc * n);
        assert(2 * cc * n == 2 * (cc * n)) by (nonlinear_arith);
        assert(j < cc * n);
        let i = j / cc;
        let ch = j % cc;
        vstd::arithmetic::div_mod::lemma_fundamental_div_mod(j, cc);
        vstd::arithmetic::div_mod::lemma_mod_bound(j, cc);
        assert(j == cc * i + ch);
        assert(i < n) by (nonlinear_arith)
            requires
                j == cc * i + ch,
                0 <= ch < cc,
                j < cc * n,
                0 <= i || i < 0,
                cc >= 1,
        ;
        assert(i >= 0) by (nonlinear_arith)
            requires
                j == cc * i + ch,
                0 <= ch < cc,
                j >= 0,
                cc >= 1,
        ;
        assert(planes[ch] == plane_seq(pix, cc, ch, n));
        let lo = pix[2 * (i * cc + ch)];
        let hi = pix[2 * (i * cc + ch) + 1];
        assert(planes[ch][i] == le16(lo, hi));
        assert(i * cc + ch == j) by (nonlinear_arith)
            requires
                j == cc * i + ch,
        ;
        vstd::arithmetic::div_mod::lemma_fundamental_div_mod_converse(
            lo + hi * 256,
            256,
            hi as int,
            lo as int,
        );
        assert(sample_lo(le16(lo, hi)) == lo);
        assert(sample_hi(le16(lo, hi)) == hi);
        if bx % 2 == 0 {
            assert(bx == 2 * j);
            assert(interleave(planes, n)[bx] == sample_lo(planes[ch][i]));
        } else {
            assert(bx == 2 * j + 1);
            assert(interleave(planes, n)[bx] == sample_hi(planes[ch][i]));
        }
    }
}

/// Round-trip identity: decoding an encoded image yields back the
/// descriptor and the pixel bytes, bit for bit.
pub proof fn lemma_round_trip(d: DTM, pix: Seq<u8>)
    requires
        encodable_descriptor(d),
        pix.len() == spec_image_size(d),
    ensures
        decode_spec(encoded_bytes(d, pix)) == Ok::<(DTM, Seq<u8>), DecodeError>((d, pix)),
{
    let out = encoded_bytes(d, pix);
    let cc = d.channel_count as int;
    let n = d.width * d.height;
    let w = d.width as int;
    lemma_header_fields(d, pix);
    lemma_payload_skip(d, pix, cc);

    assert(out.len() >= 28);
    assert(magic_ok(out));
    assert(out[3] == 2);

    assert forall|ch: int| 0 <= ch < cc implies csize_at(out, ch) >= 1 by {
        lemma_cp_len(d, pix, ch);
        if ch == 0 {
        } else if ch == 1 {
        } else if ch == 2 {
        } else {
        }
    }
    assert forall|ch: int| cc <= ch < 4 implies csize_at(out, ch) == 0 by {}
    assert(spec_channel_count(out) == cc);
    assert(header_issue(out) is None);

    assert(be32_at(out, 4) == d.width && be32_at(out, 8) == d.height);
    assert(be32_at(out, 4) * be32_at(out, 8) == n);

    assert(payloads_from(pix, d, cc).len() == 0);
    assert(total_of(out) == out.len());

    assert(2 * cc * n == spec_image_size(d)) by (nonlinear_arith)
        requires
            spec_image_size(d) == d.pixel_size * d.channel_count * d.width * d.height,
            d.pixel_size == 2,
            cc == d.channel_count,
            n == d.width * d.height,
    ;
    assert(2 * cc * n <= u32::MAX);
    assert(2 * cc * n <= usize::MAX);

    lemma_dec_planes_encoded(d, pix, 0);
    assert(sum_sizes(out, 0) == 0);
    let planes = Seq::new(cc as nat, |k: int| plane_seq(pix, cc, k, n));
    assert(Seq::new(cc as nat, |k: int| plane_seq(pix, cc, 0 + k, n)) =~~= planes);
    assert(dec_planes(out, w, n, cc, 0, 28) == Ok::<Seq<Seq<u16>>, DecodeError>(planes));

    assert(cc * n >= 0) by (nonlinear_arith)
        requires
            cc >= 1,
            n >= 0 || n < 0,
            cc * n * 2 == spec_image_size(d) || true,
            n == d.width * d.height,
            d.width >= 1,
            d.height >= 1,
    ;
    lemma_interleave_inverse(pix, cc, n);
    assert(interleave(planes, n) =~= pix);

    assert(dtm_of(out) == d);
    assert(decode_spec(out) == Ok::<(DTM, Seq<u8>), DecodeError>((dtm_of(out), interleave(
        planes,
        n,
    ))));
}


/// Plane independence: inside a multi-channel container, a channel's payload
/// is exactly what encoding that plane alone produces after its own header.
pub proof fn lemma_plane_independence(d: DTM, pix: Seq<u8>, ch: int)
    requires
        encodable_descriptor(d),
        0 <= ch < d.channel_count,
    ensures
        ({
            let out = encoded_bytes(d, pix);
            let off = 28 + sum_sizes(out, ch);
            let single = DTM {
                pixel_size: 2,
                channel_count: 1,
                width: d.width,
                height: d.height,
            };
            let plane = plane_seq(pix, d.channel_count as int, ch, d.width * d.height);
            out.subrange(off, off + csize_at(out, ch)) =~= encoded_bytes(
                single,
                raw_bytes(plane),
            ).skip(28)
        }),
{
    let out = encoded_bytes(d, pix);
    let cc = d.channel_count as int;
    let n = d.width * d.height;
    let w = d.width as int;
    let off = 28 + sum_sizes(out, ch);
    let single = DTM { pixel_size: 2, channel_count: 1, width: d.width, height: d.height };
    let plane = plane_seq(pix, cc, ch, n);

    lemma_header_fields(d, pix);
    lemma_payload_skip(d, pix, ch);
    lemma_cp_len(d, pix, ch);
    let cp = channel_payload(pix, d, ch);
    assert(out.subrange(off, off + csize_at(out, ch)) =~= out.skip(off).take(cp.len() as int));
    assert((cp + payloads_from(pix, d, ch + 1)).take(cp.len() as int) =~= cp);
    assert(out.subrange(off, off + csize_at(out, ch)) =~= cp);

    lemma_header_fields(single, raw_bytes(plane));
    lemma_raw_bytes_roundtrip(plane);
    assert(plane.len() == n);
    assert(plane_seq(raw_bytes(plane), 1, 0, single.width * single.height) =~= plane);
    assert(channel_payload(raw_bytes(plane), single, 0) == enc_plane_payload(plane, w));
    assert(payloads_from(raw_bytes(plane), single, 1) =~= Seq::<u8>::empty());
    assert(payloads_from(raw_bytes(plane), single, 0) =~= enc_plane_payload(plane, w));
    assert(cp == enc_plane_payload(plane, w));
    assert(encoded_bytes(single, raw_bytes(plane)).skip(28) =~= enc_plane_payload(plane, w));
}

/// Cache update universality: two buffers that differ only by swapping two
/// adjacent equal samples are the same buffer, so they encode identically;
/// in particular a run never disturbs the recency cache's contents.
pub proof fn lemma_swap_adjacent_equal(p: Seq<u16>, q: Seq<u16>, w: int, j: int)
    requires
        0 <= j,
        j + 1 < p.len(),
        p[j] == p[j + 1],
        q == p.update(j, p[j + 1]).update(j + 1, p[j]),
    ensures
        enc_plane(q, w) == enc_plane(p, w),
{
    assert(q =~= p);
}

/// Header well-formedness: every encoded container starts with the magic and
/// a two-byte sample size, zeroes the unused plane-length entries, and
/// declares plane lengths that sum to exactly the bytes that follow the
/// header.
pub proof fn lemma_header_well_formed(d: DTM, pix: Seq<u8>)
    requires
        encodable_descriptor(d),
    ensures
        ({
            let out = encoded_bytes(d, pix);
            &&& magic_ok(out)
            &&& out[3] == 2
            &&& forall|ch: int|
                d.channel_count <= ch < 4 ==> #[trigger] csize_at(out, ch) == 0
            &&& forall|ch: int|
                0 <= ch < d.channel_count ==> #[trigger] csize_at(out, ch) >= 1
            &&& 28 + sum_sizes(out, d.channel_count as int) == out.len()
            &&& total_of(out) == out.len()
            &&& spec_channel_count(out) == d.channel_count
        }),
{
    let out = encoded_bytes(d, pix);
    let cc = d.channel_count as int;
    lemma_header_fields(d, pix);
    lemma_payload_skip(d, pix, cc);
    assert(payloads_from(pix, d, cc).len() == 0);
    assert forall|ch: int| 0 <= ch < cc implies #[trigger] csize_at(out, ch) >= 1 by {
        lemma_cp_len(d, pix, ch);
        if ch == 0 {
        } else if ch == 1 {
        } else if ch == 2 {
        } else {
        }
    }
    assert forall|ch: int| cc <= ch < 4 implies #[trigger] csize_at(out, ch) == 0 by {}
    assert(spec_channel_count(out) == cc);
}

} // verus!
