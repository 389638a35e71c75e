//! The plane encoder and the container writer.
//!
//! A plane is compressed by a greedy single pass over its samples.  Equal
//! neighbours extend a run; when a run breaks, the difference between the
//! sample and its Paeth prediction selects an opcode.  Small differences are
//! held back one pixel (the outstanding diff) so that two of them can share a
//! single packed opcode.  The byte stream an encode produces is defined
//! exactly by the spec functions of this module, and the executable encoder
//! is proved to emit it.

use vstd::prelude::*;

use crate::plane::{
    cache_at, le16, lemma_cache_push, paeth, paeth_at, plane_seq, previous, raw_bytes, sample_hi,
    sample_lo,
};
use crate::{encodable_descriptor, lemma_size_products, spec_image_size, DTM};

verus! {

/// Errors that may occur during DTM image encoding.
#[derive(Clone, Copy, Debug, PartialEq, Eq, Hash, Structural)]
pub enum EncodeError {
    /// The input buffer does not contain enough pixel data.
    InsufficientInputData,
    /// The output buffer is too small to fit the encoded image.
    InsufficientOutputBuffer,
    /// An IO error occurred while saving the image.
    IoError,
}

/// A difference small enough for one half of a packed double-diff opcode.
pub open spec fn in_double(d: int) -> bool {
    -4 <= d < 4
}

/// A difference small enough for a single-diff opcode.
pub open spec fn in_single(d: int) -> bool {
    -32 <= d < 32
}

/// The cache opcode byte for a sample: `00` plus the sample's slot.
pub open spec fn op_cache(v: u16) -> u8 {
    (v % 64) as u8
}

/// The single-diff opcode byte: `01` plus the offset difference.
pub open spec fn op_single(d: int) -> u8 {
    (0x40 + d + 32) as u8
}

/// The double-diff opcode byte: `10` plus two 3-bit offset differences.
pub open spec fn op_double(d0: int, d1: int) -> u8 {
    (0x80 + (d0 + 4) * 8 + (d1 + 4)) as u8
}

/// The run-length opcode byte for a run of `rl` samples, `1 <= rl <= 63`.
pub open spec fn op_run(rl: int) -> u8 {
    (0xC0 + rl - 1) as u8
}

/// The literal opcode: a marker byte and the sample in little-endian order.
pub open spec fn op_default(v: u16) -> Seq<u8> {
    seq![0xFFu8, sample_lo(v), sample_hi(v)]
}

/// The difference between sample `i` and its prediction, as a plain integer.
pub open spec fn diff_at(p: Seq<u16>, w: int, i: int) -> int {
    p[i] - paeth_at(p, w, i)
}

/// The bytes that closing a run emits, with the write position at `idx`.
///
/// An outstanding diff that precedes a run of exactly one sample may fuse
/// with that sample's difference into one double-diff opcode; otherwise the
/// outstanding diff is flushed as a single-diff opcode and the run gets a
/// run-length opcode of its own.
pub open spec fn flush_bytes(p: Seq<u16>, w: int, idx: int, rl: int, od: Option<int>) -> Seq<u8> {
    match od {
        Some(d0) => {
            if rl == 1 && in_double(d0) && in_double(diff_at(p, w, idx - 1)) {
                seq![op_double(d0, diff_at(p, w, idx - 1))]
            } else {
                seq![op_single(d0), op_run(rl)]
            }
        },
        None => seq![op_run(rl)],
    }
}

/// The bytes emitted for the non-run sample at `i`, after any run before it
/// has been flushed; `od` is the outstanding diff still pending there.
pub open spec fn step_bytes(p: Seq<u16>, w: int, i: int, od: Option<int>) -> Seq<u8> {
    let d = diff_at(p, w, i);
    if in_double(d) {
        match od {
            Some(d0) => seq![op_double(d0, d)],
            None => Seq::empty(),
        }
    } else {
        let pending = match od {
            Some(d0) => seq![op_single(d0)],
            None => Seq::<u8>::empty(),
        };
        if in_single(d) {
            pending + seq![op_single(d)]
        } else if p[i] == cache_at(p.take(i), p[i] as int % 64) {
            pending + seq![op_cache(p[i])]
        } else {
            pending + op_default(p[i])
        }
    }
}

/// The outstanding diff left pending after the non-run sample at `i`.
pub open spec fn step_od(p: Seq<u16>, w: int, i: int, od: Option<int>) -> Option<int> {
    if in_double(diff_at(p, w, i)) && od is None {
        Some(diff_at(p, w, i))
    } else {
        None
    }
}

/// The bytes the encoder emits from sample `i` to the end of the plane,
/// starting with a run of `rl` pending samples and outstanding diff `od`.
///
/// This is the reference description of the encoder: one greedy pass, runs
/// capped at 63, and a final drain of whatever is still pending.
pub open spec fn enc_from(p: Seq<u16>, w: int, i: int, rl: int, od: Option<int>) -> Seq<u8>
    decreases p.len() - i,
{
    if i < 0 || i >= p.len() {
        if rl > 0 {
            flush_bytes(p, w, p.len() as int, rl, od)
        } else {
            match od {
                Some(d0) => seq![op_single(d0)],
                None => Seq::empty(),
            }
        }
    } else {
        if i >= 1 && p[i] == p[i - 1] {
            if rl + 1 == 63 {
                flush_bytes(p, w, i, 63, od) + enc_from(p, w, i + 1, 0, None)
            } else {
                enc_from(p, w, i + 1, rl + 1, od)
            }
        } else {
            let fl = if rl > 0 {
                flush_bytes(p, w, i, rl, od)
            } else {
                Seq::empty()
            };
            let od1 = if rl > 0 {
                None
            } else {
                od
            };
            fl + step_bytes(p, w, i, od1) + enc_from(p, w, i + 1, 0, step_od(p, w, i, od1))
        }
    }
}

/// The opcode stream for a whole plane.
pub open spec fn enc_plane(p: Seq<u16>, w: int) -> Seq<u8> {
    enc_from(p, w, 0, 0, None)
}

/// The bytes actually stored for a plane: the opcode stream, unless it fails
/// to beat the raw size, in which case the plane is stored verbatim.
pub open spec fn enc_plane_payload(p: Seq<u16>, w: int) -> Seq<u8> {
    if enc_plane(p, w).len() >= 2 * p.len() {
        raw_bytes(p)
    } else {
        enc_plane(p, w)
    }
}

/// The spec view of the encoder's outstanding diff register.
pub open spec fn od_view(od: Option<i32>) -> Option<int> {
    match od {
        Some(d) => Some(d as int),
        None => None,
    }
}

/// Closes the current run: fuses an outstanding diff with a one-sample run
/// into a double-diff opcode when both differences fit, and otherwise emits
/// the pending single-diff and run-length opcodes.
fn finish_run(p: &[u16], w: usize, i: usize, rl: &mut u8, od: &mut Option<i32>, out: &mut Vec<u8>)
    requires
        1 <= w,
        i <= p@.len(),
        1 <= *old(rl) <= 63,
        match *old(od) {
            Some(d0) => in_double(d0 as int) && i >= 1,
            None => true,
        },
    ensures
        final(out)@ == old(out)@ + flush_bytes(p@, w as int, i as int, *old(rl) as int, od_view(*old(od))),
        *final(rl) == 0,
        *final(od) is None,
{
    let mut run = true;

    if let Some(d0) = *od {
        if *rl == 1 {
            let pr = paeth(p, w, i - 1);
            let d: i32 = p[i - 1] as i32 - pr as i32;
            if -4 <= d0 && d0 < 4 && -4 <= d && d < 4 {
                out.push((128 + (d0 + 4) * 8 + (d + 4)) as u8);
                run = false;
            }
        }
        if run {
            out.push((96 + d0) as u8);
        }
        *od = None;
    }

    if run {
        out.push(0xC0 + *rl - 1);
    }

    *rl = 0;
}

/// Encodes one plane of samples into its opcode stream.
#[verifier::rlimit(80)]
pub fn encode_plane(p: &[u16], w: usize) -> (out: Vec<u8>)
    requires
        1 <= w,
    ensures
        out@ == enc_plane(p@, w as int),
{
    let n = p.len();
    let mut out: Vec<u8> = Vec::new();
    let mut cache: [u16; 64] = [0u16; 64];
    let mut rl: u8 = 0;
    let mut od: Option<i32> = None;
    let mut i: usize = 0;

    proof {
        broadcast use vstd::array::group_array_axioms;

    }

    while i < n
        invariant
            1 <= w,
            n == p@.len(),
            i <= n,
            rl <= 62,
            rl as int <= i as int,
            match od {
                Some(d0) => in_double(d0 as int) && i >= 1,
                None => true,
            },
            forall|s: int| 0 <= s < 64 ==> cache@[s] == cache_at(p@.take(i as int), s),
            enc_plane(p@, w as int) == out@ + enc_from(
                p@,
                w as int,
                i as int,
                rl as int,
                od_view(od),
            ),
        decreases n - i,
    {
        let ghost rl0 = rl as int;
        let ghost od0 = od_view(od);
        let ghost out0 = out@;
        let cur = p[i];
        let prev = previous(p, i);

        if i >= 1 && cur == prev {
            rl = rl + 1;
            if rl == 63 {
                finish_run(p, w, i, &mut rl, &mut od, &mut out);
                proof {
                    assert(enc_from(p@, w as int, i as int, rl0, od0) == flush_bytes(
                        p@,
                        w as int,
                        i as int,
                        63,
                        od0,
                    ) + enc_from(p@, w as int, i as int + 1, 0, None));
                    assert(enc_plane(p@, w as int) =~= out@ + enc_from(
                        p@,
                        w as int,
                        i as int + 1,
                        0,
                        None,
                    ));
                }
            } else {
                proof {
                    assert(enc_from(p@, w as int, i as int, rl0, od0) == enc_from(
                        p@,
                        w as int,
                        i as int + 1,
                        rl0 + 1,
                        od0,
                    ));
                }
            }
        } else {
            let ghost fl = if rl0 > 0 {
                flush_bytes(p@, w as int, i as int, rl0, od0)
            } else {
                Seq::<u8>::empty()
            };
            if rl > 0 {
                finish_run(p, w, i, &mut rl, &mut od, &mut out);
            }
            proof {
                assert(out@ =~= out0 + fl);
            }
            let ghost od1 = od_view(od);

            let pr = paeth(p, w, i);
            let diff: i32 = cur as i32 - pr as i32;

            if -4 <= diff && diff < 4 {
                match od {
                    Some(d0) => {
                        out.push((128 + (d0 + 4) * 8 + (diff + 4)) as u8);
                        od = None;
                    },
                    None => {
                        od = Some(diff);
                    },
                }
            } else {
                if let Some(d0) = od {
                    out.push((96 + d0) as u8);
                    od = None;
                }
                if -32 <= diff && diff < 32 {
                    out.push((96 + diff) as u8);
                } else if cur == cache[(cur % 64) as usize] {
                    out.push((cur % 64) as u8);
                } else {
                    out.push(0xFF);
                    out.push((cur % 256) as u8);
                    out.push((cur / 256) as u8);
                }
            }
            proof {
                let ghost sb = step_bytes(p@, w as int, i as int, od1);
                let ghost od2 = step_od(p@, w as int, i as int, od1);
                assert(out@ =~= out0 + fl + sb);
                assert(enc_from(p@, w as int, i as int, rl0, od0) == fl + sb + enc_from(
                    p@,
                    w as int,
                    i as int + 1,
                    0,
                    od2,
                ));
                assert(enc_plane(p@, w as int) =~= out@ + enc_from(
                    p@,
                    w as int,
                    i as int + 1,
                    0,
                    od2,
                ));
            }
        }

        cache[(cur % 64) as usize] = cur;
        proof {
            lemma_cache_push(p@.take(i as int), cur, cur as int % 64);
            assert(p@.take(i as int).push(cur) =~= p@.take(i as int + 1));
            assert forall|s: int| 0 <= s < 64 implies cache@[s] == cache_at(
                p@.take(i as int + 1),
                s,
            ) by {
                lemma_cache_push(p@.take(i as int), cur, s);
            }
        }
        i = i + 1;
    }

    let ghost drain = enc_from(p@, w as int, n as int, rl as int, od_view(od));
    if rl > 0 {
        finish_run(p, w, n, &mut rl, &mut od, &mut out);
    } else if let Some(d0) = od {
        out.push((96 + d0) as u8);
    }
    proof {
        assert(out@ =~= enc_plane(p@, w as int));
    }

    out
}

/// Gathers channel `ch` of a pixel-interleaved buffer as plain samples.
pub fn extract_plane(pix: &[u8], cc: usize, ch: usize, n: usize) -> (out: Vec<u16>)
    requires
        ch < cc,
        2 * (n * cc) <= pix@.len(),
    ensures
        out@ =~= plane_seq(pix@, cc as int, ch as int, n as int),
{
    let len = pix.len();
    let mut out: Vec<u16> = Vec::with_capacity(n);
    let mut i: usize = 0;
    while i < n
        invariant
            ch < cc,
            2 * (n * cc) <= pix@.len(),
            len == pix@.len(),
            i <= n,
            out@.len() == i,
            forall|j: int| 0 <= j < i ==> out@[j] == le16(
                pix@[2 * (j * cc + ch)],
                pix@[2 * (j * cc + ch) + 1],
            ),
        decreases n - i,
    {
        proof {
            assert(i * cc + ch < n * cc) by (nonlinear_arith)
                requires
                    i < n,
                    ch < cc,
                    0 <= i,
                    0 <= cc,
            ;
        }
        let idx: usize = 2 * (i * cc + ch);
        let lo = pix[idx];
        let hi = pix[idx + 1];
        out.push(lo as u16 + hi as u16 * 256);
        i = i + 1;
    }
    out
}

/// Writes a plane's samples verbatim as little-endian byte pairs.
pub fn raw_plane(p: &[u16]) -> (out: Vec<u8>)
    ensures
        out@ =~= raw_bytes(p@),
{
    let n = p.len();
    let mut out: Vec<u8> = Vec::new();
    let mut i: usize = 0;
    while i < n
        invariant
            n == p@.len(),
            i <= n,
            out@.len() == 2 * i,
            forall|b: int| 0 <= b < 2 * i ==> out@[b] == (if b % 2 == 0 {
                sample_lo(p@[b / 2])
            } else {
                sample_hi(p@[b / 2])
            }),
        decreases n - i,
    {
        let v = p[i];
        out.push((v % 256) as u8);
        out.push((v / 256) as u8);
        i = i + 1;
    }
    out
}


/// A 32-bit value as its four big-endian bytes.
pub open spec fn be32_bytes(x: u32) -> Seq<u8> {
    seq![
        (x / 0x1000000) as u8,
        ((x / 0x10000) % 256) as u8,
        ((x / 256) % 256) as u8,
        (x % 256) as u8,
    ]
}

/// The stored payload of channel `ch` of a pixel-interleaved buffer.
pub open spec fn channel_payload(pix: Seq<u8>, d: DTM, ch: int) -> Seq<u8> {
    enc_plane_payload(
        plane_seq(pix, d.channel_count as int, ch, d.width * d.height),
        d.width as int,
    )
}

/// The plane-length table entry for channel `ch`: the payload's byte length
/// for a used channel, zero for an unused one.
pub open spec fn size_entry(pix: Seq<u8>, d: DTM, ch: int) -> u32 {
    if ch < d.channel_count {
        channel_payload(pix, d, ch).len() as u32
    } else {
        0
    }
}

/// The 28-byte container header: magic, sample size, dimensions, and the
/// plane-length table.
pub open spec fn header_bytes(d: DTM, pix: Seq<u8>) -> Seq<u8> {
    seq![0x64u8, 0x74u8, 0x6Du8, d.pixel_size as u8] + be32_bytes(d.width) + be32_bytes(d.height)
        + be32_bytes(size_entry(pix, d, 0)) + be32_bytes(size_entry(pix, d, 1)) + be32_bytes(
        size_entry(pix, d, 2),
    ) + be32_bytes(size_entry(pix, d, 3))
}

/// The plane payloads of channels `ch` and onward, concatenated.
pub open spec fn payloads_from(pix: Seq<u8>, d: DTM, ch: int) -> Seq<u8>
    decreases d.channel_count - ch,
{
    if ch < 0 || ch >= d.channel_count {
        Seq::empty()
    } else {
        channel_payload(pix, d, ch) + payloads_from(pix, d, ch + 1)
    }
}

/// The bytes that encoding an image produces: the header, then every
/// channel's payload in order.
pub open spec fn encoded_bytes(d: DTM, pix: Seq<u8>) -> Seq<u8> {
    header_bytes(d, pix) + payloads_from(pix, d, 0)
}

/// Appends a 32-bit value as big-endian bytes.
fn push_be32(out: &mut Vec<u8>, x: u32)
    ensures
        final(out)@ =~= old(out)@ + be32_bytes(x),
{
    out.push((x / 0x1000000) as u8);
    out.push(((x / 0x10000) % 256) as u8);
    out.push(((x / 256) % 256) as u8);
    out.push((x % 256) as u8);
}

impl DTM {
    /// Encodes a DTM image from a pixel slice into a newly allocated `Vec`.
    ///
    /// The pixel buffer must hold at least `image_size` bytes; any bytes
    /// beyond that are ignored.
    #[verifier::rlimit(100)]
    pub fn encode_alloc(&self, decoded: &[u8]) -> (r: Result<Vec<u8>, EncodeError>)
        requires
            encodable_descriptor(*self),
        ensures
            match r {
                Ok(v) => {
                    &&& decoded@.len() >= spec_image_size(*self)
                    &&& v@ =~= encoded_bytes(*self, decoded@)
                },
                Err(e) => {
                    &&& decoded@.len() < spec_image_size(*self)
                    &&& e == EncodeError::InsufficientInputData
                },
            },
    {
        let ghost d = *self;
        let ghost pix = decoded@;
        let image = self.image_size();
        if decoded.len() < image {
            return Err(EncodeError::InsufficientInputData);
        }
        let w = self.width as usize;
        let hh = self.height as usize;
        let cc = self.channel_count as usize;
        proof {
            lemma_size_products(*self);
            assert(2 * ((w as int) * (hh as int)) * (cc as int) == spec_image_size(d)
                && 2 * ((w as int) * (hh as int)) <= spec_image_size(d)) by (nonlinear_arith)
                requires
                    spec_image_size(d) == d.pixel_size * d.channel_count * d.width * d.height,
                    d.pixel_size == 2,
                    w == d.width,
                    hh == d.height,
                    cc == d.channel_count,
                    1 <= cc,
            ;
        }
        let n: usize = w * hh;
        let two_n: usize = 2 * n;

        let mut sizes: [u32; 4] = [0u32; 4];
        let mut payload: Vec<u8> = Vec::new();
        let mut ch: usize = 0;

        proof {
            broadcast use vstd::array::group_array_axioms;

        }

        while ch < cc
            invariant
                d == *self,
                pix == decoded@,
                encodable_descriptor(d),
                w == d.width,
                hh == d.height,
                cc == d.channel_count,
                n == w * hh,
                two_n == 2 * n,
                2 * (n as int) * (cc as int) == spec_image_size(d),
                2 * (n as int) <= spec_image_size(d),
                pix.len() >= spec_image_size(d),
                ch <= cc,
                payload@ + payloads_from(pix, d, ch as int) =~= payloads_from(pix, d, 0),
                forall|k: int| 0 <= k < 4 ==> sizes@[k] == (if k < ch {
                    size_entry(pix, d, k)
                } else {
                    0u32
                }),
            decreases cc - ch,
        {
            let ghost payload0 = payload@;
            proof {
                assert(2 * ((n * cc) as int) == spec_image_size(d)) by (nonlinear_arith)
                    requires
                        2 * (n as int) * (cc as int) == spec_image_size(d),
                ;
            }
            let samples = extract_plane(decoded, cc, ch, n);
            let mut ops = encode_plane(samples.as_slice(), w);
            proof {
                assert(samples@.len() == n);
                assert(samples@ == plane_seq(pix, d.channel_count as int, ch as int, d.width
                    * d.height));
            }
            if ops.len() >= two_n {
                ops = raw_plane(samples.as_slice());
            }
            proof {
                assert(ops@ =~= channel_payload(pix, d, ch as int));
                assert(ops@.len() <= two_n);
            }
            let len32: u32 = ops.len() as u32;
            sizes[ch] = len32;
            payload.append(&mut ops);
            ch = ch + 1;
            proof {
                assert(payload@ =~= payload0 + channel_payload(pix, d, ch as int - 1));
                assert(payloads_from(pix, d, ch as int - 1) == channel_payload(pix, d, ch as int
                    - 1) + payloads_from(pix, d, ch as int));
                assert(payload@ + payloads_from(pix, d, ch as int) =~= payloads_from(pix, d, 0));
            }
        }

        let mut out: Vec<u8> = Vec::new();
        out.push(0x64);
        out.push(0x74);
        out.push(0x6D);
        out.push(self.pixel_size as u8);
        proof {
            assert(out@ =~= seq![0x64u8, 0x74u8, 0x6Du8, d.pixel_size as u8]);
        }
        push_be32(&mut out, self.width);
        push_be32(&mut out, self.height);
        let s0 = sizes[0];
        push_be32(&mut out, s0);
        let s1 = sizes[1];
        push_be32(&mut out, s1);
        let s2 = sizes[2];
        push_be32(&mut out, s2);
        let s3 = sizes[3];
        push_be32(&mut out, s3);
        proof {
            assert(out@ =~= header_bytes(d, pix));
        }
        out.append(&mut payload);
        proof {
            assert(payloads_from(pix, d, cc as int) =~= Seq::<u8>::empty());
            assert(out@ =~= encoded_bytes(d, pix));
        }
        Ok(out)
    }
}

} // verus!
