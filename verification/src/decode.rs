//! The plane decoder and the container reader.
//!
//! Decoding is the strict inverse of encoding: the header is parsed, each
//! channel's payload is either replayed opcode by opcode (when it is shorter
//! than the raw plane) or copied verbatim (when it has exactly the raw
//! size), and the reconstructed planes are interleaved back into the pixel
//! buffer.  The spec functions of this module define the result for every
//! input byte sequence, and the executable decoder is proved to return it.

use vstd::prelude::*;

use crate::plane::{
    cache_at, le16, lemma_cache_push, paeth, paeth_at, plane_seq, prev_at, previous, sample_hi,
    sample_lo,
};
use crate::DTM;

verus! {

broadcast use vstd::array::group_array_axioms;

/// Errors that may occur during DTM image decoding.
#[derive(Clone, Copy, Debug, PartialEq, Eq, Hash, Structural)]
pub enum DecodeError {
    /// The input buffer does not contain enough encoded data.
    InsufficientInputData,
    /// The encoded header contains an invalid magic value.
    ///
    /// The encoded data must start with `b"dtm"`.
    /// This usually indicates that the buffer does not contain a DTM image.
    InvalidMagic,
    /// The encoded header contains an invalid channels value.
    ///
    /// DTM supports 1 to 4 channels of 16-bit samples.
    /// Any other layout can not be produced by a valid encoder.
    InvalidChannels,
    /// An IO error occurred while loading the image.
    IoError,
}

/// A predicted sample with a signed difference applied, wrapping around the
/// 16-bit range.
pub open spec fn apply_diff(p: u16, d: int) -> u16 {
    ((p + d + 0x10000) % 0x10000) as u16
}

/// One plane reconstructed from the opcode stream `bytes`: starting from the
/// already-written samples `acc`, every opcode appends the samples it stands
/// for, and the stream is valid exactly when it fills the plane's `n`
/// sample positions completely.
#[verifier::opaque]
pub open spec fn dec_plane(bytes: Seq<u8>, w: int, n: int, acc: Seq<u16>) -> Option<Seq<u16>>
    decreases bytes.len(),
{
    if bytes.len() == 0 {
        if acc.len() == n {
            Some(acc)
        } else {
            None
        }
    } else {
        let b = bytes[0];
        if b <= 0x3F {
            if acc.len() + 1 > n {
                None
            } else {
                dec_plane(bytes.skip(1), w, n, acc.push(cache_at(acc, b as int)))
            }
        } else if b <= 0x7F {
            if acc.len() + 1 > n {
                None
            } else {
                dec_plane(
                    bytes.skip(1),
                    w,
                    n,
                    acc.push(apply_diff(paeth_at(acc, w, acc.len() as int), b - 0x40 - 32)),
                )
            }
        } else if b <= 0xBF {
            if acc.len() + 2 > n {
                None
            } else {
                let first = acc.push(
                    apply_diff(paeth_at(acc, w, acc.len() as int), (b - 0x80) / 8 - 4),
                );
                let second = first.push(
                    apply_diff(paeth_at(first, w, first.len() as int), (b - 0x80) % 8 - 4),
                );
                dec_plane(bytes.skip(1), w, n, second)
            }
        } else if b <= 0xFE {
            let cnt = b - 0xC0 + 1;
            if acc.len() + cnt > n {
                None
            } else {
                dec_plane(
                    bytes.skip(1),
                    w,
                    n,
                    acc + Seq::new(cnt as nat, |t: int| prev_at(acc, acc.len() as int)),
                )
            }
        } else {
            if bytes.len() < 3 {
                None
            } else if acc.len() + 1 > n {
                None
            } else {
                dec_plane(bytes.skip(3), w, n, acc.push(le16(bytes[1], bytes[2])))
            }
        }
    }
}

/// How one opcode at the head of the stream advances the spec decoder.
pub proof fn lemma_dec_unfold(bytes: Seq<u8>, w: int, n: int, acc: Seq<u16>)
    requires
        bytes.len() > 0,
    ensures
        bytes[0] <= 0x3F ==> dec_plane(bytes, w, n, acc) == (if acc.len() + 1 > n {
            None
        } else {
            dec_plane(bytes.skip(1), w, n, acc.push(cache_at(acc, bytes[0] as int)))
        }),
        0x40 <= bytes[0] <= 0x7F ==> dec_plane(bytes, w, n, acc) == (if acc.len() + 1 > n {
            None
        } else {
            dec_plane(
                bytes.skip(1),
                w,
                n,
                acc.push(apply_diff(paeth_at(acc, w, acc.len() as int), bytes[0] - 0x40 - 32)),
            )
        }),
        0x80 <= bytes[0] <= 0xBF ==> dec_plane(bytes, w, n, acc) == (if acc.len() + 2 > n {
            None
        } else {
            dec_plane(
                bytes.skip(1),
                w,
                n,
                acc.push(
                    apply_diff(paeth_at(acc, w, acc.len() as int), (bytes[0] - 0x80) / 8 - 4),
                ).push(
                    apply_diff(
                        paeth_at(
                            acc.push(
                                apply_diff(
                                    paeth_at(acc, w, acc.len() as int),
                                    (bytes[0] - 0x80) / 8 - 4,
                                ),
                            ),
                            w,
                            acc.len() as int + 1,
                        ),
                        (bytes[0] - 0x80) % 8 - 4,
                    ),
                ),
            )
        }),
        0xC0 <= bytes[0] <= 0xFE ==> dec_plane(bytes, w, n, acc) == (if acc.len() + (bytes[0]
            - 0xC0 + 1) > n {
            None
        } else {
            dec_plane(
                bytes.skip(1),
                w,
                n,
                acc + Seq::new((bytes[0] - 0xC0 + 1) as nat, |t: int| prev_at(acc, acc.len() as int)),
            )
        }),
        bytes[0] == 0xFF ==> dec_plane(bytes, w, n, acc) == (if bytes.len() < 3 {
            None
        } else if acc.len() + 1 > n {
            None
        } else {
            dec_plane(bytes.skip(3), w, n, acc.push(le16(bytes[1], bytes[2])))
        }),
{
    reveal_with_fuel(dec_plane, 2);
    if 0x80 <= bytes[0] <= 0xBF && acc.len() + 2 <= n {
        let first = acc.push(
            apply_diff(paeth_at(acc, w, acc.len() as int), (bytes[0] - 0x80) / 8 - 4),
        );
        assert(first.len() == acc.len() + 1);
    }
}

/// The big-endian 32-bit value at offset `off`.
pub open spec fn be32_at(b: Seq<u8>, off: int) -> int {
    b[off] * 0x1000000 + b[off + 1] * 0x10000 + b[off + 2] * 0x100 + b[off + 3]
}

/// The three magic bytes `b"dtm"`.
pub open spec fn magic_ok(b: Seq<u8>) -> bool {
    b[0] == 0x64 && b[1] == 0x74 && b[2] == 0x6D
}

/// The byte length recorded for channel `i` in the header's table.
pub open spec fn csize_at(b: Seq<u8>, i: int) -> int {
    be32_at(b, 12 + 4 * i)
}

/// The channel count is implicit on the wire: the index of the first zero
/// entry of the plane-length table, or four when none is zero.
pub open spec fn spec_channel_count(b: Seq<u8>) -> int {
    if csize_at(b, 0) == 0 {
        0
    } else if csize_at(b, 1) == 0 {
        1
    } else if csize_at(b, 2) == 0 {
        2
    } else if csize_at(b, 3) == 0 {
        3
    } else {
        4
    }
}

/// Sum of the first `k` plane-length entries.
pub open spec fn sum_sizes(b: Seq<u8>, k: int) -> int
    decreases k,
{
    if k <= 0 {
        0
    } else {
        sum_sizes(b, k - 1) + csize_at(b, k - 1)
    }
}

/// The byte length of the whole container: header plus every used plane.
pub open spec fn total_of(b: Seq<u8>) -> int {
    28 + sum_sizes(b, spec_channel_count(b))
}

/// The descriptor recorded in a header.
pub open spec fn dtm_of(b: Seq<u8>) -> DTM {
    DTM {
        pixel_size: b[3] as u32,
        channel_count: spec_channel_count(b) as u32,
        width: be32_at(b, 4) as u32,
        height: be32_at(b, 8) as u32,
    }
}

/// The complaint raised against a header, if any: a truncated header, a bad
/// magic, a sample size other than two bytes, or an empty channel table.
pub open spec fn header_issue(b: Seq<u8>) -> Option<DecodeError> {
    if b.len() < 28 {
        Some(DecodeError::InsufficientInputData)
    } else if !magic_ok(b) {
        Some(DecodeError::InvalidMagic)
    } else if b[3] != 2 {
        Some(DecodeError::InvalidChannels)
    } else if spec_channel_count(b) == 0 {
        Some(DecodeError::InvalidChannels)
    } else {
        None
    }
}

/// The planes of channels `ch` and onward, each reconstructed from its
/// payload: replayed opcodes when the payload is shorter than the raw plane,
/// a verbatim copy when it has exactly the raw size, and rejected as an
/// invalid channel when it is longer.
pub open spec fn dec_planes(b: Seq<u8>, w: int, n: int, cc: int, ch: int, off: int) -> Result<
    Seq<Seq<u16>>,
    DecodeError,
>
    decreases cc - ch,
{
    if ch >= cc {
        Ok(Seq::empty())
    } else {
        let l = csize_at(b, ch);
        let seg = b.subrange(off, off + l);
        if l > 2 * n {
            Err(DecodeError::InvalidChannels)
        } else if l == 2 * n {
            match dec_planes(b, w, n, cc, ch + 1, off + l) {
                Ok(rest) => Ok(seq![plane_seq(seg, 1, 0, n)] + rest),
                Err(e) => Err(e),
            }
        } else {
            match dec_plane(seg, w, n, Seq::empty()) {
                Some(p) => match dec_planes(b, w, n, cc, ch + 1, off + l) {
                    Ok(rest) => Ok(seq![p] + rest),
                    Err(e) => Err(e),
                },
                None => Err(DecodeError::InsufficientInputData),
            }
        }
    }
}

/// Planes put back into pixel-interleaved little-endian bytes.
pub open spec fn interleave(planes: Seq<Seq<u16>>, n: int) -> Seq<u8> {
    let cc = planes.len() as int;
    Seq::new(
        (2 * cc * n) as nat,
        |b: int|
            {
                let j = b / 2;
                let i = j / cc;
                let ch = j % cc;
                if b % 2 == 0 {
                    sample_lo(planes[ch][i])
                } else {
                    sample_hi(planes[ch][i])
                }
            },
    )
}

/// What decoding a byte buffer yields: the descriptor and the pixel bytes,
/// or the first error the buffer provokes.  An image too large for this
/// machine's address space is treated as truncated input.
pub open spec fn decode_spec(b: Seq<u8>) -> Result<(DTM, Seq<u8>), DecodeError> {
    match header_issue(b) {
        Some(e) => Err(e),
        None => {
            let n = be32_at(b, 4) * be32_at(b, 8);
            let cc = spec_channel_count(b);
            if b.len() < total_of(b) {
                Err(DecodeError::InsufficientInputData)
            } else if 2 * cc * n > usize::MAX {
                Err(DecodeError::InsufficientInputData)
            } else {
                match dec_planes(b, be32_at(b, 4), n, cc, 0, 28) {
                    Ok(planes) => Ok((dtm_of(b), interleave(planes, n))),
                    Err(e) => Err(e),
                }
            }
        },
    }
}

/// Plane-length entries are non-negative, so the running total only grows.
pub proof fn lemma_sum_sizes_mono(b: Seq<u8>, k1: int, k2: int)
    requires
        0 <= k1 <= k2,
    ensures
        sum_sizes(b, k1) <= sum_sizes(b, k2),
    decreases k2 - k1,
{
    if k1 < k2 {
        lemma_sum_sizes_mono(b, k1, k2 - 1);
    }
}

/// A successful plane parse yields one plane of `n` samples per channel.
pub proof fn lemma_dec_planes_len(b: Seq<u8>, w: int, n: int, cc: int, ch: int, off: int)
    requires
        dec_planes(b, w, n, cc, ch, off) is Ok,
        0 <= n,
    ensures
        dec_planes(b, w, n, cc, ch, off)->Ok_0.len() == if ch < cc {
            cc - ch
        } else {
            0
        },
        forall|k: int|
            0 <= k < dec_planes(b, w, n, cc, ch, off)->Ok_0.len()
                ==> (#[trigger] dec_planes(b, w, n, cc, ch, off)->Ok_0[k]).len() == n,
    decreases cc - ch,
{
    if ch < cc {
        lemma_dec_planes_len(b, w, n, cc, ch + 1, off + csize_at(b, ch));
        let l = csize_at(b, ch);
        let seg = b.subrange(off, off + l);
        if l == 2 * n {
            assert(plane_seq(seg, 1, 0, n).len() == n);
        } else if l < 2 * n {
            lemma_dec_plane_len(seg, w, n, Seq::empty());
        }
    }
}

/// A plane the spec decoder accepts holds exactly `n` samples.
pub proof fn lemma_dec_plane_len(bytes: Seq<u8>, w: int, n: int, acc: Seq<u16>)
    requires
        dec_plane(bytes, w, n, acc) is Some,
    ensures
        dec_plane(bytes, w, n, acc)->Some_0.len() == n,
    decreases bytes.len(),
{
    reveal_with_fuel(dec_plane, 2);
    if bytes.len() == 0 {
    } else {
        let b = bytes[0];
        if b <= 0x3F {
            lemma_dec_plane_len(bytes.skip(1), w, n, acc.push(cache_at(acc, b as int)));
        } else if b <= 0x7F {
            lemma_dec_plane_len(
                bytes.skip(1),
                w,
                n,
                acc.push(apply_diff(paeth_at(acc, w, acc.len() as int), b - 0x40 - 32)),
            );
        } else if b <= 0xBF {
            let first = acc.push(
                apply_diff(paeth_at(acc, w, acc.len() as int), (b - 0x80) / 8 - 4),
            );
            let second = first.push(
                apply_diff(paeth_at(first, w, first.len() as int), (b - 0x80) % 8 - 4),
            );
            lemma_dec_plane_len(bytes.skip(1), w, n, second);
        } else if b <= 0xFE {
            let cnt = b - 0xC0 + 1;
            lemma_dec_plane_len(
                bytes.skip(1),
                w,
                n,
                acc + Seq::new(cnt as nat, |t: int| prev_at(acc, acc.len() as int)),
            );
        } else {
            if bytes.len() >= 3 && acc.len() + 1 <= n {
                lemma_dec_plane_len(bytes.skip(3), w, n, acc.push(le16(bytes[1], bytes[2])));
            }
        }
    }
}

/// Where sample `i` of channel `ch` lands in the interleaved pixel bytes.
pub proof fn lemma_interleave_at(planes: Seq<Seq<u16>>, n: int, i: int, ch: int)
    requires
        0 <= ch < planes.len(),
        0 <= i < n,
    ensures
        0 <= 2 * (i * planes.len() + ch) + 1 < 2 * planes.len() * n,
        interleave(planes, n)[2 * (i * planes.len() + ch)] == sample_lo(planes[ch][i]),
        interleave(planes, n)[2 * (i * planes.len() + ch) + 1] == sample_hi(planes[ch][i]),
{
    let cc = planes.len() as int;
    let j = i * cc + ch;
    assert(0 <= j && j + 1 <= n * cc) by (nonlinear_arith)
        requires
            0 <= ch < cc,
            0 <= i < n,
            j == i * cc + ch,
    ;
    assert(2 * planes.len() * n == 2 * (n * cc)) by (nonlinear_arith)
        requires
            cc == planes.len(),
    ;
    vstd::arithmetic::div_mod::lemma_fundamental_div_mod_converse(2 * j, 2, j, 0);
    vstd::arithmetic::div_mod::lemma_fundamental_div_mod_converse(2 * j + 1, 2, j, 1);
    vstd::arithmetic::div_mod::lemma_fundamental_div_mod_converse(j, cc, i, ch);
}

/// Which byte positions have been filled once the scatter loops have copied
/// every channel before `ch` whole and the first `i` samples of `ch`.
spec fn scattered(bx: int, cc: int, ch: int, i: int) -> bool {
    (bx / 2) % cc < ch || ((bx / 2) % cc == ch && (bx / 2) / cc < i)
}

/// Writes the decoded planes back as pixel-interleaved little-endian bytes,
/// leaving any bytes past the image untouched.
fn scatter_planes(decoded: &mut [u8], planes: &Vec<Vec<u16>>, n: usize)
    requires
        planes@.len() >= 1,
        forall|k: int| 0 <= k < planes@.len() ==> (#[trigger] planes@[k])@.len() == n,
        2 * (planes@.len() * n) <= old(decoded)@.len(),
    ensures
        final(decoded)@.len() == old(decoded)@.len(),
        forall|bx: int|
            0 <= bx < 2 * (planes@.len() * n) ==> final(decoded)@[bx] == interleave(
                planes.deep_view(),
                n as int,
            )[bx],
        forall|bx: int|
            2 * (planes@.len() * n) <= bx < old(decoded)@.len() ==> final(decoded)@[bx] == old(
                decoded,
            )@[bx],
{
    let cc = planes.len();
    let dlen: usize = decoded.len();
    let ghost pix = interleave(planes.deep_view(), n as int);
    let ghost orig = decoded@;
    let mut ch: usize = 0;
    while ch < cc
        invariant
            cc == planes@.len(),
            orig.len() == dlen,
            1 <= cc,
            ch <= cc,
            forall|k: int| 0 <= k < planes@.len() ==> (#[trigger] planes@[k])@.len() == n,
            2 * (cc * n) <= orig.len(),
            decoded@.len() == orig.len(),
            pix == interleave(planes.deep_view(), n as int),
            forall|bx: int|
                0 <= bx < orig.len() ==> decoded@[bx] == (if bx < 2 * (cc * n) && scattered(
                    bx,
                    cc as int,
                    ch as int,
                    0,
                ) {
                    pix[bx]
                } else {
                    orig[bx]
                }),
        decreases cc - ch,
    {
        let plane = &planes[ch];
        let mut i: usize = 0;
        while i < n
            invariant
                cc == planes@.len(),
                orig.len() == dlen,
                1 <= cc,
                ch < cc,
                i <= n,
                forall|k: int| 0 <= k < planes@.len() ==> (#[trigger] planes@[k])@.len() == n,
                plane@ == planes@[ch as int]@,
                2 * (cc * n) <= orig.len(),
                decoded@.len() == orig.len(),
                pix == interleave(planes.deep_view(), n as int),
                forall|bx: int|
                    0 <= bx < orig.len() ==> decoded@[bx] == (if bx < 2 * (cc * n) && scattered(
                        bx,
                        cc as int,
                        ch as int,
                        i as int,
                    ) {
                        pix[bx]
                    } else {
                        orig[bx]
                    }),
            decreases n - i,
        {
            let v = plane[i];
            proof {
                lemma_interleave_at(planes.deep_view(), n as int, i as int, ch as int);
                assert(planes.deep_view()[ch as int] == planes@[ch as int]@);
                assert(planes.deep_view().len() == cc);
                assert(2 * ((i * cc + ch) as int) + 1 < 2 * (cc * n)) by (nonlinear_arith)
                    requires
                        0 <= (ch as int) < (cc as int),
                        0 <= (i as int) < (n as int),
                ;
                assert(i * cc + ch < cc * n) by (nonlinear_arith)
                    requires
                        0 <= (ch as int) < (cc as int),
                        0 <= (i as int) < (n as int),
                ;
            }
            let idx: usize = 2 * (i * cc + ch);
            decoded[idx] = (v % 256) as u8;
            decoded[idx + 1] = (v / 256) as u8;
            proof {
                let j = i as int * cc as int + ch as int;
                vstd::arithmetic::div_mod::lemma_fundamental_div_mod_converse(2 * j, 2, j, 0);
                vstd::arithmetic::div_mod::lemma_fundamental_div_mod_converse(2 * j + 1, 2, j, 1);
                vstd::arithmetic::div_mod::lemma_fundamental_div_mod_converse(
                    j,
                    cc as int,
                    i as int,
                    ch as int,
                );
                assert forall|bx: int| 0 <= bx < orig.len() implies decoded@[bx] == (if bx < 2 * (
                cc * n) && scattered(bx, cc as int, ch as int, i as int + 1) {
                    pix[bx]
                } else {
                    orig[bx]
                }) by {
                    if bx != 2 * j && bx != 2 * j + 1 && bx < 2 * (cc * n) {
                        if (bx / 2) % (cc as int) == ch as int && (bx / 2) / (cc as int)
                            == i as int {
                            vstd::arithmetic::div_mod::lemma_fundamental_div_mod(bx, 2);
                            vstd::arithmetic::div_mod::lemma_fundamental_div_mod(
                                bx / 2,
                                cc as int,
                            );
                            assert(bx == 2 * j || bx == 2 * j + 1);
                        }
                    }
                }
            }
            i = i + 1;
        }
        proof {
            assert forall|bx: int| 0 <= bx < orig.len() implies decoded@[bx] == (if bx < 2 * (cc
                * n) && scattered(bx, cc as int, ch as int + 1, 0) {
                pix[bx]
            } else {
                orig[bx]
            }) by {
                if 0 <= bx < 2 * (cc * n) {
                    vstd::arithmetic::div_mod::lemma_fundamental_div_mod(bx, 2);
                    assert(bx / 2 < cc * n);
                    assert((bx / 2) / (cc as int) < n as int) by (nonlinear_arith)
                        requires
                            bx / 2 < (cc as int) * (n as int),
                            (cc as int) >= 1,
                            0 <= bx / 2,
                    ;
                    vstd::arithmetic::div_mod::lemma_mod_bound(bx / 2, cc as int);
                }
            }
        }
        ch = ch + 1;
    }
    proof {
        assert forall|bx: int| 0 <= bx < 2 * (cc * n) implies scattered(bx, cc as int, cc as int, 0)
            by {
            vstd::arithmetic::div_mod::lemma_mod_bound(bx / 2, cc as int);
        }
    }
}

/// A parsed container header.
struct Header {
    descriptor: DTM,
    channel_sizes: [u32; 4],
    total_size: u64,
}

/// Reads the big-endian 32-bit value at offset `off`.
fn read_be32(b: &[u8], off: usize) -> (r: u32)
    requires
        off + 4 <= b@.len(),
    ensures
        r == be32_at(b@, off as int),
{
    (b[off] as u32) * 0x1000000 + (b[off + 1] as u32) * 0x10000 + (b[off + 2] as u32) * 0x100 + (b[
        off + 3
    ] as u32)
}

impl DTM {
    /// Parses the header of an encoded DTM image.
    fn decode_header(encoded: &[u8]) -> (r: Result<Header, DecodeError>)
        ensures
            match r {
                Ok(h) => {
                    &&& header_issue(encoded@) is None
                    &&& encoded@.len() >= 28
                    &&& h.descriptor == dtm_of(encoded@)
                    &&& forall|i: int| 0 <= i < 4 ==> h.channel_sizes@[i] == csize_at(encoded@, i)
                    &&& h.total_size == total_of(encoded@)
                },
                Err(e) => header_issue(encoded@) == Some(e),
            },
    {
        if encoded.len() < 28 {
            return Err(DecodeError::InsufficientInputData);
        }
        if encoded[0] != 0x64 || encoded[1] != 0x74 || encoded[2] != 0x6D {
            return Err(DecodeError::InvalidMagic);
        }
        let pixel_size = encoded[3];
        if pixel_size != 2 {
            return Err(DecodeError::InvalidChannels);
        }
        let width = read_be32(encoded, 4);
        let height = read_be32(encoded, 8);

        let s0 = read_be32(encoded, 12);
        let s1 = read_be32(encoded, 16);
        let s2 = read_be32(encoded, 20);
        let s3 = read_be32(encoded, 24);

        let channel_count: u32 = if s0 == 0 {
            0
        } else if s1 == 0 {
            1
        } else if s2 == 0 {
            2
        } else if s3 == 0 {
            3
        } else {
            4
        };
        if channel_count == 0 {
            return Err(DecodeError::InvalidChannels);
        }

        let mut total_size: u64 = 28;
        if channel_count >= 1 {
            total_size = total_size + s0 as u64;
        }
        if channel_count >= 2 {
            total_size = total_size + s1 as u64;
        }
        if channel_count >= 3 {
            total_size = total_size + s2 as u64;
        }
        if channel_count >= 4 {
            total_size = total_size + s3 as u64;
        }

        let mut channel_sizes: [u32; 4] = [0u32; 4];
        channel_sizes[0] = s0;
        channel_sizes[1] = s1;
        channel_sizes[2] = s2;
        channel_sizes[3] = s3;

        proof {
            reveal_with_fuel(sum_sizes, 5);
        }

        Ok(
            Header {
                descriptor: DTM { pixel_size: pixel_size as u32, channel_count, width, height },
                channel_sizes,
                total_size,
            },
        )
    }

    /// Decodes a DTM image from a byte slice into the `decoded` buffer.
    ///
    /// On success the first `image_size` bytes of `decoded` hold the
    /// pixel-interleaved samples and the rest is untouched; on an error
    /// nothing is written.
    #[verifier::rlimit(100)]
    pub fn decode(encoded: &[u8], decoded: &mut [u8]) -> (r: Result<DTM, DecodeError>)
        requires
            decode_spec(encoded@) matches Ok(p) ==> old(decoded)@.len() >= p.1.len(),
        ensures
            match r {
                Ok(d) => {
                    &&& decode_spec(encoded@) matches Ok(p) && p.0 == d && final(decoded)@ =~= p.1
                        + old(decoded)@.skip(p.1.len() as int)
                },
                Err(e) => {
                    &&& decode_spec(encoded@) == Err::<(DTM, Seq<u8>), DecodeError>(e)
                    &&& final(decoded)@ == old(decoded)@
                },
            },
    {
        let ghost b = encoded@;
        let ghost w_int = be32_at(b, 4);
        let ghost n_int = be32_at(b, 4) * be32_at(b, 8);
        let ghost cc_int = spec_channel_count(b);

        let h = match Self::decode_header(encoded) {
            Ok(h) => h,
            Err(e) => {
                return Err(e);
            },
        };
        let dlen = encoded.len();
        if (dlen as u64) < h.total_size {
            return Err(DecodeError::InsufficientInputData);
        }

        let wu = h.descriptor.width;
        let hu = h.descriptor.height;
        let cc: usize = h.descriptor.channel_count as usize;
        proof {
            assert((wu as int) * (hu as int) <= 0xFFFF_FFFF * 0xFFFF_FFFF) by (nonlinear_arith)
                requires
                    0 <= wu <= 0xFFFF_FFFFu32,
                    0 <= hu <= 0xFFFF_FFFFu32,
            ;
        }
        let n64: u64 = (wu as u64) * (hu as u64);
        proof {
            assert(n64 == n_int);
            assert(cc == cc_int);
            assert(1 <= cc_int <= 4);
        }
        proof {
            assert(2 * (cc as int) * (n64 as int) <= 8 * 0xFFFF_FFFF_FFFF_FFFF) by (nonlinear_arith)
                requires
                    0 <= cc <= 4,
                    0 <= n64 <= 0xFFFF_FFFF_FFFF_FFFFu64,
            ;
        }
        if 2 * (cc as u128) * (n64 as u128) > (usize::MAX as u128) {
            return Err(DecodeError::InsufficientInputData);
        }
        proof {
            assert(n_int <= usize::MAX && 2 * (n_int * cc_int) <= usize::MAX && 2 * n_int
                <= usize::MAX) by (nonlinear_arith)
                requires
                    2 * cc_int * n_int <= usize::MAX,
                    1 <= cc_int,
                    0 <= n_int,
            ;
        }
        let n_us: usize = n64 as usize;
        let two_n: usize = 2 * n_us;

        let mut planes: Vec<Vec<u16>> = Vec::new();
        let mut off: usize = 28;
        let mut ch: usize = 0;

        while ch < cc
            invariant
                b == encoded@,
                dlen == b.len(),
                header_issue(b) is None,
                w_int == be32_at(b, 4),
                n_int == be32_at(b, 4) * be32_at(b, 8),
                cc_int == spec_channel_count(b),
                cc == cc_int,
                1 <= cc <= 4,
                n_us == n_int,
                n64 == n_int,
                two_n == 2 * n_int,
                wu == be32_at(b, 4),
                hu == be32_at(b, 8),
                total_of(b) <= b.len(),
                2 * cc_int * n_int <= usize::MAX,
                h.descriptor == dtm_of(b),
                forall|k: int| 0 <= k < 4 ==> h.channel_sizes@[k] == csize_at(b, k),
                ch <= cc,
                planes@.len() == ch,
                forall|k: int| 0 <= k < planes@.len() ==> (#[trigger] planes@[k])@.len() == n_us,
                off == 28 + sum_sizes(b, ch as int),
                off <= dlen,
                dec_planes(b, w_int, n_int, cc_int, 0, 28) == (match dec_planes(
                    b,
                    w_int,
                    n_int,
                    cc_int,
                    ch as int,
                    off as int,
                ) {
                    Ok(rest) => Ok::<Seq<Seq<u16>>, DecodeError>(planes.deep_view() + rest),
                    Err(e) => Err(e),
                }),
            decreases cc - ch,
        {
            let ghost planes0 = planes.deep_view();
            let l32 = h.channel_sizes[ch];
            proof {
                assert(sum_sizes(b, ch as int + 1) == sum_sizes(b, ch as int) + csize_at(
                    b,
                    ch as int,
                ));
                lemma_sum_sizes_mono(b, ch as int + 1, cc_int);
            }
            let l: usize = l32 as usize;
            let end: usize = off + l;
            let seg = &encoded[off..end];
            proof {
                assert(seg@ == b.subrange(off as int, off as int + l));
            }

            let ghost ch0 = ch as int;
            let ghost off0 = off as int;
            let ghost step = dec_planes(b, w_int, n_int, cc_int, ch0, off0);
            let ghost rest_result = dec_planes(b, w_int, n_int, cc_int, ch0 + 1, off0 + l);

            let samples: Vec<u16>;
            if l > two_n {
                proof {
                    assert(step == Err::<Seq<Seq<u16>>, DecodeError>(DecodeError::InvalidChannels));
                    assert(decode_spec(b) == Err::<(DTM, Seq<u8>), DecodeError>(
                        DecodeError::InvalidChannels,
                    ));
                }
                return Err(DecodeError::InvalidChannels);
            } else if l == two_n {
                samples = crate::encode::extract_plane(seg, 1, 0, n_us);
                proof {
                    assert(samples@ =~= plane_seq(seg@, 1, 0, n_int));
                    assert(step == (match rest_result {
                        Ok(rest) => Ok::<Seq<Seq<u16>>, DecodeError>(seq![samples@] + rest),
                        Err(e) => Err(e),
                    }));
                }
            } else {
                proof {
                    assert(wu >= 1 && n_int >= 1) by (nonlinear_arith)
                        requires
                            n_int == (wu as int) * (hu as int),
                            0 <= l < 2 * n_int,
                            0 <= wu,
                            0 <= hu,
                    ;
                }
                samples = match decode_plane(seg, wu as usize, n64) {
                    Ok(s) => s,
                    Err(e) => {
                        proof {
                            assert(step == Err::<Seq<Seq<u16>>, DecodeError>(
                                DecodeError::InsufficientInputData,
                            ));
                            assert(decode_spec(b) == Err::<(DTM, Seq<u8>), DecodeError>(
                                DecodeError::InsufficientInputData,
                            ));
                        }
                        return Err(e);
                    },
                };
                proof {
                    assert(step == (match rest_result {
                        Ok(rest) => Ok::<Seq<Seq<u16>>, DecodeError>(seq![samples@] + rest),
                        Err(e) => Err(e),
                    }));
                }
            }
            planes.push(samples);
            off = end;
            ch = ch + 1;
            proof {
                assert(samples.deep_view() =~= samples@);
                assert(planes@.len() == planes0.len() + 1);
                assert(planes.deep_view() =~~= planes0.push(samples@));
                match rest_result {
                    Ok(rest) => {
                        assert(planes0 + (seq![samples@] + rest) =~~= planes.deep_view() + rest);
                        assert(dec_planes(b, w_int, n_int, cc_int, 0, 28) == Ok::<
                            Seq<Seq<u16>>,
                            DecodeError,
                        >(planes0 + (seq![samples@] + rest)));
                    },
                    Err(e) => {},
                }
            }
        }

        proof {
            assert(dec_planes(b, w_int, n_int, cc_int, cc_int, off as int) == Ok::<
                Seq<Seq<u16>>,
                DecodeError,
            >(Seq::empty()));
            assert(planes.deep_view() + Seq::<Seq<u16>>::empty() =~~= planes.deep_view());
            assert(dec_planes(b, w_int, n_int, cc_int, 0, 28) == Ok::<Seq<Seq<u16>>, DecodeError>(
                planes.deep_view(),
            ));
        }
        let ghost pix = interleave(planes.deep_view(), n_int);
        proof {
            assert(decode_spec(b) == Ok::<(DTM, Seq<u8>), DecodeError>((dtm_of(b), pix)));
            assert(planes.deep_view().len() == cc as int);
            assert(pix.len() == 2 * (cc as int) * n_int);
            assert(2 * (cc as int) * n_int == 2 * ((cc as int) * n_int)) by (nonlinear_arith);
            assert(pix.len() == 2 * (cc * n_us));
        }

        scatter_planes(decoded, &planes, n_us);
        proof {
            assert(final(decoded)@ =~= pix + old(decoded)@.skip(pix.len() as int));
        }
        Ok(h.descriptor)
    }

    /// Decodes a DTM image from a byte slice into a newly allocated `Vec`.
    pub fn decode_alloc(encoded: &[u8]) -> (r: Result<(Self, Vec<u8>), DecodeError>)
        ensures
            match r {
                Ok(p) => {
                    &&& decode_spec(encoded@) matches Ok(q) && q.0 == p.0 && p.1@ =~= q.1
                },
                Err(e) => decode_spec(encoded@) == Err::<(DTM, Seq<u8>), DecodeError>(e),
            },
    {
        let ghost b = encoded@;
        let h = match Self::decode_header(encoded) {
            Ok(h) => h,
            Err(e) => {
                return Err(e);
            },
        };
        let wu = h.descriptor.width;
        let hu = h.descriptor.height;
        let cc: usize = h.descriptor.channel_count as usize;
        proof {
            assert((wu as int) * (hu as int) <= 0xFFFF_FFFF * 0xFFFF_FFFF) by (nonlinear_arith)
                requires
                    0 <= wu <= 0xFFFF_FFFFu32,
                    0 <= hu <= 0xFFFF_FFFFu32,
            ;
        }
        let n64: u64 = (wu as u64) * (hu as u64);
        let ghost n_int = be32_at(b, 4) * be32_at(b, 8);
        let ghost cc_int = spec_channel_count(b);
        proof {
            assert(be32_at(b, 4) <= 0xFFFF_FFFF && be32_at(b, 8) <= 0xFFFF_FFFF);
            assert(wu == be32_at(b, 4) && hu == be32_at(b, 8));
            assert(n64 == n_int);
            assert(cc == cc_int);
        }
        proof {
            assert(2 * (cc as int) * (n64 as int) <= 8 * 0xFFFF_FFFF_FFFF_FFFF) by (nonlinear_arith)
                requires
                    0 <= cc <= 4,
                    0 <= n64 <= 0xFFFF_FFFF_FFFF_FFFFu64,
            ;
        }
        if 2 * (cc as u128) * (n64 as u128) > (usize::MAX as u128) {
            return Err(DecodeError::InsufficientInputData);
        }
        proof {
            assert(n_int <= usize::MAX && 2 * (cc_int * n_int) <= usize::MAX) by (nonlinear_arith)
                requires
                    2 * cc_int * n_int <= usize::MAX,
                    1 <= cc_int,
                    0 <= n_int,
            ;
        }
        let n_us: usize = n64 as usize;
        let image: usize = 2 * (cc * n_us);
        let mut pix: Vec<u8> = vec![0u8; image];
        let ghost pix0 = pix@;
        proof {
            if decode_spec(b) is Ok {
                lemma_dec_planes_len(b, be32_at(b, 4), n_int, cc_int, 0, 28);
                let q = decode_spec(b)->Ok_0;
                let planes_s = dec_planes(b, be32_at(b, 4), n_int, cc_int, 0, 28)->Ok_0;
                assert(planes_s.len() == cc_int);
                assert(q.1.len() == 2 * cc_int * n_int);
                assert(2 * cc_int * n_int == 2 * (cc_int * n_int)) by (nonlinear_arith);
                assert(pix@.len() >= q.1.len());
            }
        }
        match Self::decode(encoded, pix.as_mut_slice()) {
            Ok(d) => {
                proof {
                    let q = decode_spec(b)->Ok_0;
                    assert(pix@ =~= q.1 + pix0.skip(q.1.len() as int));
                    assert(q.1 + pix0.skip(q.1.len() as int) =~= q.1);
                }
                Ok((d, pix))
            },
            Err(e) => Err(e),
        }
    }
}

/// Appends one reconstructed sample and stores it in its recency-cache slot,
/// as every decoded opcode must.
fn push_sample(samples: &mut Vec<u16>, cache: &mut [u16; 64], v: u16)
    requires
        forall|s: int| 0 <= s < 64 ==> old(cache)@[s] == cache_at(old(samples)@, s),
    ensures
        final(samples)@ == old(samples)@.push(v),
        forall|s: int| 0 <= s < 64 ==> final(cache)@[s] == cache_at(final(samples)@, s),
{
    samples.push(v);
    cache[(v % 64) as usize] = v;
    proof {
        assert forall|s: int| 0 <= s < 64 implies cache@[s] == cache_at(samples@, s) by {
            lemma_cache_push(old(samples)@, v, s);
        }
    }
}

/// Replays one plane's opcode stream, reconstructing its samples.
#[verifier::rlimit(100)]
fn decode_plane(seg: &[u8], w: usize, n: u64) -> (r: Result<Vec<u16>, DecodeError>)
    requires
        1 <= w,
    ensures
        match r {
            Ok(samples) => {
                &&& dec_plane(seg@, w as int, n as int, Seq::empty()) == Some(samples@)
                &&& samples@.len() == n
            },
            Err(e) => {
                &&& dec_plane(seg@, w as int, n as int, Seq::empty()) is None
                &&& e == DecodeError::InsufficientInputData
            },
        },
{
    let len = seg.len();
    let mut samples: Vec<u16> = Vec::new();
    let mut cache: [u16; 64] = [0u16; 64];
    let mut cur: usize = 0;

    proof {
        assert(seg@.skip(0) =~= seg@);
    }

    while cur < len
        invariant
            1 <= w,
            len == seg@.len(),
            cur <= len,
            samples@.len() <= n,
            forall|s: int| 0 <= s < 64 ==> cache@[s] == cache_at(samples@, s),
            dec_plane(seg@, w as int, n as int, Seq::empty()) == dec_plane(
                seg@.skip(cur as int),
                w as int,
                n as int,
                samples@,
            ),
        decreases len - cur,
    {
        let ghost rem0 = seg@.skip(cur as int);
        let ghost acc0 = samples@;
        let b = seg[cur];
        proof {
            assert(rem0[0] == b);
            assert(rem0.skip(1) =~= seg@.skip(cur as int + 1));
            lemma_dec_unfold(rem0, w as int, n as int, acc0);
        }

        if b <= 0x3F {
            if n - (samples.len() as u64) < 1 {
                return Err(DecodeError::InsufficientInputData);
            }
            let v = cache[b as usize];
            push_sample(&mut samples, &mut cache, v);
            cur = cur + 1;
        } else if b <= 0x7F {
            if n - (samples.len() as u64) < 1 {
                return Err(DecodeError::InsufficientInputData);
            }
            let d: i32 = b as i32 - 0x40 - 32;
            let pr = paeth(samples.as_slice(), w, samples.len());
            let v = ((pr as i32 + d + 0x10000) % 0x10000) as u16;
            push_sample(&mut samples, &mut cache, v);
            cur = cur + 1;
        } else if b <= 0xBF {
            if n - (samples.len() as u64) < 2 {
                return Err(DecodeError::InsufficientInputData);
            }
            let d0: i32 = ((b - 0x80) / 8) as i32 - 4;
            let pr0 = paeth(samples.as_slice(), w, samples.len());
            let v0 = ((pr0 as i32 + d0 + 0x10000) % 0x10000) as u16;
            push_sample(&mut samples, &mut cache, v0);
            let d1: i32 = ((b - 0x80) % 8) as i32 - 4;
            let pr1 = paeth(samples.as_slice(), w, samples.len());
            let v1 = ((pr1 as i32 + d1 + 0x10000) % 0x10000) as u16;
            push_sample(&mut samples, &mut cache, v1);
            cur = cur + 1;
        } else if b <= 0xFE {
            let cnt = (b - 0xC0) as usize + 1;
            if n - (samples.len() as u64) < (cnt as u64) {
                return Err(DecodeError::InsufficientInputData);
            }
            let pv = previous(samples.as_slice(), samples.len());
            let mut t: usize = 0;
            while t < cnt
                invariant
                    t <= cnt,
                    samples@ =~= acc0 + Seq::new(t as nat, |x: int| pv),
                    pv == prev_at(acc0, acc0.len() as int),
                    forall|s: int| 0 <= s < 64 ==> cache@[s] == cache_at(samples@, s),
                decreases cnt - t,
            {
                push_sample(&mut samples, &mut cache, pv);
                t = t + 1;
                proof {
                    assert(samples@ =~= acc0 + Seq::new(t as nat, |x: int| pv));
                }
            }
            proof {
                assert(samples@ =~= acc0 + Seq::new(
                    (b - 0xC0 + 1) as nat,
                    |x: int| prev_at(acc0, acc0.len() as int),
                ));
            }
            cur = cur + 1;
        } else {
            if len - cur < 3 {
                return Err(DecodeError::InsufficientInputData);
            }
            if n - (samples.len() as u64) < 1 {
                return Err(DecodeError::InsufficientInputData);
            }
            let lo = seg[cur + 1];
            let hi = seg[cur + 2];
            proof {
                assert(rem0[1] == lo);
                assert(rem0[2] == hi);
                assert(rem0.skip(3) =~= seg@.skip(cur as int + 3));
            }
            let v = lo as u16 + hi as u16 * 256;
            push_sample(&mut samples, &mut cache, v);
            cur = cur + 3;
        }
    }

    proof {
        reveal_with_fuel(dec_plane, 2);
        assert(seg@.skip(cur as int) =~= Seq::<u8>::empty());
    }
    if samples.len() as u64 == n {
        Ok(samples)
    } else {
        Err(DecodeError::InsufficientInputData)
    }
}

} // verus!
