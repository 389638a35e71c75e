//! A lossless codec for 16-bit-per-sample raster images (digital terrain
//! models and similar height or intensity maps).
//!
//! An image is described by a [`DTM`] descriptor and a pixel-interleaved
//! buffer of little-endian 16-bit samples.  Each channel plane is compressed
//! independently by a single-pass, byte-oriented opcode scheme built on a
//! Paeth-style predictor, a 64-slot recency cache, and a one-pixel look-ahead
//! that fuses pairs of small differences; a plane whose opcode stream would
//! not beat the raw size is stored verbatim.  The container is a fixed
//! 28-byte header followed by the concatenated plane payloads.
//!
//! Every operation carries a contract that pins its result down to the exact
//! byte sequence, and the crate proves the central laws of the format, chief
//! among them that decoding inverts encoding bit for bit.

pub use decode::DecodeError;

pub mod decode;
pub mod encode;
pub mod plane;
pub mod roundtrip;

use vstd::prelude::*;

verus! {

/// Number of bytes in the container header.
pub const DTM_HEADER_SIZE: usize = 28;

/// The descriptor of a DTM image.
///
/// This value is parsed from the image header during decoding or is specified
/// for encoding.  A well-formed descriptor has `pixel_size == 2` (the format
/// carries 16-bit samples), between one and four channels, and a non-zero
/// width and height.
#[derive(Clone, Copy, Debug, PartialEq, Eq, Hash, Structural)]
pub struct DTM {
    pub pixel_size: u32,
    pub channel_count: u32,
    pub width: u32,
    pub height: u32,
}

/// The descriptor invariant: 16-bit samples, one to four channels, and a
/// non-empty plane.
pub open spec fn valid_descriptor(d: DTM) -> bool {
    &&& d.pixel_size == 2
    &&& 1 <= d.channel_count <= 4
    &&& d.width >= 1
    &&& d.height >= 1
}

/// Size in bytes of the decoded image.
pub open spec fn spec_image_size(d: DTM) -> int {
    d.pixel_size * d.channel_count * d.width * d.height
}

/// Size in bytes of one decoded channel plane.
pub open spec fn spec_channel_size(d: DTM) -> int {
    d.pixel_size * d.width * d.height
}

/// A descriptor whose image fits the 32-bit sizes used by the container.
pub open spec fn encodable_descriptor(d: DTM) -> bool {
    &&& valid_descriptor(d)
    &&& spec_image_size(d) <= u32::MAX
}

impl DTM {
    /// Returns the size of the decoded image in bytes.
    #[inline]
    pub fn image_size(&self) -> (r: usize)
        requires
            spec_image_size(*self) <= u32::MAX,
            self.channel_count >= 1,
            self.width >= 1,
            self.height >= 1,
        ensures
            r == spec_image_size(*self),
    {
        proof {
            lemma_size_products(*self);
        }
        (self.pixel_size * self.channel_count * self.width * self.height) as usize
    }

    /// Returns the size of a channel of the decoded image in bytes.
    #[inline]
    pub fn channel_size(&self) -> (r: usize)
        requires
            spec_image_size(*self) <= u32::MAX,
            self.channel_count >= 1,
            self.width >= 1,
            self.height >= 1,
        ensures
            r == spec_channel_size(*self),
    {
        proof {
            lemma_size_products(*self);
        }
        (self.pixel_size * self.width * self.height) as usize
    }
}

/// The partial products of the image size stay below the image size itself,
/// so none of the 32-bit multiplications overflows.
pub proof fn lemma_size_products(d: DTM)
    requires
        spec_image_size(d) <= u32::MAX,
        d.channel_count >= 1,
        d.width >= 1,
        d.height >= 1,
    ensures
        d.pixel_size * d.channel_count <= u32::MAX,
        d.pixel_size * d.channel_count * d.width <= u32::MAX,
        d.pixel_size * d.width <= u32::MAX,
        d.pixel_size * d.width * d.height <= spec_image_size(d),
{
    assert((d.pixel_size * d.channel_count <= u32::MAX && d.pixel_size * d.channel_count
        * d.width <= u32::MAX && d.pixel_size * d.width <= u32::MAX && d.pixel_size * d.width
        * d.height <= d.pixel_size * d.channel_count * d.width * d.height)) by (nonlinear_arith)
        requires
            d.pixel_size * d.channel_count * d.width * d.height <= u32::MAX,
            d.channel_count >= 1,
            d.width >= 1,
            d.height >= 1,
            d.pixel_size >= 0,
    ;
}

} // verus!
