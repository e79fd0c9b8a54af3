//! The measures of a line of the image.

use vstd::prelude::*;
use crate::header::{BitDepth, ColorType, IHDRChunk};
use crate::png::Png;

verus! {

impl IHDRChunk {
    /// The bits of one pixel.
    pub open spec fn pixel_bits(self) -> nat {
        self.color_type.channels() * self.bit_depth.bits()
    }

    /// The bytes of one line: its pixels are packed, and the last byte is
    /// filled up.
    pub open spec fn stride(self) -> nat {
        (self.width as nat * self.pixel_bits() + 7) / 8
    }

    /// The bytes from a sample to the same sample of the pixel on the left,
    /// at least one.
    pub open spec fn pixel_bytes(self) -> nat {
        (self.pixel_bits() + 7) / 8
    }

    /// Whether the bytes of a line can be counted in 32 bits, and with the
    /// filter byte in a `usize`.
    pub open spec fn scanline_fits(self) -> bool {
        self.stride() <= u32::MAX && self.stride() < usize::MAX
    }
}

/// Products with the factors that occur here, in linear form.
pub proof fn lemma_small_multiple(x: int, n: int)
    ensures
        n == 1 ==> x * n == x,
        n == 2 ==> x * n == 2 * x,
        n == 3 ==> x * n == 3 * x,
        n == 4 ==> x * n == 4 * x,
        n == 8 ==> x * n == 8 * x,
        n == 16 ==> x * n == 16 * x,
        n == 24 ==> x * n == 24 * x,
        n == 32 ==> x * n == 32 * x,
        n == 48 ==> x * n == 48 * x,
        n == 64 ==> x * n == 64 * x,
{
}

/// The length of a line for each bit depth.
pub proof fn lemma_stride_by_depth(header: IHDRChunk)
    requires
        header.valid(),
    ensures
        ({
            let w = header.width as int;
            let c = header.color_type.channels() as int;
            header.stride() == (match header.bit_depth {
                BitDepth::B1 => (w + 7) / 8 * c,
                BitDepth::B2 => (w + 3) / 4 * c,
                BitDepth::B4 => (w + 1) / 2 * c,
                BitDepth::B8 => w * c,
                BitDepth::B16 => w * 2 * c,
            })
        }),
{
    let w = header.width as int;
    let c = header.color_type.channels() as int;
    let n = header.pixel_bits() as int;
    assert(c == 1 || c == 2 || c == 3 || c == 4);
    lemma_small_multiple(header.bit_depth.bits() as int, c);
    lemma_small_multiple(w, n);
    lemma_small_multiple((w + 7) / 8, c);
    lemma_small_multiple((w + 3) / 4, c);
    lemma_small_multiple((w + 1) / 2, c);
    lemma_small_multiple(w, c);
    lemma_small_multiple(w * 2, c);
    assert(header.bit_depth.bits() * c == n) by (nonlinear_arith)
        requires
            n == c * header.bit_depth.bits(),
    ;
}

impl Png {
    /// The length of a line, together with the byte of its filter type.
    pub fn scanline_length(header: &IHDRChunk) -> (length: usize)
        requires
            header.valid(),
            header.scanline_fits(),
        ensures
            length == header.stride() + 1,
    {
        proof {
            lemma_stride_by_depth(*header);
        }
        let samples: u32 = match header.bit_depth {
            BitDepth::B1 => (header.width + 7) / 8,
            BitDepth::B2 => (header.width + 3) / 4,
            BitDepth::B4 => (header.width + 1) / 2,
            BitDepth::B8 => header.width,
            BitDepth::B16 => header.width * 2,
        };
        let scan_line_len: u32 = match header.color_type {
            ColorType::Grayscale => samples,
            ColorType::TrueColor => samples * 3,
            ColorType::IndexedColor => samples,
            ColorType::GrayScaleAlpha => samples * 2,
            ColorType::TrueColorAlpha => samples * 4,
        };
        scan_line_len as usize + 1  // 1 added for the filter byte.
    }

    /// Whether [`Png::scanline_length`] can count the bytes of a line.
    pub fn scanline_fits(header: &IHDRChunk) -> (fits: bool)
        requires
            header.valid(),
        ensures
            fits == header.scanline_fits(),
    {
        proof {
            lemma_stride_by_depth(*header);
        }
        let width: u64 = header.width as u64;
        let samples: u64 = match header.bit_depth {
            BitDepth::B1 => (width + 7) / 8,
            BitDepth::B2 => (width + 3) / 4,
            BitDepth::B4 => (width + 1) / 2,
            BitDepth::B8 => width,
            BitDepth::B16 => width * 2,
        };
        let stride: u64 = match header.color_type {
            ColorType::Grayscale => samples,
            ColorType::TrueColor => samples * 3,
            ColorType::IndexedColor => samples,
            ColorType::GrayScaleAlpha => samples * 2,
            ColorType::TrueColorAlpha => samples * 4,
        };
        stride <= u32::MAX as u64 && stride < usize::MAX as u64
    }

    /// The bytes of one pixel, rounded up to a whole one.
    pub fn get_bpp(header: &IHDRChunk) -> (bpp: usize)
        requires
            header.valid(),
        ensures
            bpp == header.pixel_bytes(),
    {
        match header.color_type {
            ColorType::Grayscale => match header.bit_depth {
                BitDepth::B1 | BitDepth::B2 | BitDepth::B4 | BitDepth::B8 => 1,
                BitDepth::B16 => 2,
            },
            ColorType::TrueColor => match header.bit_depth {
                BitDepth::B16 => 6,
                _ => 3,
            },
            // A pixel is a single palette index, so this is one byte however
            // many bits the index uses.
            ColorType::IndexedColor => 1,
            ColorType::GrayScaleAlpha => match header.bit_depth {
                BitDepth::B16 => 4,
                _ => 2,
            },
            ColorType::TrueColorAlpha => match header.bit_depth {
                BitDepth::B16 => 8,
                _ => 4,
            },
        }
    }
}

} // verus!
