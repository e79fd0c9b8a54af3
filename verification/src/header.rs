//! The IHDR chunk: the size of the image and the form of its samples.

use vstd::prelude::*;
use crate::error::PngError;
use crate::reader::{be_bytes, be_u32, law_be_u32_round_trip, read_u32, read_u8, ByteReader};

verus! {

/// The number of bits of one sample.
#[derive(Debug, Clone, Copy, PartialEq, Eq, Structural)]
pub enum BitDepth {
    B1,
    B2,
    B4,
    B8,
    B16,
}

/// What the samples of a pixel mean.
#[derive(Debug, Clone, Copy, PartialEq, Eq, Structural)]
pub enum ColorType {
    Grayscale,
    TrueColor,
    IndexedColor,
    GrayScaleAlpha,
    TrueColorAlpha,
}

/// The order in which the pixels are transmitted.
#[derive(Debug, Clone, Copy, PartialEq, Eq, Structural)]
pub enum InterlaceMethod {
    NoInterlace,
    Adam7,
}

/// The image header.
#[derive(Debug, Clone, Copy, PartialEq, Eq, Structural)]
pub struct IHDRChunk {
    pub width: u32,
    pub height: u32,
    pub bit_depth: BitDepth,
    pub color_type: ColorType,
}

/// The largest width and height.
pub const MAX_SIDE: u32 = 0x7fffffff;

/// The bit depth that the header's byte `value` stands for.
pub open spec fn bit_depth_of(value: u8) -> Option<BitDepth> {
    if value == 1 {
        Some(BitDepth::B1)
    } else if value == 2 {
        Some(BitDepth::B2)
    } else if value == 4 {
        Some(BitDepth::B4)
    } else if value == 8 {
        Some(BitDepth::B8)
    } else if value == 16 {
        Some(BitDepth::B16)
    } else {
        None
    }
}

/// The color type that the header's byte `value` stands for.
pub open spec fn color_type_of(value: u8) -> Option<ColorType> {
    if value == 0 {
        Some(ColorType::Grayscale)
    } else if value == 2 {
        Some(ColorType::TrueColor)
    } else if value == 3 {
        Some(ColorType::IndexedColor)
    } else if value == 4 {
        Some(ColorType::GrayScaleAlpha)
    } else if value == 6 {
        Some(ColorType::TrueColorAlpha)
    } else {
        None
    }
}

/// The interlace method that the header's byte `value` stands for.
pub open spec fn interlace_method_of(value: u8) -> Option<InterlaceMethod> {
    if value == 0 {
        Some(InterlaceMethod::NoInterlace)
    } else if value == 1 {
        Some(InterlaceMethod::Adam7)
    } else {
        None
    }
}

/// Whether images of color type `color_type` come in `bit_depth`.
pub open spec fn depth_allowed(color_type: ColorType, bit_depth: BitDepth) -> bool {
    match color_type {
        ColorType::Grayscale => true,
        ColorType::IndexedColor => bit_depth != BitDepth::B16,
        _ => bit_depth == BitDepth::B8 || bit_depth == BitDepth::B16,
    }
}

impl BitDepth {
    /// The number of bits.
    pub open spec fn bits(self) -> nat {
        match self {
            BitDepth::B1 => 1,
            BitDepth::B2 => 2,
            BitDepth::B4 => 4,
            BitDepth::B8 => 8,
            BitDepth::B16 => 16,
        }
    }

    /// The bit depth that the header's byte `value` stands for.
    pub fn from(value: u8) -> (depth: Result<BitDepth, PngError>)
        ensures
            depth == (match bit_depth_of(value) {
                Some(d) => Ok::<BitDepth, PngError>(d),
                None => Err(PngError::InvalidBitDepth(value)),
            }),
    {
        match value {
            1 => Ok(BitDepth::B1),
            2 => Ok(BitDepth::B2),
            4 => Ok(BitDepth::B4),
            8 => Ok(BitDepth::B8),
            16 => Ok(BitDepth::B16),
            _ => Err(PngError::InvalidBitDepth(value)),
        }
    }
}

impl ColorType {
    /// The number of samples of one pixel.
    pub open spec fn channels(self) -> nat {
        match self {
            ColorType::Grayscale => 1,
            ColorType::TrueColor => 3,
            ColorType::IndexedColor => 1,
            ColorType::GrayScaleAlpha => 2,
            ColorType::TrueColorAlpha => 4,
        }
    }

    /// The color type that the header's byte `value` stands for.
    pub fn from(value: u8) -> (color_type: Result<ColorType, PngError>)
        ensures
            color_type == (match color_type_of(value) {
                Some(c) => Ok::<ColorType, PngError>(c),
                None => Err(PngError::InvalidColorType(value)),
            }),
    {
        match value {
            0 => Ok(ColorType::Grayscale),
            2 => Ok(ColorType::TrueColor),
            3 => Ok(ColorType::IndexedColor),
            4 => Ok(ColorType::GrayScaleAlpha),
            6 => Ok(ColorType::TrueColorAlpha),
            _ => Err(PngError::InvalidColorType(value)),
        }
    }
}

impl InterlaceMethod {
    /// The interlace method that the header's byte `value` stands for.
    pub fn from(value: u8) -> (method: Result<InterlaceMethod, PngError>)
        ensures
            method == (match interlace_method_of(value) {
                Some(m) => Ok::<InterlaceMethod, PngError>(m),
                None => Err(PngError::InvalidInterlaceMethod(value)),
            }),
    {
        match value {
            0 => Ok(InterlaceMethod::NoInterlace),
            1 => Ok(InterlaceMethod::Adam7),
            _ => Err(PngError::InvalidInterlaceMethod(value)),
        }
    }
}

/// The header that the thirteen bytes at the start of `s` describe, or what
/// rules it out, given that each single byte has a meaning.
pub open spec fn checked_header(s: Seq<u8>) -> Result<IHDRChunk, PngError> {
    let header = IHDRChunk {
        width: be_u32(s),
        height: be_u32(s.skip(4)),
        bit_depth: bit_depth_of(s[8])->0,
        color_type: color_type_of(s[9])->0,
    };
    if header.width > MAX_SIDE {
        Err(PngError::WidthTooLarge)
    } else if header.height > MAX_SIDE {
        Err(PngError::HeightTooLarge)
    } else if !depth_allowed(header.color_type, header.bit_depth) {
        Err(PngError::BitDepthNotAllowed(header.color_type, header.bit_depth))
    } else if s[10] != 0 {
        Err(PngError::UnsupportedCompression(s[10]))
    } else if s[11] != 0 {
        Err(PngError::UnsupportedFilterMethod(s[11]))
    } else if interlace_method_of(s[12]) != Some(InterlaceMethod::NoInterlace) {
        Err(PngError::UnsupportedInterlacing)
    } else {
        Ok(header)
    }
}

/// What reading a header from `s` gives, and the bytes that are left.
///
/// The bytes are read one field at a time: a byte without a meaning stops the
/// reading where it stands.
pub open spec fn parse_header(s: Seq<u8>) -> (Result<IHDRChunk, PngError>, Seq<u8>) {
    if s.len() < 9 {
        (Err(PngError::UnexpectedEof), Seq::empty())
    } else if bit_depth_of(s[8]) is None {
        (Err(PngError::InvalidBitDepth(s[8])), s.skip(9))
    } else if s.len() < 10 {
        (Err(PngError::UnexpectedEof), Seq::empty())
    } else if color_type_of(s[9]) is None {
        (Err(PngError::InvalidColorType(s[9])), s.skip(10))
    } else if s.len() < 13 {
        (Err(PngError::UnexpectedEof), Seq::empty())
    } else if interlace_method_of(s[12]) is None {
        (Err(PngError::InvalidInterlaceMethod(s[12])), s.skip(13))
    } else {
        (checked_header(s), s.skip(13))
    }
}

impl IHDRChunk {
    /// The size is in range and the bit depth is one of the color type's: this
    /// holds of every header that was read.
    pub open spec fn valid(self) -> bool {
        &&& self.width <= MAX_SIDE
        &&& self.height <= MAX_SIDE
        &&& depth_allowed(self.color_type, self.bit_depth)
    }

    /// Whether the color type comes in the bit depth.
    fn has_allowed_depth(color_type: ColorType, bit_depth: BitDepth) -> (allowed: bool)
        ensures
            allowed == depth_allowed(color_type, bit_depth),
    {
        match color_type {
            ColorType::Grayscale => true,
            ColorType::TrueColor => matches!(bit_depth, BitDepth::B8 | BitDepth::B16),
            ColorType::IndexedColor => matches!(
                bit_depth,
                BitDepth::B1 | BitDepth::B2 | BitDepth::B4 | BitDepth::B8
            ),
            ColorType::GrayScaleAlpha => matches!(bit_depth, BitDepth::B8 | BitDepth::B16),
            ColorType::TrueColorAlpha => matches!(bit_depth, BitDepth::B8 | BitDepth::B16),
        }
    }

    /// Reads the contents of an IHDR chunk.
    pub fn from_bytes(read: &mut ByteReader) -> (header: Result<IHDRChunk, PngError>)
        ensures
            header == parse_header(old(read)@).0,
            final(read)@ == parse_header(old(read)@).1,
            header matches Ok(h) ==> h.valid(),
    {
        let ghost s = read@;
        let width: u32 = read_u32(read)?;
        let height: u32 = read_u32(read)?;
        assert(s.skip(4).skip(4) =~= s.skip(8));
        let depth_byte: u8 = read_u8(read)?;
        assert(s.skip(8).skip(1) =~= s.skip(9));
        let bit_depth = BitDepth::from(depth_byte)?;
        let color_byte: u8 = read_u8(read)?;
        assert(s.skip(9).skip(1) =~= s.skip(10));
        let color_type = ColorType::from(color_byte)?;
        let compression_method: u8 = read_u8(read)?;
        assert(s.skip(10).skip(1) =~= s.skip(11));
        let filter_method: u8 = read_u8(read)?;
        assert(s.skip(11).skip(1) =~= s.skip(12));
        let interlace_byte: u8 = read_u8(read)?;
        assert(s.skip(12).skip(1) =~= s.skip(13));
        let interlace_method = InterlaceMethod::from(interlace_byte)?;

        if width > MAX_SIDE {
            return Err(PngError::WidthTooLarge);
        }
        if height > MAX_SIDE {
            return Err(PngError::HeightTooLarge);
        }
        if !Self::has_allowed_depth(color_type, bit_depth) {
            return Err(PngError::BitDepthNotAllowed(color_type, bit_depth));
        }
        if compression_method != 0 {
            return Err(PngError::UnsupportedCompression(compression_method));
        }
        if filter_method != 0 {
            return Err(PngError::UnsupportedFilterMethod(filter_method));
        }
        if interlace_method != InterlaceMethod::NoInterlace {
            return Err(PngError::UnsupportedInterlacing);
        }
        Ok(IHDRChunk { width, height, bit_depth, color_type })
    }
}

/// The byte that stands for `bit_depth`.
pub open spec fn depth_byte(bit_depth: BitDepth) -> u8 {
    bit_depth.bits() as u8
}

/// The byte that stands for `color_type`.
pub open spec fn color_byte(color_type: ColorType) -> u8 {
    match color_type {
        ColorType::Grayscale => 0,
        ColorType::TrueColor => 2,
        ColorType::IndexedColor => 3,
        ColorType::GrayScaleAlpha => 4,
        ColorType::TrueColorAlpha => 6,
    }
}

/// The contents of the IHDR chunk of an image that is not interlaced.
pub open spec fn header_bytes(header: IHDRChunk) -> Seq<u8> {
    be_bytes(header.width) + be_bytes(header.height) + seq![
        depth_byte(header.bit_depth),
        color_byte(header.color_type),
        0u8,
        0u8,
        0u8,
    ]
}

/// A header that was written is read back.
pub proof fn law_header_round_trip(header: IHDRChunk)
    requires
        header.valid(),
    ensures
        parse_header(header_bytes(header)) == (
            Ok::<IHDRChunk, PngError>(header),
            Seq::<u8>::empty(),
        ),
{
    let s = header_bytes(header);
    let tail = s.skip(8);
    assert(s =~= be_bytes(header.width) + s.skip(4));
    assert(s.skip(4) =~= be_bytes(header.height) + tail);
    law_be_u32_round_trip(header.width, s.skip(4));
    law_be_u32_round_trip(header.height, tail);
    assert(s.skip(13) =~= Seq::<u8>::empty());
}

} // verus!
