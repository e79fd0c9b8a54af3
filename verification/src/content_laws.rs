//! What the bytes of each chunk say.

use vstd::prelude::*;
use crate::bit_laws::bytes_bits;
use crate::checksum_laws::{
    law_big_endian_digits, law_crc_is_a_remainder, number_at, remainder,
};
use crate::chunk::{all_letters, parse_chunk, parse_chunk_type};
use crate::error::PngError;
use crate::header::{parse_header, BitDepth, ColorType, IHDRChunk};
use crate::palette::{parse_palette, Palette};
use crate::sbit::{parse_sbit, SBITChunk};

verus! {

/// The byte of a bit depth.
pub open spec fn byte_of_depth(bit_depth: BitDepth) -> u8 {
    match bit_depth {
        BitDepth::B1 => 1,
        BitDepth::B2 => 2,
        BitDepth::B4 => 4,
        BitDepth::B8 => 8,
        BitDepth::B16 => 16,
    }
}

/// The byte of a color type.
pub open spec fn byte_of_color(color_type: ColorType) -> u8 {
    match color_type {
        ColorType::Grayscale => 0,
        ColorType::TrueColor => 2,
        ColorType::IndexedColor => 3,
        ColorType::GrayScaleAlpha => 4,
        ColorType::TrueColorAlpha => 6,
    }
}

/// Whether a byte is that of a bit depth.
pub open spec fn is_depth_byte(b: u8) -> bool {
    b == 1 || b == 2 || b == 4 || b == 8 || b == 16
}

/// Whether a byte is that of a color type.
pub open spec fn is_color_byte(b: u8) -> bool {
    b == 0 || b == 2 || b == 3 || b == 4 || b == 6
}

/// Whether images of the color type with byte `color` come in `depth` bits.
pub open spec fn go_together(color: u8, depth: u8) -> bool {
    ||| color == 0 && is_depth_byte(depth)
    ||| color == 3 && (depth == 1 || depth == 2 || depth == 4 || depth == 8)
    ||| (color == 2 || color == 4 || color == 6) && (depth == 8 || depth == 16)
}

/// Whether the first thirteen bytes of `s` are those of `header`: width and height,
/// below two to the power 31, bit depth and color type, and three bytes of zero.
pub open spec fn is_header(s: Seq<u8>, header: IHDRChunk) -> bool {
    &&& s.len() >= 13
    &&& header.width == number_at(s, 0)
    &&& header.height == number_at(s, 4)
    &&& header.width < 0x8000_0000
    &&& header.height < 0x8000_0000
    &&& s[8] == byte_of_depth(header.bit_depth)
    &&& s[9] == byte_of_color(header.color_type)
    &&& go_together(s[9], s[8])
    &&& s[10] == 0 && s[11] == 0 && s[12] == 0
}

/// A header is read where the bytes are those of a header, and only there.
pub proof fn law_header_is_read(s: Seq<u8>, header: IHDRChunk)
    ensures
        parse_header(s).0 == Ok::<IHDRChunk, PngError>(header) <==> is_header(s, header),
        is_header(s, header) ==> parse_header(s).1 == s.skip(13),
        is_header(s, header) ==> header.valid(),
{
    law_big_endian_digits(s, 0);
    if s.len() >= 13 {
        law_big_endian_digits(s.skip(4), 0);
        assert(number_at(s.skip(4), 0) == number_at(s, 4));
    }
}

/// The headers that are valid: those whose size is below two to the power 31 and whose
/// color type comes in their bit depth.
pub proof fn law_valid_headers(header: IHDRChunk)
    ensures
        header.valid() <==> {
            &&& header.width < 0x8000_0000
            &&& header.height < 0x8000_0000
            &&& go_together(byte_of_color(header.color_type), byte_of_depth(header.bit_depth))
        },
{
}

/// Why bytes are not those of a header. The bit depth is looked at before the color type,
/// both before the bytes behind them are missed, and the interlace method before the
/// sizes; then come the depth of the color type, the compression and the filter method.
pub proof fn law_header_faults(s: Seq<u8>)
    ensures
        match parse_header(s).0 {
            Ok(header) => is_header(s, header),
            Err(PngError::UnexpectedEof) => {
                &&& s.len() < 13
                &&& s.len() >= 9 ==> is_depth_byte(s[8])
                &&& s.len() >= 10 ==> is_color_byte(s[9])
            },
            Err(PngError::InvalidBitDepth(b)) => {
                &&& s.len() >= 9
                &&& b == s[8]
                &&& !is_depth_byte(b)
            },
            Err(PngError::InvalidColorType(b)) => {
                &&& s.len() >= 10
                &&& is_depth_byte(s[8])
                &&& b == s[9]
                &&& !is_color_byte(b)
            },
            Err(e) => {
                &&& s.len() >= 13
                &&& is_depth_byte(s[8])
                &&& is_color_byte(s[9])
                &&& match e {
                    PngError::InvalidInterlaceMethod(b) => b == s[12] && b > 1,
                    PngError::WidthTooLarge => s[12] <= 1 && s[0] >= 128,
                    PngError::HeightTooLarge => s[12] <= 1 && s[0] < 128 && s[4] >= 128,
                    PngError::BitDepthNotAllowed(color_type, bit_depth) => {
                        &&& s[12] <= 1 && s[0] < 128 && s[4] < 128
                        &&& s[8] == byte_of_depth(bit_depth)
                        &&& s[9] == byte_of_color(color_type)
                        &&& !go_together(s[9], s[8])
                    },
                    PngError::UnsupportedCompression(b) => {
                        &&& s[12] <= 1 && s[0] < 128 && s[4] < 128 && go_together(s[9], s[8])
                        &&& b == s[10] && b != 0
                    },
                    PngError::UnsupportedFilterMethod(b) => {
                        &&& s[12] <= 1 && s[0] < 128 && s[4] < 128 && go_together(s[9], s[8])
                        &&& s[10] == 0 && b == s[11] && b != 0
                    },
                    PngError::UnsupportedInterlacing => {
                        &&& s[12] == 1 && s[0] < 128 && s[4] < 128 && go_together(s[9], s[8])
                        &&& s[10] == 0 && s[11] == 0
                    },
                    _ => false,
                }
            },
        },
{
    if let Ok(header) = parse_header(s).0 {
        law_header_is_read(s, header);
    }
}

/// Whether `s` starts with the bytes of `colors`, three for each: red, green and blue.
pub open spec fn is_palette(s: Seq<u8>, colors: Seq<Palette>) -> bool {
    &&& s.len() >= 3 * colors.len()
    &&& forall|i: int|
        0 <= i < colors.len() ==> {
            &&& (#[trigger] colors[i]).r == s[3 * i]
            &&& colors[i].g == s[3 * i + 1]
            &&& colors[i].b == s[3 * i + 2]
        }
}

/// A palette has one color for every three bytes, and is refused where bytes are left
/// over or missing.
pub proof fn law_palette_contents(s: Seq<u8>, length: nat)
    ensures
        match parse_palette(s, length).0 {
            Ok(colors) => {
                &&& 3 * colors.len() == length
                &&& is_palette(s, colors)
                &&& parse_palette(s, length).1 == s.skip(length as int)
            },
            Err(e) => {
                &&& e == PngError::PaletteLength <==> length % 3 != 0
                &&& e == PngError::UnexpectedEof <==> length % 3 == 0 && s.len() < length
                &&& length % 3 != 0 || s.len() < length
            },
        },
{
}

/// The bytes of an sBIT chunk in images of a color type.
pub open spec fn bytes_of_sbit(color_type: ColorType) -> nat {
    match color_type {
        ColorType::Grayscale => 1,
        ColorType::TrueColor => 3,
        ColorType::IndexedColor => 3,
        ColorType::GrayScaleAlpha => 2,
        ColorType::TrueColorAlpha => 4,
    }
}

/// Whether `s` starts with the bytes of the sBIT chunk of an image of this color type.
pub open spec fn is_sbit(s: Seq<u8>, color_type: ColorType, sbit: SBITChunk) -> bool {
    match (color_type, sbit) {
        (ColorType::Grayscale, SBITChunk::GrayScale(b)) => b == s[0],
        (ColorType::TrueColor, SBITChunk::TrueColor(b)) => {
            b[0] == s[0] && b[1] == s[1] && b[2] == s[2]
        },
        (ColorType::IndexedColor, SBITChunk::IndexedColor(b)) => {
            b[0] == s[0] && b[1] == s[1] && b[2] == s[2]
        },
        (ColorType::GrayScaleAlpha, SBITChunk::GrayScaleAlpha(b)) => b[0] == s[0] && b[1] == s[1],
        (ColorType::TrueColorAlpha, SBITChunk::TrueColorAlpha(b)) => {
            b[0] == s[0] && b[1] == s[1] && b[2] == s[2] && b[3] == s[3]
        },
        _ => false,
    }
}

/// An sBIT chunk has one byte for each channel, three for indexed images, and is refused
/// where its length is another.
pub proof fn law_sbit_contents(s: Seq<u8>, length: nat, color_type: ColorType)
    ensures
        match parse_sbit(s, length, color_type).0 {
            Ok(sbit) => {
                &&& length == bytes_of_sbit(color_type)
                &&& s.len() >= length
                &&& is_sbit(s, color_type, sbit)
                &&& parse_sbit(s, length, color_type).1 == s.skip(length as int)
            },
            Err(e) => {
                &&& e == PngError::SbitLength(color_type) <==> length != bytes_of_sbit(color_type)
                &&& e == PngError::UnexpectedEof <==> length == bytes_of_sbit(color_type)
                    && s.len() < length
                &&& length != bytes_of_sbit(color_type) || s.len() < length
            },
        },
{
}

/// Whether a byte is a letter from a to z or from A to Z.
pub open spec fn is_ascii_letter(b: u8) -> bool {
    'a' <= b as char <= 'z' || 'A' <= b as char <= 'Z'
}

/// Whether the four bytes at `i` are letters.
pub open spec fn four_letters(s: Seq<u8>, i: int) -> bool {
    &&& is_ascii_letter(s[i])
    &&& is_ascii_letter(s[i + 1])
    &&& is_ascii_letter(s[i + 2])
    &&& is_ascii_letter(s[i + 3])
}

/// Whether `t` are the four bytes at `i`.
pub open spec fn is_type_at(s: Seq<u8>, i: int, t: [u8; 4]) -> bool {
    t[0] == s[i] && t[1] == s[i + 1] && t[2] == s[i + 2] && t[3] == s[i + 3]
}

proof fn lemma_four_letters(t: Seq<u8>)
    requires
        t.len() == 4,
    ensures
        all_letters(t) == four_letters(t, 0),
{
    if four_letters(t, 0) {
        assert forall|i: int| 0 <= i < 4 implies crate::chunk::is_letter(#[trigger] t[i]) by {
            assert(i == 0 || i == 1 || i == 2 || i == 3);
        }
    } else {
        assert(!crate::chunk::is_letter(t[0]) || !crate::chunk::is_letter(t[1])
            || !crate::chunk::is_letter(t[2]) || !crate::chunk::is_letter(t[3]));
    }
}

/// A chunk type is four letters.
pub proof fn law_chunk_type(s: Seq<u8>)
    ensures
        match parse_chunk_type(s).0 {
            Ok(t) => {
                &&& s.len() >= 4
                &&& four_letters(s, 0)
                &&& is_type_at(s, 0, t)
                &&& parse_chunk_type(s).1 == s.skip(4)
            },
            Err(e) => {
                &&& e == PngError::UnexpectedEof <==> s.len() < 4
                &&& e == PngError::InvalidChunkType <==> s.len() >= 4 && !four_letters(s, 0)
                &&& s.len() < 4 || !four_letters(s, 0)
            },
        },
{
    if s.len() >= 4 {
        lemma_four_letters(s.take(4));
    }
}

/// The CRC-32 of the bytes of `s` from `i` on and before `j`.
pub open spec fn crc_of(s: Seq<u8>, i: int, j: int) -> u32 {
    !remainder(0xffffffff, bytes_bits(s.subrange(i, j)))
}

/// A chunk is a length, a type of four letters, as many bytes as the length says, and the
/// CRC of type and bytes. Where one of these is missing or wrong the chunk is turned
/// down: first a short file, then the type, then a short file again, then the CRC.
pub proof fn law_chunk_is_read(s: Seq<u8>)
    ensures
        match parse_chunk(s).0 {
            Ok((t, data)) => {
                let n = number_at(s, 0);
                &&& s.len() >= 12 + n
                &&& four_letters(s, 4)
                &&& number_at(s, 8 + n) == crc_of(s, 4, 8 + n)
                &&& is_type_at(s, 4, t)
                &&& data == s.subrange(8, 8 + n)
                &&& parse_chunk(s).1 == s.skip(12 + n)
            },
            Err(e) => {
                let n = number_at(s, 0);
                match e {
                    PngError::UnexpectedEof => {
                        ||| s.len() < 8
                        ||| four_letters(s, 4) && s.len() < 12 + n
                    },
                    PngError::InvalidChunkType => s.len() >= 8 && !four_letters(s, 4),
                    PngError::CrcMismatch(t) => {
                        &&& s.len() >= 12 + n
                        &&& four_letters(s, 4)
                        &&& is_type_at(s, 4, t)
                        &&& number_at(s, 8 + n) != crc_of(s, 4, 8 + n)
                    },
                    _ => false,
                }
            },
        },
{
    if s.len() >= 8 {
        law_big_endian_digits(s, 0);
        lemma_four_letters(s.subrange(4, 8));
        let n = number_at(s, 0);
        if s.len() >= 12 + n {
            law_big_endian_digits(s.skip(8 + n), 0);
            assert(number_at(s.skip(8 + n), 0) == number_at(s, 8 + n));
            law_crc_is_a_remainder(s.subrange(4, 8 + n));
        }
    }
}

} // verus!
