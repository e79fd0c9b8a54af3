//! The reasons for which a file is turned down.

use vstd::prelude::*;
use crate::header::{BitDepth, ColorType};

verus! {

/// Why compressed data could not be decompressed.
#[derive(Debug, Clone, Copy, PartialEq, Eq)]
pub enum ZlibError {
    /// The data ended before the compressed stream did.
    UnexpectedEnd,
    /// The first two bytes are not those of a zlib stream.
    InvalidHeader,
    /// A block has the reserved type.
    InvalidBlockType,
    /// The two copies of a stored block's length do not agree.
    InvalidStoredLength,
    /// The code lengths of a block do not make up a code.
    InvalidCodeLengths,
    /// The bits do not spell a code word, or spell one without a meaning.
    InvalidCode,
    /// A match reaches back before the start of the data.
    InvalidDistance,
    /// The checksum is not that of the data.
    ChecksumMismatch,
}

/// Why a PNG could not be decoded, or a decoded image not written.
#[derive(Debug, Clone, Copy, PartialEq, Eq)]
pub enum PngError {
    /// The input ended inside a value that was being read.
    UnexpectedEof,
    /// The file does not start with the PNG signature.
    InvalidSignature,
    /// The first chunk is not a header.
    MissingHeader,
    /// A header follows the first one.
    DuplicateHeader,
    /// A palette follows the first one.
    DuplicatePalette,
    /// The gamma stands behind the palette.
    GammaAfterPalette,
    /// The gamma stands behind image data.
    GammaAfterData,
    /// The significant bits stand behind the palette.
    SbitAfterPalette,
    /// The significant bits stand behind image data.
    SbitAfterData,
    /// A chunk is of a type that is not handled.
    UnknownChunk([u8; 4]),
    /// Bytes follow the chunk that ends the image.
    TrailingData,
    /// The image data cannot be decompressed.
    Decompression(ZlibError),
    /// A chunk type holds a byte that is not an ASCII letter.
    InvalidChunkType,
    /// The CRC stored behind a chunk of this type is not that of the chunk.
    CrcMismatch([u8; 4]),
    /// The header's bit depth is none of 1, 2, 4, 8 and 16.
    InvalidBitDepth(u8),
    /// The header's color type is none of 0, 2, 3, 4 and 6.
    InvalidColorType(u8),
    /// The header's interlace method is neither 0 nor 1.
    InvalidInterlaceMethod(u8),
    /// The width does not fit in 31 bits.
    WidthTooLarge,
    /// The height does not fit in 31 bits.
    HeightTooLarge,
    /// The color type does not come in this bit depth.
    BitDepthNotAllowed(ColorType, BitDepth),
    /// The compression method is not 0.
    UnsupportedCompression(u8),
    /// The filter method is not 0.
    UnsupportedFilterMethod(u8),
    /// The image is interlaced.
    UnsupportedInterlacing,
    /// The length of a palette chunk is not a multiple of three.
    PaletteLength,
    /// The length of an sBIT chunk is not the one of the image's color type.
    SbitLength(ColorType),
    /// The bytes of one line of the image cannot be counted in 32 bits.
    ScanlineTooLong,
    /// The decompressed data is not as long as the header says.
    DataLength,
    /// A line of the image has a filter type above 4.
    InvalidFilterType(u8),
    /// The image is indexed but has no palette.
    MissingPalette,
    /// The palette has no color with this index.
    PaletteIndex(u8),
    /// The lines of the image have no bytes, so they cannot be told apart.
    EmptyScanline,
    /// Images of this color type cannot be written.
    UnsupportedColorType(ColorType),
}

} // verus!
