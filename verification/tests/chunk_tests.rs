use png_decoder::chunk::{read_chunk, read_chunk_type};
use png_decoder::error::PngError;
use png_decoder::header::{BitDepth, ColorType, IHDRChunk, InterlaceMethod};
use png_decoder::palette::{PLTEChunk, Palette};
use png_decoder::reader::{read_u32, read_u8, ByteReader};
use png_decoder::sbit::SBITChunk;

/// An IEND chunk and one byte more.
const END: [u8; 13] = [0, 0, 0, 0, 0x49, 0x45, 0x4e, 0x44, 0xae, 0x42, 0x60, 0x82, 99];

#[test]
fn integers() {
    let mut read = ByteReader::new(&[1, 2, 3, 4, 5, 6, 7]);
    assert_eq!(read_u32(&mut read), Ok(0x01020304));
    assert_eq!(read_u8(&mut read), Ok(5));
    assert!(!read.is_empty());
    assert_eq!(read_u32(&mut read), Err(PngError::UnexpectedEof));
    assert!(read.is_empty());
    assert_eq!(read_u8(&mut read), Err(PngError::UnexpectedEof));
}

#[test]
fn largest_integer() {
    assert_eq!(read_u32(&mut ByteReader::new(&[255; 4])), Ok(u32::MAX));
}

#[test]
fn chunk_types() {
    assert_eq!(read_chunk_type(&mut ByteReader::new(b"azAZ")), Ok(*b"azAZ"));
    assert_eq!(
        read_chunk_type(&mut ByteReader::new(b"IDA1")),
        Err(PngError::InvalidChunkType)
    );
    assert_eq!(
        read_chunk_type(&mut ByteReader::new(b"[DAT")),
        Err(PngError::InvalidChunkType)
    );
    assert_eq!(read_chunk_type(&mut ByteReader::new(b"IDA")), Err(PngError::UnexpectedEof));
}

#[test]
fn end_chunk_is_read_and_no_more() {
    let mut read = ByteReader::new(&END);
    assert_eq!(read_chunk(&mut read), Ok((*b"IEND", vec![])));
    assert_eq!(read_u8(&mut read), Ok(99));
}

#[test]
fn chunk_with_data() {
    let bytes = [0, 0, 0, 4, 0x67, 0x41, 0x4d, 0x41, 0, 0, 0xb1, 0x8f, 0x0b, 0xfc, 0x61, 0x05];
    assert_eq!(
        read_chunk(&mut ByteReader::new(&bytes)),
        Ok((*b"gAMA", vec![0, 0, 0xb1, 0x8f]))
    );
}

#[test]
fn chunk_errors() {
    for n in 0..12 {
        assert_eq!(
            read_chunk(&mut ByteReader::new(&END[..n])),
            Err(PngError::UnexpectedEof)
        );
    }
    let mut bad = END;
    bad[11] = 0;
    assert_eq!(
        read_chunk(&mut ByteReader::new(&bad)),
        Err(PngError::CrcMismatch(*b"IEND"))
    );
    let mut long = END;
    long[0] = 255;
    assert_eq!(read_chunk(&mut ByteReader::new(&long)), Err(PngError::UnexpectedEof));
    let mut odd = END;
    odd[4] = 0x20;
    assert_eq!(read_chunk(&mut ByteReader::new(&odd)), Err(PngError::InvalidChunkType));
}

#[test]
fn bytes_of_the_enumerations() {
    assert_eq!(BitDepth::from(1), Ok(BitDepth::B1));
    assert_eq!(BitDepth::from(2), Ok(BitDepth::B2));
    assert_eq!(BitDepth::from(4), Ok(BitDepth::B4));
    assert_eq!(BitDepth::from(8), Ok(BitDepth::B8));
    assert_eq!(BitDepth::from(16), Ok(BitDepth::B16));
    assert_eq!(BitDepth::from(3), Err(PngError::InvalidBitDepth(3)));
    assert_eq!(ColorType::from(0), Ok(ColorType::Grayscale));
    assert_eq!(ColorType::from(2), Ok(ColorType::TrueColor));
    assert_eq!(ColorType::from(3), Ok(ColorType::IndexedColor));
    assert_eq!(ColorType::from(4), Ok(ColorType::GrayScaleAlpha));
    assert_eq!(ColorType::from(6), Ok(ColorType::TrueColorAlpha));
    assert_eq!(ColorType::from(1), Err(PngError::InvalidColorType(1)));
    assert_eq!(InterlaceMethod::from(0), Ok(InterlaceMethod::NoInterlace));
    assert_eq!(InterlaceMethod::from(1), Ok(InterlaceMethod::Adam7));
    assert_eq!(InterlaceMethod::from(2), Err(PngError::InvalidInterlaceMethod(2)));
}

fn header(bytes: [u8; 13]) -> Result<IHDRChunk, PngError> {
    IHDRChunk::from_bytes(&mut ByteReader::new(&bytes))
}

#[test]
fn headers() {
    assert_eq!(
        header([0, 0, 1, 0, 0, 0, 0, 7, 16, 6, 0, 0, 0]),
        Ok(IHDRChunk {
            width: 256,
            height: 7,
            bit_depth: BitDepth::B16,
            color_type: ColorType::TrueColorAlpha,
        })
    );
    assert_eq!(
        header([0x80, 0, 0, 0, 0, 0, 0, 1, 8, 0, 0, 0, 0]),
        Err(PngError::WidthTooLarge)
    );
    assert_eq!(
        header([0, 0, 0, 1, 0x80, 0, 0, 0, 8, 0, 0, 0, 0]),
        Err(PngError::HeightTooLarge)
    );
    assert_eq!(
        header([0, 0, 0, 1, 0, 0, 0, 1, 7, 0, 0, 0, 0]),
        Err(PngError::InvalidBitDepth(7))
    );
    assert_eq!(
        header([0, 0, 0, 1, 0, 0, 0, 1, 8, 5, 0, 0, 0]),
        Err(PngError::InvalidColorType(5))
    );
    assert_eq!(
        header([0, 0, 0, 1, 0, 0, 0, 1, 8, 0, 1, 0, 0]),
        Err(PngError::UnsupportedCompression(1))
    );
    assert_eq!(
        header([0, 0, 0, 1, 0, 0, 0, 1, 8, 0, 0, 2, 0]),
        Err(PngError::UnsupportedFilterMethod(2))
    );
    assert_eq!(
        header([0, 0, 0, 1, 0, 0, 0, 1, 8, 0, 0, 0, 1]),
        Err(PngError::UnsupportedInterlacing)
    );
    assert_eq!(
        header([0, 0, 0, 1, 0, 0, 0, 1, 8, 0, 0, 0, 9]),
        Err(PngError::InvalidInterlaceMethod(9))
    );
}

#[test]
fn bit_depths_of_the_color_types() {
    let allowed = |color: u8, depth: u8| header([0, 0, 0, 1, 0, 0, 0, 1, depth, color, 0, 0, 0]).is_ok();
    for depth in [1, 2, 4] {
        assert!(allowed(0, depth));
        assert!(!allowed(2, depth));
        assert!(allowed(3, depth));
        assert!(!allowed(4, depth));
        assert!(!allowed(6, depth));
    }
    for color in [0, 2, 3, 4, 6] {
        assert!(allowed(color, 8));
        assert_eq!(allowed(color, 16), color != 3);
    }
    assert_eq!(
        header([0, 0, 0, 1, 0, 0, 0, 1, 16, 3, 0, 0, 0]),
        Err(PngError::BitDepthNotAllowed(ColorType::IndexedColor, BitDepth::B16))
    );
}

#[test]
fn short_headers() {
    let bytes = [0, 0, 0, 1, 0, 0, 0, 1, 8, 0, 0, 0, 0];
    for n in 0..13 {
        assert_eq!(
            IHDRChunk::from_bytes(&mut ByteReader::new(&bytes[..n])),
            Err(PngError::UnexpectedEof)
        );
    }
    // What stands in front of the end is looked at first.
    assert_eq!(
        IHDRChunk::from_bytes(&mut ByteReader::new(&[0, 0, 0, 1, 0, 0, 0, 1, 3])),
        Err(PngError::InvalidBitDepth(3))
    );
}

#[test]
fn palettes() {
    assert_eq!(
        PLTEChunk::from_bytes(&mut ByteReader::new(&[1, 2, 3, 4, 5, 6]), 6),
        Ok(PLTEChunk {
            palettes: vec![Palette { r: 1, g: 2, b: 3 }, Palette { r: 4, g: 5, b: 6 }],
        })
    );
    assert_eq!(
        PLTEChunk::from_bytes(&mut ByteReader::new(&[1, 2, 3, 4]), 4),
        Err(PngError::PaletteLength)
    );
    assert_eq!(
        PLTEChunk::from_bytes(&mut ByteReader::new(&[1, 2, 3, 4]), 6),
        Err(PngError::UnexpectedEof)
    );
    assert_eq!(
        PLTEChunk::from_bytes(&mut ByteReader::new(&[]), 0),
        Ok(PLTEChunk { palettes: vec![] })
    );
}

#[test]
fn significant_bits() {
    let bytes = [1, 2, 3, 4];
    let sbit = |length: usize, color: ColorType| {
        SBITChunk::read_bytes(&mut ByteReader::new(&bytes), length, color)
    };
    assert_eq!(sbit(1, ColorType::Grayscale), Ok(SBITChunk::GrayScale(1)));
    assert_eq!(sbit(3, ColorType::TrueColor), Ok(SBITChunk::TrueColor([1, 2, 3])));
    assert_eq!(sbit(3, ColorType::IndexedColor), Ok(SBITChunk::IndexedColor([1, 2, 3])));
    assert_eq!(sbit(2, ColorType::GrayScaleAlpha), Ok(SBITChunk::GrayScaleAlpha([1, 2])));
    assert_eq!(sbit(4, ColorType::TrueColorAlpha), Ok(SBITChunk::TrueColorAlpha([1, 2, 3, 4])));
    for color in [
        ColorType::Grayscale,
        ColorType::TrueColor,
        ColorType::IndexedColor,
        ColorType::GrayScaleAlpha,
        ColorType::TrueColorAlpha,
    ] {
        assert_eq!(sbit(0, color), Err(PngError::SbitLength(color)));
    }
    assert_eq!(
        SBITChunk::read_bytes(&mut ByteReader::new(&[1, 2]), 3, ColorType::TrueColor),
        Err(PngError::UnexpectedEof)
    );
}
