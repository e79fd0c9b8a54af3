use png_decoder::crc::compute_crc;
use png_decoder::error::{PngError, ZlibError};
use png_decoder::header::{BitDepth, ColorType, IHDRChunk};
use png_decoder::palette::{PLTEChunk, Palette};
use png_decoder::png::Png;
use png_decoder::sbit::SBITChunk;
use png_decoder::stream::{ImageStream, SIGNATURE};
use png_decoder::zlib::compute_adler32;

const GRAY: [u8; 71] = [
    137, 80, 78, 71, 13, 10, 26, 10, 0, 0, 0, 13, 73, 72, 68, 82, 0, 0, 0, 2, 0, 0, 0, 2, 8, 0,
    0, 0, 0, 87, 221, 82, 248, 0, 0, 0, 14, 73, 68, 65, 84, 120, 156, 99, 224, 18, 97, 98, 100,
    2, 0, 0, 146, 0, 36, 170, 24, 171, 157, 0, 0, 0, 0, 73, 69, 78, 68, 174, 66, 96, 130,
];
const RGB: [u8; 435] = [
    137, 80, 78, 71, 13, 10, 26, 10, 0, 0, 0, 13, 73, 72, 68, 82, 0, 0, 0, 16, 0, 0, 0, 12, 8,
    2, 0, 0, 0, 228, 133, 170, 214, 0, 0, 0, 4, 103, 65, 77, 65, 0, 0, 177, 143, 11, 252, 97, 5,
    0, 0, 0, 3, 115, 66, 73, 84, 8, 7, 6, 187, 193, 126, 40, 0, 0, 0, 50, 73, 68, 65, 84, 120,
    218, 99, 96, 208, 8, 96, 213, 13, 229, 50, 138, 226, 55, 143, 23, 177, 73, 145, 116, 204,
    148, 115, 203, 83, 246, 46, 214, 8, 168, 208, 13, 173, 53, 138, 106, 50, 143, 111, 183, 73,
    233, 113, 204, 156, 232, 150, 55, 205, 187, 51, 186, 135, 106, 0, 0, 1, 29, 73, 68, 65, 84,
    120, 54, 35, 187, 126, 56, 7, 41, 128, 137, 157, 157, 157, 139, 139, 139, 151, 151, 87, 64,
    64, 64, 88, 88, 88, 76, 76, 76, 82, 82, 82, 70, 70, 70, 94, 94, 94, 73, 73, 73, 85, 85, 85,
    67, 67, 67, 91, 91, 91, 79, 79, 207, 208, 208, 208, 196, 196, 132, 153, 79, 201, 140, 135,
    135, 135, 143, 143, 143, 159, 159, 95, 80, 80, 80, 72, 72, 72, 68, 68, 68, 84, 84, 84, 92,
    92, 92, 66, 66, 66, 74, 74, 74, 90, 90, 90, 86, 86, 86, 78, 110, 158, 130, 194, 2, 197, 133,
    138, 44, 200, 54, 8, 226, 4, 218, 32, 194, 16, 68, 48, 0, 253, 7, 244, 22, 208, 55, 241,
    237, 235, 139, 103, 31, 110, 95, 127, 125, 246, 225, 215, 235, 175, 255, 63, 252, 90, 248,
    250, 127, 245, 215, 194, 214, 255, 213, 253, 133, 173, 147, 213, 253, 203, 173, 147, 187,
    253, 203, 231, 51, 106, 5, 85, 137, 147, 2, 72, 247, 180, 130, 137, 7, 170, 47, 103, 193,
    124, 41, 167, 160, 160, 160, 168, 168, 168, 172, 172, 172, 162, 162, 162, 166, 166, 166,
    174, 190, 92, 83, 83, 147, 5, 195, 6, 5, 73, 5, 168, 13, 10, 40, 64, 15, 68, 152, 40, 48, 0,
    227, 47, 115, 226, 206, 158, 45, 119, 128, 30, 189, 244, 75, 233, 171, 172, 171, 132, 67, 6,
    208, 127, 113, 109, 235, 26, 87, 94, 92, 114, 230, 203, 241, 247, 226, 175, 132, 172, 120,
    77, 99, 13, 34, 26, 130, 171, 23, 51, 250, 150, 206, 85, 35, 5, 0, 0, 184, 242, 110, 136,
    221, 149, 97, 154, 0, 0, 0, 0, 73, 69, 78, 68, 174, 66, 96, 130,
];
const INDEXED: [u8; 95] = [
    137, 80, 78, 71, 13, 10, 26, 10, 0, 0, 0, 13, 73, 72, 68, 82, 0, 0, 0, 5, 0, 0, 0, 2, 2, 3,
    0, 0, 0, 237, 4, 254, 206, 0, 0, 0, 12, 80, 76, 84, 69, 1, 2, 3, 40, 50, 60, 255, 254, 253,
    9, 8, 7, 178, 181, 109, 8, 0, 0, 0, 14, 73, 68, 65, 84, 120, 156, 99, 144, 222, 207, 240,
    196, 1, 0, 5, 145, 1, 255, 139, 199, 40, 5, 0, 0, 0, 0, 73, 69, 78, 68, 174, 66, 96, 130,
];
const GRAY16: [u8; 70] = [
    137, 80, 78, 71, 13, 10, 26, 10, 0, 0, 0, 13, 73, 72, 68, 82, 0, 0, 0, 2, 0, 0, 0, 1, 16, 0,
    0, 0, 0, 129, 217, 252, 21, 0, 0, 0, 13, 73, 68, 65, 84, 120, 156, 99, 20, 50, 97, 100, 4,
    0, 0, 241, 0, 74, 246, 71, 44, 221, 0, 0, 0, 0, 73, 69, 78, 68, 174, 66, 96, 130,
];

fn chunk(kind: &[u8; 4], data: &[u8]) -> Vec<u8> {
    let mut body = kind.to_vec();
    body.extend_from_slice(data);
    let mut out = (data.len() as u32).to_be_bytes().to_vec();
    out.extend_from_slice(&body);
    out.extend(compute_crc(&body).to_be_bytes());
    out
}

fn ihdr(width: u32, height: u32, bit_depth: u8, color_type: u8) -> Vec<u8> {
    let mut data = width.to_be_bytes().to_vec();
    data.extend(height.to_be_bytes());
    data.extend([bit_depth, color_type, 0, 0, 0]);
    chunk(b"IHDR", &data)
}

fn stored(data: &[u8]) -> Vec<u8> {
    let mut out = vec![0x78, 0x01, 1];
    out.extend((data.len() as u16).to_le_bytes());
    out.extend((!(data.len() as u16)).to_le_bytes());
    out.extend_from_slice(data);
    out.extend(compute_adler32(data).to_be_bytes());
    out
}

fn file(chunks: &[Vec<u8>]) -> Vec<u8> {
    let mut out = SIGNATURE.to_vec();
    for c in chunks {
        out.extend_from_slice(c);
    }
    out
}

fn end() -> Vec<u8> {
    chunk(b"IEND", b"")
}

fn refused(bytes: &[u8]) -> PngError {
    match Png::read_png(bytes) {
        Ok(_) => panic!("the file was accepted"),
        Err(e) => e,
    }
}

fn text(png: &Png) -> String {
    String::from_utf8(png.write_to_ppm().unwrap()).unwrap()
}

fn rgb_pixels() -> Vec<u8> {
    let mut out = Vec::new();
    for y in 0..12usize {
        for x in 0..16usize {
            for c in 0..3usize {
                out.push((x * y * 3 + x * 5 + y * 7 + c * 40) as u8);
            }
        }
    }
    out
}

#[test]
fn gray_image_and_its_text() {
    let png = Png::read_png(&GRAY).ok().unwrap();
    assert_eq!(
        png.header,
        IHDRChunk { width: 2, height: 2, bit_depth: BitDepth::B8, color_type: ColorType::Grayscale }
    );
    assert_eq!(png.palette, None);
    assert_eq!(png.gamma, None);
    assert_eq!(png.sbit, None);
    assert_eq!(png.data, vec![10, 20, 11, 22]);
    assert_eq!(text(&png), "P2\n2 2\n255\n10\n20\n11\n22\n");
}

#[test]
fn true_color_image_with_all_filters() {
    let png = Png::read_png(&RGB).ok().unwrap();
    assert_eq!(png.gamma, Some(45455));
    assert_eq!(png.sbit, Some(SBITChunk::TrueColor([8, 7, 6])));
    assert_eq!(png.data, rgb_pixels());
    let mut expected = String::from("P3\n16 12\n255\n");
    for p in rgb_pixels().chunks(3) {
        expected.push_str(&format!("{} {} {}\n", p[0], p[1], p[2]));
    }
    assert_eq!(text(&png), expected);
    assert_eq!(expected.lines().count(), 3 + 16 * 12);
}

#[test]
fn indexed_image_drops_the_padding() {
    let png = Png::read_png(&INDEXED).ok().unwrap();
    assert_eq!(
        png.palette,
        Some(PLTEChunk {
            palettes: vec![
                Palette { r: 1, g: 2, b: 3 },
                Palette { r: 40, g: 50, b: 60 },
                Palette { r: 255, g: 254, b: 253 },
                Palette { r: 9, g: 8, b: 7 },
            ]
        })
    );
    assert_eq!(
        text(&png),
        "P3\n5 2\n255\n1 2 3\n40 50 60\n255 254 253\n9 8 7\n255 254 253\n\
         9 8 7\n255 254 253\n40 50 60\n1 2 3\n40 50 60\n"
    );
}

#[test]
fn sixteen_bit_gray() {
    let png = Png::read_png(&GRAY16).ok().unwrap();
    assert_eq!(png.data, vec![0x12, 0x34, 0x13, 0x35]);
    assert_eq!(text(&png), "P2\n2 1\n65535\n4660\n4917\n");
}

#[test]
fn sixteen_bit_true_color() {
    let png = Png {
        header: IHDRChunk {
            width: 1,
            height: 1,
            bit_depth: BitDepth::B16,
            color_type: ColorType::TrueColor,
        },
        palette: None,
        gamma: None,
        sbit: None,
        data: vec![0, 1, 1, 0, 255, 255],
    };
    assert_eq!(text(&png), "P3\n1 1\n65535\n1 256 65535\n");
}

#[test]
fn one_bit_gray() {
    let lines = [0, 0b1010_0000, 0b1000_0000, 0, 0b0000_0001, 0b0111_1111];
    let bytes = file(&[ihdr(9, 2, 1, 0), chunk(b"IDAT", &stored(&lines)), end()]);
    let png = Png::read_png(&bytes).ok().unwrap();
    assert_eq!(
        text(&png),
        "P2\n9 2\n1\n1\n0\n1\n0\n0\n0\n0\n0\n1\n0\n0\n0\n0\n0\n0\n0\n1\n0\n"
    );
}

#[test]
fn indexed_image_with_whole_bytes() {
    let bytes = file(&[
        ihdr(2, 1, 8, 3),
        chunk(b"PLTE", &[1, 1, 1, 2, 2, 2]),
        chunk(b"IDAT", &stored(&[0, 1, 0])),
        end(),
    ]);
    let png = Png::read_png(&bytes).ok().unwrap();
    assert_eq!(text(&png), "P3\n2 1\n255\n2 2 2\n1 1 1\n");
}

#[test]
fn every_way_to_split_the_data_reads_the_same() {
    let data = stored(&[0, 10, 20, 2, 1, 2]);
    for n in 0..=data.len() {
        let bytes = file(&[
            ihdr(2, 2, 8, 0),
            chunk(b"IDAT", &data[..n]),
            chunk(b"IDAT", &data[n..]),
            end(),
        ]);
        assert_eq!(Png::read_png(&bytes).ok().unwrap().data, vec![10, 20, 11, 22]);
    }
}

#[test]
fn palette_may_follow_the_data() {
    let bytes = file(&[
        ihdr(1, 1, 8, 3),
        chunk(b"IDAT", &stored(&[0, 0])),
        chunk(b"PLTE", &[7, 8, 9]),
        end(),
    ]);
    assert_eq!(text(&Png::read_png(&bytes).ok().unwrap()), "P3\n1 1\n255\n7 8 9\n");
}

#[test]
fn empty_data_does_not_count_as_data() {
    let bytes = file(&[
        ihdr(1, 1, 8, 0),
        chunk(b"IDAT", b""),
        chunk(b"gAMA", &[0, 0, 0, 1]),
        chunk(b"gAMA", &[0, 0, 0, 2, 77]),
        chunk(b"IDAT", &stored(&[0, 5])),
        end(),
    ]);
    assert_eq!(Png::read_png(&bytes).ok().unwrap().gamma, Some(2));
}

#[test]
fn cut_files_end_unexpectedly() {
    for n in 0..GRAY.len() {
        assert_eq!(refused(&GRAY[..n]), PngError::UnexpectedEof);
    }
}

#[test]
fn damaged_chunks_are_refused() {
    // Each byte of the header chunk behind its length.
    for i in 12..33 {
        let mut bytes = GRAY.to_vec();
        bytes[i] ^= 1;
        assert!(matches!(
            refused(&bytes),
            PngError::CrcMismatch(_) | PngError::InvalidChunkType
        ));
    }
    let mut bytes = GRAY.to_vec();
    bytes[20] ^= 1;
    assert_eq!(refused(&bytes), PngError::CrcMismatch(*b"IHDR"));
}

#[test]
fn wrong_signature() {
    let mut bytes = GRAY.to_vec();
    bytes[0] = 138;
    assert_eq!(refused(&bytes), PngError::InvalidSignature);
}

#[test]
fn chunk_order() {
    let data = chunk(b"IDAT", &stored(&[0, 5]));
    let head = ihdr(1, 1, 8, 0);
    let palette = chunk(b"PLTE", &[1, 2, 3]);
    let gamma = chunk(b"gAMA", &[0, 0, 0, 1]);
    let sbit = chunk(b"sBIT", &[8]);
    assert_eq!(refused(&file(&[data.clone(), end()])), PngError::MissingHeader);
    assert_eq!(
        refused(&file(&[head.clone(), head.clone(), end()])),
        PngError::DuplicateHeader
    );
    assert_eq!(
        refused(&file(&[head.clone(), palette.clone(), palette.clone(), end()])),
        PngError::DuplicatePalette
    );
    assert_eq!(
        refused(&file(&[head.clone(), palette.clone(), gamma.clone(), end()])),
        PngError::GammaAfterPalette
    );
    assert_eq!(
        refused(&file(&[head.clone(), data.clone(), gamma.clone(), end()])),
        PngError::GammaAfterData
    );
    assert_eq!(
        refused(&file(&[head.clone(), palette.clone(), sbit.clone(), end()])),
        PngError::SbitAfterPalette
    );
    assert_eq!(
        refused(&file(&[head.clone(), data.clone(), sbit.clone(), end()])),
        PngError::SbitAfterData
    );
    assert_eq!(
        refused(&file(&[head.clone(), chunk(b"tEXt", b"x"), end()])),
        PngError::UnknownChunk(*b"tEXt")
    );
    assert_eq!(
        refused(&file(&[head.clone(), data.clone(), end(), vec![0]])),
        PngError::TrailingData
    );
    assert_eq!(
        refused(&file(&[head.clone(), chunk(b"gAMA", &[0, 0, 0]), end()])),
        PngError::UnexpectedEof
    );
    assert_eq!(
        refused(&file(&[head.clone(), chunk(b"sBIT", &[8, 8]), end()])),
        PngError::SbitLength(ColorType::Grayscale)
    );
    assert_eq!(
        refused(&file(&[head.clone(), chunk(b"PLTE", &[8, 8]), end()])),
        PngError::PaletteLength
    );
    assert!(Png::read_png(&file(&[head, gamma, sbit, palette, data, end()])).is_ok());
}

#[test]
fn stream_keeps_the_compressed_data() {
    let stream = ImageStream::read(&RGB).ok().unwrap();
    assert_eq!(stream.data[..2], [0x78, 0xda]);
    assert_eq!(stream.header.width, 16);
    assert_eq!(stream.gamma, Some(45455));
}

#[test]
fn data_that_is_no_image() {
    let head = ihdr(1, 2, 8, 0);
    assert_eq!(
        refused(&file(&[head.clone(), end()])),
        PngError::Decompression(ZlibError::UnexpectedEnd)
    );
    assert_eq!(
        refused(&file(&[head.clone(), chunk(b"IDAT", &stored(&[0, 1])), end()])),
        PngError::DataLength
    );
    assert_eq!(
        refused(&file(&[head, chunk(b"IDAT", &stored(&[0, 1, 5, 1])), end()])),
        PngError::InvalidFilterType(5)
    );
    assert_eq!(
        refused(&file(&[
            ihdr(0x7fffffff, 1, 16, 6),
            chunk(b"IDAT", &stored(&[0])),
            end()
        ])),
        PngError::ScanlineTooLong
    );
}

#[test]
fn images_that_cannot_be_written() {
    let image = |width: u32, bit_depth: BitDepth, color_type: ColorType, data: Vec<u8>| Png {
        header: IHDRChunk { width, height: 1, bit_depth, color_type },
        palette: None,
        gamma: None,
        sbit: None,
        data,
    };
    assert_eq!(
        image(1, BitDepth::B8, ColorType::IndexedColor, vec![0]).write_to_ppm(),
        Err(PngError::MissingPalette)
    );
    assert_eq!(
        image(1, BitDepth::B8, ColorType::GrayScaleAlpha, vec![0, 0]).write_to_ppm(),
        Err(PngError::UnsupportedColorType(ColorType::GrayScaleAlpha))
    );
    assert_eq!(
        image(1, BitDepth::B8, ColorType::TrueColorAlpha, vec![0; 4]).write_to_ppm(),
        Err(PngError::UnsupportedColorType(ColorType::TrueColorAlpha))
    );
    assert_eq!(
        image(0, BitDepth::B1, ColorType::Grayscale, vec![]).write_to_ppm(),
        Err(PngError::EmptyScanline)
    );
    let mut indexed = image(3, BitDepth::B4, ColorType::IndexedColor, vec![0x01, 0x20]);
    indexed.palette = Some(PLTEChunk {
        palettes: vec![Palette { r: 1, g: 1, b: 1 }, Palette { r: 2, g: 2, b: 2 }],
    });
    assert_eq!(indexed.write_to_ppm(), Err(PngError::PaletteIndex(2)));
    indexed.data = vec![0x01, 0x10];
    assert_eq!(text(&indexed), "P3\n3 1\n255\n1 1 1\n2 2 2\n2 2 2\n");
}

#[test]
fn image_without_pixels() {
    let bytes = file(&[ihdr(0, 1, 8, 0), chunk(b"IDAT", &stored(&[9])), end()]);
    let png = Png::read_png(&bytes).ok().unwrap();
    assert_eq!(text(&png), "P2\n0 1\n255\n");
}
