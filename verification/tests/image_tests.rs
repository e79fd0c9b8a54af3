use png_decoder::batch::job_for_line;
use png_decoder::error::PngError;
use png_decoder::header::{BitDepth, ColorType, IHDRChunk};
use png_decoder::huffman::Huffman;
use png_decoder::bits::BitReader;
use png_decoder::png::Png;
use png_decoder::ppm::write_decimal;

fn header(width: u32, height: u32, bit_depth: BitDepth, color_type: ColorType) -> IHDRChunk {
    IHDRChunk { width, height, bit_depth, color_type }
}

#[test]
fn line_lengths() {
    let gray = |width: u32, depth: BitDepth| {
        Png::scanline_length(&header(width, 1, depth, ColorType::Grayscale))
    };
    assert_eq!(gray(9, BitDepth::B1), 3);
    assert_eq!(gray(8, BitDepth::B1), 2);
    assert_eq!(gray(5, BitDepth::B2), 3);
    assert_eq!(gray(3, BitDepth::B4), 3);
    assert_eq!(gray(3, BitDepth::B8), 4);
    assert_eq!(gray(3, BitDepth::B16), 7);
    assert_eq!(gray(0, BitDepth::B16), 1);
    assert_eq!(Png::scanline_length(&header(5, 1, BitDepth::B8, ColorType::TrueColor)), 16);
    assert_eq!(Png::scanline_length(&header(5, 1, BitDepth::B16, ColorType::TrueColorAlpha)), 41);
    assert_eq!(Png::scanline_length(&header(5, 1, BitDepth::B8, ColorType::GrayScaleAlpha)), 11);
    assert_eq!(Png::scanline_length(&header(5, 1, BitDepth::B2, ColorType::IndexedColor)), 3);
}

#[test]
fn line_lengths_that_can_be_counted() {
    let alpha = |width: u32| header(width, 1, BitDepth::B16, ColorType::TrueColorAlpha);
    assert!(Png::scanline_fits(&alpha(0x1fff_ffff)));
    assert_eq!(Png::scanline_length(&alpha(0x1fff_ffff)), 0xffff_fff9);
    assert!(!Png::scanline_fits(&alpha(0x2000_0000)));
}

#[test]
fn bytes_per_pixel() {
    let bpp = |depth: BitDepth, color: ColorType| Png::get_bpp(&header(1, 1, depth, color));
    assert_eq!(bpp(BitDepth::B1, ColorType::Grayscale), 1);
    assert_eq!(bpp(BitDepth::B16, ColorType::Grayscale), 2);
    assert_eq!(bpp(BitDepth::B8, ColorType::TrueColor), 3);
    assert_eq!(bpp(BitDepth::B16, ColorType::TrueColor), 6);
    assert_eq!(bpp(BitDepth::B4, ColorType::IndexedColor), 1);
    assert_eq!(bpp(BitDepth::B8, ColorType::GrayScaleAlpha), 2);
    assert_eq!(bpp(BitDepth::B16, ColorType::GrayScaleAlpha), 4);
    assert_eq!(bpp(BitDepth::B8, ColorType::TrueColorAlpha), 4);
    assert_eq!(bpp(BitDepth::B16, ColorType::TrueColorAlpha), 8);
}

#[test]
fn paeth_prefers_left_then_up() {
    assert_eq!(Png::paeth_predictor(10, 10, 10), 10);
    assert_eq!(Png::paeth_predictor(10, 20, 10), 20);
    assert_eq!(Png::paeth_predictor(20, 10, 10), 20);
    assert_eq!(Png::paeth_predictor(1, 3, 2), 2);
    assert_eq!(Png::paeth_predictor(0, 255, 255), 0);
    assert_eq!(Png::paeth_predictor(5, 7, 7), 5);
    assert_eq!(Png::paeth_predictor(100, 50, 80), 80);
}

#[test]
fn each_filter_once() {
    let data = vec![
        0, 1, 2, 3, // no filter
        1, 1, 2, 3, // left
        2, 1, 2, 3, // up
        3, 1, 2, 3, // average
        4, 1, 2, 250, // nearest
    ];
    assert_eq!(
        Png::unfilter(&header(3, 5, BitDepth::B8, ColorType::Grayscale), data),
        Ok(vec![1, 2, 3, 1, 3, 6, 2, 5, 9, 2, 5, 10, 3, 7, 4])
    );
}

#[test]
fn left_neighbour_is_a_pixel_away() {
    let data = vec![1, 1, 2, 3, 10, 20, 30];
    assert_eq!(
        Png::unfilter(&header(2, 1, BitDepth::B8, ColorType::TrueColor), data),
        Ok(vec![1, 2, 3, 11, 22, 33])
    );
}

/// Filters the lines of `pixels`, the inverse of what is tested.
fn filter(pixels: &[u8], stride: usize, bpp: usize, filters: &[u8]) -> Vec<u8> {
    let mut out = Vec::new();
    for (row, &f) in filters.iter().enumerate() {
        out.push(f);
        for i in 0..stride {
            let at = |back: usize, inside: bool| if inside { pixels[row * stride + i - back] } else { 0 };
            let a = at(bpp, i >= bpp);
            let b = at(stride, row > 0);
            let c = at(stride + bpp, row > 0 && i >= bpp);
            let expected = match f {
                0 => 0,
                1 => a,
                2 => b,
                3 => ((a as u16 + b as u16) / 2) as u8,
                _ => Png::paeth_predictor(a, b, c),
            };
            out.push(pixels[row * stride + i].wrapping_sub(expected));
        }
    }
    out
}

#[test]
fn filtering_is_undone() {
    let filters = [4, 3, 2, 1, 0, 4, 4, 3, 3, 1, 2];
    let image = header(7, 11, BitDepth::B16, ColorType::TrueColorAlpha);
    let stride = 7 * 8;
    let pixels: Vec<u8> = (0..stride * 11).map(|i| (i * i * 31 + i * 7) as u8).collect();
    let data = filter(&pixels, stride, 8, &filters);
    assert_eq!(Png::unfilter(&image, data), Ok(pixels));
}

#[test]
fn lines_that_are_refused() {
    let image = header(1, 2, BitDepth::B8, ColorType::Grayscale);
    assert_eq!(Png::unfilter(&image, vec![0, 1, 0]), Err(PngError::DataLength));
    assert_eq!(
        Png::unfilter(&image, vec![0, 1, 7, 0]),
        Err(PngError::InvalidFilterType(7))
    );
    assert_eq!(
        Png::unfilter(&image, vec![9, 1, 7, 0]),
        Err(PngError::InvalidFilterType(9))
    );
    // The filter type of a line without bytes is not looked at.
    let empty = header(0, 2, BitDepth::B8, ColorType::Grayscale);
    assert_eq!(Png::unfilter(&empty, vec![9, 9]), Ok(vec![]));
}

#[test]
fn unpacking() {
    let row = [0b1011_0001, 0b0100_0000];
    assert_eq!(
        Png::unpack_samples(&row, BitDepth::B1, 10),
        vec![1, 0, 1, 1, 0, 0, 0, 1, 0, 1]
    );
    assert_eq!(Png::unpack_samples(&row, BitDepth::B2, 5), vec![2, 3, 0, 1, 1]);
    assert_eq!(Png::unpack_samples(&row, BitDepth::B4, 3), vec![11, 1, 4]);
    assert_eq!(Png::unpack_samples(&row, BitDepth::B8, 2), vec![0b1011_0001, 0b0100_0000]);
    assert_eq!(Png::unpack_samples(&row, BitDepth::B8, 1), vec![0b1011_0001]);
    assert_eq!(Png::unpack_samples(&row, BitDepth::B4, 0), Vec::<u8>::new());
    // A short row gives what it holds.
    assert_eq!(Png::unpack_samples(&row, BitDepth::B4, 9), vec![11, 1, 4, 0]);
}

#[test]
fn largest_samples() {
    assert_eq!(Png::max_sample_value(BitDepth::B1), 1);
    assert_eq!(Png::max_sample_value(BitDepth::B2), 3);
    assert_eq!(Png::max_sample_value(BitDepth::B4), 15);
    assert_eq!(Png::max_sample_value(BitDepth::B8), 255);
    assert_eq!(Png::max_sample_value(BitDepth::B16), 65535);
}

#[test]
fn no_sample_exceeds_the_largest() {
    for depth in [BitDepth::B1, BitDepth::B2, BitDepth::B4] {
        for sample in Png::unpack_samples(&[255; 4], depth, 8) {
            assert_eq!(sample as u32, Png::max_sample_value(depth));
        }
    }
}

#[test]
fn decimals() {
    for v in [0, 7, 10, 99, 100, 65535, 4294967295] {
        let mut out = b"x".to_vec();
        write_decimal(&mut out, v);
        assert_eq!(String::from_utf8(out).unwrap(), format!("x{v}"));
    }
}

#[test]
fn canonical_code() {
    // Lengths 2, 1, 3, 3 make the code words 10, 0, 110, 111.
    let code = Huffman::new(vec![2, 1, 3, 3]);
    assert!(code.is_complete());
    assert!(code.is_usable());
    // 10 0 110 111, the first bit being the lowest of the first byte.
    let bytes = [0b1101_1001u8, 0b0000_0001];
    let mut bits = BitReader::at_byte(&bytes, 0);
    assert_eq!(code.decode(&mut bits), Ok(0));
    assert_eq!(code.decode(&mut bits), Ok(1));
    assert_eq!(code.decode(&mut bits), Ok(2));
    assert_eq!(code.decode(&mut bits), Ok(3));
}

#[test]
fn codes_that_are_not_full() {
    let single = Huffman::new(vec![0, 1]);
    assert!(!single.is_complete());
    assert!(single.is_usable());
    let none = Huffman::new(vec![0, 0]);
    assert!(none.is_complete());
    assert!(none.is_usable());
    let sparse = Huffman::new(vec![2, 2]);
    assert!(!sparse.is_usable());
    let crowded = Huffman::new(vec![1, 1, 1]);
    assert!(!crowded.is_usable());
    assert_eq!(crowded.free(), -16384);
}

#[test]
fn jobs() {
    assert!(job_for_line("# comment").is_none());
    let gray = job_for_line("basn0g01").unwrap();
    assert_eq!(gray.input, "test/basn0g01.png");
    assert_eq!(gray.output, "basn0g01.pgm");
    let color = job_for_line("basn2c08").unwrap();
    assert_eq!(color.input, "test/basn2c08.png");
    assert_eq!(color.output, "basn2c08.ppm");
    let empty = job_for_line("").unwrap();
    assert_eq!(empty.input, "test/.png");
    assert_eq!(empty.output, ".ppm");
}

#[test]
fn padding_does_not_matter() {
    for padding in 0..8u8 {
        let row = [0x5a, 0b1011_0000 | padding];
        assert_eq!(
            Png::unpack_samples(&row, BitDepth::B1, 13),
            vec![0, 1, 0, 1, 1, 0, 1, 0, 1, 0, 1, 1, 0]
        );
        assert_eq!(Png::unpack_samples(&row, BitDepth::B2, 6), vec![1, 1, 2, 2, 2, 3]);
        assert_eq!(Png::unpack_samples(&row, BitDepth::B4, 3), vec![5, 10, 11]);
    }
}
