//! What holds of the text of every image.

use vstd::arithmetic::power2::{lemma2_to64, pow2};
use vstd::prelude::*;
use crate::header::{BitDepth, ColorType, IHDRChunk};
use crate::palette::Palette;
use crate::png::{law_decoded_size, parse_png};
use crate::ppm::{
    color_line, decimal, first_bad_index, gray_line, gray_text, image_sample, indexed_text, joined,
    pair_line, ppm_text, preamble, rgb_line, rgb_text, row_of, sample_total, wide_sample,
};
use crate::samples::law_sample_in_range;
use crate::scanline::{lemma_small_multiple, lemma_stride_by_depth};

verus! {

/// The value of decimal digits.
pub open spec fn decimal_value(digits: Seq<u8>) -> nat
    decreases digits.len(),
{
    if digits.len() == 0 {
        0
    } else {
        (10 * decimal_value(digits.drop_last()) + (digits.last() - 0x30)) as nat
    }
}

/// A number is written with digits only, the first of which is no 0 in front of
/// others, and has the value that the digits have.
pub proof fn law_decimal_round_trip(n: nat)
    ensures
        decimal_value(decimal(n)) == n,
        decimal(n).len() > 0,
        decimal(n)[0] == 0x30 ==> n == 0,
        forall|i: int| 0 <= i < decimal(n).len() ==> 0x30 <= #[trigger] decimal(n)[i] <= 0x39,
    decreases n,
{
    if n < 10 {
        let d = decimal(n);
        assert(d.drop_last() =~= Seq::<u8>::empty());
        assert(decimal_value(d.drop_last()) == 0);
    } else {
        law_decimal_round_trip(n / 10);
        assert(decimal(n).drop_last() =~= decimal(n / 10));
    }
}

/// No sample of a grayscale or true-color image exceeds the largest value that its
/// text announces.
pub proof fn law_within_maxval(header: IHDRChunk, data: Seq<u8>, k: int)
    ensures
        header.bit_depth != BitDepth::B16 ==> image_sample(header, data, k) <= pow2(
            header.bit_depth.bits(),
        ) - 1,
        header.bit_depth == BitDepth::B8 ==> data[k] <= pow2(header.bit_depth.bits()) - 1,
        header.bit_depth == BitDepth::B16 ==> wide_sample(data, k) <= pow2(
            header.bit_depth.bits(),
        ) - 1,
{
    lemma2_to64();
    if header.bit_depth != BitDepth::B16 {
        law_sample_in_range(
            row_of(data, header.stride(), k / header.width as int),
            header.bit_depth,
            k % header.width as int,
        );
    }
}

/// The number of lines of a text.
pub open spec fn line_count(text: Seq<u8>) -> nat
    decreases text.len(),
{
    if text.len() == 0 {
        0
    } else {
        line_count(text.drop_last()) + (if text.last() == 0x0a {
            1nat
        } else {
            0nat
        })
    }
}

proof fn lemma_lines_of_both(a: Seq<u8>, b: Seq<u8>)
    ensures
        line_count(a + b) == line_count(a) + line_count(b),
    decreases b.len(),
{
    if b.len() == 0 {
        assert(a + b =~= a);
    } else {
        lemma_lines_of_both(a, b.drop_last());
        assert((a + b).drop_last() =~= a + b.drop_last());
    }
}

proof fn lemma_no_lines(s: Seq<u8>)
    requires
        forall|i: int| 0 <= i < s.len() ==> #[trigger] s[i] != 0x0a,
    ensures
        line_count(s) == 0,
    decreases s.len(),
{
    if s.len() > 0 {
        lemma_no_lines(s.drop_last());
    }
}

/// A number and what follows it.
proof fn lemma_number(n: nat, b: u8)
    ensures
        line_count(decimal(n).push(b)) == (if b == 0x0a {
            1nat
        } else {
            0nat
        }),
{
    law_decimal_round_trip(n);
    lemma_no_lines(decimal(n));
    assert(decimal(n).push(b).drop_last() =~= decimal(n));
}

proof fn lemma_rgb_line(r: nat, g: nat, b: nat)
    ensures
        line_count(rgb_line(r, g, b)) == 1,
{
    lemma_number(r, 0x20);
    lemma_number(g, 0x20);
    lemma_number(b, 0x0a);
    lemma_lines_of_both(decimal(r).push(0x20), decimal(g).push(0x20));
    lemma_lines_of_both(decimal(r).push(0x20) + decimal(g).push(0x20), decimal(b).push(0x0a));
}

proof fn lemma_joined(line: spec_fn(int) -> Seq<u8>, n: nat)
    requires
        forall|k: int| 0 <= k < n ==> line_count(#[trigger] line(k)) == 1,
    ensures
        line_count(joined(line, n)) == n,
    decreases n,
{
    if n > 0 {
        lemma_joined(line, (n - 1) as nat);
        lemma_lines_of_both(joined(line, (n - 1) as nat), line(n - 1));
    }
}

proof fn lemma_preamble(digit: u8, header: IHDRChunk, max: nat)
    requires
        digit != 0x0a,
    ensures
        line_count(preamble(digit, header, max)) == 3,
{
    let w = header.width as nat;
    let h = header.height as nat;
    let magic = seq![0x50u8, digit, 0x0a];
    assert(magic.drop_last() =~= seq![0x50u8, digit]);
    lemma_no_lines(seq![0x50u8, digit]);
    assert(line_count(magic) == 1);
    lemma_number(w, 0x20);
    lemma_number(h, 0x0a);
    lemma_number(max, 0x0a);
    lemma_lines_of_both(decimal(w).push(0x20), decimal(h).push(0x0a));
    lemma_lines_of_both(magic, pair_line(w, h));
    lemma_lines_of_both(magic + pair_line(w, h), gray_line(max));
}

/// How many pixels the bytes of whole lines hold.
proof fn lemma_pixel_count(header: IHDRChunk, len: nat)
    requires
        header.valid(),
        len == header.height * header.stride(),
    ensures
        ({
            let n = header.height * header.width;
            &&& header.stride() > 0 ==> len / header.stride() == header.height
            &&& header.color_type == ColorType::Grayscale && header.bit_depth == BitDepth::B8
                ==> len == n
            &&& header.color_type == ColorType::Grayscale && header.bit_depth == BitDepth::B16
                ==> len / 2 == n
            &&& header.color_type == ColorType::TrueColor && header.bit_depth == BitDepth::B8
                ==> len / 3 == n
            &&& header.color_type == ColorType::TrueColor && header.bit_depth == BitDepth::B16
                ==> len / 6 == n
        }),
{
    lemma_stride_by_depth(header);
    let w = header.width as int;
    let h = header.height as int;
    let s = header.stride() as int;
    lemma_small_multiple(w, 1);
    lemma_small_multiple(w, 3);
    lemma_small_multiple(w * 2, 1);
    lemma_small_multiple(w * 2, 3);
    if s > 0 {
        vstd::arithmetic::div_mod::lemma_div_multiples_vanish(h, s);
        assert(s * h == h * s) by (nonlinear_arith);
    }
    assert(h * (2 * w) == 2 * (h * w)) by (nonlinear_arith);
    assert(h * (3 * w) == 3 * (h * w)) by (nonlinear_arith);
    assert(h * (6 * w) == 6 * (h * w)) by (nonlinear_arith);
    match header.color_type {
        ColorType::Grayscale => {
            assert(header.bit_depth == BitDepth::B8 ==> s == w);
            assert(header.bit_depth == BitDepth::B16 ==> s == 2 * w);
        },
        ColorType::TrueColor => {
            assert(header.bit_depth == BitDepth::B8 ==> s == 3 * w);
            assert(header.bit_depth == BitDepth::B16 ==> s == 6 * w);
        },
        _ => {},
    }
}

/// The text of a whole image has three lines in front and then one line for each
/// pixel.
pub proof fn law_one_line_per_pixel(
    header: IHDRChunk,
    palette: Option<Seq<Palette>>,
    data: Seq<u8>,
)
    requires
        header.valid(),
        data.len() == header.height * header.stride(),
        ppm_text(header, palette, data) is Ok,
    ensures
        line_count(ppm_text(header, palette, data)->Ok_0) == 3 + header.height * header.width,
{
    lemma_pixel_count(header, data.len());
    let max = (pow2(header.bit_depth.bits()) - 1) as nat;
    match header.color_type {
        ColorType::Grayscale => {
            let lines = gray_text(header, data)->Ok_0;
            lemma_preamble(0x32, header, max);
            lemma_lines_of_both(preamble(0x32, header, max), lines);
            lemma_gray_lines(header, data);
        },
        ColorType::TrueColor => {
            lemma_preamble(0x33, header, max);
            lemma_lines_of_both(preamble(0x33, header, max), rgb_text(header, data));
            lemma_rgb_lines(header, data);
        },
        ColorType::IndexedColor => {
            let colors = palette->0;
            let lines = indexed_text(header, colors, data)->Ok_0;
            let line = |v: int| color_line(colors[image_sample(header, data, v) as int]);
            let n = sample_total(header, data);
            assert forall|k: int| 0 <= k < n implies line_count(#[trigger] line(k)) == 1 by {
                let c = colors[image_sample(header, data, k) as int];
                lemma_rgb_line(c.r as nat, c.g as nat, c.b as nat);
            }
            lemma_joined(line, n);
            lemma_preamble(0x33, header, 255);
            lemma_lines_of_both(preamble(0x33, header, 255), lines);
        },
        _ => {},
    }
}

/// The text of a file that is accepted has three lines in front and then one line for
/// each pixel of the image.
pub proof fn law_text_of_a_file(bytes: Seq<u8>)
    requires
        parse_png(bytes) is Ok,
        ({
            let image = parse_png(bytes)->Ok_0;
            ppm_text(image.header, image.palette, image.data) is Ok
        }),
    ensures
        ({
            let image = parse_png(bytes)->Ok_0;
            line_count(ppm_text(image.header, image.palette, image.data)->Ok_0) == 3
                + image.header.height * image.header.width
        }),
{
    let image = parse_png(bytes)->Ok_0;
    law_decoded_size(bytes);
    law_one_line_per_pixel(image.header, image.palette, image.data);
}

proof fn lemma_good_indices(header: IHDRChunk, data: Seq<u8>, size: nat, n: nat)
    ensures
        first_bad_index(header, data, size, n) is None <==> forall|v: int|
            0 <= v < n ==> (#[trigger] image_sample(header, data, v)) < size,
    decreases n,
{
    if n > 0 {
        let m = (n - 1) as nat;
        lemma_good_indices(header, data, size, m);
        assert(m < n);
        let last = image_sample(header, data, n - 1);
        if first_bad_index(header, data, size, m) is None && last < size {
            assert forall|v: int| 0 <= v < n implies (#[trigger] image_sample(header, data, v))
                < size by {
                assert(v < m || v == n - 1);
            }
        }
    }
}

/// Which images can be written: of the grayscale ones those whose lines have bytes or
/// need not be told apart, all true-color ones, and the indexed ones that have lines
/// with bytes and a palette with a color for each index.
pub proof fn law_what_can_be_written(
    header: IHDRChunk,
    palette: Option<Seq<Palette>>,
    data: Seq<u8>,
)
    requires
        header.valid(),
    ensures
        ppm_text(header, palette, data) is Ok <==> (match header.color_type {
            ColorType::Grayscale => header.width > 0 || header.bit_depth == BitDepth::B8
                || header.bit_depth == BitDepth::B16,
            ColorType::TrueColor => true,
            ColorType::IndexedColor => header.width > 0 && palette is Some && forall|v: int|
                0 <= v < sample_total(header, data) ==> (#[trigger] image_sample(header, data, v))
                    < palette->0.len(),
            _ => false,
        }),
{
    lemma_stride_by_depth(header);
    let w = header.width as int;
    lemma_small_multiple((w + 7) / 8, 1);
    lemma_small_multiple((w + 3) / 4, 1);
    lemma_small_multiple((w + 1) / 2, 1);
    lemma_small_multiple(w, 1);
    if header.color_type == ColorType::IndexedColor && palette is Some {
        lemma_good_indices(header, data, palette->0.len(), sample_total(header, data));
    }
}

proof fn lemma_gray_lines(header: IHDRChunk, data: Seq<u8>)
    ensures
        gray_text(header, data) matches Ok(lines) ==> line_count(lines) == (match header.bit_depth {
            BitDepth::B8 => data.len(),
            BitDepth::B16 => data.len() / 2,
            _ => sample_total(header, data),
        }),
{
    let bytes = |k: int| gray_line(data[k] as nat);
    let wide = |k: int| gray_line(wide_sample(data, 2 * k));
    let packed = |v: int| gray_line(image_sample(header, data, v) as nat);
    assert forall|k: int| line_count(#[trigger] bytes(k)) == 1 by {
        lemma_number(data[k] as nat, 0x0a);
    }
    assert forall|k: int| line_count(#[trigger] wide(k)) == 1 by {
        lemma_number(wide_sample(data, 2 * k), 0x0a);
    }
    assert forall|k: int| line_count(#[trigger] packed(k)) == 1 by {
        lemma_number(image_sample(header, data, k) as nat, 0x0a);
    }
    lemma_joined(bytes, data.len());
    lemma_joined(wide, data.len() / 2);
    lemma_joined(packed, sample_total(header, data));
}

proof fn lemma_rgb_lines(header: IHDRChunk, data: Seq<u8>)
    ensures
        line_count(rgb_text(header, data)) == (if header.bit_depth == BitDepth::B16 {
            data.len() / 6
        } else {
            data.len() / 3
        }),
{
    let wide = |k: int|
        rgb_line(
            wide_sample(data, 6 * k),
            wide_sample(data, 6 * k + 2),
            wide_sample(data, 6 * k + 4),
        );
    let bytes = |k: int|
        rgb_line(data[3 * k] as nat, data[3 * k + 1] as nat, data[3 * k + 2] as nat);
    assert forall|k: int| line_count(#[trigger] wide(k)) == 1 by {
        lemma_rgb_line(
            wide_sample(data, 6 * k),
            wide_sample(data, 6 * k + 2),
            wide_sample(data, 6 * k + 4),
        );
    }
    assert forall|k: int| line_count(#[trigger] bytes(k)) == 1 by {
        lemma_rgb_line(data[3 * k] as nat, data[3 * k + 1] as nat, data[3 * k + 2] as nat);
    }
    lemma_joined(wide, data.len() / 6);
    lemma_joined(bytes, data.len() / 3);
}

} // verus!
