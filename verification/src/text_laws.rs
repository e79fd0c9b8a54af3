//! What a reader of the text of an image gets.

use vstd::arithmetic::power2::{lemma2_to64, pow2};
use vstd::prelude::*;
use crate::arith::lemma_row_bounds;
use crate::error::PngError;
use crate::filter_laws::{law_line_measures, line_bytes};
use crate::header::{BitDepth, ColorType, IHDRChunk};
use crate::palette::Palette;
use crate::ppm::{
    color_line, decimal, first_bad_index, gray_line, gray_text, image_sample, indexed_text, joined,
    pair_line, ppm_text, preamble, rgb_line, rgb_text, row_of, sample_total, wide_sample,
};
use crate::sample_laws::{lemma_sample_bits, packed};
use crate::scanline::{lemma_small_multiple, lemma_stride_by_depth};

verus! {

/// How far a reader of numbers has come.
#[verifier::ext_equal]
pub ghost struct Reading {
    /// Whether all is well so far: between the numbers stand single blanks and line
    /// breaks, and no number starts with a zero that it does not need.
    pub ok: bool,
    /// The numbers of the lines that have ended.
    pub lines: Seq<Seq<nat>>,
    /// The numbers of this line that have ended.
    pub numbers: Seq<nat>,
    /// The digits of this number so far, and their value.
    pub digits: nat,
    pub value: nat,
}

/// The reader before the first byte.
pub open spec fn start_reading() -> Reading {
    Reading { ok: true, lines: Seq::empty(), numbers: Seq::empty(), digits: 0, value: 0 }
}

/// What one byte tells the reader.
pub open spec fn read_byte(r: Reading, b: u8) -> Reading {
    if '0' <= b as char <= '9' {
        Reading {
            ok: r.ok && !(r.digits > 0 && r.value == 0),
            digits: r.digits + 1,
            value: (10 * r.value + (b - '0' as u8)) as nat,
            ..r
        }
    } else if b == ' ' as u8 {
        Reading {
            ok: r.ok && r.digits > 0,
            numbers: r.numbers.push(r.value),
            digits: 0,
            value: 0,
            ..r
        }
    } else if b == '\n' as u8 {
        Reading {
            ok: r.ok && r.digits > 0,
            lines: r.lines.push(r.numbers.push(r.value)),
            numbers: Seq::empty(),
            digits: 0,
            value: 0,
        }
    } else {
        Reading { ok: false, ..r }
    }
}

/// What a text tells the reader.
pub open spec fn read_text(r: Reading, text: Seq<u8>) -> Reading
    decreases text.len(),
{
    if text.len() == 0 {
        r
    } else {
        read_byte(read_text(r, text.drop_last()), text.last())
    }
}

proof fn lemma_read_concat(r: Reading, a: Seq<u8>, b: Seq<u8>)
    ensures
        read_text(r, a + b) == read_text(read_text(r, a), b),
    decreases b.len(),
{
    if b.len() == 0 {
        assert(a + b =~= a);
    } else {
        assert((a + b).drop_last() =~= a + b.drop_last());
        lemma_read_concat(r, a, b.drop_last());
    }
}

proof fn lemma_read_push(r: Reading, a: Seq<u8>, b: u8)
    ensures
        read_text(r, a.push(b)) == read_byte(read_text(r, a), b),
{
    assert(a.push(b).drop_last() =~= a);
}

/// A number is read as what it is.
proof fn lemma_read_decimal(r: Reading, n: nat)
    requires
        r.digits == 0,
        r.value == 0,
    ensures
        read_text(r, decimal(n)) == (Reading { digits: decimal(n).len(), value: n, ..r }),
        decimal(n).len() > 0,
    decreases n,
{
    if n < 10 {
        let b = (0x30 + n) as u8;
        assert(decimal(n) =~= Seq::<u8>::empty().push(b));
        lemma_read_push(r, Seq::empty(), b);
        assert(read_text(r, Seq::empty()) == r);
    } else {
        let b = (0x30 + n % 10) as u8;
        lemma_read_decimal(r, n / 10);
        lemma_read_push(r, decimal(n / 10), b);
    }
}

/// Whether the reader stands at the start of a line.
pub open spec fn at_line_start(r: Reading) -> bool {
    r.digits == 0 && r.value == 0 && r.numbers == Seq::<nat>::empty()
}

/// The reader, one line further.
pub open spec fn one_line_more(r: Reading, numbers: Seq<nat>) -> Reading {
    Reading { lines: r.lines.push(numbers), ..r }
}

proof fn lemma_read_gray_line(r: Reading, v: nat)
    requires
        at_line_start(r),
    ensures
        read_text(r, gray_line(v)) == one_line_more(r, seq![v]),
{
    lemma_read_decimal(r, v);
    lemma_read_push(r, decimal(v), 0x0a);
    assert(r.numbers.push(v) =~= seq![v]);
    assert(read_text(r, gray_line(v)) =~= one_line_more(r, seq![v]));
}

proof fn lemma_read_pair_line(r: Reading, a: nat, b: nat)
    requires
        at_line_start(r),
    ensures
        read_text(r, pair_line(a, b)) == one_line_more(r, seq![a, b]),
{
    lemma_read_decimal(r, a);
    lemma_read_push(r, decimal(a), 0x20);
    let r1 = Reading { numbers: r.numbers.push(a), ..r };
    assert(read_text(r, decimal(a).push(0x20)) =~= r1);
    lemma_read_decimal(r1, b);
    lemma_read_push(r1, decimal(b), 0x0a);
    lemma_read_concat(r, decimal(a).push(0x20), decimal(b).push(0x0a));
    assert(r.numbers.push(a).push(b) =~= seq![a, b]);
    assert(read_text(r, pair_line(a, b)) =~= one_line_more(r, seq![a, b]));
}

proof fn lemma_read_rgb_line(r: Reading, a: nat, b: nat, c: nat)
    requires
        at_line_start(r),
    ensures
        read_text(r, rgb_line(a, b, c)) == one_line_more(r, seq![a, b, c]),
{
    lemma_read_decimal(r, a);
    lemma_read_push(r, decimal(a), 0x20);
    let r1 = Reading { numbers: r.numbers.push(a), ..r };
    assert(read_text(r, decimal(a).push(0x20)) =~= r1);
    lemma_read_decimal(r1, b);
    lemma_read_push(r1, decimal(b), 0x20);
    let r2 = Reading { numbers: r1.numbers.push(b), ..r };
    assert(read_text(r1, decimal(b).push(0x20)) =~= r2);
    lemma_read_decimal(r2, c);
    lemma_read_push(r2, decimal(c), 0x0a);
    lemma_read_concat(r, decimal(a).push(0x20), decimal(b).push(0x20));
    lemma_read_concat(
        r,
        decimal(a).push(0x20) + decimal(b).push(0x20),
        decimal(c).push(0x0a),
    );
    assert(r.numbers.push(a).push(b).push(c) =~= seq![a, b, c]);
    assert(read_text(r, rgb_line(a, b, c)) =~= one_line_more(r, seq![a, b, c]));
}

/// Lines that are each read as their numbers are read one after the other.
proof fn lemma_read_joined(
    r: Reading,
    line: spec_fn(int) -> Seq<u8>,
    numbers: spec_fn(int) -> Seq<nat>,
    n: nat,
)
    requires
        at_line_start(r),
        forall|k: int, s: Reading|
            0 <= k < n && at_line_start(s) ==> #[trigger] read_text(s, line(k)) == one_line_more(
                s,
                numbers(k),
            ),
    ensures
        read_text(r, joined(line, n)) == (Reading { lines: r.lines + Seq::new(n, numbers), ..r }),
    decreases n,
{
    if n == 0 {
        assert(r.lines + Seq::new(0, numbers) =~= r.lines);
    } else {
        let m = (n - 1) as nat;
        lemma_read_joined(r, line, numbers, m);
        lemma_read_concat(r, joined(line, m), line(n - 1));
        let s = Reading { lines: r.lines + Seq::new(m, numbers), ..r };
        assert(read_text(s, line(m as int)) == one_line_more(s, numbers(m as int)));
        assert((r.lines + Seq::new(m, numbers)).push(numbers(m as int)) =~= r.lines + Seq::new(
            n,
            numbers,
        ));
    }
}

/// The largest value that a sample of a grayscale or true-color image can have.
pub open spec fn largest(bit_depth: BitDepth) -> nat {
    match bit_depth {
        BitDepth::B1 => 1,
        BitDepth::B2 => 3,
        BitDepth::B4 => 15,
        BitDepth::B8 => 255,
        BitDepth::B16 => 65535,
    }
}

/// Sample `k` of an image with one sample to a pixel and several to a byte: each line of
/// the image starts with a new byte.
pub open spec fn single_sample(header: IHDRChunk, data: Seq<u8>, k: int) -> u8 {
    let row = k / header.width as int;
    let column = k % header.width as int;
    packed(data, row * line_bytes(header), header.bit_depth, column)
}

/// The number of pixels that `data` holds.
pub open spec fn pixel_count(header: IHDRChunk, data: Seq<u8>) -> nat {
    match (header.color_type, header.bit_depth) {
        (ColorType::Grayscale, BitDepth::B8) => data.len(),
        (ColorType::Grayscale, BitDepth::B16) => data.len() / 2,
        (ColorType::TrueColor, BitDepth::B16) => data.len() / 6,
        (ColorType::TrueColor, _) => data.len() / 3,
        _ => data.len() / line_bytes(header) * header.width as nat,
    }
}

/// The numbers of pixel `k`.
pub open spec fn pixel_numbers(
    header: IHDRChunk,
    colors: Seq<Palette>,
    data: Seq<u8>,
    k: int,
) -> Seq<nat> {
    match (header.color_type, header.bit_depth) {
        (ColorType::Grayscale, BitDepth::B8) => seq![data[k] as nat],
        (ColorType::Grayscale, BitDepth::B16) => seq![
            (256 * data[2 * k] + data[2 * k + 1]) as nat,
        ],
        (ColorType::Grayscale, _) => seq![single_sample(header, data, k) as nat],
        (ColorType::TrueColor, BitDepth::B16) => seq![
            (256 * data[6 * k] + data[6 * k + 1]) as nat,
            (256 * data[6 * k + 2] + data[6 * k + 3]) as nat,
            (256 * data[6 * k + 4] + data[6 * k + 5]) as nat,
        ],
        (ColorType::TrueColor, _) => seq![
            data[3 * k] as nat,
            data[3 * k + 1] as nat,
            data[3 * k + 2] as nat,
        ],
        _ => {
            let color = colors[single_sample(header, data, k) as int];
            seq![color.r as nat, color.g as nat, color.b as nat]
        },
    }
}

/// What the reader gets of a text behind its first line: the size, the largest value, and
/// the numbers of each pixel, all on lines of their own.
pub open spec fn is_read_as(
    text: Seq<u8>,
    width: nat,
    height: nat,
    max: nat,
    pixels: Seq<Seq<nat>>,
) -> bool {
    read_text(start_reading(), text) == (Reading {
        lines: seq![seq![width, height], seq![max]] + pixels,
        ..start_reading()
    })
}

proof fn lemma_read_image(
    digit: u8,
    header: IHDRChunk,
    max: nat,
    line: spec_fn(int) -> Seq<u8>,
    numbers: spec_fn(int) -> Seq<nat>,
    n: nat,
)
    requires
        forall|k: int, s: Reading|
            0 <= k < n && at_line_start(s) ==> #[trigger] read_text(s, line(k)) == one_line_more(
                s,
                numbers(k),
            ),
    ensures
        ({
            let text = preamble(digit, header, max) + joined(line, n);
            &&& text.len() > 3
            &&& text.take(3) == seq![0x50u8, digit, 0x0a]
            &&& is_read_as(
                text.skip(3),
                header.width as nat,
                header.height as nat,
                max,
                Seq::new(n, numbers),
            )
        }),
{
    let w = header.width as nat;
    let h = header.height as nat;
    let text = preamble(digit, header, max) + joined(line, n);
    let head = pair_line(w, h) + gray_line(max);
    assert(text.take(3) =~= seq![0x50u8, digit, 0x0a]);
    assert(text.skip(3) =~= head + joined(line, n));
    let r0 = start_reading();
    let r1 = one_line_more(r0, seq![w, h]);
    let r2 = one_line_more(r1, seq![max]);
    lemma_read_pair_line(r0, w, h);
    lemma_read_gray_line(r1, max);
    lemma_read_concat(r0, pair_line(w, h), gray_line(max));
    lemma_read_concat(r0, head, joined(line, n));
    lemma_read_joined(r2, line, numbers, n);
    assert(r2.lines =~= seq![seq![w, h], seq![max]]);
    lemma_read_decimal(r0, w);
}

/// Where a sample stands in the data.
proof fn lemma_single_sample(header: IHDRChunk, data: Seq<u8>, k: int)
    requires
        header.valid(),
        header.color_type == ColorType::Grayscale || header.color_type == ColorType::IndexedColor,
        header.bit_depth != BitDepth::B16,
        header.width > 0,
        0 <= k < sample_total(header, data),
    ensures
        image_sample(header, data, k) == single_sample(header, data, k),
{
    law_line_measures(header);
    let w = header.width as int;
    let line = header.stride() as int;
    let rows = (data.len() / header.stride()) as int;
    let r = k / w;
    let c = k % w;
    lemma_stride_by_depth(header);
    lemma_small_multiple((w + 7) / 8, 1);
    lemma_small_multiple((w + 3) / 4, 1);
    lemma_small_multiple((w + 1) / 2, 1);
    lemma_small_multiple(w, 1);
    assert(line > 0);
    assert(0 <= c < w && 0 <= r < rows) by (nonlinear_arith)
        requires
            0 <= k < rows * w,
            w > 0,
            r == k / w,
            c == k % w,
    ;
    assert(rows * line <= data.len()) by (nonlinear_arith)
        requires
            rows == data.len() as int / line,
            line > 0,
    ;
    lemma_row_bounds(r, rows, line);
    let row = row_of(data, header.stride(), r);
    lemma_sample_bits(row, header.bit_depth, c);
    let i = match header.bit_depth {
        BitDepth::B1 => c / 8,
        BitDepth::B2 => c / 4,
        BitDepth::B4 => c / 2,
        _ => c,
    };
    assert(0 <= i < line);
    assert(row[i] == data[r * line + i]);
}

/// The text of an image is read as its size, the largest value, and its pixels: for each
/// its samples, taken from the data one pixel behind the other, or the color that the
/// palette has for it. The first line tells graymaps from pixmaps.
pub proof fn law_text_is_read(header: IHDRChunk, palette: Option<Seq<Palette>>, data: Seq<u8>)
    requires
        header.valid(),
    ensures
        ppm_text(header, palette, data) matches Ok(text) ==> {
            &&& text.len() > 3
            &&& text[0] == 'P' as u8
            &&& text[1] == (if header.color_type == ColorType::Grayscale {
                '2' as u8
            } else {
                '3' as u8
            })
            &&& text[2] == '\n' as u8
            &&& is_read_as(
                text.skip(3),
                header.width as nat,
                header.height as nat,
                if header.color_type == ColorType::IndexedColor {
                    255
                } else {
                    largest(header.bit_depth)
                },
                Seq::new(
                    pixel_count(header, data),
                    |k: int| pixel_numbers(header, palette->0, data, k),
                ),
            )
        },
{
    if let Ok(text) = ppm_text(header, palette, data) {
        law_largest_sample(header.bit_depth);
        let t = text.take(3);
        match header.color_type {
            ColorType::Grayscale => lemma_gray_is_read(header, palette->0, data),
            ColorType::TrueColor => lemma_rgb_is_read(header, palette->0, data),
            _ => lemma_indexed_is_read(header, palette->0, data),
        }
        assert(text[0] == t[0] && text[1] == t[1] && text[2] == t[2]);
    }
}

/// The largest sample of a bit depth.
pub proof fn law_largest_sample(bit_depth: BitDepth)
    ensures
        pow2(bit_depth.bits()) - 1 == largest(bit_depth),
{
    lemma2_to64();
}

proof fn lemma_gray_is_read(header: IHDRChunk, colors: Seq<Palette>, data: Seq<u8>)
    requires
        header.valid(),
        header.color_type == ColorType::Grayscale,
        gray_text(header, data) is Ok,
    ensures
        ({
            let max = largest(header.bit_depth);
            let text = preamble(0x32, header, max) + gray_text(header, data)->Ok_0;
            &&& text.len() > 3
            &&& text.take(3) == seq![0x50u8, 0x32, 0x0a]
            &&& is_read_as(
                text.skip(3),
                header.width as nat,
                header.height as nat,
                max,
                Seq::new(
                    pixel_count(header, data),
                    |k: int| pixel_numbers(header, colors, data, k),
                ),
            )
        }),
{
    let numbers = |k: int| pixel_numbers(header, colors, data, k);
    let max = largest(header.bit_depth);
    let n = pixel_count(header, data);
    law_line_measures(header);
    match header.bit_depth {
        BitDepth::B8 => {
            let line = |k: int| gray_line(data[k] as nat);
            assert forall|k: int, s: Reading|
                0 <= k < n && at_line_start(s) implies #[trigger] read_text(s, line(k))
                == one_line_more(s, numbers(k)) by {
                lemma_read_gray_line(s, data[k] as nat);
            }
            lemma_read_image(0x32, header, max, line, numbers, n);
        },
        BitDepth::B16 => {
            let line = |k: int| gray_line(wide_sample(data, 2 * k));
            assert forall|k: int, s: Reading|
                0 <= k < n && at_line_start(s) implies #[trigger] read_text(s, line(k))
                == one_line_more(s, numbers(k)) by {
                lemma_read_gray_line(s, wide_sample(data, 2 * k));
            }
            lemma_read_image(0x32, header, max, line, numbers, n);
        },
        _ => {
            let line = |v: int| gray_line(image_sample(header, data, v) as nat);
            lemma_width(header);
            assert forall|k: int, s: Reading|
                0 <= k < n && at_line_start(s) implies #[trigger] read_text(s, line(k))
                == one_line_more(s, numbers(k)) by {
                lemma_single_sample(header, data, k);
                lemma_read_gray_line(s, image_sample(header, data, k) as nat);
            }
            lemma_read_image(0x32, header, max, line, numbers, n);
        },
    }
}

proof fn lemma_rgb_is_read(header: IHDRChunk, colors: Seq<Palette>, data: Seq<u8>)
    requires
        header.valid(),
        header.color_type == ColorType::TrueColor,
    ensures
        ({
            let max = largest(header.bit_depth);
            let text = preamble(0x33, header, max) + rgb_text(header, data);
            &&& text.len() > 3
            &&& text.take(3) == seq![0x50u8, 0x33, 0x0a]
            &&& is_read_as(
                text.skip(3),
                header.width as nat,
                header.height as nat,
                max,
                Seq::new(
                    pixel_count(header, data),
                    |k: int| pixel_numbers(header, colors, data, k),
                ),
            )
        }),
{
    let numbers = |k: int| pixel_numbers(header, colors, data, k);
    let max = largest(header.bit_depth);
    let n = pixel_count(header, data);
    if header.bit_depth == BitDepth::B16 {
        let line = |k: int|
            rgb_line(
                wide_sample(data, 6 * k),
                wide_sample(data, 6 * k + 2),
                wide_sample(data, 6 * k + 4),
            );
        assert forall|k: int, s: Reading|
            0 <= k < n && at_line_start(s) implies #[trigger] read_text(s, line(k))
            == one_line_more(s, numbers(k)) by {
            lemma_read_rgb_line(
                s,
                wide_sample(data, 6 * k),
                wide_sample(data, 6 * k + 2),
                wide_sample(data, 6 * k + 4),
            );
        }
        lemma_read_image(0x33, header, max, line, numbers, n);
    } else {
        let line = |k: int|
            rgb_line(data[3 * k] as nat, data[3 * k + 1] as nat, data[3 * k + 2] as nat);
        assert forall|k: int, s: Reading|
            0 <= k < n && at_line_start(s) implies #[trigger] read_text(s, line(k))
            == one_line_more(s, numbers(k)) by {
            lemma_read_rgb_line(
                s,
                data[3 * k] as nat,
                data[3 * k + 1] as nat,
                data[3 * k + 2] as nat,
            );
        }
        lemma_read_image(0x33, header, max, line, numbers, n);
    }
}

proof fn lemma_indexed_is_read(header: IHDRChunk, colors: Seq<Palette>, data: Seq<u8>)
    requires
        header.valid(),
        header.color_type == ColorType::IndexedColor,
        indexed_text(header, colors, data) is Ok,
    ensures
        ({
            let text = preamble(0x33, header, 255) + indexed_text(header, colors, data)->Ok_0;
            &&& text.len() > 3
            &&& text.take(3) == seq![0x50u8, 0x33, 0x0a]
            &&& is_read_as(
                text.skip(3),
                header.width as nat,
                header.height as nat,
                255,
                Seq::new(
                    pixel_count(header, data),
                    |k: int| pixel_numbers(header, colors, data, k),
                ),
            )
        }),
{
    let numbers = |k: int| pixel_numbers(header, colors, data, k);
    let n = pixel_count(header, data);
    law_line_measures(header);
    lemma_width(header);
    let line = |v: int| color_line(colors[image_sample(header, data, v) as int]);
    assert forall|k: int, s: Reading|
        0 <= k < n && at_line_start(s) implies #[trigger] read_text(s, line(k)) == one_line_more(
        s,
        numbers(k),
    ) by {
        lemma_single_sample(header, data, k);
        let c = colors[image_sample(header, data, k) as int];
        lemma_read_rgb_line(s, c.r as nat, c.g as nat, c.b as nat);
    }
    lemma_read_image(0x33, header, 255, line, numbers, n);
}

/// The lines of a single-channel image have bytes where the image has a width.
proof fn lemma_width(header: IHDRChunk)
    requires
        header.valid(),
        header.color_type == ColorType::Grayscale || header.color_type == ColorType::IndexedColor,
        header.bit_depth != BitDepth::B16,
    ensures
        header.stride() == 0 <==> header.width == 0,
{
    let w = header.width as int;
    lemma_stride_by_depth(header);
    lemma_small_multiple((w + 7) / 8, 1);
    lemma_small_multiple((w + 3) / 4, 1);
    lemma_small_multiple((w + 1) / 2, 1);
    lemma_small_multiple(w, 1);
}

/// The first index among the first `n` that the palette has no color for.
proof fn lemma_bad_index(header: IHDRChunk, data: Seq<u8>, size: nat, n: nat)
    requires
        header.valid(),
        header.color_type == ColorType::IndexedColor,
        header.width > 0,
        n <= sample_total(header, data),
    ensures
        match first_bad_index(header, data, size, n) {
            None => forall|k: int|
                0 <= k < n ==> (#[trigger] single_sample(header, data, k)) < size,
            Some(i) => {
                &&& i >= size
                &&& exists|k: int|
                    {
                        &&& 0 <= k < n
                        &&& #[trigger] single_sample(header, data, k) == i
                        &&& forall|j: int|
                            0 <= j < k ==> (#[trigger] single_sample(header, data, j)) < size
                    }
            },
        },
    decreases n,
{
    if n > 0 {
        let m = (n - 1) as nat;
        lemma_bad_index(header, data, size, m);
        lemma_single_sample(header, data, m as int);
        let last = single_sample(header, data, m as int);
        match first_bad_index(header, data, size, m) {
            None => {
                if last < size {
                    assert forall|k: int| 0 <= k < n implies (#[trigger] single_sample(
                        header,
                        data,
                        k,
                    )) < size by {
                        assert(k < m || k == m);
                    }
                }
            },
            Some(i) => {
                let k = choose|k: int|
                    {
                        &&& 0 <= k < m
                        &&& #[trigger] single_sample(header, data, k) == i
                        &&& forall|j: int|
                            0 <= j < k ==> (#[trigger] single_sample(header, data, j)) < size
                    };
                assert(0 <= k < n && single_sample(header, data, k) == i);
            },
        }
    }
}

/// Which images have a text, and why the others have none: an alpha channel, a palette
/// that is missing, lines without bytes that would have to be told apart, or the first
/// index that the palette has no color for.
pub proof fn law_which_images_have_a_text(
    header: IHDRChunk,
    palette: Option<Seq<Palette>>,
    data: Seq<u8>,
)
    requires
        header.valid(),
    ensures
        match ppm_text(header, palette, data) {
            Ok(_) => match header.color_type {
                ColorType::Grayscale => header.width > 0 || header.bit_depth == BitDepth::B8
                    || header.bit_depth == BitDepth::B16,
                ColorType::TrueColor => true,
                ColorType::IndexedColor => {
                    &&& header.width > 0
                    &&& palette matches Some(colors)
                    &&& forall|k: int|
                        0 <= k < pixel_count(header, data) ==> (#[trigger] single_sample(
                            header,
                            data,
                            k,
                        )) < colors.len()
                },
                _ => false,
            },
            Err(PngError::UnsupportedColorType(c)) => {
                &&& c == header.color_type
                &&& c == ColorType::GrayScaleAlpha || c == ColorType::TrueColorAlpha
            },
            Err(PngError::MissingPalette) => {
                header.color_type == ColorType::IndexedColor && palette is None
            },
            Err(PngError::EmptyScanline) => {
                &&& header.width == 0
                &&& header.color_type == ColorType::Grayscale && header.bit_depth != BitDepth::B8
                    && header.bit_depth != BitDepth::B16 || header.color_type
                    == ColorType::IndexedColor && palette is Some
            },
            Err(PngError::PaletteIndex(i)) => {
                &&& header.color_type == ColorType::IndexedColor
                &&& header.width > 0
                &&& palette matches Some(colors)
                &&& i >= colors.len()
                &&& exists|k: int|
                    {
                        &&& 0 <= k < pixel_count(header, data)
                        &&& #[trigger] single_sample(header, data, k) == i
                        &&& forall|j: int|
                            0 <= j < k ==> (#[trigger] single_sample(header, data, j))
                                < colors.len()
                    }
            },
            Err(_) => false,
        },
{
    law_line_measures(header);
    if header.color_type == ColorType::Grayscale && header.bit_depth != BitDepth::B16 {
        lemma_width(header);
    }
    if header.color_type == ColorType::IndexedColor {
        lemma_width(header);
        if header.width > 0 && palette is Some {
            lemma_bad_index(
                header,
                data,
                palette->0.len(),
                sample_total(header, data),
            );
        }
    }
}

} // verus!
