//! Which bytes of the image come out of the stored lines.

use vstd::prelude::*;
use crate::arith::{lemma_position, lemma_row_bounds};
use crate::error::PngError;
use crate::filter::{
    first_bad_filter, law_unfiltered_byte, left, lemma_unfiltered_len, paeth, predictor, stored,
    unfilter_data, unfiltered, up, upper_left,
};
use crate::header::{BitDepth, ColorType, IHDRChunk};
use crate::scanline::lemma_small_multiple;

verus! {

/// The bits of a pixel, for each color type and bit depth.
pub open spec fn bits_of_pixel(color_type: ColorType, bit_depth: BitDepth) -> nat {
    match (color_type, bit_depth) {
        (ColorType::Grayscale, BitDepth::B1) => 1,
        (ColorType::Grayscale, BitDepth::B2) => 2,
        (ColorType::Grayscale, BitDepth::B4) => 4,
        (ColorType::Grayscale, BitDepth::B8) => 8,
        (ColorType::Grayscale, BitDepth::B16) => 16,
        (ColorType::IndexedColor, BitDepth::B1) => 1,
        (ColorType::IndexedColor, BitDepth::B2) => 2,
        (ColorType::IndexedColor, BitDepth::B4) => 4,
        (ColorType::IndexedColor, _) => 8,
        (ColorType::TrueColor, BitDepth::B16) => 48,
        (ColorType::TrueColor, _) => 24,
        (ColorType::GrayScaleAlpha, BitDepth::B16) => 32,
        (ColorType::GrayScaleAlpha, _) => 16,
        (ColorType::TrueColorAlpha, BitDepth::B16) => 64,
        (ColorType::TrueColorAlpha, _) => 32,
    }
}

/// The bytes of a line: as many as its bits fill.
pub open spec fn line_bytes(header: IHDRChunk) -> nat {
    (header.width as nat * bits_of_pixel(header.color_type, header.bit_depth) + 7) / 8
}

/// The bytes from a byte of a pixel to the same byte of the next one, at least one.
pub open spec fn pixel_step(header: IHDRChunk) -> int {
    let bits = bits_of_pixel(header.color_type, header.bit_depth) as int;
    if bits < 8 {
        1
    } else {
        bits / 8
    }
}

/// Whether the bytes of a line can be counted.
pub open spec fn line_can_be_counted(header: IHDRChunk) -> bool {
    line_bytes(header) <= 0xffff_ffff && line_bytes(header) < usize::MAX
}

/// The measures of a line are those of its pixels' bits.
pub proof fn law_line_measures(header: IHDRChunk)
    requires
        header.valid(),
    ensures
        header.stride() == line_bytes(header),
        header.pixel_bytes() == pixel_step(header),
        header.scanline_fits() == line_can_be_counted(header),
{
    lemma_small_multiple(
        header.color_type.channels() as int,
        header.bit_depth.bits() as int,
    );
    assert(header.pixel_bits() == bits_of_pixel(header.color_type, header.bit_depth));
}

/// How far two numbers lie apart.
pub open spec fn apart(x: int, y: int) -> int {
    if x < y {
        y - x
    } else {
        x - y
    }
}

/// Whether `r` is the one of `a`, `b` and `c` nearest to `a + b - c`: where two are
/// equally near, `a` goes before `b` and `b` before `c`.
pub open spec fn is_nearest(r: int, a: int, b: int, c: int) -> bool {
    let p = a + b - c;
    ||| r == a && apart(p, a) <= apart(p, b) && apart(p, a) <= apart(p, c)
    ||| r == b && apart(p, b) < apart(p, a) && apart(p, b) <= apart(p, c)
    ||| r == c && apart(p, c) < apart(p, a) && apart(p, c) < apart(p, b)
}

/// The predictor of the fourth filter is the nearest of the three neighbours.
pub proof fn law_paeth_is_nearest(a: u8, b: u8, c: u8)
    ensures
        is_nearest(paeth(a, b, c) as int, a as int, b as int, c as int),
        forall|r: int| #[trigger]
            is_nearest(r, a as int, b as int, c as int) ==> r == paeth(a, b, c),
{
}

/// Whether `byte` is the image byte of the stored byte `x` under a filter, next to the
/// image bytes `a` (left), `b` (up) and `c` (upper left).
pub open spec fn undoes(filter: u8, x: int, a: int, b: int, c: int, byte: int) -> bool {
    ||| filter == 0 && byte == x
    ||| filter == 1 && byte == (x + a) % 256
    ||| filter == 2 && byte == (x + b) % 256
    ||| filter == 3 && byte == (x + (a + b) / 2) % 256
    ||| filter == 4 && is_nearest((byte - x) % 256, a, b, c)
}

/// Whether byte `i` of line `row` of the image `out` is the one that the stored lines
/// stand for. Each stored line has its filter in front; the left neighbour is a whole
/// pixel away, and outside the image there are zeros.
pub open spec fn byte_is_undone(
    header: IHDRChunk,
    data: Seq<u8>,
    out: Seq<u8>,
    row: int,
    i: int,
) -> bool {
    let line = line_bytes(header) as int;
    let n = pixel_step(header);
    let k = row * line + i;
    undoes(
        data[row * (line + 1)],
        data[row * (line + 1) + 1 + i] as int,
        if i >= n {
            out[k - n] as int
        } else {
            0
        },
        if row > 0 {
            out[k - line] as int
        } else {
            0
        },
        if row > 0 && i >= n {
            out[k - line - n] as int
        } else {
            0
        },
        out[k] as int,
    )
}

/// Whether `out` is the image that the stored lines stand for.
pub open spec fn is_undone(header: IHDRChunk, data: Seq<u8>, out: Seq<u8>) -> bool {
    &&& out.len() == header.height * line_bytes(header)
    &&& forall|row: int, i: int|
        0 <= row < header.height && 0 <= i < line_bytes(header) ==> #[trigger] byte_is_undone(
            header,
            data,
            out,
            row,
            i,
        )
}

/// The filter of a stored line.
pub open spec fn line_filter(header: IHDRChunk, data: Seq<u8>, row: int) -> u8 {
    data[row * (line_bytes(header) + 1)]
}

proof fn lemma_bad_filters(header: IHDRChunk, data: Seq<u8>, rows: nat)
    requires
        header.stride() == line_bytes(header),
    ensures
        first_bad_filter(data, header.stride(), rows) is None <==> forall|row: int|
            0 <= row < rows ==> #[trigger] line_filter(header, data, row) <= 4,
        first_bad_filter(data, header.stride(), rows) matches Some(f) ==> f > 4 && exists|row: int|
            {
                &&& 0 <= row < rows
                &&& #[trigger] line_filter(header, data, row) == f
                &&& forall|r: int| 0 <= r < row ==> #[trigger] line_filter(header, data, r) <= 4
            },
    decreases rows,
{
    if rows > 0 {
        let m = (rows - 1) as nat;
        lemma_bad_filters(header, data, m);
        let f = line_filter(header, data, rows - 1);
        if first_bad_filter(data, header.stride(), m) is None {
            assert(f == crate::filter::filter_type(data, header.stride(), rows - 1));
            if f <= 4 {
                assert forall|row: int| 0 <= row < rows implies #[trigger] line_filter(
                    header,
                    data,
                    row,
                ) <= 4 by {
                    assert(row < m || row == rows - 1);
                }
            }
        } else {
            let row = choose|row: int|
                {
                    &&& 0 <= row < m
                    &&& #[trigger] line_filter(header, data, row) == first_bad_filter(
                        data,
                        header.stride(),
                        m,
                    )->0
                    &&& forall|r: int|
                        0 <= r < row ==> #[trigger] line_filter(header, data, r) <= 4
                };
            assert(0 <= row < rows);
            assert(line_filter(header, data, row) > 4);
        }
    }
}

proof fn lemma_undoes(filter: u8, x: u8, a: u8, b: u8, c: u8, byte: u8)
    requires
        filter <= 4,
        byte == (x + predictor(filter, a, b, c)) % 256,
    ensures
        undoes(filter, x as int, a as int, b as int, c as int, byte as int),
{
    law_paeth_is_nearest(a, b, c);
    if filter == 4 {
        let e = paeth(a, b, c) as int;
        assert((byte - x) % 256 == e);
    }
}

proof fn lemma_byte_is_undone(header: IHDRChunk, data: Seq<u8>, row: int, i: int)
    requires
        header.valid(),
        0 <= row < header.height,
        0 <= i < line_bytes(header),
        line_filter(header, data, row) <= 4,
    ensures
        byte_is_undone(
            header,
            data,
            unfiltered(
                data,
                header.stride(),
                header.pixel_bytes(),
                header.height as nat * header.stride(),
            ),
            row,
            i,
        ),
{
    law_line_measures(header);
    let line = header.stride();
    let n = header.pixel_bytes();
    let total = header.height as nat * line;
    let out = unfiltered(data, line, n, total);
    let k = row * line + i;
    lemma_row_bounds(row, header.height as int, line as int);
    lemma_position(line, row, i);
    law_unfiltered_byte(data, line, n, total, k);
    let a = left(out, line, n, k);
    let b = up(out, line, k);
    let c = upper_left(out, line, n, k);
    assert(stored(data, line, k) == data[row * (line + 1) + 1 + i]);
    lemma_undoes(
        line_filter(header, data, row),
        stored(data, line, k),
        a,
        b,
        c,
        out[k],
    );
}

/// What undoing the filters gives: the image whose every byte belongs to its stored byte,
/// where there are as many lines as the header says, each with one of the five filters.
/// Otherwise it says what is wrong, and of several wrong filters the first.
pub proof fn law_filters_are_undone(header: IHDRChunk, data: Seq<u8>)
    requires
        header.valid(),
    ensures
        match unfilter_data(header, data) {
            Ok(out) => {
                &&& line_can_be_counted(header)
                &&& data.len() == header.height * (line_bytes(header) + 1)
                &&& line_bytes(header) > 0 ==> forall|row: int|
                    0 <= row < header.height ==> #[trigger] line_filter(header, data, row) <= 4
                &&& is_undone(header, data, out)
            },
            Err(PngError::ScanlineTooLong) => !line_can_be_counted(header),
            Err(PngError::DataLength) => {
                &&& line_can_be_counted(header)
                &&& data.len() != header.height * (line_bytes(header) + 1)
            },
            Err(PngError::InvalidFilterType(f)) => {
                &&& line_can_be_counted(header)
                &&& data.len() == header.height * (line_bytes(header) + 1)
                &&& line_bytes(header) > 0
                &&& f > 4
                &&& exists|row: int|
                    {
                        &&& 0 <= row < header.height
                        &&& #[trigger] line_filter(header, data, row) == f
                        &&& forall|r: int|
                            0 <= r < row ==> #[trigger] line_filter(header, data, r) <= 4
                    }
            },
            Err(_) => false,
        },
{
    law_line_measures(header);
    lemma_bad_filters(header, data, header.height as nat);
    if let Ok(out) = unfilter_data(header, data) {
        let line = header.stride();
        lemma_unfiltered_len(data, line, header.pixel_bytes(), header.height as nat * line);
        assert forall|row: int, i: int|
            0 <= row < header.height && 0 <= i < line_bytes(header) implies #[trigger] byte_is_undone(
            header,
            data,
            out,
            row,
            i,
        ) by {
            assert(line_filter(header, data, row) <= 4);
            lemma_byte_is_undone(header, data, row, i);
        }
    }
}

/// An image whose stored lines have the right number of bytes and one of the five
/// filters each is accepted.
pub proof fn law_good_lines_are_accepted(header: IHDRChunk, data: Seq<u8>)
    requires
        header.valid(),
        line_can_be_counted(header),
        data.len() == header.height * (line_bytes(header) + 1),
        forall|row: int|
            0 <= row < header.height ==> #[trigger] line_filter(header, data, row) <= 4,
    ensures
        unfilter_data(header, data) is Ok,
{
    law_filters_are_undone(header, data);
}

} // verus!
