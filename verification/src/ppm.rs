//! The image as plain PGM or PPM text.

use vstd::arithmetic::power2::pow2;
use vstd::prelude::*;
use crate::arith::{lemma_position, lemma_row_bounds};
use crate::error::PngError;
use crate::header::{BitDepth, ColorType, IHDRChunk};
use crate::palette::{PLTEChunk, Palette};
use crate::png::Png;
use crate::samples::{law_line_holds_width_samples, sample_at};
use crate::scanline::{lemma_small_multiple, lemma_stride_by_depth};

verus! {

/// The decimal digits of `n`.
pub open spec fn decimal(n: nat) -> Seq<u8>
    decreases n,
{
    if n < 10 {
        seq![(0x30 + n) as u8]
    } else {
        decimal(n / 10).push((0x30 + n % 10) as u8)
    }
}

/// A line with one number.
pub open spec fn gray_line(v: nat) -> Seq<u8> {
    decimal(v).push(0x0a)
}

/// A line with two numbers.
pub open spec fn pair_line(a: nat, b: nat) -> Seq<u8> {
    decimal(a).push(0x20) + decimal(b).push(0x0a)
}

/// A line with three numbers.
pub open spec fn rgb_line(r: nat, g: nat, b: nat) -> Seq<u8> {
    decimal(r).push(0x20) + decimal(g).push(0x20) + decimal(b).push(0x0a)
}

/// The first `n` lines, one behind the other.
pub open spec fn joined(line: spec_fn(int) -> Seq<u8>, n: nat) -> Seq<u8>
    decreases n,
{
    if n == 0 {
        Seq::empty()
    } else {
        joined(line, (n - 1) as nat) + line(n - 1)
    }
}

/// The lines that precede the pixels: `P2` or `P3`, the size of the image and the
/// largest value.
pub open spec fn preamble(digit: u8, header: IHDRChunk, max: nat) -> Seq<u8> {
    seq![0x50u8, digit, 0x0a] + pair_line(header.width as nat, header.height as nat) + gray_line(
        max,
    )
}

/// Two bytes as one sample, the more significant first.
pub open spec fn wide_sample(data: Seq<u8>, k: int) -> nat {
    (data[k] * 256 + data[k + 1]) as nat
}

/// Row `r` of `data`.
pub open spec fn row_of(data: Seq<u8>, stride: nat, r: int) -> Seq<u8> {
    data.subrange(r * stride, (r + 1) * stride)
}

/// How many samples the full rows of a single-channel image hold.
pub open spec fn sample_total(header: IHDRChunk, data: Seq<u8>) -> nat {
    data.len() / header.stride() * header.width as nat
}

/// The `v`-th sample of a single-channel image, row by row.
pub open spec fn image_sample(header: IHDRChunk, data: Seq<u8>, v: int) -> u8 {
    sample_at(
        row_of(data, header.stride(), v / header.width as int),
        header.bit_depth,
        v % header.width as int,
    )
}

/// The first of the first `n` samples for which a palette of `size` colors has no
/// color.
pub open spec fn first_bad_index(header: IHDRChunk, data: Seq<u8>, size: nat, n: nat) -> Option<u8>
    decreases n,
{
    if n == 0 {
        None
    } else {
        match first_bad_index(header, data, size, (n - 1) as nat) {
            Some(i) => Some(i),
            None => {
                let i = image_sample(header, data, n - 1);
                if i >= size {
                    Some(i)
                } else {
                    None
                }
            },
        }
    }
}

/// The lines of a grayscale image: one sample each.
pub open spec fn gray_text(header: IHDRChunk, data: Seq<u8>) -> Result<Seq<u8>, PngError> {
    match header.bit_depth {
        BitDepth::B8 => Ok(joined(|k: int| gray_line(data[k] as nat), data.len())),
        BitDepth::B16 => Ok(
            joined(|k: int| gray_line(wide_sample(data, 2 * k)), data.len() / 2),
        ),
        _ => if header.stride() == 0 {
            Err(PngError::EmptyScanline)
        } else {
            Ok(
                joined(
                    |v: int| gray_line(image_sample(header, data, v) as nat),
                    sample_total(header, data),
                ),
            )
        },
    }
}

/// The lines of a true-color image: the three samples of a pixel each.
pub open spec fn rgb_text(header: IHDRChunk, data: Seq<u8>) -> Seq<u8> {
    if header.bit_depth == BitDepth::B16 {
        joined(
            |k: int|
                rgb_line(
                    wide_sample(data, 6 * k),
                    wide_sample(data, 6 * k + 2),
                    wide_sample(data, 6 * k + 4),
                ),
            data.len() / 6,
        )
    } else {
        joined(
            |k: int|
                rgb_line(data[3 * k] as nat, data[3 * k + 1] as nat, data[3 * k + 2] as nat),
            data.len() / 3,
        )
    }
}

/// The line of a palette color.
pub open spec fn color_line(color: Palette) -> Seq<u8> {
    rgb_line(color.r as nat, color.g as nat, color.b as nat)
}

/// The lines of an indexed image: the palette color of a pixel each.
pub open spec fn indexed_text(header: IHDRChunk, palette: Seq<Palette>, data: Seq<u8>) -> Result<
    Seq<u8>,
    PngError,
> {
    let n = sample_total(header, data);
    if header.stride() == 0 {
        Err(PngError::EmptyScanline)
    } else if first_bad_index(header, data, palette.len(), n) is Some {
        Err(PngError::PaletteIndex(first_bad_index(header, data, palette.len(), n)->0))
    } else {
        Ok(joined(|v: int| color_line(palette[image_sample(header, data, v) as int]), n))
    }
}

/// The text of an image, or why it cannot be written.
pub open spec fn ppm_text(
    header: IHDRChunk,
    palette: Option<Seq<Palette>>,
    data: Seq<u8>,
) -> Result<Seq<u8>, PngError> {
    match header.color_type {
        ColorType::Grayscale => match gray_text(header, data) {
            Ok(lines) => Ok(
                preamble(0x32, header, (pow2(header.bit_depth.bits()) - 1) as nat) + lines,
            ),
            Err(e) => Err(e),
        },
        ColorType::TrueColor => Ok(
            preamble(0x33, header, (pow2(header.bit_depth.bits()) - 1) as nat) + rgb_text(
                header,
                data,
            ),
        ),
        ColorType::IndexedColor => match palette {
            None => Err(PngError::MissingPalette),
            Some(colors) => match indexed_text(header, colors, data) {
                Ok(lines) => Ok(preamble(0x33, header, 255) + lines),
                Err(e) => Err(e),
            },
        },
        _ => Err(PngError::UnsupportedColorType(header.color_type)),
    }
}

/// Appends the decimal digits of `v`.
pub fn write_decimal(out: &mut Vec<u8>, v: u32)
    ensures
        final(out)@ == old(out)@ + decimal(v as nat),
    decreases v,
{
    if v >= 10 {
        write_decimal(out, v / 10);
    }
    out.push(0x30 + (v % 10) as u8);
    assert(out@ =~= old(out)@ + decimal(v as nat));
}

/// Appends a line with one number.
fn write_gray_line(out: &mut Vec<u8>, v: u32)
    ensures
        final(out)@ == old(out)@ + gray_line(v as nat),
{
    write_decimal(out, v);
    out.push(0x0a);
    assert(out@ =~= old(out)@ + gray_line(v as nat));
}

/// Appends a line with three numbers.
fn write_rgb_line(out: &mut Vec<u8>, r: u32, g: u32, b: u32)
    ensures
        final(out)@ == old(out)@ + rgb_line(r as nat, g as nat, b as nat),
{
    write_decimal(out, r);
    out.push(0x20);
    write_decimal(out, g);
    out.push(0x20);
    write_decimal(out, b);
    out.push(0x0a);
    assert(out@ =~= old(out)@ + rgb_line(r as nat, g as nat, b as nat));
}

/// Appends the lines that precede the pixels.
fn write_preamble(out: &mut Vec<u8>, digit: u8, header: &IHDRChunk, max: u32)
    ensures
        final(out)@ == old(out)@ + preamble(digit, *header, max as nat),
{
    out.push(0x50);
    out.push(digit);
    out.push(0x0a);
    write_decimal(out, header.width);
    out.push(0x20);
    write_decimal(out, header.height);
    out.push(0x0a);
    write_gray_line(out, max);
    assert(out@ =~= old(out)@ + preamble(digit, *header, max as nat));
}

proof fn lemma_bad_index_persists(header: IHDRChunk, data: Seq<u8>, size: nat, n: nat, more: nat)
    requires
        n <= more,
        first_bad_index(header, data, size, n) is Some,
    ensures
        first_bad_index(header, data, size, more) == first_bad_index(header, data, size, n),
    decreases more,
{
    if n < more {
        lemma_bad_index_persists(header, data, size, n, (more - 1) as nat);
    }
}

/// What the samples of a row are among those of the image.
proof fn lemma_row_in_image(header: IHDRChunk, data: Seq<u8>, r: int, j: int)
    requires
        header.valid(),
        header.stride() > 0,
        0 <= r < data.len() / header.stride(),
        0 <= j < header.width,
    ensures
        image_sample(header, data, r * header.width + j) == sample_at(
            row_of(data, header.stride(), r),
            header.bit_depth,
            j,
        ),
        r * header.width + j < sample_total(header, data),
        0 <= r * header.width,
        (r + 1) * header.width == r * header.width + header.width,
{
    lemma_position(header.width as nat, r, j);
    lemma_row_bounds(r, (data.len() / header.stride()) as int, header.width as int);
}

impl Png {
    /// The length of a line of a single-channel image with at most eight bits.
    fn packed_stride(header: &IHDRChunk) -> (stride: usize)
        requires
            header.valid(),
            header.color_type.channels() == 1,
            header.bit_depth != BitDepth::B16,
        ensures
            stride == header.stride(),
            stride == 0 <==> header.width == 0,
            header.bit_depth == BitDepth::B8 ==> stride == header.width,
    {
        proof {
            lemma_stride_by_depth(*header);
            let w = header.width as int;
            lemma_small_multiple((w + 7) / 8, 1);
            lemma_small_multiple((w + 3) / 4, 1);
            lemma_small_multiple((w + 1) / 2, 1);
            lemma_small_multiple(w, 1);
        }
        Self::scanline_length(header) - 1
    }

    /// Unpacks row `r` of a single-channel image.
    fn unpack_row(header: &IHDRChunk, data: &[u8], stride: usize, r: usize) -> (samples: Vec<u8>)
        requires
            header.valid(),
            header.color_type.channels() == 1,
            header.bit_depth != BitDepth::B16,
            stride == header.stride(),
            stride > 0,
            header.bit_depth == BitDepth::B8 ==> stride == header.width,
            r < data@.len() / stride as nat,
        ensures
            samples@.len() == header.width,
            forall|j: int|
                0 <= j < header.width ==> #[trigger] samples@[j] == image_sample(
                    *header,
                    data@,
                    r * header.width + j,
                ),
    {
        proof {
            let rows = (data@.len() / stride as nat) as int;
            assert(data@.len() == data.len());
            lemma_row_bounds(r as int, rows, stride as int);
            assert(rows <= data@.len() && rows * stride <= data@.len()) by (nonlinear_arith)
                requires
                    rows == data@.len() as int / stride as int,
                    stride > 0,
            ;
        }
        let row = vstd::slice::slice_subrange(data, r * stride, (r + 1) * stride);
        let samples = Self::unpack_samples(row, header.bit_depth, header.width as usize);
        proof {
            law_line_holds_width_samples(*header, row@);
            assert forall|j: int| 0 <= j < header.width implies #[trigger] samples@[j]
                == image_sample(*header, data@, r * header.width + j) by {
                lemma_row_in_image(*header, data@, r as int, j);
            }
        }
        samples
    }

    /// Appends the lines of a grayscale image.
    fn write_gray(header: &IHDRChunk, data: &[u8], out: &mut Vec<u8>) -> (done: Result<(), PngError>)
        requires
            header.valid(),
            header.color_type == ColorType::Grayscale,
        ensures
            match gray_text(*header, data@) {
                Ok(lines) => done is Ok && final(out)@ == old(out)@ + lines,
                Err(e) => done == Err::<(), PngError>(e),
            },
    {
        let ghost start = out@;
        match header.bit_depth {
            BitDepth::B8 => {
                let ghost line = |k: int| gray_line(data@[k] as nat);
                for k in 0..data.len()
                    invariant
                        out@ =~= start + joined(line, k as nat),
                        line == (|k: int| gray_line(data@[k] as nat)),
                {
                    write_gray_line(out, data[k] as u32);
                }
            },
            BitDepth::B16 => {
                let ghost line = |k: int| gray_line(wide_sample(data@, 2 * k));
                for k in 0..data.len() / 2
                    invariant
                        out@ =~= start + joined(line, k as nat),
                        line == (|k: int| gray_line(wide_sample(data@, 2 * k))),
                {
                    write_gray_line(out, data[2 * k] as u32 * 256 + data[2 * k + 1] as u32);
                }
            },
            _ => {
                let stride: usize = Self::packed_stride(header);
                if stride == 0 {
                    return Err(PngError::EmptyScanline);
                }
                let ghost line = |v: int| gray_line(image_sample(*header, data@, v) as nat);
                let rows: usize = data.len() / stride;
                let mut r: usize = 0;
                while r < rows
                    invariant
                        header.valid(),
                        header.color_type == ColorType::Grayscale,
                        header.bit_depth != BitDepth::B16,
                        stride == header.stride(),
                        stride > 0,
                        header.bit_depth != BitDepth::B8,
                        rows == data@.len() / stride as nat,
                        r <= rows,
                        out@ =~= start + joined(line, (r * header.width) as nat),
                        line == (|v: int| gray_line(image_sample(*header, data@, v) as nat)),
                    decreases rows - r,
                {
                    let samples = Self::unpack_row(header, data, stride, r);
                    proof {
                        lemma_row_bounds(r as int, rows as int, header.width as int);
                    }
                    for j in 0..samples.len()
                        invariant
                            0 <= r * header.width,
                            samples@.len() == header.width,
                            forall|j: int|
                                0 <= j < header.width ==> #[trigger] samples@[j] == image_sample(
                                    *header,
                                    data@,
                                    r * header.width + j,
                                ),
                            out@ =~= start + joined(line, (r * header.width + j) as nat),
                            line == (|v: int| gray_line(image_sample(*header, data@, v) as nat)),
                    {
                        write_gray_line(out, samples[j] as u32);
                    }
                    r = r + 1;
                }
            },
        }
        Ok(())
    }

    /// Appends the lines of a true-color image.
    fn write_rgb(header: &IHDRChunk, data: &[u8], out: &mut Vec<u8>)
        ensures
            final(out)@ == old(out)@ + rgb_text(*header, data@),
    {
        let ghost start = out@;
        if header.bit_depth == BitDepth::B16 {
            let ghost line = |k: int|
                rgb_line(
                    wide_sample(data@, 6 * k),
                    wide_sample(data@, 6 * k + 2),
                    wide_sample(data@, 6 * k + 4),
                );
            for k in 0..data.len() / 6
                invariant
                    out@ =~= start + joined(line, k as nat),
                    line == (|k: int|
                        rgb_line(
                            wide_sample(data@, 6 * k),
                            wide_sample(data@, 6 * k + 2),
                            wide_sample(data@, 6 * k + 4),
                        )),
            {
                let r: u32 = data[6 * k] as u32 * 256 + data[6 * k + 1] as u32;
                let g: u32 = data[6 * k + 2] as u32 * 256 + data[6 * k + 3] as u32;
                let b: u32 = data[6 * k + 4] as u32 * 256 + data[6 * k + 5] as u32;
                write_rgb_line(out, r, g, b);
            }
        } else {
            let ghost line = |k: int|
                rgb_line(data@[3 * k] as nat, data@[3 * k + 1] as nat, data@[3 * k + 2] as nat);
            for k in 0..data.len() / 3
                invariant
                    out@ =~= start + joined(line, k as nat),
                    line == (|k: int|
                        rgb_line(
                            data@[3 * k] as nat,
                            data@[3 * k + 1] as nat,
                            data@[3 * k + 2] as nat,
                        )),
            {
                write_rgb_line(
                    out,
                    data[3 * k] as u32,
                    data[3 * k + 1] as u32,
                    data[3 * k + 2] as u32,
                );
            }
        }
    }

    /// Appends the lines of an indexed image.
    fn write_indexed(
        header: &IHDRChunk,
        palette: &PLTEChunk,
        data: &[u8],
        out: &mut Vec<u8>,
    ) -> (done: Result<(), PngError>)
        requires
            header.valid(),
            header.color_type == ColorType::IndexedColor,
        ensures
            match indexed_text(*header, palette@, data@) {
                Ok(lines) => done is Ok && final(out)@ == old(out)@ + lines,
                Err(e) => done == Err::<(), PngError>(e),
            },
    {
        let ghost start = out@;
        let ghost colors = palette@;
        let stride: usize = Self::packed_stride(header);
        if stride == 0 {
            return Err(PngError::EmptyScanline);
        }
        let ghost line = |v: int| color_line(colors[image_sample(*header, data@, v) as int]);
        let rows: usize = data.len() / stride;
        let mut r: usize = 0;
        while r < rows
            invariant
                header.valid(),
                header.color_type == ColorType::IndexedColor,
                stride == header.stride(),
                stride > 0,
                header.bit_depth == BitDepth::B8 ==> stride == header.width,
                rows == data@.len() / stride as nat,
                r <= rows,
                colors == palette@,
                out@ =~= start + joined(line, (r * header.width) as nat),
                line == (|v: int| color_line(colors[image_sample(*header, data@, v) as int])),
                first_bad_index(*header, data@, colors.len(), (r * header.width) as nat) is None,
            decreases rows - r,
        {
            let samples = Self::unpack_row(header, data, stride, r);
            proof {
                lemma_row_bounds(r as int, rows as int, header.width as int);
            }
            for j in 0..samples.len()
                invariant
                    0 <= r * header.width,
                    (r + 1) * header.width == r * header.width + header.width,
                    (r + 1) * header.width <= sample_total(*header, data@),
                    header.stride() > 0,
                    samples@.len() == header.width,
                    forall|j: int|
                        0 <= j < header.width ==> #[trigger] samples@[j] == image_sample(
                            *header,
                            data@,
                            r * header.width + j,
                        ),
                    colors == palette@,
                    out@ =~= start + joined(line, (r * header.width + j) as nat),
                    line == (|v: int| color_line(colors[image_sample(*header, data@, v) as int])),
                    first_bad_index(
                        *header,
                        data@,
                        colors.len(),
                        (r * header.width + j) as nat,
                    ) is None,
            {
                let index: u8 = samples[j];
                if index as usize >= palette.palettes.len() {
                    proof {
                        lemma_bad_index_persists(
                            *header,
                            data@,
                            colors.len(),
                            (r * header.width + j + 1) as nat,
                            sample_total(*header, data@),
                        );
                    }
                    return Err(PngError::PaletteIndex(index));
                }
                let Palette { r: red, g: green, b: blue } = palette.palettes[index as usize];
                write_rgb_line(out, red as u32, green as u32, blue as u32);
            }
            r = r + 1;
        }
        Ok(())
    }

    /// The image as plain PGM (grayscale) or PPM text: the contents of the file.
    pub fn write_to_ppm(&self) -> (text: Result<Vec<u8>, PngError>)
        requires
            self.header.valid(),
        ensures
            match ppm_text(self.header, self@.palette, self.data@) {
                Ok(bytes) => text matches Ok(t) && t@ == bytes,
                Err(e) => text == Err::<Vec<u8>, PngError>(e),
            },
    {
        let header = &self.header;
        let data = self.data.as_slice();
        let mut file: Vec<u8> = Vec::new();
        match header.color_type {
            ColorType::Grayscale => {
                write_preamble(&mut file, 0x32, header, Self::max_sample_value(header.bit_depth));
                Self::write_gray(header, data, &mut file)?;
            },
            ColorType::TrueColor => {
                write_preamble(&mut file, 0x33, header, Self::max_sample_value(header.bit_depth));
                Self::write_rgb(header, data, &mut file);
            },
            ColorType::IndexedColor => {
                match &self.palette {
                    Some(palette) => {
                        write_preamble(&mut file, 0x33, header, 255);
                        Self::write_indexed(header, palette, data, &mut file)?;
                    },
                    None => {
                        return Err(PngError::MissingPalette);
                    },
                }
            },
            _ => {
                return Err(PngError::UnsupportedColorType(header.color_type));
            },
        }
        Ok(file)
    }
}

} // verus!
