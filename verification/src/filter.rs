//! The five filters that the lines of an image are stored with.

use vstd::arithmetic::div_mod::lemma_fundamental_div_mod;
use vstd::math::abs;
use vstd::prelude::*;
use crate::arith::{lemma_position, lemma_row_bounds};
use crate::error::PngError;
use crate::header::IHDRChunk;
use crate::png::Png;

verus! {

/// The one of `a` (left), `b` (up) and `c` (upper left) that lies nearest to
/// `a + b - c`; of equally near ones the first.
pub open spec fn paeth(a: u8, b: u8, c: u8) -> u8 {
    let p = a + b - c;
    let pa = abs(p - a);
    let pb = abs(p - b);
    let pc = abs(p - c);
    if pa <= pb && pa <= pc {
        a
    } else if pb <= pc {
        b
    } else {
        c
    }
}

/// What filter `filter` expects of a byte whose neighbours are `a` (left), `b`
/// (up) and `c` (upper left).
pub open spec fn predictor(filter: u8, a: u8, b: u8, c: u8) -> int {
    if filter == 1 {
        a as int
    } else if filter == 2 {
        b as int
    } else if filter == 3 {
        (a + b) / 2
    } else if filter == 4 {
        paeth(a, b, c) as int
    } else {
        0
    }
}

/// The byte on the left of the byte at `k` in the same sample of its pixel, or 0
/// outside the line.
pub open spec fn left(out: Seq<u8>, stride: nat, bpp: nat, k: int) -> u8 {
    if k % stride as int >= bpp {
        out[k - bpp]
    } else {
        0
    }
}

/// The byte above the byte at `k`, or 0 above the first line.
pub open spec fn up(out: Seq<u8>, stride: nat, k: int) -> u8 {
    if k / stride as int > 0 {
        out[k - stride]
    } else {
        0
    }
}

/// The byte above the left neighbour of the byte at `k`, or 0.
pub open spec fn upper_left(out: Seq<u8>, stride: nat, bpp: nat, k: int) -> u8 {
    if k / stride as int > 0 && k % stride as int >= bpp {
        out[k - stride - bpp]
    } else {
        0
    }
}

/// What the filter of the line in `data` expects of the byte at `k`, given the
/// image bytes `out` before it.
pub open spec fn expected(data: Seq<u8>, out: Seq<u8>, stride: nat, bpp: nat, k: int) -> int {
    predictor(
        filter_type(data, stride, k / stride as int),
        left(out, stride, bpp, k),
        up(out, stride, k),
        upper_left(out, stride, bpp, k),
    )
}

/// The filter type of line `row`: its first byte.
pub open spec fn filter_type(data: Seq<u8>, stride: nat, row: int) -> u8 {
    data[row * (stride + 1)]
}

/// The stored byte that belongs to the image byte at `k`.
pub open spec fn stored(data: Seq<u8>, stride: nat, k: int) -> u8 {
    data[(k / stride as int) * (stride + 1) + 1 + k % stride as int]
}

/// The first `n` image bytes: each is the stored byte plus what the filter of its
/// line expects, modulo 256.
pub open spec fn unfiltered(data: Seq<u8>, stride: nat, bpp: nat, n: nat) -> Seq<u8>
    decreases n,
{
    if n == 0 {
        Seq::empty()
    } else {
        let k = n - 1;
        let out = unfiltered(data, stride, bpp, k as nat);
        out.push(
            ((stored(data, stride, k) + expected(data, out, stride, bpp, k)) % 256) as u8,
        )
    }
}

/// The filter type of the first of `rows` lines that has one above 4.
pub open spec fn first_bad_filter(data: Seq<u8>, stride: nat, rows: nat) -> Option<u8>
    decreases rows,
{
    if rows == 0 {
        None
    } else {
        match first_bad_filter(data, stride, (rows - 1) as nat) {
            Some(f) => Some(f),
            None => {
                let f = filter_type(data, stride, rows - 1);
                if f > 4 {
                    Some(f)
                } else {
                    None
                }
            },
        }
    }
}

/// The image bytes that the decompressed `data` stands for, or what rules it out.
///
/// The filter types of lines without bytes do not matter.
pub open spec fn unfilter_data(header: IHDRChunk, data: Seq<u8>) -> Result<Seq<u8>, PngError> {
    let stride = header.stride();
    if !header.scanline_fits() {
        Err(PngError::ScanlineTooLong)
    } else if data.len() != header.height * (stride + 1) {
        Err(PngError::DataLength)
    } else if stride > 0 && first_bad_filter(data, stride, header.height as nat) is Some {
        Err(
            PngError::InvalidFilterType(
                first_bad_filter(data, stride, header.height as nat)->0,
            ),
        )
    } else {
        Ok(unfiltered(data, stride, header.pixel_bytes(), header.height as nat * stride))
    }
}

/// As many bytes come out as are asked for.
pub proof fn lemma_unfiltered_len(data: Seq<u8>, stride: nat, bpp: nat, n: nat)
    ensures
        unfiltered(data, stride, bpp, n).len() == n,
    decreases n,
{
    if n > 0 {
        lemma_unfiltered_len(data, stride, bpp, (n - 1) as nat);
    }
}

proof fn lemma_bad_filter_persists(data: Seq<u8>, stride: nat, rows: nat, more: nat)
    requires
        rows <= more,
        first_bad_filter(data, stride, rows) is Some,
    ensures
        first_bad_filter(data, stride, more) == first_bad_filter(data, stride, rows),
    decreases more,
{
    if rows < more {
        lemma_bad_filter_persists(data, stride, rows, (more - 1) as nat);
    }
}

impl Png {
    /// The one of the three neighbours that lies nearest to their combination
    /// `a + b - c`.
    pub fn paeth_predictor(a: u8, b: u8, c: u8) -> (nearest: u8)
        ensures
            nearest == paeth(a, b, c),
    {
        let p: i32 = a as i32 + b as i32 - c as i32;
        let pa: i32 = Self::distance(p, a as i32);
        let pb: i32 = Self::distance(p, b as i32);
        let pc: i32 = Self::distance(p, c as i32);
        if pa <= pb && pa <= pc {
            a
        } else if pb <= pc {
            b
        } else {
            c
        }
    }

    /// How far `p` and `q` lie apart.
    fn distance(p: i32, q: i32) -> (d: i32)
        requires
            -1000 <= p <= 1000,
            0 <= q <= 255,
        ensures
            d == abs(p - q),
    {
        if p < q {
            q - p
        } else {
            p - q
        }
    }

    /// The image byte behind the stored byte `x`, unless there is no such filter.
    fn reconstruct(filter_type: u8, x: u8, a: u8, b: u8, c: u8) -> (recon: Option<u8>)
        ensures
            recon == (if filter_type <= 4 {
                Some(((x + predictor(filter_type, a, b, c)) % 256) as u8)
            } else {
                None
            }),
    {
        match filter_type {
            0 => Some(x),
            1 => Some(x.wrapping_add(a)),
            2 => Some(x.wrapping_add(b)),
            3 => Some(x.wrapping_add(((a as u16 + b as u16) / 2) as u8)),
            4 => Some(x.wrapping_add(Self::paeth_predictor(a, b, c))),
            _ => None,
        }
    }

    /// Takes the filters off: the bytes of the image from those of the
    /// decompressed lines.
    pub fn unfilter(header: &IHDRChunk, data: Vec<u8>) -> (output: Result<Vec<u8>, PngError>)
        requires
            header.valid(),
        ensures
            match unfilter_data(*header, data@) {
                Ok(bytes) => output matches Ok(o) && o@ == bytes,
                Err(e) => output == Err::<Vec<u8>, PngError>(e),
            },
    {
        if !Self::scanline_fits(header) {
            return Err(PngError::ScanlineTooLong);
        }
        let scan_line_len: usize = Self::scanline_length(header);
        let stride: usize = scan_line_len - 1;  // pixel bytes per row, filter-type byte excluded
        let bpp: usize = Self::get_bpp(header);
        assert(0 <= header.height * scan_line_len <= 0x7fff_ffff * 0x1_0000_0000)
            by (nonlinear_arith)
            requires
                0 <= scan_line_len <= 0x1_0000_0000,
                0 <= header.height <= 0x7fff_ffff,
        ;
        if data.len() as u64 != header.height as u64 * scan_line_len as u64 {
            return Err(PngError::DataLength);
        }
        let height: usize = header.height as usize;
        assert(height * stride <= height * scan_line_len) by (nonlinear_arith)
            requires
                stride <= scan_line_len,
                0 <= height,
        ;
        let mut output: Vec<u8> = Vec::with_capacity(height * stride);
        let mut start: usize = 0;

        let mut row_i: usize = 0;
        while row_i < height
            invariant
                row_i <= height,
                height == header.height,
                stride == header.stride(),
                scan_line_len == stride + 1,
                bpp == header.pixel_bytes(),
                data@.len() == height * scan_line_len,
                start == row_i * scan_line_len,
                output@ == unfiltered(
                    data@,
                    stride as nat,
                    bpp as nat,
                    (row_i * stride) as nat,
                ),
                stride > 0 ==> first_bad_filter(data@, stride as nat, row_i as nat) is None,
                header.scanline_fits(),
            decreases height - row_i,
        {
            proof {
                lemma_row_bounds(row_i as int, height as int, scan_line_len as int);
                lemma_row_bounds(row_i as int, height as int, stride as int);
                if row_i > 0 {
                    lemma_row_bounds(0, row_i as int, stride as int);
                }
            }
            let filter_type: u8 = data[start];
            for i in 0..stride
                invariant
                    0 <= row_i < height,
                    height == header.height,
                    stride == header.stride(),
                    scan_line_len == stride + 1,
                    bpp == header.pixel_bytes(),
                    data@.len() == height * scan_line_len,
                    start == row_i * scan_line_len,
                    start + scan_line_len <= data@.len(),
                    0 <= row_i * stride,
                    row_i > 0 ==> stride <= row_i * stride,
                    filter_type == data@[start as int],
                    header.scanline_fits(),
                    output@ == unfiltered(
                        data@,
                        stride as nat,
                        bpp as nat,
                        (row_i * stride + i) as nat,
                    ),
                    i > 0 ==> filter_type <= 4,
                    stride > 0 ==> first_bad_filter(data@, stride as nat, row_i as nat) is None,
            {
                let ghost k = row_i * stride + i;
                proof {
                    lemma_position(stride as nat, row_i as int, i as int);
                    lemma_unfiltered_len(data@, stride as nat, bpp as nat, k as nat);
                }
                let x: u8 = data[start + 1 + i];
                // a = left, b = up, c = upper-left, all already-reconstructed bytes.
                let a: u8 = if i >= bpp {
                    output[output.len() - bpp]
                } else {
                    0
                };
                let b: u8 = if row_i > 0 {
                    output[output.len() - stride]
                } else {
                    0
                };
                let c: u8 = if row_i > 0 && i >= bpp {
                    output[output.len() - stride - bpp]
                } else {
                    0
                };
                let recon: u8 = match Self::reconstruct(filter_type, x, a, b, c) {
                    Some(recon) => recon,
                    None => {
                        proof {
                            lemma_bad_filter_persists(
                                data@,
                                stride as nat,
                                (row_i + 1) as nat,
                                height as nat,
                            );
                        }
                        return Err(PngError::InvalidFilterType(filter_type));
                    },
                };
                output.push(recon);
            }
            start = start + scan_line_len;
            row_i = row_i + 1;
        }
        Ok(output)
    }
}

/// The stored lines of an image: in front of each line its filter type, and of each
/// byte what the filter does not expect.
pub open spec fn filtered(filters: Seq<u8>, pixels: Seq<u8>, stride: nat, bpp: nat) -> Seq<u8> {
    Seq::new(
        filters.len() * (stride + 1),
        |j: int|
            {
                let step = stride as int + 1;
                let row = j / step;
                let k = row * stride + j % step - 1;
                if j % step == 0 {
                    filters[row]
                } else {
                    ((pixels[k] - predictor(
                        filters[row],
                        left(pixels, stride, bpp, k),
                        up(pixels, stride, k),
                        upper_left(pixels, stride, bpp, k),
                    )) % 256) as u8
                }
            },
    )
}

/// The neighbours of a byte stand before it.
proof fn lemma_neighbours_before(stride: nat, bpp: nat, k: int)
    requires
        0 < stride,
        0 <= k,
    ensures
        0 <= k / stride as int,
        0 <= k % (stride as int) < stride,
        k == (k / stride as int) * stride + k % stride as int,
        k % stride as int <= k,
        k / stride as int > 0 ==> stride + k % stride as int <= k,
{
    lemma_fundamental_div_mod(k, stride as int);
    assert(stride as int * (k / stride as int) == (k / stride as int) * stride)
        by (nonlinear_arith);
    assert(k / stride as int >= 0 && 0 <= k % stride as int && k % stride as int <= k)
        by (nonlinear_arith)
        requires
            0 < stride,
            0 <= k,
    ;
    if k / stride as int > 0 {
        assert((k / stride as int) * stride >= stride) by (nonlinear_arith)
            requires
                k / stride as int > 0,
                0 < stride,
        ;
    }
}

/// Each byte of the image is the stored byte plus what its filter expects of its
/// neighbours in the finished image, modulo 256.
pub proof fn law_unfiltered_byte(data: Seq<u8>, stride: nat, bpp: nat, n: nat, k: int)
    requires
        0 < stride,
        0 < bpp,
        0 <= k < n,
    ensures
        unfiltered(data, stride, bpp, n).len() == n,
        unfiltered(data, stride, bpp, n)[k] == (stored(data, stride, k) + expected(
            data,
            unfiltered(data, stride, bpp, n),
            stride,
            bpp,
            k,
        )) % 256,
    decreases n,
{
    lemma_unfiltered_len(data, stride, bpp, n);
    let m = (n - 1) as nat;
    lemma_unfiltered_len(data, stride, bpp, m);
    lemma_neighbours_before(stride, bpp, k);
    if k < m {
        law_unfiltered_byte(data, stride, bpp, m, k);
    }
}

/// The stored byte of an image byte, where the lines were filtered.
proof fn lemma_stored_of_filtered(
    filters: Seq<u8>,
    pixels: Seq<u8>,
    stride: nat,
    bpp: nat,
    k: int,
)
    requires
        0 < stride,
        pixels.len() == filters.len() * stride,
        0 <= k < pixels.len(),
    ensures
        k / (stride as int) < filters.len(),
        filter_type(filtered(filters, pixels, stride, bpp), stride, k / stride as int)
            == filters[k / stride as int],
        stored(filtered(filters, pixels, stride, bpp), stride, k) == (pixels[k] - predictor(
            filters[k / stride as int],
            left(pixels, stride, bpp, k),
            up(pixels, stride, k),
            upper_left(pixels, stride, bpp, k),
        )) % 256,
{
    let rows = filters.len() as int;
    let row = k / stride as int;
    let i = k % stride as int;
    lemma_neighbours_before(stride, bpp, k);
    assert(row < rows) by (nonlinear_arith)
        requires
            row * stride + i < rows * stride,
            0 <= i,
            0 < stride,
    ;
    lemma_row_bounds(row, rows, (stride + 1) as int);
    lemma_position((stride + 1) as nat, row, 0);
    lemma_position((stride + 1) as nat, row, i + 1);
    assert(row * (stride + 1) == row * stride + row) by (nonlinear_arith);
}

/// Taking off the filters undoes filtering, whichever filter each line has.
pub proof fn law_unfilter_undoes_filter(header: IHDRChunk, filters: Seq<u8>, pixels: Seq<u8>)
    requires
        header.valid(),
        header.scanline_fits(),
        filters.len() == header.height,
        forall|row: int| 0 <= row < filters.len() ==> #[trigger] filters[row] <= 4,
        pixels.len() == header.height * header.stride(),
    ensures
        unfilter_data(
            header,
            filtered(filters, pixels, header.stride(), header.pixel_bytes()),
        ) == Ok::<Seq<u8>, PngError>(pixels),
{
    let stride = header.stride();
    let bpp = header.pixel_bytes();
    let data = filtered(filters, pixels, stride, bpp);
    if stride > 0 {
        lemma_no_bad_filter(filters, pixels, stride, bpp, filters.len());
        lemma_unfiltered_of_filtered(filters, pixels, stride, bpp, pixels.len());
        assert(pixels.take(pixels.len() as int) =~= pixels);
    } else {
        assert(header.height as nat * stride == 0) by (nonlinear_arith)
            requires
                stride == 0,
        ;
        assert(pixels =~= Seq::<u8>::empty());
    }
}

proof fn lemma_no_bad_filter(
    filters: Seq<u8>,
    pixels: Seq<u8>,
    stride: nat,
    bpp: nat,
    rows: nat,
)
    requires
        rows <= filters.len(),
        forall|row: int| 0 <= row < filters.len() ==> #[trigger] filters[row] <= 4,
    ensures
        first_bad_filter(filtered(filters, pixels, stride, bpp), stride, rows) is None,
    decreases rows,
{
    if rows > 0 {
        lemma_no_bad_filter(filters, pixels, stride, bpp, (rows - 1) as nat);
        lemma_row_bounds(rows - 1, filters.len() as int, (stride + 1) as int);
        lemma_position((stride + 1) as nat, rows - 1, 0);
    }
}

proof fn lemma_unfiltered_of_filtered(
    filters: Seq<u8>,
    pixels: Seq<u8>,
    stride: nat,
    bpp: nat,
    n: nat,
)
    requires
        0 < stride,
        0 < bpp,
        pixels.len() == filters.len() * stride,
        n <= pixels.len(),
    ensures
        unfiltered(filtered(filters, pixels, stride, bpp), stride, bpp, n) == pixels.take(n as int),
    decreases n,
{
    let data = filtered(filters, pixels, stride, bpp);
    if n > 0 {
        let k = n - 1;
        lemma_unfiltered_of_filtered(filters, pixels, stride, bpp, k as nat);
        lemma_neighbours_before(stride, bpp, k);
        lemma_stored_of_filtered(filters, pixels, stride, bpp, k);
        let out = pixels.take(k);
        let e = expected(data, out, stride, bpp, k);
        assert(((pixels[k] - e) % 256 + e) % 256 == pixels[k]);
        assert(pixels.take(n as int) =~= out.push(pixels[k]));
    } else {
        assert(pixels.take(0) =~= Seq::<u8>::empty());
    }
}

} // verus!
