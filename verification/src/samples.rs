//! Single-channel samples and the bytes that they are packed into.

use vstd::arithmetic::div_mod::{
    lemma_div_denominator, lemma_fundamental_div_mod, lemma_mod_bound,
};
use vstd::arithmetic::power2::{lemma2_to64, lemma_pow2_adds, lemma_pow2_pos, pow2};
use vstd::bits::lemma_u8_shr_is_div;
use vstd::prelude::*;
use crate::header::{BitDepth, IHDRChunk};
use crate::png::Png;
use crate::scanline::{lemma_small_multiple, lemma_stride_by_depth};

verus! {

impl BitDepth {
    /// How many samples share a byte.
    pub open spec fn per_byte(self) -> int {
        match self {
            BitDepth::B1 => 8,
            BitDepth::B2 => 4,
            BitDepth::B4 => 2,
            _ => 1,
        }
    }
}

/// The `j`-th sample in `row`, where samples fill each byte from its high end.
pub open spec fn sample_at(row: Seq<u8>, bit_depth: BitDepth, j: int) -> u8 {
    let byte = row[j / bit_depth.per_byte()] as int;
    let place = j % bit_depth.per_byte();
    let above = pow2((8 - bit_depth.bits() * (place + 1)) as nat) as int;
    ((byte / above) % pow2(bit_depth.bits()) as int) as u8
}

/// How many samples are taken from `len` bytes where `width` are asked for.
pub open spec fn sample_count(len: nat, bit_depth: BitDepth, width: nat) -> nat {
    if width <= len * bit_depth.per_byte() {
        width
    } else {
        (len * bit_depth.per_byte()) as nat
    }
}

/// The first `width` samples of `row`, or all that it holds.
pub open spec fn row_samples(row: Seq<u8>, bit_depth: BitDepth, width: nat) -> Seq<u8> {
    Seq::new(sample_count(row.len(), bit_depth, width), |j: int| sample_at(row, bit_depth, j))
}

/// With eight bits, a sample is a byte.
pub proof fn law_byte_sample(row: Seq<u8>, j: int)
    ensures
        sample_at(row, BitDepth::B8, j) == row[j],
{
    lemma2_to64();
    let bd = BitDepth::B8;
    assert(bd.per_byte() == 1 && bd.bits() == 8);
    assert(j / 1 == j && j % 1 == 0);
    assert(pow2((8 - bd.bits() * (0 + 1)) as nat) == pow2(0));
}

/// No sample exceeds the maximum of its bit depth.
pub proof fn law_sample_in_range(row: Seq<u8>, bit_depth: BitDepth, j: int)
    requires
        bit_depth != BitDepth::B16,
    ensures
        sample_at(row, bit_depth, j) <= pow2(bit_depth.bits()) - 1,
{
    lemma2_to64();
}

/// A line of a single-channel image holds exactly as many samples as the image
/// is wide: the padding behind them is dropped.
pub proof fn law_line_holds_width_samples(header: IHDRChunk, row: Seq<u8>)
    requires
        header.valid(),
        header.color_type.channels() == 1,
        header.bit_depth != BitDepth::B16,
        row.len() == header.stride(),
    ensures
        row_samples(row, header.bit_depth, header.width as nat).len() == header.width,
{
    lemma_stride_by_depth(header);
    let w = header.width as int;
    let p = header.bit_depth.per_byte();
    let s = header.stride() as int;
    lemma_small_multiple((w + 7) / 8, 1);
    lemma_small_multiple((w + 3) / 4, 1);
    lemma_small_multiple((w + 1) / 2, 1);
    lemma_small_multiple(w, 1);
    lemma_small_multiple(s, p);
}

/// The padding behind the last sample of a line does not matter: two lines whose last
/// bytes have the same `used` samples in front, and whose other bytes are the same,
/// hold the same samples.
pub proof fn law_padding_is_ignored(
    row: Seq<u8>,
    other: Seq<u8>,
    bit_depth: BitDepth,
    used: int,
)
    requires
        bit_depth != BitDepth::B16,
        row.len() > 0,
        row.len() == other.len(),
        0 < used <= bit_depth.per_byte(),
        forall|i: int| 0 <= i < row.len() - 1 ==> #[trigger] row[i] == other[i],
        row.last() as int / pow2((8 - bit_depth.bits() * used) as nat) as int == other.last() as int
            / pow2((8 - bit_depth.bits() * used) as nat) as int,
    ensures
        ({
            let width = ((row.len() - 1) * bit_depth.per_byte() + used) as nat;
            row_samples(row, bit_depth, width) == row_samples(other, bit_depth, width)
        }),
{
    let p = bit_depth.per_byte();
    let n = row.len() - 1;
    let width = (n * p + used) as nat;
    assert(0 <= n * p && (n + 1) * p == n * p + p) by (nonlinear_arith)
        requires
            0 <= n,
            0 < p,
    ;
    assert forall|j: int| 0 <= j < width implies sample_at(row, bit_depth, j) == sample_at(
        other,
        bit_depth,
        j,
    ) by {
        lemma_places(j, p, n);
        lemma_places(j, p, n + 1);
        assert(0 <= j / p) by (nonlinear_arith)
            requires
                0 <= j,
                0 < p,
        ;
        if j / p == n {
            lemma_fundamental_div_mod(j, p);
            assert(p * n == n * p) by (nonlinear_arith);
            lemma_same_front(row.last(), other.last(), bit_depth, j % p, used);
        }
    }
    assert(row_samples(row, bit_depth, width) =~= row_samples(other, bit_depth, width));
}

/// The sample at `place` is the same in bytes that agree in their first `used` samples.
proof fn lemma_same_front(a: u8, b: u8, bit_depth: BitDepth, place: int, used: int)
    requires
        bit_depth != BitDepth::B16,
        0 <= place < used <= bit_depth.per_byte(),
        a as int / pow2((8 - bit_depth.bits() * used) as nat) as int == b as int / pow2(
            (8 - bit_depth.bits() * used) as nat,
        ) as int,
    ensures
        a as int / pow2((8 - bit_depth.bits() * (place + 1)) as nat) as int == b as int / pow2(
            (8 - bit_depth.bits() * (place + 1)) as nat,
        ) as int,
{
    let bits = bit_depth.bits() as int;
    assert(0 <= 8 - bits * used && 0 <= bits * (used - place - 1) && 8 - bits * (place + 1) == (8
        - bits * used) + bits * (used - place - 1)) by (nonlinear_arith)
        requires
            0 <= place < used,
            bits == 1 && used <= 8 || bits == 2 && used <= 4 || bits == 4 && used <= 2 || bits == 8
                && used <= 1,
    ;
    let low = (8 - bits * used) as nat;
    let high = (bits * (used - place - 1)) as nat;
    lemma_pow2_adds(low, high);
    lemma_pow2_pos(low);
    lemma_pow2_pos(high);
    lemma_div_denominator(a as int, pow2(low) as int, pow2(high) as int);
    lemma_div_denominator(b as int, pow2(low) as int, pow2(high) as int);
}

/// A sample's place in its byte, and the bytes that a number of samples needs.
proof fn lemma_places(j: int, p: int, len: int)
    requires
        0 < p,
        0 <= j,
        0 <= len,
    ensures
        0 <= j % p < p,
        j / p < len ==> j + 1 <= len * p,
        j / p >= len ==> j >= len * p,
{
    lemma_fundamental_div_mod(j, p);
    lemma_mod_bound(j, p);
    let q = j / p;
    if q < len {
        assert(p * q + p <= len * p) by (nonlinear_arith)
            requires
                q + 1 <= len,
                0 < p,
        ;
    } else {
        assert(p * q >= len * p) by (nonlinear_arith)
            requires
                q >= len,
                0 < p,
        ;
    }
}

/// Shifting and masking cuts a sample out of its byte.
pub proof fn lemma_shift_and_mask(byte: u8, bits: u8, shift: u8, mask: u8)
    requires
        shift < 8,
        bits == 1 && mask == 1 || bits == 2 && mask == 3 || bits == 4 && mask == 15,
    ensures
        (byte >> shift) & mask == (byte as int / pow2(shift as nat) as int) % pow2(
            bits as nat,
        ) as int,
{
    lemma2_to64();
    lemma_u8_shr_is_div(byte, shift);
    let x = byte >> shift;
    assert(x & 1 == x % 2 && x & 3 == x % 4 && x & 15 == x % 16) by (bit_vector);
}

impl Png {
    /// Unpacks `width` single-channel samples (grayscale intensities or
    /// palette indices) from one scanline's worth of bytes, per `bit_depth`.
    /// Rows are byte-aligned, so for bit depths < 8 the last byte of a row
    /// may hold unused padding bits that must be dropped rather than read as
    /// extra samples.
    pub fn unpack_samples(row: &[u8], bit_depth: BitDepth, width: usize) -> (samples: Vec<u8>)
        requires
            bit_depth != BitDepth::B16,
            bit_depth == BitDepth::B8 ==> width <= row@.len(),
        ensures
            samples@ == row_samples(row@, bit_depth, width as nat),
    {
        if bit_depth == BitDepth::B8 {
            let samples = vstd::slice::slice_to_vec(vstd::slice::slice_subrange(row, 0, width));
            assert forall|k: int| 0 <= k < width implies #[trigger] samples@[k] == sample_at(
                row@,
                BitDepth::B8,
                k,
            ) by {
                law_byte_sample(row@, k);
            }
            assert(samples@ =~= row_samples(row@, BitDepth::B8, width as nat));
            return samples;
        }
        let (bits, mask, per_byte): (u8, u8, usize) = match bit_depth {
            BitDepth::B1 => (1, 1, 8),
            BitDepth::B2 => (2, 3, 4),
            _ => (4, 15, 2),
        };
        let mut samples: Vec<u8> = Vec::new();
        let mut j: usize = 0;
        while j < width && j / per_byte < row.len()
            invariant
                bits == bit_depth.bits(),
                per_byte == bit_depth.per_byte(),
                bits == 1 && mask == 1 && per_byte == 8 || bits == 2 && mask == 3 && per_byte == 4
                    || bits == 4 && mask == 15 && per_byte == 2,
                j <= width,
                j <= row@.len() * per_byte,
                samples@ == Seq::new(j as nat, |k: int| sample_at(row@, bit_depth, k)),
            decreases width - j,
        {
            proof {
                lemma_places(j as int, per_byte as int, row@.len() as int);
            }
            let byte: u8 = row[j / per_byte];
            let place: u8 = (j % per_byte) as u8;
            assert(0 < bits * (place + 1) <= 8) by (nonlinear_arith)
                requires
                    bits == 1 && place < 8 || bits == 2 && place < 4 || bits == 4 && place < 2,
            ;
            let shift: u8 = 8 - bits * (place + 1);
            proof {
                lemma_shift_and_mask(byte, bits, shift, mask);
            }
            samples.push((byte >> shift) & mask);
            j = j + 1;
            assert(samples@ =~= Seq::new(j as nat, |k: int| sample_at(row@, bit_depth, k)));
        }
        proof {
            lemma_places(j as int, per_byte as int, row@.len() as int);
        }
        assert(samples@ =~= row_samples(row@, bit_depth, width as nat));
        samples
    }

    /// Maximum sample value representable at `bit_depth` (i.e. `2^bits - 1`),
    /// used as the PPM/PGM header's maxval for grayscale and true-color images.
    pub fn max_sample_value(bit_depth: BitDepth) -> (max: u32)
        ensures
            max == pow2(bit_depth.bits()) - 1,
    {
        proof {
            lemma2_to64();
        }
        match bit_depth {
            BitDepth::B1 => 1,
            BitDepth::B2 => 3,
            BitDepth::B4 => 15,
            BitDepth::B8 => 255,
            BitDepth::B16 => 65535,
        }
    }
}

} // verus!
