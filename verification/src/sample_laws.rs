//! Which bits of a line each sample is.

use vstd::arithmetic::power2::lemma2_to64;
use vstd::prelude::*;
use crate::header::BitDepth;
use crate::samples::{law_byte_sample, lemma_shift_and_mask, row_samples, sample_at};

verus! {

/// Sample `j` of the bytes that start at `start`: samples follow one another from the
/// high end of each byte to its low end, and do not reach over bytes.
pub open spec fn packed(data: Seq<u8>, start: int, bit_depth: BitDepth, j: int) -> u8 {
    match bit_depth {
        BitDepth::B1 => (data[start + j / 8] >> ((7 - j % 8) as u8)) & 1,
        BitDepth::B2 => (data[start + j / 4] >> ((6 - 2 * (j % 4)) as u8)) & 3,
        BitDepth::B4 => (data[start + j / 2] >> ((4 - 4 * (j % 2)) as u8)) & 15,
        _ => data[start + j],
    }
}

/// How many samples a byte holds.
pub open spec fn samples_in_byte(bit_depth: BitDepth) -> int {
    match bit_depth {
        BitDepth::B1 => 8,
        BitDepth::B2 => 4,
        BitDepth::B4 => 2,
        _ => 1,
    }
}

/// A sample is cut out of its byte.
pub proof fn lemma_sample_bits(row: Seq<u8>, bit_depth: BitDepth, j: int)
    requires
        bit_depth != BitDepth::B16,
        0 <= j,
    ensures
        sample_at(row, bit_depth, j) == packed(row, 0, bit_depth, j),
{
    lemma2_to64();
    match bit_depth {
        BitDepth::B1 => {
            let place = j % 8;
            lemma_shift_and_mask(row[j / 8], 1, (7 - place) as u8, 1);
            assert(8 - 1 * (place + 1) == 7 - place);
        },
        BitDepth::B2 => {
            let place = j % 4;
            lemma_shift_and_mask(row[j / 4], 2, (6 - 2 * place) as u8, 3);
            assert(8 - 2 * (place + 1) == 6 - 2 * place);
        },
        BitDepth::B4 => {
            let place = j % 2;
            lemma_shift_and_mask(row[j / 2], 4, (4 - 4 * place) as u8, 15);
            assert(8 - 4 * (place + 1) == 4 - 4 * place);
        },
        _ => {
            law_byte_sample(row, j);
        },
    }
}

/// The samples of a line: as many as are asked for, or all that there are, each cut out of
/// its byte.
pub proof fn law_samples_of_a_line(row: Seq<u8>, bit_depth: BitDepth, width: nat)
    requires
        bit_depth != BitDepth::B16,
    ensures
        ({
            let samples = row_samples(row, bit_depth, width);
            let all = row.len() * samples_in_byte(bit_depth);
            &&& samples.len() == (if width <= all {
                width as int
            } else {
                all
            })
            &&& forall|j: int|
                0 <= j < samples.len() ==> #[trigger] samples[j] == packed(row, 0, bit_depth, j)
        }),
{
    let samples = row_samples(row, bit_depth, width);
    assert(bit_depth.per_byte() == samples_in_byte(bit_depth));
    assert(row.len() * samples_in_byte(bit_depth) >= 0) by (nonlinear_arith)
        requires
            samples_in_byte(bit_depth) >= 0,
    ;
    assert forall|j: int| 0 <= j < samples.len() implies #[trigger] samples[j] == packed(
        row,
        0,
        bit_depth,
        j,
    ) by {
        lemma_sample_bits(row, bit_depth, j);
    }
}

} // verus!
