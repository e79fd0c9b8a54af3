//! Products and quotients of rows and columns.

use vstd::arithmetic::div_mod::lemma_fundamental_div_mod_converse;
use vstd::prelude::*;

verus! {

/// Row `row` of `rows` rows of `step` bytes lies inside them.
pub proof fn lemma_row_bounds(row: int, rows: int, step: int)
    requires
        0 <= row < rows,
        0 <= step,
    ensures
        0 <= row * step,
        (row + 1) * step == row * step + step,
        (row + 1) * step <= rows * step,
{
    assert(0 <= row * step) by (nonlinear_arith)
        requires
            0 <= row,
            0 <= step,
    ;
    assert((row + 1) * step == row * step + step) by (nonlinear_arith);
    assert((row + 1) * step <= rows * step) by (nonlinear_arith)
        requires
            row + 1 <= rows,
            0 <= step,
    ;
}

/// Row and column of a position, from the position.
pub proof fn lemma_position(stride: nat, row: int, i: int)
    requires
        0 <= row,
        0 <= i < stride,
    ensures
        (row * stride + i) / stride as int == row,
        (row * stride + i) % stride as int == i,
{
    lemma_fundamental_div_mod_converse(row * stride + i, stride as int, row, i);
}

} // verus!
