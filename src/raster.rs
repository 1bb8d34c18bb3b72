//! Where each pixel of the output lies on the image plane.

use vstd::prelude::*;
use vstd::arithmetic::div_mod::{lemma_fundamental_div_mod, lemma_mod_pos_bound};

verus! {

/// The column of the pixel at `index` of a raster `width` pixels wide.
pub open spec fn column_of(index: int, width: int) -> int {
    index % width
}

/// The row of the pixel at `index`, counted from the bottom edge, of which
/// the raster holds `height` rows starting at the top.
pub open spec fn row_of(index: int, width: int, height: int) -> int {
    height - index / width
}

/// The column and row of the pixel at `index` of a row-major raster that
/// runs from the top row down and from left to right.
pub fn pixel_position(index: usize, width: usize, height: usize) -> (r: (usize, usize))
    requires
        width > 0,
        index < width * height,
    ensures
        r.0 == column_of(index as int, width as int),
        r.1 == row_of(index as int, width as int, height as int),
        r.0 < width,
        1 <= r.1 <= height,
{
    proof {
        lemma_fundamental_div_mod(index as int, width as int);
        assert(index / width < height) by (nonlinear_arith)
            requires
                index < width * height,
                width > 0,
        ;
    }
    (index % width, height - index / width)
}

/// Raster order: a later pixel lies on a lower row, or on the same row
/// further right.
pub proof fn lemma_raster_order(i: int, j: int, width: int, height: int)
    requires
        width > 0,
        0 <= i < j,
    ensures
        row_of(i, width, height) > row_of(j, width, height) || (row_of(i, width, height) == row_of(
            j,
            width,
            height,
        ) && column_of(i, width) < column_of(j, width)),
{
    lemma_fundamental_div_mod(i, width);
    lemma_fundamental_div_mod(j, width);
    lemma_mod_pos_bound(i, width);
    lemma_mod_pos_bound(j, width);
    let qi = i / width;
    let qj = j / width;
    let ri = i % width;
    let rj = j % width;
    if qi > qj {
        assert(width * qi >= width * (qj + 1)) by (nonlinear_arith)
            requires
                qi >= qj + 1,
                width > 0,
        ;
        assert(width * (qj + 1) == width * qj + width) by (nonlinear_arith);
    }
}

} // verus!
