use vstd::prelude::*;

verus! {

/// Flat offset of the cell at row `y`, column `x` of a row-major matrix whose rows
/// hold `width` cells.
#[allow(non_snake_case)]
pub fn get_1D_index_from(y: usize, x: usize, width: usize) -> (r: usize)
    requires
        y < width,
        x < width,
        width * width <= usize::MAX,
    ensures
        r == y * width + x,
        r < width * width,
{
    proof {
        assert(y * width + x < width * width) by (nonlinear_arith)
            requires
                y < width,
                x < width,
        ;
    }
    y * width + x
}

/// The square of a side that fits in `u16` fits in `usize`.
pub proof fn lemma_side_square_fits(n: u16)
    ensures
        n * n <= usize::MAX,
{
    assert(n * n <= 65535 * 65535) by (nonlinear_arith)
        requires
            n <= 65535,
    ;
}

} // verus!
