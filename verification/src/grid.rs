//! Row-major addressing: cell `(x, y)` of a grid `width` cells wide sits at
//! `y * width + x`.
use vstd::prelude::*;
use vstd::arithmetic::div_mod::{lemma_fundamental_div_mod, lemma_fundamental_div_mod_converse};

verus! {

/// A cell inside a `width` by `height` grid has an address below `width * height`.
pub proof fn lemma_cell_in_grid(x: int, y: int, width: int, height: int)
    requires
        0 <= x < width,
        0 <= y < height,
    ensures
        0 <= y * width + x < width * height,
{
    assert(0 <= y * width) by (nonlinear_arith)
        requires
            0 <= y,
            0 <= width,
    ;
    assert(y * width + x < width * height) by (nonlinear_arith)
        requires
            0 <= x < width,
            0 <= y < height,
    ;
}

/// The address `y * width + x` of a cell gives its column and its row back.
pub proof fn lemma_cell_coords(x: int, y: int, width: int)
    requires
        0 <= x < width,
    ensures
        (y * width + x) % width == x,
        (y * width + x) / width == y,
{
    lemma_fundamental_div_mod_converse(y * width + x, width, y, x);
}

/// Walking one cell on from address `k` either moves one column right or
/// wraps to the first column of the next row.
pub proof fn lemma_next_cell(k: int, width: int)
    requires
        0 <= k,
        0 < width,
    ensures
        k % width + 1 < width ==> (k + 1) % width == k % width + 1 && (k + 1) / width == k / width,
        k % width + 1 == width ==> (k + 1) % width == 0 && (k + 1) / width == k / width + 1,
        0 <= k % width < width,
{
    lemma_fundamental_div_mod(k, width);
    let q = k / width;
    let r = k % width;
    assert(0 <= r < width) by {
        vstd::arithmetic::div_mod::lemma_mod_bound(k, width);
    }
    if r + 1 < width {
        assert(k + 1 == q * width + (r + 1)) by (nonlinear_arith)
            requires
                k == width * q + r,
        ;
        lemma_fundamental_div_mod_converse(k + 1, width, q, r + 1);
    } else {
        assert(k + 1 == (q + 1) * width + 0) by (nonlinear_arith)
            requires
                k == width * q + r,
                r + 1 == width,
        ;
        lemma_fundamental_div_mod_converse(k + 1, width, q + 1, 0);
    }
}

} // verus!
