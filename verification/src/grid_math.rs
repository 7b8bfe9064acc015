//! Arithmetic facts about laying a grid of square cells over an image.
use vstd::prelude::*;
use vstd::arithmetic::div_mod::{
    lemma_fundamental_div_mod,
    lemma_mod_bound,
    lemma_div_is_ordered,
    lemma_div_plus_one,
};

verus! {

/// Number of cells of side `cs` needed to cover `len` pixels.
pub open spec fn cells_across(len: int, cs: int) -> int {
    (len + cs - 1) / cs
}

/// The grid of cells of side `cs` over `len` pixels is no longer than the
/// pixels themselves, and its last cell starts inside them.
pub proof fn lemma_cells_across(len: int, cs: int)
    requires
        len >= 0,
        cs >= 1,
    ensures
        0 <= cells_across(len, cs) <= len,
        cells_across(len, cs) * cs <= len + cs - 1,
        len > 0 ==> (cells_across(len, cs) - 1) * cs < len,
        len > 0 ==> cells_across(len, cs) >= 1,
{
    let q = cells_across(len, cs);
    let x = len + cs - 1;
    lemma_fundamental_div_mod(x, cs);
    lemma_mod_bound(x, cs);
    let r = x % cs;
    assert(x == cs * q + r);
    assert(q * cs <= len + cs - 1 && (len > 0 ==> (q - 1) * cs < len) && q >= 0 && q <= len
        && (len > 0 ==> q >= 1)) by (nonlinear_arith)
        requires
            x == cs * q + r,
            0 <= r < cs,
            x == len + cs - 1,
            len >= 0,
            cs >= 1,
    ;
}

/// Pixel `i` of a `w` x `h` image (row-major) falls in a cell of the grid of
/// `cs`-sided cells, whose row-major index is below the number of cells.
pub proof fn lemma_pixel_cell(i: int, w: int, h: int, cs: int)
    requires
        0 <= i < w * h,
        w > 0,
        h > 0,
        cs >= 1,
    ensures
        0 <= (i % w) / cs < cells_across(w, cs),
        0 <= (i / w) / cs < cells_across(h, cs),
        0 <= ((i / w) / cs) * cells_across(w, cs) + (i % w) / cs < cells_across(w, cs)
            * cells_across(h, cs),
        0 <= i % w < w,
        0 <= i / w < h,
{
    let cols = cells_across(w, cs);
    let rows = cells_across(h, cs);
    lemma_fundamental_div_mod(i, w);
    lemma_mod_bound(i, w);
    let px = i % w;
    let py = i / w;
    assert(0 <= py < h) by (nonlinear_arith)
        requires
            i == w * py + px,
            0 <= px < w,
            0 <= i < w * h,
            w > 0,
    ;
    lemma_div_is_ordered(px, w - 1, cs);
    lemma_div_is_ordered(0, px, cs);
    lemma_div_plus_one(w - 1, cs);
    assert(cs + (w - 1) == w + cs - 1);
    lemma_div_is_ordered(py, h - 1, cs);
    lemma_div_is_ordered(0, py, cs);
    lemma_div_plus_one(h - 1, cs);
    assert(cs + (h - 1) == h + cs - 1);
    let gc = px / cs;
    let gr = py / cs;
    assert(0 <= gr * cols + gc < cols * rows) by (nonlinear_arith)
        requires
            0 <= gc < cols,
            0 <= gr < rows,
    ;
}

/// A `cols` x `rows` grid has no more cells than the image has pixels.
pub proof fn lemma_grid_small(w: int, h: int, cs: int)
    requires
        w >= 0,
        h >= 0,
        cs >= 1,
    ensures
        0 <= cells_across(w, cs) * cells_across(h, cs) <= w * h,
{
    lemma_cells_across(w, cs);
    lemma_cells_across(h, cs);
    let cols = cells_across(w, cs);
    let rows = cells_across(h, cs);
    assert(0 <= cols * rows <= w * h) by (nonlinear_arith)
        requires
            0 <= cols <= w,
            0 <= rows <= h,
    ;
}

} // verus!
