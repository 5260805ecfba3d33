//! Flattened grids: where a cell's entry stands. Quotients and ranges of machine integers.

use vstd::prelude::*;

verus! {

/// Rust's division of machine integers: the quotient truncated toward zero.
pub open spec fn tdiv(a: int, b: int) -> int {
    if a >= 0 { a / b } else { -((-a) / b) }
}

/// Whether a value is a machine `i32`.
pub open spec fn fits(v: int) -> bool {
    i32::MIN <= v <= i32::MAX
}

/// Whether `(x, y)` is a cell of a grid of `w` columns and `h` rows.
pub open spec fn in_grid2(x: int, y: int, w: int, h: int) -> bool {
    0 <= x < w && 0 <= y < h
}

/// Whether `(l, x, y)` is a cell of a grid of `nl` layers, `xg` columns and `yg` rows.
pub open spec fn in_grid3(l: int, x: int, y: int, nl: int, xg: int, yg: int) -> bool {
    0 <= l < nl && in_grid2(x, y, xg, yg)
}

/// The place of cell `(x, y)` in a row-major grid of `w` columns.
pub open spec fn at2(x: int, y: int, w: int) -> int {
    y * w + x
}

/// The place of cell `(l, x, y)` in a grid flattened layer by layer, row by row.
pub open spec fn at3(l: int, x: int, y: int, xg: int, yg: int) -> int {
    (l * yg + y) * xg + x
}

pub proof fn lemma_at2(x: int, y: int, w: int, h: int)
    requires
        in_grid2(x, y, w, h),
    ensures
        0 <= y * w <= at2(x, y, w),
        0 <= at2(x, y, w) < h * w,
{
    assert(0 <= y * w) by (nonlinear_arith)
        requires
            0 <= y,
            0 <= w,
    ;
    assert((y + 1) * w <= h * w) by (nonlinear_arith)
        requires
            y + 1 <= h,
            0 <= w,
    ;
    assert((y + 1) * w == y * w + w) by (nonlinear_arith);
}

pub proof fn lemma_at2_injective(x: int, y: int, x2: int, y2: int, w: int, h: int)
    requires
        in_grid2(x, y, w, h),
        in_grid2(x2, y2, w, h),
        at2(x, y, w) == at2(x2, y2, w),
    ensures
        x == x2,
        y == y2,
{
    if y < y2 {
        assert((y + 1) * w <= y2 * w) by (nonlinear_arith)
            requires
                y + 1 <= y2,
                0 <= w,
        ;
        assert((y + 1) * w == y * w + w) by (nonlinear_arith);
    } else if y2 < y {
        assert((y2 + 1) * w <= y * w) by (nonlinear_arith)
            requires
                y2 + 1 <= y,
                0 <= w,
        ;
        assert((y2 + 1) * w == y2 * w + w) by (nonlinear_arith);
    }
}

pub proof fn lemma_at3(l: int, x: int, y: int, nl: int, xg: int, yg: int)
    requires
        in_grid3(l, x, y, nl, xg, yg),
    ensures
        0 <= l * yg <= l * yg + y < nl * yg,
        nl * yg <= nl * yg * xg,
        0 <= (l * yg + y) * xg <= at3(l, x, y, xg, yg) < nl * yg * xg,
{
    lemma_at2(y, l, yg, nl);
    lemma_at2(x, l * yg + y, xg, nl * yg);
    assert(nl * yg <= nl * yg * xg) by (nonlinear_arith)
        requires
            xg >= 1,
            nl * yg >= 0,
    ;
}

pub proof fn lemma_at3_injective(
    l: int, x: int, y: int, l2: int, x2: int, y2: int, nl: int, xg: int, yg: int,
)
    requires
        in_grid3(l, x, y, nl, xg, yg),
        in_grid3(l2, x2, y2, nl, xg, yg),
        at3(l, x, y, xg, yg) == at3(l2, x2, y2, xg, yg),
    ensures
        l == l2,
        x == x2,
        y == y2,
{
    lemma_at3(l, x, y, nl, xg, yg);
    lemma_at3(l2, x2, y2, nl, xg, yg);
    lemma_at2_injective(x, l * yg + y, x2, l2 * yg + y2, xg, nl * yg);
    lemma_at2_injective(y, l, y2, l2, yg, nl);
}

} // verus!
