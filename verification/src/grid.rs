//! What the kernels share: row-major addressing of a `width * height` grid,
//! the reading of positional parameters, and division toward zero.

use vstd::prelude::*;

verus! {

/// Index of column `x` of row `y` in a grid `w` samples wide.
pub open spec fn cell(w: int, x: int, y: int) -> int {
    y * w + x
}

/// Whether `(x, y)` lies in the grid of `w` columns and `h` rows.
pub open spec fn inside(w: int, h: int, x: int, y: int) -> bool {
    0 <= x < w && 0 <= y < h
}

/// Every sample of `p` is `v`.
pub open spec fn uniform(p: Seq<u8>, v: u8) -> bool {
    forall|i: int| 0 <= i < p.len() ==> p[i] == v
}

/// A parameter read as an 8-bit sample: values above 255 saturate.
pub open spec fn saturate_u8(v: u64) -> u8 {
    if v > 255 {
        255u8
    } else {
        v as u8
    }
}

/// The quotient of `a` by a positive `b`, rounded toward zero.
pub open spec fn toward_zero(a: int, b: int) -> int {
    if a >= 0 {
        a / b
    } else {
        -((-a) / b)
    }
}

/// The index of a position inside the grid is inside the buffer.
pub proof fn lemma_cell_in_range(w: int, h: int, x: int, y: int)
    requires
        inside(w, h, x, y),
    ensures
        0 <= y * w <= cell(w, x, y) < w * h,
{
    assert(0 <= y * w && y * w + w <= w * h) by (nonlinear_arith)
        requires
            0 <= x < w,
            0 <= y < h,
    ;
}

/// Two different positions with columns inside the grid have different indices.
pub proof fn lemma_cell_distinct(w: int, x1: int, y1: int, x2: int, y2: int)
    requires
        0 <= x1 < w,
        0 <= x2 < w,
        x1 != x2 || y1 != y2,
    ensures
        cell(w, x1, y1) != cell(w, x2, y2),
{
    if y1 < y2 {
        assert(y2 * w >= y1 * w + w) by (nonlinear_arith)
            requires
                y1 < y2,
                w > 0,
        ;
    } else if y2 < y1 {
        assert(y1 * w >= y2 * w + w) by (nonlinear_arith)
            requires
                y2 < y1,
                w > 0,
        ;
    }
}

/// Every index of the buffer is the index of one position inside the grid:
/// column `i mod w` of row `i div w`.
pub proof fn lemma_index_is_cell(w: int, h: int, i: int)
    requires
        0 <= w,
        0 <= i < w * h,
    ensures
        inside(w, h, i % w, i / w),
        cell(w, i % w, i / w) == i,
{
    assert(w > 0) by (nonlinear_arith)
        requires
            0 <= w,
            0 < w * h,
    ;
    let q = i / w;
    let r = i % w;
    assert(i == w * q + r && 0 <= r < w) by (nonlinear_arith)
        requires
            w > 0,
            q == i / w,
            r == i % w,
    ;
    assert(0 <= q < h && q * w + r == i) by (nonlinear_arith)
        requires
            w > 0,
            0 <= i < w * h,
            i == w * q + r,
            0 <= r < w,
    ;
}

/// Two buffers of a grid that agree at every position inside it are equal.
pub proof fn lemma_same_on_cells(w: int, h: int, a: Seq<u8>, b: Seq<u8>)
    requires
        0 <= w,
        a.len() == w * h,
        b.len() == w * h,
        forall|x: int, y: int| inside(w, h, x, y) ==> a[#[trigger] cell(w, x, y)] == b[cell(w, x, y)],
    ensures
        a == b,
{
    assert forall|i: int| 0 <= i < a.len() implies a[i] == b[i] by {
        lemma_index_is_cell(w, h, i);
        assert(a[cell(w, i % w, i / w)] == b[cell(w, i % w, i / w)]);
    }
    assert(a =~= b);
}

/// Index of `(x, y)` in a buffer that holds the whole grid.
pub fn index_of(w: usize, h: usize, x: usize, y: usize) -> (i: usize)
    requires
        inside(w as int, h as int, x as int, y as int),
        w * h <= usize::MAX,
    ensures
        i == cell(w as int, x as int, y as int),
        i < w * h,
{
    proof {
        lemma_cell_in_range(w as int, h as int, x as int, y as int);
    }
    y * w + x
}

/// The grid's width and height as buffer offsets, for a buffer that holds
/// exactly the grid.
pub fn dimensions(pixels: &[u8], width: u32, height: u32) -> (r: (usize, usize))
    requires
        pixels@.len() == width as nat * height as nat,
    ensures
        r.0 == width,
        r.1 == height,
        r.0 * r.1 == pixels@.len(),
        r.0 * r.1 <= usize::MAX,
{
    let total = pixels.len();
    let w = width as usize;
    let h = height as usize;
    assert(w * h == total) by (nonlinear_arith)
        requires
            w == width,
            h == height,
            total == width as nat * height as nat,
    ;
    (w, h)
}

/// Reads a parameter as an 8-bit sample.
pub fn param_as_u8(v: u64) -> (r: u8)
    ensures
        r == saturate_u8(v),
{
    if v > 255 {
        255
    } else {
        v as u8
    }
}

} // verus!
