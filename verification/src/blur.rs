//! Box blur: every output sample is the mean of the input samples in a
//! square window around it, clipped at the picture's edges.

use vstd::prelude::*;
use vstd::string::StringExecFns;
use crate::grid::{
    cell, dimensions, index_of, inside, lemma_cell_distinct, lemma_cell_in_range, lemma_index_is_cell,
    lemma_same_on_cells, uniform,
};
use crate::outcome::ProcessResult;

verus! {

/// First coordinate of the window around `c`: `c - r`, but not below 0.
pub open spec fn lower(c: int, r: int) -> int {
    if c - r < 0 {
        0
    } else {
        c - r
    }
}

/// End of the window around `c` (exclusive): `c + r + 1`, but not above `limit`.
pub open spec fn upper(c: int, r: int, limit: int) -> int {
    if c + r + 1 > limit {
        limit
    } else {
        c + r + 1
    }
}

/// Sum of the samples of row `y` in the columns from `x0` up to, not
/// including, `x1`.
pub open spec fn row_sum(p: Seq<u8>, w: int, y: int, x0: int, x1: int) -> int
    decreases x1 - x0,
{
    if x1 <= x0 {
        0
    } else {
        row_sum(p, w, y, x0, x1 - 1) + p[cell(w, x1 - 1, y)]
    }
}

/// Sum of the samples in the columns `x0..x1` of the rows `y0..y1`.
pub open spec fn window_sum(p: Seq<u8>, w: int, x0: int, x1: int, y0: int, y1: int) -> int
    decreases y1 - y0,
{
    if y1 <= y0 {
        0
    } else {
        window_sum(p, w, x0, x1, y0, y1 - 1) + row_sum(p, w, y1 - 1, x0, x1)
    }
}

/// Number of positions in the columns `x0..x1` of the rows `y0..y1`.
pub open spec fn area(x0: int, x1: int, y0: int, y1: int) -> int {
    (x1 - x0) * (y1 - y0)
}

/// Number of samples that the window of radius `r` around `(x, y)` holds.
pub open spec fn window_count(w: int, h: int, r: int, x: int, y: int) -> int {
    area(lower(x, r), upper(x, r, w), lower(y, r), upper(y, r, h))
}

/// The output sample at `(x, y)`: the sum of the window divided by the
/// number of its samples, rounded down.
pub open spec fn blurred_at(p: Seq<u8>, w: int, h: int, r: int, x: int, y: int) -> int {
    window_sum(p, w, lower(x, r), upper(x, r, w), lower(y, r), upper(y, r, h)) / window_count(w, h, r, x, y)
}

/// `out` is the picture `p` blurred with radius `r`.
pub open spec fn blurred(p: Seq<u8>, w: int, h: int, r: int, out: Seq<u8>) -> bool {
    &&& out.len() == p.len()
    &&& forall|x: int, y: int|
        inside(w, h, x, y) ==> out[#[trigger] cell(w, x, y)] == blurred_at(p, w, h, r, x, y)
}

/// The message for a call without a radius.
pub open spec fn missing_radius_message() -> Seq<char> {
    "Box blur requires radius parameter"@
}

/// What a call returns: a failure without a radius, else the blurred
/// picture.
pub open spec fn blur_outcome(p: Seq<u8>, w: int, h: int, params: Seq<u64>, r: ProcessResult) -> bool {
    &&& r.well_formed()
    &&& params.len() == 0 ==> !r.succeeded() && r.message() == missing_radius_message()
    &&& params.len() > 0 ==> r.succeeded() && blurred(p, w, h, params[0] as int, r.bytes())
}

/// The area of a window inside the grid is at most the grid's; one more row
/// adds the window's width.
proof fn lemma_area(w: int, h: int, x0: int, x1: int, y0: int, y1: int)
    requires
        0 <= x0 <= x1 <= w,
        0 <= y0 <= y1 <= h,
    ensures
        0 <= area(x0, x1, y0, y1) <= w * h,
        area(x0, x1, y0, y1 + 1) == area(x0, x1, y0, y1) + (x1 - x0),
        x0 < x1 && y0 < y1 ==> area(x0, x1, y0, y1) > 0,
{
    assert(0 <= (x1 - x0) * (y1 - y0) <= w * h) by (nonlinear_arith)
        requires
            0 <= x0 <= x1 <= w,
            0 <= y0 <= y1 <= h,
    ;
    assert((x1 - x0) * (y1 + 1 - y0) == (x1 - x0) * (y1 - y0) + (x1 - x0)) by (nonlinear_arith);
    assert(x0 < x1 && y0 < y1 ==> (x1 - x0) * (y1 - y0) > 0) by (nonlinear_arith);
}

/// First coordinate of the window around `c`.
fn window_start(c: usize, radius: u64) -> (r: usize)
    ensures
        r == lower(c as int, radius as int),
{
    if radius >= c as u64 {
        0
    } else {
        c - radius as usize
    }
}

/// End of the window around `c`, exclusive.
fn window_end(c: usize, radius: u64, limit: usize) -> (r: usize)
    requires
        c < limit,
    ensures
        r == upper(c as int, radius as int, limit as int),
{
    if radius >= (limit - 1 - c) as u64 {
        limit
    } else {
        c + radius as usize + 1
    }
}

/// Sums one row of a window.
fn row_total(pixels: &[u8], w: usize, h: usize, y: usize, x0: usize, x1: usize) -> (s: u128)
    requires
        pixels@.len() == w * h,
        w * h <= usize::MAX,
        x0 <= x1 <= w,
        y < h,
    ensures
        s == row_sum(pixels@, w as int, y as int, x0 as int, x1 as int),
        s <= 255 * (x1 - x0),
{
    let mut s: u128 = 0;
    let mut x: usize = x0;
    while x < x1
        invariant
            pixels@.len() == w * h,
            w * h <= usize::MAX,
            x0 <= x <= x1 <= w,
            y < h,
            s == row_sum(pixels@, w as int, y as int, x0 as int, x as int),
            s <= 255 * (x - x0),
        decreases x1 - x,
    {
        s = s + pixels[index_of(w, h, x, y)] as u128;
        x += 1;
    }
    s
}

/// Sums a window, row by row.
fn window_total(pixels: &[u8], w: usize, h: usize, x0: usize, x1: usize, y0: usize, y1: usize) -> (s: u128)
    requires
        pixels@.len() == w * h,
        w * h <= usize::MAX,
        x0 <= x1 <= w,
        y0 <= y1 <= h,
    ensures
        s == window_sum(pixels@, w as int, x0 as int, x1 as int, y0 as int, y1 as int),
        s <= 255 * area(x0 as int, x1 as int, y0 as int, y1 as int),
{
    let mut s: u128 = 0;
    let mut y: usize = y0;
    proof {
        lemma_area(w as int, h as int, x0 as int, x1 as int, y0 as int, y0 as int);
    }
    while y < y1
        invariant
            pixels@.len() == w * h,
            w * h <= usize::MAX,
            x0 <= x1 <= w,
            y0 <= y <= y1 <= h,
            s == window_sum(pixels@, w as int, x0 as int, x1 as int, y0 as int, y as int),
            s <= 255 * area(x0 as int, x1 as int, y0 as int, y as int),
            0 <= area(x0 as int, x1 as int, y0 as int, y as int) <= w * h,
        decreases y1 - y,
    {
        proof {
            lemma_area(w as int, h as int, x0 as int, x1 as int, y0 as int, y as int);
            lemma_area(w as int, h as int, x0 as int, x1 as int, y0 as int, y + 1);
        }
        let row = row_total(pixels, w, h, y, x0, x1);
        s = s + row;
        y += 1;
    }
    s
}

/// The rounded-down mean of `count` samples that add up to `total`.
fn mean(total: u128, count: usize) -> (r: u8)
    requires
        count > 0,
        total <= 255 * count,
    ensures
        r == total as int / count as int,
{
    let wide: u128 = count as u128;
    assert(total as int / wide as int <= 255) by (nonlinear_arith)
        requires
            wide > 0,
            total <= 255 * wide,
    ;
    (total / wide) as u8
}

/// Averages the clipped window around every position.
pub fn blur(pixels: &[u8], width: u32, height: u32, radius: u64) -> (out: Vec<u8>)
    requires
        pixels@.len() == width as nat * height as nat,
    ensures
        blurred(pixels@, width as int, height as int, radius as int, out@),
{
    let (w, h) = dimensions(pixels, width, height);
    let ghost p = pixels@;
    let mut result: Vec<u8> = vec![0u8; pixels.len()];

    let mut y: usize = 0;
    while y < h
        invariant
            y <= h,
            p == pixels@,
            w * h == p.len(),
            w * h <= usize::MAX,
            result@.len() == p.len(),
            forall|a: int, b: int|
                inside(w as int, h as int, a, b) && b < y ==> result@[#[trigger] cell(w as int, a, b)]
                    == blurred_at(p, w as int, h as int, radius as int, a, b),
        decreases h - y,
    {
        let y_start = window_start(y, radius);
        let y_end = window_end(y, radius, h);
        let mut x: usize = 0;
        while x < w
            invariant
                y < h,
                x <= w,
                p == pixels@,
                w * h == p.len(),
                w * h <= usize::MAX,
                result@.len() == p.len(),
                y_start == lower(y as int, radius as int),
                y_end == upper(y as int, radius as int, h as int),
                forall|a: int, b: int|
                    inside(w as int, h as int, a, b) && (b < y || (b == y && a < x)) ==> result@[#[trigger] cell(
                        w as int,
                        a,
                        b,
                    )] == blurred_at(p, w as int, h as int, radius as int, a, b),
            decreases w - x,
        {
            let x_start = window_start(x, radius);
            let x_end = window_end(x, radius, w);
            proof {
                lemma_area(w as int, h as int, x_start as int, x_end as int, y_start as int, y_end as int);
            }
            let total = window_total(pixels, w, h, x_start, x_end, y_start, y_end);
            let count = (x_end - x_start) * (y_end - y_start);
            let idx = index_of(w, h, x, y);
            let ghost earlier = result@;
            result[idx] = mean(total, count);
            proof {
                assert forall|a: int, b: int|
                    inside(w as int, h as int, a, b) && (b < y || (b == y && a < x + 1)) implies result@[#[trigger] cell(
                    w as int,
                    a,
                    b,
                )] == blurred_at(p, w as int, h as int, radius as int, a, b) by {
                    lemma_cell_in_range(w as int, h as int, a, b);
                    if a != x || b != y {
                        lemma_cell_distinct(w as int, a, b, x as int, y as int);
                        assert(result@[cell(w as int, a, b)] == earlier[cell(w as int, a, b)]);
                    }
                }
            }
            x += 1;
        }
        y += 1;
    }
    result
}

/// Blurs a picture with a square window.
///
/// `params` holds the radius. The call fails only when it is missing;
/// otherwise every output sample is the rounded-down mean of the input
/// samples within `radius` columns and rows of it, as far as they lie in the
/// picture.
pub fn box_blur_impl(pixels: &[u8], width: u32, height: u32, params: &[u64]) -> (r: ProcessResult)
    requires
        params@.len() > 0 ==> pixels@.len() == width as nat * height as nat,
    ensures
        blur_outcome(pixels@, width as int, height as int, params@, r),
{
    if params.len() == 0 {
        return ProcessResult::fail(String::from_str("Box blur requires radius parameter"));
    }
    ProcessResult::ok(blur(pixels, width, height, params[0]))
}

/// With radius 0 the window of a position is the position alone, so the
/// blur hands the picture back unchanged.
pub proof fn lemma_blur_radius_zero(p: Seq<u8>, w: int, h: int, out: Seq<u8>)
    requires
        0 <= w,
        p.len() == w * h,
        blurred(p, w, h, 0, out),
    ensures
        out == p,
{
    assert forall|x: int, y: int| inside(w, h, x, y) implies out[#[trigger] cell(w, x, y)] == p[cell(
        w,
        x,
        y,
    )] by {
        assert(row_sum(p, w, y, x, x) == 0);
        assert(row_sum(p, w, y, x, x + 1) == p[cell(w, x, y)]);
        assert(window_sum(p, w, x, x + 1, y, y) == 0);
        assert(window_sum(p, w, x, x + 1, y, y + 1) == p[cell(w, x, y)]);
        assert(window_count(w, h, 0, x, y) == 1) by (nonlinear_arith)
            requires
                inside(w, h, x, y),
        ;
        assert(out[cell(w, x, y)] == blurred_at(p, w, h, 0, x, y));
    }
    lemma_same_on_cells(w, h, out, p);
}

/// A row of equal samples adds up to the sample times the row's length.
proof fn lemma_row_sum_uniform(p: Seq<u8>, w: int, h: int, v: u8, y: int, x0: int, x1: int)
    requires
        p.len() == w * h,
        uniform(p, v),
        0 <= x0 <= x1 <= w,
        0 <= y < h,
    ensures
        row_sum(p, w, y, x0, x1) == v * (x1 - x0),
    decreases x1 - x0,
{
    if x1 > x0 {
        lemma_row_sum_uniform(p, w, h, v, y, x0, x1 - 1);
        lemma_cell_in_range(w, h, x1 - 1, y);
        assert(v * (x1 - 1 - x0) + v == v * (x1 - x0)) by (nonlinear_arith);
    } else {
        assert(v * (x1 - x0) == 0) by (nonlinear_arith)
            requires
                x1 == x0,
        ;
    }
}

/// A window of equal samples adds up to the sample times the window's area.
proof fn lemma_window_sum_uniform(p: Seq<u8>, w: int, h: int, v: u8, x0: int, x1: int, y0: int, y1: int)
    requires
        p.len() == w * h,
        uniform(p, v),
        0 <= x0 <= x1 <= w,
        0 <= y0 <= y1 <= h,
    ensures
        window_sum(p, w, x0, x1, y0, y1) == v * area(x0, x1, y0, y1),
    decreases y1 - y0,
{
    if y1 > y0 {
        lemma_window_sum_uniform(p, w, h, v, x0, x1, y0, y1 - 1);
        lemma_row_sum_uniform(p, w, h, v, y1 - 1, x0, x1);
        assert(v * ((x1 - x0) * (y1 - 1 - y0)) + v * (x1 - x0) == v * ((x1 - x0) * (y1 - y0)))
            by (nonlinear_arith);
    } else {
        assert(v * ((x1 - x0) * (y1 - y0)) == 0) by (nonlinear_arith)
            requires
                y1 == y0,
        ;
    }
}

/// A picture that holds one value throughout is blurred to itself, whatever
/// the radius: the mean of equal samples is that sample.
pub proof fn lemma_blur_uniform(p: Seq<u8>, w: int, h: int, r: int, v: u8, out: Seq<u8>)
    requires
        0 <= w,
        p.len() == w * h,
        uniform(p, v),
        0 <= r,
        blurred(p, w, h, r, out),
    ensures
        uniform(out, v),
        out == p,
{
    assert forall|i: int| 0 <= i < out.len() implies out[i] == v by {
        lemma_index_is_cell(w, h, i);
        let x = i % w;
        let y = i / w;
        let x0 = lower(x, r);
        let x1 = upper(x, r, w);
        let y0 = lower(y, r);
        let y1 = upper(y, r, h);
        lemma_window_sum_uniform(p, w, h, v, x0, x1, y0, y1);
        lemma_area(w, h, x0, x1, y0, y1);
        let n = area(x0, x1, y0, y1);
        assert((v * n) / n == v) by (nonlinear_arith)
            requires
                n > 0,
        ;
        assert(out[cell(w, x, y)] == blurred_at(p, w, h, r, x, y));
    }
    assert(out =~= p);
}

/// On a picture that holds one value throughout, blurring twice gives what
/// blurring once gives.
pub proof fn lemma_blur_idempotent_on_uniform(
    p: Seq<u8>,
    w: int,
    h: int,
    r: int,
    v: u8,
    once: Seq<u8>,
    twice: Seq<u8>,
)
    requires
        0 <= w,
        p.len() == w * h,
        uniform(p, v),
        0 <= r,
        blurred(p, w, h, r, once),
        blurred(once, w, h, r, twice),
    ensures
        twice == once,
{
    lemma_blur_uniform(p, w, h, r, v, once);
    lemma_blur_uniform(once, w, h, r, v, twice);
}

/// Whether `(x, y)` is one of the four corners of the grid.
pub open spec fn corner(w: int, h: int, x: int, y: int) -> bool {
    (x == 0 || x == w - 1) && (y == 0 || y == h - 1)
}

/// Whether `(x, y)` lies in the grid and off its border.
pub open spec fn interior(w: int, h: int, x: int, y: int) -> bool {
    1 <= x <= w - 2 && 1 <= y <= h - 2
}

/// With a radius of at least 1, a corner's window holds fewer samples than
/// the window of a position off the border, unless the corner's window
/// already covers the whole picture.
pub proof fn lemma_corner_fewer(w: int, h: int, r: int, cx: int, cy: int, x: int, y: int)
    requires
        1 <= r,
        corner(w, h, cx, cy),
        interior(w, h, x, y),
        r + 1 < w || r + 1 < h,
    ensures
        window_count(w, h, r, cx, cy) < window_count(w, h, r, x, y),
{
    let a1 = upper(cx, r, w) - lower(cx, r);
    let a2 = upper(x, r, w) - lower(x, r);
    let b1 = upper(cy, r, h) - lower(cy, r);
    let b2 = upper(y, r, h) - lower(y, r);
    assert(0 < a1 <= a2 && 0 < b1 <= b2);
    assert(a1 < a2 || b1 < b2);
    assert(a1 * b1 < a2 * b2) by (nonlinear_arith)
        requires
            0 < a1 <= a2,
            0 < b1 <= b2,
            a1 < a2 || b1 < b2,
    ;
}

/// Where the corner's window covers the whole picture, so does every other
/// window: all positions average the same samples.
pub proof fn lemma_whole_picture_window(w: int, h: int, r: int, x: int, y: int)
    requires
        inside(w, h, x, y),
        w <= r + 1,
        h <= r + 1,
    ensures
        window_count(w, h, r, x, y) == w * h,
        window_count(w, h, r, x, y) == window_count(w, h, r, 0, 0),
{
}

} // verus!
