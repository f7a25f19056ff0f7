//! Error-diffusion dithering: a row-major scan that binarizes each sample and
//! hands its residual on to the neighbours that the scan has yet to reach.

use vstd::prelude::*;
use vstd::slice::slice_to_vec;
use vstd::string::StringExecFns;
use crate::grid::{
    cell, dimensions, index_of, inside, lemma_cell_distinct, lemma_cell_in_range, lemma_index_is_cell,
    param_as_u8, saturate_u8, toward_zero,
};
use crate::outcome::ProcessResult;

verus! {

/// `v` limited to the range of a sample.
pub open spec fn clamp(v: int) -> u8 {
    if v < 0 {
        0u8
    } else if v > 255 {
        255u8
    } else {
        v as u8
    }
}

/// The part of the residual `err` that goes to a neighbour of weight `k`
/// sixteenths: multiplied first, then divided toward zero.
pub open spec fn share(err: int, k: int) -> int {
    toward_zero(err * k, 16)
}

/// The sample `v` against the threshold `t`: white above it, black otherwise.
pub open spec fn binarize(v: u8, t: u8) -> u8 {
    if v > t {
        255u8
    } else {
        0u8
    }
}

/// `buf` with `delta` added to the sample at `i`, the sum clamped.
pub open spec fn nudged(buf: Seq<u8>, i: int, delta: int) -> Seq<u8> {
    buf.update(i, clamp(buf[i] + delta))
}

/// One step of the scan, at `(x, y)`: the sample is binarized and its
/// residual goes to the right (7/16), below-left (3/16), below (5/16) and
/// below-right (1/16) neighbours, in that order, as far as they lie in the
/// grid.
pub open spec fn diffuse_at(buf: Seq<u8>, w: int, h: int, x: int, y: int, t: u8) -> Seq<u8> {
    let i = cell(w, x, y);
    let err = buf[i] - binarize(buf[i], t);
    let b0 = buf.update(i, binarize(buf[i], t));
    let b1 = if x + 1 < w {
        nudged(b0, cell(w, x + 1, y), share(err, 7))
    } else {
        b0
    };
    let b2 = if y + 1 < h && x > 0 {
        nudged(b1, cell(w, x - 1, y + 1), share(err, 3))
    } else {
        b1
    };
    let b3 = if y + 1 < h {
        nudged(b2, cell(w, x, y + 1), share(err, 5))
    } else {
        b2
    };
    if y + 1 < h && x + 1 < w {
        nudged(b3, cell(w, x + 1, y + 1), share(err, 1))
    } else {
        b3
    }
}

/// `buf` after the scan has passed the first `n` positions of row `y`.
pub open spec fn scan_row(buf: Seq<u8>, w: int, h: int, y: int, t: u8, n: nat) -> Seq<u8>
    decreases n,
{
    if n == 0 {
        buf
    } else {
        diffuse_at(scan_row(buf, w, h, y, t, (n - 1) as nat), w, h, n - 1, y, t)
    }
}

/// `buf` after the scan has passed the first `n` rows.
pub open spec fn scan_rows(buf: Seq<u8>, w: int, h: int, t: u8, n: nat) -> Seq<u8>
    decreases n,
{
    if n == 0 {
        buf
    } else {
        scan_row(scan_rows(buf, w, h, t, (n - 1) as nat), w, h, n - 1, t, w as nat)
    }
}

/// The picture `p` dithered against the threshold `t`: the whole scan.
pub open spec fn diffused(p: Seq<u8>, w: int, h: int, t: u8) -> Seq<u8> {
    scan_rows(p, w, h, t, h as nat)
}

/// The message for a call without a threshold.
pub open spec fn missing_threshold_message() -> Seq<char> {
    "Floyd-Steinberg requires threshold parameter"@
}

/// What a call returns: a failure without a threshold, else the picture
/// after the whole scan.
pub open spec fn diffusion_outcome(p: Seq<u8>, w: int, h: int, params: Seq<u64>, r: ProcessResult) -> bool {
    &&& r.well_formed()
    &&& params.len() == 0 ==> !r.succeeded() && r.message() == missing_threshold_message()
    &&& params.len() > 0 ==> r.succeeded() && r.bytes() == diffused(p, w, h, saturate_u8(params[0]))
}

/// Limits a value to the range of a sample.
pub fn clamp_pixel(value: i16) -> (r: u8)
    ensures
        r == clamp(value as int),
{
    if value < 0 {
        0
    } else if value > 255 {
        255
    } else {
        value as u8
    }
}

/// The share of weight `k` sixteenths of a residual.
fn share_of(error: i16, k: i16) -> (r: i16)
    requires
        -255 <= error <= 255,
        1 <= k <= 7,
    ensures
        r == share(error as int, k as int),
        -255 <= r <= 255,
{
    assert(-1785 <= error * k <= 1785) by (nonlinear_arith)
        requires
            -255 <= error <= 255,
            1 <= k <= 7,
    ;
    let scaled: i16 = error * k;
    if scaled >= 0 {
        scaled / 16
    } else {
        -((-scaled) / 16)
    }
}

/// Adds `delta` to the sample at `i`, clamped.
fn nudge(buf: &mut Vec<u8>, i: usize, delta: i16)
    requires
        i < old(buf)@.len(),
        -255 <= delta <= 255,
    ensures
        final(buf)@ == nudged(old(buf)@, i as int, delta as int),
{
    let moved = clamp_pixel(buf[i] as i16 + delta);
    buf[i] = moved;
}

/// One step of the scan, at `(x, y)`.
fn diffuse_step(buf: &mut Vec<u8>, w: usize, h: usize, x: usize, y: usize, threshold: u8)
    requires
        inside(w as int, h as int, x as int, y as int),
        old(buf)@.len() == w * h,
        w * h <= usize::MAX,
    ensures
        final(buf)@ == diffuse_at(old(buf)@, w as int, h as int, x as int, y as int, threshold),
        final(buf)@.len() == old(buf)@.len(),
{
    let idx = index_of(w, h, x, y);
    let old_pixel = buf[idx];
    let new_pixel: u8 = if old_pixel > threshold {
        255
    } else {
        0
    };
    buf[idx] = new_pixel;
    let error: i16 = old_pixel as i16 - new_pixel as i16;
    if x + 1 < w {
        let right = index_of(w, h, x + 1, y);
        nudge(buf, right, share_of(error, 7));
    }
    if y + 1 < h {
        if x > 0 {
            let below_left = index_of(w, h, x - 1, y + 1);
            nudge(buf, below_left, share_of(error, 3));
        }
        let below = index_of(w, h, x, y + 1);
        nudge(buf, below, share_of(error, 5));
        if x + 1 < w {
            let below_right = index_of(w, h, x + 1, y + 1);
            nudge(buf, below_right, share_of(error, 1));
        }
    }
}

/// Runs the whole scan over a copy of the picture.
pub fn diffuse(pixels: &[u8], width: u32, height: u32, threshold: u8) -> (out: Vec<u8>)
    requires
        pixels@.len() == width as nat * height as nat,
    ensures
        out@ == diffused(pixels@, width as int, height as int, threshold),
        out@.len() == pixels@.len(),
        forall|i: int| 0 <= i < out@.len() ==> is_binary(#[trigger] out@[i]),
{
    let (w, h) = dimensions(pixels, width, height);
    let mut result = slice_to_vec(pixels);
    let ghost p = pixels@;
    proof {
        lemma_diffused_binary(p, w as int, h as int, threshold);
    }

    let mut y: usize = 0;
    while y < h
        invariant
            y <= h,
            w * h <= usize::MAX,
            result@.len() == w * h,
            result@ == scan_rows(p, w as int, h as int, threshold, y as nat),
        decreases h - y,
    {
        let ghost row_start = result@;
        let mut x: usize = 0;
        while x < w
            invariant
                y < h,
                x <= w,
                w * h <= usize::MAX,
                result@.len() == w * h,
                result@ == scan_row(row_start, w as int, h as int, y as int, threshold, x as nat),
            decreases w - x,
        {
            diffuse_step(&mut result, w, h, x, y, threshold);
            x += 1;
        }
        y += 1;
    }
    result
}

/// Dithers a picture to black and white by error diffusion.
///
/// `params` holds the threshold, read as an 8-bit sample. The call fails only
/// when it is missing; otherwise the result is the picture after the whole
/// scan.
pub fn floyd_steinberg_impl(pixels: &[u8], width: u32, height: u32, params: &[u64]) -> (r: ProcessResult)
    requires
        params@.len() > 0 ==> pixels@.len() == width as nat * height as nat,
    ensures
        diffusion_outcome(pixels@, width as int, height as int, params@, r),
{
    if params.len() == 0 {
        return ProcessResult::fail(String::from_str("Floyd-Steinberg requires threshold parameter"));
    }
    let threshold = param_as_u8(params[0]);
    ProcessResult::ok(diffuse(pixels, width, height, threshold))
}

/// Two calls on the same picture with the same parameters return the same
/// samples: the result is a function of the arguments.
pub proof fn lemma_diffusion_deterministic(
    p: Seq<u8>,
    w: int,
    h: int,
    params: Seq<u64>,
    first: ProcessResult,
    second: ProcessResult,
)
    requires
        diffusion_outcome(p, w, h, params, first),
        diffusion_outcome(p, w, h, params, second),
    ensures
        first.succeeded() == second.succeeded(),
        first.bytes() == second.bytes(),
        first.message() == second.message(),
{
    if params.len() == 0 {
        assert(first.bytes() =~= second.bytes());
    } else {
        assert(first.message() =~= second.message());
    }
}

/// Whether a sample is black or white.
pub open spec fn is_binary(v: u8) -> bool {
    v == 0 || v == 255
}

/// `(a, b)` lies in the grid and comes before `(x, y)` in scan order.
spec fn passed(w: int, h: int, x: int, y: int, a: int, b: int) -> bool {
    inside(w, h, a, b) && (b < y || (b == y && a < x))
}

/// Every position before `(x, y)` in scan order holds black or white.
spec fn settled(buf: Seq<u8>, w: int, h: int, x: int, y: int) -> bool {
    &&& buf.len() == w * h
    &&& forall|a: int, b: int| passed(w, h, x, y, a, b) ==> is_binary(buf[#[trigger] cell(w, a, b)])
}

/// A step binarizes its position and leaves the positions before it alone.
proof fn lemma_step_settles(buf: Seq<u8>, w: int, h: int, x: int, y: int, t: u8)
    requires
        settled(buf, w, h, x, y),
        inside(w, h, x, y),
    ensures
        settled(diffuse_at(buf, w, h, x, y, t), w, h, x + 1, y),
{
    let out = diffuse_at(buf, w, h, x, y, t);
    lemma_cell_in_range(w, h, x, y);
    if x + 1 < w {
        lemma_cell_in_range(w, h, x + 1, y);
    }
    if y + 1 < h {
        lemma_cell_in_range(w, h, x, y + 1);
        if x > 0 {
            lemma_cell_in_range(w, h, x - 1, y + 1);
        }
        if x + 1 < w {
            lemma_cell_in_range(w, h, x + 1, y + 1);
        }
    }
    assert(out.len() == buf.len());
    assert forall|a: int, b: int| passed(w, h, x + 1, y, a, b) implies is_binary(
        out[#[trigger] cell(w, a, b)],
    ) by {
        lemma_cell_in_range(w, h, a, b);
        if x + 1 < w {
            lemma_cell_distinct(w, a, b, x + 1, y);
            lemma_cell_distinct(w, a, b, x + 1, y + 1);
        }
        if x > 0 {
            lemma_cell_distinct(w, a, b, x - 1, y + 1);
        }
        lemma_cell_distinct(w, a, b, x, y + 1);
        if a != x || b != y {
            lemma_cell_distinct(w, a, b, x, y);
            assert(passed(w, h, x, y, a, b));
            assert(out[cell(w, a, b)] == buf[cell(w, a, b)]);
        } else {
            assert(out[cell(w, a, b)] == binarize(buf[cell(w, x, y)], t));
        }
    }
}

/// After `n` steps in a row, the first `n` positions of the row are settled.
proof fn lemma_row_settles(buf: Seq<u8>, w: int, h: int, y: int, t: u8, n: nat)
    requires
        settled(buf, w, h, 0, y),
        0 <= y < h,
        n <= w,
    ensures
        settled(scan_row(buf, w, h, y, t, n), w, h, n as int, y),
    decreases n,
{
    if n > 0 {
        lemma_row_settles(buf, w, h, y, t, (n - 1) as nat);
        lemma_step_settles(scan_row(buf, w, h, y, t, (n - 1) as nat), w, h, n - 1, y, t);
    }
}

/// After `n` rows, those rows are settled.
proof fn lemma_rows_settle(p: Seq<u8>, w: int, h: int, t: u8, n: nat)
    requires
        0 <= w,
        p.len() == w * h,
        n <= h,
    ensures
        settled(scan_rows(p, w, h, t, n), w, h, 0, n as int),
    decreases n,
{
    if n > 0 {
        let above = scan_rows(p, w, h, t, (n - 1) as nat);
        lemma_rows_settle(p, w, h, t, (n - 1) as nat);
        lemma_row_settles(above, w, h, n - 1, t, w as nat);
        let now = scan_rows(p, w, h, t, n);
        assert forall|a: int, b: int| passed(w, h, 0, n as int, a, b) implies is_binary(
            now[#[trigger] cell(w, a, b)],
        ) by {
            assert(passed(w, h, w, n - 1, a, b));
        }
    }
}

/// The dithered picture has the size of the input, and each of its samples
/// is black or white: the scan passes every position, leaves it binarized,
/// and hands residuals only to positions it has yet to reach.
pub proof fn lemma_diffused_binary(p: Seq<u8>, w: int, h: int, t: u8)
    requires
        0 <= w,
        0 <= h,
        p.len() == w * h,
    ensures
        diffused(p, w, h, t).len() == p.len(),
        forall|i: int| 0 <= i < p.len() ==> is_binary(#[trigger] diffused(p, w, h, t)[i]),
{
    lemma_rows_settle(p, w, h, t, h as nat);
    let out = diffused(p, w, h, t);
    assert forall|i: int| 0 <= i < p.len() implies is_binary(#[trigger] out[i]) by {
        lemma_index_is_cell(w, h, i);
        assert(passed(w, h, 0, h, i % w, i / w));
        assert(is_binary(out[cell(w, i % w, i / w)]));
    }
}

} // verus!
