//! Ordered dithering against a fixed threshold matrix.

use vstd::prelude::*;
use vstd::string::StringExecFns;
use crate::grid::{
    cell, dimensions, index_of, inside, lemma_cell_distinct, lemma_cell_in_range, param_as_u8, saturate_u8,
    toward_zero,
};
use crate::outcome::ProcessResult;
use crate::text::{decimal, with_number};

verus! {

/// The 2×2 threshold matrix, row by row.
pub const BAYER_2X2: [u8; 4] = [0, 128, 192, 64];

/// The 4×4 threshold matrix, row by row.
pub const BAYER_4X4: [u8; 16] = [0, 128, 32, 160, 192, 64, 224, 96, 48, 176, 16, 144, 240, 112, 208, 80];

/// The 8×8 threshold matrix, row by row.
pub const BAYER_8X8: [u8; 64] = [
    0, 128, 32, 160, 8, 136, 40, 168,
    192, 64, 224, 96, 200, 72, 232, 104,
    48, 176, 16, 144, 56, 184, 24, 152,
    240, 112, 208, 80, 248, 120, 216, 88,
    12, 140, 44, 172, 4, 132, 36, 164,
    204, 76, 236, 108, 196, 68, 228, 100,
    60, 188, 28, 156, 52, 180, 20, 148,
    252, 124, 220, 92, 244, 116, 212, 84,
];

/// The matrix sizes on offer.
pub open spec fn supported_size(n: u64) -> bool {
    n == 2 || n == 4 || n == 8
}

/// The entry at `row` and `col` of the matrix of the given size.
pub open spec fn matrix_value(size: int, row: int, col: int) -> u8 {
    if size == 2 {
        BAYER_2X2@[row * 2 + col]
    } else if size == 4 {
        BAYER_4X4@[row * 4 + col]
    } else {
        BAYER_8X8@[row * 8 + col]
    }
}

/// The threshold that a matrix entry `m` makes of the base threshold: the
/// base plus a quarter of the entry's distance from 128, rounded toward zero.
pub open spec fn adjusted_threshold(base: u8, m: u8) -> int {
    base + toward_zero(m - 128, 4)
}

/// The sample `v` against the threshold adjusted by `m`.
pub open spec fn dither_sample(v: u8, base: u8, m: u8) -> u8 {
    if v > adjusted_threshold(base, m) {
        255u8
    } else {
        0u8
    }
}

/// The output sample at `(x, y)`: the input sample there against the matrix
/// entry at row `y mod size`, column `x mod size`.
pub open spec fn dithered_at(p: Seq<u8>, w: int, size: int, base: u8, x: int, y: int) -> u8 {
    dither_sample(p[cell(w, x, y)], base, matrix_value(size, y % size, x % size))
}

/// `out` is the picture `p` dithered against the matrix of the given size.
pub open spec fn dithered(p: Seq<u8>, w: int, h: int, size: int, base: u8, out: Seq<u8>) -> bool {
    &&& out.len() == p.len()
    &&& forall|x: int, y: int|
        inside(w, h, x, y) ==> out[#[trigger] cell(w, x, y)] == dithered_at(p, w, size, base, x, y)
}

/// The base threshold of a call: the second parameter, or 128 without one.
pub open spec fn base_threshold(params: Seq<u64>) -> u8 {
    if params.len() > 1 {
        saturate_u8(params[1])
    } else {
        128u8
    }
}

/// The message for a call without a matrix size.
pub open spec fn missing_size_message() -> Seq<char> {
    "Bayer dither requires matrix size parameter"@
}

/// The message for a matrix size that is not on offer.
pub open spec fn unsupported_size_message(n: u64) -> Seq<char> {
    "Unsupported Bayer matrix size: "@ + decimal(n as nat)
}

/// What a call returns: a failure without a matrix size or with one that is
/// not on offer, else the dithered picture.
pub open spec fn ordered_outcome(p: Seq<u8>, w: int, h: int, params: Seq<u64>, r: ProcessResult) -> bool {
    &&& r.well_formed()
    &&& params.len() == 0 ==> !r.succeeded() && r.message() == missing_size_message()
    &&& params.len() > 0 && !supported_size(params[0]) ==> !r.succeeded() && r.message()
        == unsupported_size_message(params[0])
    &&& params.len() > 0 && supported_size(params[0]) ==> r.succeeded() && dithered(
        p,
        w,
        h,
        params[0] as int,
        base_threshold(params),
        r.bytes(),
    )
}

/// Reads one entry of the matrix of the given size.
pub fn matrix_lookup(size: usize, row: usize, col: usize) -> (r: u8)
    requires
        size == 2 || size == 4 || size == 8,
        row < size,
        col < size,
    ensures
        r == matrix_value(size as int, row as int, col as int),
{
    if size == 2 {
        BAYER_2X2[row * 2 + col]
    } else if size == 4 {
        BAYER_4X4[row * 4 + col]
    } else {
        BAYER_8X8[row * 8 + col]
    }
}

/// Binarizes one sample against the base threshold adjusted by a matrix entry.
pub fn dither_one(pixel: u8, base: u8, m: u8) -> (r: u8)
    ensures
        r == dither_sample(pixel, base, m),
{
    let distance: i16 = m as i16 - 128;
    let offset: i16 = if distance >= 0 {
        distance / 4
    } else {
        -((-distance) / 4)
    };
    let adjusted: i16 = base as i16 + offset;
    if (pixel as i16) > adjusted {
        255
    } else {
        0
    }
}

/// Dithers every sample against the matrix of the given size.
pub fn dither(pixels: &[u8], width: u32, height: u32, matrix_size: usize, threshold: u8) -> (out: Vec<u8>)
    requires
        pixels@.len() == width as nat * height as nat,
        matrix_size == 2 || matrix_size == 4 || matrix_size == 8,
    ensures
        dithered(pixels@, width as int, height as int, matrix_size as int, threshold, out@),
{
    let (w, h) = dimensions(pixels, width, height);
    let ghost p = pixels@;
    let mut result: Vec<u8> = vec![0u8; pixels.len()];

    let mut y: usize = 0;
    while y < h
        invariant
            y <= h,
            p == pixels@,
            w * h == p.len(),
            w * h <= usize::MAX,
            result@.len() == p.len(),
            matrix_size == 2 || matrix_size == 4 || matrix_size == 8,
            forall|a: int, b: int|
                inside(w as int, h as int, a, b) && b < y ==> result@[#[trigger] cell(w as int, a, b)]
                    == dithered_at(p, w as int, matrix_size as int, threshold, a, b),
        decreases h - y,
    {
        let mut x: usize = 0;
        while x < w
            invariant
                y < h,
                x <= w,
                p == pixels@,
                w * h == p.len(),
                w * h <= usize::MAX,
                result@.len() == p.len(),
                matrix_size == 2 || matrix_size == 4 || matrix_size == 8,
                forall|a: int, b: int|
                    inside(w as int, h as int, a, b) && (b < y || (b == y && a < x)) ==> result@[#[trigger] cell(
                        w as int,
                        a,
                        b,
                    )] == dithered_at(p, w as int, matrix_size as int, threshold, a, b),
            decreases w - x,
        {
            let idx = index_of(w, h, x, y);
            let m = matrix_lookup(matrix_size, y % matrix_size, x % matrix_size);
            let ghost earlier = result@;
            result[idx] = dither_one(pixels[idx], threshold, m);
            proof {
                assert forall|a: int, b: int|
                    inside(w as int, h as int, a, b) && (b < y || (b == y && a < x + 1)) implies result@[#[trigger] cell(
                    w as int,
                    a,
                    b,
                )] == dithered_at(p, w as int, matrix_size as int, threshold, a, b) by {
                    lemma_cell_in_range(w as int, h as int, a, b);
                    if a != x || b != y {
                        lemma_cell_distinct(w as int, a, b, x as int, y as int);
                        assert(result@[cell(w as int, a, b)] == earlier[cell(w as int, a, b)]);
                    }
                }
            }
            x += 1;
        }
        y += 1;
    }
    result
}

/// Dithers a picture to black and white against a threshold matrix.
///
/// `params` holds the matrix size and, optionally, the base threshold, read
/// as an 8-bit sample. The call fails when the size is missing or is not 2, 4
/// or 8; otherwise every output sample is the input sample binarized against
/// the threshold that the matrix gives for its position.
pub fn bayer_dither_impl(pixels: &[u8], width: u32, height: u32, params: &[u64]) -> (r: ProcessResult)
    requires
        params@.len() > 0 && supported_size(params@[0]) ==> pixels@.len() == width as nat * height as nat,
    ensures
        ordered_outcome(pixels@, width as int, height as int, params@, r),
{
    if params.len() == 0 {
        return ProcessResult::fail(String::from_str("Bayer dither requires matrix size parameter"));
    }
    let requested = params[0];
    let threshold: u8 = if params.len() > 1 {
        param_as_u8(params[1])
    } else {
        128
    };
    if !(requested == 2 || requested == 4 || requested == 8) {
        return ProcessResult::fail(with_number("Unsupported Bayer matrix size: ", requested));
    }
    ProcessResult::ok(dither(pixels, width, height, requested as usize, threshold))
}

/// Periodicity: two positions that agree in their column modulo the matrix
/// size, in their row modulo the matrix size and in their input sample get
/// the same output sample.
pub proof fn lemma_dither_periodic(
    p: Seq<u8>,
    w: int,
    size: int,
    base: u8,
    x1: int,
    y1: int,
    x2: int,
    y2: int,
)
    requires
        p[cell(w, x1, y1)] == p[cell(w, x2, y2)],
        x1 % size == x2 % size,
        y1 % size == y2 % size,
    ensures
        dithered_at(p, w, size, base, x1, y1) == dithered_at(p, w, size, base, x2, y2),
{
}

} // verus!
