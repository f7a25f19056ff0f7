//! Flood fill of the 4-connected region around a start position.

use vstd::prelude::*;
use vstd::slice::slice_to_vec;
use vstd::string::StringExecFns;
use crate::grid::{
    cell, dimensions, index_of, inside, lemma_cell_distinct, lemma_cell_in_range, lemma_index_is_cell,
    lemma_same_on_cells, param_as_u8, saturate_u8, uniform,
};
use crate::outcome::ProcessResult;

verus! {

/// `(x, y)` can be reached from `(sx, sy)` in at most `n` steps to the left,
/// right, up or down, every position on the way (both ends included) lying in
/// the grid and holding the value `v` in `p`.
pub open spec fn linked(
    p: Seq<u8>,
    w: int,
    h: int,
    v: u8,
    sx: int,
    sy: int,
    x: int,
    y: int,
    n: nat,
) -> bool
    decreases n,
{
    &&& inside(w, h, x, y)
    &&& p[cell(w, x, y)] == v
    &&& {
        ||| x == sx && y == sy
        ||| n > 0 && {
            ||| linked(p, w, h, v, sx, sy, x - 1, y, (n - 1) as nat)
            ||| linked(p, w, h, v, sx, sy, x + 1, y, (n - 1) as nat)
            ||| linked(p, w, h, v, sx, sy, x, y - 1, (n - 1) as nat)
            ||| linked(p, w, h, v, sx, sy, x, y + 1, (n - 1) as nat)
        }
    }
}

/// `(x, y)` is 4-connected to `(sx, sy)` through positions that hold `v`.
pub open spec fn reaches(p: Seq<u8>, w: int, h: int, v: u8, sx: int, sy: int, x: int, y: int) -> bool {
    exists|n: nat| linked(p, w, h, v, sx, sy, x, y, n)
}

/// `(x, y)` belongs to the region that a fill started at `(sx, sy)` repaints:
/// the positions 4-connected to the start through the start's own value.
pub open spec fn in_region(p: Seq<u8>, w: int, h: int, sx: int, sy: int, x: int, y: int) -> bool {
    reaches(p, w, h, p[cell(w, sx, sy)], sx, sy, x, y)
}

/// `out` is `p` with the region around `(sx, sy)` repainted to `fill` and
/// every other position unchanged.
pub open spec fn flooded(p: Seq<u8>, w: int, h: int, sx: int, sy: int, fill: u8, out: Seq<u8>) -> bool {
    &&& out.len() == p.len()
    &&& forall|x: int, y: int|
        inside(w, h, x, y) ==> out[#[trigger] cell(w, x, y)] == (if in_region(p, w, h, sx, sy, x, y) {
            fill
        } else {
            p[cell(w, x, y)]
        })
}

/// Number of samples of `s` equal to `v`.
spec fn count_of(s: Seq<u8>, v: u8) -> nat
    decreases s.len(),
{
    if s.len() == 0 {
        0
    } else {
        count_of(s.drop_last(), v) + (if s.last() == v {
            1nat
        } else {
            0nat
        })
    }
}

/// Repainting one sample that holds `v` leaves one sample fewer that does.
proof fn lemma_count_drops(s: Seq<u8>, i: int, v: u8, f: u8)
    requires
        0 <= i < s.len(),
        s[i] == v,
        f != v,
    ensures
        count_of(s.update(i, f), v) + 1 == count_of(s, v),
    decreases s.len(),
{
    let t = s.update(i, f);
    if i == s.len() - 1 {
        assert(t.drop_last() =~= s.drop_last());
    } else {
        lemma_count_drops(s.drop_last(), i, v, f);
        assert(t.drop_last() =~= s.drop_last().update(i, f));
    }
}

/// `(x, y)` waits on the stack `s`.
spec fn on_stack(s: Seq<(usize, usize)>, x: int, y: int) -> bool {
    exists|k: int| 0 <= k < s.len() && (#[trigger] s[k]).0 == x && s[k].1 == y
}

/// A position of the grid that holds `v` in the input is repainted or waits
/// on the stack.
spec fn covered(p: Seq<u8>, out: Seq<u8>, s: Seq<(usize, usize)>, w: int, h: int, v: u8, x: int, y: int) -> bool {
    inside(w, h, x, y) && p[cell(w, x, y)] == v ==> out[cell(w, x, y)] != v || on_stack(s, x, y)
}

/// The sample at `(x, y)` is the input's, or it is `f` in place of `v` at a
/// position that the start reaches.
spec fn sound_at(p: Seq<u8>, out: Seq<u8>, w: int, h: int, v: u8, f: u8, sx: int, sy: int, x: int, y: int) -> bool {
    let c = cell(w, x, y);
    if p[c] != v {
        out[c] == p[c]
    } else {
        out[c] == v || (out[c] == f && reaches(p, w, h, v, sx, sy, x, y))
    }
}

/// A stack entry lies in the grid, and the start reaches it if it holds `v`
/// in the input.
spec fn entry_ok(p: Seq<u8>, w: int, h: int, v: u8, sx: int, sy: int, e: (usize, usize)) -> bool {
    &&& inside(w, h, e.0 as int, e.1 as int)
    &&& p[cell(w, e.0 as int, e.1 as int)] == v ==> reaches(p, w, h, v, sx, sy, e.0 as int, e.1 as int)
}

/// The four neighbours of a repainted position are covered.
spec fn closed_at(p: Seq<u8>, out: Seq<u8>, s: Seq<(usize, usize)>, w: int, h: int, v: u8, x: int, y: int) -> bool {
    p[cell(w, x, y)] == v && out[cell(w, x, y)] != v ==> {
        &&& covered(p, out, s, w, h, v, x - 1, y)
        &&& covered(p, out, s, w, h, v, x + 1, y)
        &&& covered(p, out, s, w, h, v, x, y - 1)
        &&& covered(p, out, s, w, h, v, x, y + 1)
    }
}

/// What holds between two steps of the fill: a repainted position belongs to
/// the region, a pending position is in the grid, and every region neighbour
/// of a repainted position is repainted itself or pending.
spec fn fill_state(
    p: Seq<u8>,
    out: Seq<u8>,
    s: Seq<(usize, usize)>,
    w: int,
    h: int,
    v: u8,
    f: u8,
    sx: int,
    sy: int,
) -> bool {
    &&& out.len() == p.len()
    &&& p.len() == w * h
    &&& v != f
    &&& inside(w, h, sx, sy)
    &&& p[cell(w, sx, sy)] == v
    &&& forall|x: int, y: int| inside(w, h, x, y) ==> #[trigger] sound_at(p, out, w, h, v, f, sx, sy, x, y)
    &&& forall|k: int| 0 <= k < s.len() ==> entry_ok(p, w, h, v, sx, sy, #[trigger] s[k])
    &&& forall|x: int, y: int| inside(w, h, x, y) ==> #[trigger] closed_at(p, out, s, w, h, v, x, y)
    &&& covered(p, out, s, w, h, v, sx, sy)
}

/// `(a, b)` is the left, right, upper or lower neighbour of `(x, y)`.
spec fn beside(x: int, y: int, a: int, b: int) -> bool {
    (b == y && (a == x - 1 || a == x + 1)) || (a == x && (b == y - 1 || b == y + 1))
}

/// The state before the first step: nothing repainted, the start waiting.
proof fn lemma_start(p: Seq<u8>, w: int, h: int, v: u8, f: u8, sx: int, sy: int, s: Seq<(usize, usize)>)
    requires
        p.len() == w * h,
        inside(w, h, sx, sy),
        p[cell(w, sx, sy)] == v,
        v != f,
        s.len() == 1,
        s[0].0 == sx,
        s[0].1 == sy,
    ensures
        fill_state(p, p, s, w, h, v, f, sx, sy),
{
    assert(linked(p, w, h, v, sx, sy, sx, sy, 0));
    assert(on_stack(s, sx, sy));
}

/// Taking off an entry whose position no longer holds `v` keeps a position
/// covered.
proof fn lemma_covered_after_pop(
    p: Seq<u8>,
    out: Seq<u8>,
    s: Seq<(usize, usize)>,
    w: int,
    h: int,
    v: u8,
    x: int,
    y: int,
)
    requires
        s.len() > 0,
        covered(p, out, s, w, h, v, x, y),
        out[cell(w, s.last().0 as int, s.last().1 as int)] != v,
    ensures
        covered(p, out, s.drop_last(), w, h, v, x, y),
{
    if inside(w, h, x, y) && p[cell(w, x, y)] == v && out[cell(w, x, y)] == v {
        let k = choose|k: int| 0 <= k < s.len() && (#[trigger] s[k]).0 == x && s[k].1 == y;
        assert(k < s.len() - 1);
        assert(s.drop_last()[k] == s[k]);
    }
}

/// A step that takes off an entry and repaints nothing keeps the state.
proof fn lemma_skip(p: Seq<u8>, out: Seq<u8>, s: Seq<(usize, usize)>, w: int, h: int, v: u8, f: u8, sx: int, sy: int)
    requires
        fill_state(p, out, s, w, h, v, f, sx, sy),
        s.len() > 0,
        out[cell(w, s.last().0 as int, s.last().1 as int)] != v,
    ensures
        fill_state(p, out, s.drop_last(), w, h, v, f, sx, sy),
{
    let t = s.drop_last();
    assert forall|k: int| 0 <= k < t.len() implies entry_ok(p, w, h, v, sx, sy, #[trigger] t[k]) by {
        assert(t[k] == s[k]);
    }
    assert forall|x: int, y: int| inside(w, h, x, y) implies #[trigger] closed_at(p, out, t, w, h, v, x, y) by {
        assert(closed_at(p, out, s, w, h, v, x, y));
        if p[cell(w, x, y)] == v && out[cell(w, x, y)] != v {
            lemma_covered_after_pop(p, out, s, w, h, v, x - 1, y);
            lemma_covered_after_pop(p, out, s, w, h, v, x + 1, y);
            lemma_covered_after_pop(p, out, s, w, h, v, x, y - 1);
            lemma_covered_after_pop(p, out, s, w, h, v, x, y + 1);
        }
    }
    lemma_covered_after_pop(p, out, s, w, h, v, sx, sy);
}

/// Repainting the top entry's position, with any entries put in its place,
/// keeps a position covered.
proof fn lemma_covered_after_paint(
    p: Seq<u8>,
    out: Seq<u8>,
    s: Seq<(usize, usize)>,
    s2: Seq<(usize, usize)>,
    w: int,
    h: int,
    v: u8,
    f: u8,
    x: int,
    y: int,
)
    requires
        out.len() == p.len(),
        p.len() == w * h,
        v != f,
        s.len() > 0,
        inside(w, h, s.last().0 as int, s.last().1 as int),
        s2.len() >= s.len() - 1,
        forall|k: int| 0 <= k < s.len() - 1 ==> s2[k] == s[k],
        covered(p, out, s, w, h, v, x, y),
    ensures
        covered(p, out.update(cell(w, s.last().0 as int, s.last().1 as int), f), s2, w, h, v, x, y),
{
    let tx = s.last().0 as int;
    let ty = s.last().1 as int;
    lemma_cell_in_range(w, h, tx, ty);
    if inside(w, h, x, y) && p[cell(w, x, y)] == v {
        lemma_cell_in_range(w, h, x, y);
        if x == tx && y == ty {
        } else {
            lemma_cell_distinct(w, x, y, tx, ty);
            if out[cell(w, x, y)] == v {
                let k = choose|k: int| 0 <= k < s.len() && (#[trigger] s[k]).0 == x && s[k].1 == y;
                assert(s2[k] == s[k]);
            }
        }
    }
}

/// A neighbour that holds `v` of a position that the start reaches is
/// reached too.
proof fn lemma_one_more_step(p: Seq<u8>, w: int, h: int, v: u8, sx: int, sy: int, x: int, y: int, a: int, b: int)
    requires
        reaches(p, w, h, v, sx, sy, x, y),
        beside(x, y, a, b),
        inside(w, h, a, b),
        p[cell(w, a, b)] == v,
    ensures
        reaches(p, w, h, v, sx, sy, a, b),
{
    let n = choose|n: nat| linked(p, w, h, v, sx, sy, x, y, n);
    assert(linked(p, w, h, v, sx, sy, a, b, n + 1));
}

/// A step that repaints the top entry's position and puts its neighbours
/// inside the grid on the stack keeps the state.
proof fn lemma_paint(
    p: Seq<u8>,
    out: Seq<u8>,
    s: Seq<(usize, usize)>,
    s2: Seq<(usize, usize)>,
    w: int,
    h: int,
    v: u8,
    f: u8,
    sx: int,
    sy: int,
)
    requires
        fill_state(p, out, s, w, h, v, f, sx, sy),
        s.len() > 0,
        out[cell(w, s.last().0 as int, s.last().1 as int)] == v,
        s2.len() >= s.len() - 1,
        forall|k: int| 0 <= k < s.len() - 1 ==> s2[k] == s[k],
        forall|k: int|
            s.len() - 1 <= k < s2.len() ==> inside(w, h, (#[trigger] s2[k]).0 as int, s2[k].1 as int) && beside(
                s.last().0 as int,
                s.last().1 as int,
                s2[k].0 as int,
                s2[k].1 as int,
            ),
        forall|a: int, b: int|
            inside(w, h, a, b) && #[trigger] beside(s.last().0 as int, s.last().1 as int, a, b) ==> on_stack(
                s2,
                a,
                b,
            ),
    ensures
        fill_state(p, out.update(cell(w, s.last().0 as int, s.last().1 as int), f), s2, w, h, v, f, sx, sy),
{
    let tx = s.last().0 as int;
    let ty = s.last().1 as int;
    let ct = cell(w, tx, ty);
    let out2 = out.update(ct, f);
    assert(entry_ok(p, w, h, v, sx, sy, s[s.len() - 1]));
    lemma_cell_in_range(w, h, tx, ty);
    assert(sound_at(p, out, w, h, v, f, sx, sy, tx, ty));
    assert(p[ct] == v);
    assert forall|x: int, y: int| inside(w, h, x, y) implies #[trigger] sound_at(
        p,
        out2,
        w,
        h,
        v,
        f,
        sx,
        sy,
        x,
        y,
    ) by {
        assert(sound_at(p, out, w, h, v, f, sx, sy, x, y));
        lemma_cell_in_range(w, h, x, y);
        if x != tx || y != ty {
            lemma_cell_distinct(w, x, y, tx, ty);
        }
    }
    assert forall|k: int| 0 <= k < s2.len() implies entry_ok(p, w, h, v, sx, sy, #[trigger] s2[k]) by {
        if k < s.len() - 1 {
            assert(entry_ok(p, w, h, v, sx, sy, s[k]));
        } else {
            let a = s2[k].0 as int;
            let b = s2[k].1 as int;
            if p[cell(w, a, b)] == v {
                lemma_one_more_step(p, w, h, v, sx, sy, tx, ty, a, b);
            }
        }
    }
    assert forall|x: int, y: int| inside(w, h, x, y) implies #[trigger] closed_at(p, out2, s2, w, h, v, x, y) by {
        if x == tx && y == ty {
            assert(beside(tx, ty, x - 1, y));
            assert(beside(tx, ty, x + 1, y));
            assert(beside(tx, ty, x, y - 1));
            assert(beside(tx, ty, x, y + 1));
        } else {
            lemma_cell_distinct(w, x, y, tx, ty);
            lemma_cell_in_range(w, h, x, y);
            assert(closed_at(p, out, s, w, h, v, x, y));
            if p[cell(w, x, y)] == v && out2[cell(w, x, y)] != v {
                lemma_covered_after_paint(p, out, s, s2, w, h, v, f, x - 1, y);
                lemma_covered_after_paint(p, out, s, s2, w, h, v, f, x + 1, y);
                lemma_covered_after_paint(p, out, s, s2, w, h, v, f, x, y - 1);
                lemma_covered_after_paint(p, out, s, s2, w, h, v, f, x, y + 1);
            }
        }
    }
    lemma_covered_after_paint(p, out, s, s2, w, h, v, f, sx, sy);
}

/// With nothing waiting, every position that the start reaches is repainted.
proof fn lemma_region_painted(
    p: Seq<u8>,
    out: Seq<u8>,
    w: int,
    h: int,
    v: u8,
    f: u8,
    sx: int,
    sy: int,
    x: int,
    y: int,
    n: nat,
)
    requires
        fill_state(p, out, Seq::<(usize, usize)>::empty(), w, h, v, f, sx, sy),
        linked(p, w, h, v, sx, sy, x, y, n),
    ensures
        out[cell(w, x, y)] != v,
    decreases n,
{
    let e = Seq::<(usize, usize)>::empty();
    if x == sx && y == sy {
    } else {
        let m = (n - 1) as nat;
        if linked(p, w, h, v, sx, sy, x - 1, y, m) {
            lemma_region_painted(p, out, w, h, v, f, sx, sy, x - 1, y, m);
            assert(closed_at(p, out, e, w, h, v, x - 1, y));
        } else if linked(p, w, h, v, sx, sy, x + 1, y, m) {
            lemma_region_painted(p, out, w, h, v, f, sx, sy, x + 1, y, m);
            assert(closed_at(p, out, e, w, h, v, x + 1, y));
        } else if linked(p, w, h, v, sx, sy, x, y - 1, m) {
            lemma_region_painted(p, out, w, h, v, f, sx, sy, x, y - 1, m);
            assert(closed_at(p, out, e, w, h, v, x, y - 1));
        } else {
            assert(linked(p, w, h, v, sx, sy, x, y + 1, m));
            lemma_region_painted(p, out, w, h, v, f, sx, sy, x, y + 1, m);
            assert(closed_at(p, out, e, w, h, v, x, y + 1));
        }
    }
}

/// With nothing waiting, the buffer is the flooded picture.
proof fn lemma_finish(p: Seq<u8>, out: Seq<u8>, w: int, h: int, v: u8, f: u8, sx: int, sy: int)
    requires
        fill_state(p, out, Seq::<(usize, usize)>::empty(), w, h, v, f, sx, sy),
    ensures
        flooded(p, w, h, sx, sy, f, out),
{
    assert forall|x: int, y: int| inside(w, h, x, y) implies out[#[trigger] cell(w, x, y)] == (if in_region(
        p,
        w,
        h,
        sx,
        sy,
        x,
        y,
    ) {
        f
    } else {
        p[cell(w, x, y)]
    }) by {
        assert(sound_at(p, out, w, h, v, f, sx, sy, x, y));
        if reaches(p, w, h, v, sx, sy, x, y) {
            let n = choose|n: nat| linked(p, w, h, v, sx, sy, x, y, n);
            lemma_region_painted(p, out, w, h, v, f, sx, sy, x, y, n);
        }
    }
}

/// The message for a call with fewer than three parameters.
pub open spec fn missing_parameters_message() -> Seq<char> {
    "Flood fill requires x, y, fill_value parameters"@
}

/// The message for a start position outside the grid.
pub open spec fn out_of_bounds_message() -> Seq<char> {
    "Fill coordinates out of bounds"@
}

/// Whether the first two parameters name a position inside the grid.
pub open spec fn start_inside(w: int, h: int, params: Seq<u64>) -> bool {
    params.len() >= 3 && inside(w, h, params[0] as int, params[1] as int)
}

/// What a call returns: a failure with fewer than three parameters or with a
/// start outside the grid; else the picture with the start's region
/// repainted, which is the picture itself where the start already holds the
/// fill value.
pub open spec fn fill_outcome(p: Seq<u8>, w: int, h: int, params: Seq<u64>, r: ProcessResult) -> bool {
    &&& r.well_formed()
    &&& params.len() < 3 ==> !r.succeeded() && r.message() == missing_parameters_message()
    &&& params.len() >= 3 && !start_inside(w, h, params) ==> !r.succeeded() && r.message()
        == out_of_bounds_message()
    &&& start_inside(w, h, params) ==> r.succeeded() && flooded(
        p,
        w,
        h,
        params[0] as int,
        params[1] as int,
        saturate_u8(params[2]),
        r.bytes(),
    )
    &&& start_inside(w, h, params) && p[cell(w, params[0] as int, params[1] as int)] == saturate_u8(params[2])
        ==> r.bytes() == p
}

/// Repaints the region around `(start_x, start_y)` in a copy of the picture.
///
/// Positions wait on a stack; one that still holds the start's value when it
/// is taken off is repainted and its neighbours inside the grid are put on.
pub fn flood(pixels: &[u8], width: u32, height: u32, start_x: usize, start_y: usize, fill_value: u8) -> (out:
    Vec<u8>)
    requires
        pixels@.len() == width as nat * height as nat,
        inside(width as int, height as int, start_x as int, start_y as int),
    ensures
        flooded(pixels@, width as int, height as int, start_x as int, start_y as int, fill_value, out@),
        pixels@[cell(width as int, start_x as int, start_y as int)] == fill_value ==> out@ == pixels@,
{
    let (w, h) = dimensions(pixels, width, height);
    let ghost p = pixels@;

    let mut result = slice_to_vec(pixels);
    let original_value = result[index_of(w, h, start_x, start_y)];
    if original_value == fill_value {
        proof {
            lemma_fill_same_value(p, w as int, h as int, start_x as int, start_y as int);
        }
        return result;
    }
    let mut stack: Vec<(usize, usize)> = Vec::new();
    stack.push((start_x, start_y));
    proof {
        lemma_start(p, w as int, h as int, original_value, fill_value, start_x as int, start_y as int, stack@);
    }

    while stack.len() > 0
        invariant
            p == pixels@,
            w == width,
            h == height,
            w * h <= usize::MAX,
            fill_state(
                p,
                result@,
                stack@,
                w as int,
                h as int,
                original_value,
                fill_value,
                start_x as int,
                start_y as int,
            ),
        decreases count_of(result@, original_value), stack@.len(),
    {
        let ghost before = stack@;
        let ghost painted = result@;
        let (x, y) = stack.pop().unwrap();
        assert(stack@ =~= before.drop_last());
        assert(entry_ok(p, w as int, h as int, original_value, start_x as int, start_y as int, before[before.len() - 1]));
        let idx = index_of(w, h, x, y);
        if result[idx] != original_value {
            proof {
                lemma_skip(
                    p,
                    painted,
                    before,
                    w as int,
                    h as int,
                    original_value,
                    fill_value,
                    start_x as int,
                    start_y as int,
                );
            }
        } else {
            result[idx] = fill_value;
            let ghost popped = stack@;
            if x > 0 {
                stack.push((x - 1, y));
            }
            let ghost with_left = stack@;
            if x + 1 < w {
                stack.push((x + 1, y));
            }
            let ghost with_right = stack@;
            if y > 0 {
                stack.push((x, y - 1));
            }
            let ghost with_up = stack@;
            if y + 1 < h {
                stack.push((x, y + 1));
            }
            proof {
                let s2 = stack@;
                if x > 0 {
                    assert(s2[popped.len() as int] == (((x - 1) as usize, y)));
                }
                if x + 1 < w {
                    assert(s2[with_left.len() as int] == (((x + 1) as usize, y)));
                }
                if y > 0 {
                    assert(s2[with_right.len() as int] == ((x, (y - 1) as usize)));
                }
                if y + 1 < h {
                    assert(s2[with_up.len() as int] == ((x, (y + 1) as usize)));
                }
                assert forall|a: int, b: int|
                    inside(w as int, h as int, a, b) && #[trigger] beside(x as int, y as int, a, b) implies on_stack(
                    s2,
                    a,
                    b,
                ) by {
                    if b == y && a == x - 1 {
                        assert(s2[popped.len() as int].0 == a);
                    } else if b == y && a == x + 1 {
                        assert(s2[with_left.len() as int].0 == a);
                    } else if b == y - 1 {
                        assert(s2[with_right.len() as int].0 == a);
                    } else {
                        assert(s2[with_up.len() as int].0 == a);
                    }
                }
                lemma_paint(
                    p,
                    painted,
                    before,
                    s2,
                    w as int,
                    h as int,
                    original_value,
                    fill_value,
                    start_x as int,
                    start_y as int,
                );
                lemma_count_drops(painted, idx as int, original_value, fill_value);
            }
        }
    }
    proof {
        assert(stack@ =~= Seq::<(usize, usize)>::empty());
        lemma_finish(
            p,
            result@,
            w as int,
            h as int,
            original_value,
            fill_value,
            start_x as int,
            start_y as int,
        );
    }
    result
}

/// Repaints the 4-connected region around a start position.
///
/// `params` holds the start column, the start row and the fill value, the
/// last read as an 8-bit sample. The call fails when a parameter is missing
/// or the start lies outside the grid. Otherwise the result is the input with
/// the region of the start repainted to the fill value; where the start
/// already holds the fill value, that is the input itself.
pub fn flood_fill_impl(pixels: &[u8], width: u32, height: u32, params: &[u64]) -> (r: ProcessResult)
    requires
        start_inside(width as int, height as int, params@) ==> pixels@.len() == width as nat * height as nat,
    ensures
        fill_outcome(pixels@, width as int, height as int, params@, r),
{
    if params.len() < 3 {
        return ProcessResult::fail(String::from_str("Flood fill requires x, y, fill_value parameters"));
    }
    let fill_value = param_as_u8(params[2]);
    if params[0] >= width as u64 || params[1] >= height as u64 {
        return ProcessResult::fail(String::from_str("Fill coordinates out of bounds"));
    }
    ProcessResult::ok(flood(pixels, width, height, params[0] as usize, params[1] as usize, fill_value))
}

/// A fill with the value that the start already has changes nothing: the
/// region holds that value throughout.
pub proof fn lemma_fill_same_value(p: Seq<u8>, w: int, h: int, sx: int, sy: int)
    ensures
        flooded(p, w, h, sx, sy, p[cell(w, sx, sy)], p),
{
}

/// Number of steps between two positions: the sum of the column and row
/// differences.
spec fn distance(sx: int, sy: int, x: int, y: int) -> nat {
    ((if x >= sx {
        x - sx
    } else {
        sx - x
    }) + (if y >= sy {
        y - sy
    } else {
        sy - y
    })) as nat
}

/// In a picture that holds `v` throughout, any position is linked to any
/// start in as many steps as lie between them.
proof fn lemma_uniform_linked(p: Seq<u8>, w: int, h: int, v: u8, sx: int, sy: int, x: int, y: int, n: nat)
    requires
        p.len() == w * h,
        uniform(p, v),
        inside(w, h, sx, sy),
        inside(w, h, x, y),
        n == distance(sx, sy, x, y),
    ensures
        linked(p, w, h, v, sx, sy, x, y, n),
    decreases n,
{
    lemma_cell_in_range(w, h, x, y);
    if x == sx && y == sy {
    } else if x > sx {
        lemma_uniform_linked(p, w, h, v, sx, sy, x - 1, y, (n - 1) as nat);
    } else if x < sx {
        lemma_uniform_linked(p, w, h, v, sx, sy, x + 1, y, (n - 1) as nat);
    } else if y > sy {
        lemma_uniform_linked(p, w, h, v, sx, sy, x, y - 1, (n - 1) as nat);
    } else {
        lemma_uniform_linked(p, w, h, v, sx, sy, x, y + 1, (n - 1) as nat);
    }
}

/// In a picture that holds one value throughout, the region of any start is
/// the whole picture: a fill repaints every sample.
pub proof fn lemma_fill_uniform(p: Seq<u8>, w: int, h: int, v: u8, sx: int, sy: int, fill: u8, out: Seq<u8>)
    requires
        p.len() == w * h,
        uniform(p, v),
        inside(w, h, sx, sy),
        flooded(p, w, h, sx, sy, fill, out),
    ensures
        uniform(out, fill),
{
    lemma_cell_in_range(w, h, sx, sy);
    assert forall|i: int| 0 <= i < out.len() implies out[i] == fill by {
        lemma_index_is_cell(w, h, i);
        let x = i % w;
        let y = i / w;
        lemma_uniform_linked(p, w, h, v, sx, sy, x, y, distance(sx, sy, x, y));
        assert(out[cell(w, x, y)] == fill);
    }
}

/// A second fill from the same start with the same value changes nothing:
/// after the first, the start holds the fill value, and so does its region.
pub proof fn lemma_fill_idempotent(
    p: Seq<u8>,
    w: int,
    h: int,
    sx: int,
    sy: int,
    fill: u8,
    once: Seq<u8>,
    twice: Seq<u8>,
)
    requires
        0 <= w,
        p.len() == w * h,
        inside(w, h, sx, sy),
        flooded(p, w, h, sx, sy, fill, once),
        flooded(once, w, h, sx, sy, fill, twice),
    ensures
        twice == once,
{
    assert(linked(p, w, h, p[cell(w, sx, sy)], sx, sy, sx, sy, 0));
    assert(once[cell(w, sx, sy)] == fill);
    assert forall|x: int, y: int| inside(w, h, x, y) implies twice[#[trigger] cell(w, x, y)] == once[cell(
        w,
        x,
        y,
    )] by {
        if in_region(once, w, h, sx, sy, x, y) {
            let n = choose|n: nat| linked(once, w, h, fill, sx, sy, x, y, n);
            assert(linked(once, w, h, fill, sx, sy, x, y, n));
        }
    }
    lemma_same_on_cells(w, h, twice, once);
}

} // verus!
