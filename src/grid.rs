use crate::raster::Raster;
use vstd::laws_eq::obeys_concrete_eq;
use vstd::prelude::*;

verus! {

/// Pixel extent of one block along an axis `total` pixels long: `ceil(total / 16)`.
pub open spec fn cell_len(total: int) -> int {
    (total + 15) / 16
}

/// Pixels `a` and `b` differ at column `x`, row `y`.
pub open spec fn differs_at<P: Copy>(a: Raster<P>, b: Raster<P>, x: int, y: int) -> bool {
    a.at(x, y) != b.at(x, y)
}

/// Pixel `(x, y)` of a `w` × `h` image falls into block `(row, col)`.
pub open spec fn in_block(x: int, y: int, w: int, h: int, row: int, col: int) -> bool {
    &&& 0 <= x < w
    &&& 0 <= y < h
    &&& x / cell_len(w) == col
    &&& y / cell_len(h) == row
}

/// Some pixel of block `(row, col)` differs between `a` and `b`, among the
/// pixels that come before `(px, py)` in row-major order.
pub open spec fn dirty_upto<P: Copy>(
    a: Raster<P>,
    b: Raster<P>,
    row: int,
    col: int,
    px: int,
    py: int,
) -> bool {
    exists|x: int, y: int|
        #![trigger differs_at(a, b, x, y)]
        in_block(x, y, a.width as int, a.height as int, row, col) && (y < py || (y == py && x < px))
            && differs_at(a, b, x, y)
}

/// Some pixel of block `(row, col)` differs between `a` and `b`.
pub open spec fn block_dirty<P: Copy>(a: Raster<P>, b: Raster<P>, row: int, col: int) -> bool {
    exists|x: int, y: int|
        #![trigger differs_at(a, b, x, y)]
        in_block(x, y, a.width as int, a.height as int, row, col) && differs_at(a, b, x, y)
}

/// Every pixel of a `w` × `h` image lies in one of the 16 × 16 blocks.
pub proof fn lemma_block_in_grid(x: int, y: int, w: int, h: int)
    requires
        0 <= x < w,
        0 <= y < h,
    ensures
        cell_len(w) > 0,
        cell_len(h) > 0,
        0 <= x / cell_len(w) < 16,
        0 <= y / cell_len(h) < 16,
{
    vstd::arithmetic::div_mod::lemma_multiply_divide_lt(x, cell_len(w), 16);
    vstd::arithmetic::div_mod::lemma_multiply_divide_lt(y, cell_len(h), 16);
    vstd::arithmetic::div_mod::lemma_div_pos_is_pos(x, cell_len(w));
    vstd::arithmetic::div_mod::lemma_div_pos_is_pos(y, cell_len(h));
}

proof fn lemma_upto_step<P: Copy>(a: Raster<P>, b: Raster<P>, row: int, col: int, x: int, y: int)
    requires
        0 <= x < a.width,
        0 <= y < a.height,
    ensures
        dirty_upto(a, b, row, col, x + 1, y) == (dirty_upto(a, b, row, col, x, y) || (in_block(
            x,
            y,
            a.width as int,
            a.height as int,
            row,
            col,
        ) && differs_at(a, b, x, y))),
{
    if dirty_upto(a, b, row, col, x + 1, y) {
        let (x0, y0) = choose|x0: int, y0: int|
            #![trigger differs_at(a, b, x0, y0)]
            in_block(x0, y0, a.width as int, a.height as int, row, col) && (y0 < y || (y0 == y
                && x0 < x + 1)) && differs_at(a, b, x0, y0);
        if x0 != x || y0 != y {
            assert(in_block(x0, y0, a.width as int, a.height as int, row, col) && (y0 < y || (y0
                == y && x0 < x)) && differs_at(a, b, x0, y0));
        }
    }
    if in_block(x, y, a.width as int, a.height as int, row, col) && differs_at(a, b, x, y) {
        assert(in_block(x, y, a.width as int, a.height as int, row, col) && (y < y || (y == y && x
            < x + 1)) && differs_at(a, b, x, y));
    }
}

proof fn lemma_upto_row<P: Copy>(a: Raster<P>, b: Raster<P>, row: int, col: int, y: int)
    ensures
        dirty_upto(a, b, row, col, a.width as int, y) == dirty_upto(a, b, row, col, 0, y + 1),
        dirty_upto(a, b, row, col, 0, a.height as int) == block_dirty(a, b, row, col),
{
    if dirty_upto(a, b, row, col, a.width as int, y) {
        let (x0, y0) = choose|x0: int, y0: int|
            #![trigger differs_at(a, b, x0, y0)]
            in_block(x0, y0, a.width as int, a.height as int, row, col) && (y0 < y || (y0 == y
                && x0 < a.width)) && differs_at(a, b, x0, y0);
        assert(in_block(x0, y0, a.width as int, a.height as int, row, col) && (y0 < y + 1 || (y0
            == y + 1 && x0 < 0)) && differs_at(a, b, x0, y0));
    }
    if dirty_upto(a, b, row, col, 0, y + 1) {
        let (x0, y0) = choose|x0: int, y0: int|
            #![trigger differs_at(a, b, x0, y0)]
            in_block(x0, y0, a.width as int, a.height as int, row, col) && (y0 < y + 1 || (y0 == y
                + 1 && x0 < 0)) && differs_at(a, b, x0, y0);
        assert(in_block(x0, y0, a.width as int, a.height as int, row, col) && (y0 < y || (y0 == y
            && x0 < a.width)) && differs_at(a, b, x0, y0));
    }
    if block_dirty(a, b, row, col) {
        let (x0, y0) = choose|x0: int, y0: int|
            #![trigger differs_at(a, b, x0, y0)]
            in_block(x0, y0, a.width as int, a.height as int, row, col) && differs_at(a, b, x0, y0);
        assert(in_block(x0, y0, a.width as int, a.height as int, row, col) && (y0 < a.height || (
        y0 == a.height && x0 < 0)) && differs_at(a, b, x0, y0));
    }
}

/// The dirty map of two equally sized frames: entry `row * 16 + col` tells
/// whether some pixel of block `(row, col)` differs between `a` and `b`.
pub fn dirty_blocks<P: Copy + PartialEq>(a: &Raster<P>, b: &Raster<P>) -> (r: Vec<bool>)
    requires
        a.wf(),
        b.wf(),
        a.width == b.width,
        a.height == b.height,
        obeys_concrete_eq::<P>(),
    ensures
        r@.len() == 256,
        forall|k: int| 0 <= k < 256 ==> #[trigger] r@[k] == block_dirty(*a, *b, k / 16, k % 16),
{
    let w: u32 = a.width;
    let h: u32 = a.height;
    let cw: u32 = ((w as u64 + 15) / 16) as u32;
    let ch: u32 = ((h as u64 + 15) / 16) as u32;
    let _n: usize = a.pixels.len();
    let mut dirty: Vec<bool> = Vec::new();
    let mut k: usize = 0;
    while k < 256
        invariant
            k <= 256,
            dirty@.len() == k,
            forall|j: int| 0 <= j < k ==> dirty@[j] == false,
        decreases 256 - k,
    {
        dirty.push(false);
        k += 1;
    }
    let mut y: u32 = 0;
    while y < h
        invariant
            a.wf(),
            b.wf(),
            a.width == b.width,
            a.height == b.height,
            obeys_concrete_eq::<P>(),
            w == a.width,
            h == a.height,
            cw == cell_len(w as int),
            ch == cell_len(h as int),
            _n == a.pixels@.len(),
            y <= h,
            dirty@.len() == 256,
            forall|j: int|
                0 <= j < 256 ==> #[trigger] dirty@[j] == dirty_upto(*a, *b, j / 16, j % 16, 0, y as int),
        decreases h - y,
    {
        let mut x: u32 = 0;
        while x < w
            invariant
                a.wf(),
                b.wf(),
                a.width == b.width,
                a.height == b.height,
                obeys_concrete_eq::<P>(),
                w == a.width,
                h == a.height,
                cw == cell_len(w as int),
                ch == cell_len(h as int),
                _n == a.pixels@.len(),
                y < h,
                x <= w,
                dirty@.len() == 256,
                forall|j: int|
                    0 <= j < 256 ==> #[trigger] dirty@[j] == dirty_upto(
                        *a,
                        *b,
                        j / 16,
                        j % 16,
                        x as int,
                        y as int,
                    ),
            decreases w - x,
        {
            proof {
                crate::raster::lemma_index_in_bounds(x as int, y as int, w as int, h as int);
                assert(h as int * w as int == w as int * h as int) by (nonlinear_arith);
                lemma_block_in_grid(x as int, y as int, w as int, h as int);
            }
            let i: usize = y as usize * w as usize + x as usize;
            let differ: bool = a.pixels[i] != b.pixels[i];
            let ghost before = dirty@;
            if differ {
                let blk: usize = (y / ch) as usize * 16 + (x / cw) as usize;
                dirty.set(blk, true);
            }
            proof {
                assert(a.pixels@[i as int] == a.at(x as int, y as int));
                assert(b.pixels@[i as int] == b.at(x as int, y as int));
                reveal(obeys_concrete_eq);
                assert(differ == differs_at(*a, *b, x as int, y as int));
                assert forall|j: int| 0 <= j < 256 implies #[trigger] dirty@[j] == dirty_upto(
                    *a,
                    *b,
                    j / 16,
                    j % 16,
                    x + 1,
                    y as int,
                ) by {
                    lemma_upto_step(*a, *b, j / 16, j % 16, x as int, y as int);
                }
            }
            x += 1;
        }
        proof {
            assert forall|j: int| 0 <= j < 256 implies #[trigger] dirty@[j] == dirty_upto(
                *a,
                *b,
                j / 16,
                j % 16,
                0,
                y + 1,
            ) by {
                lemma_upto_row(*a, *b, j / 16, j % 16, y as int);
            }
        }
        y += 1;
    }
    proof {
        assert forall|j: int| 0 <= j < 256 implies #[trigger] dirty@[j] == block_dirty(
            *a,
            *b,
            j / 16,
            j % 16,
        ) by {
            lemma_upto_row(*a, *b, j / 16, j % 16, 0);
        }
    }
    dirty
}

} // verus!
