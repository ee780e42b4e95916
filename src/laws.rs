use crate::engine::{block_list, block_order, dirty_pred, push_outcome, Frame, FrameContext, FrameError};
use crate::grid::{block_dirty, cell_len, differs_at, in_block};
use crate::raster::Raster;
use std::time::Duration;
use vstd::prelude::*;

verus! {

/// A coordinate lies in the `col`-th cell of length `c` exactly when it
/// divides down to `col`.
proof fn lemma_cell_range(x: int, c: int, col: int)
    requires
        c > 0,
        x >= 0,
    ensures
        x / c == col <==> col * c <= x < col * c + c,
{
    vstd::arithmetic::div_mod::lemma_fundamental_div_mod(x, c);
    vstd::arithmetic::div_mod::lemma_mod_pos_bound(x, c);
    assert(c * (x / c) == (x / c) * c) by (nonlinear_arith);
    if col * c <= x < col * c + c {
        vstd::arithmetic::div_mod::lemma_fundamental_div_mod_converse(x, c, col, x - col * c);
    }
}

/// A dirty block starts inside the image.
proof fn lemma_dirty_origin<P: Copy>(a: Raster<P>, b: Raster<P>, row: int, col: int)
    requires
        block_dirty(a, b, row, col),
    ensures
        0 <= col * cell_len(a.width as int) < a.width,
        0 <= row * cell_len(a.height as int) < a.height,
        0 <= col < 16,
        0 <= row < 16,
{
    let (x0, y0) = choose|x0: int, y0: int|
        #![trigger differs_at(a, b, x0, y0)]
        in_block(x0, y0, a.width as int, a.height as int, row, col) && differs_at(a, b, x0, y0);
    crate::grid::lemma_block_in_grid(x0, y0, a.width as int, a.height as int);
    lemma_cell_range(x0, cell_len(a.width as int), col);
    lemma_cell_range(y0, cell_len(a.height as int), row);
    assert(0 <= col * cell_len(a.width as int)) by (nonlinear_arith)
        requires
            0 <= col,
            0 < cell_len(a.width as int),
    ;
    assert(0 <= row * cell_len(a.height as int)) by (nonlinear_arith)
        requires
            0 <= row,
            0 < cell_len(a.height as int),
    ;
}

/// Pushing a frame identical to the stored one while partial frames are
/// still allowed yields a partial frame without tiles, not a keyframe.
pub proof fn law_identical_frame_yields_no_tiles<P: Copy>(
    pre: FrameContext<P>,
    timestamp: Duration,
    frame: Raster<P>,
    post: FrameContext<P>,
    r: Result<Frame<P>, FrameError>,
)
    requires
        pre.wf(),
        frame.same_as(pre.frame),
        pre.current < pre.limits,
        push_outcome(pre, timestamp, frame, post, r),
    ensures
        r is Ok,
        r->Ok_0 is PartialFrame,
        r->Ok_0->PartialFrame_0@.len() == 0,
        post.current == pre.current + 1,
{
    let pred = dirty_pred(pre.frame, frame);
    assert forall|blk: (int, int)| !#[trigger] pred(blk) by {
        if block_dirty(pre.frame, frame, blk.0, blk.1) {
            let (x0, y0) = choose|x0: int, y0: int|
                #![trigger differs_at(pre.frame, frame, x0, y0)]
                in_block(x0, y0, pre.frame.width as int, pre.frame.height as int, blk.0, blk.1)
                    && differs_at(pre.frame, frame, x0, y0);
        }
    }
    block_order(256).lemma_all_neg_filter_empty(pred);
}

/// Once `limits` pushes in a row have yielded partial frames, the next push
/// of a frame of the stored dimensions yields that frame as a keyframe and
/// resets the counter, whatever the frame holds.
pub proof fn law_keyframe_after_limit<P: Copy>(
    states: Seq<FrameContext<P>>,
    stamps: Seq<Duration>,
    frames: Seq<Raster<P>>,
    results: Seq<Result<Frame<P>, FrameError>>,
)
    requires
        states.len() == states[0].limits + 2,
        stamps.len() == states[0].limits + 1,
        frames.len() == states[0].limits + 1,
        results.len() == states[0].limits + 1,
        states[0].wf(),
        forall|i: int|
            0 <= i <= states[0].limits ==> #[trigger] push_outcome(
                states[i],
                stamps[i],
                frames[i],
                states[i + 1],
                results[i],
            ),
        forall|i: int|
            0 <= i < states[0].limits ==> #[trigger] results[i] is Ok && results[i]->Ok_0 is PartialFrame,
        frames[states[0].limits as int].width == states[0].width,
        frames[states[0].limits as int].height == states[0].height,
    ensures
        results[states[0].limits as int] == Ok::<Frame<P>, FrameError>(
            Frame::KeyFrame(frames[states[0].limits as int]),
        ),
        states[states[0].limits + 1].current == 0,
{
    let n = states[0].limits as int;
    lemma_partial_run(states, stamps, frames, results, n);
    assert(push_outcome(states[n], stamps[n], frames[n], states[n + 1], results[n]));
}

/// After `i` partial pushes in a row the counter has grown by `i`, and the
/// limit and dimensions are those of the start.
proof fn lemma_partial_run<P: Copy>(
    states: Seq<FrameContext<P>>,
    stamps: Seq<Duration>,
    frames: Seq<Raster<P>>,
    results: Seq<Result<Frame<P>, FrameError>>,
    i: int,
)
    requires
        0 <= i <= states[0].limits,
        states.len() == states[0].limits + 2,
        results.len() == states[0].limits + 1,
        forall|j: int|
            0 <= j <= states[0].limits ==> #[trigger] push_outcome(
                states[j],
                stamps[j],
                frames[j],
                states[j + 1],
                results[j],
            ),
        forall|j: int|
            0 <= j < states[0].limits ==> #[trigger] results[j] is Ok && results[j]->Ok_0 is PartialFrame,
    ensures
        states[i].limits == states[0].limits,
        states[i].width == states[0].width,
        states[i].height == states[0].height,
        states[i].current == states[0].current + i,
    decreases i,
{
    if i > 0 {
        let j = i - 1;
        lemma_partial_run(states, stamps, frames, results, j);
        assert(push_outcome(states[j], stamps[j], frames[j], states[j + 1], results[j]));
        assert(results[j] is Ok && results[j]->Ok_0 is PartialFrame);
    }
}

/// The counter grows by one on each push that yields a partial frame, drops
/// to zero on each push that yields a keyframe, and stays put on a refused
/// push.
pub proof fn law_counter_steps<P: Copy>(
    pre: FrameContext<P>,
    timestamp: Duration,
    frame: Raster<P>,
    post: FrameContext<P>,
    r: Result<Frame<P>, FrameError>,
)
    requires
        push_outcome(pre, timestamp, frame, post, r),
    ensures
        r is Ok && r->Ok_0 is PartialFrame ==> post.current == pre.current + 1,
        r is Ok && r->Ok_0 is KeyFrame ==> post.current == 0,
        r is Err ==> post.current == pre.current,
{
}

/// Every tile of a partial frame starts inside the image and does not reach
/// past its right or bottom edge.
pub proof fn law_tiles_inside_image<P: Copy>(
    pre: FrameContext<P>,
    timestamp: Duration,
    frame: Raster<P>,
    post: FrameContext<P>,
    r: Result<Frame<P>, FrameError>,
)
    requires
        pre.wf(),
        push_outcome(pre, timestamp, frame, post, r),
        r is Ok,
        r->Ok_0 is PartialFrame,
    ensures
        forall|i: int|
            0 <= i < r->Ok_0->PartialFrame_0@.len() ==> {
                let t = #[trigger] r->Ok_0->PartialFrame_0@[i];
                &&& t.x < pre.width
                &&& t.y < pre.height
                &&& t.image.width <= pre.width - t.x
                &&& t.image.height <= pre.height - t.y
            },
{
    let tiles = r->Ok_0->PartialFrame_0@;
    let blocks = block_list(pre.frame, frame);
    assert forall|i: int| 0 <= i < tiles.len() implies {
        let t = #[trigger] tiles[i];
        &&& t.x < pre.width
        &&& t.y < pre.height
        &&& t.image.width <= pre.width - t.x
        &&& t.image.height <= pre.height - t.y
    } by {
        block_order(256).lemma_filter_pred(dirty_pred(pre.frame, frame), i);
        assert(crate::engine::is_tile_of(tiles[i], frame, blocks[i].0, blocks[i].1));
        lemma_dirty_origin(pre.frame, frame, blocks[i].0, blocks[i].1);
    }
}

/// Block `(row, col)` is emitted as a tile, at its origin, exactly when some
/// pixel inside its extent differs between the stored frame and the pushed
/// one.
pub proof fn law_tile_iff_block_changed<P: Copy>(
    pre: FrameContext<P>,
    timestamp: Duration,
    frame: Raster<P>,
    post: FrameContext<P>,
    r: Result<Frame<P>, FrameError>,
    row: int,
    col: int,
)
    requires
        pre.wf(),
        push_outcome(pre, timestamp, frame, post, r),
        r is Ok,
        r->Ok_0 is PartialFrame,
        0 <= row < 16,
        0 <= col < 16,
    ensures
        ({
            let tiles = r->Ok_0->PartialFrame_0@;
            let cw = cell_len(pre.width as int);
            let ch = cell_len(pre.height as int);
            (exists|i: int|
                0 <= i < tiles.len() && #[trigger] tiles[i].x == col * cw && tiles[i].y == row * ch)
                <==> (exists|x: int, y: int|
                #![trigger pre.frame.at(x, y)]
                col * cw <= x < col * cw + cw && row * ch <= y < row * ch + ch && 0 <= x
                    < pre.width && 0 <= y < pre.height && pre.frame.at(x, y) != frame.at(x, y))
        }),
{
    let tiles = r->Ok_0->PartialFrame_0@;
    let cw = cell_len(pre.width as int);
    let ch = cell_len(pre.height as int);
    let w = pre.width as int;
    let h = pre.height as int;
    let pred = dirty_pred(pre.frame, frame);
    let blocks = block_list(pre.frame, frame);
    assert(cw > 0 && ch > 0);
    if exists|i: int|
        0 <= i < tiles.len() && #[trigger] tiles[i].x == col * cw && tiles[i].y == row * ch {
        let i = choose|i: int|
            0 <= i < tiles.len() && #[trigger] tiles[i].x == col * cw && tiles[i].y == row * ch;
        block_order(256).lemma_filter_pred(pred, i);
        assert(crate::engine::is_tile_of(tiles[i], frame, blocks[i].0, blocks[i].1));
        let (r0, c0) = blocks[i];
        vstd::arithmetic::mul::lemma_mul_is_commutative(c0, cw);
        vstd::arithmetic::mul::lemma_mul_is_commutative(col, cw);
        vstd::arithmetic::mul::lemma_mul_is_commutative(r0, ch);
        vstd::arithmetic::mul::lemma_mul_is_commutative(row, ch);
        vstd::arithmetic::mul::lemma_mul_equality_converse(cw, c0, col);
        vstd::arithmetic::mul::lemma_mul_equality_converse(ch, r0, row);
        let (x0, y0) = choose|x0: int, y0: int|
            #![trigger differs_at(pre.frame, frame, x0, y0)]
            in_block(x0, y0, w, h, r0, c0) && differs_at(pre.frame, frame, x0, y0);
        lemma_cell_range(x0, cw, col);
        lemma_cell_range(y0, ch, row);
        assert(col * cw <= x0 < col * cw + cw && row * ch <= y0 < row * ch + ch && 0 <= x0 < w
            && 0 <= y0 < h && pre.frame.at(x0, y0) != frame.at(x0, y0));
    }
    if exists|x: int, y: int|
        #![trigger pre.frame.at(x, y)]
        col * cw <= x < col * cw + cw && row * ch <= y < row * ch + ch && 0 <= x < w && 0 <= y < h
            && pre.frame.at(x, y) != frame.at(x, y) {
        let (x0, y0) = choose|x: int, y: int|
            #![trigger pre.frame.at(x, y)]
            col * cw <= x < col * cw + cw && row * ch <= y < row * ch + ch && 0 <= x < w && 0 <= y
                < h && pre.frame.at(x, y) != frame.at(x, y);
        lemma_cell_range(x0, cw, col);
        lemma_cell_range(y0, ch, row);
        assert(in_block(x0, y0, w, h, row, col) && differs_at(pre.frame, frame, x0, y0));
        assert(block_dirty(pre.frame, frame, row, col));
        let k = row * 16 + col;
        assert(block_order(256)[k] == (row, col));
        block_order(256).lemma_filter_contains(pred, k);
        assert(blocks.contains((row, col)));
        let i = choose|i: int| 0 <= i < blocks.len() && blocks[i] == (row, col);
        assert(crate::engine::is_tile_of(tiles[i], frame, blocks[i].0, blocks[i].1));
        assert(0 <= i < tiles.len() && tiles[i].x == col * cw && tiles[i].y == row * ch);
    }
}

/// Filtering a sequence without repeats leaves none.
proof fn lemma_filter_no_duplicates(s: Seq<(int, int)>, p: spec_fn((int, int)) -> bool)
    requires
        s.no_duplicates(),
    ensures
        s.filter(p).no_duplicates(),
    decreases s.len(),
{
    reveal(Seq::filter);
    if s.len() > 0 {
        let d = s.drop_last();
        assert(d.no_duplicates());
        lemma_filter_no_duplicates(d, p);
        if p(s.last()) {
            let f = d.filter(p);
            assert forall|i: int| 0 <= i < f.len() implies f[i] != s.last() by {
                assert(f.contains(f[i]));
                d.lemma_filter_contains_rev(p, f[i]);
            }
            assert(s.filter(p) == f.push(s.last()));
        }
    }
}

/// Some pixel inside the extent of block `(row, col)`, cut at the edges of
/// the image, differs between `a` and `b`.
pub open spec fn extent_changed<P: Copy>(a: Raster<P>, b: Raster<P>, row: int, col: int) -> bool {
    let cw = cell_len(a.width as int);
    let ch = cell_len(a.height as int);
    exists|x: int, y: int|
        #![trigger a.at(x, y)]
        col * cw <= x < col * cw + cw && row * ch <= y < row * ch + ch && 0 <= x < a.width && 0
            <= y < a.height && a.at(x, y) != b.at(x, y)
}

/// The origins of the tiles of a partial frame are distinct, one tile for
/// each block, and they are exactly the origins `(col * cw, row * ch)` of
/// the blocks of the 16 × 16 grid that hold a pixel in which the stored
/// frame and the pushed one differ.
pub proof fn law_tile_origins_are_changed_blocks<P: Copy>(
    pre: FrameContext<P>,
    timestamp: Duration,
    frame: Raster<P>,
    post: FrameContext<P>,
    r: Result<Frame<P>, FrameError>,
)
    requires
        pre.wf(),
        push_outcome(pre, timestamp, frame, post, r),
        r is Ok,
        r->Ok_0 is PartialFrame,
    ensures
        ({
            let tiles = r->Ok_0->PartialFrame_0@;
            let cw = cell_len(pre.width as int);
            let ch = cell_len(pre.height as int);
            &&& forall|i: int, j: int|
                0 <= i < j < tiles.len() ==> (#[trigger] tiles[i].x, tiles[i].y) != (
                    #[trigger] tiles[j].x,
                    tiles[j].y,
                )
            &&& Set::new(
                |o: (int, int)|
                    exists|i: int|
                        0 <= i < tiles.len() && o == (#[trigger] tiles[i].x as int, tiles[i].y as int),
            ) == Set::new(
                |o: (int, int)|
                    exists|row: int, col: int|
                        0 <= row < 16 && 0 <= col < 16 && o == (col * cw, row * ch)
                            && #[trigger] extent_changed(pre.frame, frame, row, col),
            )
        }),
{
    let tiles = r->Ok_0->PartialFrame_0@;
    let cw = cell_len(pre.width as int);
    let ch = cell_len(pre.height as int);
    let pred = dirty_pred(pre.frame, frame);
    let blocks = block_list(pre.frame, frame);
    assert(cw > 0 && ch > 0);
    assert(block_order(256).no_duplicates());
    lemma_filter_no_duplicates(block_order(256), pred);
    assert forall|i: int, j: int| 0 <= i < j < tiles.len() implies (
    #[trigger] tiles[i].x, tiles[i].y) != (#[trigger] tiles[j].x, tiles[j].y) by {
        assert(crate::engine::is_tile_of(tiles[i], frame, blocks[i].0, blocks[i].1));
        assert(crate::engine::is_tile_of(tiles[j], frame, blocks[j].0, blocks[j].1));
        let (ri, ci) = blocks[i];
        let (rj, cj) = blocks[j];
        assert(blocks[i] != blocks[j]);
        if tiles[i].x == tiles[j].x && tiles[i].y == tiles[j].y {
            vstd::arithmetic::mul::lemma_mul_is_commutative(ci, cw);
            vstd::arithmetic::mul::lemma_mul_is_commutative(cj, cw);
            vstd::arithmetic::mul::lemma_mul_is_commutative(ri, ch);
            vstd::arithmetic::mul::lemma_mul_is_commutative(rj, ch);
            vstd::arithmetic::mul::lemma_mul_equality_converse(cw, ci, cj);
            vstd::arithmetic::mul::lemma_mul_equality_converse(ch, ri, rj);
        }
    }
    let left = Set::new(
        |o: (int, int)|
            exists|i: int| 0 <= i < tiles.len() && o == (#[trigger] tiles[i].x as int, tiles[i].y as int),
    );
    let right = Set::new(
        |o: (int, int)|
            exists|row: int, col: int|
                0 <= row < 16 && 0 <= col < 16 && o == (col * cw, row * ch)
                    && #[trigger] extent_changed(pre.frame, frame, row, col),
    );
    assert forall|o: (int, int)| left.contains(o) implies right.contains(o) by {
        let i = choose|i: int|
            0 <= i < tiles.len() && o == (#[trigger] tiles[i].x as int, tiles[i].y as int);
        block_order(256).lemma_filter_pred(pred, i);
        assert(crate::engine::is_tile_of(tiles[i], frame, blocks[i].0, blocks[i].1));
        let (r0, c0) = blocks[i];
        lemma_dirty_origin(pre.frame, frame, r0, c0);
        law_tile_iff_block_changed(pre, timestamp, frame, post, r, r0, c0);
        assert(0 <= i < tiles.len() && #[trigger] tiles[i].x == c0 * cw && tiles[i].y == r0 * ch);
        assert(extent_changed(pre.frame, frame, r0, c0));
        assert(0 <= r0 < 16 && 0 <= c0 < 16 && o == (c0 * cw, r0 * ch));
    }
    assert forall|o: (int, int)| right.contains(o) implies left.contains(o) by {
        let (row, col) = choose|row: int, col: int|
            0 <= row < 16 && 0 <= col < 16 && o == (col * cw, row * ch)
                && #[trigger] extent_changed(pre.frame, frame, row, col);
        law_tile_iff_block_changed(pre, timestamp, frame, post, r, row, col);
        let i = choose|i: int|
            0 <= i < tiles.len() && #[trigger] tiles[i].x == col * cw && tiles[i].y == row * ch;
        assert(0 <= i < tiles.len() && o == (tiles[i].x as int, tiles[i].y as int));
    }
    assert(left =~= right);
}

/// A partial frame holds one tile for each block of the 16 × 16 grid that has
/// a changed pixel in its extent, so its length is the number of such blocks.
pub proof fn law_tile_count_is_changed_blocks<P: Copy>(
    pre: FrameContext<P>,
    timestamp: Duration,
    frame: Raster<P>,
    post: FrameContext<P>,
    r: Result<Frame<P>, FrameError>,
)
    requires
        pre.wf(),
        push_outcome(pre, timestamp, frame, post, r),
        r is Ok,
        r->Ok_0 is PartialFrame,
    ensures
        r->Ok_0->PartialFrame_0@.len() == Set::new(
            |blk: (int, int)|
                0 <= blk.0 < 16 && 0 <= blk.1 < 16 && extent_changed(pre.frame, frame, blk.0, blk.1),
        ).len(),
{
    let tiles = r->Ok_0->PartialFrame_0@;
    let cw = cell_len(pre.width as int);
    let ch = cell_len(pre.height as int);
    let pred = dirty_pred(pre.frame, frame);
    let blocks = block_list(pre.frame, frame);
    let changed = Set::new(
        |blk: (int, int)|
            0 <= blk.0 < 16 && 0 <= blk.1 < 16 && extent_changed(pre.frame, frame, blk.0, blk.1),
    );
    assert(cw > 0 && ch > 0);
    assert(block_order(256).no_duplicates());
    lemma_filter_no_duplicates(block_order(256), pred);
    assert forall|blk: (int, int)| blocks.contains(blk) implies changed.contains(blk) by {
        let i = choose|i: int| 0 <= i < blocks.len() && blocks[i] == blk;
        block_order(256).lemma_filter_pred(pred, i);
        assert(crate::engine::is_tile_of(tiles[i], frame, blocks[i].0, blocks[i].1));
        lemma_dirty_origin(pre.frame, frame, blk.0, blk.1);
        law_tile_iff_block_changed(pre, timestamp, frame, post, r, blk.0, blk.1);
        assert(0 <= i < tiles.len() && #[trigger] tiles[i].x == blk.1 * cw && tiles[i].y == blk.0
            * ch);
        assert(extent_changed(pre.frame, frame, blk.0, blk.1));
    }
    assert forall|blk: (int, int)| changed.contains(blk) implies blocks.contains(blk) by {
        let (row, col) = blk;
        assert(extent_changed(pre.frame, frame, row, col));
        law_tile_iff_block_changed(pre, timestamp, frame, post, r, row, col);
        let i = choose|i: int|
            0 <= i < tiles.len() && #[trigger] tiles[i].x == col * cw && tiles[i].y == row * ch;
        assert(crate::engine::is_tile_of(tiles[i], frame, blocks[i].0, blocks[i].1));
        let (r0, c0) = blocks[i];
        vstd::arithmetic::mul::lemma_mul_is_commutative(c0, cw);
        vstd::arithmetic::mul::lemma_mul_is_commutative(col, cw);
        vstd::arithmetic::mul::lemma_mul_is_commutative(r0, ch);
        vstd::arithmetic::mul::lemma_mul_is_commutative(row, ch);
        vstd::arithmetic::mul::lemma_mul_equality_converse(cw, c0, col);
        vstd::arithmetic::mul::lemma_mul_equality_converse(ch, r0, row);
        assert(blocks[i] == blk);
    }
    assert(blocks.to_set() =~= changed);
    blocks.unique_seq_to_set();
}

} // verus!
