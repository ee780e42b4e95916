use crate::grid::{block_dirty, cell_len, dirty_blocks, in_block};
use crate::raster::Raster;
use std::time::Duration;
use vstd::laws_eq::obeys_concrete_eq;
use vstd::prelude::*;

verus! {

/// One changed block of a frame: its pixel origin and its pixels.
pub struct PartialFrame<P> {
    pub x: u32,
    pub y: u32,
    pub image: Raster<P>,
}

/// What a push emits: the whole frame, or the blocks that changed.
pub enum Frame<P> {
    KeyFrame(Raster<P>),
    PartialFrame(Vec<PartialFrame<P>>),
}

/// Why a frame was refused.
#[derive(Debug, Clone, Copy, PartialEq, Eq, Structural)]
pub enum FrameError {
    /// The frame has no pixels along one of its axes.
    DegenerateImage,
    /// The frame's dimensions differ from the stored frame's.
    DimensionMismatch,
}

/// The stored frame, its time, and how many partial frames were emitted
/// since the last keyframe.
pub struct FrameContext<P> {
    pub current: usize,
    pub limits: usize,
    pub timestamp: Duration,
    pub frame: Raster<P>,
    pub width: u32,
    pub height: u32,
}

/// Block `(row, col)` of the grid for the `k`-th step of a row-major walk.
pub open spec fn block_at(k: int) -> (int, int) {
    (k / 16, k % 16)
}

/// The first `n` blocks of the row-major walk over the 16 × 16 grid.
pub open spec fn block_order(n: int) -> Seq<(int, int)> {
    Seq::new(n as nat, |k: int| block_at(k))
}

/// Holds of the blocks in which `a` and `b` differ.
pub open spec fn dirty_pred<P: Copy>(a: Raster<P>, b: Raster<P>) -> spec_fn((int, int)) -> bool {
    |blk: (int, int)| block_dirty(a, b, blk.0, blk.1)
}

/// The blocks in which `a` and `b` differ, in row-major order.
pub open spec fn block_list<P: Copy>(a: Raster<P>, b: Raster<P>) -> Seq<(int, int)> {
    block_order(256).filter(dirty_pred(a, b))
}

/// `t` is block `(row, col)` of `src`: its origin and its pixels, cut at the
/// edges of `src`.
pub open spec fn is_tile_of<P: Copy>(t: PartialFrame<P>, src: Raster<P>, row: int, col: int) -> bool {
    let cw = cell_len(src.width as int);
    let ch = cell_len(src.height as int);
    &&& t.x == col * cw
    &&& t.y == row * ch
    &&& t.image.is_crop_of(src, col * cw, row * ch, cw, ch)
}

/// `tiles` holds, in row-major order, one tile of `next` for each block in
/// which `prev` and `next` differ, and nothing else.
pub open spec fn tiles_of<P: Copy>(tiles: Seq<PartialFrame<P>>, prev: Raster<P>, next: Raster<P>) -> bool {
    let blocks = block_list(prev, next);
    &&& tiles.len() == blocks.len()
    &&& forall|i: int|
        0 <= i < tiles.len() ==> #[trigger] is_tile_of(tiles[i], next, blocks[i].0, blocks[i].1)
}

/// What a push of `frame` at `timestamp` does to the context `pre`: the
/// context becomes `post`, and `r` is returned.
pub open spec fn push_outcome<P: Copy>(
    pre: FrameContext<P>,
    timestamp: Duration,
    frame: Raster<P>,
    post: FrameContext<P>,
    r: Result<Frame<P>, FrameError>,
) -> bool {
    if frame.width == 0 || frame.height == 0 {
        &&& r == Err::<Frame<P>, FrameError>(FrameError::DegenerateImage)
        &&& post == pre
    } else if frame.width != pre.width || frame.height != pre.height {
        &&& r == Err::<Frame<P>, FrameError>(FrameError::DimensionMismatch)
        &&& post == pre
    } else {
        &&& post.limits == pre.limits
        &&& post.width == pre.width
        &&& post.height == pre.height
        &&& post.frame.same_as(frame)
        &&& post.timestamp == timestamp
        &&& r is Ok
        &&& if pre.current < pre.limits {
            &&& post.current == pre.current + 1
            &&& match r->Ok_0 {
                Frame::PartialFrame(tiles) => tiles_of(tiles@, pre.frame, frame),
                Frame::KeyFrame(_) => false,
            }
        } else {
            &&& post.current == 0
            &&& r->Ok_0 == Frame::KeyFrame(frame)
        }
    }
}

proof fn lemma_filter_push(s: Seq<(int, int)>, e: (int, int), p: spec_fn((int, int)) -> bool)
    ensures
        s.push(e).filter(p) == (if p(e) {
            s.filter(p).push(e)
        } else {
            s.filter(p)
        }),
{
    reveal(Seq::filter);
    assert(s.push(e).drop_last() =~= s);
}

/// The tiles of `next` for the blocks in which it differs from `prev`, in
/// row-major order.
pub fn changed_tiles<P: Copy + PartialEq>(prev: &Raster<P>, next: &Raster<P>) -> (r: Vec<
    PartialFrame<P>,
>)
    requires
        prev.wf(),
        next.wf(),
        prev.width == next.width,
        prev.height == next.height,
        obeys_concrete_eq::<P>(),
    ensures
        tiles_of(r@, *prev, *next),
{
    let dirty: Vec<bool> = dirty_blocks(prev, next);
    let w: u32 = next.width;
    let h: u32 = next.height;
    let cw: u32 = ((w as u64 + 15) / 16) as u32;
    let ch: u32 = ((h as u64 + 15) / 16) as u32;
    let ghost pred = dirty_pred(*prev, *next);
    let mut tiles: Vec<PartialFrame<P>> = Vec::new();
    let mut k: usize = 0;
    while k < 256
        invariant
            prev.wf(),
            next.wf(),
            prev.width == next.width,
            prev.height == next.height,
            w == next.width,
            h == next.height,
            cw == cell_len(w as int),
            ch == cell_len(h as int),
            pred == dirty_pred(*prev, *next),
            dirty@.len() == 256,
            forall|j: int| 0 <= j < 256 ==> #[trigger] dirty@[j] == block_dirty(*prev, *next, j / 16, j % 16),
            k <= 256,
            tiles@.len() == block_order(k as int).filter(pred).len(),
            forall|i: int|
                0 <= i < tiles@.len() ==> #[trigger] is_tile_of(
                    tiles@[i],
                    *next,
                    block_order(k as int).filter(pred)[i].0,
                    block_order(k as int).filter(pred)[i].1,
                ),
        decreases 256 - k,
    {
        let ghost before = tiles@;
        proof {
            assert(block_order(k + 1) =~= block_order(k as int).push(block_at(k as int)));
            lemma_filter_push(block_order(k as int), block_at(k as int), pred);
        }
        if dirty[k] {
            let row: u32 = (k / 16) as u32;
            let col: u32 = (k % 16) as u32;
            proof {
                let (x0, y0) = choose|x0: int, y0: int|
                    #![trigger crate::grid::differs_at(*prev, *next, x0, y0)]
                    in_block(x0, y0, w as int, h as int, row as int, col as int)
                        && crate::grid::differs_at(*prev, *next, x0, y0);
                vstd::arithmetic::div_mod::lemma_fundamental_div_mod(x0, cw as int);
                vstd::arithmetic::div_mod::lemma_fundamental_div_mod(y0, ch as int);
                vstd::arithmetic::div_mod::lemma_mod_pos_bound(x0, cw as int);
                vstd::arithmetic::div_mod::lemma_mod_pos_bound(y0, ch as int);
                assert(col as int * cw as int == cw as int * col as int) by (nonlinear_arith);
                assert(row as int * ch as int == ch as int * row as int) by (nonlinear_arith);
            }
            let x: u32 = col * cw;
            let y: u32 = row * ch;
            let image: Raster<P> = next.crop(x, y, cw, ch);
            tiles.push(PartialFrame { x, y, image });
            proof {
                let n = before.len();
                assert(is_tile_of(tiles@[n as int], *next, block_at(k as int).0, block_at(k as int).1));
                assert forall|i: int| 0 <= i < tiles@.len() implies #[trigger] is_tile_of(
                    tiles@[i],
                    *next,
                    block_order(k + 1).filter(pred)[i].0,
                    block_order(k + 1).filter(pred)[i].1,
                ) by {
                    if i < n {
                        assert(tiles@[i] == before[i]);
                    }
                }
            }
        }
        k += 1;
    }
    tiles
}

impl<P: Copy> FrameContext<P> {
    /// The cached dimensions are those of the stored frame, which has pixels,
    /// and the counter has not passed the limit.
    pub open spec fn wf(&self) -> bool {
        &&& self.frame.wf()
        &&& self.width == self.frame.width
        &&& self.height == self.frame.height
        &&& self.width > 0
        &&& self.height > 0
        &&& self.current <= self.limits
    }
}

impl<P: Copy + PartialEq> FrameContext<P> {
    /// A context that stores `frame` as of `timestamp` and emits at most
    /// `limits` partial frames between keyframes; a frame without pixels
    /// along an axis is refused.
    pub fn new(timestamp: Duration, limits: usize, frame: Raster<P>) -> (r: Result<
        FrameContext<P>,
        FrameError,
    >)
        requires
            frame.wf(),
        ensures
            r is Err <==> frame.width == 0 || frame.height == 0,
            r is Err ==> r->Err_0 == FrameError::DegenerateImage,
            r is Ok ==> r->Ok_0 == (FrameContext {
                current: 0,
                limits,
                timestamp,
                width: frame.width,
                height: frame.height,
                frame,
            }),
            r is Ok ==> r->Ok_0.wf(),
    {
        if frame.width == 0 || frame.height == 0 {
            return Err(FrameError::DegenerateImage);
        }
        let width: u32 = frame.width;
        let height: u32 = frame.height;
        Ok(FrameContext { current: 0, limits, timestamp, width, height, frame })
    }

    /// Stores `frame` as of `timestamp` and returns either the whole frame
    /// (once `limits` partial frames have been emitted since the last
    /// keyframe) or the tiles of the blocks that differ from the frame stored
    /// before. A frame without pixels along an axis, or one of other
    /// dimensions than the stored frame, is refused and changes nothing.
    pub fn push(&mut self, timestamp: &Duration, frame: Raster<P>) -> (r: Result<Frame<P>, FrameError>)
        requires
            old(self).wf(),
            frame.wf(),
            obeys_concrete_eq::<P>(),
        ensures
            push_outcome(*old(self), *timestamp, frame, *final(self), r),
            final(self).wf(),
    {
        if frame.width == 0 || frame.height == 0 {
            return Err(FrameError::DegenerateImage);
        }
        if frame.width != self.width || frame.height != self.height {
            return Err(FrameError::DimensionMismatch);
        }
        if self.current < self.limits {
            self.current = self.current + 1;
            let tiles: Vec<PartialFrame<P>> = changed_tiles(&self.frame, &frame);
            self.timestamp = *timestamp;
            self.frame = frame;
            Ok(Frame::PartialFrame(tiles))
        } else {
            self.current = 0;
            self.timestamp = *timestamp;
            self.frame = frame.duplicate();
            Ok(Frame::KeyFrame(frame))
        }
    }
}

} // verus!
