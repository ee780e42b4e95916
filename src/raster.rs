use vstd::prelude::*;

verus! {

/// The pixel at column `x`, row `y` of a row-major sequence of rows `w` long.
pub open spec fn grid_at<P>(s: Seq<P>, w: int, x: int, y: int) -> P {
    s[y * w + x]
}

/// How much of a span of `len` starting at `origin` lies inside `[0, total)`.
pub open spec fn clipped(origin: int, len: int, total: int) -> int {
    if origin >= total {
        0
    } else if len <= total - origin {
        len
    } else {
        total - origin
    }
}

/// Row and column indices inside a `w` × `h` grid map to distinct positions
/// of its row-major storage.
pub proof fn lemma_index_in_bounds(x: int, y: int, w: int, h: int)
    requires
        0 <= x < w,
        0 <= y < h,
    ensures
        0 <= y * w + x < h * w,
        y * w + x < (y + 1) * w,
        (y + 1) * w <= h * w,
{
    assert(0 <= y * w) by (nonlinear_arith)
        requires
            0 <= y,
            0 <= w,
    ;
    assert((y + 1) * w == y * w + w) by (nonlinear_arith);
    assert((y + 1) * w <= h * w) by (nonlinear_arith)
        requires
            y + 1 <= h,
            0 <= w,
    ;
}

/// A `width` × `height` image whose pixels are stored row by row.
pub struct Raster<P> {
    pub width: u32,
    pub height: u32,
    pub pixels: Vec<P>,
}

impl<P: Copy> Raster<P> {
    /// The stored pixel count matches the dimensions.
    pub open spec fn wf(&self) -> bool {
        self.pixels@.len() == self.width as int * self.height as int
    }

    /// `self` and `o` hold the same image.
    pub open spec fn same_as(&self, o: Raster<P>) -> bool {
        &&& self.width == o.width
        &&& self.height == o.height
        &&& self.pixels@ == o.pixels@
    }

    /// The pixel at column `x`, row `y`.
    pub open spec fn at(&self, x: int, y: int) -> P {
        grid_at(self.pixels@, self.width as int, x, y)
    }

    /// `self` is the part of `src` inside the rectangle with origin `(x, y)`
    /// and size `w` × `h`, cut at the edges of `src`.
    pub open spec fn is_crop_of(&self, src: Raster<P>, x: int, y: int, w: int, h: int) -> bool {
        &&& self.wf()
        &&& self.width == clipped(x, w, src.width as int)
        &&& self.height == clipped(y, h, src.height as int)
        &&& forall|i: int, j: int|
            0 <= i < self.width && 0 <= j < self.height ==> #[trigger] self.at(i, j) == src.at(
                x + i,
                y + j,
            )
    }

    /// A raster from its dimensions and its pixels in row-major order;
    /// `None` when the pixel count is not `width * height`.
    pub fn new(width: u32, height: u32, pixels: Vec<P>) -> (r: Option<Raster<P>>)
        ensures
            r is Some <==> pixels@.len() == width as int * height as int,
            r is Some ==> r->Some_0 == (Raster { width, height, pixels }),
    {
        let n: usize = pixels.len();
        if width == 0 || height == 0 {
            if n == 0 {
                proof {
                    assert(width as int * height as int == 0) by (nonlinear_arith)
                        requires
                            width == 0 || height == 0,
                    ;
                }
                Some(Raster { width, height, pixels })
            } else {
                proof {
                    assert(width as int * height as int == 0) by (nonlinear_arith)
                        requires
                            width == 0 || height == 0,
                    ;
                }
                None
            }
        } else if n / (width as usize) == height as usize && n % (width as usize) == 0 {
            proof {
                vstd::arithmetic::div_mod::lemma_fundamental_div_mod(n as int, width as int);
                assert(width as int * height as int == height as int * width as int) by (nonlinear_arith);
            }
            Some(Raster { width, height, pixels })
        } else {
            proof {
                if n as int == width as int * height as int {
                    assert(height as int * width as int == width as int * height as int) by (nonlinear_arith);
                    vstd::arithmetic::div_mod::lemma_div_multiples_vanish(height as int, width as int);
                    vstd::arithmetic::div_mod::lemma_mod_multiples_basic(height as int, width as int);
                }
            }
            None
        }
    }

    /// A raster with every pixel set to `p`.
    pub fn filled(width: u32, height: u32, p: P) -> (r: Raster<P>)
        requires
            width as int * height as int <= usize::MAX,
        ensures
            r.wf(),
            r.width == width,
            r.height == height,
            forall|x: int, y: int| 0 <= x < width && 0 <= y < height ==> #[trigger] r.at(x, y) == p,
    {
        let n: usize = width as usize * height as usize;
        let mut pixels: Vec<P> = Vec::new();
        let mut i: usize = 0;
        while i < n
            invariant
                i <= n,
                pixels@.len() == i,
                forall|k: int| 0 <= k < i ==> pixels@[k] == p,
            decreases n - i,
        {
            pixels.push(p);
            i += 1;
        }
        let r = Raster { width, height, pixels };
        assert forall|x: int, y: int| 0 <= x < width && 0 <= y < height implies #[trigger] r.at(x, y)
            == p by {
            lemma_index_in_bounds(x, y, width as int, height as int);
            assert(height as int * width as int == width as int * height as int) by (nonlinear_arith);
        }
        r
    }

    /// A copy of the rectangle with origin `(x, y)` and size `width` × `height`,
    /// cut at the edges of `self`.
    pub fn crop(&self, x: u32, y: u32, width: u32, height: u32) -> (r: Raster<P>)
        requires
            self.wf(),
        ensures
            r.is_crop_of(*self, x as int, y as int, width as int, height as int),
    {
        let _n: usize = self.pixels.len();
        let sw: u32 = self.width;
        let w: u32 = if x >= sw {
            0
        } else if width <= sw - x {
            width
        } else {
            sw - x
        };
        let h: u32 = if y >= self.height {
            0
        } else if height <= self.height - y {
            height
        } else {
            self.height - y
        };
        let mut pixels: Vec<P> = Vec::new();
        let mut j: u32 = 0;
        while j < h
            invariant
                self.wf(),
                sw == self.width,
                _n == self.pixels@.len(),
                w == clipped(x as int, width as int, sw as int),
                h == clipped(y as int, height as int, self.height as int),
                j <= h,
                pixels@.len() == j as int * w as int,
                forall|i: int, jj: int|
                    0 <= i < w && 0 <= jj < j ==> #[trigger] grid_at(pixels@, w as int, i, jj)
                        == self.at(x + i, y + jj),
            decreases h - j,
        {
            let start: usize = if w == 0 {
                0
            } else {
                proof {
                    lemma_index_in_bounds(x as int, (y + j) as int, sw as int, self.height as int);
                    assert(self.height as int * sw as int == sw as int * self.height as int)
                        by (nonlinear_arith);
                }
                (y + j) as usize * sw as usize + x as usize
            };
            let ghost done = pixels@;
            let mut i: u32 = 0;
            while i < w
                invariant
                    self.wf(),
                    sw == self.width,
                    _n == self.pixels@.len(),
                    w == clipped(x as int, width as int, sw as int),
                    h == clipped(y as int, height as int, self.height as int),
                    j < h,
                    i <= w,
                    w > 0 ==> start == (y + j) as int * sw as int + x as int,
                    done.len() == j as int * w as int,
                    pixels@.len() == done.len() + i,
                    forall|k: int| 0 <= k < done.len() ==> pixels@[k] == done[k],
                    forall|k: int|
                        done.len() <= k < pixels@.len() ==> #[trigger] pixels@[k] == self.at(
                            x + (k - done.len()),
                            y + j,
                        ),
                decreases w - i,
            {
                proof {
                    lemma_index_in_bounds(
                        (x + i) as int,
                        (y + j) as int,
                        sw as int,
                        self.height as int,
                    );
                }
                pixels.push(self.pixels[start + i as usize]);
                i += 1;
            }
            proof {
                assert((j + 1) as int * w as int == j as int * w as int + w as int) by (nonlinear_arith);
                assert forall|ii: int, jj: int|
                    0 <= ii < w && 0 <= jj < j + 1 implies #[trigger] grid_at(pixels@, w as int, ii, jj)
                        == self.at(x + ii, y + jj) by {
                    if jj < j {
                        lemma_index_in_bounds(ii, jj, w as int, j as int);
                        assert(grid_at(done, w as int, ii, jj) == self.at(x + ii, y + jj));
                    } else {
                        assert(jj * w + ii == done.len() + ii);
                        assert(pixels@[done.len() + ii] == self.at(x + ii, y + jj));
                    }
                }
            }
            j += 1;
        }
        proof {
            assert(h as int * w as int == w as int * h as int) by (nonlinear_arith);
        }
        Raster { width: w, height: h, pixels }
    }

    /// A copy of the whole image.
    pub fn duplicate(&self) -> (r: Raster<P>)
        ensures
            r.same_as(*self),
    {
        let n: usize = self.pixels.len();
        let mut pixels: Vec<P> = Vec::new();
        let mut i: usize = 0;
        while i < n
            invariant
                n == self.pixels@.len(),
                i <= n,
                pixels@ == self.pixels@.subrange(0, i as int),
            decreases n - i,
        {
            pixels.push(self.pixels[i]);
            i += 1;
            assert(pixels@ =~= self.pixels@.subrange(0, i as int));
        }
        assert(pixels@ =~= self.pixels@);
        Raster { width: self.width, height: self.height, pixels }
    }

    /// The pixel at column `x`, row `y`.
    pub fn get(&self, x: u32, y: u32) -> (r: P)
        requires
            self.wf(),
            x < self.width,
            y < self.height,
        ensures
            r == self.at(x as int, y as int),
    {
        let _n: usize = self.pixels.len();
        proof {
            lemma_index_in_bounds(x as int, y as int, self.width as int, self.height as int);
            assert(self.height as int * self.width as int == self.width as int * self.height as int)
                by (nonlinear_arith);
        }
        self.pixels[y as usize * self.width as usize + x as usize]
    }

    /// Sets the pixel at column `x`, row `y` to `p`, leaving every other pixel as it was.
    pub fn set(&mut self, x: u32, y: u32, p: P)
        requires
            old(self).wf(),
            x < old(self).width,
            y < old(self).height,
        ensures
            final(self).wf(),
            final(self).width == old(self).width,
            final(self).height == old(self).height,
            final(self).at(x as int, y as int) == p,
            forall|i: int, j: int|
                0 <= i < old(self).width && 0 <= j < old(self).height && (i != x || j != y)
                    ==> #[trigger] final(self).at(i, j) == old(self).at(i, j),
    {
        let _n: usize = self.pixels.len();
        proof {
            lemma_index_in_bounds(x as int, y as int, self.width as int, self.height as int);
            assert(self.height as int * self.width as int == self.width as int * self.height as int)
                by (nonlinear_arith);
        }
        let ghost before = *self;
        let k: usize = y as usize * self.width as usize + x as usize;
        self.pixels.set(k, p);
        proof {
            let w = self.width as int;
            assert forall|i: int, j: int|
                0 <= i < w && 0 <= j < self.height && (i != x || j != y) implies #[trigger] self.at(
                i,
                j,
            ) == before.at(i, j) by {
                if j == y {
                } else if j < y {
                    lemma_index_in_bounds(i, j, w, y as int);
                } else {
                    lemma_index_in_bounds(x as int, y as int, w, j);
                }
                lemma_index_in_bounds(i, j, w, self.height as int);
                assert(self.height as int * w == w * self.height as int) by (nonlinear_arith);
            }
        }
    }
}

} // verus!
