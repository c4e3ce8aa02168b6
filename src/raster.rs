//! Pixels and flat row-major pixel buffers.
use vstd::prelude::*;
use vstd::arithmetic::div_mod::{lemma_fundamental_div_mod, lemma_fundamental_div_mod_converse};
use vstd::arithmetic::mul::lemma_mul_inequality;

verus! {

/// One RGBA pixel.
#[derive(Clone, Copy, Debug, PartialEq, Eq, Structural)]
pub struct Pixel {
    pub r: u8,
    pub g: u8,
    pub b: u8,
    pub a: u8,
}

/// A rectangular image stored row by row: the pixel at column `x` and row
/// `y` is `pixels[y * width + x]`.
pub struct Image {
    pub width: usize,
    pub height: usize,
    pub pixels: Vec<Pixel>,
}

/// The flat position `y * w + x` of column `x`, row `y` gives back `x` and `y`.
pub proof fn lemma_flat_index(x: int, y: int, w: int, h: int)
    requires
        0 <= x < w,
        0 <= y < h,
    ensures
        0 <= y * w + x < w * h,
        (y * w + x) % w == x,
        (y * w + x) / w == y,
{
    lemma_fundamental_div_mod_converse(y * w + x, w, y, x);
    lemma_mul_inequality(y + 1, h, w);
    assert((y + 1) * w == y * w + w) by (nonlinear_arith);
    assert(h * w == w * h) by (nonlinear_arith);
    assert(y * w >= 0) by (nonlinear_arith)
        requires
            y >= 0,
            w > 0,
    ;
}

/// A flat position inside a `w` by `h` buffer names a column and a row
/// inside it.
pub proof fn lemma_flat_position(i: int, w: int, h: int)
    requires
        w > 0,
        0 <= i < w * h,
    ensures
        0 <= i % w < w,
        0 <= i / w < h,
        i == (i / w) * w + i % w,
{
    lemma_fundamental_div_mod(i, w);
    assert(0 <= i % w < w);
    assert(w * (i / w) == (i / w) * w) by (nonlinear_arith);
    assert(0 <= i / w < h) by (nonlinear_arith)
        requires
            i == w * (i / w) + i % w,
            0 <= i % w < w,
            0 <= i < w * h,
    ;
}

impl Image {
    /// The buffer holds exactly one pixel per column and row.
    pub open spec fn wf(&self) -> bool {
        self.pixels@.len() == self.width * self.height
    }

    /// The pixel at column `x`, row `y`.
    pub open spec fn at(&self, x: int, y: int) -> Pixel {
        self.pixels@[y * self.width + x]
    }

    /// A `width` by `height` image in which every pixel is `fill`.
    pub fn filled(width: usize, height: usize, fill: Pixel) -> (r: Image)
        requires
            width * height <= usize::MAX,
        ensures
            r.wf(),
            r.width == width,
            r.height == height,
            forall|i: int| 0 <= i < r.pixels@.len() ==> r.pixels@[i] == fill,
    {
        let n: usize = width * height;
        let mut pixels: Vec<Pixel> = Vec::with_capacity(n);
        let mut i: usize = 0;
        while i < n
            invariant
                i <= n,
                pixels@.len() == i,
                forall|j: int| 0 <= j < i ==> pixels@[j] == fill,
            decreases n - i,
        {
            pixels.push(fill);
            i = i + 1;
        }
        Image { width, height, pixels }
    }

    /// The pixel at column `x`, row `y`.
    pub fn pixel(&self, x: usize, y: usize) -> (r: Pixel)
        requires
            self.wf(),
            x < self.width,
            y < self.height,
        ensures
            r == self.at(x as int, y as int),
    {
        let n = self.pixels.len();
        proof {
            lemma_flat_index(x as int, y as int, self.width as int, self.height as int);
        }
        self.pixels[y * self.width + x]
    }

    /// Sets the pixel at column `x`, row `y`, leaving every other pixel as it was.
    pub fn set_pixel(&mut self, x: usize, y: usize, p: Pixel)
        requires
            old(self).wf(),
            x < old(self).width,
            y < old(self).height,
        ensures
            final(self).wf(),
            final(self).width == old(self).width,
            final(self).height == old(self).height,
            final(self).pixels@ == old(self).pixels@.update(
                y * old(self).width + x,
                p,
            ),
    {
        let n = self.pixels.len();
        proof {
            lemma_flat_index(x as int, y as int, self.width as int, self.height as int);
        }
        let k: usize = y * self.width + x;
        self.pixels.set(k, p);
    }

    /// Paints with `color` every pixel whose column lies in `x0..x1` and whose
    /// row lies in `y0..y1`; the others keep their value.
    pub fn fill_rect(&mut self, x0: usize, y0: usize, x1: usize, y1: usize, color: Pixel)
        requires
            old(self).wf(),
            x1 <= old(self).width,
            y1 <= old(self).height,
        ensures
            final(self).wf(),
            final(self).width == old(self).width,
            final(self).height == old(self).height,
            forall|i: int|
                0 <= i < final(self).pixels@.len() ==> #[trigger] final(self).pixels@[i] == if x0
                    <= i % (old(self).width as int) < x1 && y0 <= i / (old(self).width as int)
                    < y1 {
                    color
                } else {
                    old(self).pixels@[i]
                },
    {
        let ghost before = self.pixels@;
        let ghost w = self.width as int;
        let mut y: usize = y0;
        while y < y1
            invariant
                self.wf(),
                self.width == w,
                self.height == old(self).height,
                y1 <= self.height,
                x1 <= w,
                before == old(self).pixels@,
                self.pixels@.len() == before.len(),
                y0 < y1 ==> y0 <= y <= y1,
                y0 >= y1 ==> y == y0,
                forall|i: int|
                    0 <= i < self.pixels@.len() ==> #[trigger] self.pixels@[i] == if x0 <= i % w
                        < x1 && y0 <= i / w < y {
                        color
                    } else {
                        before[i]
                    },
            decreases y1 - y,
        {
            let ghost row_start = self.pixels@;
            let mut x: usize = x0;
            while x < x1
                invariant
                    self.wf(),
                    self.width == w,
                    self.height == old(self).height,
                    y < y1,
                    y1 <= self.height,
                    x1 <= w,
                    self.pixels@.len() == row_start.len(),
                    x0 < x1 ==> x0 <= x <= x1,
                    x0 >= x1 ==> x == x0,
                    forall|i: int|
                        0 <= i < self.pixels@.len() ==> #[trigger] self.pixels@[i] == if i / w
                            == y && x0 <= i % w < x {
                            color
                        } else {
                            row_start[i]
                        },
                decreases x1 - x,
            {
                proof {
                    lemma_flat_index(x as int, y as int, w, self.height as int);
                }
                let ghost prev = self.pixels@;
                self.set_pixel(x, y, color);
                proof {
                    let k = y * w + x;
                    assert forall|i: int| 0 <= i < self.pixels@.len() implies #[trigger] self.pixels@[i]
                        == if i / w == y && x0 <= i % w < x + 1 {
                        color
                    } else {
                        row_start[i]
                    } by {
                        if i != k {
                            lemma_fundamental_div_mod(i, w);
                            if i / w == y && i % w == x {
                                assert(w * y == y * w) by (nonlinear_arith);
                                assert(i == k);
                            }
                            assert(self.pixels@[i] == prev[i]);
                        }
                    }
                }
                x = x + 1;
            }
            y = y + 1;
        }
    }

    /// The `w` by `h` region whose top-left corner is column `x0`, row `y0`,
    /// as an image of its own.
    pub fn crop(&self, x0: usize, y0: usize, w: usize, h: usize) -> (r: Image)
        requires
            self.wf(),
            x0 + w <= self.width,
            y0 + h <= self.height,
        ensures
            r.wf(),
            r.width == w,
            r.height == h,
            forall|x: int, y: int|
                0 <= x < w && 0 <= y < h ==> #[trigger] r.at(x, y) == self.at(x0 + x, y0 + y),
    {
        proof {
            lemma_mul_inequality(w as int, self.width as int, h as int);
            lemma_mul_inequality(h as int, self.height as int, self.width as int);
            assert(h * self.width == self.width * h) by (nonlinear_arith);
            assert(self.height * self.width == self.width * self.height) by (nonlinear_arith);
        }
        let ghost ww = w as int;
        let mut pixels: Vec<Pixel> = Vec::new();
        let mut y: usize = 0;
        while y < h
            invariant
                self.wf(),
                x0 + w <= self.width,
                y0 + h <= self.height,
                y <= h,
                ww == w,
                w * h <= self.width * self.height,
                pixels@.len() == y * ww,
                forall|j: int|
                    0 <= j < pixels@.len() ==> #[trigger] pixels@[j] == self.at(
                        x0 + j % ww,
                        y0 + j / ww,
                    ),
            decreases h - y,
        {
            let mut x: usize = 0;
            while x < w
                invariant
                    self.wf(),
                    x0 + w <= self.width,
                    y0 + h <= self.height,
                    y < h,
                    x <= w,
                    ww == w,
                    w * h <= self.width * self.height,
                    pixels@.len() == y * ww + x,
                    forall|j: int|
                        0 <= j < pixels@.len() ==> #[trigger] pixels@[j] == self.at(
                            x0 + j % ww,
                            y0 + j / ww,
                        ),
                decreases w - x,
            {
                proof {
                    lemma_flat_index(x as int, y as int, ww, h as int);
                }
                let p = self.pixel(x0 + x, y0 + y);
                pixels.push(p);
                x = x + 1;
            }
            assert((y + 1) * ww == y * ww + ww) by (nonlinear_arith);
            y = y + 1;
        }
        assert(h * ww == w * h) by (nonlinear_arith)
            requires
                ww == w,
        ;
        let r = Image { width: w, height: h, pixels };
        proof {
            assert forall|x: int, y: int| 0 <= x < w && 0 <= y < h implies #[trigger] r.at(x, y)
                == self.at(x0 + x, y0 + y) by {
                lemma_flat_index(x, y, ww, h as int);
            }
        }
        r
    }

    /// Copies `tile` so that its top-left corner lands on column `x0`, row
    /// `y0`; pixels outside that region keep their value.
    pub fn paste(&mut self, tile: &Image, x0: usize, y0: usize)
        requires
            old(self).wf(),
            tile.wf(),
            x0 + tile.width <= old(self).width,
            y0 + tile.height <= old(self).height,
        ensures
            final(self).wf(),
            final(self).width == old(self).width,
            final(self).height == old(self).height,
            forall|i: int|
                0 <= i < final(self).pixels@.len() ==> #[trigger] final(self).pixels@[i] == if x0
                    <= i % (old(self).width as int) < x0 + tile.width && y0 <= i / (
                old(self).width as int) < y0 + tile.height {
                    tile.at(i % (old(self).width as int) - x0, i / (old(self).width as int) - y0)
                } else {
                    old(self).pixels@[i]
                },
    {
        let ghost before = self.pixels@;
        let ghost w = self.width as int;
        let x1 = x0 + tile.width;
        let y1 = y0 + tile.height;
        let mut y: usize = y0;
        while y < y1
            invariant
                self.wf(),
                tile.wf(),
                self.width == w,
                self.height == old(self).height,
                x1 == x0 + tile.width,
                y1 == y0 + tile.height,
                y1 <= self.height,
                x1 <= w,
                before == old(self).pixels@,
                self.pixels@.len() == before.len(),
                y0 <= y <= y1,
                forall|i: int|
                    0 <= i < self.pixels@.len() ==> #[trigger] self.pixels@[i] == if x0 <= i % w
                        < x1 && y0 <= i / w < y {
                        tile.at(i % w - x0, i / w - y0)
                    } else {
                        before[i]
                    },
            decreases y1 - y,
        {
            let ghost row_start = self.pixels@;
            let mut x: usize = x0;
            while x < x1
                invariant
                    self.wf(),
                    tile.wf(),
                    self.width == w,
                    self.height == old(self).height,
                    x1 == x0 + tile.width,
                    y1 == y0 + tile.height,
                    y0 <= y < y1,
                    y1 <= self.height,
                    x1 <= w,
                    self.pixels@.len() == row_start.len(),
                    x0 <= x <= x1,
                    forall|i: int|
                        0 <= i < self.pixels@.len() ==> #[trigger] self.pixels@[i] == if i / w
                            == y && x0 <= i % w < x {
                            tile.at(i % w - x0, i / w - y0)
                        } else {
                            row_start[i]
                        },
                decreases x1 - x,
            {
                proof {
                    lemma_flat_index(x as int, y as int, w, self.height as int);
                }
                let p = tile.pixel(x - x0, y - y0);
                let ghost prev = self.pixels@;
                self.set_pixel(x, y, p);
                proof {
                    let k = y * w + x;
                    assert forall|i: int| 0 <= i < self.pixels@.len() implies #[trigger] self.pixels@[i]
                        == if i / w == y && x0 <= i % w < x + 1 {
                        tile.at(i % w - x0, i / w - y0)
                    } else {
                        row_start[i]
                    } by {
                        if i != k {
                            lemma_fundamental_div_mod(i, w);
                            if i / w == y && i % w == x {
                                assert(w * y == y * w) by (nonlinear_arith);
                                assert(i == k);
                            }
                            assert(self.pixels@[i] == prev[i]);
                        }
                    }
                }
                x = x + 1;
            }
            y = y + 1;
        }
    }
}

} // verus!
