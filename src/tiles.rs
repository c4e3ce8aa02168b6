//! Cutting a source image into a square grid of equal tiles.
use vstd::prelude::*;
use vstd::arithmetic::div_mod::lemma_fundamental_div_mod;
use vstd::arithmetic::mul::lemma_mul_inequality;
use crate::raster::Image;
use crate::PuzzleError;

verus! {

/// Cell `k` of a `g` by `g` grid of `tw` by `th` cells starts at column
/// `(k % g) * tw` and row `(k / g) * th`, and lies inside the grid.
pub proof fn lemma_cell_origin(k: int, g: int, tw: int, th: int)
    requires
        0 <= k < g * g,
        g > 0,
        tw >= 0,
        th >= 0,
    ensures
        0 <= k % g < g,
        0 <= k / g < g,
        0 <= (k % g) * tw,
        (k % g) * tw + tw <= g * tw,
        0 <= (k / g) * th,
        (k / g) * th + th <= g * th,
{
    lemma_fundamental_div_mod(k, g);
    assert(0 <= k % g < g);
    assert(k / g < g) by (nonlinear_arith)
        requires
            k == g * (k / g) + k % g,
            0 <= k % g,
            k < g * g,
            g > 0,
    ;
    assert(k / g >= 0) by (nonlinear_arith)
        requires
            k == g * (k / g) + k % g,
            k % g < g,
            k >= 0,
            g > 0,
    ;
    lemma_mul_inequality(k % g + 1, g, tw);
    lemma_mul_inequality(k / g + 1, g, th);
    assert((k % g + 1) * tw == (k % g) * tw + tw) by (nonlinear_arith);
    assert((k / g + 1) * th == (k / g) * th + th) by (nonlinear_arith);
    assert(0 <= (k % g) * tw) by (nonlinear_arith)
        requires
            0 <= k % g,
            tw >= 0,
    ;
    assert(0 <= (k / g) * th) by (nonlinear_arith)
        requires
            0 <= k / g,
            th >= 0,
    ;
}

/// `ts` holds the tiles of a `grid` by `grid` cut of `image`: tile `k`
/// shows the region of the image that starts at column `(k % grid) * tw`,
/// row `(k / grid) * th`.
pub open spec fn cut_from(ts: TileSet, image: Image, grid: nat) -> bool {
    &&& ts.wf()
    &&& ts.grid_size() == grid
    &&& ts.tw() == image.width as int / grid as int
    &&& ts.th() == image.height as int / grid as int
    &&& forall|k: int, x: int, y: int|
        0 <= k < grid * grid && 0 <= x < ts.tw() && 0 <= y < ts.th() ==> (#[trigger] ts@[k].at(
            x,
            y,
        )) == image.at((k % grid as int) * ts.tw() + x, (k / grid as int) * ts.th() + y)
}

/// The source image cut into `grid * grid` tiles of equal size, counted
/// row by row.
pub struct TileSet {
    grid: usize,
    tile_width: usize,
    tile_height: usize,
    tiles: Vec<Image>,
}

impl TileSet {
    pub closed spec fn grid_size(&self) -> nat {
        self.grid as nat
    }

    pub closed spec fn tw(&self) -> nat {
        self.tile_width as nat
    }

    pub closed spec fn th(&self) -> nat {
        self.tile_height as nat
    }

    /// The tiles, by their index in the solved picture.
    pub closed spec fn view(&self) -> Seq<Image> {
        self.tiles@
    }

    /// Width of the tiled region: `grid` tiles side by side.
    pub open spec fn full_width(&self) -> nat {
        self.grid_size() * self.tw()
    }

    /// Height of the tiled region: `grid` tiles one above the other.
    pub open spec fn full_height(&self) -> nat {
        self.grid_size() * self.th()
    }

    pub open spec fn wf(&self) -> bool {
        &&& self.grid_size() >= 2
        &&& self.tw() >= 1
        &&& self.th() >= 1
        &&& self.grid_size() * self.grid_size() <= usize::MAX
        &&& self.full_width() * self.full_height() <= usize::MAX
        &&& self@.len() == self.grid_size() * self.grid_size()
        &&& forall|k: int|
            0 <= k < self@.len() ==> {
                &&& (#[trigger] self@[k]).wf()
                &&& self@[k].width == self.tw()
                &&& self@[k].height == self.th()
            }
    }

    /// Cuts `image` into `grid * grid` tiles of `width / grid` by
    /// `height / grid` pixels; the rows and columns left over at the right and
    /// bottom edges belong to no tile. Fails when a tile would be empty.
    pub fn build(image: &Image, grid: usize) -> (r: Result<TileSet, PuzzleError>)
        requires
            image.wf(),
            grid >= 2,
        ensures
            r.is_err() <==> (image.width / grid == 0 || image.height / grid == 0),
            r.is_err() ==> r == Err::<TileSet, PuzzleError>(PuzzleError::InvalidImage),
            r.is_ok() ==> cut_from(r->Ok_0, *image, grid as nat),
    {
        let tw = image.width / grid;
        let th = image.height / grid;
        if tw == 0 || th == 0 {
            return Err(PuzzleError::InvalidImage);
        }
        let ghost g = grid as int;
        let n_pixels = image.pixels.len();
        proof {
            lemma_fundamental_div_mod(image.width as int, g);
            lemma_fundamental_div_mod(image.height as int, g);
            assert(g * tw <= image.width);
            assert(g * th <= image.height);
            lemma_mul_inequality(g * tw, image.width as int, g * th);
            lemma_mul_inequality(g * th, image.height as int, image.width as int);
            assert(g * th * image.width == image.width * (g * th)) by (nonlinear_arith);
            assert(image.height * image.width == image.width * image.height) by (nonlinear_arith);
            assert(g * tw >= g) by (nonlinear_arith)
                requires
                    tw >= 1,
                    g >= 0,
            ;
            assert(g * th >= g) by (nonlinear_arith)
                requires
                    th >= 1,
                    g >= 0,
            ;
            assert(g * g <= (g * tw) * (g * th)) by (nonlinear_arith)
                requires
                    g * tw >= g,
                    g * th >= g,
                    g >= 0,
            ;
        }
        let n: usize = grid * grid;
        let mut tiles: Vec<Image> = Vec::with_capacity(n);
        let mut k: usize = 0;
        while k < n
            invariant
                image.wf(),
                g == grid,
                grid >= 2,
                n == grid * grid,
                tw == image.width / grid,
                th == image.height / grid,
                tw >= 1,
                th >= 1,
                grid * tw <= image.width,
                grid * th <= image.height,
                k <= n,
                tiles@.len() == k,
                forall|j: int|
                    0 <= j < k ==> {
                        &&& (#[trigger] tiles@[j]).wf()
                        &&& tiles@[j].width == tw
                        &&& tiles@[j].height == th
                        &&& forall|x: int, y: int|
                            0 <= x < tw && 0 <= y < th ==> (#[trigger] tiles@[j].at(x, y))
                                == image.at((j % g) * tw + x, (j / g) * th + y)
                    },
            decreases n - k,
        {
            proof {
                lemma_cell_origin(k as int, g, tw as int, th as int);
            }
            let x0: usize = (k % grid) * tw;
            let y0: usize = (k / grid) * th;
            let tile = image.crop(x0, y0, tw, th);
            tiles.push(tile);
            k = k + 1;
        }
        let ts = TileSet { grid, tile_width: tw, tile_height: th, tiles };
        Ok(ts)
    }

    /// The side of the grid.
    pub fn grid(&self) -> (r: usize)
        ensures
            r == self.grid_size(),
    {
        self.grid
    }

    /// Width of every tile.
    pub fn tile_width(&self) -> (r: usize)
        ensures
            r == self.tw(),
    {
        self.tile_width
    }

    /// Height of every tile.
    pub fn tile_height(&self) -> (r: usize)
        ensures
            r == self.th(),
    {
        self.tile_height
    }

    /// The number of tiles, `grid * grid`.
    pub fn len(&self) -> (r: usize)
        ensures
            r == self@.len(),
    {
        self.tiles.len()
    }

    /// The tile with index `k` in the solved picture.
    pub fn tile_at(&self, k: usize) -> (r: &Image)
        requires
            k < self@.len(),
        ensures
            *r == self@[k as int],
    {
        &self.tiles[k]
    }
}

} // verus!
