//! Drawing the current arrangement: tiles placed cell by cell, each cell
//! framed by a border and marked with a box for its position number.
use vstd::prelude::*;
use vstd::arithmetic::div_mod::{lemma_fundamental_div_mod, lemma_fundamental_div_mod_converse};
use crate::permutation::Permutation;
use crate::raster::{Image, Pixel, lemma_flat_index, lemma_flat_position};
use crate::tiles::{TileSet, lemma_cell_origin};

verus! {

/// Offset of a cell's label box from the cell's top-left corner.
pub const LABEL_INSET: usize = 10;

/// Added to the estimated text width and height to size a label box.
pub const LABEL_PADDING: usize = 20;

/// Offset of the label text from the label box's top-left corner.
pub const TEXT_INSET: usize = 10;

/// How the cells of a rendered puzzle are framed and numbered.
#[derive(Clone, Copy, Debug, PartialEq, Eq, Structural)]
pub struct Decoration {
    /// Number of one-pixel rings drawn around each cell.
    pub border_thickness: usize,
    /// Colour of the borders and of the label boxes.
    pub border_color: Pixel,
    /// Colour in which the label text is to be drawn.
    pub text_color: Pixel,
    /// Estimated width of one digit of the label text.
    pub glyph_width: usize,
    /// Height of the label text.
    pub font_size: usize,
}

impl Decoration {
    /// Five-pixel black borders and white numbers fifty pixels high.
    pub fn classic() -> (r: Decoration)
        ensures
            r.border_thickness == 5,
            r.border_color == (Pixel { r: 0, g: 0, b: 0, a: 255 }),
            r.text_color == (Pixel { r: 255, g: 255, b: 255, a: 255 }),
            r.glyph_width == 50,
            r.font_size == 50,
    {
        Decoration {
            border_thickness: 5,
            border_color: Pixel { r: 0, g: 0, b: 0, a: 255 },
            text_color: Pixel { r: 255, g: 255, b: 255, a: 255 },
            glyph_width: 50,
            font_size: 50,
        }
    }
}

/// Where the number of one cell is to be written.
#[derive(Clone, Copy, Debug, PartialEq, Eq, Structural)]
pub struct Label {
    /// The cell's position counted from 1, row by row.
    pub number: usize,
    /// Column of the text's top-left corner.
    pub x: usize,
    /// Row of the text's top-left corner.
    pub y: usize,
}

/// Number of decimal digits of `n`.
pub open spec fn digit_count(n: nat) -> nat
    decreases n,
{
    if n < 10 {
        1
    } else {
        1 + digit_count(n / 10)
    }
}

pub open spec fn at_least_zero(v: int) -> int {
    if v < 0 {
        0
    } else {
        v
    }
}

pub open spec fn at_most(v: int, hi: int) -> int {
    if v > hi {
        hi
    } else {
        v
    }
}

/// The outline of the rectangle with corners `(x0, y0)` and `(x1, y1)`,
/// both included.
pub open spec fn on_ring(x: int, y: int, x0: int, y0: int, x1: int, y1: int) -> bool {
    &&& x0 <= x <= x1
    &&& y0 <= y <= y1
    &&& (x == x0 || x == x1 || y == y0 || y == y1)
}

/// Left column of cell `k`.
pub open spec fn cell_left(ts: TileSet, k: int) -> int {
    (k % ts.grid_size() as int) * ts.tw()
}

/// Top row of cell `k`.
pub open spec fn cell_top(ts: TileSet, k: int) -> int {
    (k / ts.grid_size() as int) * ts.th()
}

/// The cell that holds the pixel at column `x`, row `y`.
pub open spec fn cell_of(ts: TileSet, x: int, y: int) -> int {
    (y / ts.th() as int) * ts.grid_size() + x / ts.tw() as int
}

/// Ring `t` of the border of cell `k`: the cell's outline moved `t` pixels
/// outwards, kept inside the picture.
pub open spec fn on_border(ts: TileSet, k: int, t: int, x: int, y: int) -> bool {
    on_ring(
        x,
        y,
        at_least_zero(cell_left(ts, k) - t),
        at_least_zero(cell_top(ts, k) - t),
        at_most(cell_left(ts, k) + ts.tw() + t, ts.full_width() - 1),
        at_most(cell_top(ts, k) + ts.th() + t, ts.full_height() - 1),
    )
}

/// The box behind the number of cell `k`, sized for `k + 1`'s digits.
pub open spec fn in_label_box(ts: TileSet, cfg: Decoration, k: int, x: int, y: int) -> bool {
    let x0 = cell_left(ts, k) + LABEL_INSET;
    let y0 = cell_top(ts, k) + LABEL_INSET;
    &&& x0 <= x < x0 + cfg.glyph_width * digit_count((k + 1) as nat) + LABEL_PADDING
    &&& y0 <= y < y0 + cfg.font_size + LABEL_PADDING
}

/// One of the first `n` rings of the border of cell `k` passes through
/// column `x`, row `y`.
pub open spec fn bordered(ts: TileSet, k: int, n: int, x: int, y: int) -> bool {
    exists|t: int| 0 <= t < n && #[trigger] on_border(ts, k, t, x, y)
}

/// The border or the label box of cell `k` covers column `x`, row `y`.
pub open spec fn decorated_by(ts: TileSet, cfg: Decoration, k: int, x: int, y: int) -> bool {
    ||| bordered(ts, k, cfg.border_thickness as int, x, y)
    ||| in_label_box(ts, cfg, k, x, y)
}

/// Some cell numbered from `lo` up to but not including `hi` decorates the pixel.
pub open spec fn covered_between(
    ts: TileSet,
    cfg: Decoration,
    lo: int,
    hi: int,
    x: int,
    y: int,
) -> bool {
    exists|k: int| lo <= k < hi && #[trigger] decorated_by(ts, cfg, k, x, y)
}

/// The pixel of the tile that `cells` places over column `x`, row `y`.
pub open spec fn placed_pixel(ts: TileSet, cells: Seq<usize>, x: int, y: int) -> Pixel {
    ts@[cells[cell_of(ts, x, y)] as int].at(x % ts.tw() as int, y % ts.th() as int)
}

/// The rendered pixel at column `x`, row `y`. Cells are drawn in order,
/// each one's tile first and then its decoration, so a decoration stays
/// visible unless a later cell's tile is drawn over it.
pub open spec fn rendered_pixel(
    ts: TileSet,
    cells: Seq<usize>,
    cfg: Decoration,
    x: int,
    y: int,
) -> Pixel {
    if covered_between(ts, cfg, cell_of(ts, x, y), ts@.len() as int, x, y) {
        cfg.border_color
    } else {
        placed_pixel(ts, cells, x, y)
    }
}

/// `img` is the drawing of the arrangement `cells` of the tiles of `ts`.
pub open spec fn shows(img: Image, ts: TileSet, cells: Seq<usize>, cfg: Decoration) -> bool {
    &&& img.wf()
    &&& img.width == ts.full_width()
    &&& img.height == ts.full_height()
    &&& forall|x: int, y: int|
        0 <= x < img.width && 0 <= y < img.height ==> #[trigger] img.at(x, y) == rendered_pixel(
            ts,
            cells,
            cfg,
            x,
            y,
        )
}

/// A tile set and an arrangement of the same grid.
pub open spec fn fits(ts: TileSet, perm: Permutation) -> bool {
    &&& ts.wf()
    &&& perm.wf()
    &&& perm.grid_size() == ts.grid_size()
}

/// The pixels of cell `k` are those whose cell is `k`, and they show the
/// tile's pixels from its top-left corner on.
pub proof fn lemma_cell_rect(ts: TileSet, k: int, x: int, y: int)
    requires
        ts.wf(),
        0 <= k < ts@.len(),
        0 <= x < ts.full_width(),
        0 <= y < ts.full_height(),
    ensures
        0 <= cell_of(ts, x, y) < ts@.len(),
        (cell_left(ts, k) <= x < cell_left(ts, k) + ts.tw() && cell_top(ts, k) <= y < cell_top(
            ts,
            k,
        ) + ts.th()) <==> cell_of(ts, x, y) == k,
        cell_of(ts, x, y) == k ==> x % ts.tw() as int == x - cell_left(ts, k) && y % ts.th() as int
            == y - cell_top(ts, k),
{
    let g = ts.grid_size() as int;
    let tw = ts.tw() as int;
    let th = ts.th() as int;
    lemma_cell_origin(k, g, tw, th);
    lemma_fundamental_div_mod(x, tw);
    lemma_fundamental_div_mod(y, th);
    lemma_fundamental_div_mod(k, g);
    let a = x / tw;
    let b = y / th;
    assert(0 <= a < g) by (nonlinear_arith)
        requires
            x == tw * a + x % tw,
            0 <= x % tw < tw,
            0 <= x < g * tw,
    ;
    assert(0 <= b < g) by (nonlinear_arith)
        requires
            y == th * b + y % th,
            0 <= y % th < th,
            0 <= y < g * th,
    ;
    assert(0 <= b * g + a < g * g) by (nonlinear_arith)
        requires
            0 <= a < g,
            0 <= b < g,
    ;
    if cell_of(ts, x, y) == k {
        lemma_fundamental_div_mod_converse(k, g, b, a);
        assert(a * tw == tw * a && b * th == th * b) by (nonlinear_arith);
    }
    if cell_left(ts, k) <= x < cell_left(ts, k) + tw && cell_top(ts, k) <= y < cell_top(ts, k) + th {
        lemma_fundamental_div_mod_converse(x, tw, k % g, x - cell_left(ts, k));
        lemma_fundamental_div_mod_converse(y, th, k / g, y - cell_top(ts, k));
        assert(g * (k / g) == (k / g) * g) by (nonlinear_arith);
    }
}

proof fn lemma_digit_count_bound(n: nat)
    requires
        n >= 1,
    ensures
        1 <= digit_count(n) <= n,
    decreases n,
{
    if n >= 10 {
        lemma_digit_count_bound(n / 10);
    }
}

/// Number of decimal digits of `n`.
pub fn count_digits(n: usize) -> (r: usize)
    ensures
        r == digit_count(n as nat),
{
    let mut m: usize = n;
    let mut r: usize = 1;
    while m >= 10
        invariant
            r >= 1,
            r + digit_count(m as nat) == digit_count(n as nat) + 1,
            m <= n,
        decreases m,
    {
        proof {
            lemma_digit_count_bound(n as nat);
            lemma_digit_count_bound((m / 10) as nat);
        }
        m = m / 10;
        r = r + 1;
    }
    r
}

/// The span that starts `inset` after `start` and runs for `len`, cut off
/// at `limit`: `(min(start + inset, limit), min(start + inset + len, limit))`.
fn clipped_span(start: usize, inset: usize, len: usize, limit: usize) -> (r: (usize, usize))
    requires
        start <= limit,
    ensures
        r.0 == at_most(start + inset, limit as int),
        r.1 == at_most(start + inset + len, limit as int),
{
    let a = if inset >= limit - start {
        limit
    } else {
        start + inset
    };
    let b = if len >= limit - a {
        limit
    } else {
        a + len
    };
    (a, b)
}

/// Paints the border rings and the label box of cell `k` over `out`.
fn decorate_cell(out: &mut Image, ts: &TileSet, cfg: &Decoration, k: usize)
    requires
        ts.wf(),
        old(out).wf(),
        old(out).width == ts.full_width(),
        old(out).height == ts.full_height(),
        k < ts@.len(),
    ensures
        final(out).wf(),
        final(out).width == old(out).width,
        final(out).height == old(out).height,
        forall|i: int|
            0 <= i < final(out).pixels@.len() ==> #[trigger] final(out).pixels@[i] == if decorated_by(
                *ts,
                *cfg,
                k as int,
                i % (ts.full_width() as int),
                i / (ts.full_width() as int),
            ) {
                cfg.border_color
            } else {
                old(out).pixels@[i]
            },
{
    let g = ts.grid();
    let tw = ts.tile_width();
    let th = ts.tile_height();
    let w = out.width;
    let h = out.height;
    let color = cfg.border_color;
    proof {
        lemma_cell_origin(k as int, g as int, tw as int, th as int);
    }
    let cx = (k % g) * tw;
    let cy = (k / g) * th;
    let ghost before = out.pixels@;
    let ghost ww = w as int;
    let mut t: usize = 0;
    while t < cfg.border_thickness
        invariant
            ts.wf(),
            out.wf(),
            out.width == w,
            out.height == h,
            w == ts.full_width(),
            h == ts.full_height(),
            ww == w,
            k < ts@.len(),
            cx == cell_left(*ts, k as int),
            cy == cell_top(*ts, k as int),
            tw == ts.tw(),
            th == ts.th(),
            cx + tw <= w,
            cy + th <= h,
            color == cfg.border_color,
            t <= cfg.border_thickness,
            out.pixels@.len() == before.len(),
            forall|i: int|
                0 <= i < out.pixels@.len() ==> #[trigger] out.pixels@[i] == if bordered(
                    *ts,
                    k as int,
                    t as int,
                    i % ww,
                    i / ww,
                ) {
                    color
                } else {
                    before[i]
                },
        decreases cfg.border_thickness - t,
    {
        let sx = if cx >= t {
            cx - t
        } else {
            0
        };
        let sy = if cy >= t {
            cy - t
        } else {
            0
        };
        let ex = if t >= w - (cx + tw) {
            w - 1
        } else {
            cx + tw + t
        };
        let ey = if t >= h - (cy + th) {
            h - 1
        } else {
            cy + th + t
        };
        let ghost prev = out.pixels@;
        out.fill_rect(sx, sy, ex + 1, sy + 1, color);
        let ghost after_top = out.pixels@;
        out.fill_rect(sx, ey, ex + 1, ey + 1, color);
        let ghost after_bottom = out.pixels@;
        out.fill_rect(sx, sy, sx + 1, ey + 1, color);
        let ghost after_left = out.pixels@;
        out.fill_rect(ex, sy, ex + 1, ey + 1, color);
        proof {
            assert forall|i: int| 0 <= i < out.pixels@.len() implies #[trigger] out.pixels@[i]
                == if bordered(*ts, k as int, t + 1, i % ww, i / ww) {
                color
            } else {
                before[i]
            } by {
                let x = i % ww;
                let y = i / ww;
                assert(after_top[i] == if sx <= x < ex + 1 && sy <= y < sy + 1 { color } else { prev[i] });
                assert(after_bottom[i] == if sx <= x < ex + 1 && ey <= y < ey + 1 { color } else { after_top[i] });
                assert(after_left[i] == if sx <= x < sx + 1 && sy <= y < ey + 1 { color } else { after_bottom[i] });
                if on_border(*ts, k as int, t as int, x, y) {
                    assert(bordered(*ts, k as int, t + 1, x, y));
                } else if bordered(*ts, k as int, t as int, x, y) {
                    let s = choose|s: int| 0 <= s < t && #[trigger] on_border(*ts, k as int, s, x, y);
                    assert(bordered(*ts, k as int, t + 1, x, y));
                } else if bordered(*ts, k as int, t + 1, x, y) {
                    let s = choose|s: int|
                        0 <= s < t + 1 && #[trigger] on_border(*ts, k as int, s, x, y);
                    assert(s != t);
                    assert(bordered(*ts, k as int, t as int, x, y));
                }
            }
        }
        t = t + 1;
    }
    let d = count_digits(k + 1);
    let text_w = match cfg.glyph_width.checked_mul(d) {
        Some(v) => v,
        None => usize::MAX,
    };
    let bw = text_w.saturating_add(LABEL_PADDING);
    let bh = cfg.font_size.saturating_add(LABEL_PADDING);
    let (bx0, bx1) = clipped_span(cx, LABEL_INSET, bw, w);
    let (by0, by1) = clipped_span(cy, LABEL_INSET, bh, h);
    let ghost q = out.pixels@;
    out.fill_rect(bx0, by0, bx1, by1, color);
    proof {
        let tl = cfg.glyph_width * digit_count((k + 1) as nat);
        assert(d == digit_count((k + 1) as nat));
        assert(tl <= usize::MAX ==> text_w == tl);
        assert(tl > usize::MAX ==> text_w == usize::MAX);
        assert(bw == at_most(text_w + LABEL_PADDING, usize::MAX as int));
        assert(bh == at_most(cfg.font_size + LABEL_PADDING, usize::MAX as int));
        assert forall|i: int| 0 <= i < out.pixels@.len() implies #[trigger] out.pixels@[i]
            == if decorated_by(*ts, *cfg, k as int, i % ww, i / ww) {
            color
        } else {
            before[i]
        } by {
            lemma_flat_position(i, ww, h as int);
            let x = i % ww;
            let y = i / ww;
            assert((bx0 <= x < bx1 && by0 <= y < by1) == in_label_box(*ts, *cfg, k as int, x, y));
        }
    }
}

/// Draws the arrangement `perm` of the tiles of `ts`: cell by cell, in row
/// order, the cell's tile is copied into place and then its border and
/// label box are painted in the border colour. The result is as large as
/// the tiled region of the source image.
pub fn render(ts: &TileSet, perm: &Permutation, cfg: &Decoration) -> (r: Image)
    requires
        fits(*ts, *perm),
    ensures
        shows(r, *ts, perm@, *cfg),
{
    let g = ts.grid();
    let tw = ts.tile_width();
    let th = ts.tile_height();
    proof {
        let fw = ts.full_width() as int;
        let fh = ts.full_height() as int;
        assert(fw >= 1 && fh >= 1) by (nonlinear_arith)
            requires
                fw == g * tw,
                fh == g * th,
                g >= 2,
                tw >= 1,
                th >= 1,
        ;
        assert(fw <= fw * fh && fh <= fw * fh) by (nonlinear_arith)
            requires
                fw >= 1,
                fh >= 1,
        ;
    }
    let w = g * tw;
    let h = g * th;
    let mut out = Image::filled(w, h, cfg.border_color);
    let n = ts.len();
    let ghost ww = w as int;
    let mut k: usize = 0;
    while k < n
        invariant
            fits(*ts, *perm),
            out.wf(),
            out.width == w,
            out.height == h,
            w == ts.full_width(),
            h == ts.full_height(),
            ww == w,
            g == ts.grid_size(),
            tw == ts.tw(),
            th == ts.th(),
            n == ts@.len(),
            k <= n,
            forall|i: int|
                0 <= i < out.pixels@.len() && cell_of(*ts, i % ww, i / ww) < k ==> #[trigger] out.pixels@[i]
                    == if covered_between(
                    *ts,
                    *cfg,
                    cell_of(*ts, i % ww, i / ww),
                    k as int,
                    i % ww,
                    i / ww,
                ) {
                    cfg.border_color
                } else {
                    placed_pixel(*ts, perm@, i % ww, i / ww)
                },
        decreases n - k,
    {
        proof {
            lemma_cell_origin(k as int, g as int, tw as int, th as int);
        }
        let cx = (k % g) * tw;
        let cy = (k / g) * th;
        let tile = ts.tile_at(perm.tile_at_cell(k));
        let ghost before = out.pixels@;
        out.paste(tile, cx, cy);
        let ghost pasted = out.pixels@;
        decorate_cell(&mut out, ts, cfg, k);
        proof {
            assert forall|i: int|
                0 <= i < out.pixels@.len() && cell_of(*ts, i % ww, i / ww) < k + 1 implies #[trigger] out.pixels@[i]
                == if covered_between(
                *ts,
                *cfg,
                cell_of(*ts, i % ww, i / ww),
                k + 1,
                i % ww,
                i / ww,
            ) {
                cfg.border_color
            } else {
                placed_pixel(*ts, perm@, i % ww, i / ww)
            } by {
                lemma_flat_position(i, ww, h as int);
                let x = i % ww;
                let y = i / ww;
                let c = cell_of(*ts, x, y);
                lemma_cell_rect(*ts, k as int, x, y);
                assert(pasted[i] == if cx <= x < cx + tw && cy <= y < cy + th {
                    tile.at(x - cx, y - cy)
                } else {
                    before[i]
                });
                if decorated_by(*ts, *cfg, k as int, x, y) {
                    assert(covered_between(*ts, *cfg, c, k + 1, x, y));
                } else if c < k && covered_between(*ts, *cfg, c, k as int, x, y) {
                    let j = choose|j: int| c <= j < k && #[trigger] decorated_by(*ts, *cfg, j, x, y);
                    assert(covered_between(*ts, *cfg, c, k + 1, x, y));
                } else if covered_between(*ts, *cfg, c, k + 1, x, y) {
                    let j = choose|j: int| c <= j < k + 1 && #[trigger] decorated_by(*ts, *cfg, j, x, y);
                    assert(j != k);
                    assert(covered_between(*ts, *cfg, c, k as int, x, y));
                }
            }
        }
        k = k + 1;
    }
    proof {
        assert(n > 0) by (nonlinear_arith)
            requires
                n == g * g,
                g >= 2,
        ;
        assert forall|x: int, y: int| 0 <= x < w && 0 <= y < h implies #[trigger] out.at(x, y)
            == rendered_pixel(*ts, perm@, *cfg, x, y) by {
            lemma_flat_index(x, y, ww, h as int);
            lemma_cell_rect(*ts, 0, x, y);
        }
    }
    out
}

/// `ls` places one number per cell of `ts`: cell `k` gets `k + 1`, written
/// inside its label box.
pub open spec fn places_labels(ls: Seq<Label>, ts: TileSet) -> bool {
    &&& ls.len() == ts@.len()
    &&& forall|k: int|
        0 <= k < ls.len() ==> {
            &&& (#[trigger] ls[k]).number == k + 1
            &&& ls[k].x == cell_left(ts, k) + LABEL_INSET + TEXT_INSET
            &&& ls[k].y == cell_top(ts, k) + LABEL_INSET + TEXT_INSET
        }
}

/// Where the number of each cell is to be written: cell `k` gets the
/// number `k + 1`, placed inside its label box. The numbers name cell
/// positions, whichever tile a cell shows.
pub fn labels(ts: &TileSet) -> (r: Vec<Label>)
    requires
        ts.wf(),
    ensures
        places_labels(r@, *ts),
{
    let g = ts.grid();
    let tw = ts.tile_width();
    let th = ts.tile_height();
    let n = ts.len();
    proof {
        let fw = ts.full_width() as int;
        let fh = ts.full_height() as int;
        assert(2 * fw <= fw * fh && 2 * fh <= fw * fh) by (nonlinear_arith)
            requires
                fw == g * tw,
                fh == g * th,
                g >= 2,
                tw >= 1,
                th >= 1,
        ;
    }
    let mut r: Vec<Label> = Vec::with_capacity(n);
    let mut k: usize = 0;
    while k < n
        invariant
            ts.wf(),
            g == ts.grid_size(),
            tw == ts.tw(),
            th == ts.th(),
            n == ts@.len(),
            2 * ts.full_width() <= usize::MAX,
            2 * ts.full_height() <= usize::MAX,
            k <= n,
            r@.len() == k,
            forall|j: int|
                0 <= j < k ==> {
                    &&& (#[trigger] r@[j]).number == j + 1
                    &&& r@[j].x == cell_left(*ts, j) + LABEL_INSET + TEXT_INSET
                    &&& r@[j].y == cell_top(*ts, j) + LABEL_INSET + TEXT_INSET
                },
        decreases n - k,
    {
        proof {
            lemma_cell_origin(k as int, g as int, tw as int, th as int);
        }
        let cx = (k % g) * tw;
        let cy = (k / g) * th;
        r.push(
            Label { number: k + 1, x: cx + LABEL_INSET + TEXT_INSET, y: cy + LABEL_INSET + TEXT_INSET },
        );
        k = k + 1;
    }
    r
}

/// Drawing is deterministic: two drawings of the same arrangement of the
/// same tiles with the same decoration are identical, pixel for pixel.
pub proof fn law_render_deterministic(
    a: Image,
    b: Image,
    ts: TileSet,
    cells: Seq<usize>,
    cfg: Decoration,
)
    requires
        ts.wf(),
        shows(a, ts, cells, cfg),
        shows(b, ts, cells, cfg),
    ensures
        a.width == b.width,
        a.height == b.height,
        a.pixels@ == b.pixels@,
{
    let w = a.width as int;
    let h = a.height as int;
    assert(w >= 1) by (nonlinear_arith)
        requires
            w == ts.grid_size() * ts.tw(),
            ts.grid_size() >= 2,
            ts.tw() >= 1,
    ;
    assert forall|i: int| 0 <= i < a.pixels@.len() implies a.pixels@[i] == b.pixels@[i] by {
        lemma_flat_position(i, w, h);
        assert(a.at(i % w, i / w) == b.at(i % w, i / w));
    }
    assert(a.pixels@ =~= b.pixels@);
}

} // verus!
