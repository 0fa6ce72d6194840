//! The Game of Life engine: a fixed-size grid with a one-cell dead border,
//! per-cell live-neighbor counts maintained incrementally, and an RGBA pixel
//! buffer kept in sync with the cell states.

use crate::raw_draw::{gray, lemma_pix_off_bounds, lemma_pix_off_injective, painted, pix_off,
    pixel_offset, RawColor, RawDraw};
use vstd::arithmetic::div_mod::{lemma_div_pos_is_pos, lemma_fundamental_div_mod, lemma_mod_bound};
use vstd::prelude::*;

verus! {

/// High bit of a cell byte: the alive/dead flag. The low seven bits hold the
/// count of live Moore neighbors (0 to 8, so seven bits never overflow).
const LIFE_MASK: u8 = 0x80;

/// The alive/dead flag of a packed cell byte.
spec fn live_flag(c: u8) -> bool {
    c & 0x80 == 0x80
}

/// The live-neighbor count stored in the low seven bits of a cell byte.
spec fn ncount(c: u8) -> u8 {
    c & 0x7f
}

proof fn lemma_mark_live(c: u8)
    by (bit_vector)
    ensures
        (c | 0x80) & 0x80u8 == 0x80u8,
        (c | 0x80) & 0x7fu8 == c & 0x7fu8,
{
}

proof fn lemma_clear_live(c: u8)
    by (bit_vector)
    ensures
        c & !0x80u8 == c & 0x7fu8,
        (c & 0x7f) & 0x80u8 != 0x80u8,
        (c & 0x7f) & 0x7fu8 == c & 0x7fu8,
{
}

proof fn lemma_zero_cell()
    by (bit_vector)
    ensures
        0u8 & 0x80u8 != 0x80u8,
        0u8 & 0x7fu8 == 0u8,
{
}

proof fn lemma_incr_cell(c: u8)
    by (bit_vector)
    requires
        c & 0x7fu8 < 0x7f,
    ensures
        c < 0xff,
        ((c + 1) as u8) & 0x80u8 == c & 0x80u8,
        ((c + 1) as u8) & 0x7fu8 == (c & 0x7fu8) + 1,
{
}

proof fn lemma_decr_cell(c: u8)
    by (bit_vector)
    requires
        c & 0x7fu8 >= 1,
    ensures
        c >= 1,
        ((c - 1) as u8) & 0x80u8 == c & 0x80u8,
        ((c - 1) as u8) & 0x7fu8 == (c & 0x7fu8) - 1,
{
}

/// Tests the alive/dead flag of a packed cell byte.
fn is_set(c: u8) -> (b: bool)
    ensures
        b == live_flag(c),
{
    c & LIFE_MASK == LIFE_MASK
}

/// Sets the alive/dead flag of a packed cell byte, keeping the count bits.
fn set_life(c: u8) -> (r: u8)
    ensures
        live_flag(r),
        ncount(r) == ncount(c),
{
    proof {
        lemma_mark_live(c);
    }
    c | LIFE_MASK
}

/// Clears the alive/dead flag of a packed cell byte, keeping the count bits.
/// The result therefore equals the stored live-neighbor count itself.
fn reset_life(c: u8) -> (r: u8)
    ensures
        r == ncount(c),
        !live_flag(r),
        ncount(r) == ncount(c),
{
    proof {
        lemma_clear_live(c);
    }
    c & !LIFE_MASK
}

/// Row-major flat index of cell (x, y) on a grid of width `w`.
spec fn cell_index(w: int, x: int, y: int) -> int {
    x + y * w
}

/// A flat row-major index of an in-range cell lies inside the grid array.
proof fn lemma_cell_index_bounds(w: int, h: int, x: int, y: int)
    by (nonlinear_arith)
    requires
        0 <= x < w,
        0 <= y < h,
    ensures
        0 <= x + y * w,
        x + y * w < w * h,
{
}

/// Distinct in-range cells have distinct flat indices.
proof fn lemma_cell_index_injective(w: int, x1: int, y1: int, x2: int, y2: int)
    by (nonlinear_arith)
    requires
        0 <= x1 < w,
        0 <= x2 < w,
    ensures
        (x1 + y1 * w == x2 + y2 * w) <==> (x1 == x2 && y1 == y2),
{
}

/// Stepping one row up or down moves a flat index by exactly the width.
proof fn lemma_row_offsets(w: int, y: int)
    by (nonlinear_arith)
    ensures
        (y - 1) * w == y * w - w,
        (y + 1) * w == y * w + w,
{
}

/// Relates the flat index of an arbitrary in-range cell (u, v) to the nine
/// flat indices of an inner cell (x, y) and its Moore neighborhood.
proof fn lemma_index_vs_neighborhood(w: int, h: int, x: int, y: int, u: int, v: int)
    requires
        3 <= w,
        3 <= h,
        1 <= x < w - 1,
        1 <= y < h - 1,
        0 <= u < w,
        0 <= v < h,
    ensures
        (cell_index(w, u, v) == cell_index(w, x, y)) <==> (u == x && v == y),
        (cell_index(w, u, v) == cell_index(w, x, y) - w - 1) <==> (u == x - 1 && v == y - 1),
        (cell_index(w, u, v) == cell_index(w, x, y) - w) <==> (u == x && v == y - 1),
        (cell_index(w, u, v) == cell_index(w, x, y) - w + 1) <==> (u == x + 1 && v == y - 1),
        (cell_index(w, u, v) == cell_index(w, x, y) - 1) <==> (u == x - 1 && v == y),
        (cell_index(w, u, v) == cell_index(w, x, y) + 1) <==> (u == x + 1 && v == y),
        (cell_index(w, u, v) == cell_index(w, x, y) + w - 1) <==> (u == x - 1 && v == y + 1),
        (cell_index(w, u, v) == cell_index(w, x, y) + w) <==> (u == x && v == y + 1),
        (cell_index(w, u, v) == cell_index(w, x, y) + w + 1) <==> (u == x + 1 && v == y + 1),
{
    lemma_row_offsets(w, y);
    lemma_cell_index_injective(w, u, v, x, y);
    lemma_cell_index_injective(w, u, v, x - 1, y - 1);
    lemma_cell_index_injective(w, u, v, x, y - 1);
    lemma_cell_index_injective(w, u, v, x + 1, y - 1);
    lemma_cell_index_injective(w, u, v, x - 1, y);
    lemma_cell_index_injective(w, u, v, x + 1, y);
    lemma_cell_index_injective(w, u, v, x - 1, y + 1);
    lemma_cell_index_injective(w, u, v, x, y + 1);
    lemma_cell_index_injective(w, u, v, x + 1, y + 1);
}

/// Flat indices of the cells of an inner cell's Moore neighborhood stay in
/// range: the cell's own index is at least `w + 1` from the front and at
/// least `w + 2` from the back of the array.
proof fn lemma_inner_index_room(w: int, h: int, x: int, y: int)
    by (nonlinear_arith)
    requires
        3 <= w,
        3 <= h,
        1 <= x < w - 1,
        1 <= y < h - 1,
    ensures
        w + 1 <= x + y * w,
        x + y * w + w + 1 < w * h,
{
}

/// 1 for a live cell, 0 for a dead one, when counting neighbors.
pub open spec fn one_if(b: bool) -> int {
    if b {
        1
    } else {
        0
    }
}

/// Whether (x, y) and (u, v) are distinct cells of each other's Moore
/// neighborhood: horizontally, vertically or diagonally adjacent.
pub open spec fn is_neighbor(x: int, y: int, u: int, v: int) -> bool {
    !(x == u && y == v) && -1 <= x - u <= 1 && -1 <= y - v <= 1
}

/// The four buffer bytes of cell (x, y) on board `g`, in RGBA order.
pub open spec fn pixel_quartet(g: Life, x: int, y: int) -> (u8, u8, u8, u8) {
    (
        g.spec_buf()[pix_off(g.spec_width() as int, x, y)],
        g.spec_buf()[pix_off(g.spec_width() as int, x, y) + 1],
        g.spec_buf()[pix_off(g.spec_width() as int, x, y) + 2],
        g.spec_buf()[pix_off(g.spec_width() as int, x, y) + 3],
    )
}

/// The quartet of a pixel painted for a live cell: white, fully opaque.
pub open spec fn white_quartet() -> (u8, u8, u8, u8) {
    (255u8, 255u8, 255u8, 255u8)
}

/// The quartet of a pixel painted for a dead cell: black, fully opaque.
pub open spec fn black_quartet() -> (u8, u8, u8, u8) {
    (0u8, 0u8, 0u8, 255u8)
}

/// How one generation relates two boards: the dimensions and the buffer
/// length are kept; a cell is live afterwards exactly when it lies in the
/// inner region and the standard rule, decided on the earlier board, makes
/// it live; and each cell's pixel is untouched when its state was kept,
/// repainted white-opaque when the cell was born and black-opaque when it
/// died.
pub open spec fn ticked(pre: Life, post: Life) -> bool {
    &&& post.spec_width() == pre.spec_width()
    &&& post.spec_height() == pre.spec_height()
    &&& post.spec_buf().len() == pre.spec_buf().len()
    &&& forall|x: int, y: int|
        #[trigger] post.alive(x, y) == (pre.in_inner(x, y) && pre.step_alive(x, y))
    &&& forall|x: int, y: int|
        pre.in_grid(x, y) ==> #[trigger] pixel_quartet(post, x, y) == (if post.alive(x, y)
            == pre.alive(x, y) {
            pixel_quartet(pre, x, y)
        } else if post.alive(x, y) {
            white_quartet()
        } else {
            black_quartet()
        })
}

/// A Game of Life board. `grid` packs, per cell, the alive flag and the count
/// of live Moore neighbors into one byte; `buf` caches the RGBA rendering of
/// the alive flags (live cells white-opaque, cells painted dead black).
pub struct Life {
    width: u32,
    height: u32,
    grid: Vec<u8>,
    buf: Vec<u8>,
}

impl RawDraw for Life {
    closed spec fn spec_width(&self) -> u32 {
        self.width
    }

    closed spec fn spec_height(&self) -> u32 {
        self.height
    }

    closed spec fn spec_buf(&self) -> Seq<u8> {
        self.buf@
    }

    fn width(&self) -> (w: u32) {
        self.width
    }

    fn height(&self) -> (h: u32) {
        self.height
    }

    fn buf(&self) -> (b: &Vec<u8>) {
        &self.buf
    }

    fn buf_mut(&mut self) -> (b: &mut Vec<u8>) {
        &mut self.buf
    }
}

impl Life {
    /// Whether (x, y) addresses a cell of the board, border included.
    pub open spec fn in_grid(self, x: int, y: int) -> bool {
        0 <= x < self.spec_width() && 0 <= y < self.spec_height()
    }

    /// Whether (x, y) lies in the inner region: the board minus its one-cell
    /// border. Only inner cells may be live or change state.
    pub open spec fn in_inner(self, x: int, y: int) -> bool {
        1 <= x < self.spec_width() - 1 && 1 <= y < self.spec_height() - 1
    }

    /// Whether the cell (x, y) is currently live. Cells outside the board
    /// count as dead.
    pub closed spec fn alive(self, x: int, y: int) -> bool {
        self.in_grid(x, y) && live_flag(
            self.grid@[cell_index(self.spec_width() as int, x, y)],
        )
    }

    /// The live-neighbor count stored for cell (x, y).
    pub closed spec fn neighbor_count(self, x: int, y: int) -> int {
        ncount(self.grid@[cell_index(self.spec_width() as int, x, y)]) as int
    }

    /// The number of live cells in the Moore neighborhood of (x, y).
    pub open spec fn live_neighbors(self, x: int, y: int) -> int {
        one_if(self.alive(x - 1, y - 1)) + one_if(self.alive(x, y - 1)) + one_if(
            self.alive(x + 1, y - 1),
        ) + one_if(self.alive(x - 1, y)) + one_if(self.alive(x + 1, y)) + one_if(
            self.alive(x - 1, y + 1),
        ) + one_if(self.alive(x, y + 1)) + one_if(self.alive(x + 1, y + 1))
    }

    /// The standard rule, decided on this board's state: a live cell survives
    /// with two or three live neighbors; a dead cell is born with exactly
    /// three.
    pub open spec fn step_alive(self, x: int, y: int) -> bool {
        if self.alive(x, y) {
            self.live_neighbors(x, y) == 2 || self.live_neighbors(x, y) == 3
        } else {
            self.live_neighbors(x, y) == 3
        }
    }

    /// The pixel of cell (x, y) renders its alive flag: white-opaque when
    /// live; red, green and blue zero when dead.
    spec fn pixel_matches(self, x: int, y: int) -> bool {
        let off = pix_off(self.spec_width() as int, x, y);
        if self.alive(x, y) {
            self.spec_buf()[off] == 255 && self.spec_buf()[off + 1] == 255 && self.spec_buf()[off
                + 2] == 255 && self.spec_buf()[off + 3] == 255
        } else {
            self.spec_buf()[off] == 0 && self.spec_buf()[off + 1] == 0 && self.spec_buf()[off + 2]
                == 0
        }
    }

    /// The board's invariant, established by `new` and preserved by `set` and
    /// `tick`: the dimensions are at least 3, both arrays have their exact
    /// sizes, live cells lie in the inner region, every stored count equals
    /// the true number of live Moore neighbors, and every pixel renders its
    /// cell's alive flag.
    pub closed spec fn wf(self) -> bool {
        &&& self.spec_width() >= 3
        &&& self.spec_height() >= 3
        &&& (self.spec_width() as int) * (self.spec_height() as int) <= usize::MAX
        &&& 4 * (self.spec_width() as int) * (self.spec_height() as int) <= usize::MAX
        &&& self.grid@.len() == (self.spec_width() as int) * (self.spec_height() as int)
        &&& self.spec_buf().len() == 4 * (self.spec_width() as int) * (self.spec_height() as int)
        &&& forall|x: int, y: int| #[trigger] self.alive(x, y) ==> self.in_inner(x, y)
        &&& forall|x: int, y: int|
            self.in_grid(x, y) ==> #[trigger] self.neighbor_count(x, y) == self.live_neighbors(
                x,
                y,
            )
        &&& forall|x: int, y: int| self.in_grid(x, y) ==> #[trigger] self.pixel_matches(x, y)
    }

    /// Creates a board with all cells dead, all counts zero and the pixel
    /// buffer zero-filled.
    pub fn new(width: u32, height: u32) -> (g: Life)
        requires
            width >= 3,
            height >= 3,
            4 * (width as int) * (height as int) <= usize::MAX,
        ensures
            g.wf(),
            g.spec_width() == width,
            g.spec_height() == height,
            g.spec_buf().len() == 4 * (width as int) * (height as int),
            forall|x: int, y: int| !g.alive(x, y),
            forall|i: int| 0 <= i < g.spec_buf().len() ==> g.spec_buf()[i] == 0u8,
    {
        proof {
            assert((width as int) * (height as int) >= 0 && 4 * ((width as int) * (height as int))
                == 4 * (width as int) * (height as int)) by (nonlinear_arith);
        }
        assert((width as int) * (height as int) <= usize::MAX);
        let n: usize = (width as usize) * (height as usize);
        let g = Life {
            width,
            height,
            grid: zero_vec(n),
            buf: zero_vec(4 * n),
        };
        proof {
            lemma_zero_cell();
            assert forall|x: int, y: int| !g.alive(x, y) by {
                if g.in_grid(x, y) {
                    lemma_cell_index_bounds(width as int, height as int, x, y);
                }
            }
            assert forall|x: int, y: int| g.in_grid(x, y) implies #[trigger] g.neighbor_count(x, y)
                == g.live_neighbors(x, y) by {
                lemma_cell_index_bounds(width as int, height as int, x, y);
            }
            assert forall|x: int, y: int| g.in_grid(x, y) implies #[trigger] g.pixel_matches(
                x,
                y,
            ) by {
                crate::raw_draw::lemma_pix_off_bounds(width as int, height as int, x, y);
            }
        }
        g
    }

    /// Computes the flat row-major index of cell (x, y).
    fn index(&self, x: u32, y: u32) -> (i: usize)
        requires
            x < self.spec_width(),
            y < self.spec_height(),
            (self.spec_width() as int) * (self.spec_height() as int) <= usize::MAX,
        ensures
            i == cell_index(self.spec_width() as int, x as int, y as int),
            i < (self.spec_width() as int) * (self.spec_height() as int),
    {
        proof {
            lemma_cell_index_bounds(
                self.spec_width() as int,
                self.spec_height() as int,
                x as int,
                y as int,
            );
        }
        (x as usize) + (y as usize) * (self.width as usize)
    }

    /// Adds one to the live-neighbor count packed into the cell byte at flat
    /// index `j`, leaving the alive flag and every other cell untouched.
    fn incr(&mut self, j: usize)
        requires
            j < old(self).grid@.len(),
            ncount(old(self).grid@[j as int]) < 0x7f,
        ensures
            final(self).width == old(self).width,
            final(self).height == old(self).height,
            final(self).buf@ == old(self).buf@,
            final(self).grid@.len() == old(self).grid@.len(),
            final(self).grid@ == old(self).grid@.update(
                j as int,
                ((old(self).grid@[j as int] + 1) as u8),
            ),
            live_flag(final(self).grid@[j as int]) == live_flag(old(self).grid@[j as int]),
            ncount(final(self).grid@[j as int]) == ncount(old(self).grid@[j as int]) + 1,
    {
        proof {
            lemma_incr_cell(self.grid@[j as int]);
        }
        let c = self.grid[j];
        self.grid.set(j, c + 1);
    }

    /// Subtracts one from the live-neighbor count packed into the cell byte
    /// at flat index `j`, leaving the alive flag and every other cell
    /// untouched.
    fn decr(&mut self, j: usize)
        requires
            j < old(self).grid@.len(),
            ncount(old(self).grid@[j as int]) >= 1,
        ensures
            final(self).width == old(self).width,
            final(self).height == old(self).height,
            final(self).buf@ == old(self).buf@,
            final(self).grid@.len() == old(self).grid@.len(),
            final(self).grid@ == old(self).grid@.update(
                j as int,
                ((old(self).grid@[j as int] - 1) as u8),
            ),
            live_flag(final(self).grid@[j as int]) == live_flag(old(self).grid@[j as int]),
            ncount(final(self).grid@[j as int]) == ncount(old(self).grid@[j as int]) - 1,
    {
        proof {
            lemma_decr_cell(self.grid@[j as int]);
        }
        let c = self.grid[j];
        self.grid.set(j, c - 1);
    }

    /// Paints the pixel of cell (x, y), leaving the cell array untouched.
    /// The generic `put_buf` of the pixel-buffer capability says nothing
    /// about the cell array, so the engine uses this painter internally.
    fn paint(&mut self, x: u32, y: u32, color: RawColor)
        requires
            x < old(self).spec_width(),
            y < old(self).spec_height(),
            old(self).spec_buf().len() == 4 * (old(self).spec_width() as int) * (old(
                self,
            ).spec_height() as int),
        ensures
            final(self).width == old(self).width,
            final(self).height == old(self).height,
            final(self).grid@ == old(self).grid@,
            final(self).spec_buf() == painted(
                old(self).spec_buf(),
                old(self).spec_width() as int,
                x as int,
                y as int,
                color,
            ),
    {
        proof {
            lemma_pix_off_bounds(
                old(self).spec_width() as int,
                old(self).spec_height() as int,
                x as int,
                y as int,
            );
        }
        let w = self.width;
        // A Vec's length is a usize, so the byte offsets computed below fit.
        let _n = self.buf.len();
        let i = pixel_offset(w, x, y);
        self.buf.set(i, color.r);
        self.buf.set(i + 1, color.g);
        self.buf.set(i + 2, color.b);
        self.buf.set(i + 3, color.a);
    }

    /// Brings the inner cell (x, y) to life: marks its flag, raises all
    /// eight neighbors' live-neighbor counts by one and paints its pixel
    /// white-opaque. A cell that is already live is left untouched, since
    /// repeating the neighbor increments would corrupt the counts.
    pub fn set(&mut self, x: u32, y: u32)
        requires
            old(self).wf(),
            old(self).in_inner(x as int, y as int),
        ensures
            final(self).wf(),
            final(self).spec_width() == old(self).spec_width(),
            final(self).spec_height() == old(self).spec_height(),
            forall|u: int, v: int|
                #[trigger] final(self).alive(u, v) == (old(self).alive(u, v) || (u == x as int && v
                    == y as int)),
            old(self).alive(x as int, y as int) ==> final(self).spec_buf() == old(self).spec_buf(),
            !old(self).alive(x as int, y as int) ==> final(self).spec_buf() == painted(
                old(self).spec_buf(),
                old(self).spec_width() as int,
                x as int,
                y as int,
                gray(255),
            ),
    {
        let ghost pre = *old(self);
        let ghost w = pre.spec_width() as int;
        let ghost h = pre.spec_height() as int;
        let ghost xi = x as int;
        let ghost yi = y as int;
        let i = self.index(x, y);
        let c = self.grid[i];
        if is_set(c) {
            proof {
                assert(pre.alive(xi, yi));
            }
            return;
        }
        proof {
            lemma_inner_index_room(w, h, xi, yi);
            lemma_row_offsets(w, yi);
            assert forall|u: int, v: int| pre.in_grid(u, v) implies ncount(
                #[trigger] pre.grid@[cell_index(w, u, v)],
            ) <= 8 by {
                assert(pre.neighbor_count(u, v) == pre.live_neighbors(u, v));
            }
            assert(ncount(pre.grid@[cell_index(w, xi - 1, yi)]) <= 8);
            assert(ncount(pre.grid@[cell_index(w, xi + 1, yi)]) <= 8);
            assert(ncount(pre.grid@[cell_index(w, xi, yi - 1)]) <= 8);
            assert(ncount(pre.grid@[cell_index(w, xi, yi + 1)]) <= 8);
            assert(ncount(pre.grid@[cell_index(w, xi - 1, yi - 1)]) <= 8);
            assert(ncount(pre.grid@[cell_index(w, xi + 1, yi - 1)]) <= 8);
            assert(ncount(pre.grid@[cell_index(w, xi - 1, yi + 1)]) <= 8);
            assert(ncount(pre.grid@[cell_index(w, xi + 1, yi + 1)]) <= 8);
        }
        let wu = self.width as usize;
        let marked = set_life(c);
        self.grid.set(i, marked);
        self.incr(i - 1);
        self.incr(i + 1);
        self.incr(i - wu);
        self.incr(i + wu);
        self.incr(i - wu - 1);
        self.incr(i - wu + 1);
        self.incr(i + wu - 1);
        self.incr(i + wu + 1);
        self.paint(x, y, RawColor::from_single(255));
        proof {
            let post = *self;
            assert(post.alive(xi, yi));
            assert(post.neighbor_count(xi, yi) == pre.neighbor_count(xi, yi));
            assert forall|u: int, v: int|
                pre.in_grid(u, v) && !(u == xi && v == yi) implies #[trigger] post.alive(u, v)
                == pre.alive(u, v) by {
                lemma_cell_index_bounds(w, h, u, v);
                lemma_index_vs_neighborhood(w, h, xi, yi, u, v);
            }
            assert forall|u: int, v: int|
                pre.in_grid(u, v) && is_neighbor(u, v, xi, yi) implies #[trigger] post.neighbor_count(
                u,
                v,
            ) == pre.neighbor_count(u, v) + 1 by {
                lemma_cell_index_bounds(w, h, u, v);
                lemma_index_vs_neighborhood(w, h, xi, yi, u, v);
            }
            assert forall|u: int, v: int|
                pre.in_grid(u, v) && !is_neighbor(u, v, xi, yi) && !(u == xi && v == yi)
                implies #[trigger] post.neighbor_count(u, v) == pre.neighbor_count(u, v) by {
                lemma_cell_index_bounds(w, h, u, v);
                lemma_index_vs_neighborhood(w, h, xi, yi, u, v);
            }
            lemma_set_restores_wf(pre, post, xi, yi);
        }
    }

    /// Kills the live inner cell (x, y): clears its flag, lowers all eight
    /// neighbors' live-neighbor counts by one and paints its pixel
    /// black-opaque.
    fn reset(&mut self, x: u32, y: u32)
        requires
            old(self).wf(),
            old(self).in_inner(x as int, y as int),
            old(self).alive(x as int, y as int),
        ensures
            final(self).wf(),
            final(self).spec_width() == old(self).spec_width(),
            final(self).spec_height() == old(self).spec_height(),
            forall|u: int, v: int|
                #[trigger] final(self).alive(u, v) == (old(self).alive(u, v) && !(u == x as int && v
                    == y as int)),
            final(self).spec_buf() == painted(
                old(self).spec_buf(),
                old(self).spec_width() as int,
                x as int,
                y as int,
                gray(0),
            ),
    {
        let ghost pre = *old(self);
        let ghost w = pre.spec_width() as int;
        let ghost h = pre.spec_height() as int;
        let ghost xi = x as int;
        let ghost yi = y as int;
        let i = self.index(x, y);
        proof {
            lemma_inner_index_room(w, h, xi, yi);
            lemma_row_offsets(w, yi);
            assert forall|u: int, v: int|
                pre.in_grid(u, v) && is_neighbor(u, v, xi, yi) implies ncount(
                #[trigger] pre.grid@[cell_index(w, u, v)],
            ) >= 1 by {
                assert(pre.neighbor_count(u, v) == pre.live_neighbors(u, v));
                assert(pre.alive(xi, yi));
            }
            assert(ncount(pre.grid@[cell_index(w, xi - 1, yi)]) >= 1);
            assert(ncount(pre.grid@[cell_index(w, xi + 1, yi)]) >= 1);
            assert(ncount(pre.grid@[cell_index(w, xi, yi - 1)]) >= 1);
            assert(ncount(pre.grid@[cell_index(w, xi, yi + 1)]) >= 1);
            assert(ncount(pre.grid@[cell_index(w, xi - 1, yi - 1)]) >= 1);
            assert(ncount(pre.grid@[cell_index(w, xi + 1, yi - 1)]) >= 1);
            assert(ncount(pre.grid@[cell_index(w, xi - 1, yi + 1)]) >= 1);
            assert(ncount(pre.grid@[cell_index(w, xi + 1, yi + 1)]) >= 1);
        }
        let wu = self.width as usize;
        let c = self.grid[i];
        let cleared = reset_life(c);
        self.grid.set(i, cleared);
        self.decr(i - 1);
        self.decr(i + 1);
        self.decr(i - wu);
        self.decr(i + wu);
        self.decr(i - wu - 1);
        self.decr(i - wu + 1);
        self.decr(i + wu - 1);
        self.decr(i + wu + 1);
        self.paint(x, y, RawColor::from_single(0));
        proof {
            let post = *self;
            assert(!post.alive(xi, yi));
            assert(post.neighbor_count(xi, yi) == pre.neighbor_count(xi, yi));
            assert forall|u: int, v: int|
                pre.in_grid(u, v) && !(u == xi && v == yi) implies #[trigger] post.alive(u, v)
                == pre.alive(u, v) by {
                lemma_cell_index_bounds(w, h, u, v);
                lemma_index_vs_neighborhood(w, h, xi, yi, u, v);
            }
            assert forall|u: int, v: int|
                pre.in_grid(u, v) && is_neighbor(u, v, xi, yi) implies #[trigger] post.neighbor_count(
                u,
                v,
            ) == pre.neighbor_count(u, v) - 1 by {
                lemma_cell_index_bounds(w, h, u, v);
                lemma_index_vs_neighborhood(w, h, xi, yi, u, v);
            }
            assert forall|u: int, v: int|
                pre.in_grid(u, v) && !is_neighbor(u, v, xi, yi) && !(u == xi && v == yi)
                implies #[trigger] post.neighbor_count(u, v) == pre.neighbor_count(u, v) by {
                lemma_cell_index_bounds(w, h, u, v);
                lemma_index_vs_neighborhood(w, h, xi, yi, u, v);
            }
            lemma_reset_restores_wf(pre, post, xi, yi);
        }
    }

    /// Advances the board exactly one generation over the whole inner region,
    /// in row-major order. Every cell's fate is decided from a snapshot of
    /// the cell bytes as they stood when the call began, so births and deaths
    /// made earlier in the scan never influence a later decision; the live
    /// arrays' neighbor counts are still maintained incrementally at every
    /// intermediate step.
    pub fn tick(&mut self)
        requires
            old(self).wf(),
        ensures
            final(self).wf(),
            ticked(*old(self), *final(self)),
    {
        let ghost g0 = *old(self);
        let ghost w = g0.spec_width() as int;
        let ghost h = g0.spec_height() as int;
        let snap = copy_vec(&self.grid);
        let width = self.width;
        let height = self.height;
        let mut y: u32 = 1;
        while y < height - 1
            invariant
                g0.wf(),
                self.wf(),
                self.spec_width() == g0.spec_width(),
                self.spec_height() == g0.spec_height(),
                width == g0.spec_width(),
                height == g0.spec_height(),
                w == g0.spec_width() as int,
                h == g0.spec_height() as int,
                snap@ == g0.grid@,
                1 <= (y as int) && (y as int) <= h - 1,
                self.spec_buf().len() == g0.spec_buf().len(),
                forall|u: int, v: int|
                    #[trigger] self.alive(u, v) == (if v < y as int && g0.in_inner(u, v) {
                        g0.step_alive(u, v)
                    } else {
                        g0.alive(u, v)
                    }),
                forall|u: int, v: int|
                    g0.in_grid(u, v) ==> #[trigger] pixel_quartet(*self, u, v) == (if self.alive(
                        u,
                        v,
                    ) == g0.alive(u, v) {
                        pixel_quartet(g0, u, v)
                    } else if self.alive(u, v) {
                        white_quartet()
                    } else {
                        black_quartet()
                    }),
            decreases h - 1 - y as int,
        {
            let mut x: u32 = 1;
            while x < width - 1
                invariant
                    g0.wf(),
                    self.wf(),
                    self.spec_width() == g0.spec_width(),
                    self.spec_height() == g0.spec_height(),
                    width == g0.spec_width(),
                    height == g0.spec_height(),
                    w == g0.spec_width() as int,
                    h == g0.spec_height() as int,
                    snap@ == g0.grid@,
                    1 <= (y as int) && (y as int) < h - 1,
                    1 <= (x as int) && (x as int) <= w - 1,
                    self.spec_buf().len() == g0.spec_buf().len(),
                    forall|u: int, v: int|
                        #[trigger] self.alive(u, v) == (if (v < y as int || (v == y as int && u < x
                            as int)) && g0.in_inner(u, v) {
                            g0.step_alive(u, v)
                        } else {
                            g0.alive(u, v)
                        }),
                    forall|u: int, v: int|
                        g0.in_grid(u, v) ==> #[trigger] pixel_quartet(*self, u, v) == (if self.alive(
                            u,
                            v,
                        ) == g0.alive(u, v) {
                            pixel_quartet(g0, u, v)
                        } else if self.alive(u, v) {
                            white_quartet()
                        } else {
                            black_quartet()
                        }),
                decreases w - 1 - x as int,
            {
                let ghost xi = x as int;
                let ghost yi = y as int;
                let i = self.index(x, y);
                let c = snap[i];
                let cnt = reset_life(c);
                proof {
                    assert(g0.neighbor_count(xi, yi) == g0.live_neighbors(xi, yi));
                    assert(self.alive(xi, yi) == g0.alive(xi, yi));
                }
                let ghost before = *self;
                if is_set(c) {
                    if cnt != 2 && cnt != 3 {
                        self.reset(x, y);
                    }
                } else if cnt == 3 {
                    self.set(x, y);
                }
                proof {
                    assert forall|u: int, v: int|
                        #[trigger] self.alive(u, v) == (if (v < yi || (v == yi && u < xi + 1))
                            && g0.in_inner(u, v) {
                            g0.step_alive(u, v)
                        } else {
                            g0.alive(u, v)
                        }) by {
                        if u == xi && v == yi {
                            assert(g0.step_alive(xi, yi) == (if g0.alive(xi, yi) {
                                g0.live_neighbors(xi, yi) == 2 || g0.live_neighbors(xi, yi) == 3
                            } else {
                                g0.live_neighbors(xi, yi) == 3
                            }));
                        }
                    }
                    if self.alive(xi, yi) != before.alive(xi, yi) {
                        if self.alive(xi, yi) {
                            lemma_quartets_painted(before, *self, xi, yi, gray(255));
                        } else {
                            lemma_quartets_painted(before, *self, xi, yi, gray(0));
                        }
                    }
                    assert forall|u: int, v: int|
                        g0.in_grid(u, v) implies #[trigger] pixel_quartet(*self, u, v) == (
                    if self.alive(u, v) == g0.alive(u, v) {
                        pixel_quartet(g0, u, v)
                    } else if self.alive(u, v) {
                        white_quartet()
                    } else {
                        black_quartet()
                    }) by {
                        if !(u == xi && v == yi) {
                            assert(self.alive(u, v) == before.alive(u, v));
                            assert(pixel_quartet(before, u, v) == (if before.alive(u, v)
                                == g0.alive(u, v) {
                                pixel_quartet(g0, u, v)
                            } else if before.alive(u, v) {
                                white_quartet()
                            } else {
                                black_quartet()
                            }));
                        }
                    }
                }
                x = x + 1;
            }
            proof {
                assert forall|u: int, v: int|
                    #[trigger] self.alive(u, v) == (if v < y as int + 1 && g0.in_inner(u, v) {
                        g0.step_alive(u, v)
                    } else {
                        g0.alive(u, v)
                    }) by {
                    if v == y as int && g0.in_inner(u, v) {
                        assert(u < w - 1);
                    }
                }
            }
            y = y + 1;
        }
        proof {
            assert forall|u: int, v: int|
                #[trigger] self.alive(u, v) == (g0.in_inner(u, v) && g0.step_alive(u, v)) by {
                if g0.in_inner(u, v) {
                    assert(v < h - 1);
                } else {
                    assert(!g0.alive(u, v));
                }
            }
        }
    }
}

/// Waking exactly the cell (x, y) raises the true live-neighbor number of a
/// cell by one precisely when (x, y) lies in its Moore neighborhood.
proof fn lemma_ln_after_birth(pre: Life, post: Life, x: int, y: int, u: int, v: int)
    requires
        post.spec_width() == pre.spec_width(),
        post.spec_height() == pre.spec_height(),
        !pre.alive(x, y),
        forall|p: int, q: int| #[trigger] post.alive(p, q) == (pre.alive(p, q) || (p == x && q
            == y)),
    ensures
        post.live_neighbors(u, v) == pre.live_neighbors(u, v) + one_if(is_neighbor(u, v, x, y)),
{
}

/// Killing exactly the cell (x, y) lowers the true live-neighbor number of a
/// cell by one precisely when (x, y) lies in its Moore neighborhood.
proof fn lemma_ln_after_death(pre: Life, post: Life, x: int, y: int, u: int, v: int)
    requires
        post.spec_width() == pre.spec_width(),
        post.spec_height() == pre.spec_height(),
        pre.alive(x, y),
        forall|p: int, q: int| #[trigger] post.alive(p, q) == (pre.alive(p, q) && !(p == x && q
            == y)),
    ensures
        post.live_neighbors(u, v) == pre.live_neighbors(u, v) - one_if(is_neighbor(u, v, x, y)),
{
}

/// A change that wakes exactly the in-grid cell (x, y) and touches no other
/// alive flag yields the pointwise map of the new alive predicate.
#[verifier::spinoff_prover]
proof fn lemma_alive_map_birth(pre: Life, post: Life, x: int, y: int)
    requires
        post.spec_width() == pre.spec_width(),
        post.spec_height() == pre.spec_height(),
        pre.in_grid(x, y),
        !pre.alive(x, y),
        post.alive(x, y),
        forall|u: int, v: int|
            pre.in_grid(u, v) && !(u == x && v == y) ==> #[trigger] post.alive(u, v) == pre.alive(
                u,
                v,
            ),
    ensures
        forall|p: int, q: int| #[trigger] post.alive(p, q) == (pre.alive(p, q) || (p == x && q
            == y)),
{
    assert forall|p: int, q: int| #[trigger] post.alive(p, q) == (pre.alive(p, q) || (p == x && q
        == y)) by {
        if !pre.in_grid(p, q) {
            assert(!post.in_grid(p, q));
            assert(!post.alive(p, q));
            assert(!pre.alive(p, q));
        }
    }
}

/// A change that kills exactly the in-grid cell (x, y) and touches no other
/// alive flag yields the pointwise map of the new alive predicate.
#[verifier::spinoff_prover]
proof fn lemma_alive_map_death(pre: Life, post: Life, x: int, y: int)
    requires
        post.spec_width() == pre.spec_width(),
        post.spec_height() == pre.spec_height(),
        pre.in_grid(x, y),
        pre.alive(x, y),
        !post.alive(x, y),
        forall|u: int, v: int|
            pre.in_grid(u, v) && !(u == x && v == y) ==> #[trigger] post.alive(u, v) == pre.alive(
                u,
                v,
            ),
    ensures
        forall|p: int, q: int| #[trigger] post.alive(p, q) == (pre.alive(p, q) && !(p == x && q
            == y)),
{
    assert forall|p: int, q: int| #[trigger] post.alive(p, q) == (pre.alive(p, q) && !(p == x && q
        == y)) by {
        if !pre.in_grid(p, q) {
            assert(!post.in_grid(p, q));
            assert(!post.alive(p, q));
            assert(!pre.alive(p, q));
        }
    }
}

/// Once the eight neighbor counts around the woken cell (x, y) have been
/// raised by one and no other count changed, every stored count again equals
/// the true number of live neighbors.
#[verifier::spinoff_prover]
proof fn lemma_counts_after_birth(pre: Life, post: Life, x: int, y: int)
    requires
        post.spec_width() == pre.spec_width(),
        post.spec_height() == pre.spec_height(),
        !pre.alive(x, y),
        forall|p: int, q: int| #[trigger] post.alive(p, q) == (pre.alive(p, q) || (p == x && q
            == y)),
        forall|u: int, v: int|
            pre.in_grid(u, v) ==> #[trigger] pre.neighbor_count(u, v) == pre.live_neighbors(u, v),
        post.neighbor_count(x, y) == pre.neighbor_count(x, y),
        forall|u: int, v: int|
            pre.in_grid(u, v) && is_neighbor(u, v, x, y) ==> #[trigger] post.neighbor_count(u, v)
                == pre.neighbor_count(u, v) + 1,
        forall|u: int, v: int|
            pre.in_grid(u, v) && !is_neighbor(u, v, x, y) && !(u == x && v == y)
                ==> #[trigger] post.neighbor_count(u, v) == pre.neighbor_count(u, v),
    ensures
        forall|u: int, v: int|
            post.in_grid(u, v) ==> #[trigger] post.neighbor_count(u, v) == post.live_neighbors(
                u,
                v,
            ),
{
    assert forall|u: int, v: int| post.in_grid(u, v) implies #[trigger] post.neighbor_count(u, v)
        == post.live_neighbors(u, v) by {
        lemma_ln_after_birth(pre, post, x, y, u, v);
        assert(pre.neighbor_count(u, v) == pre.live_neighbors(u, v));
        if is_neighbor(u, v, x, y) {
            assert(post.neighbor_count(u, v) == pre.neighbor_count(u, v) + 1);
        } else if !(u == x && v == y) {
            assert(post.neighbor_count(u, v) == pre.neighbor_count(u, v));
        }
    }
}

/// Once the eight neighbor counts around the killed cell (x, y) have been
/// lowered by one and no other count changed, every stored count again equals
/// the true number of live neighbors.
#[verifier::spinoff_prover]
proof fn lemma_counts_after_death(pre: Life, post: Life, x: int, y: int)
    requires
        post.spec_width() == pre.spec_width(),
        post.spec_height() == pre.spec_height(),
        pre.alive(x, y),
        forall|p: int, q: int| #[trigger] post.alive(p, q) == (pre.alive(p, q) && !(p == x && q
            == y)),
        forall|u: int, v: int|
            pre.in_grid(u, v) ==> #[trigger] pre.neighbor_count(u, v) == pre.live_neighbors(u, v),
        post.neighbor_count(x, y) == pre.neighbor_count(x, y),
        forall|u: int, v: int|
            pre.in_grid(u, v) && is_neighbor(u, v, x, y) ==> #[trigger] post.neighbor_count(u, v)
                == pre.neighbor_count(u, v) - 1,
        forall|u: int, v: int|
            pre.in_grid(u, v) && !is_neighbor(u, v, x, y) && !(u == x && v == y)
                ==> #[trigger] post.neighbor_count(u, v) == pre.neighbor_count(u, v),
    ensures
        forall|u: int, v: int|
            post.in_grid(u, v) ==> #[trigger] post.neighbor_count(u, v) == post.live_neighbors(
                u,
                v,
            ),
{
    assert forall|u: int, v: int| post.in_grid(u, v) implies #[trigger] post.neighbor_count(u, v)
        == post.live_neighbors(u, v) by {
        lemma_ln_after_death(pre, post, x, y, u, v);
        assert(pre.neighbor_count(u, v) == pre.live_neighbors(u, v));
        if is_neighbor(u, v, x, y) {
            assert(post.neighbor_count(u, v) == pre.neighbor_count(u, v) - 1);
        } else if !(u == x && v == y) {
            assert(post.neighbor_count(u, v) == pre.neighbor_count(u, v));
        }
    }
}

/// Repainting the pixel quartet of cell (x, y) with a color that renders its
/// new alive flag keeps every pixel of the board a rendering of its cell.
#[verifier::spinoff_prover]
proof fn lemma_pixels_after_paint(pre: Life, post: Life, x: int, y: int, c: RawColor)
    requires
        post.spec_width() == pre.spec_width(),
        post.spec_height() == pre.spec_height(),
        pre.in_grid(x, y),
        pre.spec_buf().len() == 4 * (pre.spec_width() as int) * (pre.spec_height() as int),
        forall|u: int, v: int| pre.in_grid(u, v) ==> #[trigger] pre.pixel_matches(u, v),
        forall|u: int, v: int|
            pre.in_grid(u, v) && !(u == x && v == y) ==> #[trigger] post.alive(u, v) == pre.alive(
                u,
                v,
            ),
        post.spec_buf() == painted(pre.spec_buf(), pre.spec_width() as int, x, y, c),
        post.alive(x, y) ==> c == gray(255),
        !post.alive(x, y) ==> (c.r == 0 && c.g == 0 && c.b == 0),
    ensures
        forall|u: int, v: int| post.in_grid(u, v) ==> #[trigger] post.pixel_matches(u, v),
{
    let w = pre.spec_width() as int;
    let h = pre.spec_height() as int;
    lemma_pix_off_bounds(w, h, x, y);
    assert forall|u: int, v: int| post.in_grid(u, v) implies #[trigger] post.pixel_matches(
        u,
        v,
    ) by {
        lemma_pix_off_bounds(w, h, u, v);
        if u == x && v == y {
            assert(post.pixel_matches(u, v));
        } else {
            lemma_pix_off_injective(w, x, y, u, v);
            assert(pre.pixel_matches(u, v));
            assert(post.alive(u, v) == pre.alive(u, v));
            assert(post.pixel_matches(u, v));
        }
    }
}

/// Repainting the pixel quartet of cell (x, y) changes that quartet to the
/// painted color and no other quartet, and keeps the buffer's length.
#[verifier::spinoff_prover]
proof fn lemma_quartets_painted(pre: Life, post: Life, x: int, y: int, c: RawColor)
    requires
        post.spec_width() == pre.spec_width(),
        post.spec_height() == pre.spec_height(),
        pre.in_grid(x, y),
        pre.spec_buf().len() == 4 * (pre.spec_width() as int) * (pre.spec_height() as int),
        post.spec_buf() == painted(pre.spec_buf(), pre.spec_width() as int, x, y, c),
    ensures
        post.spec_buf().len() == pre.spec_buf().len(),
        pixel_quartet(post, x, y) == (c.r, c.g, c.b, c.a),
        forall|u: int, v: int|
            pre.in_grid(u, v) && !(u == x && v == y) ==> #[trigger] pixel_quartet(post, u, v)
                == pixel_quartet(pre, u, v),
{
    let w = pre.spec_width() as int;
    let h = pre.spec_height() as int;
    lemma_pix_off_bounds(w, h, x, y);
    assert forall|u: int, v: int|
        pre.in_grid(u, v) && !(u == x && v == y) implies #[trigger] pixel_quartet(post, u, v)
        == pixel_quartet(pre, u, v) by {
        lemma_pix_off_bounds(w, h, u, v);
        lemma_pix_off_injective(w, x, y, u, v);
    }
}

/// After waking the dead inner cell (x, y) — flag set, all eight neighbor
/// counts raised by one, its pixel painted white-opaque, everything else
/// untouched — the board invariant holds again.
#[verifier::spinoff_prover]
proof fn lemma_set_restores_wf(pre: Life, post: Life, x: int, y: int)
    requires
        pre.wf(),
        pre.in_inner(x, y),
        !pre.alive(x, y),
        post.spec_width() == pre.spec_width(),
        post.spec_height() == pre.spec_height(),
        post.grid@.len() == pre.grid@.len(),
        post.alive(x, y),
        post.neighbor_count(x, y) == pre.neighbor_count(x, y),
        forall|u: int, v: int|
            pre.in_grid(u, v) && !(u == x && v == y) ==> #[trigger] post.alive(u, v) == pre.alive(
                u,
                v,
            ),
        forall|u: int, v: int|
            pre.in_grid(u, v) && is_neighbor(u, v, x, y) ==> #[trigger] post.neighbor_count(u, v)
                == pre.neighbor_count(u, v) + 1,
        forall|u: int, v: int|
            pre.in_grid(u, v) && !is_neighbor(u, v, x, y) && !(u == x && v == y)
                ==> #[trigger] post.neighbor_count(u, v) == pre.neighbor_count(u, v),
        post.spec_buf() == painted(pre.spec_buf(), pre.spec_width() as int, x, y, gray(255)),
    ensures
        post.wf(),
        forall|u: int, v: int| #[trigger] post.alive(u, v) == (pre.alive(u, v) || (u == x && v
            == y)),
{
    lemma_pix_off_bounds(pre.spec_width() as int, pre.spec_height() as int, x, y);
    lemma_alive_map_birth(pre, post, x, y);
    lemma_counts_after_birth(pre, post, x, y);
    lemma_pixels_after_paint(pre, post, x, y, gray(255));
    assert forall|u: int, v: int| #[trigger] post.alive(u, v) implies post.in_inner(u, v) by {
        assert(pre.alive(u, v) || (u == x && v == y));
    }
}

/// After killing the live inner cell (x, y) — flag cleared, all eight
/// neighbor counts lowered by one, its pixel painted black-opaque,
/// everything else untouched — the board invariant holds again.
#[verifier::spinoff_prover]
proof fn lemma_reset_restores_wf(pre: Life, post: Life, x: int, y: int)
    requires
        pre.wf(),
        pre.in_inner(x, y),
        pre.alive(x, y),
        post.spec_width() == pre.spec_width(),
        post.spec_height() == pre.spec_height(),
        post.grid@.len() == pre.grid@.len(),
        !post.alive(x, y),
        post.neighbor_count(x, y) == pre.neighbor_count(x, y),
        forall|u: int, v: int|
            pre.in_grid(u, v) && !(u == x && v == y) ==> #[trigger] post.alive(u, v) == pre.alive(
                u,
                v,
            ),
        forall|u: int, v: int|
            pre.in_grid(u, v) && is_neighbor(u, v, x, y) ==> #[trigger] post.neighbor_count(u, v)
                == pre.neighbor_count(u, v) - 1,
        forall|u: int, v: int|
            pre.in_grid(u, v) && !is_neighbor(u, v, x, y) && !(u == x && v == y)
                ==> #[trigger] post.neighbor_count(u, v) == pre.neighbor_count(u, v),
        post.spec_buf() == painted(pre.spec_buf(), pre.spec_width() as int, x, y, gray(0)),
    ensures
        post.wf(),
        forall|u: int, v: int| #[trigger] post.alive(u, v) == (pre.alive(u, v) && !(u == x && v
            == y)),
{
    lemma_pix_off_bounds(pre.spec_width() as int, pre.spec_height() as int, x, y);
    lemma_alive_map_death(pre, post, x, y);
    lemma_counts_after_death(pre, post, x, y);
    lemma_pixels_after_paint(pre, post, x, y, gray(0));
    assert forall|u: int, v: int| #[trigger] post.alive(u, v) implies post.in_inner(u, v) by {
        assert(pre.alive(u, v));
    }
}

/// Copies a byte vector.
fn copy_vec(src: &Vec<u8>) -> (dst: Vec<u8>)
    ensures
        dst@ == src@,
{
    let mut dst: Vec<u8> = Vec::new();
    let mut k: usize = 0;
    while k < src.len()
        invariant
            k <= src@.len(),
            dst@.len() == k,
            forall|i: int| 0 <= i < k ==> dst@[i] == src@[i],
        decreases src@.len() - k,
    {
        dst.push(src[k]);
        k = k + 1;
    }
    proof {
        assert(dst@ =~= src@);
    }
    dst
}

/// Allocates a zero-filled byte vector of length `n`.
fn zero_vec(n: usize) -> (v: Vec<u8>)
    ensures
        v@.len() == n,
        forall|i: int| 0 <= i < n ==> v@[i] == 0u8,
{
    let mut v: Vec<u8> = Vec::new();
    let mut k: usize = 0;
    while k < n
        invariant
            k <= n,
            v@.len() == k,
            forall|i: int| 0 <= i < k ==> v@[i] == 0u8,
        decreases n - k,
    {
        v.push(0);
        k = k + 1;
    }
    v
}

/// Law: between completed operations, the count stored for any cell equals
/// the true number of live cells in its Moore neighborhood.
pub proof fn lemma_count_is_live_neighbors(g: Life, x: int, y: int)
    requires
        g.wf(),
        g.in_grid(x, y),
    ensures
        g.neighbor_count(x, y) == g.live_neighbors(x, y),
{
    assert(g.neighbor_count(x, y) == g.live_neighbors(x, y));
}

/// Law: border cells are always dead; only the inner region ever holds live
/// cells.
pub proof fn lemma_border_stays_dead(g: Life, x: int, y: int)
    requires
        g.wf(),
        !g.in_inner(x, y),
    ensures
        !g.alive(x, y),
{
    if g.alive(x, y) {
        assert(g.in_inner(x, y));
    }
}

/// Law: every pixel renders its cell. The pixel of cell (x, y) is
/// white-opaque exactly when the cell is live; the red, green and blue bytes
/// of a dead cell's pixel are zero. (The alpha byte of a dead cell is 255
/// once the cell has ever been painted, but 0 straight after construction,
/// whose buffer is zero-filled.)
pub proof fn lemma_pixel_reflects_cell(g: Life, x: int, y: int)
    requires
        g.wf(),
        g.in_grid(x, y),
    ensures
        g.alive(x, y) <==> (g.spec_buf()[pix_off(g.spec_width() as int, x, y)] == 255
            && g.spec_buf()[pix_off(g.spec_width() as int, x, y) + 1] == 255 && g.spec_buf()[pix_off(
            g.spec_width() as int,
            x,
            y,
        ) + 2] == 255 && g.spec_buf()[pix_off(g.spec_width() as int, x, y) + 3] == 255),
        !g.alive(x, y) ==> (g.spec_buf()[pix_off(g.spec_width() as int, x, y)] == 0
            && g.spec_buf()[pix_off(g.spec_width() as int, x, y) + 1] == 0 && g.spec_buf()[pix_off(
            g.spec_width() as int,
            x,
            y,
        ) + 2] == 0),
{
    assert(g.pixel_matches(x, y));
}

/// The buffer of a well-formed board holds exactly `4 * width * height`
/// bytes — the length `get_buf` and `put_buf` ask for — and the dimensions
/// are at least 3. `new`, `set` and `tick` all keep boards well-formed.
pub proof fn lemma_buffer_len(g: Life)
    requires
        g.wf(),
    ensures
        g.spec_buf().len() == 4 * (g.spec_width() as int) * (g.spec_height() as int),
        g.spec_width() >= 3,
        g.spec_height() >= 3,
{
}

/// Two boards of the same dimensions whose cells all carry equal pixel
/// quartets have equal buffers: every byte of a full-size buffer belongs to
/// exactly one cell's quartet.
#[verifier::spinoff_prover]
pub proof fn lemma_quartets_cover(pre: Life, post: Life)
    requires
        post.spec_width() == pre.spec_width(),
        post.spec_height() == pre.spec_height(),
        pre.spec_width() >= 1,
        pre.spec_buf().len() == 4 * (pre.spec_width() as int) * (pre.spec_height() as int),
        post.spec_buf().len() == pre.spec_buf().len(),
        forall|x: int, y: int|
            pre.in_grid(x, y) ==> #[trigger] pixel_quartet(post, x, y) == pixel_quartet(pre, x, y),
    ensures
        post.spec_buf() == pre.spec_buf(),
{
    let w = pre.spec_width() as int;
    let h = pre.spec_height() as int;
    assert forall|k: int| 0 <= k < pre.spec_buf().len() implies post.spec_buf()[k]
        == pre.spec_buf()[k] by {
        let q = k / 4;
        let r = k % 4;
        lemma_fundamental_div_mod(k, 4);
        lemma_mod_bound(k, 4);
        lemma_div_pos_is_pos(k, 4);
        let x = q % w;
        let y = q / w;
        lemma_fundamental_div_mod(q, w);
        lemma_mod_bound(q, w);
        lemma_div_pos_is_pos(q, w);
        assert(4 * (w * h) == 4 * w * h) by (nonlinear_arith);
        assert(q < w * h);
        assert(y < h) by (nonlinear_arith)
            requires
                q == w * y + x,
                0 <= x < w,
                q < w * h,
                0 <= y,
        ;
        assert(x + y * w == q) by (nonlinear_arith)
            requires
                q == w * y + x,
        ;
        assert(pre.in_grid(x, y));
        assert(pixel_quartet(post, x, y) == pixel_quartet(pre, x, y));
        assert(k == pix_off(w, x, y) + r);
    }
    assert(post.spec_buf() =~= pre.spec_buf());
}

/// Law: one generation of an all-dead board is all-dead.
pub proof fn lemma_tick_preserves_all_dead(pre: Life, post: Life)
    requires
        pre.wf(),
        forall|x: int, y: int| !(#[trigger] pre.alive(x, y)),
        ticked(pre, post),
    ensures
        forall|x: int, y: int| !(#[trigger] post.alive(x, y)),
        post.spec_buf() == pre.spec_buf(),
{
    assert forall|x: int, y: int| !(#[trigger] post.alive(x, y)) by {
        assert(!pre.alive(x, y));
        assert(pre.live_neighbors(x, y) == 0);
    }
    assert forall|x: int, y: int|
        pre.in_grid(x, y) implies #[trigger] pixel_quartet(post, x, y) == pixel_quartet(
        pre,
        x,
        y,
    ) by {
        assert(!post.alive(x, y));
        assert(!pre.alive(x, y));
    }
    lemma_quartets_cover(pre, post);
}

/// A two-by-two block of live cells with its lower corner at (a, b),
/// surrounded by dead cells only.
pub open spec fn block_at(g: Life, a: int, b: int) -> bool {
    forall|u: int, v: int|
        #[trigger] g.alive(u, v) == ((u == a || u == a + 1) && (v == b || v == b + 1))
}

/// Law: the two-by-two block is a still life — one generation maps a board
/// holding exactly a block onto a board holding exactly the same block, so by
/// induction any number of generations leaves it unchanged.
#[verifier::spinoff_prover]
#[verifier::rlimit(60)]
pub proof fn lemma_block_is_still_life(pre: Life, post: Life, a: int, b: int)
    requires
        pre.wf(),
        block_at(pre, a, b),
        ticked(pre, post),
    ensures
        block_at(post, a, b),
        post.spec_buf() == pre.spec_buf(),
{
    assert forall|u: int, v: int|
        #[trigger] post.alive(u, v) == ((u == a || u == a + 1) && (v == b || v == b + 1)) by {
        assert(post.alive(u, v) == (pre.in_inner(u, v) && pre.step_alive(u, v)));
        if (u == a || u == a + 1) && (v == b || v == b + 1) {
            assert(pre.alive(u, v));
            assert(pre.in_inner(u, v));
            assert(pre.live_neighbors(u, v) == 3);
        }
    }
    assert forall|u: int, v: int|
        pre.in_grid(u, v) implies #[trigger] pixel_quartet(post, u, v) == pixel_quartet(
        pre,
        u,
        v,
    ) by {
        assert(post.alive(u, v) == pre.alive(u, v));
    }
    lemma_quartets_cover(pre, post);
}

/// A horizontal blinker: exactly the three cells (c-1, r), (c, r), (c+1, r)
/// are live.
pub open spec fn blinker_h_at(g: Life, c: int, r: int) -> bool {
    forall|u: int, v: int|
        #[trigger] g.alive(u, v) == (v == r && (u == c - 1 || u == c || u == c + 1))
}

/// A vertical blinker: exactly the three cells (c, r-1), (c, r), (c, r+1)
/// are live.
pub open spec fn blinker_v_at(g: Life, c: int, r: int) -> bool {
    forall|u: int, v: int|
        #[trigger] g.alive(u, v) == (u == c && (v == r - 1 || v == r || v == r + 1))
}

/// Law: one generation turns a horizontal blinker into a vertical one, in
/// place. The cells above and below the center must lie in the inner region.
#[verifier::spinoff_prover]
#[verifier::rlimit(60)]
pub proof fn lemma_blinker_flips_horizontal(pre: Life, post: Life, c: int, r: int)
    requires
        pre.wf(),
        blinker_h_at(pre, c, r),
        pre.in_inner(c, r - 1),
        pre.in_inner(c, r + 1),
        ticked(pre, post),
    ensures
        blinker_v_at(post, c, r),
{
    assert forall|u: int, v: int|
        #[trigger] post.alive(u, v) == (u == c && (v == r - 1 || v == r || v == r + 1)) by {
        assert(post.alive(u, v) == (pre.in_inner(u, v) && pre.step_alive(u, v)));
        if u == c && (v == r - 1 || v == r + 1) {
            assert(pre.live_neighbors(u, v) == 3);
        } else if u == c && v == r {
            assert(pre.alive(u, v));
            assert(pre.live_neighbors(u, v) == 2);
        }
    }
}

/// Law: one generation turns a vertical blinker back into a horizontal one,
/// in place. The cells left and right of the center must lie in the inner
/// region.
#[verifier::spinoff_prover]
#[verifier::rlimit(60)]
pub proof fn lemma_blinker_flips_vertical(pre: Life, post: Life, c: int, r: int)
    requires
        pre.wf(),
        blinker_v_at(pre, c, r),
        pre.in_inner(c - 1, r),
        pre.in_inner(c + 1, r),
        ticked(pre, post),
    ensures
        blinker_h_at(post, c, r),
{
    assert forall|u: int, v: int|
        #[trigger] post.alive(u, v) == (v == r && (u == c - 1 || u == c || u == c + 1)) by {
        assert(post.alive(u, v) == (pre.in_inner(u, v) && pre.step_alive(u, v)));
        if v == r && (u == c - 1 || u == c + 1) {
            assert(pre.live_neighbors(u, v) == 3);
        } else if u == c && v == r {
            assert(pre.alive(u, v));
            assert(pre.live_neighbors(u, v) == 2);
        }
    }
}

/// Law: the blinker oscillates with period two — horizontal at generation 0,
/// vertical at generation 1, horizontal again at generation 2.
pub proof fn lemma_blinker_period_two(g0: Life, g1: Life, g2: Life, c: int, r: int)
    requires
        g0.wf(),
        g1.wf(),
        blinker_h_at(g0, c, r),
        g0.in_inner(c, r - 1),
        g0.in_inner(c, r + 1),
        ticked(g0, g1),
        ticked(g1, g2),
    ensures
        blinker_v_at(g1, c, r),
        blinker_h_at(g2, c, r),
{
    lemma_blinker_flips_horizontal(g0, g1, c, r);
    assert(g0.alive(c - 1, r) && g0.alive(c + 1, r));
    assert(g0.in_inner(c - 1, r) && g0.in_inner(c + 1, r));
    lemma_blinker_flips_vertical(g1, g2, c, r);
}

/// The five cells of the standard glider, as offsets from its anchor.
pub open spec fn glider_phase0(dx: int, dy: int) -> bool {
    ||| (dx == 1 && dy == 0)
    ||| (dx == 2 && dy == 1)
    ||| (dx == 0 && dy == 2)
    ||| (dx == 1 && dy == 2)
    ||| (dx == 2 && dy == 2)
}

/// The glider one generation on.
pub open spec fn glider_phase1(dx: int, dy: int) -> bool {
    ||| (dx == 0 && dy == 1)
    ||| (dx == 2 && dy == 1)
    ||| (dx == 1 && dy == 2)
    ||| (dx == 2 && dy == 2)
    ||| (dx == 1 && dy == 3)
}

/// The glider two generations on.
pub open spec fn glider_phase2(dx: int, dy: int) -> bool {
    ||| (dx == 2 && dy == 1)
    ||| (dx == 0 && dy == 2)
    ||| (dx == 2 && dy == 2)
    ||| (dx == 1 && dy == 3)
    ||| (dx == 2 && dy == 3)
}

/// The glider three generations on.
pub open spec fn glider_phase3(dx: int, dy: int) -> bool {
    ||| (dx == 1 && dy == 1)
    ||| (dx == 2 && dy == 2)
    ||| (dx == 3 && dy == 2)
    ||| (dx == 1 && dy == 3)
    ||| (dx == 2 && dy == 3)
}

/// Exactly the five cells of the standard glider, anchored at (a, b), are
/// live.
pub open spec fn glider_at(g: Life, a: int, b: int) -> bool {
    forall|u: int, v: int| #[trigger] g.alive(u, v) == glider_phase0(u - a, v - b)
}

/// Enough border clearance for a glider anchored at (a, b) to step once: the
/// four-by-four box it moves through lies in the inner region.
pub open spec fn glider_room(g: Life, a: int, b: int) -> bool {
    1 <= a && 1 <= b && a + 3 <= g.spec_width() - 2 && b + 3 <= g.spec_height() - 2
}

#[verifier::spinoff_prover]
#[verifier::rlimit(100)]
proof fn lemma_glider_first_step(pre: Life, post: Life, a: int, b: int)
    requires
        pre.wf(),
        glider_room(pre, a, b),
        forall|u: int, v: int| #[trigger] pre.alive(u, v) == glider_phase0(u - a, v - b),
        ticked(pre, post),
    ensures
        forall|u: int, v: int| #[trigger] post.alive(u, v) == glider_phase1(u - a, v - b),
{
    assert forall|u: int, v: int|
        #[trigger] post.alive(u, v) == glider_phase1(u - a, v - b) by {
        assert(post.alive(u, v) == (pre.in_inner(u, v) && pre.step_alive(u, v)));
        if glider_phase1(u - a, v - b) {
            assert(pre.in_inner(u, v));
            if (u == a && v == b + 1) || (u == a + 2 && v == b + 1) || (u == a + 1 && v == b + 2)
                || (u == a + 1 && v == b + 3) {
                assert(pre.live_neighbors(u, v) == 3);
            } else {
                assert(pre.alive(u, v));
                assert(pre.live_neighbors(u, v) == 2);
            }
        }
    }
}

#[verifier::spinoff_prover]
#[verifier::rlimit(100)]
proof fn lemma_glider_second_step(pre: Life, post: Life, a: int, b: int)
    requires
        pre.wf(),
        glider_room(pre, a, b),
        forall|u: int, v: int| #[trigger] pre.alive(u, v) == glider_phase1(u - a, v - b),
        ticked(pre, post),
    ensures
        forall|u: int, v: int| #[trigger] post.alive(u, v) == glider_phase2(u - a, v - b),
{
    assert forall|u: int, v: int|
        #[trigger] post.alive(u, v) == glider_phase2(u - a, v - b) by {
        assert(post.alive(u, v) == (pre.in_inner(u, v) && pre.step_alive(u, v)));
        if glider_phase2(u - a, v - b) {
            assert(pre.in_inner(u, v));
            if (u == a && v == b + 2) || (u == a + 2 && v == b + 2) || (u == a + 2 && v == b + 3) {
                assert(pre.live_neighbors(u, v) == 3);
            } else {
                assert(pre.alive(u, v));
                assert(pre.live_neighbors(u, v) == 2);
            }
        }
    }
}

#[verifier::spinoff_prover]
#[verifier::rlimit(100)]
proof fn lemma_glider_third_step(pre: Life, post: Life, a: int, b: int)
    requires
        pre.wf(),
        glider_room(pre, a, b),
        forall|u: int, v: int| #[trigger] pre.alive(u, v) == glider_phase2(u - a, v - b),
        ticked(pre, post),
    ensures
        forall|u: int, v: int| #[trigger] post.alive(u, v) == glider_phase3(u - a, v - b),
{
    assert forall|u: int, v: int|
        #[trigger] post.alive(u, v) == glider_phase3(u - a, v - b) by {
        assert(post.alive(u, v) == (pre.in_inner(u, v) && pre.step_alive(u, v)));
        if glider_phase3(u - a, v - b) {
            assert(pre.in_inner(u, v));
            if (u == a + 1 && v == b + 1) || (u == a + 2 && v == b + 2) || (u == a + 3 && v == b
                + 2) || (u == a + 1 && v == b + 3) {
                assert(pre.live_neighbors(u, v) == 3);
            } else {
                assert(pre.alive(u, v));
                assert(pre.live_neighbors(u, v) == 2);
            }
        }
    }
}

#[verifier::spinoff_prover]
#[verifier::rlimit(100)]
proof fn lemma_glider_fourth_step(pre: Life, post: Life, a: int, b: int)
    requires
        pre.wf(),
        glider_room(pre, a, b),
        forall|u: int, v: int| #[trigger] pre.alive(u, v) == glider_phase3(u - a, v - b),
        ticked(pre, post),
    ensures
        forall|u: int, v: int| #[trigger] post.alive(u, v) == glider_phase0(u - (a + 1), v - (b
            + 1)),
{
    assert forall|u: int, v: int|
        #[trigger] post.alive(u, v) == glider_phase0(u - (a + 1), v - (b + 1)) by {
        assert(post.alive(u, v) == (pre.in_inner(u, v) && pre.step_alive(u, v)));
        if glider_phase0(u - (a + 1), v - (b + 1)) {
            assert(pre.in_inner(u, v));
            if (u == a + 2 && v == b + 1) || (u == a + 2 && v == b + 3) || (u == a + 3 && v == b
                + 3) {
                assert(pre.live_neighbors(u, v) == 3);
            } else {
                assert(pre.alive(u, v));
                assert(pre.live_neighbors(u, v) == 2);
            }
        }
    }
}

/// Law: four generations carry the standard glider one cell right and one
/// cell down — the same shape, translated by (+1, +1) — given enough border
/// clearance.
pub proof fn lemma_glider_translates(
    g0: Life,
    g1: Life,
    g2: Life,
    g3: Life,
    g4: Life,
    a: int,
    b: int,
)
    requires
        g0.wf(),
        g1.wf(),
        g2.wf(),
        g3.wf(),
        glider_room(g0, a, b),
        glider_at(g0, a, b),
        ticked(g0, g1),
        ticked(g1, g2),
        ticked(g2, g3),
        ticked(g3, g4),
    ensures
        glider_at(g4, a + 1, b + 1),
{
    lemma_glider_first_step(g0, g1, a, b);
    lemma_glider_second_step(g1, g2, a, b);
    lemma_glider_third_step(g2, g3, a, b);
    lemma_glider_fourth_step(g3, g4, a, b);
}

} // verus!
