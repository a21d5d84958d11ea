//! The tile grid of a frame, tiles in it, and what is remembered of each cell.

use crate::bits::{bit_set, count_ones_below, lemma_masked_bit, lemma_shifted_bit, ones_below};
use vstd::arithmetic::div_mod::{
    lemma_fundamental_div_mod, lemma_fundamental_div_mod_converse, lemma_mod_bound,
};
use vstd::prelude::*;

verus! {

/// The tile grid laid over one frame: `tiles_x` columns of `tile_width` pixels
/// and `tiles_y` rows of `tile_height`. The frame rarely divides evenly; the
/// last column and row absorb the remainder.
#[derive(Clone, Copy, Debug, PartialEq, Eq, Structural)]
pub struct Grid {
    pub tiles_x: u32,
    pub tiles_y: u32,
    pub tile_width: u32,
    pub tile_height: u32,
    pub frame_width: u32,
    pub frame_height: u32,
}

/// `v`, but at least one.
pub open spec fn at_least_one(v: int) -> int {
    if v < 1 {
        1
    } else {
        v
    }
}

/// How many pieces of size `b` cover `a`.
pub open spec fn div_ceil(a: int, b: int) -> int {
    (a + b - 1) / b
}

/// How many columns a grid over a frame of `frame_width` has when `tiles_x`
/// are asked for: at least one, and no more than there are pixels.
pub open spec fn grid_columns(tiles_x: int, frame_width: int) -> int {
    if tiles_x < 1 {
        1
    } else if tiles_x > frame_width {
        frame_width
    } else {
        tiles_x
    }
}

/// The grid over a frame, cells keeping the frame's aspect ratio.
pub open spec fn grid_over(tiles_x: int, frame_width: int, frame_height: int) -> Grid {
    let fw = at_least_one(frame_width);
    let fh = at_least_one(frame_height);
    let columns = grid_columns(tiles_x, fw);
    let tile_width = fw / columns;
    let tile_height = at_least_one(tile_width * fh / fw);
    Grid {
        tiles_x: columns as u32,
        tiles_y: div_ceil(fh, tile_height) as u32,
        tile_width: tile_width as u32,
        tile_height: tile_height as u32,
        frame_width: fw as u32,
        frame_height: fh as u32,
    }
}

impl Grid {
    /// Cells are not empty, the columns fit in the frame, and every row starts
    /// inside it while the last one reaches its bottom edge.
    pub open spec fn well_formed(self) -> bool {
        &&& 1 <= self.tiles_x
        &&& 1 <= self.tiles_y
        &&& 1 <= self.tile_width
        &&& 1 <= self.tile_height
        &&& self.tiles_x * self.tile_width <= self.frame_width
        &&& (self.tiles_y - 1) * self.tile_height < self.frame_height
        &&& self.frame_height <= self.tiles_y * self.tile_height
    }

    /// Where column `tx` starts.
    pub open spec fn column_start(self, tx: int) -> int {
        tx * self.tile_width
    }

    /// Where column `tx` ends: the last column reaches the frame's right edge.
    pub open spec fn column_end(self, tx: int) -> int {
        if tx + 1 >= self.tiles_x {
            self.frame_width as int
        } else {
            (tx + 1) * self.tile_width
        }
    }

    /// Where row `ty` starts.
    pub open spec fn row_start(self, ty: int) -> int {
        ty * self.tile_height
    }

    /// Where row `ty` ends: the last row reaches the frame's bottom edge, and
    /// none reaches past it.
    pub open spec fn row_end(self, ty: int) -> int {
        if ty + 1 >= self.tiles_y || (ty + 1) * self.tile_height > self.frame_height {
            self.frame_height as int
        } else {
            (ty + 1) * self.tile_height
        }
    }

    /// The pixel rect `(x, y, width, height)` of a cell, counted row by row.
    pub open spec fn rect_of(self, index: int) -> (int, int, int, int) {
        let tx = index % self.tiles_x as int;
        let ty = index / self.tiles_x as int;
        (
            self.column_start(tx),
            self.row_start(ty),
            self.column_end(tx) - self.column_start(tx),
            self.row_end(ty) - self.row_start(ty),
        )
    }

    /// How many cells there are.
    pub open spec fn cells(self) -> int {
        self.tiles_x * self.tiles_y
    }

    /// `tiles_x` columns over a `frame_width` by `frame_height` frame.
    /// Degenerate sizes are clamped to at least one pixel per tile.
    pub fn new(tiles_x: u32, frame_width: u32, frame_height: u32) -> (grid: Self)
        ensures
            grid == grid_over(tiles_x as int, frame_width as int, frame_height as int),
            grid.well_formed(),
            grid.tiles_x <= grid.frame_width,
            grid.tiles_y <= grid.frame_height,
    {
        let fw: u32 = if frame_width < 1 {
            1
        } else {
            frame_width
        };
        let fh: u32 = if frame_height < 1 {
            1
        } else {
            frame_height
        };
        let columns: u32 = if tiles_x < 1 {
            1
        } else if tiles_x > fw {
            fw
        } else {
            tiles_x
        };
        let tile_width: u32 = fw / columns;
        proof {
            lemma_grid_columns(fw as int, columns as int);
            assert(tile_width * fh <= fw * fh) by (nonlinear_arith)
                requires
                    tile_width <= fw,
            ;
            assert(fw * fh <= 0xffff_ffff * 0xffff_ffff) by (nonlinear_arith)
                requires
                    fw <= 0xffff_ffff,
                    fh <= 0xffff_ffff,
            ;
            lemma_scaled_height(tile_width as int, fh as int, fw as int);
        }
        let scaled: u64 = tile_width as u64 * fh as u64 / fw as u64;
        let tile_height: u32 = if scaled < 1 {
            1
        } else {
            scaled as u32
        };
        let tiles_y: u32 = ((fh as u64 + tile_height as u64 - 1) / tile_height as u64) as u32;
        proof {
            lemma_grid_rows(fh as int, tile_height as int);
        }
        Grid { tiles_x: columns, tiles_y, tile_width, tile_height, frame_width: fw, frame_height: fh }
    }

    /// How many cells there are.
    pub fn cell_count(&self) -> (n: usize)
        requires
            self.cells() <= u32::MAX,
        ensures
            n == self.cells(),
    {
        (self.tiles_x * self.tiles_y) as usize
    }

    /// Pixel range `[start, end)` covered by columns `tx_start..=tx_end`.
    pub fn x_span(&self, tx_start: u32, tx_end: u32) -> (span: (u32, u32))
        requires
            tx_end < u32::MAX,
            self.column_start(tx_start as int) <= u32::MAX,
            self.column_end(tx_end as int) <= u32::MAX,
        ensures
            span.0 == self.column_start(tx_start as int),
            span.1 == self.column_end(tx_end as int),
    {
        let end: u32 = if tx_end + 1 >= self.tiles_x {
            self.frame_width
        } else {
            (tx_end + 1) * self.tile_width
        };
        (tx_start * self.tile_width, end)
    }

    /// Pixel range `[start, end)` covered by rows `ty_start..=ty_end`.
    pub fn y_span(&self, ty_start: u32, ty_end: u32) -> (span: (u32, u32))
        requires
            ty_end < u32::MAX,
            self.row_start(ty_start as int) <= u32::MAX,
            ty_end + 1 < self.tiles_y ==> (ty_end + 1) * self.tile_height <= u32::MAX,
        ensures
            span.0 == self.row_start(ty_start as int),
            span.1 == self.row_end(ty_end as int),
    {
        let end: u32 = if ty_end + 1 >= self.tiles_y {
            self.frame_height
        } else {
            let below: u32 = (ty_end + 1) * self.tile_height;
            if below > self.frame_height {
                self.frame_height
            } else {
                below
            }
        };
        (ty_start * self.tile_height, end)
    }

    /// Pixel rect `(x, y, width, height)` of cell `index`, counted row by row.
    pub fn cell_rect(&self, index: usize) -> (rect: (u32, u32, u32, u32))
        requires
            self.well_formed(),
            index < self.cells(),
            self.cells() <= u32::MAX,
        ensures
            (rect.0 as int, rect.1 as int, rect.2 as int, rect.3 as int) == self.rect_of(index as int),
            rect.2 > 0,
            rect.3 > 0,
            rect.0 + rect.2 <= self.frame_width,
            rect.1 + rect.3 <= self.frame_height,
    {
        let tx: u32 = index as u32 % self.tiles_x;
        let ty: u32 = index as u32 / self.tiles_x;
        proof {
            lemma_cell_row(index as int, self.tiles_x as int, self.tiles_y as int);
            lemma_cell_spans(*self, tx as int, ty as int);
        }
        let (x0, x1): (u32, u32) = self.x_span(tx, tx);
        let (y0, y1): (u32, u32) = self.y_span(ty, ty);
        (x0, y0, x1 - x0, y1 - y0)
    }
}

proof fn lemma_grid_columns(fw: int, columns: int)
    requires
        1 <= columns <= fw,
    ensures
        1 <= fw / columns <= fw,
        columns * (fw / columns) <= fw,
{
    lemma_fundamental_div_mod(fw, columns);
    lemma_mod_bound(fw, columns);
    let q = fw / columns;
    assert(q >= 1) by (nonlinear_arith)
        requires
            fw == columns * q + fw % columns,
            fw % columns < columns,
            columns <= fw,
            columns >= 1,
    ;
    assert(q <= fw) by (nonlinear_arith)
        requires
            fw == columns * q + fw % columns,
            fw % columns >= 0,
            columns >= 1,
            q >= 1,
    ;
}

proof fn lemma_scaled_height(tile_width: int, fh: int, fw: int)
    requires
        1 <= tile_width <= fw,
        1 <= fh,
    ensures
        0 <= tile_width * fh / fw <= fh,
{
    let p = tile_width * fh;
    assert(0 <= p <= fw * fh) by (nonlinear_arith)
        requires
            p == tile_width * fh,
            1 <= tile_width <= fw,
            1 <= fh,
    ;
    lemma_fundamental_div_mod(p, fw);
    lemma_mod_bound(p, fw);
    let q = p / fw;
    assert(q <= fh) by (nonlinear_arith)
        requires
            fw * q <= p,
            p <= fw * fh,
            fw >= 1,
    ;
    assert(q >= 0) by (nonlinear_arith)
        requires
            p == fw * q + p % fw,
            p % fw < fw,
            p >= 0,
            fw >= 1,
    ;
}

proof fn lemma_grid_rows(fh: int, tile_height: int)
    requires
        1 <= fh,
        1 <= tile_height <= fh,
    ensures
        1 <= div_ceil(fh, tile_height) <= fh,
        (div_ceil(fh, tile_height) - 1) * tile_height < fh,
        fh <= div_ceil(fh, tile_height) * tile_height,
{
    let n = fh + tile_height - 1;
    let q = n / tile_height;
    lemma_fundamental_div_mod(n, tile_height);
    lemma_mod_bound(n, tile_height);
    assert((q - 1) * tile_height == tile_height * q - tile_height) by (nonlinear_arith);
    assert(q * tile_height == tile_height * q) by (nonlinear_arith);
    assert(1 <= q <= fh) by (nonlinear_arith)
        requires
            n == tile_height * q + n % tile_height,
            0 <= n % tile_height < tile_height,
            n == fh + tile_height - 1,
            1 <= fh,
            1 <= tile_height,
    ;
}

/// Every cell index names a column and a row of the grid.
pub proof fn lemma_cell_row(index: int, tiles_x: int, tiles_y: int)
    requires
        0 <= index < tiles_x * tiles_y,
        1 <= tiles_x,
        1 <= tiles_y,
    ensures
        0 <= index % tiles_x < tiles_x,
        0 <= index / tiles_x < tiles_y,
        (index / tiles_x) * tiles_x + index % tiles_x == index,
{
    lemma_fundamental_div_mod(index, tiles_x);
    lemma_mod_bound(index, tiles_x);
    let q = index / tiles_x;
    assert(q * tiles_x == tiles_x * q) by (nonlinear_arith);
    assert(0 <= q < tiles_y) by (nonlinear_arith)
        requires
            index == tiles_x * q + index % tiles_x,
            0 <= index % tiles_x < tiles_x,
            0 <= index < tiles_x * tiles_y,
            1 <= tiles_x,
    ;
}

/// Every cell of a grid has a place inside the frame.
pub proof fn lemma_cell_spans(grid: Grid, tx: int, ty: int)
    requires
        grid.well_formed(),
        0 <= tx < grid.tiles_x,
        0 <= ty < grid.tiles_y,
    ensures
        0 <= grid.column_start(tx) < grid.column_end(tx) <= grid.frame_width,
        0 <= grid.row_start(ty) < grid.row_end(ty) <= grid.frame_height,
        tx + 1 < grid.tiles_x ==> (tx + 1) * grid.tile_width <= grid.frame_width,
        ty + 1 < grid.tiles_y ==> (ty + 1) * grid.tile_height < grid.frame_height,
{
    let (w, h) = (grid.tile_width as int, grid.tile_height as int);
    assert(0 <= tx * w && (tx + 1) * w == tx * w + w && (tx + 1) * w <= grid.tiles_x * w)
        by (nonlinear_arith)
        requires
            0 <= tx < grid.tiles_x,
            w >= 1,
    ;
    assert(0 <= ty * h && (ty + 1) * h == ty * h + h && ty * h <= (grid.tiles_y - 1) * h)
        by (nonlinear_arith)
        requires
            0 <= ty < grid.tiles_y,
            h >= 1,
    ;
    if ty + 1 < grid.tiles_y {
        assert((ty + 1) * h <= (grid.tiles_y - 1) * h) by (nonlinear_arith)
            requires
                ty + 1 <= grid.tiles_y - 1,
                h >= 1,
        ;
    }
}

/// The column a pixel column belongs to.
pub open spec fn column_of(grid: Grid, px: int) -> int {
    if px / grid.tile_width as int >= grid.tiles_x {
        grid.tiles_x - 1
    } else {
        px / grid.tile_width as int
    }
}

/// The row a pixel row belongs to.
pub open spec fn row_of(grid: Grid, py: int) -> int {
    py / grid.tile_height as int
}

/// Whether pixel `(px, py)` lies in cell `(tx, ty)`.
pub open spec fn in_cell(grid: Grid, tx: int, ty: int, px: int, py: int) -> bool {
    &&& grid.column_start(tx) <= px < grid.column_end(tx)
    &&& grid.row_start(ty) <= py < grid.row_end(ty)
}

/// The cells tile the frame exactly: each pixel of the frame lies in one cell
/// and in no other.
pub proof fn law_cells_tile_the_frame(grid: Grid, px: int, py: int)
    requires
        grid.well_formed(),
        0 <= px < grid.frame_width,
        0 <= py < grid.frame_height,
    ensures
        0 <= column_of(grid, px) < grid.tiles_x,
        0 <= row_of(grid, py) < grid.tiles_y,
        in_cell(grid, column_of(grid, px), row_of(grid, py), px, py),
        forall|tx: int, ty: int|
            0 <= tx < grid.tiles_x && 0 <= ty < grid.tiles_y && #[trigger] in_cell(
                grid,
                tx,
                ty,
                px,
                py,
            ) ==> tx == column_of(grid, px) && ty == row_of(grid, py),
{
    let (w, h) = (grid.tile_width as int, grid.tile_height as int);
    lemma_quotient(px, w);
    lemma_quotient(py, h);
    assert((px / w + 1) * w == (px / w) * w + w) by (nonlinear_arith);
    assert((py / h + 1) * h == (py / h) * h + h) by (nonlinear_arith);
    assert(py / h < grid.tiles_y) by (nonlinear_arith)
        requires
            (py / h) * h <= py,
            py < grid.frame_height,
            grid.frame_height <= grid.tiles_y * h,
            h >= 1,
    ;
    let (cx, cy) = (column_of(grid, px), row_of(grid, py));
    lemma_cell_spans(grid, cx, cy);
    if px / w >= grid.tiles_x {
        assert((grid.tiles_x - 1) * w <= (px / w) * w) by (nonlinear_arith)
            requires
                px / w >= grid.tiles_x,
                w >= 1,
        ;
    }
    assert forall|tx: int, ty: int|
        0 <= tx < grid.tiles_x && 0 <= ty < grid.tiles_y && #[trigger] in_cell(
            grid,
            tx,
            ty,
            px,
            py,
        ) implies tx == cx && ty == cy by {
        lemma_cell_spans(grid, tx, ty);
        lemma_between_multiples(px, w, tx);
        lemma_between_multiples(py, h, ty);
        if tx + 1 == grid.tiles_x {
            assert(px / w >= tx) by (nonlinear_arith)
                requires
                    tx * w <= px,
                    px < (px / w) * w + w,
                    w >= 1,
            ;
        }
    }
}

proof fn lemma_quotient(a: int, b: int)
    requires
        0 <= a,
        1 <= b,
    ensures
        0 <= a / b,
        (a / b) * b <= a < (a / b) * b + b,
{
    lemma_fundamental_div_mod(a, b);
    lemma_mod_bound(a, b);
    assert(b * (a / b) == (a / b) * b) by (nonlinear_arith);
    assert(a / b >= 0) by (nonlinear_arith)
        requires
            a == b * (a / b) + a % b,
            a % b < b,
            a >= 0,
            b >= 1,
    ;
}

proof fn lemma_between_multiples(a: int, b: int, q: int)
    requires
        0 <= a,
        1 <= b,
    ensures
        q * b <= a < (q + 1) * b ==> a / b == q,
{
    lemma_quotient(a, b);
    let p = a / b;
    if q * b <= a < (q + 1) * b {
        assert(p == q) by (nonlinear_arith)
            requires
                p * b <= a < p * b + b,
                q * b <= a < (q + 1) * b,
                b >= 1,
        ;
    }
}

/// A rectangle of pixels to send, with the encoder quality wanted for it in
/// millionths: `8_000_000` stands for 8.0.
#[derive(Clone, Copy, Debug, PartialEq, Eq, Structural)]
pub struct Tile {
    pub x: u32,
    pub y: u32,
    pub width: u32,
    pub height: u32,
    pub quality: u32,
}

/// The cells a tile touches: its first and last column and row.
pub open spec fn bounds_of(tile: Tile, grid: Grid) -> (int, int, int, int) {
    let end_tx = (tile.x + tile.width - 1) / grid.tile_width as int;
    let end_ty = (tile.y + tile.height - 1) / grid.tile_height as int;
    (
        tile.x as int / grid.tile_width as int,
        tile.y as int / grid.tile_height as int,
        if end_tx < grid.tiles_x - 1 {
            end_tx
        } else {
            grid.tiles_x - 1
        },
        if end_ty < grid.tiles_y - 1 {
            end_ty
        } else {
            grid.tiles_y - 1
        },
    )
}

/// The cell a tile's top-left corner lies in.
pub open spec fn index_of_tile(tile: Tile, grid: Grid) -> int {
    (tile.y as int / grid.tile_height as int) * grid.tiles_x + tile.x as int
        / grid.tile_width as int
}

/// The cells of columns `stx..=etx` and rows `sty..=ety`, row by row.
pub open spec fn cells_between(grid: Grid, stx: int, sty: int, etx: int, ety: int) -> Seq<usize>
    decreases ety - sty + 1,
{
    if ety < sty {
        Seq::empty()
    } else {
        cells_between(grid, stx, sty, etx, ety - 1) + Seq::new(
            (etx - stx + 1) as nat,
            |k: int| (ety * grid.tiles_x + stx + k) as usize,
        )
    }
}

/// Every cell a tile covers.
pub open spec fn covered_cells(tile: Tile, grid: Grid) -> Seq<usize> {
    let b = bounds_of(tile, grid);
    cells_between(grid, b.0, b.1, b.2, b.3)
}

/// Whether numbers rise strictly.
pub open spec fn rises(s: Seq<usize>) -> bool {
    forall|a: int, b: int| 0 <= a < b < s.len() ==> #[trigger] s[a] < #[trigger] s[b]
}

/// A cell between two columns and two rows is among the cells between them.
pub proof fn lemma_cells_between_has(
    grid: Grid,
    stx: int,
    sty: int,
    etx: int,
    ety: int,
    tx: int,
    ty: int,
)
    requires
        0 <= stx <= tx <= etx < grid.tiles_x,
        0 <= sty <= ty <= ety < grid.tiles_y,
        grid.cells() <= u32::MAX,
    ensures
        cells_between(grid, stx, sty, etx, ety).contains((ty * grid.tiles_x + tx) as usize),
    decreases ety - sty,
{
    let all = cells_between(grid, stx, sty, etx, ety);
    let above = cells_between(grid, stx, sty, etx, ety - 1);
    if ty == ety {
        lemma_cell_index(ty, tx, grid.tiles_x as int, grid.tiles_y as int);
        assert(all[above.len() + (tx - stx)] == (ty * grid.tiles_x + tx) as usize);
    } else {
        lemma_cells_between_has(grid, stx, sty, etx, ety - 1, tx, ty);
        let p = choose|p: int|
            0 <= p < above.len() && above[p] == (ty * grid.tiles_x + tx) as usize;
        assert(all[p] == above[p]);
    }
}

/// The column and row of a cell that lies between two columns and two rows.
pub proof fn lemma_between(grid: Grid, stx: int, sty: int, etx: int, ety: int, i: usize)
    requires
        0 <= stx <= etx < grid.tiles_x,
        0 <= sty,
        ety < grid.tiles_y,
        grid.cells() <= u32::MAX,
        cells_between(grid, stx, sty, etx, ety).contains(i),
    ensures
        stx <= i as int % grid.tiles_x as int <= etx,
        sty <= i as int / grid.tiles_x as int <= ety,
    decreases ety - sty + 1,
{
    let all = cells_between(grid, stx, sty, etx, ety);
    let above = cells_between(grid, stx, sty, etx, ety - 1);
    let p = choose|p: int| 0 <= p < all.len() && all[p] == i;
    if p < above.len() {
        assert(above[p] == i);
        lemma_between(grid, stx, sty, etx, ety - 1, i);
    } else {
        let tx = stx + (p - above.len());
        lemma_cell_index(ety, tx, grid.tiles_x as int, grid.tiles_y as int);
        assert(i == ety * grid.tiles_x + tx);
        lemma_fundamental_div_mod_converse(i as int, grid.tiles_x as int, ety, tx);
    }
}

/// The cells between two columns and two rows are listed in rising order, and so
/// once each.
pub proof fn lemma_between_rises(grid: Grid, stx: int, sty: int, etx: int, ety: int)
    requires
        0 <= stx <= etx < grid.tiles_x,
        0 <= sty,
        ety < grid.tiles_y,
        grid.cells() <= u32::MAX,
    ensures
        rises(cells_between(grid, stx, sty, etx, ety)),
        cells_between(grid, stx, sty, etx, ety).no_duplicates(),
    decreases ety - sty + 1,
{
    if ety >= sty {
        lemma_between_rises(grid, stx, sty, etx, ety - 1);
        let all = cells_between(grid, stx, sty, etx, ety);
        let above = cells_between(grid, stx, sty, etx, ety - 1);
        let n = grid.tiles_x as int;
        assert forall|a: int, b: int| 0 <= a < b < all.len() implies #[trigger] all[a]
            < #[trigger] all[b] by {
            if b >= above.len() {
                let tx = stx + (b - above.len());
                lemma_cell_index(ety, tx, n, grid.tiles_y as int);
                assert(all[b] == ety * n + tx);
                if a >= above.len() {
                    let ux = stx + (a - above.len());
                    lemma_cell_index(ety, ux, n, grid.tiles_y as int);
                    assert(all[a] == ety * n + ux);
                } else {
                    assert(above[a] == all[a]);
                    lemma_between(grid, stx, sty, etx, ety - 1, all[a]);
                    let i = all[a] as int;
                    lemma_fundamental_div_mod(i, n);
                    assert(n * (i / n) + n <= ety * n) by (nonlinear_arith)
                        requires
                            i / n <= ety - 1,
                            1 <= n,
                    ;
                }
            } else {
                assert(above[a] == all[a] && above[b] == all[b]);
            }
        }
    }
}

/// Whether a tile has this pixel.
pub open spec fn tile_has(tile: Tile, px: int, py: int) -> bool {
    &&& tile.x <= px < tile.x + tile.width
    &&& tile.y <= py < tile.y + tile.height
}

/// Whether cell `i` of a grid has this pixel.
pub open spec fn cell_has(grid: Grid, i: int, px: int, py: int) -> bool {
    let r = grid.rect_of(i);
    &&& r.0 <= px < r.0 + r.2
    &&& r.1 <= py < r.1 + r.3
}

/// Whether a tile and cell `i` of a grid have a pixel in common.
pub open spec fn share_a_pixel(tile: Tile, grid: Grid, i: int) -> bool {
    exists|px: int, py: int| #[trigger] tile_has(tile, px, py) && cell_has(grid, i, px, py)
}

/// Along one side: a stretch meets cell `t` just where `t` lies between the cells
/// of its two ends. Cells are `size` long, but for the last of `count`, which
/// ends at `end`.
proof fn lemma_meets(pos: int, extent: int, size: int, count: int, end: int, t: int)
    requires
        0 <= pos < end,
        1 <= extent,
        1 <= size,
        0 <= t < count,
        pos / size < count,
    ensures
        ({
            let stop = if t + 1 < count {
                (t + 1) * size
            } else {
                end
            };
            let last = (pos + extent - 1) / size;
            (pos < stop && t * size < pos + extent) <==> pos / size <= t <= if last < count - 1 {
                last
            } else {
                count - 1
            }
        }),
{
    let (q, last) = (pos / size, (pos + extent - 1) / size);
    lemma_fundamental_div_mod(pos, size);
    lemma_mod_bound(pos, size);
    lemma_fundamental_div_mod(pos + extent - 1, size);
    lemma_mod_bound(pos + extent - 1, size);
    assert(q <= t ==> size * q + size <= (t + 1) * size) by (nonlinear_arith)
        requires
            1 <= size,
    ;
    assert(q >= t + 1 ==> size * q >= (t + 1) * size) by (nonlinear_arith)
        requires
            1 <= size,
    ;
    assert(t <= last ==> t * size <= size * last) by (nonlinear_arith)
        requires
            1 <= size,
    ;
    assert(t >= last + 1 ==> t * size >= size * last + size) by (nonlinear_arith)
        requires
            1 <= size,
    ;
}

/// The cells that a tile covers are listed in rising order, and are just those
/// that have a pixel in common with it. The tile has pixels, and starts in a
/// column of cells and above the frame's bottom edge.
pub proof fn law_covered_cells_share_a_pixel(tile: Tile, grid: Grid)
    requires
        grid.well_formed(),
        tile.on_grid(grid),
        1 <= tile.width,
        1 <= tile.height,
        tile.y < grid.frame_height,
    ensures
        rises(covered_cells(tile, grid)),
        forall|i: usize|
            #[trigger] covered_cells(tile, grid).contains(i) <==> i < grid.cells() && share_a_pixel(
                tile,
                grid,
                i as int,
            ),
{
    let (stx, sty, etx, ety) = bounds_of(tile, grid);
    let (n, m) = (grid.tiles_x as int, grid.tiles_y as int);
    let (tw, th) = (grid.tile_width as int, grid.tile_height as int);
    let (fw, fh) = (grid.frame_width as int, grid.frame_height as int);
    let (x, y) = (tile.x as int, tile.y as int);
    let (w, h) = (tile.width as int, tile.height as int);
    lemma_between_rises(grid, stx, sty, etx, ety);
    assert(x < fw) by {
        lemma_fundamental_div_mod(x, tw);
        lemma_mod_bound(x, tw);
        assert(tw * (x / tw) + tw <= n * tw) by (nonlinear_arith)
            requires
                x / tw + 1 <= n,
                1 <= tw,
        ;
    }
    assert forall|i: usize|
        #[trigger] covered_cells(tile, grid).contains(i) <==> i < grid.cells() && share_a_pixel(
            tile,
            grid,
            i as int,
        ) by {
        if covered_cells(tile, grid).contains(i) {
            lemma_between(grid, stx, sty, etx, ety, i);
            lemma_fundamental_div_mod(i as int, n);
            lemma_cell_index(i as int / n, i as int % n, n, m);
            assert(n * (i as int / n) == (i as int / n) * n) by (nonlinear_arith);
        }
        if i < grid.cells() {
            let (tx, ty) = (i as int % n, i as int / n);
            lemma_cell_row(i as int, n, m);
            lemma_cell_spans(grid, tx, ty);
            lemma_meets(x, w, tw, n, fw, tx);
            lemma_meets(y, h, th, m, fh, ty);
            if stx <= tx <= etx && sty <= ty <= ety {
                lemma_cells_between_has(grid, stx, sty, etx, ety, tx, ty);
                let px = if x < tx * tw {
                    tx * tw
                } else {
                    x
                };
                let py = if y < ty * th {
                    ty * th
                } else {
                    y
                };
                assert(tile_has(tile, px, py) && cell_has(grid, i as int, px, py));
            }
            if share_a_pixel(tile, grid, i as int) {
                let (px, py) = choose|px: int, py: int| #[trigger]
                    tile_has(tile, px, py) && cell_has(grid, i as int, px, py);
                assert(stx <= tx <= etx && sty <= ty <= ety);
            }
        }
    }
}

impl Tile {
    /// The tile has an area, its far corner is a pixel coordinate, and the
    /// grid's cells are not empty.
    pub open spec fn measurable(self, grid: Grid) -> bool {
        &&& 1 <= grid.tile_width
        &&& 1 <= grid.tile_height
        &&& 1 <= grid.tiles_x
        &&& 1 <= grid.tiles_y
        &&& 1 <= self.x + self.width <= u32::MAX
        &&& 1 <= self.y + self.height <= u32::MAX
    }

    /// The tile starts inside the grid and touches at least one cell.
    pub open spec fn on_grid(self, grid: Grid) -> bool {
        &&& self.measurable(grid)
        &&& bounds_of(self, grid).0 <= bounds_of(self, grid).2
        &&& bounds_of(self, grid).1 <= bounds_of(self, grid).3
        &&& grid.cells() <= u32::MAX
    }

    pub fn new(x: u32, y: u32, width: u32, height: u32, quality: u32) -> (t: Self)
        ensures
            t == (Tile { x, y, width, height, quality }),
    {
        Tile { x, y, width, height, quality }
    }

    /// The squared distance of the tile's centre from `(center_x, center_y)`.
    pub fn distance_from_center(&self, center_x: u32, center_y: u32) -> (d: i32)
        requires
            self.x + self.width / 2 <= i32::MAX,
            self.y + self.height / 2 <= i32::MAX,
            center_x <= i32::MAX,
            center_y <= i32::MAX,
            squared_distance(*self, center_x as int, center_y as int) <= i32::MAX,
        ensures
            d == squared_distance(*self, center_x as int, center_y as int),
    {
        let tile_cx: i64 = self.x as i64 + (self.width / 2) as i64;
        let tile_cy: i64 = self.y as i64 + (self.height / 2) as i64;
        let dx: i64 = tile_cx - center_x as i64;
        let dy: i64 = tile_cy - center_y as i64;
        proof {
            lemma_square_bound(dx as int);
            lemma_square_bound(dy as int);
        }
        (dx * dx + dy * dy) as i32
    }

    /// The grid cells `(start_tx, start_ty, end_tx, end_ty)` this tile covers,
    /// both ends inclusive.
    pub fn grid_bounds(&self, grid: &Grid) -> (b: (u32, u32, u32, u32))
        requires
            self.measurable(*grid),
        ensures
            b.0 == bounds_of(*self, *grid).0,
            b.1 == bounds_of(*self, *grid).1,
            b.2 == bounds_of(*self, *grid).2,
            b.3 == bounds_of(*self, *grid).3,
    {
        let end_tx: u32 = (self.x + self.width - 1) / grid.tile_width;
        let end_ty: u32 = (self.y + self.height - 1) / grid.tile_height;
        (
            self.x / grid.tile_width,
            self.y / grid.tile_height,
            if end_tx < grid.tiles_x - 1 {
                end_tx
            } else {
                grid.tiles_x - 1
            },
            if end_ty < grid.tiles_y - 1 {
                end_ty
            } else {
                grid.tiles_y - 1
            },
        )
    }

    /// The cell of this tile's top-left corner. A merged tile covers more
    /// cells than this one.
    pub fn representative_index(&self, grid: &Grid) -> (index: usize)
        requires
            1 <= grid.tile_width,
            1 <= grid.tile_height,
            index_of_tile(*self, *grid) <= u32::MAX,
        ensures
            index == index_of_tile(*self, *grid),
    {
        let ty: u32 = self.y / grid.tile_height;
        let tx: u32 = self.x / grid.tile_width;
        proof {
            assert(0 <= ty * grid.tiles_x) by (nonlinear_arith);
        }
        (ty * grid.tiles_x + tx) as usize
    }

    /// Whether this tile covers exactly one cell.
    pub fn is_single_cell(&self, grid: &Grid) -> (b: bool)
        requires
            self.measurable(*grid),
        ensures
            b == covers_one_cell(*self, *grid),
    {
        let (stx, sty, etx, ety): (u32, u32, u32, u32) = self.grid_bounds(grid);
        stx == etx && sty == ety
    }

    /// Every cell this tile covers, row by row.
    pub fn covered_indices(&self, grid: &Grid) -> (indices: Vec<usize>)
        requires
            self.on_grid(*grid),
        ensures
            indices@ == covered_cells(*self, *grid),
    {
        let (stx, sty, etx, ety): (u32, u32, u32, u32) = self.grid_bounds(grid);
        let mut indices: Vec<usize> = Vec::new();
        let mut ty: u32 = sty;
        while ty <= ety
            invariant
                stx <= etx < grid.tiles_x,
                sty <= ty <= ety + 1,
                ety < grid.tiles_y,
                grid.cells() <= u32::MAX,
                indices@ == cells_between(*grid, stx as int, sty as int, etx as int, ty - 1),
            decreases ety + 1 - ty,
        {
            let ghost before = indices@;
            let mut tx: u32 = stx;
            while tx <= etx
                invariant
                    stx <= tx <= etx + 1,
                    etx < grid.tiles_x,
                    ty <= ety < grid.tiles_y,
                    grid.cells() <= u32::MAX,
                    indices@ == before + Seq::new(
                        (tx - stx) as nat,
                        |k: int| (ty * grid.tiles_x + stx + k) as usize,
                    ),
                decreases etx + 1 - tx,
            {
                proof {
                    lemma_cell_index(ty as int, tx as int, grid.tiles_x as int, grid.tiles_y as int);
                }
                let ghost row = indices@;
                indices.push((ty * grid.tiles_x + tx) as usize);
                assert(indices@ =~= before + Seq::new(
                    (tx + 1 - stx) as nat,
                    |k: int| (ty * grid.tiles_x + stx + k) as usize,
                ));
                tx += 1;
            }
            ty += 1;
        }
        indices
    }
}

/// The squared distance of a tile's centre from a point.
pub open spec fn squared_distance(tile: Tile, center_x: int, center_y: int) -> int {
    let dx = tile.x + tile.width / 2 - center_x;
    let dy = tile.y + tile.height / 2 - center_y;
    dx * dx + dy * dy
}

/// Whether a tile covers exactly one cell.
pub open spec fn covers_one_cell(tile: Tile, grid: Grid) -> bool {
    let b = bounds_of(tile, grid);
    b.0 == b.2 && b.1 == b.3
}

proof fn lemma_square_bound(d: int)
    requires
        -0x8000_0000 <= d <= 0x8000_0000,
    ensures
        0 <= d * d <= 0x4000_0000_0000_0000,
{
    assert(0 <= d * d <= 0x4000_0000_0000_0000) by (nonlinear_arith)
        requires
            -0x8000_0000 <= d <= 0x8000_0000,
    ;
}

/// The cell in column `tx` of row `ty` is one of the grid's cells.
pub proof fn lemma_cell_index(ty: int, tx: int, tiles_x: int, tiles_y: int)
    requires
        0 <= ty < tiles_y,
        0 <= tx < tiles_x,
    ensures
        0 <= ty * tiles_x,
        0 <= ty * tiles_x + tx < tiles_x * tiles_y,
{
    assert(0 <= ty * tiles_x && ty * tiles_x + tiles_x <= tiles_x * tiles_y) by (nonlinear_arith)
        requires
            0 <= ty < tiles_y,
            0 < tiles_x,
    ;
}

/// The last few changed/unchanged marks of a cell, at most 64 of them, kept as
/// a bit field: the newest mark is the lowest bit.
#[derive(Clone, Copy, Debug)]
pub struct CircularBuffer {
    data: u64,
    size: u8,
    capacity: u8,
}

impl View for CircularBuffer {
    type V = Seq<bool>;

    /// The marks, oldest first.
    closed spec fn view(&self) -> Seq<bool> {
        Seq::new(self.size as nat, |i: int| bit_set(self.data, self.size - 1 - i))
    }
}

/// How many marks are set.
pub open spec fn count_true(marks: Seq<bool>) -> nat
    decreases marks.len(),
{
    if marks.len() == 0 {
        0
    } else {
        count_true(marks.drop_last()) + if marks.last() {
            1nat
        } else {
            0
        }
    }
}

/// A history of at most `limit` marks after one more mark: the oldest goes
/// when it is full.
pub open spec fn after_push(marks: Seq<bool>, limit: nat, value: bool) -> Seq<bool> {
    if marks.len() < limit {
        marks.push(value)
    } else if limit == 0 {
        marks
    } else {
        marks.drop_first().push(value)
    }
}

/// A history of at most `limit` marks after `pushed` were recorded one by one,
/// starting empty.
pub open spec fn after_pushes(pushed: Seq<bool>, limit: nat) -> Seq<bool>
    decreases pushed.len(),
{
    if pushed.len() == 0 {
        Seq::empty()
    } else {
        after_push(after_pushes(pushed.drop_last(), limit), limit, pushed.last())
    }
}

impl CircularBuffer {
    #[verifier::type_invariant]
    spec fn well_formed(self) -> bool {
        self.size <= self.capacity <= 64
    }

    /// How many marks are kept.
    pub closed spec fn limit(self) -> nat {
        self.capacity as nat
    }

    /// An empty history of at most `capacity` marks, and never more than 64.
    pub fn new(capacity: usize) -> (b: Self)
        ensures
            b@ == Seq::<bool>::empty(),
            b.limit() == (if capacity < 64 {
                capacity as nat
            } else {
                64
            }),
    {
        let capacity: u8 = if capacity < 64 {
            capacity as u8
        } else {
            64
        };
        CircularBuffer { data: 0, size: 0, capacity }
    }

    /// Records a mark; the oldest one goes when the history is full.
    pub fn push(&mut self, value: bool)
        ensures
            final(self).limit() == old(self).limit(),
            final(self)@ == after_push(old(self)@, old(self).limit(), value),
            final(self)@.len() <= final(self).limit() <= 64,
    {
        proof {
            use_type_invariant(&*self);
        }
        let size: u8 = if self.size < self.capacity {
            self.size + 1
        } else {
            self.size
        };
        let mark: u64 = if value {
            1
        } else {
            0
        };
        let shifted: u64 = (self.data << 1u64) | mark;
        let data: u64 = if self.capacity < 64 {
            let n: u64 = self.capacity as u64;
            assert(1 <= 1u64 << n) by (bit_vector)
                requires
                    n < 64,
            ;
            shifted & ((1u64 << n) - 1)
        } else {
            shifted
        };
        proof {
            assert forall|k: int| 0 <= k < size implies #[trigger] bit_set(data, k) == (if k == 0 {
                value
            } else {
                bit_set(self.data, k - 1)
            }) by {
                lemma_shifted_bit(self.data, value, k);
                if self.capacity < 64 {
                    lemma_masked_bit(shifted, self.capacity as u64, k);
                }
            }
        }
        let next = CircularBuffer { data, size, capacity: self.capacity };
        proof {
            let was = self@;
            let want = after_push(was, self.limit(), value);
            assert forall|i: int| 0 <= i < size implies next@[i] == #[trigger] want[i] by {
                assert(next@[i] == bit_set(data, size - 1 - i));
                if i < size - 1 {
                    assert(bit_set(data, size - 1 - i) == bit_set(self.data, size - 2 - i));
                }
            }
            assert(next@ =~= want);
        }
        *self = next;
    }

    /// How many of the kept marks are set.
    pub fn count_ones(&self) -> (count: u32)
        ensures
            count == count_true(self@),
            count <= self@.len(),
    {
        proof {
            use_type_invariant(self);
            lemma_count_true_is_ones(self@, self.data, self.size as nat);
        }
        count_ones_below(self.data, self.size as u32)
    }

    /// How many marks are kept at the moment.
    pub fn len(&self) -> (n: usize)
        ensures
            n == self@.len(),
            n <= 64,
    {
        proof {
            use_type_invariant(self);
        }
        self.size as usize
    }

    /// Whether no mark was recorded yet.
    pub fn is_empty(&self) -> (b: bool)
        ensures
            b == (self@.len() == 0),
    {
        self.size == 0
    }
}

/// What is remembered of one grid cell between frames.
pub struct TileMetadata {
    pub unchanged_frames: u32,
    pub last_sent_frame: u64,
    pub is_dynamic: bool,
    pub last_sent_as_dynamic: bool,
    pub change_history: CircularBuffer,
    pub last_hash_diff: u64,
    pub prev_half_hash: u64,
    /// The bytes last encoded for this cell alone.
    pub cached_encoded: Option<Vec<u8>>,
    /// The content hash those bytes belong to.
    pub cached_hash: u64,
}

/// What is remembered of one grid cell, as a value.
#[verifier::ext_equal]
pub struct CellMemory {
    pub unchanged_frames: u32,
    pub last_sent_frame: u64,
    pub is_dynamic: bool,
    pub last_sent_as_dynamic: bool,
    pub history: Seq<bool>,
    pub history_limit: nat,
    pub last_hash_diff: u64,
    pub prev_half_hash: u64,
    pub cached_encoded: Option<Seq<u8>>,
    pub cached_hash: u64,
}

impl View for TileMetadata {
    type V = CellMemory;

    open spec fn view(&self) -> CellMemory {
        CellMemory {
            unchanged_frames: self.unchanged_frames,
            last_sent_frame: self.last_sent_frame,
            is_dynamic: self.is_dynamic,
            last_sent_as_dynamic: self.last_sent_as_dynamic,
            history: self.change_history@,
            history_limit: self.change_history.limit(),
            last_hash_diff: self.last_hash_diff,
            prev_half_hash: self.prev_half_hash,
            cached_encoded: match self.cached_encoded {
                Some(bytes) => Some(bytes@),
                None => None,
            },
            cached_hash: self.cached_hash,
        }
    }
}

/// What is remembered of a cell never seen.
pub open spec fn fresh_memory() -> CellMemory {
    CellMemory {
        unchanged_frames: 0,
        last_sent_frame: 0,
        is_dynamic: false,
        last_sent_as_dynamic: false,
        history: Seq::empty(),
        history_limit: HISTORY_WINDOW as nat,
        last_hash_diff: 0,
        prev_half_hash: 0,
        cached_encoded: None,
        cached_hash: 0,
    }
}

impl TileMetadata {
    /// How often the cell changed: the number of changes and the number of
    /// frames they were counted over, the latter at least one.
    pub fn update_frequency(&self) -> (f: (u32, u32))
        ensures
            f.0 == count_true(self.change_history@),
            f.1 == at_least_one(self.change_history@.len() as int),
            f.0 <= f.1 <= 64,
    {
        let changes: u32 = self.change_history.count_ones();
        let frames: u32 = self.change_history.len() as u32;
        (
            changes,
            if frames < 1 {
                1
            } else {
                frames
            },
        )
    }
}

impl Default for TileMetadata {
    fn default() -> (m: Self)
        ensures
            m@ == fresh_memory(),
    {
        TileMetadata {
            unchanged_frames: 0,
            last_sent_frame: 0,
            is_dynamic: false,
            last_sent_as_dynamic: false,
            change_history: CircularBuffer::default(),
            last_hash_diff: 0,
            prev_half_hash: 0,
            cached_encoded: None,
            cached_hash: 0,
        }
    }
}

/// The default history window.
pub const HISTORY_WINDOW: usize = 32;

impl Default for CircularBuffer {
    fn default() -> (b: Self)
        ensures
            b@ == Seq::<bool>::empty(),
            b.limit() == HISTORY_WINDOW,
    {
        CircularBuffer::new(HISTORY_WINDOW)
    }
}

/// A history holds exactly the last `limit` marks recorded, or all of them
/// while there are fewer.
pub proof fn law_history_is_the_last_marks(pushed: Seq<bool>, limit: nat)
    ensures
        after_pushes(pushed, limit) == pushed.subrange(
            if pushed.len() > limit {
                pushed.len() - limit
            } else {
                0
            },
            pushed.len() as int,
        ),
    decreases pushed.len(),
{
    let from = if pushed.len() > limit {
        pushed.len() - limit
    } else {
        0
    };
    if pushed.len() == 0 {
        assert(pushed.subrange(from, 0) =~= Seq::<bool>::empty());
    } else {
        law_history_is_the_last_marks(pushed.drop_last(), limit);
        assert(after_pushes(pushed, limit) =~= pushed.subrange(from, pushed.len() as int));
    }
}

/// Counting marks from the newest on is counting bits from the lowest on.
proof fn lemma_count_true_is_ones(marks: Seq<bool>, data: u64, n: nat)
    requires
        n <= 64,
        marks.len() == n,
        forall|i: int| 0 <= i < n ==> #[trigger] marks[i] == bit_set(data, n - 1 - i),
    ensures
        count_true(marks) == ones_below(data, n),
    decreases n,
{
    if n > 0 {
        lemma_count_true_first(marks);
        let rest = marks.drop_first();
        assert forall|i: int| 0 <= i < n - 1 implies #[trigger] rest[i] == bit_set(
            data,
            (n - 1) - 1 - i,
        ) by {
            assert(rest[i] == marks[i + 1]);
        }
        lemma_count_true_is_ones(rest, data, (n - 1) as nat);
    }
}

proof fn lemma_count_true_first(marks: Seq<bool>)
    requires
        marks.len() > 0,
    ensures
        count_true(marks) == count_true(marks.drop_first()) + if marks[0] {
            1nat
        } else {
            0
        },
    decreases marks.len(),
{
    if marks.len() == 1 {
        assert(marks.drop_last() =~= Seq::<bool>::empty());
        assert(marks.drop_first() =~= Seq::<bool>::empty());
    } else {
        lemma_count_true_first(marks.drop_last());
        assert(marks.drop_last().drop_first() =~= marks.drop_first().drop_last());
    }
}

/// The positions of the marks that are set.
pub open spec fn marked(marks: Seq<bool>) -> Set<int> {
    Set::new(|k: int| 0 <= k < marks.len() && marks[k])
}

/// As many marks count as there are positions at which a mark is set.
pub proof fn law_marks_are_counted_by_position(marks: Seq<bool>)
    ensures
        marked(marks).finite(),
        count_true(marks) == marked(marks).len(),
        count_true(marks) <= marks.len(),
    decreases marks.len(),
{
    if marks.len() == 0 {
        assert(marked(marks) =~= Set::empty());
    } else {
        let fewer = marks.drop_last();
        law_marks_are_counted_by_position(fewer);
        if marks.last() {
            assert(marked(marks) =~= marked(fewer).insert(marks.len() - 1));
        } else {
            assert(marked(marks) =~= marked(fewer));
        }
    }
}

/// The grid over a frame has the columns that were asked for, as many as there are
/// pixels at most; they are as wide as they can be, the rows just cover the frame,
/// and cells keep the frame's aspect ratio, rounded down, but are never empty.
pub proof fn law_grid_fits_the_frame(tiles_x: int, frame_width: int, frame_height: int)
    requires
        0 <= tiles_x <= u32::MAX,
        1 <= frame_width <= u32::MAX,
        1 <= frame_height <= u32::MAX,
    ensures
        ({
            let g = grid_over(tiles_x, frame_width, frame_height);
            &&& g.well_formed()
            &&& g.frame_width == frame_width
            &&& g.frame_height == frame_height
            &&& 1 <= tiles_x <= frame_width ==> g.tiles_x == tiles_x
            &&& tiles_x > frame_width ==> g.tiles_x == frame_width
            &&& tiles_x < 1 ==> g.tiles_x == 1
            &&& g.tiles_x * g.tile_width <= frame_width < g.tiles_x * (g.tile_width + 1)
            &&& (g.tiles_y - 1) * g.tile_height < frame_height <= g.tiles_y * g.tile_height
            &&& g.tile_height <= frame_height
            &&& g.tiles_y <= frame_height
            &&& g.tile_width * frame_height < (g.tile_height + 1) * frame_width
            &&& g.tile_height == 1 || g.tile_height * frame_width <= g.tile_width * frame_height
        }),
{
    let g = grid_over(tiles_x, frame_width, frame_height);
    let columns = grid_columns(tiles_x, frame_width);
    let tw = frame_width / columns;
    lemma_grid_columns(frame_width, columns);
    lemma_fundamental_div_mod(frame_width, columns);
    lemma_mod_bound(frame_width, columns);
    assert(columns * (tw + 1) == columns * tw + columns) by (nonlinear_arith);
    lemma_scaled_height(tw, frame_height, frame_width);
    let p = tw * frame_height;
    let q = p / frame_width;
    lemma_fundamental_div_mod(p, frame_width);
    lemma_mod_bound(p, frame_width);
    assert(q * frame_width == frame_width * q && (q + 1) * frame_width == q * frame_width
        + frame_width) by (nonlinear_arith);
    let th = at_least_one(q);
    lemma_grid_rows(frame_height, th);
    assert((th + 1) * frame_width >= (q + 1) * frame_width) by (nonlinear_arith)
        requires
            th >= q,
            frame_width >= 1,
    ;
}

/// The middle of a tile and a point are as far apart as their columns and rows say,
/// by the rule of right angles.
pub proof fn law_distance_is_along_both_axes(tile: Tile, center_x: int, center_y: int)
    ensures
        squared_distance(tile, center_x, center_y) == (tile.x + tile.width / 2 - center_x) * (tile.x
            + tile.width / 2 - center_x) + (tile.y + tile.height / 2 - center_y) * (tile.y
            + tile.height / 2 - center_y),
        squared_distance(tile, center_x, center_y) >= 0,
        squared_distance(tile, center_x, center_y) == 0 <==> tile.x + tile.width / 2 == center_x
            && tile.y + tile.height / 2 == center_y,
{
    let dx = tile.x + tile.width / 2 - center_x;
    let dy = tile.y + tile.height / 2 - center_y;
    assert(dx * dx >= 0 && (dx * dx == 0 <==> dx == 0)) by (nonlinear_arith);
    assert(dy * dy >= 0 && (dy * dy == 0 <==> dy == 0)) by (nonlinear_arith);
}

/// A tile covers one cell just where no other cell has a pixel in common with it.
pub proof fn law_single_cell_tiles_share_no_other_cell(tile: Tile, grid: Grid)
    requires
        grid.well_formed(),
        tile.on_grid(grid),
        1 <= tile.width,
        1 <= tile.height,
        tile.y < grid.frame_height,
    ensures
        covers_one_cell(tile, grid) <==> forall|i: int, j: int|
            0 <= i < grid.cells() && 0 <= j < grid.cells() && #[trigger] share_a_pixel(
                tile,
                grid,
                i,
            ) && #[trigger] share_a_pixel(tile, grid, j) ==> i == j,
        covers_one_cell(tile, grid) ==> share_a_pixel(tile, grid, index_of_tile(tile, grid)),
{
    law_covered_cells_share_a_pixel(tile, grid);
    let (stx, sty, etx, ety) = bounds_of(tile, grid);
    let n = grid.tiles_x as int;
    let all = covered_cells(tile, grid);
    lemma_cells_between_has(grid, stx, sty, etx, ety, stx, sty);
    lemma_cells_between_has(grid, stx, sty, etx, ety, etx, ety);
    lemma_cell_index(sty, stx, n, grid.tiles_y as int);
    lemma_cell_index(ety, etx, n, grid.tiles_y as int);
    let (first, last) = (sty * n + stx, ety * n + etx);
    assert(all.contains(first as usize) && all.contains(last as usize));
    assert(share_a_pixel(tile, grid, first) && share_a_pixel(tile, grid, last));
    lemma_fundamental_div_mod_converse(first, n, sty, stx);
    lemma_fundamental_div_mod_converse(last, n, ety, etx);
    if covers_one_cell(tile, grid) {
        assert forall|i: int, j: int|
            0 <= i < grid.cells() && 0 <= j < grid.cells() && #[trigger] share_a_pixel(
                tile,
                grid,
                i,
            ) && #[trigger] share_a_pixel(tile, grid, j) implies i == j by {
            assert(all.contains(i as usize) && all.contains(j as usize));
            lemma_between(grid, stx, sty, etx, ety, i as usize);
            lemma_between(grid, stx, sty, etx, ety, j as usize);
            lemma_fundamental_div_mod(i, n);
            lemma_fundamental_div_mod(j, n);
        }
    }
}

/// A tile is known by the cell that its corner lies in.
pub proof fn law_tile_is_known_by_its_corner(tile: Tile, grid: Grid)
    requires
        grid.well_formed(),
        tile.on_grid(grid),
        1 <= tile.width,
        1 <= tile.height,
        tile.y < grid.frame_height,
    ensures
        0 <= index_of_tile(tile, grid) < grid.cells(),
        cell_has(grid, index_of_tile(tile, grid), tile.x as int, tile.y as int) || tile.x
            >= grid.frame_width,
{
    let (tw, th) = (grid.tile_width as int, grid.tile_height as int);
    let (tx, ty) = (tile.x as int / tw, tile.y as int / th);
    let (n, m) = (grid.tiles_x as int, grid.tiles_y as int);
    lemma_fundamental_div_mod(tile.x as int, tw);
    lemma_fundamental_div_mod(tile.y as int, th);
    lemma_mod_bound(tile.x as int, tw);
    lemma_mod_bound(tile.y as int, th);
    lemma_cell_index(ty, tx, n, m);
    lemma_fundamental_div_mod_converse(ty * n + tx, n, ty, tx);
    assert((tx + 1) * tw == tw * tx + tw && tx * tw == tw * tx) by (nonlinear_arith);
    assert((ty + 1) * th == th * ty + th && ty * th == th * ty) by (nonlinear_arith);
}

/// Of a cell that was never seen nothing is known: it was not sent, nothing of it is kept,
/// and there is room for thirty-two marks.
pub proof fn law_nothing_is_known_of_fresh_cells()
    ensures
        fresh_memory().history.len() == 0,
        fresh_memory().history_limit == 32,
        fresh_memory().last_sent_frame == 0,
        !fresh_memory().last_sent_as_dynamic,
        !fresh_memory().is_dynamic,
        fresh_memory().cached_encoded is None,
        fresh_memory().unchanged_frames == 0,
{
}

} // verus!
