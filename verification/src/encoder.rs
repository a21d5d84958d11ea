//! Merging changed cells into rectangles.
//!
//! Every column of cells is cut into vertical runs that tolerate small gaps;
//! neighbouring columns with the very same run form a group; a group is cut
//! into rectangles of at most four by four cells, so that no single encoded
//! rectangle outgrows a message.

use crate::tile::Tile;
use vstd::arithmetic::div_mod::{lemma_fundamental_div_mod, lemma_fundamental_div_mod_converse, lemma_mod_bound, lemma_mod_multiples_basic};
use vstd::prelude::*;

verus! {

/// The most columns a merged rectangle spans.
pub const MAX_MERGE_TILES_X: u32 = 4;

/// The most rows a merged rectangle spans.
pub const MAX_MERGE_TILES_Y: u32 = 4;

/// The quality, in millionths, of a rectangle without any changed cell.
pub const DEFAULT_QUALITY: u32 = 10_000_000;

/// The changed cells of a grid, row by row: `None` where nothing changed, else
/// the quality wanted.
#[verifier::ext_equal]
pub struct CellMap {
    pub columns: int,
    pub rows: int,
    pub quality: Seq<Option<u32>>,
}

impl CellMap {
    pub open spec fn well_formed(self) -> bool {
        &&& 0 <= self.columns
        &&& 0 <= self.rows
        &&& self.quality.len() == self.columns * self.rows
    }

    /// The quality wanted for the cell in column `tx` of row `ty`.
    pub open spec fn at(self, tx: int, ty: int) -> Option<u32> {
        self.quality[ty * self.columns + tx]
    }

    /// Whether that cell exists and changed.
    pub open spec fn has(self, tx: int, ty: int) -> bool {
        0 <= tx < self.columns && 0 <= ty < self.rows && self.at(tx, ty) is Some
    }
}

/// Whether the tile's corner lies in the cell in column `tx` of row `ty`.
pub open spec fn starts_in(tile: Tile, tile_width: int, tile_height: int, tx: int, ty: int) -> bool {
    tile.x as int / tile_width == tx && tile.y as int / tile_height == ty
}

/// The quality of the last tile that starts in a cell.
pub open spec fn cell_quality(
    tiles: Seq<Tile>,
    tile_width: int,
    tile_height: int,
    tx: int,
    ty: int,
) -> Option<u32>
    decreases tiles.len(),
{
    if tiles.len() == 0 {
        None
    } else if starts_in(tiles.last(), tile_width, tile_height, tx, ty) {
        Some(tiles.last().quality)
    } else {
        cell_quality(tiles.drop_last(), tile_width, tile_height, tx, ty)
    }
}

/// The cells that `tiles` change in a grid of `columns` by `rows` cells.
pub open spec fn changed_cells(
    tiles: Seq<Tile>,
    tile_width: int,
    tile_height: int,
    columns: int,
    rows: int,
) -> CellMap {
    CellMap {
        columns,
        rows,
        quality: Seq::new(
            (columns * rows) as nat,
            |i: int| cell_quality(tiles, tile_width, tile_height, i % columns, i / columns),
        ),
    }
}

/// How far apart two changed rows of one run may lie: up to `gap + 1` rows
/// between them may be unchanged.
pub open spec fn reach(gap: int) -> int {
    gap + 2
}

/// Whether a changed cell of the column lies within reach above row `y`, at or
/// below row `top`.
pub open spec fn linked_above(cells: CellMap, gap: int, tx: int, y: int, top: int) -> bool {
    exists|z: int| y - reach(gap) <= z < y && top <= z && #[trigger] cells.has(tx, z)
}

/// Whether a changed cell of the column lies within reach below row `y`, at or
/// above row `bottom`.
pub open spec fn linked_below(cells: CellMap, gap: int, tx: int, y: int, bottom: int) -> bool {
    exists|z: int| y < z <= y + reach(gap) && z <= bottom && #[trigger] cells.has(tx, z)
}

/// Whether rows `s..=e` are a run of column `tx`: both ends changed, each
/// changed cell in between has its neighbours within reach, and beyond either
/// end nothing within reach changed.
pub open spec fn is_run(cells: CellMap, gap: int, tx: int, s: int, e: int) -> bool {
    &&& s <= e
    &&& cells.has(tx, s)
    &&& cells.has(tx, e)
    &&& forall|y: int| s - reach(gap) <= y < s ==> !#[trigger] cells.has(tx, y)
    &&& forall|y: int| e < y <= e + reach(gap) ==> !#[trigger] cells.has(tx, y)
    &&& forall|y: int|
        s < y <= e && #[trigger] cells.has(tx, y) ==> linked_above(cells, gap, tx, y, s)
    &&& forall|y: int|
        s <= y < e && #[trigger] cells.has(tx, y) ==> linked_below(cells, gap, tx, y, e)
}

/// Neighbouring columns `left..=right` that share the run `top..=bottom`.
#[derive(Clone, Copy, PartialEq, Eq, Structural, Debug)]
pub struct CellRect {
    pub left: u32,
    pub top: u32,
    pub right: u32,
    pub bottom: u32,
}

/// Whether `g` is a group: every column of it has the run, and the columns
/// next to it have not.
pub open spec fn is_group(cells: CellMap, gap: int, g: CellRect) -> bool {
    &&& g.left <= g.right < cells.columns
    &&& forall|c: int|
        g.left <= c <= g.right ==> #[trigger] is_run(cells, gap, c, g.top as int, g.bottom as int)
    &&& !is_run(cells, gap, g.left - 1, g.top as int, g.bottom as int)
    &&& !is_run(cells, gap, g.right + 1, g.top as int, g.bottom as int)
}

/// Whether `r` is one of the rectangles that group `g` is cut into, four by
/// four cells from its top-left corner on.
pub open spec fn is_chunk(g: CellRect, r: CellRect) -> bool {
    &&& g.left <= r.left <= g.right
    &&& g.top <= r.top <= g.bottom
    &&& (r.left - g.left) % 4 == 0
    &&& (r.top - g.top) % 4 == 0
    &&& r.right == (if r.left + 3 < g.right {
        r.left + 3
    } else {
        g.right as int
    })
    &&& r.bottom == (if r.top + 3 < g.bottom {
        r.top + 3
    } else {
        g.bottom as int
    })
}

/// Whether `r` is one of the merged rectangles.
pub open spec fn is_merged(cells: CellMap, gap: int, r: CellRect) -> bool {
    exists|g: CellRect| #[trigger] is_group(cells, gap, g) && is_chunk(g, r)
}

/// The sum of the qualities wanted in row `ty`, over `n` cells from column
/// `left` on.
pub open spec fn row_sum(cells: CellMap, left: int, ty: int, n: nat) -> nat
    decreases n,
{
    if n == 0 {
        0
    } else {
        row_sum(cells, left, ty, (n - 1) as nat) + match cells.at(left + n - 1, ty) {
            Some(q) => q as nat,
            None => 0,
        }
    }
}

/// How many cells of row `ty` changed, over `n` cells from column `left` on.
pub open spec fn row_count(cells: CellMap, left: int, ty: int, n: nat) -> nat
    decreases n,
{
    if n == 0 {
        0
    } else {
        row_count(cells, left, ty, (n - 1) as nat) + match cells.at(left + n - 1, ty) {
            Some(q) => 1nat,
            None => 0,
        }
    }
}

/// [`row_sum`] over `n` rows from `top` on.
pub open spec fn area_sum(cells: CellMap, left: int, width: nat, top: int, n: nat) -> nat
    decreases n,
{
    if n == 0 {
        0
    } else {
        area_sum(cells, left, width, top, (n - 1) as nat) + row_sum(cells, left, top + n - 1, width)
    }
}

/// [`row_count`] over `n` rows from `top` on.
pub open spec fn area_count(cells: CellMap, left: int, width: nat, top: int, n: nat) -> nat
    decreases n,
{
    if n == 0 {
        0
    } else {
        area_count(cells, left, width, top, (n - 1) as nat) + row_count(
            cells,
            left,
            top + n - 1,
            width,
        )
    }
}

/// The quality of a rectangle: the mean over its changed cells, rounded down
/// to a millionth.
pub open spec fn mean_quality(cells: CellMap, r: CellRect) -> nat {
    let width = (r.right - r.left + 1) as nat;
    let height = (r.bottom - r.top + 1) as nat;
    let count = area_count(cells, r.left as int, width, r.top as int, height);
    if count == 0 {
        DEFAULT_QUALITY as nat
    } else {
        area_sum(cells, r.left as int, width, r.top as int, height) / count
    }
}

/// Where cells `..=last` of extent `size` end: the last of `count` cells
/// reaches the end of the frame, and none reaches past it.
pub open spec fn span_end(last: int, size: int, count: int, frame: int) -> int {
    if last + 1 >= count || (last + 1) * size > frame {
        frame
    } else {
        (last + 1) * size
    }
}

/// The tile that covers the cells of `r`.
pub open spec fn rect_tile(
    cells: CellMap,
    r: CellRect,
    tile_width: int,
    tile_height: int,
    frame_width: int,
    frame_height: int,
) -> Tile {
    let x = r.left * tile_width;
    let y = r.top * tile_height;
    Tile {
        x: x as u32,
        y: y as u32,
        width: (span_end(r.right as int, tile_width, cells.columns, frame_width) - x) as u32,
        height: (span_end(r.bottom as int, tile_height, cells.rows, frame_height) - y) as u32,
        quality: mean_quality(cells, r) as u32,
    }
}

/// The changed cells as they are stored.
struct ChangedCells {
    columns: u32,
    rows: u32,
    quality: Vec<Option<u32>>,
}

impl View for ChangedCells {
    type V = CellMap;

    closed spec fn view(&self) -> CellMap {
        CellMap { columns: self.columns as int, rows: self.rows as int, quality: self.quality@ }
    }
}

proof fn lemma_cell_at(columns: int, rows: int, tx: int, ty: int)
    requires
        0 <= tx < columns,
        0 <= ty < rows,
    ensures
        0 <= ty * columns + tx < columns * rows,
        (ty * columns + tx) % columns == tx,
        (ty * columns + tx) / columns == ty,
        0 <= ty * columns,
{
    assert(0 <= ty * columns && ty * columns + columns <= columns * rows) by (nonlinear_arith)
        requires
            0 <= ty < rows,
            0 < columns,
    ;
    lemma_fundamental_div_mod_converse(ty * columns + tx, columns, ty, tx);
}

impl ChangedCells {
    /// Sorts tiles into the cells of a grid.
    fn collect(tiles: &[Tile], tile_width: u32, tile_height: u32, columns: u32, rows: u32) -> (cells:
        ChangedCells)
        requires
            tiles@.len() > 0 ==> tile_width >= 1 && tile_height >= 1,
            columns * rows <= usize::MAX,
        ensures
            cells@ == changed_cells(
                tiles@,
                tile_width as int,
                tile_height as int,
                columns as int,
                rows as int,
            ),
    {
        let total: usize = columns as usize * rows as usize;
        let mut quality: Vec<Option<u32>> = Vec::new();
        let mut i: usize = 0;
        while i < total
            invariant
                i <= total,
                quality@.len() == i,
                forall|j: int| 0 <= j < i ==> quality@[j] is None,
            decreases total - i,
        {
            quality.push(None);
            i += 1;
        }
        let ghost (tw, th, cols) = (tile_width as int, tile_height as int, columns as int);
        let mut k: usize = 0;
        while k < tiles.len()
            invariant
                k <= tiles@.len(),
                tiles@.len() > 0 ==> tile_width >= 1 && tile_height >= 1,
                total == columns * rows,
                quality@.len() == total,
                tw == tile_width,
                th == tile_height,
                cols == columns,
                forall|j: int|
                    0 <= j < total ==> #[trigger] quality@[j] == cell_quality(
                        tiles@.take(k as int),
                        tw,
                        th,
                        j % cols,
                        j / cols,
                    ),
            decreases tiles@.len() - k,
        {
            let tile: Tile = tiles[k];
            let tx: u32 = tile.x / tile_width;
            let ty: u32 = tile.y / tile_height;
            proof {
                let next = tiles@.take(k + 1);
                assert(next.drop_last() =~= tiles@.take(k as int));
                assert(next.last() == tile);
            }
            let ghost before = quality@;
            if tx < columns && ty < rows {
                proof {
                    lemma_cell_at(columns as int, rows as int, tx as int, ty as int);
                }
                let at: usize = ty as usize * columns as usize + tx as usize;
                quality.set(at, Some(tile.quality));
            }
            assert forall|j: int| 0 <= j < total implies #[trigger] quality@[j] == cell_quality(
                tiles@.take(k + 1),
                tw,
                th,
                j % cols,
                j / cols,
            ) by {
                assert(before[j] == cell_quality(tiles@.take(k as int), tw, th, j % cols, j / cols));
                lemma_index_in_grid(j, columns as int, rows as int);
            }
            k += 1;
        }
        assert(tiles@.take(tiles@.len() as int) =~= tiles@);
        let cells = ChangedCells { columns, rows, quality };
        assert(cells@ =~= changed_cells(tiles@, tw, th, cols, rows as int));
        cells
    }

    /// The quality wanted for a cell.
    fn get(&self, tx: u32, ty: u32) -> (q: Option<u32>)
        requires
            self@.well_formed(),
            tx < self@.columns,
            ty < self@.rows,
        ensures
            q == self@.at(tx as int, ty as int),
    {
        let total: usize = self.quality.len();
        proof {
            lemma_cell_at(self@.columns, self@.rows, tx as int, ty as int);
            assert(ty * self.columns + tx < total);
        }
        self.quality[ty as usize * self.columns as usize + tx as usize]
    }
}

proof fn lemma_index_in_grid(j: int, columns: int, rows: int)
    requires
        0 <= j < columns * rows,
        0 <= columns,
        0 <= rows,
    ensures
        0 < columns,
        0 <= j % columns < columns,
        0 <= j / columns < rows,
        (j / columns) * columns + j % columns == j,
{
    assert(0 < columns) by (nonlinear_arith)
        requires
            0 <= j < columns * rows,
            0 <= columns,
            0 <= rows,
    ;
    lemma_fundamental_div_mod(j, columns);
    lemma_mod_bound(j, columns);
    let q = j / columns;
    assert(q * columns == columns * q) by (nonlinear_arith);
    assert(0 <= q < rows) by (nonlinear_arith)
        requires
            j == columns * q + j % columns,
            0 <= j % columns < columns,
            0 <= j < columns * rows,
            0 < columns,
    ;
}

/// Two runs of a column that share a row are the same run.
pub proof fn lemma_runs_disjoint(
    cells: CellMap,
    gap: int,
    tx: int,
    s: int,
    e: int,
    s2: int,
    e2: int,
    y: int,
)
    requires
        0 <= gap,
        is_run(cells, gap, tx, s, e),
        is_run(cells, gap, tx, s2, e2),
        s <= y <= e,
        s2 <= y <= e2,
    ensures
        s == s2,
        e == e2,
{
    if s < s2 {
        assert(cells.has(tx, s2));
        assert(linked_above(cells, gap, tx, s2, s));
    }
    if s2 < s {
        assert(cells.has(tx, s));
        assert(linked_above(cells, gap, tx, s, s2));
    }
    if e < e2 {
        assert(cells.has(tx, e));
        assert(linked_below(cells, gap, tx, e, e2));
    }
    if e2 < e {
        assert(cells.has(tx, e2));
        assert(linked_below(cells, gap, tx, e2, e));
    }
}

/// Whether `runs` are runs of column `tx`, from top to bottom and out of each
/// other's reach.
spec fn runs_so_far(cells: CellMap, gap: int, tx: int, runs: Seq<(u32, u32)>) -> bool {
    &&& forall|k: int|
        0 <= k < runs.len() ==> is_run(
            cells,
            gap,
            tx,
            (#[trigger] runs[k]).0 as int,
            runs[k].1 as int,
        )
    &&& forall|j: int, k: int|
        0 <= j < k < runs.len() ==> (#[trigger] runs[j]).1 + reach(gap) < (#[trigger] runs[k]).0
}

/// Whether row `y` lies in one of `runs`.
spec fn in_some_run(runs: Seq<(u32, u32)>, y: int) -> bool {
    exists|k: int| 0 <= k < runs.len() && (#[trigger] runs[k]).0 <= y <= runs[k].1
}

pub struct TileMerger {
    merge_gap: u32,
}

impl TileMerger {
    /// How many unchanged rows beyond one a run tolerates.
    pub closed spec fn gap(&self) -> int {
        self.merge_gap as int
    }

    /// The gap is a count of rows.
    pub proof fn lemma_gap(&self)
        ensures
            0 <= self.gap() <= u32::MAX,
    {
    }

    pub fn new(merge_gap: u32) -> (m: Self)
        ensures
            m.gap() == merge_gap,
    {
        TileMerger { merge_gap }
    }

    /// The vertical runs of one column, from top to bottom.
    fn column_runs(&self, cells: &ChangedCells, tx: u32) -> (runs: Vec<(u32, u32)>)
        requires
            cells@.well_formed(),
            tx < cells@.columns,
        ensures
            runs_so_far(cells@, self.gap(), tx as int, runs@),
            forall|s: u32, e: u32|
                #[trigger] is_run(cells@, self.gap(), tx as int, s as int, e as int)
                    ==> runs@.contains((s, e)),
    {
        let ghost gap = self.gap();
        let ghost c = tx as int;
        let mut runs: Vec<(u32, u32)> = Vec::new();
        let mut open = false;
        let mut start: u32 = 0;
        let mut last: u32 = 0;
        let mut ty: u32 = 0;
        while ty < cells.rows
            invariant
                cells@.well_formed(),
                c == tx < cells@.columns,
                cells@.rows == cells.rows,
                gap == self.merge_gap,
                ty <= cells.rows,
                runs_so_far(cells@, gap, c, runs@),
                open ==> start <= last < ty && cells@.has(c, start as int) && cells@.has(
                    c,
                    last as int,
                ),
                open ==> forall|y: int|
                    start - reach(gap) <= y < start ==> !#[trigger] cells@.has(c, y),
                open ==> forall|y: int| last < y < ty ==> !#[trigger] cells@.has(c, y),
                open ==> forall|y: int|
                    start < y <= last && #[trigger] cells@.has(c, y) ==> linked_above(
                        cells@,
                        gap,
                        c,
                        y,
                        start as int,
                    ),
                open ==> forall|y: int|
                    start <= y < last && #[trigger] cells@.has(c, y) ==> linked_below(
                        cells@,
                        gap,
                        c,
                        y,
                        last as int,
                    ),
                open ==> ty <= last + reach(gap),
                open ==> forall|k: int|
                    0 <= k < runs@.len() ==> (#[trigger] runs@[k]).1 + reach(gap) < start,
                !open ==> forall|k: int|
                    0 <= k < runs@.len() ==> (#[trigger] runs@[k]).1 + reach(gap) < ty,
                forall|y: int|
                    0 <= y < ty && #[trigger] cells@.has(c, y) ==> in_some_run(runs@, y) || (open
                        && start <= y <= last),
            decreases cells.rows - ty,
        {
            let here = cells.get(tx, ty);
            if here.is_some() {
                assert(cells@.has(c, ty as int));
                if !open {
                    start = ty;
                    proof {
                        assert forall|y: int| start - reach(gap) <= y < start implies !#[trigger] cells@.has(
                            c,
                            y,
                        ) by {
                            if cells@.has(c, y) {
                                assert(in_some_run(runs@, y));
                                let k = choose|k: int|
                                    0 <= k < runs@.len() && (#[trigger] runs@[k]).0 <= y
                                        <= runs@[k].1;
                                assert(runs@[k].1 + reach(gap) < ty);
                            }
                        }
                    }
                } else {
                    proof {
                        assert(linked_above(cells@, gap, c, ty as int, start as int)) by {
                            assert(cells@.has(c, last as int));
                        }
                        assert forall|y: int|
                            start <= y < ty && #[trigger] cells@.has(c, y) implies linked_below(
                            cells@,
                            gap,
                            c,
                            y,
                            ty as int,
                        ) by {
                            if y < last {
                                assert(linked_below(cells@, gap, c, y, last as int));
                                let z = choose|z: int|
                                    y < z <= y + reach(gap) && z <= last && #[trigger] cells@.has(
                                        c,
                                        z,
                                    );
                                assert(cells@.has(c, z));
                            } else {
                                assert(y == last);
                                assert(cells@.has(c, ty as int));
                            }
                        }
                    }
                }
                open = true;
                last = ty;
            } else {
                assert(!cells@.has(c, ty as int));
                if open && ty - last - 1 > self.merge_gap {
                    proof {
                        assert(ty == last + reach(gap));
                        assert(is_run(cells@, gap, c, start as int, last as int));
                        lemma_run_added(runs@, start, last);
                    }
                    runs.push((start, last));
                    open = false;
                }
            }
            ty += 1;
        }
        if open {
            proof {
                assert(is_run(cells@, gap, c, start as int, last as int));
                lemma_run_added(runs@, start, last);
            }
            runs.push((start, last));
        }
        proof {
            assert forall|s: u32, e: u32| #[trigger] is_run(cells@, gap, c, s as int, e as int) implies runs@.contains(
            (s, e)) by {
                assert(cells@.has(c, s as int));
                assert(in_some_run(runs@, s as int));
                let k = choose|k: int|
                    0 <= k < runs@.len() && (#[trigger] runs@[k]).0 <= s <= runs@[k].1;
                lemma_runs_disjoint(
                    cells@,
                    gap,
                    c,
                    s as int,
                    e as int,
                    runs@[k].0 as int,
                    runs@[k].1 as int,
                    s as int,
                );
                assert(runs@[k] == (s, e));
            }
        }
        runs
    }

    /// The runs of every column.
    fn all_runs(&self, cells: &ChangedCells) -> (all: Vec<Vec<(u32, u32)>>)
        requires
            cells@.well_formed(),
        ensures
            runs_of_all(cells@, self.gap(), all@),
    {
        let mut all: Vec<Vec<(u32, u32)>> = Vec::new();
        let mut tx: u32 = 0;
        while tx < cells.columns
            invariant
                cells@.well_formed(),
                cells@.columns == cells.columns,
                tx <= cells.columns,
                all@.len() == tx,
                forall|c: int| 0 <= c < tx ==> #[trigger] runs_of(cells@, self.gap(), c, all@[c]@),
            decreases cells.columns - tx,
        {
            let runs = self.column_runs(cells, tx);
            proof {
                assert forall|s: u32, e: u32| #[trigger] runs@.contains((s, e)) implies is_run(
                    cells@,
                    self.gap(),
                    tx as int,
                    s as int,
                    e as int,
                ) by {
                    let k = choose|k: int| 0 <= k < runs@.len() && runs@[k] == (s, e);
                    assert(is_run(
                        cells@,
                        self.gap(),
                        tx as int,
                        runs@[k].0 as int,
                        runs@[k].1 as int,
                    ));
                }
            }
            all.push(runs);
            tx += 1;
        }
        all
    }

    /// The groups of neighbouring columns that share a run.
    fn groups(&self, cells: &ChangedCells) -> (groups: Vec<CellRect>)
        requires
            cells@.well_formed(),
            cells@.columns <= u32::MAX,
        ensures
            groups@.no_duplicates(),
            forall|g: CellRect|
                #[trigger] groups@.contains(g) <==> is_group(cells@, self.gap(), g),
    {
        let ghost gap = self.gap();
        let all: Vec<Vec<(u32, u32)>> = self.all_runs(cells);
        let columns: u32 = cells.columns;
        let mut groups: Vec<CellRect> = Vec::new();
        let mut tx: u32 = 0;
        while tx < columns
            invariant
                cells@.columns == columns,
                gap == self.gap(),
                runs_of_all(cells@, gap, all@),
                tx <= columns,
                groups@.no_duplicates(),
                forall|g: CellRect|
                    #[trigger] groups@.contains(g) <==> is_group(cells@, gap, g) && g.left < tx,
            decreases columns - tx,
        {
            let runs: &Vec<(u32, u32)> = &all[tx as usize];
            assert(runs_of(cells@, gap, tx as int, runs@));
            let mut k: usize = 0;
            while k < runs.len()
                invariant
                    cells@.columns == columns,
                    gap == self.gap(),
                    runs_of_all(cells@, gap, all@),
                    tx < columns,
                    runs == all@[tx as int],
                    runs_of(cells@, gap, tx as int, runs@),
                    k <= runs@.len(),
                    groups@.no_duplicates(),
                    forall|g: CellRect|
                        #[trigger] groups@.contains(g) <==> is_group(cells@, gap, g) && (g.left < tx
                            || (g.left == tx && runs@.take(k as int).contains((g.top, g.bottom)))),
                decreases runs@.len() - k,
            {
                let (s, e): (u32, u32) = runs[k];
                let ghost before = groups@;
                proof {
                    assert(runs@[k as int] == (s, e));
                    assert(runs@.contains((s, e)));
                    lemma_take_push(runs@, k as int);
                    lemma_not_earlier(cells@, gap, tx as int, runs@, k as int);
                }
                let continued = tx > 0 && has_run(&all[(tx - 1) as usize], s, e);
                proof {
                    if tx > 0 {
                        assert(runs_of(cells@, gap, tx - 1, all@[tx - 1]@));
                    }
                    assert(continued == is_run(cells@, gap, tx - 1, s as int, e as int));
                }
                if !continued {
                    let mut right: u32 = tx;
                    let mut more = true;
                    while more
                        invariant
                            cells@.columns == columns,
                            runs_of_all(cells@, gap, all@),
                            tx <= right < columns,
                            forall|c: int|
                                tx <= c <= right ==> #[trigger] is_run(
                                    cells@,
                                    gap,
                                    c,
                                    s as int,
                                    e as int,
                                ),
                            !more ==> !is_run(cells@, gap, right + 1, s as int, e as int),
                        decreases
                                columns - right + if more {
                                    1int
                                } else {
                                    0
                                },
                    {
                        if right + 1 < columns {
                            assert(runs_of(cells@, gap, right + 1, all@[right + 1]@));
                        }
                        if right + 1 < columns && has_run(&all[(right + 1) as usize], s, e) {
                            right += 1;
                        } else {
                            more = false;
                        }
                    }
                    let g = CellRect { left: tx, top: s, right, bottom: e };
                    proof {
                        assert(is_group(cells@, gap, g));
                        lemma_push_unique(groups@, g);
                        assert forall|h: CellRect|
                            is_group(cells@, gap, h) && h.left == tx && h.top == s && h.bottom
                                == e implies h == g by {
                            lemma_group_width(cells@, gap, g, h);
                        }
                    }
                    groups.push(g);
                }
                proof {
                    assert forall|h: CellRect|
                        #[trigger] groups@.contains(h) <==> is_group(cells@, gap, h) && (h.left < tx
                            || (h.left == tx && runs@.take(k + 1).contains((h.top, h.bottom)))) by {
                        if continued {
                            assert(groups@ == before);
                        } else {
                            lemma_contains_push(before, groups@[before.len() as int], h);
                        }
                    }
                }
                k += 1;
            }
            proof {
                assert(runs@.take(runs@.len() as int) =~= runs@);
                assert forall|h: CellRect| is_group(cells@, gap, h) && h.left == tx implies runs@.contains(
                (h.top, h.bottom)) by {
                    assert(is_run(cells@, gap, tx as int, h.top as int, h.bottom as int));
                }
            }
            tx += 1;
        }
        groups
    }
}

/// Whether `runs` are exactly the runs of column `tx`, each once.
spec fn runs_of(cells: CellMap, gap: int, tx: int, runs: Seq<(u32, u32)>) -> bool {
    &&& runs_so_far(cells, gap, tx, runs)
    &&& forall|s: u32, e: u32|
        #![trigger runs.contains((s, e))]
        #![trigger is_run(cells, gap, tx, s as int, e as int)]
        runs.contains((s, e)) <==> is_run(cells, gap, tx, s as int, e as int)
}

/// Whether `all` holds the runs of every column.
spec fn runs_of_all(cells: CellMap, gap: int, all: Seq<Vec<(u32, u32)>>) -> bool {
    &&& all.len() == cells.columns
    &&& forall|c: int| 0 <= c < all.len() ==> #[trigger] runs_of(cells, gap, c, all[c]@)
}

/// Whether a list of runs holds `s..=e`.
fn has_run(runs: &Vec<(u32, u32)>, s: u32, e: u32) -> (b: bool)
    ensures
        b == runs@.contains((s, e)),
{
    let mut k: usize = 0;
    while k < runs.len()
        invariant
            k <= runs@.len(),
            forall|j: int| 0 <= j < k ==> runs@[j] != (s, e),
        decreases runs@.len() - k,
    {
        if runs[k].0 == s && runs[k].1 == e {
            assert(runs@[k as int] == (s, e));
            return true;
        }
        k += 1;
    }
    false
}

proof fn lemma_take_push<A>(s: Seq<A>, k: int)
    requires
        0 <= k < s.len(),
    ensures
        s.take(k + 1) == s.take(k).push(s[k]),
        forall|x: A|
            #[trigger] s.take(k + 1).contains(x) <==> s.take(k).contains(x) || x == s[k],
{
    assert(s.take(k + 1) =~= s.take(k).push(s[k]));
    assert forall|x: A| #[trigger] s.take(k + 1).contains(x) <==> s.take(k).contains(x) || x
        == s[k] by {
        lemma_contains_push(s.take(k), s[k], x);
    }
}

proof fn lemma_contains_push<A>(s: Seq<A>, a: A, x: A)
    ensures
        s.push(a).contains(x) <==> s.contains(x) || x == a,
{
    let t = s.push(a);
    if s.contains(x) {
        let k = choose|k: int| 0 <= k < s.len() && s[k] == x;
        assert(t[k] == x);
    }
    if x == a {
        assert(t[s.len() as int] == x);
    }
    if t.contains(x) {
        let k = choose|k: int| 0 <= k < t.len() && t[k] == x;
        if k < s.len() {
            assert(s[k] == x);
        }
    }
}

proof fn lemma_push_unique<A>(s: Seq<A>, a: A)
    requires
        s.no_duplicates(),
        !s.contains(a),
    ensures
        s.push(a).no_duplicates(),
{
    let t = s.push(a);
    assert forall|i: int, j: int| 0 <= i < t.len() && 0 <= j < t.len() && i != j implies t[i]
        != t[j] by {
        if i < s.len() && j < s.len() {
            assert(s[i] != s[j]);
        } else if i < s.len() {
            assert(s.contains(s[i]));
        } else {
            assert(s.contains(s[j]));
        }
    }
}

/// A run does not occur among the ones above it.
proof fn lemma_not_earlier(cells: CellMap, gap: int, tx: int, runs: Seq<(u32, u32)>, k: int)
    requires
        0 <= gap,
        0 <= k < runs.len(),
        runs_so_far(cells, gap, tx, runs),
    ensures
        !runs.take(k).contains(runs[k]),
{
    if runs.take(k).contains(runs[k]) {
        let j = choose|j: int| 0 <= j < k && runs.take(k)[j] == runs[k];
        assert(runs[j] == runs[k]);
        assert(is_run(cells, gap, tx, runs[k].0 as int, runs[k].1 as int));
        assert(runs[j].1 + reach(gap) < runs[k].0);
    }
}

/// Two groups with the same left column and the same run are one group.
proof fn lemma_group_width(cells: CellMap, gap: int, g: CellRect, h: CellRect)
    requires
        is_group(cells, gap, g),
        is_group(cells, gap, h),
        g.left == h.left,
        g.top == h.top,
        g.bottom == h.bottom,
    ensures
        g == h,
{
    if g.right < h.right {
        assert(is_run(cells, gap, g.right + 1, h.top as int, h.bottom as int));
    }
    if h.right < g.right {
        assert(is_run(cells, gap, h.right + 1, g.top as int, g.bottom as int));
    }
}

/// Closing a run keeps every row of it, and every row of an earlier run,
/// accounted for.
proof fn lemma_run_added(runs: Seq<(u32, u32)>, start: u32, last: u32)
    ensures
        forall|y: int|
            in_some_run(runs, y) || start <= y <= last ==> #[trigger] in_some_run(
                runs.push((start, last)),
                y,
            ),
{
    let next = runs.push((start, last));
    assert forall|y: int| in_some_run(runs, y) || start <= y <= last implies #[trigger] in_some_run(
        next,
        y,
    ) by {
        if in_some_run(runs, y) {
            let k = choose|k: int| 0 <= k < runs.len() && (#[trigger] runs[k]).0 <= y <= runs[k].1;
            assert(next[k] == runs[k]);
        } else {
            assert(next[runs.len() as int] == (start, last));
        }
    }
}

/// Cuts a group into rectangles of at most four by four cells.
fn chunks(g: CellRect) -> (out: Vec<CellRect>)
    requires
        g.left <= g.right < u32::MAX,
        g.top <= g.bottom < u32::MAX,
    ensures
        out@.no_duplicates(),
        forall|r: CellRect| #[trigger] out@.contains(r) <==> is_chunk(g, r),
{
    let mut out: Vec<CellRect> = Vec::new();
    let mut top: u32 = g.top;
    while top <= g.bottom
        invariant
            g.left <= g.right < u32::MAX,
            g.top <= top <= g.bottom + 1,
            g.bottom < u32::MAX,
            top <= g.bottom ==> (top - g.top) % 4 == 0,
            out@.no_duplicates(),
            forall|r: CellRect| #[trigger] out@.contains(r) <==> is_chunk(g, r) && r.top < top,
        decreases g.bottom + 1 - top,
    {
        let bottom: u32 = if g.bottom - top < MAX_MERGE_TILES_Y {
            g.bottom
        } else {
            top + (MAX_MERGE_TILES_Y - 1)
        };
        let mut left: u32 = g.left;
        while left <= g.right
            invariant
                g.left <= left <= g.right + 1,
                g.right < u32::MAX,
                left <= g.right ==> (left - g.left) % 4 == 0,
                g.top <= top <= g.bottom < u32::MAX,
                (top - g.top) % 4 == 0,
                bottom == (if top + 3 < g.bottom {
                    top + 3
                } else {
                    g.bottom as int
                }),
                out@.no_duplicates(),
                forall|r: CellRect|
                    #[trigger] out@.contains(r) <==> is_chunk(g, r) && (r.top < top || (r.top == top
                        && r.left < left)),
            decreases g.right + 1 - left,
        {
            let right: u32 = if g.right - left < MAX_MERGE_TILES_X {
                g.right
            } else {
                left + (MAX_MERGE_TILES_X - 1)
            };
            let r = CellRect { left, top, right, bottom };
            let ghost before = out@;
            proof {
                assert(is_chunk(g, r));
                lemma_push_unique(before, r);
            }
            out.push(r);
            proof {
                assert forall|q: CellRect|
                    #[trigger] out@.contains(q) <==> is_chunk(g, q) && (q.top < top || (q.top == top
                        && q.left < right + 1)) by {
                    lemma_contains_push(before, r, q);
                }
            }
            left = right + 1;
        }
        top = bottom + 1;
    }
    out
}

/// A cell that lies in two groups lies in one: they are the same.
pub proof fn lemma_group_unique(
    cells: CellMap,
    gap: int,
    g: CellRect,
    h: CellRect,
    tx: int,
    ty: int,
)
    requires
        0 <= gap,
        is_group(cells, gap, g),
        is_group(cells, gap, h),
        g.left <= tx <= g.right,
        h.left <= tx <= h.right,
        g.top <= ty <= g.bottom,
        h.top <= ty <= h.bottom,
    ensures
        g == h,
{
    assert(is_run(cells, gap, tx, g.top as int, g.bottom as int));
    assert(is_run(cells, gap, tx, h.top as int, h.bottom as int));
    lemma_runs_disjoint(
        cells,
        gap,
        tx,
        g.top as int,
        g.bottom as int,
        h.top as int,
        h.bottom as int,
        ty,
    );
    if g.left < h.left {
        assert(is_run(cells, gap, h.left - 1, g.top as int, g.bottom as int));
    }
    if h.left < g.left {
        assert(is_run(cells, gap, g.left - 1, h.top as int, h.bottom as int));
    }
    lemma_group_width(cells, gap, g, h);
}

impl TileMerger {
    /// The merged rectangles, in cells.
    fn merge_cells(&self, cells: &ChangedCells) -> (out: Vec<CellRect>)
        requires
            cells@.well_formed(),
            cells@.columns <= u32::MAX,
            cells@.rows <= u32::MAX,
        ensures
            out@.no_duplicates(),
            forall|r: CellRect| #[trigger] out@.contains(r) <==> is_merged(cells@, self.gap(), r),
    {
        let ghost gap = self.gap();
        let groups: Vec<CellRect> = self.groups(cells);
        let mut out: Vec<CellRect> = Vec::new();
        let mut k: usize = 0;
        while k < groups.len()
            invariant
                0 <= gap == self.gap(),
                cells@.columns <= u32::MAX,
                cells@.rows <= u32::MAX,
                groups@.no_duplicates(),
                forall|g: CellRect| #[trigger] groups@.contains(g) <==> is_group(cells@, gap, g),
                k <= groups@.len(),
                out@.no_duplicates(),
                forall|r: CellRect|
                    #[trigger] out@.contains(r) <==> cut_from(groups@.take(k as int), r),
            decreases groups@.len() - k,
        {
            let g: CellRect = groups[k];
            proof {
                assert(groups@.contains(g));
                assert(is_run(cells@, gap, g.left as int, g.top as int, g.bottom as int));
            }
            let mut pieces: Vec<CellRect> = chunks(g);
            let ghost before = out@;
            let ghost added = pieces@;
            out.append(&mut pieces);
            proof {
                assert(out@ =~= before + added);
                assert forall|r: CellRect| before.contains(r) implies !added.contains(r) by {
                    assert(cut_from(groups@.take(k as int), r));
                    let j = choose|j: int| 0 <= j < k && #[trigger] is_chunk(groups@[j], r);
                    if added.contains(r) {
                        assert(is_chunk(g, r));
                        assert(groups@.contains(groups@[j]));
                        lemma_group_unique(
                            cells@,
                            gap,
                            groups@[j],
                            g,
                            r.left as int,
                            r.top as int,
                        );
                        assert(groups@[j] == groups@[k as int]);
                    }
                }
                lemma_disjoint_append(before, added);
                assert forall|r: CellRect|
                    #[trigger] out@.contains(r) <==> cut_from(groups@.take(k + 1), r) by {
                    lemma_contains_append(before, added, r);
                    let now = groups@.take(k as int);
                    let next = groups@.take(k + 1);
                    if cut_from(now, r) {
                        let j = choose|j: int| 0 <= j < now.len() && #[trigger] is_chunk(now[j], r);
                        assert(is_chunk(next[j], r));
                    }
                    if is_chunk(g, r) {
                        assert(is_chunk(next[k as int], r));
                    }
                    if cut_from(next, r) {
                        let j = choose|j: int|
                            0 <= j < next.len() && #[trigger] is_chunk(next[j], r);
                        if j < k {
                            assert(is_chunk(now[j], r));
                        }
                    }
                }
            }
            k += 1;
        }
        proof {
            assert(groups@.take(groups@.len() as int) =~= groups@);
            assert forall|r: CellRect| #[trigger] out@.contains(r) <==> is_merged(
                cells@,
                gap,
                r,
            ) by {
                if cut_from(groups@, r) {
                    let j = choose|j: int| 0 <= j < groups@.len() && #[trigger] is_chunk(
                        groups@[j],
                        r,
                    );
                    assert(groups@.contains(groups@[j]));
                    assert(is_group(cells@, gap, groups@[j]));
                }
                if is_merged(cells@, gap, r) {
                    let g = choose|g: CellRect| #[trigger] is_group(cells@, gap, g) && is_chunk(g, r);
                    assert(groups@.contains(g));
                    let j = choose|j: int| 0 <= j < groups@.len() && groups@[j] == g;
                    assert(is_chunk(groups@[j], r));
                }
            }
        }
        out
    }

    /// The mean quality over the changed cells of a rectangle.
    fn average_quality_fast(&self, cells: &ChangedCells, r: &CellRect) -> (q: u32)
        requires
            cells@.well_formed(),
            r.left <= r.right < cells@.columns,
            r.top <= r.bottom < cells@.rows,
            r.right - r.left < 4,
            r.bottom - r.top < 4,
        ensures
            q == mean_quality(cells@, *r),
    {
        let ghost width = (r.right - r.left + 1) as nat;
        let mut sum: u64 = 0;
        let mut count: u64 = 0;
        let mut ty: u32 = r.top;
        while ty <= r.bottom
            invariant
                cells@.well_formed(),
                r.left <= r.right < cells@.columns,
                r.top <= ty <= r.bottom + 1,
                r.bottom < cells@.rows <= u32::MAX,
                cells@.columns <= u32::MAX,
                r.right - r.left < 4,
                r.bottom - r.top < 4,
                width == r.right - r.left + 1,
                sum == area_sum(
                    cells@,
                    r.left as int,
                    width,
                    r.top as int,
                    (ty - r.top) as nat,
                ),
                count == area_count(
                    cells@,
                    r.left as int,
                    width,
                    r.top as int,
                    (ty - r.top) as nat,
                ),
                sum <= count * 0xffff_ffff,
                count <= (ty - r.top) * 4,
            decreases r.bottom + 1 - ty,
        {
            let ghost (sum0, count0) = (sum, count);
            let mut tx: u32 = r.left;
            while tx <= r.right
                invariant
                    cells@.well_formed(),
                    r.left <= tx <= r.right + 1,
                    r.right < cells@.columns <= u32::MAX,
                    r.top <= ty <= r.bottom < cells@.rows,
                    r.right - r.left < 4,
                    r.bottom - r.top < 4,
                    count0 <= (ty - r.top) * 4,
                    sum == sum0 + row_sum(
                        cells@,
                        r.left as int,
                        ty as int,
                        (tx - r.left) as nat,
                    ),
                    count == count0 + row_count(
                        cells@,
                        r.left as int,
                        ty as int,
                        (tx - r.left) as nat,
                    ),
                    sum <= count * 0xffff_ffff,
                    count <= count0 + (tx - r.left),
                decreases r.right + 1 - tx,
            {
                if let Some(quality) = cells.get(tx, ty) {
                    sum += quality as u64;
                    count += 1;
                }
                tx += 1;
            }
            ty += 1;
        }
        if count == 0 {
            DEFAULT_QUALITY
        } else {
            proof {
                assert(sum / count <= 0xffff_ffff) by (nonlinear_arith)
                    requires
                        sum <= count * 0xffff_ffff,
                        count > 0,
                ;
            }
            (sum / count) as u32
        }
    }
}

/// Whether `r` is cut from one of `groups`.
spec fn cut_from(groups: Seq<CellRect>, r: CellRect) -> bool {
    exists|j: int| 0 <= j < groups.len() && #[trigger] is_chunk(groups[j], r)
}

proof fn lemma_contains_append<A>(a: Seq<A>, b: Seq<A>, x: A)
    ensures
        (a + b).contains(x) <==> a.contains(x) || b.contains(x),
{
    let t = a + b;
    if a.contains(x) {
        let k = choose|k: int| 0 <= k < a.len() && a[k] == x;
        assert(t[k] == x);
    }
    if b.contains(x) {
        let k = choose|k: int| 0 <= k < b.len() && b[k] == x;
        assert(t[a.len() + k] == x);
    }
    if t.contains(x) {
        let k = choose|k: int| 0 <= k < t.len() && t[k] == x;
        if k < a.len() {
            assert(a[k] == x);
        } else {
            assert(b[k - a.len()] == x);
        }
    }
}

proof fn lemma_disjoint_append<A>(a: Seq<A>, b: Seq<A>)
    requires
        a.no_duplicates(),
        b.no_duplicates(),
        forall|x: A| a.contains(x) ==> !b.contains(x),
    ensures
        (a + b).no_duplicates(),
{
    let t = a + b;
    assert forall|i: int, j: int| 0 <= i < t.len() && 0 <= j < t.len() && i != j implies t[i]
        != t[j] by {
        if i < a.len() && j < a.len() {
            assert(a[i] != a[j]);
        } else if i >= a.len() && j >= a.len() {
            assert(b[i - a.len()] != b[j - a.len()]);
        } else if i < a.len() {
            assert(a.contains(a[i]));
            assert(b.contains(b[j - a.len()]));
        } else {
            assert(a.contains(a[j]));
            assert(b.contains(b[i - a.len()]));
        }
    }
}

/// Whether `t` is the tile of one of the merged rectangles.
pub open spec fn is_merged_tile(
    cells: CellMap,
    gap: int,
    tile_width: int,
    tile_height: int,
    frame_width: int,
    frame_height: int,
    t: Tile,
) -> bool {
    exists|r: CellRect| #[trigger]
        is_merged(cells, gap, r) && t == rect_tile(
            cells,
            r,
            tile_width,
            tile_height,
            frame_width,
            frame_height,
        )
}

/// Whether column `tx` has a changed cell in row `y` or below.
pub open spec fn changed_below(cells: CellMap, tx: int, y: int) -> bool {
    exists|ty: int| y <= ty && #[trigger] cells.has(tx, ty)
}

/// A merged rectangle lies in the grid, spans at most four by four cells, and
/// every column of it has a changed cell in its last row or below.
pub proof fn lemma_merged_rect(cells: CellMap, gap: int, r: CellRect)
    requires
        0 <= gap,
        is_merged(cells, gap, r),
    ensures
        r.left <= r.right < cells.columns,
        r.top <= r.bottom < cells.rows,
        r.right - r.left < MAX_MERGE_TILES_X,
        r.bottom - r.top < MAX_MERGE_TILES_Y,
        forall|tx: int|
            r.left <= tx <= r.right ==> #[trigger] changed_below(cells, tx, r.bottom as int),
{
    let g = choose|g: CellRect| #[trigger] is_group(cells, gap, g) && is_chunk(g, r);
    assert(is_run(cells, gap, g.left as int, g.top as int, g.bottom as int));
    assert(cells.has(g.left as int, g.bottom as int));
    assert forall|tx: int| r.left <= tx <= r.right implies #[trigger] changed_below(
        cells,
        tx,
        r.bottom as int,
    ) by {
        assert(is_run(cells, gap, tx, g.top as int, g.bottom as int));
        assert(cells.has(tx, g.bottom as int));
    }
}

/// Merged rectangles do not overlap: a cell lies in at most one of them.
pub proof fn law_merged_rects_do_not_overlap(
    cells: CellMap,
    gap: int,
    r: CellRect,
    q: CellRect,
    tx: int,
    ty: int,
)
    requires
        0 <= gap,
        is_merged(cells, gap, r),
        is_merged(cells, gap, q),
        r.left <= tx <= r.right,
        r.top <= ty <= r.bottom,
        q.left <= tx <= q.right,
        q.top <= ty <= q.bottom,
    ensures
        r == q,
{
    let g = choose|g: CellRect| #[trigger] is_group(cells, gap, g) && is_chunk(g, r);
    let h = choose|h: CellRect| #[trigger] is_group(cells, gap, h) && is_chunk(h, q);
    lemma_group_unique(cells, gap, g, h, tx, ty);
}

/// A changed cell has a run: the topmost row linked to it.
proof fn lemma_run_start(cells: CellMap, gap: int, tx: int, y: int) -> (s: int)
    requires
        0 <= gap,
        cells.has(tx, y),
    ensures
        s <= y,
        cells.has(tx, s),
        forall|v: int| s - reach(gap) <= v < s ==> !#[trigger] cells.has(tx, v),
        forall|v: int|
            s < v <= y && #[trigger] cells.has(tx, v) ==> linked_above(cells, gap, tx, v, s),
        forall|v: int|
            s <= v < y && #[trigger] cells.has(tx, v) ==> linked_below(cells, gap, tx, v, y),
    decreases y,
{
    if exists|z: int| y - reach(gap) <= z < y && #[trigger] cells.has(tx, z) {
        let z = choose|z: int| y - reach(gap) <= z < y && #[trigger] cells.has(tx, z);
        let s = lemma_run_start(cells, gap, tx, z);
        assert forall|v: int| s < v <= y && #[trigger] cells.has(tx, v) implies linked_above(
            cells,
            gap,
            tx,
            v,
            s,
        ) by {
            if v > z {
                assert(cells.has(tx, z));
            }
        }
        assert forall|v: int| s <= v < y && #[trigger] cells.has(tx, v) implies linked_below(
            cells,
            gap,
            tx,
            v,
            y,
        ) by {
            if v < z {
                assert(linked_below(cells, gap, tx, v, z));
                let w = choose|w: int|
                    v < w <= v + reach(gap) && w <= z && #[trigger] cells.has(tx, w);
                assert(cells.has(tx, w));
            } else {
                assert(cells.has(tx, y));
            }
        }
        s
    } else {
        y
    }
}

/// A changed cell has a run: the bottommost row linked to it.
proof fn lemma_run_end(cells: CellMap, gap: int, tx: int, y: int) -> (e: int)
    requires
        0 <= gap,
        cells.has(tx, y),
    ensures
        y <= e,
        cells.has(tx, e),
        forall|v: int| e < v <= e + reach(gap) ==> !#[trigger] cells.has(tx, v),
        forall|v: int|
            y < v <= e && #[trigger] cells.has(tx, v) ==> linked_above(cells, gap, tx, v, y),
        forall|v: int|
            y <= v < e && #[trigger] cells.has(tx, v) ==> linked_below(cells, gap, tx, v, e),
    decreases cells.rows - y,
{
    if exists|z: int| y < z <= y + reach(gap) && #[trigger] cells.has(tx, z) {
        let z = choose|z: int| y < z <= y + reach(gap) && #[trigger] cells.has(tx, z);
        let e = lemma_run_end(cells, gap, tx, z);
        assert forall|v: int| y < v <= e && #[trigger] cells.has(tx, v) implies linked_above(
            cells,
            gap,
            tx,
            v,
            y,
        ) by {
            if v > z {
                assert(linked_above(cells, gap, tx, v, z));
                let w = choose|w: int|
                    v - reach(gap) <= w < v && z <= w && #[trigger] cells.has(tx, w);
                assert(cells.has(tx, w));
            } else {
                assert(cells.has(tx, y));
            }
        }
        assert forall|v: int| y <= v < e && #[trigger] cells.has(tx, v) implies linked_below(
            cells,
            gap,
            tx,
            v,
            e,
        ) by {
            if v < z {
                assert(cells.has(tx, z));
            }
        }
        e
    } else {
        y
    }
}

/// The leftmost column of the group that a run belongs to.
proof fn lemma_group_left(cells: CellMap, gap: int, c: int, s: int, e: int) -> (left: int)
    requires
        is_run(cells, gap, c, s, e),
    ensures
        0 <= left <= c,
        forall|k: int| left <= k <= c ==> #[trigger] is_run(cells, gap, k, s, e),
        !is_run(cells, gap, left - 1, s, e),
    decreases c,
{
    assert(cells.has(c, s));
    if is_run(cells, gap, c - 1, s, e) {
        assert(cells.has(c - 1, s));
        lemma_group_left(cells, gap, c - 1, s, e)
    } else {
        c
    }
}

/// The rightmost column of the group that a run belongs to.
proof fn lemma_group_right(cells: CellMap, gap: int, c: int, s: int, e: int) -> (right: int)
    requires
        is_run(cells, gap, c, s, e),
    ensures
        c <= right < cells.columns,
        forall|k: int| c <= k <= right ==> #[trigger] is_run(cells, gap, k, s, e),
        !is_run(cells, gap, right + 1, s, e),
    decreases cells.columns - c,
{
    assert(cells.has(c, s));
    if is_run(cells, gap, c + 1, s, e) {
        assert(cells.has(c + 1, s));
        lemma_group_right(cells, gap, c + 1, s, e)
    } else {
        c
    }
}

/// Every changed cell lies in a run of its column.
proof fn lemma_cell_run(cells: CellMap, gap: int, tx: int, ty: int) -> (run: (int, int))
    requires
        0 <= gap,
        cells.has(tx, ty),
    ensures
        run.0 <= ty <= run.1,
        is_run(cells, gap, tx, run.0, run.1),
{
    let s = lemma_run_start(cells, gap, tx, ty);
    let e = lemma_run_end(cells, gap, tx, ty);
    assert forall|v: int| s < v <= e && #[trigger] cells.has(tx, v) implies linked_above(
        cells,
        gap,
        tx,
        v,
        s,
    ) by {
        if v > ty {
            assert(linked_above(cells, gap, tx, v, ty));
            let w = choose|w: int| v - reach(gap) <= w < v && ty <= w && #[trigger] cells.has(tx, w);
            assert(cells.has(tx, w));
        }
    }
    assert forall|v: int| s <= v < e && #[trigger] cells.has(tx, v) implies linked_below(
        cells,
        gap,
        tx,
        v,
        e,
    ) by {
        if v < ty {
            assert(linked_below(cells, gap, tx, v, ty));
            let w = choose|w: int| v < w <= v + reach(gap) && w <= ty && #[trigger] cells.has(tx, w);
            assert(cells.has(tx, w));
        }
    }
    (s, e)
}

/// Every run belongs to a group.
proof fn lemma_run_group(cells: CellMap, gap: int, tx: int, s: int, e: int) -> (g: CellRect)
    requires
        cells.columns <= u32::MAX,
        cells.rows <= u32::MAX,
        is_run(cells, gap, tx, s, e),
    ensures
        is_group(cells, gap, g),
        g.left <= tx <= g.right,
        g.top == s,
        g.bottom == e,
{
    assert(cells.has(tx, s) && cells.has(tx, e));
    let left = lemma_group_left(cells, gap, tx, s, e);
    let right = lemma_group_right(cells, gap, tx, s, e);
    let g = CellRect { left: left as u32, top: s as u32, right: right as u32, bottom: e as u32 };
    assert forall|c: int| g.left <= c <= g.right implies #[trigger] is_run(
        cells,
        gap,
        c,
        g.top as int,
        g.bottom as int,
    ) by {
        if c <= tx {
            assert(is_run(cells, gap, c, s, e));
        }
    }
    g
}

/// Every cell of a group lies in one of its rectangles.
proof fn lemma_chunk_of(g: CellRect, tx: int, ty: int) -> (r: CellRect)
    requires
        g.left <= tx <= g.right,
        g.top <= ty <= g.bottom,
    ensures
        is_chunk(g, r),
        r.left <= tx <= r.right,
        r.top <= ty <= r.bottom,
{
    let x0 = g.left + ((tx - g.left) / 4) * 4;
    let y0 = g.top + ((ty - g.top) / 4) * 4;
    CellRect {
        left: x0 as u32,
        top: y0 as u32,
        right: (if x0 + 3 < g.right {
            x0 + 3
        } else {
            g.right as int
        }) as u32,
        bottom: (if y0 + 3 < g.bottom {
            y0 + 3
        } else {
            g.bottom as int
        }) as u32,
    }
}

/// Every changed cell lies in a merged rectangle.
pub proof fn law_every_changed_cell_is_merged(cells: CellMap, gap: int, tx: int, ty: int)
    requires
        0 <= gap,
        cells.columns <= u32::MAX,
        cells.rows <= u32::MAX,
        cells.has(tx, ty),
    ensures
        exists|r: CellRect| #[trigger]
            is_merged(cells, gap, r) && r.left <= tx <= r.right && r.top <= ty <= r.bottom,
{
    let (s, e) = lemma_cell_run(cells, gap, tx, ty);
    let g = lemma_run_group(cells, gap, tx, s, e);
    let r = lemma_chunk_of(g, tx, ty);
    assert(is_merged(cells, gap, r));
}

/// What a merged rectangle covers along one side of the frame.
proof fn lemma_span(first: int, last: int, size: int, count: int, frame: int)
    requires
        0 <= first <= last < count,
        1 <= size,
        (count - 1) * size < frame,
    ensures
        0 <= first * size < span_end(last, size, count, frame) <= frame,
        (first * size) % size == 0,
{
    assert(0 <= first * size && first * size <= last * size && last * size <= (count - 1) * size && (
    last + 1) * size == last * size + size) by (nonlinear_arith)
        requires
            0 <= first <= last <= count - 1,
            1 <= size,
    ;
    lemma_mod_multiples_basic(first, size);
}

/// In a grid whose every cell starts inside the frame, a merged tile starts at
/// the corner of a cell, covers at most [`MAX_MERGE_TILES_X`] columns and
/// [`MAX_MERGE_TILES_Y`] rows of cells, is not empty, and does not leave the
/// frame.
pub proof fn law_merged_tile_keeps_to_limits(
    cells: CellMap,
    gap: int,
    tile_width: int,
    tile_height: int,
    frame_width: int,
    frame_height: int,
    t: Tile,
) -> (r: CellRect)
    requires
        0 <= gap,
        1 <= tile_width,
        1 <= tile_height,
        (cells.columns - 1) * tile_width < frame_width <= u32::MAX,
        (cells.rows - 1) * tile_height < frame_height <= u32::MAX,
        is_merged_tile(cells, gap, tile_width, tile_height, frame_width, frame_height, t),
    ensures
        is_merged(cells, gap, r),
        t == rect_tile(cells, r, tile_width, tile_height, frame_width, frame_height),
        0 <= r.right - r.left < MAX_MERGE_TILES_X,
        0 <= r.bottom - r.top < MAX_MERGE_TILES_Y,
        t.x == r.left * tile_width,
        t.y == r.top * tile_height,
        t.x as int % tile_width == 0,
        t.y as int % tile_height == 0,
        1 <= t.width,
        1 <= t.height,
        t.x + t.width <= frame_width,
        t.y + t.height <= frame_height,
{
    let r = choose|r: CellRect| #[trigger]
        is_merged(cells, gap, r) && t == rect_tile(
            cells,
            r,
            tile_width,
            tile_height,
            frame_width,
            frame_height,
        );
    lemma_merged_rect(cells, gap, r);
    lemma_span(r.left as int, r.right as int, tile_width, cells.columns, frame_width);
    lemma_span(r.top as int, r.bottom as int, tile_height, cells.rows, frame_height);
    r
}

/// A changed cell holds a tile that starts in it.
proof fn lemma_cell_has_tile(
    tiles: Seq<Tile>,
    tile_width: int,
    tile_height: int,
    tx: int,
    ty: int,
) -> (k: int)
    requires
        cell_quality(tiles, tile_width, tile_height, tx, ty) is Some,
    ensures
        0 <= k < tiles.len(),
        starts_in(tiles[k], tile_width, tile_height, tx, ty),
    decreases tiles.len(),
{
    if starts_in(tiles.last(), tile_width, tile_height, tx, ty) {
        tiles.len() - 1
    } else {
        lemma_cell_has_tile(tiles.drop_last(), tile_width, tile_height, tx, ty)
    }
}

/// The changed cells of a grid are changed by tiles that start in them.
pub proof fn lemma_changed_cell(
    tiles: Seq<Tile>,
    tile_width: int,
    tile_height: int,
    columns: int,
    rows: int,
    tx: int,
    ty: int,
) -> (k: int)
    requires
        changed_cells(tiles, tile_width, tile_height, columns, rows).has(tx, ty),
    ensures
        0 <= k < tiles.len(),
        starts_in(tiles[k], tile_width, tile_height, tx, ty),
{
    lemma_cell_at(columns, rows, tx, ty);
    lemma_cell_has_tile(tiles, tile_width, tile_height, tx, ty)
}

/// Whether every tile that starts in the grid starts in a cell whose corner lies
/// inside the frame.
pub open spec fn tiles_in_frame(
    tiles: Seq<Tile>,
    tile_width: int,
    tile_height: int,
    columns: int,
    rows: int,
    frame_width: int,
    frame_height: int,
) -> bool {
    forall|k: int|
        0 <= k < tiles.len() && (#[trigger] tiles[k]).x as int / tile_width < columns
            && tiles[k].y as int / tile_height < rows ==> {
            &&& (tiles[k].x as int / tile_width) * tile_width <= frame_width
            &&& (tiles[k].y as int / tile_height) * tile_height <= frame_height
        }
}

/// A merged rectangle starts inside the frame that its tiles start in.
pub proof fn lemma_rect_in_frame(
    tiles: Seq<Tile>,
    tile_width: int,
    tile_height: int,
    columns: int,
    rows: int,
    frame_width: int,
    frame_height: int,
    gap: int,
    r: CellRect,
)
    requires
        0 <= gap,
        tile_width >= 1,
        tile_height >= 1,
        tiles_in_frame(
            tiles,
            tile_width,
            tile_height,
            columns,
            rows,
            frame_width,
            frame_height,
        ),
        is_merged(changed_cells(tiles, tile_width, tile_height, columns, rows), gap, r),
    ensures
        0 <= r.left * tile_width <= frame_width,
        0 <= r.top * tile_height <= frame_height,
{
    let cells = changed_cells(tiles, tile_width, tile_height, columns, rows);
    lemma_merged_rect(cells, gap, r);
    assert(changed_below(cells, r.left as int, r.bottom as int));
    let ty = choose|ty: int| r.bottom <= ty && #[trigger] cells.has(r.left as int, ty);
    let k = lemma_changed_cell(tiles, tile_width, tile_height, columns, rows, r.left as int, ty);
    let t = tiles[k];
    assert(t.x as int / tile_width == r.left && t.y as int / tile_height == ty);
    assert(0 <= r.left * tile_width) by (nonlinear_arith)
        requires
            tile_width >= 1,
    ;
    assert(0 <= r.top * tile_height <= ty * tile_height) by (nonlinear_arith)
        requires
            r.top <= ty,
            tile_height >= 1,
    ;
}

/// Where cells `..=last` end.
fn end_of_span(last: u32, size: u32, count: u32, frame: u32) -> (end: u32)
    ensures
        end == span_end(last as int, size as int, count as int, frame as int),
{
    let past: u64 = last as u64 + 1;
    proof {
        assert(past * size <= 0x1_0000_0000 * 0xffff_ffff) by (nonlinear_arith)
            requires
                past <= 0x1_0000_0000,
                size <= 0xffff_ffff,
        ;
    }
    if past >= count as u64 || past * size as u64 > frame as u64 {
        frame
    } else {
        (past * size as u64) as u32
    }
}

impl TileMerger {
    /// Merges changed tiles into rectangles. The tiles returned are exactly
    /// those of the merged rectangles, no two with the same corner; in which
    /// order they come is left open.
    pub fn merge(
        &self,
        tiles: &[Tile],
        tiles_x: u32,
        tiles_y: u32,
        tile_width: u32,
        tile_height: u32,
        frame_width: u32,
        frame_height: u32,
    ) -> (merged: Vec<Tile>)
        requires
            tiles@.len() > 0 ==> tile_width >= 1 && tile_height >= 1,
            tiles_x * tiles_y <= usize::MAX,
            tiles_in_frame(
                tiles@,
                tile_width as int,
                tile_height as int,
                tiles_x as int,
                tiles_y as int,
                frame_width as int,
                frame_height as int,
            ),
        ensures
            forall|t: Tile|
                #[trigger] merged@.contains(t) <==> is_merged_tile(
                    changed_cells(
                        tiles@,
                        tile_width as int,
                        tile_height as int,
                        tiles_x as int,
                        tiles_y as int,
                    ),
                    self.gap(),
                    tile_width as int,
                    tile_height as int,
                    frame_width as int,
                    frame_height as int,
                    t,
                ),
            forall|a: int, b: int|
                0 <= a < b < merged@.len() ==> (#[trigger] merged@[a]).x != (#[trigger] merged@[b]).x
                    || merged@[a].y != merged@[b].y,
            tiles@.len() == 0 ==> merged@.len() == 0,
    {
        let cells: ChangedCells = ChangedCells::collect(
            tiles,
            tile_width,
            tile_height,
            tiles_x,
            tiles_y,
        );
        let ghost map = cells@;
        let ghost gap = self.gap();
        let ghost (tw, th) = (tile_width as int, tile_height as int);
        let ghost (fw, fh) = (frame_width as int, frame_height as int);
        assert(map.quality.len() == map.columns * map.rows) by {
            assert(tiles_x * tiles_y >= 0) by (nonlinear_arith);
        }
        let rects: Vec<CellRect> = self.merge_cells(&cells);
        let mut merged: Vec<Tile> = Vec::new();
        let mut k: usize = 0;
        while k < rects.len()
            invariant
                k <= rects@.len(),
                0 <= gap == self.gap(),
                map == cells@,
                map == changed_cells(tiles@, tw, th, tiles_x as int, tiles_y as int),
                map.well_formed(),
                (tw, th) == (tile_width as int, tile_height as int),
                (fw, fh) == (frame_width as int, frame_height as int),
                tiles@.len() > 0 ==> tile_width >= 1 && tile_height >= 1,
                tiles_in_frame(tiles@, tw, th, tiles_x as int, tiles_y as int, fw, fh),
                forall|r: CellRect| #[trigger] rects@.contains(r) <==> is_merged(map, gap, r),
                merged@.len() == k,
                forall|j: int|
                    0 <= j < k ==> #[trigger] merged@[j] == rect_tile(
                        map,
                        rects@[j],
                        tw,
                        th,
                        fw,
                        fh,
                    ),
            decreases rects@.len() - k,
        {
            let r: CellRect = rects[k];
            proof {
                assert(rects@.contains(rects@[k as int]));
                lemma_some_tile(tiles@, tw, th, tiles_x as int, tiles_y as int, gap, r);
                lemma_merged_rect(map, gap, r);
                lemma_rect_in_frame(
                    tiles@,
                    tw,
                    th,
                    tiles_x as int,
                    tiles_y as int,
                    fw,
                    fh,
                    gap,
                    r,
                );
                assert((r.right + 1) * tw >= r.left * tw) by (nonlinear_arith)
                    requires
                        r.right >= r.left,
                        tw >= 1,
                ;
                assert((r.bottom + 1) * th >= r.top * th) by (nonlinear_arith)
                    requires
                        r.bottom >= r.top,
                        th >= 1,
                ;
            }
            let x: u32 = r.left * tile_width;
            let y: u32 = r.top * tile_height;
            let x_end: u32 = end_of_span(r.right, tile_width, tiles_x, frame_width);
            let y_end: u32 = end_of_span(r.bottom, tile_height, tiles_y, frame_height);
            let quality: u32 = self.average_quality_fast(&cells, &r);
            merged.push(Tile::new(x, y, x_end - x, y_end - y, quality));
            k += 1;
        }
        proof {
            if tiles@.len() == 0 && merged@.len() > 0 {
                assert(rects@.contains(rects@[0]));
                lemma_some_tile(tiles@, tw, th, tiles_x as int, tiles_y as int, gap, rects@[0]);
            }
            assert forall|t: Tile| #[trigger] merged@.contains(t) <==> is_merged_tile(
                map,
                gap,
                tw,
                th,
                fw,
                fh,
                t,
            ) by {
                if merged@.contains(t) {
                    let j = choose|j: int| 0 <= j < merged@.len() && merged@[j] == t;
                    assert(rects@.contains(rects@[j]));
                    assert(is_merged(map, gap, rects@[j]));
                }
                if is_merged_tile(map, gap, tw, th, fw, fh, t) {
                    let r = choose|r: CellRect| #[trigger]
                        is_merged(map, gap, r) && t == rect_tile(map, r, tw, th, fw, fh);
                    assert(rects@.contains(r));
                    let j = choose|j: int| 0 <= j < rects@.len() && rects@[j] == r;
                    assert(merged@[j] == t);
                }
            }
            assert forall|a: int, b: int| 0 <= a < b < merged@.len() implies (
            #[trigger] merged@[a]).x != (#[trigger] merged@[b]).x || merged@[a].y
                != merged@[b].y by {
                let (r, q) = (rects@[a], rects@[b]);
                assert(rects@.contains(r) && rects@.contains(q));
                lemma_some_tile(tiles@, tw, th, tiles_x as int, tiles_y as int, gap, r);
                lemma_corners_differ(
                    tiles@,
                    tw,
                    th,
                    tiles_x as int,
                    tiles_y as int,
                    fw,
                    fh,
                    gap,
                    r,
                    q,
                );
            }
        }
        merged
    }
}

/// Where something is merged there are tiles.
proof fn lemma_some_tile(
    tiles: Seq<Tile>,
    tile_width: int,
    tile_height: int,
    columns: int,
    rows: int,
    gap: int,
    r: CellRect,
)
    requires
        0 <= gap,
        is_merged(changed_cells(tiles, tile_width, tile_height, columns, rows), gap, r),
    ensures
        tiles.len() > 0,
{
    let cells = changed_cells(tiles, tile_width, tile_height, columns, rows);
    lemma_merged_rect(cells, gap, r);
    assert(changed_below(cells, r.left as int, r.bottom as int));
    let ty = choose|ty: int| r.bottom <= ty && #[trigger] cells.has(r.left as int, ty);
    let k = lemma_changed_cell(tiles, tile_width, tile_height, columns, rows, r.left as int, ty);
}

/// Two merged rectangles start at different pixels.
proof fn lemma_corners_differ(
    tiles: Seq<Tile>,
    tile_width: int,
    tile_height: int,
    columns: int,
    rows: int,
    frame_width: int,
    frame_height: int,
    gap: int,
    r: CellRect,
    q: CellRect,
)
    requires
        0 <= gap,
        tile_width >= 1,
        tile_height >= 1,
        0 <= frame_width <= u32::MAX,
        0 <= frame_height <= u32::MAX,
        tiles_in_frame(
            tiles,
            tile_width,
            tile_height,
            columns,
            rows,
            frame_width,
            frame_height,
        ),
        is_merged(changed_cells(tiles, tile_width, tile_height, columns, rows), gap, r),
        is_merged(changed_cells(tiles, tile_width, tile_height, columns, rows), gap, q),
        r != q,
    ensures
        ({
            let cells = changed_cells(tiles, tile_width, tile_height, columns, rows);
            let a = rect_tile(cells, r, tile_width, tile_height, frame_width, frame_height);
            let b = rect_tile(cells, q, tile_width, tile_height, frame_width, frame_height);
            a.x != b.x || a.y != b.y
        }),
{
    let cells = changed_cells(tiles, tile_width, tile_height, columns, rows);
    lemma_merged_rect(cells, gap, r);
    lemma_merged_rect(cells, gap, q);
    lemma_rect_in_frame(
        tiles,
        tile_width,
        tile_height,
        columns,
        rows,
        frame_width,
        frame_height,
        gap,
        r,
    );
    lemma_rect_in_frame(
        tiles,
        tile_width,
        tile_height,
        columns,
        rows,
        frame_width,
        frame_height,
        gap,
        q,
    );
    if r.left == q.left && r.top == q.top {
        law_merged_rects_do_not_overlap(cells, gap, r, q, r.left as int, r.top as int);
    }
    if r.left != q.left {
        assert(r.left * tile_width != q.left * tile_width) by (nonlinear_arith)
            requires
                r.left != q.left,
                tile_width >= 1,
        ;
    }
    if r.top != q.top {
        assert(r.top * tile_height != q.top * tile_height) by (nonlinear_arith)
            requires
                r.top != q.top,
                tile_height >= 1,
        ;
    }
}

/// The quality wanted for the cells of `r`, the first `n` of them row by row: the
/// sum over those that changed, and their number.
pub open spec fn wanted_in(cells: CellMap, r: CellRect, n: nat) -> (nat, nat)
    decreases n,
{
    if n == 0 {
        (0, 0)
    } else {
        let (sum, count) = wanted_in(cells, r, (n - 1) as nat);
        let width = r.right - r.left + 1;
        match cells.at(r.left + (n - 1) % width, r.top + (n - 1) / width) {
            Some(q) => (sum + q as nat, count + 1),
            None => (sum, count),
        }
    }
}

/// The cells of the first `rows` rows of `r` and of `k` cells in the next one.
proof fn lemma_wanted(cells: CellMap, r: CellRect, rows: nat, k: nat)
    requires
        r.left <= r.right,
        k <= r.right - r.left + 1,
    ensures
        ({
            let width = (r.right - r.left + 1) as nat;
            let (left, top) = (r.left as int, r.top as int);
            wanted_in(cells, r, width * rows + k) == (
                area_sum(cells, left, width, top, rows) + row_sum(cells, left, top + rows, k),
                area_count(cells, left, width, top, rows) + row_count(cells, left, top + rows, k),
            )
        }),
    decreases rows, k,
{
    let width = (r.right - r.left + 1) as nat;
    if k > 0 {
        lemma_wanted(cells, r, rows, (k - 1) as nat);
        let i: int = width * rows + k - 1;
        lemma_fundamental_div_mod_converse(i, width as int, rows as int, k - 1);
        assert((width * rows + k - 1) as nat == width * rows + (k - 1) as nat);
    } else if rows > 0 {
        lemma_wanted(cells, r, (rows - 1) as nat, width);
        assert(width * rows == width * (rows - 1) + width) by (nonlinear_arith);
    } else {
        assert(width * rows == 0) by (nonlinear_arith)
            requires
                rows == 0,
        ;
    }
}

proof fn lemma_wanted_bound(cells: CellMap, r: CellRect, n: nat)
    ensures
        wanted_in(cells, r, n).0 <= wanted_in(cells, r, n).1 * 0xffff_ffff,
    decreases n,
{
    if n > 0 {
        lemma_wanted_bound(cells, r, (n - 1) as nat);
    }
}

/// A merged tile's quality is the mean of what is wanted for the changed cells in
/// every row and column of it, rounded down: times their number it is what is
/// wanted for them together, but for less than one each.
pub proof fn law_merged_quality_is_the_mean(
    cells: CellMap,
    r: CellRect,
    tile_width: int,
    tile_height: int,
    frame_width: int,
    frame_height: int,
)
    requires
        r.left <= r.right,
        r.top <= r.bottom,
    ensures
        ({
            let all = ((r.right - r.left + 1) * (r.bottom - r.top + 1)) as nat;
            let (sum, count) = wanted_in(cells, r, all);
            let q = rect_tile(
                cells,
                r,
                tile_width,
                tile_height,
                frame_width,
                frame_height,
            ).quality;
            &&& count > 0 ==> q * count <= sum < (q + 1) * count
            &&& count == 0 ==> q == 10_000_000
        }),
{
    let width = (r.right - r.left + 1) as nat;
    let height = (r.bottom - r.top + 1) as nat;
    let (left, top) = (r.left as int, r.top as int);
    lemma_wanted(cells, r, height, 0);
    assert(width * height == (r.right - r.left + 1) * (r.bottom - r.top + 1));
    lemma_wanted_bound(cells, r, width * height);
    let sum = area_sum(cells, left, width, top, height);
    let count = area_count(cells, left, width, top, height);
    if count > 0 {
        let q = sum / count;
        lemma_fundamental_div_mod(sum as int, count as int);
        lemma_mod_bound(sum as int, count as int);
        assert(count * q == q * count && (q + 1) * count == q * count + count) by (nonlinear_arith);
        assert(q <= 0xffff_ffff) by (nonlinear_arith)
            requires
                q * count <= sum,
                sum <= count * 0xffff_ffff,
                1 <= count,
        ;
    }
}

/// Whether a tile's corner is one of the pixels of the cell in column `tx` of row
/// `ty`.
pub open spec fn corner_in(tile: Tile, tile_width: int, tile_height: int, tx: int, ty: int) -> bool {
    &&& tx * tile_width <= tile.x < (tx + 1) * tile_width
    &&& ty * tile_height <= tile.y < (ty + 1) * tile_height
}

proof fn lemma_starts_in(tile: Tile, tile_width: int, tile_height: int, tx: int, ty: int)
    requires
        1 <= tile_width,
        1 <= tile_height,
    ensures
        starts_in(tile, tile_width, tile_height, tx, ty) == corner_in(
            tile,
            tile_width,
            tile_height,
            tx,
            ty,
        ),
{
    let (x, y) = (tile.x as int, tile.y as int);
    lemma_fundamental_div_mod(x, tile_width);
    lemma_fundamental_div_mod(y, tile_height);
    lemma_mod_bound(x, tile_width);
    lemma_mod_bound(y, tile_height);
    assert((tx + 1) * tile_width == tx * tile_width + tile_width) by (nonlinear_arith);
    assert((ty + 1) * tile_height == ty * tile_height + tile_height) by (nonlinear_arith);
    if corner_in(tile, tile_width, tile_height, tx, ty) {
        lemma_fundamental_div_mod_converse(x, tile_width, tx, x - tx * tile_width);
        lemma_fundamental_div_mod_converse(y, tile_height, ty, y - ty * tile_height);
    }
    assert(tile_width * (x / tile_width) == (x / tile_width) * tile_width) by (nonlinear_arith);
    assert(tile_height * (y / tile_height) == (y / tile_height) * tile_height) by (nonlinear_arith);
}

/// A cell changed just where the corner of a tile lies in it, and what is wanted
/// for it is the quality of the last such tile.
pub proof fn law_changed_cells_are_those_with_tiles(
    tiles: Seq<Tile>,
    tile_width: int,
    tile_height: int,
    columns: int,
    rows: int,
    tx: int,
    ty: int,
)
    requires
        1 <= tile_width,
        1 <= tile_height,
        0 <= tx < columns,
        0 <= ty < rows,
    ensures
        match changed_cells(tiles, tile_width, tile_height, columns, rows).at(tx, ty) {
            Some(q) => exists|k: int|
                0 <= k < tiles.len() && q == (#[trigger] tiles[k]).quality && corner_in(
                    tiles[k],
                    tile_width,
                    tile_height,
                    tx,
                    ty,
                ) && forall|j: int|
                    k < j < tiles.len() ==> !corner_in(
                        #[trigger] tiles[j],
                        tile_width,
                        tile_height,
                        tx,
                        ty,
                    ),
            None => forall|k: int|
                0 <= k < tiles.len() ==> !corner_in(
                    #[trigger] tiles[k],
                    tile_width,
                    tile_height,
                    tx,
                    ty,
                ),
        },
{
    lemma_cell_at(columns, rows, tx, ty);
    lemma_last_tile(tiles, tile_width, tile_height, tx, ty);
}

proof fn lemma_last_tile(tiles: Seq<Tile>, tile_width: int, tile_height: int, tx: int, ty: int)
    requires
        1 <= tile_width,
        1 <= tile_height,
    ensures
        match cell_quality(tiles, tile_width, tile_height, tx, ty) {
            Some(q) => exists|k: int|
                0 <= k < tiles.len() && q == (#[trigger] tiles[k]).quality && corner_in(
                    tiles[k],
                    tile_width,
                    tile_height,
                    tx,
                    ty,
                ) && forall|j: int|
                    k < j < tiles.len() ==> !corner_in(
                        #[trigger] tiles[j],
                        tile_width,
                        tile_height,
                        tx,
                        ty,
                    ),
            None => forall|k: int|
                0 <= k < tiles.len() ==> !corner_in(
                    #[trigger] tiles[k],
                    tile_width,
                    tile_height,
                    tx,
                    ty,
                ),
        },
    decreases tiles.len(),
{
    if tiles.len() > 0 {
        let last = tiles.len() - 1;
        let fewer = tiles.drop_last();
        lemma_starts_in(tiles[last], tile_width, tile_height, tx, ty);
        lemma_last_tile(fewer, tile_width, tile_height, tx, ty);
        assert forall|k: int| 0 <= k < last implies #[trigger] tiles[k] == fewer[k] by {}
        if !starts_in(tiles[last], tile_width, tile_height, tx, ty) {
            if let Some(q) = cell_quality(fewer, tile_width, tile_height, tx, ty) {
                let k = choose|k: int|
                    0 <= k < fewer.len() && q == (#[trigger] fewer[k]).quality && corner_in(
                        fewer[k],
                        tile_width,
                        tile_height,
                        tx,
                        ty,
                    ) && forall|j: int|
                        k < j < fewer.len() ==> !corner_in(
                            #[trigger] fewer[j],
                            tile_width,
                            tile_height,
                            tx,
                            ty,
                        );
                assert(tiles[k].quality == q);
                assert forall|j: int| k < j < tiles.len() implies !corner_in(
                    #[trigger] tiles[j],
                    tile_width,
                    tile_height,
                    tx,
                    ty,
                ) by {
                    if j < last {
                        assert(!corner_in(fewer[j], tile_width, tile_height, tx, ty));
                    }
                }
            }
        } else {
            assert(tiles[last] == tiles.last());
        }
    }
}

/// The last changed cell of a column above row `y`, from a changed one on.
proof fn lemma_last_changed(cells: CellMap, tx: int, from: int, y: int) -> (z: int)
    requires
        from < y,
        cells.has(tx, from),
    ensures
        from <= z < y,
        cells.has(tx, z),
        forall|t: int| z < t < y ==> !#[trigger] cells.has(tx, t),
    decreases y - from,
{
    if cells.has(tx, y - 1) {
        y - 1
    } else {
        lemma_last_changed(cells, tx, from, y - 1)
    }
}

/// Below a changed cell of a run that is not its end, another one changed within
/// reach.
proof fn lemma_next_changed(cells: CellMap, gap: int, tx: int, s: int, e: int, y: int) -> (z: int)
    requires
        is_run(cells, gap, tx, s, e),
        s <= y < e,
        cells.has(tx, y),
    ensures
        y < z <= y + gap + 2,
        z <= e,
        cells.has(tx, z),
{
    assert(linked_below(cells, gap, tx, y, e));
    choose|z: int| y < z <= y + reach(gap) && z <= e && #[trigger] cells.has(tx, z)
}

/// The run of a column of a merged rectangle.
proof fn lemma_run_of(cells: CellMap, gap: int, r: CellRect, tx: int) -> (run: (int, int))
    requires
        is_merged(cells, gap, r),
        r.left <= tx <= r.right,
    ensures
        is_run(cells, gap, tx, run.0, run.1),
        run.0 <= r.top <= r.bottom <= run.1,
        r.bottom == run.1 || r.bottom - r.top == 3,
        cells.has(tx, run.0),
        cells.has(tx, run.1),
{
    let g = choose|g: CellRect| #[trigger] is_group(cells, gap, g) && is_chunk(g, r);
    assert(is_run(cells, gap, tx, g.top as int, g.bottom as int));
    (g.top as int, g.bottom as int)
}

/// A merged rectangle takes in an unchanged cell only to bridge a small gap: in its
/// column a cell above it and one below it changed, with at most `gap + 1` unchanged
/// rows between them.
#[verifier::rlimit(60)]
pub proof fn law_only_small_gaps_are_bridged(
    cells: CellMap,
    gap: int,
    r: CellRect,
    tx: int,
    ty: int,
) -> (ends: (int, int))
    requires
        0 <= gap,
        is_merged(cells, gap, r),
        r.left <= tx <= r.right,
        r.top <= ty <= r.bottom,
        !cells.has(tx, ty),
    ensures
        ends.0 < ty < ends.1,
        cells.has(tx, ends.0),
        cells.has(tx, ends.1),
        ends.1 - ends.0 - 1 <= gap + 1,
{
    let (s, e) = lemma_run_of(cells, gap, r, tx);
    let above = lemma_last_changed(cells, tx, s, ty);
    let below = lemma_next_changed(cells, gap, tx, s, e, above);
    (above, below)
}

/// Two changed cells of a column with at most `gap + 1` unchanged rows between them
/// are kept apart only by the limit on a rectangle's height.
pub proof fn law_close_cells_are_merged(
    cells: CellMap,
    gap: int,
    r: CellRect,
    tx: int,
    above: int,
    below: int,
)
    requires
        0 <= gap,
        is_merged(cells, gap, r),
        r.left <= tx <= r.right,
        r.top <= above <= r.bottom,
        cells.has(tx, above),
        cells.has(tx, below),
        above < below,
        below - above - 1 <= gap + 1,
    ensures
        below <= r.bottom || r.bottom - r.top == 3,
{
    let (s, e) = lemma_run_of(cells, gap, r, tx);
    if below > e {
        assert(below <= e + reach(gap));
    }
}

/// Whether just the cells of `b` changed.
pub open spec fn changed_block(cells: CellMap, b: CellRect) -> bool {
    &&& b.left <= b.right
    &&& b.top <= b.bottom
    &&& forall|tx: int, ty: int| #[trigger]
        cells.has(tx, ty) <==> b.left <= tx <= b.right && b.top <= ty <= b.bottom
}

proof fn lemma_block_run(cells: CellMap, gap: int, b: CellRect, tx: int)
    requires
        0 <= gap,
        changed_block(cells, b),
        b.left <= tx <= b.right,
    ensures
        is_run(cells, gap, tx, b.top as int, b.bottom as int),
{
    assert forall|y: int| b.top < y <= b.bottom && #[trigger] cells.has(tx, y) implies linked_above(
        cells,
        gap,
        tx,
        y,
        b.top as int,
    ) by {
        assert(cells.has(tx, y - 1));
    }
    assert forall|y: int| b.top <= y < b.bottom && #[trigger] cells.has(tx, y) implies linked_below(
        cells,
        gap,
        tx,
        y,
        b.bottom as int,
    ) by {
        assert(cells.has(tx, y + 1));
    }
}

proof fn lemma_block_group(cells: CellMap, gap: int, b: CellRect)
    requires
        0 <= gap,
        changed_block(cells, b),
    ensures
        is_group(cells, gap, b),
{
    assert(cells.has(b.right as int, b.bottom as int));
    assert forall|c: int| b.left <= c <= b.right implies #[trigger] is_run(
        cells,
        gap,
        c,
        b.top as int,
        b.bottom as int,
    ) by {
        lemma_block_run(cells, gap, b, c);
    }
    assert(!cells.has(b.left - 1, b.top as int));
    assert(!cells.has(b.right + 1, b.top as int));
}

proof fn lemma_group_corner(cells: CellMap, gap: int, g: CellRect)
    requires
        is_group(cells, gap, g),
    ensures
        g.left <= g.right,
        g.top <= g.bottom,
        cells.has(g.left as int, g.top as int),
{
    assert(is_run(cells, gap, g.left as int, g.top as int, g.bottom as int));
}

/// A block of changed cells makes one group.
proof fn lemma_block_merged(cells: CellMap, gap: int, b: CellRect, r: CellRect)
    requires
        0 <= gap,
        changed_block(cells, b),
    ensures
        is_merged(cells, gap, r) <==> is_chunk(b, r),
{
    lemma_block_group(cells, gap, b);
    if is_merged(cells, gap, r) {
        let g = choose|g: CellRect| #[trigger] is_group(cells, gap, g) && is_chunk(g, r);
        lemma_group_corner(cells, gap, g);
        lemma_group_unique(cells, gap, b, g, g.left as int, g.top as int);
    }
}

/// A block of changed cells is merged into rectangles of four by four cells, with
/// smaller ones only at its right and bottom edges. One that is no larger than that
/// becomes a single rectangle.
pub proof fn law_block_is_cut_in_fours(cells: CellMap, gap: int, b: CellRect, r: CellRect)
    requires
        0 <= gap,
        changed_block(cells, b),
    ensures
        is_merged(cells, gap, r) ==> {
            &&& b.left <= r.left && r.right <= b.right
            &&& b.top <= r.top && r.bottom <= b.bottom
            &&& r.right == b.right || r.right - r.left == 3
            &&& r.bottom == b.bottom || r.bottom - r.top == 3
            &&& (r.left - b.left) % 4 == 0
            &&& (r.top - b.top) % 4 == 0
        },
        b.right - b.left < 4 && b.bottom - b.top < 4 ==> (is_merged(cells, gap, r) <==> r == b),
{
    lemma_block_merged(cells, gap, b, r);
}

/// Merged tiles leave no part of a changed cell out: where every cell of the grid
/// starts inside the frame, each pixel of a merged rectangle's cells that lies in
/// the frame is a pixel of its tile. The last column and row reach the frame's
/// edge.
pub proof fn law_merged_tile_has_its_cells_pixels(
    cells: CellMap,
    gap: int,
    r: CellRect,
    tile_width: int,
    tile_height: int,
    frame_width: int,
    frame_height: int,
    px: int,
    py: int,
)
    requires
        0 <= gap,
        is_merged(cells, gap, r),
        1 <= tile_width,
        1 <= tile_height,
        (cells.columns - 1) * tile_width < frame_width <= u32::MAX,
        (cells.rows - 1) * tile_height < frame_height <= u32::MAX,
        r.left * tile_width <= px < frame_width,
        r.top * tile_height <= py < frame_height,
        px < (r.right + 1) * tile_width || r.right + 1 == cells.columns,
        py < (r.bottom + 1) * tile_height || r.bottom + 1 == cells.rows,
    ensures
        ({
            let t = rect_tile(cells, r, tile_width, tile_height, frame_width, frame_height);
            &&& t.x <= px < t.x + t.width
            &&& t.y <= py < t.y + t.height
        }),
{
    lemma_merged_rect(cells, gap, r);
    lemma_span(r.left as int, r.right as int, tile_width, cells.columns, frame_width);
    lemma_span(r.top as int, r.bottom as int, tile_height, cells.rows, frame_height);
}

} // verus!
