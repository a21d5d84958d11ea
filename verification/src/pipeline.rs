//! What happens to one frame: find the changed cells, merge them, order the
//! merged tiles, and reuse what was encoded before.
//!
//! The image codec is not called here. [`Pipeline::process`] hands out the
//! tiles that have to be encoded, and [`Pipeline::finish`] takes the encoded
//! bytes in.

use crate::config::Config;
use crate::diff::{
    detected, fresh_state, invalidated, refreshed, reported, sent_cells, sent_tiles, verdict_at,
    DebugReport, DetectorState, DiffDetector,
};
use crate::encoder::{
    changed_cells, is_merged, is_merged_tile, lemma_merged_rect, rect_tile,
    span_end, starts_in, CellMap, CellRect, TileMerger,
};
use crate::frame::Frame;
use crate::priority::{is_order, priority, priority_order, tile_score};
use crate::tile::{
    bounds_of, covered_cells, covers_one_cell, grid_over, index_of_tile,
    law_covered_cells_share_a_pixel, law_single_cell_tiles_share_no_other_cell, lemma_between,
    lemma_between_rises, lemma_cells_between_has, share_a_pixel, squared_distance, CellMemory, Grid,
    Tile, TileMetadata,
};
use crate::tile_buffer_pool::{capacity_of, taken_back, zeros, TileBufferPool};
use crate::tile_extract::extract_tile;
use crate::tile_hash::{tile_inside, tile_pixels, SimdLevel};
use vstd::arithmetic::div_mod::{lemma_fundamental_div_mod, lemma_fundamental_div_mod_converse, lemma_mod_bound};
use vstd::prelude::*;

verus! {

/// Cells last sent at low quality are looked at again this often, in
/// nanoseconds.
pub const FULL_REFRESH_INTERVAL: u64 = 1_000_000_000;

/// The size of a pooled pixel buffer.
pub const POOLED_BUFFER_SIZE: usize = 32640;

/// How many pixel buffers are made ahead.
pub const POOLED_BUFFERS: usize = 50;

/// Whether a tile has an area, lies inside the frame and starts in a cell.
pub open spec fn placed(tile: Tile, grid: Grid) -> bool {
    &&& 1 <= tile.width
    &&& 1 <= tile.height
    &&& tile.x + tile.width <= grid.frame_width
    &&& tile.y + tile.height <= grid.frame_height
    &&& tile.x as int / (grid.tile_width as int) < grid.tiles_x
    &&& tile.y as int / (grid.tile_height as int) < grid.tiles_y
}

proof fn lemma_div_of_product(q: int, d: int)
    requires
        0 <= q,
        1 <= d,
    ensures
        (q * d) / d == q,
{
    lemma_fundamental_div_mod_converse(q * d, d, q, 0);
}

proof fn lemma_div_below(a: int, d: int, q: int)
    requires
        0 <= a,
        1 <= d,
        q * d <= a < q * d + d,
    ensures
        a / d == q,
{
    lemma_fundamental_div_mod_converse(a, d, q, a - q * d);
}

proof fn lemma_div_at_least(a: int, d: int, q: int)
    requires
        0 <= a,
        1 <= d,
        q * d <= a,
    ensures
        a / d >= q,
{
    lemma_fundamental_div_mod(a, d);
    lemma_mod_bound(a, d);
    let p = a / d;
    assert(p >= q) by (nonlinear_arith)
        requires
            a == d * p + a % d,
            a % d < d,
            q * d <= a,
            d >= 1,
    ;
}

/// The tile of a rectangle of cells covers exactly those cells.
pub proof fn lemma_rect_tile(cells: CellMap, grid: Grid, r: CellRect)
    requires
        grid.well_formed(),
        cells.columns == grid.tiles_x,
        cells.rows == grid.tiles_y,
        r.left <= r.right < grid.tiles_x,
        r.top <= r.bottom < grid.tiles_y,
    ensures
        ({
            let t = rect_tile(
                cells,
                r,
                grid.tile_width as int,
                grid.tile_height as int,
                grid.frame_width as int,
                grid.frame_height as int,
            );
            &&& placed(t, grid)
            &&& t.x == r.left * grid.tile_width
            &&& t.y == r.top * grid.tile_height
            &&& bounds_of(t, grid) == (r.left as int, r.top as int, r.right as int, r.bottom as int)
        }),
{
    let (tw, th) = (grid.tile_width as int, grid.tile_height as int);
    let (fw, fh) = (grid.frame_width as int, grid.frame_height as int);
    let (nx, ny) = (grid.tiles_x as int, grid.tiles_y as int);
    let (l, t, rt, b) = (r.left as int, r.top as int, r.right as int, r.bottom as int);
    assert(0 <= l * tw && l * tw + tw <= (rt + 1) * tw && (rt + 1) * tw == rt * tw + tw && (rt + 1)
        * tw <= nx * tw) by (nonlinear_arith)
        requires
            0 <= l <= rt,
            rt + 1 <= nx,
            tw >= 1,
    ;
    assert(0 <= t * th && t * th <= b * th && (b + 1) * th == b * th + th && b * th <= (ny - 1) * th)
        by (nonlinear_arith)
        requires
            0 <= t <= b,
            b + 1 <= ny,
            th >= 1,
    ;
    lemma_div_of_product(l, tw);
    lemma_div_of_product(t, th);
    let xe = span_end(rt, tw, nx, fw);
    let ye = span_end(b, th, ny, fh);
    if rt + 1 < nx {
        lemma_div_below(xe - 1, tw, rt);
    } else {
        lemma_div_at_least(xe - 1, tw, rt);
    }
    if b + 1 < ny {
        assert((b + 1) * th <= (ny - 1) * th) by (nonlinear_arith)
            requires
                b + 1 <= ny - 1,
                th >= 1,
        ;
        lemma_div_below(ye - 1, th, b);
    } else {
        lemma_div_at_least(ye - 1, th, b);
    }
}

/// A tile to encode: its pixels, and the cell of its corner.
pub struct EncodingTask {
    pub tile: Tile,
    pub tile_data: Vec<u8>,
    pub tile_idx: usize,
}

/// An encoded tile, known by the cell of its corner. Nothing was encoded where
/// `data` is empty.
pub struct EncodedResult {
    pub tile_idx: usize,
    pub data: Vec<u8>,
}

/// A frame on its way: its tiles, highest priority first, with what is encoded
/// of them so far.
pub struct FrameWork {
    /// The frame's size where it changed: a header goes out first.
    pub header: Option<(u32, u32)>,
    pub tiles: Vec<Tile>,
    /// The cell of each tile's corner.
    pub tile_indices: Vec<usize>,
    /// The content hash of that cell.
    pub tile_hashes: Vec<u64>,
    /// Whether the tile covers that cell alone.
    pub single_cell: Vec<bool>,
    /// The encoded bytes of each tile, empty where there are none yet.
    pub encoded: Vec<Vec<u8>>,
    /// The tiles that are to be encoded.
    pub tasks: Vec<EncodingTask>,
    /// Every cell that the tiles cover.
    pub ack_indices: Vec<usize>,
    /// The tile grid these cells belong to.
    pub epoch: u64,
}

/// A frame ready to be sent.
pub struct EncodedFrame {
    pub header: Option<(u32, u32)>,
    pub tiles: Vec<Tile>,
    pub encoded: Vec<Vec<u8>>,
    pub ack_indices: Vec<usize>,
    pub epoch: u64,
}

/// What a pipeline remembers, as a value.
#[verifier::ext_equal]
pub struct PipelineState {
    pub detector: DetectorState,
    /// The size of the last frame.
    pub screen: Option<(u32, u32)>,
    /// When cells were last refreshed.
    pub refreshed_at: u64,
    /// How many times the size changed after the first frame.
    pub epoch: u64,
}

impl PipelineState {
    /// The detector knows the cells of the current frame size, or none yet.
    pub open spec fn consistent(self, config: Config) -> bool {
        &&& self.detector.consistent()
        &&& match self.screen {
            Some((w, h)) => self.detector.hashes.len() == 0 || self.detector.hashes.len()
                == grid_over(config.tiles_x as int, w as int, h as int).cells(),
            None => self.detector.hashes.len() == 0,
        }
    }
}

/// A pipeline's state when a frame arrives at time `now`: a new size starts
/// over with a new grid, and after a while cells sent at low quality are to be
/// looked at again.
pub open spec fn begun(state: PipelineState, width: u32, height: u32, now: u64) -> PipelineState {
    if state.screen != Some((width, height)) {
        PipelineState {
            detector: if state.screen is Some {
                fresh_state()
            } else {
                state.detector
            },
            screen: Some((width, height)),
            refreshed_at: now,
            epoch: if state.screen is Some {
                (state.epoch + 1) as u64
            } else {
                state.epoch
            },
        }
    } else if now - state.refreshed_at >= FULL_REFRESH_INTERVAL {
        PipelineState { detector: refreshed(state.detector), refreshed_at: now, ..state }
    } else {
        state
    }
}

/// Whether the bytes kept for a cell serve for a tile: the tile is that cell
/// and nothing else, and its content is the one they were encoded from.
pub open spec fn cache_serves(memory: CellMemory, tile: Tile, grid: Grid, hash: u64) -> bool {
    covers_one_cell(tile, grid) && memory.cached_hash == hash && memory.cached_encoded is Some
}

/// The bytes a tile starts with: those kept for its cell, or none.
pub open spec fn bytes_at_hand(state: DetectorState, tile: Tile, grid: Grid) -> Seq<u8> {
    let i = index_of_tile(tile, grid);
    if cache_serves(state.memory[i], tile, grid, state.hashes[i]) {
        state.memory[i].cached_encoded->0
    } else {
        Seq::empty()
    }
}

/// The tiles to encode among the first `n`, with their pixels and cells.
pub open spec fn tasks_for(
    state: DetectorState,
    grid: Grid,
    rgba: Seq<u8>,
    tiles: Seq<Tile>,
    n: nat,
) -> Seq<(Tile, Seq<u8>, usize)>
    decreases n,
{
    if n == 0 {
        Seq::empty()
    } else {
        let before = tasks_for(state, grid, rgba, tiles, (n - 1) as nat);
        let t = tiles[n - 1];
        let i = index_of_tile(t, grid);
        if cache_serves(state.memory[i], t, grid, state.hashes[i]) {
            before
        } else {
            before.push(
                (
                    t,
                    tile_pixels(
                        rgba,
                        t.x as int,
                        t.y as int,
                        t.width as int,
                        t.height as int,
                        grid.frame_width as int,
                    ),
                    i as usize,
                ),
            )
        }
    }
}

/// Every cell that the first `n` tiles cover, tile by tile.
pub open spec fn all_covered(grid: Grid, tiles: Seq<Tile>, n: nat) -> Seq<usize>
    decreases n,
{
    if n == 0 {
        Seq::empty()
    } else {
        all_covered(grid, tiles, (n - 1) as nat) + covered_cells(tiles[n - 1], grid)
    }
}

/// A task as a value.
pub open spec fn task_value(task: EncodingTask) -> (Tile, Seq<u8>, usize) {
    (task.tile, task.tile_data@, task.tile_idx)
}

/// The score by which a tile is ordered.
pub open spec fn score_of(config: Config, state: DetectorState, grid: Grid, tile: Tile) -> int {
    tile_score(
        config,
        state.memory[index_of_tile(tile, grid)],
        tile,
        grid.frame_width as int,
        grid.frame_height as int,
    )
}

/// Whether `scores` are the scores of `tiles`.
pub open spec fn scored(
    config: Config,
    state: DetectorState,
    grid: Grid,
    tiles: Seq<Tile>,
    scores: Seq<i128>,
) -> bool {
    &&& scores.len() == tiles.len()
    &&& forall|k: int|
        0 <= k < scores.len() ==> #[trigger] scores[k] == score_of(config, state, grid, tiles[k])
}

/// Whether `tiles` are `merged` in this order, which goes by `scores`.
pub open spec fn order_of(
    merged: Seq<Tile>,
    scores: Seq<i128>,
    tiles: Seq<Tile>,
    order: Seq<usize>,
) -> bool {
    &&& is_order(scores, order, merged.len() as int)
    &&& tiles.len() == merged.len()
    &&& forall|k: int| 0 <= k < tiles.len() ==> #[trigger] tiles[k] == merged[order[k] as int]
}

/// Whether `tiles` are `merged` in the order of `scores`, highest first; equal
/// scores keep their order.
pub open spec fn ordered(merged: Seq<Tile>, scores: Seq<i128>, tiles: Seq<Tile>) -> bool {
    exists|order: Seq<usize>| #[trigger] order_of(merged, scores, tiles, order)
}

/// Whether `tiles` are in sending order.
pub open spec fn by_score(config: Config, state: DetectorState, grid: Grid, tiles: Seq<Tile>) -> bool {
    forall|a: int, b: int|
        0 <= a < b < tiles.len() ==> score_of(config, state, grid, #[trigger] tiles[a]) >= score_of(
            config,
            state,
            grid,
            #[trigger] tiles[b],
        )
}

/// Whether no two tiles start at the same pixel.
pub open spec fn distinct_corners(tiles: Seq<Tile>) -> bool {
    forall|a: int, b: int|
        0 <= a < b < tiles.len() ==> (#[trigger] tiles[a]).x != (#[trigger] tiles[b]).x
            || tiles[a].y != tiles[b].y
}

/// Whether everything a frame holds besides its header follows from its tiles
/// and the state after detection.
pub open spec fn worked_out(state: DetectorState, grid: Grid, rgba: Seq<u8>, work: FrameWork) -> bool {
    let n = work.tiles@.len();
    &&& work.tile_indices@.len() == n
    &&& work.tile_hashes@.len() == n
    &&& work.single_cell@.len() == n
    &&& work.encoded@.len() == n
    &&& forall|k: int|
        0 <= k < n ==> #[trigger] work.tile_indices@[k] == index_of_tile(work.tiles@[k], grid)
    &&& forall|k: int| 0 <= k < n ==> #[trigger] work.tile_indices@[k] < state.hashes.len()
    &&& forall|k: int|
        0 <= k < n ==> #[trigger] work.single_cell@[k] == covers_one_cell(work.tiles@[k], grid)
    &&& forall|k: int|
        0 <= k < n ==> #[trigger] work.tile_hashes@[k] == state.hashes[index_of_tile(
            work.tiles@[k],
            grid,
        )]
    &&& forall|k: int|
        0 <= k < n ==> (#[trigger] work.encoded@[k])@ == bytes_at_hand(state, work.tiles@[k], grid)
    &&& work.tasks@.map_values(|t: EncodingTask| task_value(t)) == tasks_for(
        state,
        grid,
        rgba,
        work.tiles@,
        n,
    )
    &&& work.ack_indices@ == all_covered(grid, work.tiles@, n)
}

/// Makes frames ready to be sent.
pub struct Pipeline {
    diff_detector: DiffDetector,
    tile_merger: TileMerger,
    screen_size: Option<(u32, u32)>,
    last_full_refresh: u64,
    tile_buffer_pool: TileBufferPool,
    epoch: u64,
}

impl View for Pipeline {
    type V = PipelineState;

    closed spec fn view(&self) -> PipelineState {
        PipelineState {
            detector: self.diff_detector@,
            screen: self.screen_size,
            refreshed_at: self.last_full_refresh,
            epoch: self.epoch,
        }
    }
}

/// The buffers left once `n` were used; with none left, new ones are made.
pub open spec fn after_use(spare: Seq<Vec<u8>>, n: nat) -> Seq<Vec<u8>> {
    if n < spare.len() {
        spare.skip(n as int)
    } else {
        Seq::empty()
    }
}

/// Whether two sizes are equal.
fn same_size(size: Option<(u32, u32)>, width: u32, height: u32) -> (b: bool)
    ensures
        b == (size == Some((width, height))),
{
    match size {
        Some((w, h)) => w == width && h == height,
        None => false,
    }
}

/// A placed tile starts in one of the grid's cells, reaches no further than the
/// grid, and lies within `i32` range of the frame's centre.
pub(crate) proof fn lemma_placed(tile: Tile, grid: Grid)
    requires
        grid.well_formed(),
        grid.cells() <= u32::MAX,
        grid.frame_width <= 0xffff,
        grid.frame_height <= 0xffff,
        placed(tile, grid),
    ensures
        0 <= index_of_tile(tile, grid) < grid.cells(),
        tile.on_grid(grid),
        0 <= squared_distance(
            tile,
            grid.frame_width as int / 2,
            grid.frame_height as int / 2,
        ) <= i32::MAX,
{
    let (tw, th) = (grid.tile_width as int, grid.tile_height as int);
    let (tx, ty) = (tile.x as int / tw, tile.y as int / th);
    lemma_fundamental_div_mod(tile.x as int, tw);
    lemma_mod_bound(tile.x as int, tw);
    lemma_fundamental_div_mod(tile.y as int, th);
    lemma_mod_bound(tile.y as int, th);
    assert(tx >= 0) by (nonlinear_arith)
        requires
            tile.x as int == tw * tx + (tile.x as int) % tw,
            (tile.x as int) % tw < tw,
            tile.x >= 0,
            tw >= 1,
    ;
    assert(ty >= 0) by (nonlinear_arith)
        requires
            tile.y as int == th * ty + (tile.y as int) % th,
            (tile.y as int) % th < th,
            tile.y >= 0,
            th >= 1,
    ;
    crate::tile::lemma_cell_index(ty, tx, grid.tiles_x as int, grid.tiles_y as int);
    assert(tx * tw == tw * tx && ty * th == th * ty) by (nonlinear_arith);
    lemma_div_at_least(tile.x + tile.width - 1, tw, tx);
    lemma_div_at_least(tile.y + tile.height - 1, th, ty);
    let dx = tile.x + tile.width / 2 - grid.frame_width as int / 2;
    let dy = tile.y + tile.height / 2 - grid.frame_height as int / 2;
    assert(0 <= dx * dx <= 32767 * 32767) by (nonlinear_arith)
        requires
            -32767 <= dx <= 32767,
    ;
    assert(0 <= dy * dy <= 32767 * 32767) by (nonlinear_arith)
        requires
            -32767 <= dy <= 32767,
    ;
}

/// The pixels of a tile inside a frame are there.
pub(crate) proof fn lemma_pixels_inside(frame: Frame, tile: Tile)
    requires
        frame.complete(),
        1 <= tile.width,
        1 <= tile.height,
        tile.x + tile.width <= frame.width,
        tile.y + tile.height <= frame.height,
    ensures
        tile_inside(
            frame.rgba@.len() as int,
            tile.x as int,
            tile.y as int,
            tile.width as int,
            tile.height as int,
            frame.width as int,
        ),
        tile.width * tile.height * 4 <= frame.width * frame.height * 4,
{
    let (fw, fh) = (frame.width as int, frame.height as int);
    let bottom = tile.y + tile.height;
    assert(bottom * fw <= fh * fw) by (nonlinear_arith)
        requires
            bottom <= fh,
            fw >= 0,
    ;
    assert(fh * fw == fw * fh) by (nonlinear_arith);
    assert((bottom - 1) * fw + fw == bottom * fw) by (nonlinear_arith);
    assert((tile.height - 1) * 1 == tile.height - 1);
    assert(tile.width * tile.height <= fw * fh) by (nonlinear_arith)
        requires
            0 <= tile.width <= fw,
            0 <= tile.height <= fh,
    ;
}

impl Pipeline {
    /// The settings in force.
    pub closed spec fn settings(&self) -> Config {
        self.diff_detector.settings()
    }

    /// The hash in use.
    pub closed spec fn hash_level(&self) -> SimdLevel {
        self.diff_detector.hash_level()
    }

    /// How many unchanged rows beyond one a merged run tolerates.
    pub closed spec fn gap(&self) -> int {
        self.tile_merger.gap()
    }

    /// The pixel buffers at hand, the one used next first.
    pub closed spec fn spare(&self) -> Seq<Vec<u8>> {
        self.tile_buffer_pool.ready()
    }

    /// The size of the pixel buffers that are kept.
    pub closed spec fn spare_size(&self) -> int {
        self.tile_buffer_pool.size() as int
    }

    /// Nothing but what is remembered of frames, and the buffers at hand, may
    /// differ.
    pub open spec fn same_setup(&self, other: &Pipeline) -> bool {
        &&& self.settings() == other.settings()
        &&& self.hash_level() == other.hash_level()
        &&& self.gap() == other.gap()
        &&& self.spare_size() == other.spare_size()
    }

    /// A pipeline that has seen nothing, hashing in four lanes.
    pub fn new(config: Config) -> (p: Self)
        ensures
            p@ == fresh_pipeline(),
            p.settings() == config,
            p.hash_level() == SimdLevel::Avx2,
            p.gap() == config.merge_gap,
            p.spare_size() == POOLED_BUFFER_SIZE,
            p.spare().len() == POOLED_BUFFERS,
            forall|i: int|
                0 <= i < POOLED_BUFFERS ==> (#[trigger] p.spare()[i])@ == zeros(
                    POOLED_BUFFER_SIZE as nat,
                ),
    {
        Pipeline::with_level(config, SimdLevel::Avx2)
    }

    /// A pipeline that has seen nothing, hashing at `level`.
    pub fn with_level(config: Config, level: SimdLevel) -> (p: Self)
        ensures
            p@ == fresh_pipeline(),
            p.settings() == config,
            p.hash_level() == level,
            p.gap() == config.merge_gap,
            p.spare_size() == POOLED_BUFFER_SIZE,
            p.spare().len() == POOLED_BUFFERS,
            forall|i: int|
                0 <= i < POOLED_BUFFERS ==> (#[trigger] p.spare()[i])@ == zeros(
                    POOLED_BUFFER_SIZE as nat,
                ),
    {
        let tile_merger = TileMerger::new(config.merge_gap);
        Pipeline {
            diff_detector: DiffDetector::with_level(config, level),
            tile_merger,
            screen_size: None,
            last_full_refresh: 0,
            tile_buffer_pool: TileBufferPool::new(POOLED_BUFFER_SIZE, POOLED_BUFFERS),
            epoch: 0,
        }
    }

    /// The current tile grid's number, counted up on every change of size after
    /// the first frame.
    pub fn epoch(&self) -> (epoch: u64)
        ensures
            epoch == self@.epoch,
    {
        self.epoch
    }

    /// The statistics to report after the last frame, as
    /// [`DiffDetector::debug_report`] gives them.
    pub fn debug_report(&self) -> (report: Option<DebugReport>)
        ensures
            reported(self.settings(), self@.detector, report),
    {
        self.diff_detector.debug_report()
    }

    /// Makes these cells be sent again. Cells of an earlier tile grid are
    /// ignored, and `false` is returned.
    pub fn invalidate(&mut self, epoch: u64, indices: &[usize]) -> (applied: bool)
        requires
            old(self)@.detector.parallel(),
        ensures
            final(self)@ == told_again(old(self)@, epoch, indices@),
            applied == (epoch == old(self)@.epoch),
            final(self).same_setup(old(self)),
            final(self).spare() == old(self).spare(),
            final(self)@ == (if epoch == old(self)@.epoch {
                PipelineState {
                    detector: invalidated(old(self)@.detector, indices@),
                    ..old(self)@
                }
            } else {
                old(self)@
            }),
            old(self)@.consistent(old(self).settings()) ==> final(self)@.consistent(
                old(self).settings(),
            ),
    {
        if epoch != self.epoch {
            return false;
        }
        self.diff_detector.invalidate_tiles(indices);
        true
    }

    /// Takes a pixel buffer back once its tile is encoded, where its capacity
    /// suits, and drops it otherwise. The capacity is what the allocator gave;
    /// for each value of it, [`Pipeline::take_back`] says what becomes of the
    /// buffer. One that holds twice the size kept is dropped in any case.
    pub fn recycle(&mut self, buffer: Vec<u8>)
        ensures
            final(self)@ == old(self)@,
            final(self).same_setup(old(self)),
            exists|capacity: int|
                capacity >= buffer@.len() && final(self).spare() == #[trigger] taken_back(
                    old(self).spare(),
                    old(self).spare_size(),
                    buffer,
                    capacity,
                ),
            buffer@.len() >= old(self).spare_size() * 2 ==> final(self).spare() == old(
                self,
            ).spare(),
    {
        let capacity: usize = capacity_of(&buffer);
        self.take_back(buffer, capacity);
    }

    /// Takes a pixel buffer of this capacity back where that suits, and drops it
    /// otherwise.
    pub fn take_back(&mut self, buffer: Vec<u8>, capacity: usize)
        ensures
            final(self)@ == old(self)@,
            final(self).same_setup(old(self)),
            final(self).spare() == taken_back(
                old(self).spare(),
                old(self).spare_size(),
                buffer,
                capacity as int,
            ),
    {
        self.tile_buffer_pool.take_back(buffer, capacity);
    }

    /// Notes a frame's arrival: returns the size where it is new.
    fn begin(&mut self, width: u32, height: u32, now: u64) -> (header: Option<(u32, u32)>)
        requires
            old(self)@.detector.parallel(),
            old(self)@.epoch < u64::MAX,
        ensures
            final(self).same_setup(old(self)),
            final(self).spare() == old(self).spare(),
            final(self)@ == begun(old(self)@, width, height, now),
            header == (if old(self)@.screen != Some((width, height)) {
                Some((width, height))
            } else {
                None
            }),
    {
        if !same_size(self.screen_size, width, height) {
            if self.screen_size.is_some() {
                self.diff_detector.reset();
                self.epoch = self.epoch + 1;
            }
            self.screen_size = Some((width, height));
            self.last_full_refresh = now;
            return Some((width, height));
        }
        if now.saturating_sub(self.last_full_refresh) >= FULL_REFRESH_INTERVAL {
            self.diff_detector.invalidate_cache();
            self.last_full_refresh = now;
        }
        None
    }
}

/// The score of each merged tile.
pub(crate) fn score_tiles(detector: &DiffDetector, merged: &Vec<Tile>, grid: &Grid) -> (scores: Vec<
    i128,
>)
    requires
        grid.well_formed(),
        grid.cells() <= u32::MAX,
        grid.frame_width <= 0xffff,
        grid.frame_height <= 0xffff,
        grid.cells() <= detector@.memory.len(),
        forall|k: int| 0 <= k < merged@.len() ==> placed(#[trigger] merged@[k], *grid),
    ensures
        scored(detector.settings(), detector@, *grid, merged@, scores@),
{
    let ghost config = detector.settings();
    let ghost state = detector@;
    let mut scores: Vec<i128> = Vec::new();
    let mut k: usize = 0;
    while k < merged.len()
        invariant
            k <= merged@.len(),
            config == detector.settings(),
            state == detector@,
            grid.well_formed(),
            grid.cells() <= u32::MAX,
            grid.frame_width <= 0xffff,
            grid.frame_height <= 0xffff,
            grid.cells() <= state.memory.len(),
            forall|j: int| 0 <= j < merged@.len() ==> placed(#[trigger] merged@[j], *grid),
            scores@.len() == k,
            forall|j: int|
                0 <= j < k ==> #[trigger] scores@[j] == score_of(
                    config,
                    state,
                    *grid,
                    merged@[j],
                ),
        decreases merged@.len() - k,
    {
        let tile: Tile = merged[k];
        proof {
            lemma_placed(tile, *grid);
        }
        let at: usize = tile.representative_index(grid);
        let metadata: &TileMetadata = detector.get_metadata(at);
        let p: i128 = priority(
            &tile,
            metadata,
            grid.frame_width,
            grid.frame_height,
            detector.config(),
        );
        scores.push(p);
        k += 1;
    }
    scores
}

/// Merged tiles in the order of their scores, highest first; equal scores keep
/// their order.
pub(crate) fn in_order(merged: &Vec<Tile>, scores: &Vec<i128>) -> (tiles: Vec<Tile>)
    requires
        scores@.len() == merged@.len(),
    ensures
        ordered(merged@, scores@, tiles@),
{
    let order: Vec<usize> = priority_order(scores);
    let mut tiles: Vec<Tile> = Vec::new();
    let mut m: usize = 0;
    while m < order.len()
        invariant
            m <= order@.len(),
            scores@.len() == merged@.len(),
            is_order(scores@, order@, merged@.len() as int),
            tiles@.len() == m,
            forall|j: int| 0 <= j < m ==> #[trigger] tiles@[j] == merged@[order@[j] as int],
        decreases order@.len() - m,
    {
        tiles.push(merged[order[m]]);
        m += 1;
    }
    assert(order_of(merged@, scores@, tiles@, order@));
    tiles
}

/// What the tiles in the order of their scores have in common with the merged
/// ones.
pub proof fn lemma_ordered(
    config: Config,
    state: DetectorState,
    grid: Grid,
    merged: Seq<Tile>,
    scores: Seq<i128>,
    tiles: Seq<Tile>,
)
    requires
        scored(config, state, grid, merged, scores),
        ordered(merged, scores, tiles),
        distinct_corners(merged),
        merged.len() <= usize::MAX,
    ensures
        by_score(config, state, grid, tiles),
        distinct_corners(tiles),
        forall|t: Tile| #[trigger] tiles.contains(t) <==> merged.contains(t),
        tiles.len() == merged.len(),
{
    let order = choose|order: Seq<usize>| #[trigger] order_of(merged, scores, tiles, order);
    assert forall|a: int, b: int| 0 <= a < b < tiles.len() implies score_of(
        config,
        state,
        grid,
        #[trigger] tiles[a],
    ) >= score_of(config, state, grid, #[trigger] tiles[b]) by {
        let (i, j) = (order[a] as int, order[b] as int);
        assert(crate::priority::goes_before(scores, i, j));
        assert(scores[i] == score_of(config, state, grid, merged[i]));
        assert(scores[j] == score_of(config, state, grid, merged[j]));
    }
    assert forall|a: int, b: int| 0 <= a < b < tiles.len() implies (#[trigger] tiles[a]).x
        != (#[trigger] tiles[b]).x || tiles[a].y != tiles[b].y by {
        let (i, j) = (order[a] as int, order[b] as int);
        assert(crate::priority::goes_before(scores, i, j));
        if i < j {
            assert(merged[i].x != merged[j].x || merged[i].y != merged[j].y);
        } else {
            assert(merged[j].x != merged[i].x || merged[j].y != merged[i].y);
        }
    }
    assert forall|t: Tile| #[trigger] tiles.contains(t) <==> merged.contains(t) by {
        if tiles.contains(t) {
            let a = choose|a: int| 0 <= a < tiles.len() && tiles[a] == t;
            assert(merged[order[a] as int] == t);
        }
        if merged.contains(t) {
            let i = choose|i: int| 0 <= i < merged.len() && merged[i] == t;
            crate::priority::lemma_order_is_complete(
                scores,
                order,
                merged.len() as int,
                i,
            );
            let a = choose|a: int| 0 <= a < order.len() && order[a] == i as usize;
            assert(tiles[a] == t);
        }
    }
}

/// Orders merged tiles for sending.
pub(crate) fn rank(detector: &DiffDetector, merged: &Vec<Tile>, grid: &Grid) -> (tiles: Vec<Tile>)
    requires
        grid.well_formed(),
        grid.cells() <= u32::MAX,
        grid.frame_width <= 0xffff,
        grid.frame_height <= 0xffff,
        grid.cells() <= detector@.memory.len(),
        distinct_corners(merged@),
        forall|k: int| 0 <= k < merged@.len() ==> placed(#[trigger] merged@[k], *grid),
    ensures
        by_score(detector.settings(), detector@, *grid, tiles@),
        distinct_corners(tiles@),
        forall|t: Tile| #[trigger] tiles@.contains(t) <==> merged@.contains(t),
        tiles@.len() == merged@.len(),
{
    let scores: Vec<i128> = score_tiles(detector, merged, grid);
    let tiles: Vec<Tile> = in_order(merged, &scores);
    proof {
        assert(merged@.len() == merged.len());
        lemma_ordered(detector.settings(), detector@, *grid, merged@, scores@, tiles@);
    }
    tiles
}

/// What a pipeline that has seen nothing remembers.
pub open spec fn fresh_pipeline() -> PipelineState {
    PipelineState { detector: fresh_state(), screen: None, refreshed_at: 0, epoch: 0 }
}

/// Copies a tile's pixels into a buffer of its own.
pub(crate) fn cut_out(frame: &Frame, tile: &Tile, buffer: Vec<u8>) -> (pixels: Vec<u8>)
    requires
        tile_inside(
            frame.rgba@.len() as int,
            tile.x as int,
            tile.y as int,
            tile.width as int,
            tile.height as int,
            frame.width as int,
        ),
        tile.width * tile.height * 4 <= u32::MAX,
    ensures
        pixels@ == tile_pixels(
            frame.rgba@,
            tile.x as int,
            tile.y as int,
            tile.width as int,
            tile.height as int,
            frame.width as int,
        ),
{
    let mut pixels: Vec<u8> = buffer;
    proof {
        assert(tile.width * tile.height >= 0) by (nonlinear_arith);
    }
    let size: usize = (tile.width * tile.height * 4) as usize;
    if pixels.len() != size {
        pixels.clear();
        pixels.resize(size, 0);
    }
    extract_tile(
        frame.rgba.as_slice(),
        pixels.as_mut_slice(),
        tile.x,
        tile.y,
        tile.width,
        tile.height,
        frame.width,
    );
    assert(pixels@.take(size as int) =~= pixels@);
    pixels
}

impl Pipeline {
    /// Works out what is known of each tile and what has to be encoded.
    fn plan(&mut self, tiles: Vec<Tile>, grid: &Grid, frame: &Frame, header: Option<(u32, u32)>) -> (work:
        FrameWork)
        requires
            frame.streamable(),
            grid.well_formed(),
            grid.cells() <= u32::MAX,
            grid.frame_width == frame.width,
            grid.frame_height == frame.height,
            old(self)@.detector.parallel(),
            grid.cells() <= old(self)@.detector.hashes.len(),
            forall|k: int| 0 <= k < tiles@.len() ==> placed(#[trigger] tiles@[k], *grid),
        ensures
            final(self)@ == old(self)@,
            final(self).same_setup(old(self)),
            final(self).spare() == after_use(old(self).spare(), work.tasks@.len()),
            work.header == header,
            work.tiles@ == tiles@,
            work.epoch == old(self)@.epoch,
            worked_out(old(self)@.detector, *grid, frame.rgba@, work),
    {
        let ghost state = self@.detector;
        let ghost before = *self;
        let mut tile_indices: Vec<usize> = Vec::new();
        let mut tile_hashes: Vec<u64> = Vec::new();
        let mut single_cell: Vec<bool> = Vec::new();
        let mut encoded: Vec<Vec<u8>> = Vec::new();
        let mut tasks: Vec<EncodingTask> = Vec::new();
        let mut ack_indices: Vec<usize> = Vec::new();
        let mut k: usize = 0;
        assert(tasks@.map_values(|t: EncodingTask| task_value(t)) =~= tasks_for(
            state,
            *grid,
            frame.rgba@,
            tiles@,
            0,
        ));
        while k < tiles.len()
            invariant
                k <= tiles@.len(),
                frame.streamable(),
                grid.well_formed(),
                grid.cells() <= u32::MAX,
                grid.frame_width == frame.width,
                grid.frame_height == frame.height,
                state.parallel(),
                grid.cells() <= state.hashes.len(),
                self@ == before@,
                self.same_setup(&before),
                self.spare() == after_use(before.spare(), tasks@.len()),
                state == self@.detector,
                forall|j: int| 0 <= j < tiles@.len() ==> placed(#[trigger] tiles@[j], *grid),
                tile_indices@.len() == k,
                tile_hashes@.len() == k,
                single_cell@.len() == k,
                encoded@.len() == k,
                forall|j: int|
                    0 <= j < k ==> #[trigger] tile_indices@[j] == index_of_tile(tiles@[j], *grid),
                forall|j: int| 0 <= j < k ==> #[trigger] tile_indices@[j] < state.hashes.len(),
                forall|j: int|
                    0 <= j < k ==> #[trigger] single_cell@[j] == covers_one_cell(
                        tiles@[j],
                        *grid,
                    ),
                forall|j: int|
                    0 <= j < k ==> #[trigger] tile_hashes@[j] == state.hashes[index_of_tile(
                        tiles@[j],
                        *grid,
                    )],
                forall|j: int|
                    0 <= j < k ==> (#[trigger] encoded@[j])@ == bytes_at_hand(
                        state,
                        tiles@[j],
                        *grid,
                    ),
                tasks@.map_values(|t: EncodingTask| task_value(t)) == tasks_for(
                    state,
                    *grid,
                    frame.rgba@,
                    tiles@,
                    k as nat,
                ),
                ack_indices@ == all_covered(*grid, tiles@, k as nat),
            decreases tiles@.len() - k,
        {
            let tile: Tile = tiles[k];
            proof {
                lemma_placed(tile, *grid);
                lemma_pixels_inside(*frame, tile);
            }
            let at: usize = tile.representative_index(grid);
            let hash: u64 = self.diff_detector.get_current_hashes()[at];
            let mut covered: Vec<usize> = tile.covered_indices(grid);
            ack_indices.append(&mut covered);
            tile_indices.push(at);
            tile_hashes.push(hash);
            let metadata: &TileMetadata = self.diff_detector.get_metadata(at);
            let single = tile.is_single_cell(grid);
            single_cell.push(single);
            let mut bytes: Vec<u8> = Vec::new();
            let mut hit = false;
            if single && metadata.cached_hash == hash {
                if let Some(cached) = &metadata.cached_encoded {
                    bytes = cached.clone();
                    hit = true;
                    assert(bytes@ =~= cached@);
                }
            }
            assert(hit == cache_serves(state.memory[at as int], tile, *grid, hash));
            assert(bytes@ =~= bytes_at_hand(state, tile, *grid));
            encoded.push(bytes);
            if !hit {
                let buffer: Vec<u8> = self.tile_buffer_pool.get();
                let tile_data: Vec<u8> = cut_out(frame, &tile, buffer);
                let ghost listed = tasks@;
                let task = EncodingTask { tile, tile_data, tile_idx: at };
                tasks.push(task);
                assert(tasks@.map_values(|t: EncodingTask| task_value(t)) =~= listed.map_values(
                    |t: EncodingTask| task_value(t),
                ).push(task_value(task)));
            }
            k += 1;
        }
        FrameWork {
            header,
            tiles,
            tile_indices,
            tile_hashes,
            single_cell,
            encoded,
            tasks,
            ack_indices,
            epoch: self.epoch,
        }
    }
}

/// What a frame's tiles are merged from: the cells that `state` sends of it.
pub open spec fn cells_to_merge(
    config: Config,
    level: SimdLevel,
    state: DetectorState,
    grid: Grid,
    frame: Frame,
) -> CellMap {
    changed_cells(
        sent_tiles(config, level, state, grid, frame, grid.cells() as nat),
        grid.tile_width as int,
        grid.tile_height as int,
        grid.tiles_x as int,
        grid.tiles_y as int,
    )
}

/// The tile of one sent cell starts in that cell, inside the frame.
proof fn lemma_sent_tile(
    config: Config,
    level: SimdLevel,
    state: DetectorState,
    grid: Grid,
    frame: Frame,
    k: int,
)
    requires
        grid.well_formed(),
        grid.cells() <= u32::MAX,
        0 <= k < sent_tiles(config, level, state, grid, frame, grid.cells() as nat).len(),
    ensures
        ({
            let n = grid.cells() as nat;
            let t = sent_tiles(config, level, state, grid, frame, n)[k];
            let i = sent_cells(config, level, state, grid, frame, n)[k] as int;
            &&& sent_cells(config, level, state, grid, frame, n).len() == sent_tiles(
                config,
                level,
                state,
                grid,
                frame,
                n,
            ).len()
            &&& 0 <= i < grid.cells()
            &&& t.x <= grid.frame_width
            &&& t.y <= grid.frame_height
            &&& starts_in(
                t,
                grid.tile_width as int,
                grid.tile_height as int,
                i % grid.tiles_x as int,
                i / grid.tiles_x as int,
            )
        }),
{
    let n = grid.cells() as nat;
    crate::diff::lemma_sent(config, level, state, grid, frame, n);
    let i = sent_cells(config, level, state, grid, frame, n)[k] as int;
    crate::tile::lemma_cell_row(i, grid.tiles_x as int, grid.tiles_y as int);
    let (tx, ty) = (i % grid.tiles_x as int, i / grid.tiles_x as int);
    crate::tile::lemma_cell_spans(grid, tx, ty);
    lemma_div_of_product(tx, grid.tile_width as int);
    lemma_div_of_product(ty, grid.tile_height as int);
}

/// A merged tile lies in the grid.
proof fn lemma_merged_placed(cells: CellMap, grid: Grid, gap: int, t: Tile)
    requires
        0 <= gap,
        grid.well_formed(),
        cells.columns == grid.tiles_x,
        cells.rows == grid.tiles_y,
        is_merged_tile(
            cells,
            gap,
            grid.tile_width as int,
            grid.tile_height as int,
            grid.frame_width as int,
            grid.frame_height as int,
            t,
        ),
    ensures
        placed(t, grid),
{
    let r = choose|r: CellRect| #[trigger]
        is_merged(cells, gap, r) && t == rect_tile(
            cells,
            r,
            grid.tile_width as int,
            grid.tile_height as int,
            grid.frame_width as int,
            grid.frame_height as int,
        );
    lemma_merged_rect(cells, gap, r);
    lemma_rect_tile(cells, grid, r);
}

/// Whether `merged` are the tiles merged from the cells that `changed` starts
/// in, each once.
pub open spec fn merges(gap: int, grid: Grid, changed: Seq<Tile>, merged: Seq<Tile>) -> bool {
    &&& forall|t: Tile|
        #[trigger] merged.contains(t) <==> is_merged_tile(
            changed_cells(
                changed,
                grid.tile_width as int,
                grid.tile_height as int,
                grid.tiles_x as int,
                grid.tiles_y as int,
            ),
            gap,
            grid.tile_width as int,
            grid.tile_height as int,
            grid.frame_width as int,
            grid.frame_height as int,
            t,
        )
    &&& distinct_corners(merged)
}

/// Merges changed tiles over a grid.
pub(crate) fn merge_changed(merger: &TileMerger, grid: &Grid, changed: &Vec<Tile>) -> (merged: Vec<Tile>)
    requires
        grid.well_formed(),
        grid.cells() <= u32::MAX,
    ensures
        merges(merger.gap(), *grid, changed@, merged@),
        forall|k: int| 0 <= k < merged@.len() ==> placed(#[trigger] merged@[k], *grid),
        changed@.len() == 0 ==> merged@.len() == 0,
{
    proof {
        merger.lemma_gap();
        let (tw, th) = (grid.tile_width as int, grid.tile_height as int);
        assert forall|k: int|
            0 <= k < changed@.len() && (#[trigger] changed@[k]).x as int / tw < grid.tiles_x
                && changed@[k].y as int / th < grid.tiles_y implies (changed@[k].x as int / tw) * tw
            <= grid.frame_width && (changed@[k].y as int / th) * th <= grid.frame_height by {
            let (tx, ty) = (changed@[k].x as int / tw, changed@[k].y as int / th);
            assert(tx * tw <= grid.tiles_x * tw) by (nonlinear_arith)
                requires
                    tx < grid.tiles_x,
                    1 <= tw,
            ;
            assert(ty * th <= (grid.tiles_y - 1) * th) by (nonlinear_arith)
                requires
                    ty < grid.tiles_y,
                    1 <= th,
            ;
        }
    }
    let merged: Vec<Tile> = merger.merge(
        changed.as_slice(),
        grid.tiles_x,
        grid.tiles_y,
        grid.tile_width,
        grid.tile_height,
        grid.frame_width,
        grid.frame_height,
    );
    proof {
        let cells = changed_cells(
            changed@,
            grid.tile_width as int,
            grid.tile_height as int,
            grid.tiles_x as int,
            grid.tiles_y as int,
        );
        assert forall|k: int| 0 <= k < merged@.len() implies placed(#[trigger] merged@[k], *grid) by {
            assert(merged@.contains(merged@[k]));
            lemma_merged_placed(cells, *grid, merger.gap(), merged@[k]);
        }
    }
    merged
}

/// Whether `merged` holds the tiles merged from the cells that `state` sends of
/// a frame, each once.
pub open spec fn merged_from(
    config: Config,
    level: SimdLevel,
    gap: int,
    state: DetectorState,
    grid: Grid,
    frame: Frame,
    merged: Seq<Tile>,
) -> bool {
    &&& forall|t: Tile|
        #[trigger] merged.contains(t) <==> is_merged_tile(
            cells_to_merge(config, level, state, grid, frame),
            gap,
            grid.tile_width as int,
            grid.tile_height as int,
            grid.frame_width as int,
            grid.frame_height as int,
            t,
        )
    &&& distinct_corners(merged)
}

/// Finds what changed in a frame and merges it. Returns how many cells are to
/// be sent, and the merged tiles.
pub(crate) fn detect_and_merge(
    detector: &mut DiffDetector,
    merger: &TileMerger,
    grid: &Grid,
    frame: &Frame,
) -> (out: (usize, Vec<Tile>))
    requires
        old(detector)@.consistent(),
        old(detector)@.frames < u64::MAX,
        frame.streamable(),
        grid.well_formed(),
        grid.tiles_x <= frame.width,
        grid.tiles_y <= frame.height,
        *grid == old(detector).grid_for(*frame),
        old(detector)@.hashes.len() == 0 || grid.cells() <= old(detector)@.hashes.len(),
    ensures
        final(detector).settings() == old(detector).settings(),
        final(detector).hash_level() == old(detector).hash_level(),
        final(detector)@ == detected(
            old(detector).settings(),
            old(detector).hash_level(),
            old(detector)@,
            *grid,
            *frame,
        ),
        final(detector)@.consistent(),
        final(detector)@.memory.len() >= grid.cells(),
        final(detector)@.hashes.len() == (if old(detector)@.hashes.len() == 0 {
            grid.cells() as nat
        } else {
            old(detector)@.hashes.len()
        }),
        grid.cells() <= u32::MAX,
        out.0 == sent_cells(
            old(detector).settings(),
            old(detector).hash_level(),
            old(detector)@,
            *grid,
            *frame,
            grid.cells() as nat,
        ).len(),
        merged_from(
            old(detector).settings(),
            old(detector).hash_level(),
            merger.gap(),
            old(detector)@,
            *grid,
            *frame,
            out.1@,
        ),
        forall|k: int| 0 <= k < out.1@.len() ==> placed(#[trigger] out.1@[k], *grid),
{
    let ghost config = detector.settings();
    let ghost level = detector.hash_level();
    let ghost state = detector@;
    proof {
        merger.lemma_gap();
        assert(grid.tiles_x * grid.tiles_y <= frame.width * frame.height) by (nonlinear_arith)
            requires
                0 <= grid.tiles_x <= frame.width,
                0 <= grid.tiles_y <= frame.height,
        ;
    }
    let (changed, _cells): (Vec<Tile>, Vec<usize>) = detector.detect_changes(frame);
    proof {
        crate::diff::lemma_sent(config, level, state, *grid, *frame, grid.cells() as nat);
        crate::diff::lemma_detected_len(config, level, state, *grid, *frame);
    }
    let merged: Vec<Tile> = merge_changed(merger, grid, &changed);
    (changed.len(), merged)
}

/// Whether a frame holds what has to be sent of it: the tiles merged from the
/// cells that `begun` sends, each once and in order of score, and everything
/// that follows from them and the state `after` detection.
pub open spec fn planned(
    config: Config,
    level: SimdLevel,
    gap: int,
    begun: PipelineState,
    after: PipelineState,
    grid: Grid,
    frame: Frame,
    work: FrameWork,
) -> bool {
    &&& forall|t: Tile|
        #[trigger] work.tiles@.contains(t) <==> is_merged_tile(
            cells_to_merge(config, level, begun.detector, grid, frame),
            gap,
            grid.tile_width as int,
            grid.tile_height as int,
            grid.frame_width as int,
            grid.frame_height as int,
            t,
        )
    &&& distinct_corners(work.tiles@)
    &&& by_score(config, after.detector, grid, work.tiles@)
    &&& worked_out(after.detector, grid, frame.rgba@, work)
    &&& work.epoch == after.epoch
}

impl Pipeline {
    /// The grid that frames of this size are cut into.
    pub open spec fn grid_for(&self, frame: Frame) -> Grid {
        grid_over(self.settings().tiles_x as int, frame.width as int, frame.height as int)
    }

    /// Looks at a frame that arrives at time `now`, in nanoseconds. Returns
    /// `None` where there is nothing to send: no changed cell and no new size.
    /// A new size without a changed cell gives a frame without tiles.
    pub fn process(&mut self, frame: &Frame, now: u64) -> (work: Option<FrameWork>)
        requires
            old(self)@.consistent(old(self).settings()),
            old(self)@.detector.frames < u64::MAX,
            old(self)@.epoch < u64::MAX,
            frame.streamable(),
        ensures
            final(self).same_setup(old(self)),
            final(self)@.consistent(old(self).settings()),
            old(self).gap() >= 0,
            old(self).grid_for(*frame).well_formed(),
            old(self).grid_for(*frame).cells() <= u32::MAX,
            final(self).spare() == (match work {
                Some(w) => after_use(old(self).spare(), w.tasks@.len()),
                None => old(self).spare(),
            }),
            ({
                let begun = begun(old(self)@, frame.width, frame.height, now);
                let grid = old(self).grid_for(*frame);
                let resized = old(self)@.screen != Some((frame.width, frame.height));
                &&& final(self)@ == (PipelineState {
                    detector: detected(
                        old(self).settings(),
                        old(self).hash_level(),
                        begun.detector,
                        grid,
                        *frame,
                    ),
                    ..begun
                })
                &&& work is None <==> !resized && sent_cells(
                    old(self).settings(),
                    old(self).hash_level(),
                    begun.detector,
                    grid,
                    *frame,
                    grid.cells() as nat,
                ).len() == 0
                &&& announced(old(self)@.screen, frame.width, frame.height) is Some ==> work is Some
                &&& work matches Some(w) ==> {
                    &&& w.header == announced(old(self)@.screen, frame.width, frame.height)
                    &&& w.header == (if resized {
                        Some((frame.width, frame.height))
                    } else {
                        None
                    })
                    &&& planned(
                        old(self).settings(),
                        old(self).hash_level(),
                        old(self).gap(),
                        begun,
                        final(self)@,
                        grid,
                        *frame,
                        w,
                    )
                }
            }),
    {
        let ghost config = self.settings();
        let ghost level = self.hash_level();
        let ghost gap = self.gap();
        let header: Option<(u32, u32)> = self.begin(frame.width, frame.height, now);
        let ghost start = self@;
        let grid: Grid = Grid::new(self.diff_detector.config().tiles_x, frame.width, frame.height);
        proof {
            lemma_refreshed_consistent(old(self)@.detector);
            self.tile_merger.lemma_gap();
        }
        let (changed, merged): (usize, Vec<Tile>) = detect_and_merge(
            &mut self.diff_detector,
            &self.tile_merger,
            &grid,
            frame,
        );
        let ghost after = self@;
        if changed == 0 {
            if header.is_none() {
                return None;
            }
        }
        let tiles: Vec<Tile> = rank(&self.diff_detector, &merged, &grid);
        proof {
            assert forall|k: int| 0 <= k < tiles@.len() implies placed(#[trigger] tiles@[k], grid) by {
                assert(tiles@.contains(tiles@[k]));
                assert(merged@.contains(tiles@[k]));
                let j = choose|j: int| 0 <= j < merged@.len() && merged@[j] == tiles@[k];
                assert(placed(merged@[j], grid));
            }
        }
        Some(self.plan(tiles, &grid, frame, header))
    }
}

/// A refreshed detector is consistent.
proof fn lemma_refreshed_consistent(state: DetectorState)
    requires
        state.consistent(),
    ensures
        refreshed(state).consistent(),
        refreshed(state).frames == state.frames,
        refreshed(state).hashes.len() == state.hashes.len(),
{
    let r = refreshed(state);
    assert forall|i: int| 0 <= i < r.memory.len() implies (#[trigger] r.memory[i]).last_sent_frame
        <= r.frames by {
        assert(state.memory[i].last_sent_frame <= state.frames);
    }
}

/// The last place where `indices` holds `index`, looking at the first `n`.
pub open spec fn last_place(indices: Seq<usize>, index: usize, n: nat) -> Option<int>
    decreases n,
{
    if n == 0 {
        None
    } else if indices[n - 1] == index {
        Some(n - 1)
    } else {
        last_place(indices, index, (n - 1) as nat)
    }
}

/// The bytes of tile `k` after the first `n` results came in: the last result
/// for its cell counts, and results for unknown cells do not.
pub open spec fn bytes_after(
    before: Seq<u8>,
    indices: Seq<usize>,
    results: Seq<EncodedResult>,
    k: int,
    n: nat,
) -> Seq<u8>
    decreases n,
{
    if n == 0 {
        before
    } else if last_place(indices, results[n - 1].tile_idx, indices.len()) == Some(k) {
        results[n - 1].data@
    } else {
        bytes_after(before, indices, results, k, (n - 1) as nat)
    }
}

fn find_last(indices: &Vec<usize>, index: usize) -> (place: Option<usize>)
    ensures
        match place {
            Some(p) => last_place(indices@, index, indices@.len()) == Some(p as int) && p
                < indices@.len(),
            None => last_place(indices@, index, indices@.len()) is None,
        },
{
    let mut n: usize = indices.len();
    while n > 0
        invariant
            n <= indices@.len(),
            last_place(indices@, index, indices@.len()) == last_place(indices@, index, n as nat),
        decreases n,
    {
        if indices[n - 1] == index {
            return Some(n - 1);
        }
        n -= 1;
    }
    None
}

/// Whether a frame has one entry per tile everywhere.
pub open spec fn lined_up(work: FrameWork) -> bool {
    let n = work.tiles@.len();
    &&& work.tile_indices@.len() == n
    &&& work.tile_hashes@.len() == n
    &&& work.single_cell@.len() == n
    &&& work.encoded@.len() == n
}

/// Nothing but the encoded bytes differs.
pub open spec fn same_but_encoded(a: FrameWork, b: FrameWork) -> bool {
    &&& a.header == b.header
    &&& a.tiles == b.tiles
    &&& a.tile_indices == b.tile_indices
    &&& a.tile_hashes == b.tile_hashes
    &&& a.single_cell == b.single_cell
    &&& a.tasks == b.tasks
    &&& a.ack_indices == b.ack_indices
    &&& a.epoch == b.epoch
}

/// The tiles among the first `n` that are not encoded.
pub open spec fn not_encoded(encoded: Seq<Vec<u8>>, n: nat) -> Seq<usize>
    decreases n,
{
    if n == 0 {
        Seq::empty()
    } else if encoded[n - 1]@.len() == 0 {
        not_encoded(encoded, (n - 1) as nat).push((n - 1) as usize)
    } else {
        not_encoded(encoded, (n - 1) as nat)
    }
}

impl FrameWork {
    /// Takes encoded tiles in, in whatever order they come.
    pub fn place(&mut self, results: Vec<EncodedResult>)
        requires
            lined_up(*old(self)),
        ensures
            lined_up(*final(self)),
            same_but_encoded(*final(self), *old(self)),
            forall|k: int|
                0 <= k < old(self).tiles@.len() ==> (#[trigger] final(self).encoded@[k])@
                    == bytes_after(
                    old(self).encoded@[k]@,
                    old(self).tile_indices@,
                    results@,
                    k,
                    results@.len(),
                ),
    {
        let ghost start = *self;
        let mut left: Vec<EncodedResult> = results;
        let ghost all = results@;
        let mut done: usize = 0;
        let total: usize = left.len();
        while done < total
            invariant
                done <= total == all.len(),
                left@ == all.subrange(done as int, all.len() as int),
                lined_up(start),
                lined_up(*self),
                same_but_encoded(*self, start),
                forall|k: int|
                    0 <= k < start.tiles@.len() ==> (#[trigger] self.encoded@[k])@ == bytes_after(
                        start.encoded@[k]@,
                        start.tile_indices@,
                        all,
                        k,
                        done as nat,
                    ),
            decreases total - done,
        {
            let result: EncodedResult = left.remove(0);
            assert(left@ =~= all.subrange(done + 1, all.len() as int));
            assert(result == all[done as int]);
            match find_last(&self.tile_indices, result.tile_idx) {
                Some(place) => {
                    self.encoded.set(place, result.data);
                },
                None => {},
            }
            done += 1;
        }
    }

    /// The tiles that are still not encoded.
    pub fn missing(&self) -> (places: Vec<usize>)
        ensures
            places@ == not_encoded(self.encoded@, self.encoded@.len()),
    {
        let mut places: Vec<usize> = Vec::new();
        let mut n: usize = 0;
        while n < self.encoded.len()
            invariant
                n <= self.encoded@.len(),
                places@ == not_encoded(self.encoded@, n as nat),
            decreases self.encoded@.len() - n,
        {
            if self.encoded[n].len() == 0 {
                places.push(n);
            }
            n += 1;
        }
        places
    }
}

/// The part of an extent that lies inside a frame side of `limit`.
pub open spec fn clipped(start: int, extent: int, limit: int) -> int {
    let room = if limit < start {
        0
    } else {
        limit - start
    };
    if room < extent {
        room
    } else {
        extent
    }
}

fn clip(start: u32, extent: u32, limit: u32) -> (c: u32)
    ensures
        c == clipped(start as int, extent as int, limit as int),
{
    let room: u32 = limit.saturating_sub(start);
    if room < extent {
        room
    } else {
        extent
    }
}

/// A second try at a tile that came back without bytes: the part of it that
/// lies inside the frame, or `None` where there is no such part.
pub fn fallback_task(frame: &Frame, tile: &Tile, tile_idx: usize) -> (task: Option<EncodingTask>)
    requires
        frame.complete(),
    ensures
        ({
            let width = clipped(tile.x as int, tile.width as int, frame.width as int);
            let height = clipped(tile.y as int, tile.height as int, frame.height as int);
            &&& task is None <==> width == 0 || height == 0
            &&& task matches Some(t) ==> {
                &&& t.tile == (Tile { width: width as u32, height: height as u32, ..*tile })
                &&& t.tile_idx == tile_idx
                &&& t.tile_data@ == tile_pixels(
                    frame.rgba@,
                    tile.x as int,
                    tile.y as int,
                    width,
                    height,
                    frame.width as int,
                )
            }
        }),
{
    let width: u32 = clip(tile.x, tile.width, frame.width);
    let height: u32 = clip(tile.y, tile.height, frame.height);
    if width == 0 || height == 0 {
        return None;
    }
    let part = Tile { x: tile.x, y: tile.y, width, height, quality: tile.quality };
    proof {
        lemma_pixels_inside(*frame, part);
    }
    let tile_data: Vec<u8> = cut_out(frame, &part, Vec::new());
    Some(EncodingTask { tile: part, tile_data, tile_idx })
}

/// What is remembered of every cell once the first `n` tiles are kept: bytes of
/// a tile that covers one cell are kept with that cell's hash.
pub open spec fn kept(memory: Seq<CellMemory>, work: FrameWork, n: nat) -> Seq<CellMemory>
    decreases n,
{
    if n == 0 {
        memory
    } else {
        let before = kept(memory, work, (n - 1) as nat);
        let i = work.tile_indices@[n - 1] as int;
        if work.single_cell@[n - 1] && work.encoded@[n - 1]@.len() > 0 {
            before.update(
                i,
                CellMemory {
                    cached_encoded: Some(work.encoded@[n - 1]@),
                    cached_hash: work.tile_hashes@[n - 1],
                    ..before[i]
                },
            )
        } else {
            before
        }
    }
}

/// Keeping bytes changes nothing else.
proof fn lemma_kept(memory: Seq<CellMemory>, work: FrameWork, n: nat)
    requires
        n <= work.tile_indices@.len(),
        forall|k: int|
            0 <= k < work.tile_indices@.len() ==> #[trigger] work.tile_indices@[k] < memory.len(),
    ensures
        kept(memory, work, n).len() == memory.len(),
        forall|i: int|
            0 <= i < memory.len() ==> (#[trigger] kept(memory, work, n)[i]).last_sent_frame
                == memory[i].last_sent_frame,
    decreases n,
{
    if n > 0 {
        lemma_kept(memory, work, (n - 1) as nat);
        assert(work.tile_indices@[n - 1] < memory.len());
    }
}

impl Pipeline {
    /// Keeps what was encoded of single cells and gives the frame to be sent.
    pub fn finish(&mut self, work: FrameWork) -> (frame: EncodedFrame)
        requires
            lined_up(work),
            forall|k: int|
                0 <= k < work.tile_indices@.len() ==> #[trigger] work.tile_indices@[k] < old(
                    self,
                )@.detector.memory.len(),
        ensures
            final(self).same_setup(old(self)),
            final(self).spare() == old(self).spare(),
            final(self)@ == (PipelineState {
                detector: DetectorState {
                    memory: kept(old(self)@.detector.memory, work, work.tiles@.len()),
                    ..old(self)@.detector
                },
                ..old(self)@
            }),
            old(self)@.consistent(old(self).settings()) ==> final(self)@.consistent(
                old(self).settings(),
            ),
            frame.header == work.header,
            frame.tiles == work.tiles,
            frame.encoded == work.encoded,
            frame.ack_indices == work.ack_indices,
            frame.epoch == work.epoch,
    {
        let ghost start = self@;
        let ghost before = *self;
        let mut k: usize = 0;
        assert(self@ =~= PipelineState {
            detector: DetectorState {
                memory: kept(start.detector.memory, work, 0),
                ..start.detector
            },
            ..start
        });
        while k < work.tiles.len()
            invariant
                k <= work.tiles@.len(),
                lined_up(work),
                start == before@,
                self.same_setup(&before),
                self.spare() == before.spare(),
                forall|j: int|
                    0 <= j < work.tile_indices@.len() ==> #[trigger] work.tile_indices@[j]
                        < start.detector.memory.len(),
                self@.detector.memory.len() == start.detector.memory.len(),
                self@ == (PipelineState {
                    detector: DetectorState {
                        memory: kept(start.detector.memory, work, k as nat),
                        ..start.detector
                    },
                    ..start
                }),
            decreases work.tiles@.len() - k,
        {
            if work.single_cell[k] && work.encoded[k].len() > 0 {
                let bytes: Vec<u8> = work.encoded[k].clone();
                assert(bytes@ =~= work.encoded@[k as int]@);
                let hash: u64 = work.tile_hashes[k];
                let metadata: &mut TileMetadata = self.diff_detector.get_metadata_mut(
                    work.tile_indices[k],
                );
                metadata.cached_encoded = Some(bytes);
                metadata.cached_hash = hash;
            }
            k += 1;
        }
        proof {
            lemma_kept(start.detector.memory, work, work.tiles@.len());
            assert forall|i: int|
                0 <= i < self@.detector.memory.len() && start.detector.consistent() implies (
            #[trigger] self@.detector.memory[i]).last_sent_frame <= self@.detector.frames by {
                assert(start.detector.memory[i].last_sent_frame <= start.detector.frames);
            }
        }
        EncodedFrame {
            header: work.header,
            tiles: work.tiles,
            encoded: work.encoded,
            ack_indices: work.ack_indices,
            epoch: work.epoch,
        }
    }
}

/// A changed cell that is merged from a tile keeps the tile's place.
proof fn lemma_quality_present(
    tiles: Seq<Tile>,
    tile_width: int,
    tile_height: int,
    tx: int,
    ty: int,
    k: int,
)
    requires
        0 <= k < tiles.len(),
        starts_in(tiles[k], tile_width, tile_height, tx, ty),
    ensures
        crate::encoder::cell_quality(tiles, tile_width, tile_height, tx, ty) is Some,
    decreases tiles.len(),
{
    if !starts_in(tiles.last(), tile_width, tile_height, tx, ty) {
        lemma_quality_present(tiles.drop_last(), tile_width, tile_height, tx, ty, k);
    }
}

proof fn lemma_all_covered_has(grid: Grid, tiles: Seq<Tile>, n: nat, k: int, i: usize)
    requires
        0 <= k < n <= tiles.len(),
        covered_cells(tiles[k], grid).contains(i),
    ensures
        all_covered(grid, tiles, n).contains(i),
    decreases n,
{
    let before = all_covered(grid, tiles, (n - 1) as nat);
    let last = covered_cells(tiles[n - 1], grid);
    let all = all_covered(grid, tiles, n);
    if k == n - 1 {
        let p = choose|p: int| 0 <= p < last.len() && last[p] == i;
        assert(all[before.len() + p] == i);
    } else {
        lemma_all_covered_has(grid, tiles, (n - 1) as nat, k, i);
        let p = choose|p: int| 0 <= p < before.len() && before[p] == i;
        assert(all[p] == i);
    }
}

/// Every cell that a frame sends is covered by one of its tiles, and listed
/// among the cells that the frame answers for until it is acknowledged.
pub proof fn law_sent_cells_are_covered(
    config: Config,
    level: SimdLevel,
    gap: int,
    start: PipelineState,
    after: PipelineState,
    grid: Grid,
    frame: Frame,
    work: FrameWork,
    i: int,
)
    requires
        0 <= gap,
        grid.well_formed(),
        grid.cells() <= u32::MAX,
        planned(config, level, gap, start, after, grid, frame, work),
        0 <= i < grid.cells(),
        verdict_at(config, level, start.detector, grid, frame, i) is Sent,
    ensures
        work.ack_indices@.contains(i as usize),
        exists|k: int|
            0 <= k < work.tiles@.len() && covered_cells(
                #[trigger] work.tiles@[k],
                grid,
            ).contains(i as usize),
{
    let n = grid.cells() as nat;
    let (tw, th) = (grid.tile_width as int, grid.tile_height as int);
    let (fw, fh) = (grid.frame_width as int, grid.frame_height as int);
    let cells = cells_to_merge(config, level, start.detector, grid, frame);
    let list = sent_cells(config, level, start.detector, grid, frame, n);
    let tiles = sent_tiles(config, level, start.detector, grid, frame, n);
    crate::diff::lemma_sent(config, level, start.detector, grid, frame, n);
    let p = choose|p: int| 0 <= p < list.len() && list[p] == i as usize;
    lemma_sent_tile(config, level, start.detector, grid, frame, p);
    crate::tile::lemma_cell_row(i, grid.tiles_x as int, grid.tiles_y as int);
    let (tx, ty) = (i % grid.tiles_x as int, i / grid.tiles_x as int);
    lemma_quality_present(tiles, tw, th, tx, ty, p);
    crate::tile::lemma_cell_index(ty, tx, grid.tiles_x as int, grid.tiles_y as int);
    assert(cells.has(tx, ty));
    crate::encoder::law_every_changed_cell_is_merged(cells, gap, tx, ty);
    let r = choose|r: CellRect| #[trigger]
        is_merged(cells, gap, r) && r.left <= tx <= r.right && r.top <= ty <= r.bottom;
    lemma_merged_rect(cells, gap, r);
    lemma_rect_tile(cells, grid, r);
    let t = rect_tile(cells, r, tw, th, fw, fh);
    assert(is_merged_tile(cells, gap, tw, th, fw, fh, t));
    assert(work.tiles@.contains(t));
    let k = choose|k: int| 0 <= k < work.tiles@.len() && work.tiles@[k] == t;
    lemma_cells_between_has(
        grid,
        r.left as int,
        r.top as int,
        r.right as int,
        r.bottom as int,
        tx,
        ty,
    );
    lemma_all_covered_has(grid, work.tiles@, work.tiles@.len(), k, i as usize);
}

/// A listed cell is covered by one of the tiles.
proof fn lemma_all_covered_from(grid: Grid, tiles: Seq<Tile>, n: nat, i: usize) -> (k: int)
    requires
        n <= tiles.len(),
        all_covered(grid, tiles, n).contains(i),
    ensures
        0 <= k < n,
        covered_cells(tiles[k], grid).contains(i),
    decreases n,
{
    let before = all_covered(grid, tiles, (n - 1) as nat);
    let last = covered_cells(tiles[n - 1], grid);
    let all = all_covered(grid, tiles, n);
    let p = choose|p: int| 0 <= p < all.len() && all[p] == i;
    if p < before.len() {
        assert(before[p] == i);
        lemma_all_covered_from(grid, tiles, (n - 1) as nat, i)
    } else {
        assert(last[p - before.len()] == i);
        n - 1
    }
}

/// Where no two tiles cover the same cell, and none covers a cell twice, every
/// cell is listed once.
proof fn lemma_all_covered_once(grid: Grid, tiles: Seq<Tile>, n: nat)
    requires
        n <= tiles.len(),
        forall|k: int|
            0 <= k < n ==> covered_cells(#[trigger] tiles[k], grid).no_duplicates(),
        forall|a: int, b: int, i: usize|
            0 <= a < b < n && #[trigger] covered_cells(tiles[a], grid).contains(i)
                ==> !#[trigger] covered_cells(tiles[b], grid).contains(i),
    ensures
        all_covered(grid, tiles, n).no_duplicates(),
    decreases n,
{
    if n > 0 {
        lemma_all_covered_once(grid, tiles, (n - 1) as nat);
        let before = all_covered(grid, tiles, (n - 1) as nat);
        let last = covered_cells(tiles[n - 1], grid);
        let all = all_covered(grid, tiles, n);
        assert(last.no_duplicates());
        assert forall|a: int, b: int| 0 <= a < b < all.len() implies all[a] != all[b] by {
            if b < before.len() {
                assert(before[a] == all[a] && before[b] == all[b]);
            } else if a >= before.len() {
                assert(last[a - before.len()] == all[a] && last[b - before.len()] == all[b]);
            } else {
                assert(before[a] == all[a] && last[b - before.len()] == all[b]);
                let k = lemma_all_covered_from(grid, tiles, (n - 1) as nat, all[a]);
                assert(last.contains(all[b]));
                assert(covered_cells(tiles[k], grid).contains(all[a]));
            }
        }
    }
}

/// The cells that a frame answers for are exactly those that its tiles cover,
/// each listed once; each tile has its bytes beside it, and a frame without
/// tiles has neither bytes nor cells.
pub proof fn law_each_cell_is_answered_for_once(
    config: Config,
    level: SimdLevel,
    gap: int,
    start: PipelineState,
    after: PipelineState,
    grid: Grid,
    frame: Frame,
    work: FrameWork,
)
    requires
        0 <= gap,
        grid.well_formed(),
        grid.cells() <= u32::MAX,
        planned(config, level, gap, start, after, grid, frame, work),
    ensures
        work.ack_indices@.no_duplicates(),
        forall|i: usize| #[trigger]
            work.ack_indices@.contains(i) <==> exists|k: int|
                0 <= k < work.tiles@.len() && covered_cells(
                    #[trigger] work.tiles@[k],
                    grid,
                ).contains(i),
        work.encoded@.len() == work.tiles@.len(),
        work.tiles@.len() == 0 ==> work.encoded@.len() == 0 && work.ack_indices@.len() == 0,
{
    let (tw, th) = (grid.tile_width as int, grid.tile_height as int);
    let (fw, fh) = (grid.frame_width as int, grid.frame_height as int);
    let cells = cells_to_merge(config, level, start.detector, grid, frame);
    let tiles = work.tiles@;
    let rect = |k: int|
        choose|r: CellRect| #[trigger]
            is_merged(cells, gap, r) && tiles[k] == rect_tile(cells, r, tw, th, fw, fh);
    assert forall|k: int| 0 <= k < tiles.len() implies {
        let r = rect(k);
        &&& is_merged(cells, gap, r)
        &&& tiles[k] == rect_tile(cells, r, tw, th, fw, fh)
        &&& r.left <= r.right < grid.tiles_x
        &&& r.top <= r.bottom < grid.tiles_y
        &&& bounds_of(#[trigger] tiles[k], grid) == (
            r.left as int,
            r.top as int,
            r.right as int,
            r.bottom as int,
        )
    } by {
        assert(tiles.contains(tiles[k]));
        assert(is_merged_tile(cells, gap, tw, th, fw, fh, tiles[k]));
        let r = rect(k);
        lemma_merged_rect(cells, gap, r);
        lemma_rect_tile(cells, grid, r);
    }
    assert forall|k: int| 0 <= k < tiles.len() implies covered_cells(
        #[trigger] tiles[k],
        grid,
    ).no_duplicates() by {
        let r = rect(k);
        assert(bounds_of(tiles[k], grid).0 == r.left);
        lemma_between_rises(grid, r.left as int, r.top as int, r.right as int, r.bottom as int);
    }
    assert forall|a: int, b: int, i: usize|
        0 <= a < b < tiles.len() && #[trigger] covered_cells(
            tiles[a],
            grid,
        ).contains(i) implies !#[trigger] covered_cells(tiles[b], grid).contains(i) by {
        if covered_cells(tiles[b], grid).contains(i) {
            let (r, q) = (rect(a), rect(b));
            assert(bounds_of(tiles[a], grid).0 == r.left);
            assert(bounds_of(tiles[b], grid).0 == q.left);
            lemma_between(grid, r.left as int, r.top as int, r.right as int, r.bottom as int, i);
            lemma_between(grid, q.left as int, q.top as int, q.right as int, q.bottom as int, i);
            crate::encoder::law_merged_rects_do_not_overlap(
                cells,
                gap,
                r,
                q,
                i as int % grid.tiles_x as int,
                i as int / grid.tiles_x as int,
            );
            assert(tiles[a].x == tiles[b].x && tiles[a].y == tiles[b].y);
        }
    }
    lemma_all_covered_once(grid, tiles, tiles.len());
    assert forall|i: usize| #[trigger] work.ack_indices@.contains(i) <==> exists|k: int|
        0 <= k < tiles.len() && covered_cells(#[trigger] tiles[k], grid).contains(i) by {
        if work.ack_indices@.contains(i) {
            let k = lemma_all_covered_from(grid, tiles, tiles.len(), i);
            assert(covered_cells(tiles[k], grid).contains(i));
        }
        if exists|k: int|
            0 <= k < tiles.len() && covered_cells(#[trigger] tiles[k], grid).contains(i) {
            let k = choose|k: int|
                0 <= k < tiles.len() && covered_cells(#[trigger] tiles[k], grid).contains(i);
            lemma_all_covered_has(grid, tiles, tiles.len(), k, i);
        }
    }
}

/// A cell invalidated since the last frame is sent again with the next frame of
/// the same size: whether its pixels changed or not, redrawn or not, refresh due
/// or not, and whatever its send rate. The next frame answers for it.
pub proof fn law_invalidated_cells_are_sent_again(
    config: Config,
    level: SimdLevel,
    gap: int,
    state: PipelineState,
    indices: Seq<usize>,
    now: u64,
    after: PipelineState,
    grid: Grid,
    frame: Frame,
    work: FrameWork,
    i: int,
)
    requires
        0 <= gap,
        grid.well_formed(),
        grid.cells() <= u32::MAX,
        state.detector.consistent(),
        state.screen == Some((frame.width, frame.height)),
        0 <= i < grid.cells() <= state.detector.hashes.len(),
        indices.contains(i as usize),
        planned(
            config,
            level,
            gap,
            begun(
                PipelineState { detector: invalidated(state.detector, indices), ..state },
                frame.width,
                frame.height,
                now,
            ),
            after,
            grid,
            frame,
            work,
        ),
    ensures
        work.ack_indices@.contains(i as usize),
{
    let told = PipelineState { detector: invalidated(state.detector, indices), ..state };
    let start = begun(told, frame.width, frame.height, now);
    reveal(verdict_at);
    assert(verdict_at(config, level, start.detector, grid, frame, i) is Sent);
    law_sent_cells_are_covered(config, level, gap, start, after, grid, frame, work, i);
}

/// A frame of a new size finds nothing remembered, and a grid number of its own unless it
/// is the first. One of the same size finds everything as it was, until a second has
/// passed since the last refresh.
pub proof fn law_new_size_starts_over(state: PipelineState, width: u32, height: u32, now: u64)
    requires
        state.epoch < u64::MAX,
    ensures
        ({
            let b = begun(state, width, height, now);
            let same = state.screen == Some((width, height));
            &&& b.screen == Some((width, height))
            &&& state.screen is Some && !same ==> {
                &&& b.epoch == state.epoch + 1
                &&& b.detector.hashes.len() == 0
                &&& b.detector.frames == 0
                &&& b.refreshed_at == now
            }
            &&& state.screen is None ==> {
                &&& b.epoch == state.epoch
                &&& b.detector == state.detector
                &&& b.refreshed_at == now
            }
            &&& same && now < state.refreshed_at + 1_000_000_000 ==> b == state
            &&& same && now >= state.refreshed_at + 1_000_000_000 ==> {
                &&& b.epoch == state.epoch
                &&& b.refreshed_at == now
                &&& b.detector == refreshed(state.detector)
            }
        }),
{
}

/// Bytes kept for a cell are used for a tile that has pixels of no other cell, while the
/// cell's hash is the one they were kept with; no other tile starts with bytes.
pub proof fn law_kept_bytes_are_of_the_same_content(state: DetectorState, tile: Tile, grid: Grid)
    requires
        grid.well_formed(),
        tile.on_grid(grid),
        1 <= tile.width,
        1 <= tile.height,
        tile.y < grid.frame_height,
        bytes_at_hand(state, tile, grid).len() > 0,
    ensures
        exists|i: int|
            0 <= i < grid.cells() && #[trigger] share_a_pixel(tile, grid, i)
                && state.memory[i].cached_hash == state.hashes[i] && state.memory[i].cached_encoded
                == Some(bytes_at_hand(state, tile, grid)),
        forall|i: int, j: int|
            0 <= i < grid.cells() && 0 <= j < grid.cells() && #[trigger] share_a_pixel(
                tile,
                grid,
                i,
            ) && #[trigger] share_a_pixel(tile, grid, j) ==> i == j,
{
    law_single_cell_tiles_share_no_other_cell(tile, grid);
    law_covered_cells_share_a_pixel(tile, grid);
    let i = index_of_tile(tile, grid);
    let (stx, sty, etx, ety) = bounds_of(tile, grid);
    lemma_cells_between_has(grid, stx, sty, etx, ety, stx, sty);
    crate::tile::lemma_cell_index(sty, stx, grid.tiles_x as int, grid.tiles_y as int);
    assert(share_a_pixel(tile, grid, i));
}

proof fn lemma_kept_elsewhere(memory: Seq<CellMemory>, work: FrameWork, n: nat, i: int)
    requires
        n <= work.tile_indices@.len(),
        forall|k: int|
            0 <= k < work.tile_indices@.len() ==> #[trigger] work.tile_indices@[k] < memory.len(),
        0 <= i < memory.len(),
    ensures
        kept(memory, work, n).len() == memory.len(),
        ({
            let (before, after) = (memory[i], kept(memory, work, n)[i]);
            after == (CellMemory {
                cached_encoded: after.cached_encoded,
                cached_hash: after.cached_hash,
                ..before
            })
        }),
        (forall|k: int| 0 <= k < n && work.single_cell@[k] ==> #[trigger] work.tile_indices@[k] != i)
            ==> kept(memory, work, n)[i] == memory[i],
    decreases n,
{
    if n > 0 {
        lemma_kept_elsewhere(memory, work, (n - 1) as nat, i);
        assert(work.tile_indices@[n - 1] < memory.len());
    }
}

proof fn lemma_kept_at(memory: Seq<CellMemory>, work: FrameWork, n: nat, k: int)
    requires
        n <= work.tile_indices@.len(),
        0 <= k < n,
        forall|j: int|
            0 <= j < work.tile_indices@.len() ==> #[trigger] work.tile_indices@[j] < memory.len(),
        work.tile_indices@.no_duplicates(),
        work.single_cell@[k],
        work.encoded@[k]@.len() > 0,
    ensures
        kept(memory, work, n)[work.tile_indices@[k] as int].cached_encoded == Some(
            work.encoded@[k]@,
        ),
        kept(memory, work, n)[work.tile_indices@[k] as int].cached_hash == work.tile_hashes@[k],
    decreases n,
{
    lemma_kept(memory, work, (n - 1) as nat);
    assert(work.tile_indices@[k] < memory.len());
    assert(work.tile_indices@[n - 1] < memory.len());
    if k < n - 1 {
        lemma_kept_at(memory, work, (n - 1) as nat, k);
        assert(work.tile_indices@[n - 1] != work.tile_indices@[k]);
    }
}

/// What was encoded of a single cell is used again for it as long as its content stays
/// the same, and not once its content is another. Keeping it changes nothing else.
pub proof fn law_encoded_bytes_are_used_again(
    state: DetectorState,
    grid: Grid,
    rgba: Seq<u8>,
    work: FrameWork,
    k: int,
    later: DetectorState,
)
    requires
        worked_out(state, grid, rgba, work) || exists|w: FrameWork| #[trigger]
            worked_out(state, grid, rgba, w) && same_but_encoded(w, work) && lined_up(work),
        state.memory.len() == state.hashes.len(),
        work.tile_indices@.no_duplicates(),
        0 <= k < work.tiles@.len(),
        covers_one_cell(work.tiles@[k], grid),
        work.encoded@[k]@.len() > 0,
        later.memory == kept(state.memory, work, work.tiles@.len()),
    ensures
        ({
            let tile = work.tiles@[k];
            let i = index_of_tile(tile, grid);
            let (before, after) = (state.memory[i], later.memory[i]);
            &&& later.hashes[i] == state.hashes[i] ==> bytes_at_hand(later, tile, grid)
                == work.encoded@[k]@
            &&& later.hashes[i] != state.hashes[i] ==> bytes_at_hand(later, tile, grid).len() == 0
            &&& after.last_sent_frame == before.last_sent_frame
            &&& after.history == before.history
            &&& after.prev_half_hash == before.prev_half_hash
            &&& after.last_hash_diff == before.last_hash_diff
        }),
{
    let w = if worked_out(state, grid, rgba, work) {
        work
    } else {
        choose|w: FrameWork| #[trigger]
            worked_out(state, grid, rgba, w) && same_but_encoded(w, work) && lined_up(work)
    };
    assert(worked_out(state, grid, rgba, w));
    assert(w.tile_indices@[k] == index_of_tile(work.tiles@[k], grid));
    assert(w.single_cell@[k] == covers_one_cell(work.tiles@[k], grid));
    assert(w.tile_hashes@[k] == state.hashes[index_of_tile(work.tiles@[k], grid)]);
    assert forall|j: int| 0 <= j < work.tile_indices@.len() implies #[trigger] work.tile_indices@[j]
        < state.memory.len() by {
        assert(w.tile_indices@[j] < state.hashes.len());
    }
    lemma_kept_at(state.memory, work, work.tiles@.len(), k);
    lemma_kept_elsewhere(
        state.memory,
        work,
        work.tiles@.len(),
        index_of_tile(work.tiles@[k], grid),
    );
}

/// Every tile either starts with bytes or is handed out to be encoded, with the cell of
/// its corner and its pixels as the frame has them. Nothing else is handed out.
pub proof fn law_tiles_without_bytes_are_encoded(
    state: DetectorState,
    grid: Grid,
    rgba: Seq<u8>,
    tiles: Seq<Tile>,
    n: nat,
)
    requires
        n <= tiles.len(),
    ensures
        ({
            let tasks = tasks_for(state, grid, rgba, tiles, n);
            &&& tasks.len() <= n
            &&& forall|k: int|
                0 <= k < n && bytes_at_hand(state, #[trigger] tiles[k], grid).len() == 0
                    && !cache_serves(
                    state.memory[index_of_tile(tiles[k], grid)],
                    tiles[k],
                    grid,
                    state.hashes[index_of_tile(tiles[k], grid)],
                ) ==> handed_out(tasks, tiles[k])
            &&& forall|j: int|
                0 <= j < tasks.len() ==> {
                    let (tile, pixels, i) = #[trigger] tasks[j];
                    &&& tiles.contains(tile)
                    &&& i == index_of_tile(tile, grid) as usize
                    &&& bytes_at_hand(state, tile, grid).len() == 0
                    &&& pixels == tile_pixels(
                        rgba,
                        tile.x as int,
                        tile.y as int,
                        tile.width as int,
                        tile.height as int,
                        grid.frame_width as int,
                    )
                }
        }),
    decreases n,
{
    if n > 0 {
        law_tiles_without_bytes_are_encoded(state, grid, rgba, tiles, (n - 1) as nat);
        let before = tasks_for(state, grid, rgba, tiles, (n - 1) as nat);
        let tasks = tasks_for(state, grid, rgba, tiles, n);
        let t = tiles[n - 1];
        let served = cache_serves(
            state.memory[index_of_tile(t, grid)],
            t,
            grid,
            state.hashes[index_of_tile(t, grid)],
        );
        if !served {
            assert(tasks[before.len() as int].0 == t);
            assert(handed_out(tasks, t));
            assert forall|tile: Tile| #[trigger] handed_out(before, tile) implies handed_out(
                tasks,
                tile,
            ) by {
                let j = choose|j: int| 0 <= j < before.len() && (#[trigger] before[j]).0 == tile;
                assert(tasks[j].0 == tile);
            }
        }
        assert forall|j: int| 0 <= j < tasks.len() implies {
            let (tile, pixels, i) = #[trigger] tasks[j];
            &&& tiles.contains(tile)
            &&& i == index_of_tile(tile, grid) as usize
            &&& bytes_at_hand(state, tile, grid).len() == 0
            &&& pixels == tile_pixels(
                rgba,
                tile.x as int,
                tile.y as int,
                tile.width as int,
                tile.height as int,
                grid.frame_width as int,
            )
        } by {
            if j < before.len() {
                assert(tasks[j] == before[j]);
            }
        }
    }
}

/// Whether a tile is among those handed out.
pub open spec fn handed_out(tasks: Seq<(Tile, Seq<u8>, usize)>, tile: Tile) -> bool {
    exists|j: int| 0 <= j < tasks.len() && (#[trigger] tasks[j]).0 == tile
}

proof fn lemma_last_place(indices: Seq<usize>, index: usize, n: nat, k: int)
    requires
        n <= indices.len(),
        indices.no_duplicates(),
        0 <= k < indices.len(),
    ensures
        last_place(indices, index, n) == Some(k) <==> k < n && indices[k] == index,
    decreases n,
{
    if n > 0 {
        lemma_last_place(indices, index, (n - 1) as nat, k);
    }
}

/// Where every tile has a cell of its own: a tile's bytes are those of the last result
/// for its cell, and what they were where no result is for it.
pub proof fn law_results_are_placed_by_cell(
    before: Seq<u8>,
    indices: Seq<usize>,
    results: Seq<EncodedResult>,
    k: int,
    n: nat,
)
    requires
        n <= results.len(),
        indices.no_duplicates(),
        0 <= k < indices.len(),
    ensures
        (forall|j: int| 0 <= j < n ==> (#[trigger] results[j]).tile_idx != indices[k])
            ==> bytes_after(before, indices, results, k, n) == before,
        forall|p: int|
            0 <= p < n && (#[trigger] results[p]).tile_idx == indices[k] && (forall|j: int|
                p < j < n ==> (#[trigger] results[j]).tile_idx != indices[k]) ==> bytes_after(
                before,
                indices,
                results,
                k,
                n,
            ) == results[p].data@,
    decreases n,
{
    if n > 0 {
        lemma_last_place(indices, results[n - 1].tile_idx, indices.len(), k);
        law_results_are_placed_by_cell(before, indices, results, k, (n - 1) as nat);
    }
}

/// The tiles still to be encoded are those without bytes, each once and in order.
pub proof fn law_missing_tiles_are_those_without_bytes(encoded: Seq<Vec<u8>>, n: nat, k: int)
    requires
        n <= encoded.len(),
        n <= usize::MAX,
        0 <= k < n,
    ensures
        not_encoded(encoded, n).contains(k as usize) <==> encoded[k]@.len() == 0,
        forall|a: int, b: int|
            0 <= a < b < not_encoded(encoded, n).len() ==> not_encoded(encoded, n)[a]
                < not_encoded(encoded, n)[b],
        forall|a: int|
            0 <= a < not_encoded(encoded, n).len() ==> #[trigger] not_encoded(encoded, n)[a] < n,
    decreases n,
{
    let m = (n - 1) as nat;
    let before = not_encoded(encoded, m);
    let all = not_encoded(encoded, n);
    if m > 0 {
        let j = if k < m {
            k
        } else {
            0
        };
        law_missing_tiles_are_those_without_bytes(encoded, m, j);
    } else {
        assert(before.len() == 0);
    }
    if encoded[m as int]@.len() == 0 {
        assert(all[before.len() as int] == m as usize);
        if before.contains(k as usize) {
            let p = choose|p: int| 0 <= p < before.len() && before[p] == k as usize;
            assert(all[p] == k as usize);
        }
    }
}

/// A clipped stretch has those pixels of the whole one that lie before the limit.
pub proof fn law_clipped_part_is_inside(start: int, extent: int, limit: int, p: int)
    requires
        0 <= start,
        0 <= extent,
        0 <= limit,
    ensures
        start <= p < start + clipped(start, extent, limit) <==> start <= p < start + extent && p
            < limit,
        0 <= clipped(start, extent, limit) <= extent,
{
}

/// Buffers are taken from the front, and each at most once.
pub proof fn law_buffers_are_used_in_order(spare: Seq<Vec<u8>>, n: nat)
    ensures
        n <= spare.len() ==> spare.take(n as int) + after_use(spare, n) == spare,
        n > spare.len() ==> after_use(spare, n).len() == 0,
{
    if n <= spare.len() {
        assert(spare.take(n as int) + after_use(spare, n) =~= spare);
    }
}

/// No tile of a frame scores higher than one before it, by the memory of the cell that
/// its corner lies in.
pub proof fn law_frames_send_high_scores_first(
    config: Config,
    level: SimdLevel,
    gap: int,
    start: PipelineState,
    after: PipelineState,
    grid: Grid,
    frame: Frame,
    work: FrameWork,
    a: int,
    b: int,
)
    requires
        planned(config, level, gap, start, after, grid, frame, work),
        0 <= a < b < work.tiles@.len(),
    ensures
        tile_score(
            config,
            after.detector.memory[work.tile_indices@[a] as int],
            work.tiles@[a],
            grid.frame_width as int,
            grid.frame_height as int,
        ) >= tile_score(
            config,
            after.detector.memory[work.tile_indices@[b] as int],
            work.tiles@[b],
            grid.frame_width as int,
            grid.frame_height as int,
        ),
        work.epoch == after.epoch,
{
    assert(score_of(config, after.detector, grid, work.tiles@[a]) >= score_of(
        config,
        after.detector,
        grid,
        work.tiles@[b],
    ));
}

/// What a pipeline remembers once it is told that cells of this grid got lost.
pub open spec fn told_again(state: PipelineState, epoch: u64, indices: Seq<usize>) -> PipelineState {
    if epoch == state.epoch {
        PipelineState { detector: invalidated(state.detector, indices), ..state }
    } else {
        state
    }
}

/// Lost cells of an earlier grid are not sent again; those of the current one are forced,
/// and nothing else changes.
pub proof fn law_lost_cells_of_old_grids_are_ignored(
    state: PipelineState,
    epoch: u64,
    indices: Seq<usize>,
    i: int,
)
    requires
        state.detector.parallel(),
        0 <= i < state.detector.hashes.len(),
        i <= usize::MAX,
    ensures
        ({
            let after = told_again(state, epoch, indices);
            &&& epoch != state.epoch ==> after == state
            &&& epoch == state.epoch && indices.contains(i as usize) ==> after.detector.forced[i]
            &&& !indices.contains(i as usize) ==> after.detector.hashes[i]
                == state.detector.hashes[i] && after.detector.forced[i] == state.detector.forced[i]
            &&& after.epoch == state.epoch
            &&& after.screen == state.screen
            &&& after.refreshed_at == state.refreshed_at
        }),
{
}

/// The size that goes out before a frame, given that of the last frame.
pub open spec fn announced(screen: Option<(u32, u32)>, width: u32, height: u32) -> Option<(u32, u32)> {
    if screen == Some((width, height)) {
        None
    } else {
        Some((width, height))
    }
}

/// A frame's own size goes out before the first frame and whenever either side changes, and
/// not otherwise.
pub proof fn law_new_sizes_are_announced(width: u32, height: u32, w: u32, h: u32)
    ensures
        announced(None, w, h) == Some((w, h)),
        announced(Some((width, height)), w, h) is Some <==> width != w || height != h,
        announced(Some((width, height)), w, h) matches Some(size) ==> size == (w, h),
{
}

} // verus!
