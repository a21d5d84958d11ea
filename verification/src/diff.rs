//! Change detection: which grid cells of a frame differ from what was last
//! seen, and which of those are due to be sent.

use crate::capture::DamageRegion;
use crate::config::Config;
use crate::frame::Frame;
use crate::tile::{after_push, fresh_memory, CellMemory, Grid, Tile, TileMetadata};
use crate::tile_hash::{
    content_hash, half_tile_pixels, hash_tile_half_with, hash_tile_with,
    law_changed_pixel_changes_the_tile_hash, rows_inside, tile_inside, tile_pixels, SimdLevel,
};
use vstd::arithmetic::div_mod::{lemma_fundamental_div_mod, lemma_mod_bound};
use vstd::prelude::*;

verus! {

/// What became of one cell in one frame.
#[derive(Clone, Copy, Debug)]
pub enum Verdict {
    /// Outside everything the compositor reports as redrawn: not looked at.
    Skipped,
    /// Looked at, and as it was. The half hash alone may have shown it.
    Unchanged { by_half: bool },
    /// Changed, and held back by the send rate.
    Throttled { hash: u64, half: u64 },
    /// Changed, and to be sent.
    Sent { hash: u64, half: u64, dynamic: bool },
}

/// Whether a half hash equal to the remembered one stands for unchanged content.
/// It does not on a first frame, nor where a look at the cell is forced.
pub open spec fn half_settles(first: bool, forced: bool, prev_half: u64, half: u64) -> bool {
    !first && !forced && half == prev_half
}

/// Whether a cell changed on two frames running, having been sent before.
pub open spec fn changes_again(
    first: bool,
    last_sent_frame: u64,
    older: u64,
    prev: u64,
    hash: u64,
) -> bool {
    !first && last_sent_frame > 0 && older != prev && prev != hash
}

/// How many frames must lie between two sends of a cell.
pub open spec fn send_interval(config: Config, dynamic: bool) -> nat {
    if dynamic {
        config.target_fps@ / config.dynamic_tile_fps@
    } else {
        config.target_fps@ / config.static_tile_fps@
    }
}

/// What becomes of a cell: `frame_no` counts frames from one, `half` and `full`
/// are the hashes of its pixels now. A cell that a look is forced at counts as
/// changed, and is due whatever its send rate.
pub open spec fn verdict(
    config: Config,
    first: bool,
    forced: bool,
    skip: bool,
    frame_no: nat,
    prev: u64,
    older: u64,
    memory: CellMemory,
    half: u64,
    full: u64,
) -> Verdict {
    let dynamic = changes_again(first, memory.last_sent_frame, older, prev, full);
    let due = first || forced || (!memory.last_sent_as_dynamic && dynamic) || frame_no
        - memory.last_sent_frame >= send_interval(config, dynamic);
    if skip {
        Verdict::Skipped
    } else if half_settles(first, forced, memory.prev_half_hash, half) {
        Verdict::Unchanged { by_half: true }
    } else if !first && !forced && full == prev {
        Verdict::Unchanged { by_half: false }
    } else if due {
        Verdict::Sent { hash: full, half, dynamic }
    } else {
        Verdict::Throttled { hash: full, half }
    }
}

/// What is remembered of a cell after a frame.
pub open spec fn memory_after(m: CellMemory, v: Verdict, prev: u64, frame_no: nat) -> CellMemory {
    match v {
        Verdict::Skipped | Verdict::Unchanged { .. } => CellMemory {
            unchanged_frames: m.unchanged_frames.wrapping_add(1),
            history: after_push(m.history, m.history_limit, false),
            ..m
        },
        Verdict::Throttled { hash, half } => CellMemory {
            unchanged_frames: 0,
            history: after_push(m.history, m.history_limit, true),
            prev_half_hash: half,
            last_hash_diff: prev ^ hash,
            ..m
        },
        Verdict::Sent { hash, half, dynamic } => CellMemory {
            unchanged_frames: 0,
            last_sent_frame: frame_no as u64,
            is_dynamic: dynamic,
            last_sent_as_dynamic: dynamic,
            history: after_push(m.history, m.history_limit, true),
            prev_half_hash: half,
            last_hash_diff: prev ^ hash,
            ..m
        },
    }
}

/// The hash remembered of a cell after a frame.
pub open spec fn hash_after(v: Verdict, prev: u64) -> u64 {
    match v {
        Verdict::Skipped | Verdict::Unchanged { .. } => prev,
        Verdict::Throttled { hash, .. } => hash,
        Verdict::Sent { hash, .. } => hash,
    }
}

/// Every so many frames the statistics are reported.
pub const REPORT_INTERVAL: u64 = 100;

/// What became of the cells of one frame, counted.
#[derive(Clone, Copy, Debug, PartialEq, Eq, Structural)]
pub struct FrameCounts {
    /// The cells of the frame.
    pub cells: u64,
    /// The redrawn regions that came with the frame.
    pub damage_regions: u64,
    /// Cells outside every redrawn region.
    pub damage_skipped: u64,
    /// Cells that the half hash showed unchanged, so that no full hash was made.
    pub half_skipped: u64,
    /// Cells held back by the send rate.
    pub throttled: u64,
    /// Cells sent as dynamic.
    pub dynamic_sent: u64,
    /// Cells sent as static.
    pub static_sent: u64,
    /// Cells sent.
    pub sent: u64,
}

/// The counts after one more cell.
pub open spec fn tallied(c: FrameCounts, v: Verdict) -> FrameCounts {
    let c = FrameCounts { cells: (c.cells + 1) as u64, ..c };
    match v {
        Verdict::Skipped => FrameCounts { damage_skipped: (c.damage_skipped + 1) as u64, ..c },
        Verdict::Unchanged { by_half: true } => FrameCounts {
            half_skipped: (c.half_skipped + 1) as u64,
            ..c
        },
        Verdict::Unchanged { by_half: false } => c,
        Verdict::Throttled { .. } => FrameCounts { throttled: (c.throttled + 1) as u64, ..c },
        Verdict::Sent { dynamic: true, .. } => FrameCounts {
            dynamic_sent: (c.dynamic_sent + 1) as u64,
            sent: (c.sent + 1) as u64,
            ..c
        },
        Verdict::Sent { dynamic: false, .. } => FrameCounts {
            static_sent: (c.static_sent + 1) as u64,
            sent: (c.sent + 1) as u64,
            ..c
        },
    }
}

/// The counts of a frame with `damage_regions` redrawn regions before any cell.
pub open spec fn no_counts(damage_regions: nat) -> FrameCounts {
    FrameCounts {
        cells: 0,
        damage_regions: damage_regions as u64,
        damage_skipped: 0,
        half_skipped: 0,
        throttled: 0,
        dynamic_sent: 0,
        static_sent: 0,
        sent: 0,
    }
}

/// What a detector has counted: the last frame, and the full hashes saved since
/// the last report.
#[derive(Clone, Copy, Debug, PartialEq, Eq, Structural)]
pub struct Statistics {
    pub last: FrameCounts,
    /// Cells that the half hash showed unchanged.
    pub skipped_hashes: u64,
    /// Cells seen.
    pub total_hashes: u64,
}

/// Nothing counted yet.
pub open spec fn no_statistics() -> Statistics {
    Statistics { last: no_counts(0), skipped_hashes: 0, total_hashes: 0 }
}

/// Whether the statistics are reported after `frames` frames.
pub open spec fn reports(config: Config, frames: nat) -> bool {
    config.debug_mode && frames > 0 && frames % REPORT_INTERVAL as nat == 0
}

/// The statistics after a frame with these counts, the first after a report or
/// not.
pub open spec fn statistics_after(s: Statistics, reported: bool, last: FrameCounts) -> Statistics {
    let (skipped, total) = if reported {
        (0, 0)
    } else {
        (s.skipped_hashes, s.total_hashes)
    };
    Statistics {
        last,
        skipped_hashes: skipped.wrapping_add(last.half_skipped),
        total_hashes: total.wrapping_add(last.cells),
    }
}

/// The statistics reported after a frame.
#[derive(Clone, Copy, Debug, PartialEq, Eq, Structural)]
pub struct DebugReport {
    /// The number of the frame, counted from one.
    pub frame: u64,
    pub statistics: Statistics,
}

/// Whether this is what a detector in `state` has to report.
pub open spec fn reported(config: Config, state: DetectorState, report: Option<DebugReport>) -> bool {
    match report {
        Some(r) => {
            &&& reports(config, state.frames)
            &&& r.frame == state.frames
            &&& r.statistics == state.statistics
        },
        None => !reports(config, state.frames),
    }
}

/// The smaller of two numbers.
pub open spec fn smaller(a: int, b: int) -> int {
    if a < b {
        a
    } else {
        b
    }
}

/// The first column (or row) of cells a redrawn range reaches: `pos` is where
/// the range starts, `size` the cells' extent and `count` their number.
pub open spec fn damage_start(pos: u32, size: u32, count: u32) -> int {
    smaller(pos as int / size as int, count - 1)
}

/// One past the last column (or row) of cells a redrawn range reaches.
/// Positions past the `u32` range count as its end.
pub open spec fn damage_end(pos: u32, extent: u32, size: u32, count: u32) -> int {
    let end = smaller(pos + extent, u32::MAX as int);
    smaller((smaller(end + size, u32::MAX as int) - 1) / size as int, count as int)
}

/// Whether a redrawn region reaches the cell in column `tx` of row `ty`.
pub open spec fn reaches(region: DamageRegion, grid: Grid, tx: int, ty: int) -> bool {
    &&& damage_start(region.x, grid.tile_width, grid.tiles_x) <= tx < damage_end(
        region.x,
        region.width,
        grid.tile_width,
        grid.tiles_x,
    )
    &&& damage_start(region.y, grid.tile_height, grid.tiles_y) <= ty < damage_end(
        region.y,
        region.height,
        grid.tile_height,
        grid.tiles_y,
    )
}

/// Whether any redrawn region reaches cell `i`.
pub open spec fn redrawn(regions: Seq<DamageRegion>, grid: Grid, i: int) -> bool {
    exists|r: int|
        0 <= r < regions.len() && #[trigger] reaches(
            regions[r],
            grid,
            i % grid.tiles_x as int,
            i / grid.tiles_x as int,
        )
}

/// The half hash of cell `i`'s pixels.
pub open spec fn cell_half_hash(level: SimdLevel, grid: Grid, rgba: Seq<u8>, i: int) -> u64 {
    let r = grid.rect_of(i);
    content_hash(level, half_tile_pixels(rgba, r.0, r.1, r.2, r.3, grid.frame_width as int))
}

/// The full hash of cell `i`'s pixels.
pub open spec fn cell_full_hash(level: SimdLevel, grid: Grid, rgba: Seq<u8>, i: int) -> u64 {
    let r = grid.rect_of(i);
    content_hash(level, tile_pixels(rgba, r.0, r.1, r.2, r.3, grid.frame_width as int))
}

/// What a detector remembers, as a value. Before the first frame nothing is
/// remembered of any cell.
#[verifier::ext_equal]
pub struct DetectorState {
    /// The last hash of each cell.
    pub hashes: Seq<u64>,
    /// The hash before that.
    pub older: Seq<u64>,
    pub memory: Seq<CellMemory>,
    /// Cells that the next frame must look at, redrawn or not.
    pub forced: Seq<bool>,
    /// How many frames were seen.
    pub frames: nat,
    pub statistics: Statistics,
}

impl DetectorState {
    /// One entry per cell everywhere.
    pub open spec fn parallel(self) -> bool {
        &&& self.older.len() == self.hashes.len()
        &&& self.memory.len() == self.hashes.len()
        &&& self.forced.len() == self.hashes.len()
    }

    /// One entry per cell everywhere, and no cell sent in a frame yet to come.
    pub open spec fn consistent(self) -> bool {
        &&& self.parallel()
        &&& forall|i: int|
            0 <= i < self.memory.len() ==> (#[trigger] self.memory[i]).last_sent_frame
                <= self.frames
    }
}

/// What a detector knows at the start of a frame of `cells` cells.
pub open spec fn started(state: DetectorState, cells: nat) -> DetectorState {
    if state.hashes.len() == 0 {
        DetectorState {
            hashes: Seq::new(cells, |i: int| 0u64),
            older: Seq::new(cells, |i: int| 0u64),
            memory: Seq::new(cells, |i: int| fresh_memory()),
            forced: Seq::new(cells, |i: int| false),
            frames: state.frames,
            statistics: state.statistics,
        }
    } else {
        state
    }
}

/// Whether cell `i` is passed over: redrawn regions are known, none reaches
/// it, nothing forces a look at it, and it was seen before.
pub open spec fn passed_over(state: DetectorState, grid: Grid, frame: Frame, i: int) -> bool {
    &&& frame.damage_regions@.len() > 0
    &&& state.hashes.len() > 0
    &&& !redrawn(frame.damage_regions@, grid, i)
    &&& !state.forced[i]
}

/// What becomes of cell `i` of `frame`, for a detector in `state`.
#[verifier::opaque]
pub open spec fn verdict_at(
    config: Config,
    level: SimdLevel,
    state: DetectorState,
    grid: Grid,
    frame: Frame,
    i: int,
) -> Verdict {
    let s = started(state, grid.cells() as nat);
    verdict(
        config,
        state.hashes.len() == 0,
        s.forced[i],
        passed_over(state, grid, frame, i),
        state.frames + 1,
        s.hashes[i],
        s.older[i],
        s.memory[i],
        cell_half_hash(level, grid, frame.rgba@, i),
        cell_full_hash(level, grid, frame.rgba@, i),
    )
}

/// A detector's state when the first `done` cells of a frame are settled.
#[verifier::opaque]
pub open spec fn partly_detected(
    config: Config,
    level: SimdLevel,
    state: DetectorState,
    grid: Grid,
    frame: Frame,
    done: int,
) -> DetectorState {
    let s = started(state, grid.cells() as nat);
    let n = s.hashes.len();
    DetectorState {
        hashes: Seq::new(
            n,
            |i: int|
                if i < done {
                    hash_after(verdict_at(config, level, state, grid, frame, i), s.hashes[i])
                } else {
                    s.hashes[i]
                },
        ),
        older: Seq::new(
            n,
            |i: int|
                if i < done {
                    s.hashes[i]
                } else {
                    s.older[i]
                },
        ),
        memory: Seq::new(
            n,
            |i: int|
                if i < done {
                    memory_after(
                        s.memory[i],
                        verdict_at(config, level, state, grid, frame, i),
                        s.hashes[i],
                        state.frames + 1,
                    )
                } else {
                    s.memory[i]
                },
        ),
        forced: s.forced,
        frames: state.frames,
        statistics: state.statistics,
    }
}

/// What became of the first `n` cells of a frame, counted.
pub open spec fn frame_counts(
    config: Config,
    level: SimdLevel,
    state: DetectorState,
    grid: Grid,
    frame: Frame,
    n: nat,
) -> FrameCounts
    decreases n,
{
    if n == 0 {
        no_counts(frame.damage_regions@.len())
    } else {
        tallied(
            frame_counts(config, level, state, grid, frame, (n - 1) as nat),
            verdict_at(config, level, state, grid, frame, n - 1),
        )
    }
}

/// A detector's state after a frame. Cells past the frame's grid stay as they
/// are, and nothing is forced any longer.
pub open spec fn detected(
    config: Config,
    level: SimdLevel,
    state: DetectorState,
    grid: Grid,
    frame: Frame,
) -> DetectorState {
    let settled = partly_detected(config, level, state, grid, frame, grid.cells());
    DetectorState {
        forced: Seq::new(settled.forced.len(), |i: int| false),
        frames: state.frames + 1,
        statistics: statistics_after(
            state.statistics,
            reports(config, state.frames),
            frame_counts(config, level, state, grid, frame, grid.cells() as nat),
        ),
        ..settled
    }
}

/// The quality a changed cell is sent at: low while it keeps changing.
pub open spec fn quality_for(config: Config, dynamic: bool) -> u32 {
    if dynamic {
        config.webp_quality_low
    } else {
        config.webp_quality_high
    }
}

/// The tile that covers cell `i` alone.
pub open spec fn cell_tile(config: Config, grid: Grid, i: int, dynamic: bool) -> Tile {
    let r = grid.rect_of(i);
    Tile {
        x: r.0 as u32,
        y: r.1 as u32,
        width: r.2 as u32,
        height: r.3 as u32,
        quality: quality_for(config, dynamic),
    }
}

/// The cells to send among the first `n`, in order.
pub open spec fn sent_cells(
    config: Config,
    level: SimdLevel,
    state: DetectorState,
    grid: Grid,
    frame: Frame,
    n: nat,
) -> Seq<usize>
    decreases n,
{
    if n == 0 {
        Seq::empty()
    } else {
        let before = sent_cells(config, level, state, grid, frame, (n - 1) as nat);
        match verdict_at(config, level, state, grid, frame, n - 1) {
            Verdict::Sent { .. } => before.push((n - 1) as usize),
            _ => before,
        }
    }
}

/// The tiles to send among the first `n` cells, in order.
pub open spec fn sent_tiles(
    config: Config,
    level: SimdLevel,
    state: DetectorState,
    grid: Grid,
    frame: Frame,
    n: nat,
) -> Seq<Tile>
    decreases n,
{
    if n == 0 {
        Seq::empty()
    } else {
        let before = sent_tiles(config, level, state, grid, frame, (n - 1) as nat);
        match verdict_at(config, level, state, grid, frame, n - 1) {
            Verdict::Sent { dynamic, .. } => before.push(cell_tile(config, grid, n - 1, dynamic)),
            _ => before,
        }
    }
}

/// Finds the cells that changed from frame to frame.
pub struct DiffDetector {
    prev_hashes: Vec<u64>,
    prev_prev_hashes: Vec<u64>,
    tile_metadata: Vec<TileMetadata>,
    force_redetect: Vec<bool>,
    config: Config,
    level: SimdLevel,
    frame_count: u64,
    statistics: Statistics,
}

impl View for DiffDetector {
    type V = DetectorState;

    closed spec fn view(&self) -> DetectorState {
        DetectorState {
            hashes: self.prev_hashes@,
            older: self.prev_prev_hashes@,
            memory: self.tile_metadata@.map_values(|m: TileMetadata| m@),
            forced: self.force_redetect@,
            frames: self.frame_count as nat,
            statistics: self.statistics,
        }
    }
}

/// Marks the cells that any redrawn region reaches.
fn mark_damage(grid: &Grid, regions: &Vec<DamageRegion>) -> (marks: Vec<bool>)
    requires
        grid.well_formed(),
        grid.cells() <= u32::MAX,
    ensures
        marks@.len() == grid.cells(),
        forall|i: int| 0 <= i < grid.cells() ==> #[trigger] marks@[i] == redrawn(regions@, *grid, i),
{
    let total: usize = grid.cell_count();
    let mut marks: Vec<bool> = Vec::new();
    let mut i: usize = 0;
    while i < total
        invariant
            grid.well_formed(),
            total == grid.cells() <= u32::MAX,
            i <= total,
            marks@.len() == i,
            forall|j: int| 0 <= j < i ==> #[trigger] marks@[j] == redrawn(regions@, *grid, j),
        decreases total - i,
    {
        let tx: u32 = i as u32 % grid.tiles_x;
        let ty: u32 = i as u32 / grid.tiles_x;
        let mut hit = false;
        let mut r: usize = 0;
        while r < regions.len()
            invariant
                grid.well_formed(),
                tx == i as int % grid.tiles_x as int,
                ty == i as int / grid.tiles_x as int,
                r <= regions@.len(),
                hit == exists|q: int|
                    0 <= q < r && #[trigger] reaches(regions@[q], *grid, tx as int, ty as int),
            decreases regions@.len() - r,
        {
            let here = region_reaches(&regions[r], grid, tx, ty);
            proof {
                if here {
                    assert(reaches(regions@[r as int], *grid, tx as int, ty as int));
                }
            }
            hit = hit || here;
            r += 1;
        }
        marks.push(hit);
        i += 1;
    }
    marks
}

fn range_start(pos: u32, size: u32, count: u32) -> (start: u32)
    requires
        size >= 1,
        count >= 1,
    ensures
        start == damage_start(pos, size, count),
{
    let at: u32 = pos / size;
    if at < count - 1 {
        at
    } else {
        count - 1
    }
}

fn range_end(pos: u32, extent: u32, size: u32, count: u32) -> (end: u32)
    requires
        size >= 1,
    ensures
        end == damage_end(pos, extent, size, count),
{
    let at: u32 = pos.saturating_add(extent).saturating_add(size).saturating_sub(1) / size;
    if at < count {
        at
    } else {
        count
    }
}

fn region_reaches(region: &DamageRegion, grid: &Grid, tx: u32, ty: u32) -> (b: bool)
    requires
        grid.well_formed(),
    ensures
        b == reaches(*region, *grid, tx as int, ty as int),
{
    range_start(region.x, grid.tile_width, grid.tiles_x) <= tx && tx < range_end(
        region.x,
        region.width,
        grid.tile_width,
        grid.tiles_x,
    ) && range_start(region.y, grid.tile_height, grid.tiles_y) <= ty && ty < range_end(
        region.y,
        region.height,
        grid.tile_height,
        grid.tiles_y,
    )
}

/// A cell's pixels lie inside a complete frame.
proof fn lemma_cell_in_frame(frame: Frame, x: int, y: int, w: int, h: int)
    requires
        frame.complete(),
        0 <= x,
        0 <= y,
        0 < w,
        0 < h,
        x + w <= frame.width,
        y + h <= frame.height,
    ensures
        tile_inside(frame.rgba@.len() as int, x, y, w, h, frame.width as int),
        rows_inside(frame.rgba@.len() as int, x, y, w, frame.width as int, 2, (h + 1) / 2),
{
    let fw = frame.width as int;
    let fh = frame.height as int;
    assert((y + h) * fw <= fh * fw) by (nonlinear_arith)
        requires
            y + h <= fh,
            fw >= 0,
    ;
    assert(fh * fw == fw * fh) by (nonlinear_arith);
    assert((y + h - 1) * fw + fw == (y + h) * fw) by (nonlinear_arith);
    let rows = (h + 1) / 2;
    let last = y + (rows - 1) * 2;
    assert(last * fw <= (y + h - 1) * fw) by (nonlinear_arith)
        requires
            last <= y + h - 1,
            fw >= 0,
    ;
    assert((h - 1) * 1 == h - 1);
}

impl FrameCounts {
    /// The counts of a frame before any cell.
    fn new(damage_regions: usize) -> (c: Self)
        ensures
            c == no_counts(damage_regions as nat),
    {
        FrameCounts {
            cells: 0,
            damage_regions: damage_regions as u64,
            damage_skipped: 0,
            half_skipped: 0,
            throttled: 0,
            dynamic_sent: 0,
            static_sent: 0,
            sent: 0,
        }
    }

    /// Counts one more cell.
    fn count(&mut self, v: Verdict)
        requires
            old(self).cells < u64::MAX,
            old(self).damage_skipped <= old(self).cells,
            old(self).half_skipped <= old(self).cells,
            old(self).throttled <= old(self).cells,
            old(self).dynamic_sent <= old(self).cells,
            old(self).static_sent <= old(self).cells,
            old(self).sent <= old(self).cells,
        ensures
            *final(self) == tallied(*old(self), v),
    {
        self.cells += 1;
        match v {
            Verdict::Skipped => {
                self.damage_skipped += 1;
            },
            Verdict::Unchanged { by_half } => {
                if by_half {
                    self.half_skipped += 1;
                }
            },
            Verdict::Throttled { .. } => {
                self.throttled += 1;
            },
            Verdict::Sent { dynamic, .. } => {
                self.sent += 1;
                if dynamic {
                    self.dynamic_sent += 1;
                } else {
                    self.static_sent += 1;
                }
            },
        }
    }
}

impl Statistics {
    /// Nothing counted yet.
    fn new() -> (s: Self)
        ensures
            s == no_statistics(),
    {
        Statistics { last: FrameCounts::new(0), skipped_hashes: 0, total_hashes: 0 }
    }
}

/// Each cell is counted once: as passed over, as unchanged by its half hash, as
/// held back, as sent, or, where a full hash showed it unchanged, as a cell of
/// the frame alone. The cells counted as sent, dynamic or static, are those sent.
pub proof fn law_counts_add_up(
    config: Config,
    level: SimdLevel,
    state: DetectorState,
    grid: Grid,
    frame: Frame,
    n: nat,
)
    requires
        n <= u64::MAX,
    ensures
        ({
            let c = frame_counts(config, level, state, grid, frame, n);
            &&& c.cells == n
            &&& c.damage_skipped + c.half_skipped + c.throttled + c.sent <= c.cells
            &&& c.dynamic_sent + c.static_sent == c.sent
            &&& c.sent == sent_cells(config, level, state, grid, frame, n).len()
        }),
    decreases n,
{
    if n > 0 {
        law_counts_add_up(config, level, state, grid, frame, (n - 1) as nat);
    }
}

impl DiffDetector {
    /// The settings in force.
    pub closed spec fn settings(&self) -> Config {
        self.config
    }

    /// The hash in use.
    pub closed spec fn hash_level(&self) -> SimdLevel {
        self.level
    }

    /// The grid that frames of this size are cut into.
    pub open spec fn grid_for(&self, frame: Frame) -> Grid {
        crate::tile::grid_over(
            self.settings().tiles_x as int,
            frame.width as int,
            frame.height as int,
        )
    }

    /// A detector that has seen nothing, hashing in four lanes.
    pub fn new(config: Config) -> (d: Self)
        ensures
            d@ == fresh_state(),
            d.settings() == config,
            d.hash_level() == SimdLevel::Avx2,
    {
        DiffDetector::with_level(config, SimdLevel::Avx2)
    }

    /// A detector that has seen nothing, hashing at `level`.
    pub fn with_level(config: Config, level: SimdLevel) -> (d: Self)
        ensures
            d@ == fresh_state(),
            d.settings() == config,
            d.hash_level() == level,
    {
        let d = DiffDetector {
            prev_hashes: Vec::new(),
            prev_prev_hashes: Vec::new(),
            tile_metadata: Vec::new(),
            force_redetect: Vec::new(),
            config,
            level,
            frame_count: 0,
            statistics: Statistics::new(),
        };
        assert(d@ =~= fresh_state());
        d
    }

    /// The settings in force.
    pub fn config(&self) -> (c: &Config)
        ensures
            *c == self.settings(),
    {
        &self.config
    }

    /// The hash in use.
    pub fn level(&self) -> (level: SimdLevel)
        ensures
            level == self.hash_level(),
    {
        self.level
    }

    /// Sets up `total` cells never seen.
    fn start_cells(&mut self, total: usize)
        requires
            old(self)@.hashes.len() == 0,
            old(self)@.consistent(),
        ensures
            final(self)@ == started(old(self)@, total as nat),
            final(self).settings() == old(self).settings(),
            final(self).hash_level() == old(self).hash_level(),
    {
        self.prev_hashes.clear();
        self.prev_prev_hashes.clear();
        self.tile_metadata.clear();
        self.force_redetect.clear();
        let mut i: usize = 0;
        while i < total
            invariant
                i <= total,
                self.prev_hashes@ == Seq::new(i as nat, |j: int| 0u64),
                self.prev_prev_hashes@ == Seq::new(i as nat, |j: int| 0u64),
                self.force_redetect@ == Seq::new(i as nat, |j: int| false),
                self.tile_metadata@.len() == i,
                forall|j: int| 0 <= j < i ==> (#[trigger] self.tile_metadata@[j])@ == fresh_memory(),
                self.frame_count == old(self).frame_count,
                self.statistics == old(self).statistics,
                self.config == old(self).config,
                self.level == old(self).level,
            decreases total - i,
        {
            self.prev_hashes.push(0);
            self.prev_prev_hashes.push(0);
            self.tile_metadata.push(TileMetadata::default());
            self.force_redetect.push(false);
            i += 1;
        }
        assert(self@ =~= started(old(self)@, total as nat));
    }

    /// Judges cell `i`; nothing about it is updated yet.
    fn judge(&self, frame: &Frame, grid: &Grid, i: usize, first: bool, skip: bool, frame_no: u64) -> (v:
        Verdict)
        requires
            self@.parallel(),
            i < self@.hashes.len(),
            i < grid.cells() <= u32::MAX,
            grid.well_formed(),
            grid.frame_width == frame.width,
            grid.frame_height == frame.height,
            frame.complete(),
            self@.memory[i as int].last_sent_frame <= frame_no,
        ensures
            v == verdict(
                self.settings(),
                first,
                self@.forced[i as int],
                skip,
                frame_no as nat,
                self@.hashes[i as int],
                self@.older[i as int],
                self@.memory[i as int],
                cell_half_hash(self.hash_level(), *grid, frame.rgba@, i as int),
                cell_full_hash(self.hash_level(), *grid, frame.rgba@, i as int),
            ),
    {
        if skip {
            return Verdict::Skipped;
        }
        let (x, y, w, h): (u32, u32, u32, u32) = grid.cell_rect(i);
        proof {
            lemma_cell_in_frame(*frame, x as int, y as int, w as int, h as int);
        }
        let rgba: &[u8] = frame.rgba.as_slice();
        let half: u64 = hash_tile_half_with(self.level, rgba, x, y, w, h, frame.width);
        let meta: &TileMetadata = &self.tile_metadata[i];
        assert(meta@ == self@.memory[i as int]);
        let prev: u64 = self.prev_hashes[i];
        let forced: bool = self.force_redetect[i];
        if !first && !forced && half == meta.prev_half_hash {
            return Verdict::Unchanged { by_half: true };
        }
        let hash: u64 = hash_tile_with(self.level, rgba, x, y, w, h, frame.width);
        if !first && !forced && hash == prev {
            return Verdict::Unchanged { by_half: false };
        }
        let dynamic = !first && meta.last_sent_frame > 0 && self.prev_prev_hashes[i] != prev
            && prev != hash;
        let since: u64 = frame_no - meta.last_sent_frame;
        let interval: u64 = if dynamic {
            self.config.target_fps.get() / self.config.dynamic_tile_fps.get()
        } else {
            self.config.target_fps.get() / self.config.static_tile_fps.get()
        };
        if first || forced || (!meta.last_sent_as_dynamic && dynamic) || since >= interval {
            Verdict::Sent { hash, half, dynamic }
        } else {
            Verdict::Throttled { hash, half }
        }
    }

    /// Brings everything remembered of cell `i` up to date with its verdict.
    fn settle(&mut self, i: usize, v: Verdict, frame_no: u64)
        requires
            old(self)@.parallel(),
            i < old(self)@.hashes.len(),
        ensures
            final(self).settings() == old(self).settings(),
            final(self).hash_level() == old(self).hash_level(),
            final(self)@.frames == old(self)@.frames,
            final(self)@.statistics == old(self)@.statistics,
            final(self)@.forced == old(self)@.forced,
            final(self)@.hashes == old(self)@.hashes.update(
                i as int,
                hash_after(v, old(self)@.hashes[i as int]),
            ),
            final(self)@.older == old(self)@.older.update(i as int, old(self)@.hashes[i as int]),
            final(self)@.memory == old(self)@.memory.update(
                i as int,
                memory_after(
                    old(self)@.memory[i as int],
                    v,
                    old(self)@.hashes[i as int],
                    frame_no as nat,
                ),
            ),
    {
        let prev: u64 = self.prev_hashes[i];
        assert(self.tile_metadata@[i as int]@ == self@.memory[i as int]);
        let meta: &mut TileMetadata = &mut self.tile_metadata[i];
        remember(meta, v, prev, frame_no);
        self.prev_prev_hashes.set(i, prev);
        match v {
            Verdict::Skipped | Verdict::Unchanged { .. } => {},
            Verdict::Throttled { hash, .. } => {
                self.prev_hashes.set(i, hash);
            },
            Verdict::Sent { hash, .. } => {
                self.prev_hashes.set(i, hash);
            },
        }
        assert(self@.hashes =~= old(self)@.hashes.update(
            i as int,
            hash_after(v, old(self)@.hashes[i as int]),
        ));
        assert(self@.older =~= old(self)@.older.update(i as int, old(self)@.hashes[i as int]));
        assert(self@.memory =~= old(self)@.memory.update(
            i as int,
            memory_after(
                old(self)@.memory[i as int],
                v,
                old(self)@.hashes[i as int],
                frame_no as nat,
            ),
        ));
    }

    /// Looks at one frame: returns the tiles to send and the cells they cover,
    /// in cell order, and remembers what was seen.
    pub fn detect_changes(&mut self, frame: &Frame) -> (out: (Vec<Tile>, Vec<usize>))
        requires
            old(self)@.consistent(),
            old(self)@.frames < u64::MAX,
            frame.complete(),
            old(self)@.hashes.len() == 0 || old(self).grid_for(*frame).cells() <= old(
                self,
            )@.hashes.len(),
        ensures
            final(self).settings() == old(self).settings(),
            final(self).hash_level() == old(self).hash_level(),
            final(self)@ == detected(
                old(self).settings(),
                old(self).hash_level(),
                old(self)@,
                old(self).grid_for(*frame),
                *frame,
            ),
            final(self)@.consistent(),
            old(self).grid_for(*frame).cells() <= u32::MAX,
            final(self)@.hashes.len() == (if old(self)@.hashes.len() == 0 {
                old(self).grid_for(*frame).cells() as nat
            } else {
                old(self)@.hashes.len()
            }),
            out.0@ == sent_tiles(
                old(self).settings(),
                old(self).hash_level(),
                old(self)@,
                old(self).grid_for(*frame),
                *frame,
                old(self).grid_for(*frame).cells() as nat,
            ),
            out.1@ == sent_cells(
                old(self).settings(),
                old(self).hash_level(),
                old(self)@,
                old(self).grid_for(*frame),
                *frame,
                old(self).grid_for(*frame).cells() as nat,
            ),
    {
        let grid: Grid = Grid::new(self.config.tiles_x, frame.width, frame.height);
        proof {
            lemma_few_cells(grid, *frame);
        }
        let ghost state = self@;
        let ghost config = self.settings();
        let ghost level = self.hash_level();
        let total: usize = grid.cell_count();
        let first = self.prev_hashes.len() == 0;
        let frame_no: u64 = self.frame_count + 1;
        if first {
            self.start_cells(total);
        }
        let has_damage = frame.damage_regions.len() > 0;
        let damaged: Vec<bool> = if has_damage {
            mark_damage(&grid, &frame.damage_regions)
        } else {
            Vec::new()
        };
        let mut tiles: Vec<Tile> = Vec::new();
        let mut indices: Vec<usize> = Vec::new();
        let mut counts: FrameCounts = FrameCounts::new(frame.damage_regions.len());
        let mut i: usize = 0;
        assert(self@ =~= partly_detected(config, level, state, grid, *frame, 0)) by {
            reveal(partly_detected);
        }
        while i < total
            invariant
                i <= total,
                total == grid.cells() <= u32::MAX,
                grid.well_formed(),
                grid.frame_width == frame.width,
                grid.frame_height == frame.height,
                frame.complete(),
                first == (state.hashes.len() == 0),
                frame_no == state.frames + 1,
                state.consistent(),
                state.hashes.len() == 0 || total <= state.hashes.len(),
                self.settings() == config,
                self.hash_level() == level,
                self@ == partly_detected(config, level, state, grid, *frame, i as int),
                has_damage == (frame.damage_regions@.len() > 0),
                has_damage ==> damaged@.len() == total,
                has_damage ==> forall|j: int|
                    0 <= j < total ==> #[trigger] damaged@[j] == redrawn(
                        frame.damage_regions@,
                        grid,
                        j,
                    ),
                tiles@ == sent_tiles(config, level, state, grid, *frame, i as nat),
                indices@ == sent_cells(config, level, state, grid, *frame, i as nat),
                counts == frame_counts(config, level, state, grid, *frame, i as nat),
            decreases total - i,
        {
            proof {
                lemma_partly_detected(config, level, state, grid, *frame, i as int);
                law_counts_add_up(config, level, state, grid, *frame, i as nat);
            }
            let skip = has_damage && !first && !damaged[i] && !self.force_redetect[i];
            let v: Verdict = self.judge(frame, &grid, i, first, skip, frame_no);
            assert(v == verdict_at(config, level, state, grid, *frame, i as int)) by {
                reveal(verdict_at);
            }
            if let Verdict::Sent { dynamic, .. } = v {
                let (x, y, w, h): (u32, u32, u32, u32) = grid.cell_rect(i);
                let quality: u32 = if dynamic {
                    self.config.webp_quality_low
                } else {
                    self.config.webp_quality_high
                };
                tiles.push(Tile::new(x, y, w, h, quality));
                indices.push(i);
            }
            counts.count(v);
            self.settle(i, v, frame_no);
            assert(self@ =~= partly_detected(config, level, state, grid, *frame, i + 1));
            i += 1;
        }
        proof {
            lemma_partly_detected_consistent(config, level, state, grid, *frame);
        }
        assert(self@.frames == state.frames && self@.statistics == state.statistics) by {
            reveal(partly_detected);
        }
        self.count_frame(counts);
        self.frame_count = frame_no;
        let mut j: usize = 0;
        let ghost done = self@;
        while j < self.force_redetect.len()
            invariant
                j <= self.force_redetect@.len(),
                self.force_redetect@.len() == done.forced.len(),
                self.settings() == config,
                self.hash_level() == level,
                self@.hashes == done.hashes,
                self@.older == done.older,
                self@.memory == done.memory,
                self@.frames == done.frames,
                self@.statistics == done.statistics,
                forall|k: int| 0 <= k < j ==> !#[trigger] self.force_redetect@[k],
            decreases self.force_redetect@.len() - j,
        {
            self.force_redetect.set(j, false);
            j += 1;
        }
        assert(self@ =~= detected(config, level, state, grid, *frame));
        proof {
            lemma_detected_len(config, level, state, grid, *frame);
        }
        (tiles, indices)
    }

    /// Adds the counts of a frame to the statistics.
    fn count_frame(&mut self, counts: FrameCounts)
        ensures
            final(self).settings() == old(self).settings(),
            final(self).hash_level() == old(self).hash_level(),
            final(self)@ == (DetectorState {
                statistics: statistics_after(
                    old(self)@.statistics,
                    reports(old(self).settings(), old(self)@.frames),
                    counts,
                ),
                ..old(self)@
            }),
    {
        let reported = self.reports_now();
        let (skipped, total): (u64, u64) = if reported {
            (0, 0)
        } else {
            (self.statistics.skipped_hashes, self.statistics.total_hashes)
        };
        self.statistics = Statistics {
            last: counts,
            skipped_hashes: skipped.wrapping_add(counts.half_skipped),
            total_hashes: total.wrapping_add(counts.cells),
        };
    }

    /// Whether the statistics are reported after the frames seen so far.
    fn reports_now(&self) -> (b: bool)
        ensures
            b == reports(self.settings(), self@.frames),
    {
        self.config.debug_mode && self.frame_count > 0 && self.frame_count % REPORT_INTERVAL == 0
    }

    /// The statistics of the last frame and since the last report. There is a
    /// report after every [`REPORT_INTERVAL`] frames, in debug mode only.
    pub fn debug_report(&self) -> (report: Option<DebugReport>)
        ensures
            reported(self.settings(), self@, report),
    {
        if self.reports_now() {
            Some(DebugReport { frame: self.frame_count, statistics: self.statistics })
        } else {
            None
        }
    }

    /// What was counted so far.
    pub fn statistics(&self) -> (s: Statistics)
        ensures
            s == self@.statistics,
    {
        self.statistics
    }

    /// What is remembered of a cell.
    pub fn get_metadata(&self, index: usize) -> (m: &TileMetadata)
        requires
            index < self@.memory.len(),
        ensures
            m@ == self@.memory[index as int],
    {
        &self.tile_metadata[index]
    }

    /// What is remembered of a cell, to be changed.
    pub fn get_metadata_mut(&mut self, index: usize) -> (m: &mut TileMetadata)
        requires
            index < old(self)@.memory.len(),
        ensures
            m@ == old(self)@.memory[index as int],
            final(self).settings() == old(self).settings(),
            final(self).hash_level() == old(self).hash_level(),
            final(self)@ == (DetectorState {
                memory: old(self)@.memory.update(index as int, final(m)@),
                ..old(self)@
            }),
    {
        let ghost before = self.tile_metadata@;
        let m: &mut TileMetadata = &mut self.tile_metadata[index];
        assert(before.update(index as int, *final(m)).map_values(|m: TileMetadata| m@)
            =~= before.map_values(|m: TileMetadata| m@).update(index as int, final(m)@));
        m
    }

    /// What is remembered of every cell.
    pub fn get_all_metadata(&self) -> (all: &[TileMetadata])
        ensures
            all@.map_values(|m: TileMetadata| m@) == self@.memory,
    {
        self.tile_metadata.as_slice()
    }

    /// What is remembered of every cell, to be changed.
    pub fn get_all_metadata_mut(&mut self) -> (all: &mut [TileMetadata])
        ensures
            all@.map_values(|m: TileMetadata| m@) == old(self)@.memory,
            final(self).settings() == old(self).settings(),
            final(self).hash_level() == old(self).hash_level(),
            final(self)@ == (DetectorState {
                memory: final(all)@.map_values(|m: TileMetadata| m@),
                ..old(self)@
            }),
    {
        self.tile_metadata.as_mut_slice()
    }

    /// The last hash of every cell.
    pub fn get_current_hashes(&self) -> (hashes: &[u64])
        ensures
            hashes@ == self@.hashes,
    {
        self.prev_hashes.as_slice()
    }

    /// Forgets everything seen: the next frame is a first frame again.
    pub fn reset(&mut self)
        ensures
            final(self)@ == fresh_state(),
            final(self).settings() == old(self).settings(),
            final(self).hash_level() == old(self).hash_level(),
    {
        self.prev_hashes.clear();
        self.prev_prev_hashes.clear();
        self.tile_metadata.clear();
        self.force_redetect.clear();
        self.frame_count = 0;
        self.statistics = Statistics::new();
        assert(self@ =~= fresh_state());
    }

    /// Forgets the hashes of a cell and its last send, and makes the next frame
    /// look at it. They move together, so that what is sent then counts as new.
    fn force_redetect_tile(&mut self, i: usize)
        requires
            old(self)@.parallel(),
            i < old(self)@.hashes.len(),
        ensures
            final(self).settings() == old(self).settings(),
            final(self).hash_level() == old(self).hash_level(),
            final(self)@ == (DetectorState {
                hashes: old(self)@.hashes.update(i as int, 0),
                older: old(self)@.older.update(i as int, 0),
                memory: old(self)@.memory.update(
                    i as int,
                    rearmed_memory(old(self)@.memory[i as int]),
                ),
                forced: old(self)@.forced.update(i as int, true),
                frames: old(self)@.frames,
                statistics: old(self)@.statistics,
            }),
    {
        assert(self.tile_metadata@[i as int]@ == self@.memory[i as int]);
        let meta: &mut TileMetadata = &mut self.tile_metadata[i];
        meta.prev_half_hash = 0;
        meta.last_sent_frame = 0;
        self.prev_hashes.set(i, 0);
        self.prev_prev_hashes.set(i, 0);
        self.force_redetect.set(i, true);
        assert(self@.memory =~= old(self)@.memory.update(
            i as int,
            rearmed_memory(old(self)@.memory[i as int]),
        ));
    }

    /// Drops the encoded bytes kept for a cell.
    fn drop_cached(&mut self, i: usize)
        requires
            old(self)@.parallel(),
            i < old(self)@.hashes.len(),
        ensures
            final(self).settings() == old(self).settings(),
            final(self).hash_level() == old(self).hash_level(),
            final(self)@ == (DetectorState {
                memory: old(self)@.memory.update(
                    i as int,
                    uncached_memory(old(self)@.memory[i as int]),
                ),
                ..old(self)@
            }),
    {
        assert(self.tile_metadata@[i as int]@ == self@.memory[i as int]);
        let meta: &mut TileMetadata = &mut self.tile_metadata[i];
        meta.cached_hash = 0;
        meta.cached_encoded = None;
        assert(self@.memory =~= old(self)@.memory.update(
            i as int,
            uncached_memory(old(self)@.memory[i as int]),
        ));
    }

    /// Makes the next frame look at these cells again, as happens when what was
    /// sent of them got lost. Indices past the last cell are ignored.
    pub fn invalidate_tiles(&mut self, indices: &[usize])
        requires
            old(self)@.parallel(),
        ensures
            final(self).settings() == old(self).settings(),
            final(self).hash_level() == old(self).hash_level(),
            final(self)@ == invalidated(old(self)@, indices@),
            old(self)@.consistent() ==> final(self)@.consistent(),
    {
        let ghost state = self@;
        let mut k: usize = 0;
        assert(self@ =~= invalidated(state, indices@.take(0)));
        while k < indices.len()
            invariant
                k <= indices@.len(),
                state.parallel(),
                self.settings() == old(self).settings(),
                self.hash_level() == old(self).hash_level(),
                self@ == invalidated(state, indices@.take(k as int)),
            decreases indices@.len() - k,
        {
            let i: usize = indices[k];
            let ghost seen = indices@.take(k as int);
            let ghost next = indices@.take(k + 1);
            proof {
                assert(next =~= seen.push(i));
                assert forall|j: usize| next.contains(j) == (seen.contains(j) || j == i) by {
                    if seen.contains(j) {
                        let p = choose|p: int| 0 <= p < seen.len() && seen[p] == j;
                        assert(next[p] == j);
                    }
                    assert(next[k as int] == i);
                }
            }
            assert(self@.memory.len() == self.tile_metadata@.len());
            if i < self.tile_metadata.len() {
                self.drop_cached(i);
                self.force_redetect_tile(i);
            }
            assert(self@ =~= invalidated(state, next));
            k += 1;
        }
        assert(indices@.take(indices@.len() as int) =~= indices@);
        assert forall|i: int| 0 <= i < self@.memory.len() && state.consistent() implies (
        #[trigger] self@.memory[i]).last_sent_frame <= self@.frames by {
            assert(state.memory[i].last_sent_frame <= state.frames);
        }
    }

    /// Drops every encoded tile kept, and makes the next frame look again at
    /// the cells last sent at low quality, so that they are sent at high
    /// quality.
    pub fn invalidate_cache(&mut self)
        requires
            old(self)@.parallel(),
        ensures
            final(self).settings() == old(self).settings(),
            final(self).hash_level() == old(self).hash_level(),
            final(self)@ == refreshed(old(self)@),
            old(self)@.consistent() ==> final(self)@.consistent(),
    {
        let ghost state = self@;
        let mut i: usize = 0;
        assert(self@ =~= refreshed_upto(state, 0));
        while i < self.tile_metadata.len()
            invariant
                i <= self.tile_metadata@.len(),
                self.tile_metadata@.len() == state.hashes.len(),
                state.parallel(),
                self.settings() == old(self).settings(),
                self.hash_level() == old(self).hash_level(),
                self@ == refreshed_upto(state, i as int),
            decreases self.tile_metadata@.len() - i,
        {
            self.drop_cached(i);
            assert(self@.memory.len() == self.tile_metadata@.len());
            assert(self@.memory[i as int] == self.tile_metadata@[i as int]@);
            if self.tile_metadata[i].last_sent_as_dynamic {
                self.force_redetect_tile(i);
            }
            assert(self@.memory.len() == self.tile_metadata@.len());
            assert(self@ =~= refreshed_upto(state, i + 1));
            i += 1;
        }
        assert forall|i: int| 0 <= i < self@.memory.len() && state.consistent() implies (
        #[trigger] self@.memory[i]).last_sent_frame <= self@.frames by {
            assert(state.memory[i].last_sent_frame <= state.frames);
        }
    }
}

/// What is remembered of a cell whose hashes are forgotten.
pub open spec fn rearmed_memory(m: CellMemory) -> CellMemory {
    CellMemory { prev_half_hash: 0, last_sent_frame: 0, ..m }
}

/// What is remembered of a cell whose encoded bytes are dropped.
pub open spec fn uncached_memory(m: CellMemory) -> CellMemory {
    CellMemory { cached_hash: 0, cached_encoded: None, ..m }
}

/// A detector's state after the cells named in `indices` were invalidated.
pub open spec fn invalidated(state: DetectorState, indices: Seq<usize>) -> DetectorState {
    let n = state.hashes.len();
    DetectorState {
        hashes: Seq::new(
            n,
            |i: int|
                if indices.contains(i as usize) {
                    0
                } else {
                    state.hashes[i]
                },
        ),
        older: Seq::new(
            n,
            |i: int|
                if indices.contains(i as usize) {
                    0
                } else {
                    state.older[i]
                },
        ),
        memory: Seq::new(
            n,
            |i: int|
                if indices.contains(i as usize) {
                    rearmed_memory(uncached_memory(state.memory[i]))
                } else {
                    state.memory[i]
                },
        ),
        forced: Seq::new(n, |i: int| indices.contains(i as usize) || state.forced[i]),
        frames: state.frames,
        statistics: state.statistics,
    }
}

/// A detector's state when the first `done` cells were refreshed.
pub open spec fn refreshed_upto(state: DetectorState, done: int) -> DetectorState {
    let n = state.hashes.len();
    DetectorState {
        hashes: Seq::new(
            n,
            |i: int|
                if i < done && state.memory[i].last_sent_as_dynamic {
                    0
                } else {
                    state.hashes[i]
                },
        ),
        older: Seq::new(
            n,
            |i: int|
                if i < done && state.memory[i].last_sent_as_dynamic {
                    0
                } else {
                    state.older[i]
                },
        ),
        memory: Seq::new(
            n,
            |i: int|
                if i < done {
                    if state.memory[i].last_sent_as_dynamic {
                        rearmed_memory(uncached_memory(state.memory[i]))
                    } else {
                        uncached_memory(state.memory[i])
                    }
                } else {
                    state.memory[i]
                },
        ),
        forced: Seq::new(
            n,
            |i: int| (i < done && state.memory[i].last_sent_as_dynamic) || state.forced[i],
        ),
        frames: state.frames,
        statistics: state.statistics,
    }
}

/// A detector's state after the periodic refresh: nothing encoded is kept, and
/// cells last sent at low quality are to be looked at again.
pub open spec fn refreshed(state: DetectorState) -> DetectorState {
    refreshed_upto(state, state.hashes.len() as int)
}

/// Before cell `i` is settled it stands as it did at the start of the frame,
/// and settling it changes its own entries only.
proof fn lemma_partly_detected(
    config: Config,
    level: SimdLevel,
    state: DetectorState,
    grid: Grid,
    frame: Frame,
    i: int,
)
    requires
        state.consistent(),
        0 <= i < grid.cells(),
        state.hashes.len() == 0 || grid.cells() <= state.hashes.len(),
    ensures
        ({
            let s = started(state, grid.cells() as nat);
            let now = partly_detected(config, level, state, grid, frame, i);
            let next = partly_detected(config, level, state, grid, frame, i + 1);
            let v = verdict_at(config, level, state, grid, frame, i);
            &&& now.parallel()
            &&& i < now.hashes.len()
            &&& now.hashes[i] == s.hashes[i]
            &&& now.older[i] == s.older[i]
            &&& now.memory[i] == s.memory[i]
            &&& now.forced == s.forced
            &&& now.frames == state.frames
            &&& now.statistics == state.statistics
            &&& next.forced == now.forced
            &&& next.statistics == now.statistics
            &&& next.frames == now.frames
            &&& next.hashes == now.hashes.update(i, hash_after(v, s.hashes[i]))
            &&& next.older == now.older.update(i, s.hashes[i])
            &&& next.memory == now.memory.update(
                i,
                memory_after(s.memory[i], v, s.hashes[i], state.frames + 1),
            )
            &&& s.memory[i].last_sent_frame <= state.frames
        }),
{
    reveal(partly_detected);
    let s = started(state, grid.cells() as nat);
    let now = partly_detected(config, level, state, grid, frame, i);
    let next = partly_detected(config, level, state, grid, frame, i + 1);
    let v = verdict_at(config, level, state, grid, frame, i);
    assert(next.hashes =~= now.hashes.update(i, hash_after(v, s.hashes[i])));
    assert(next.older =~= now.older.update(i, s.hashes[i]));
    assert(next.memory =~= now.memory.update(
        i,
        memory_after(s.memory[i], v, s.hashes[i], state.frames + 1),
    ));
}

/// A detector's state after a frame is consistent.
proof fn lemma_partly_detected_consistent(
    config: Config,
    level: SimdLevel,
    state: DetectorState,
    grid: Grid,
    frame: Frame,
)
    requires
        state.consistent(),
        state.frames < u64::MAX,
        state.hashes.len() == 0 || grid.cells() <= state.hashes.len(),
    ensures
        detected(config, level, state, grid, frame).consistent(),
{
    reveal(partly_detected);
    let d = detected(config, level, state, grid, frame);
    assert forall|i: int| 0 <= i < d.memory.len() implies (#[trigger] d.memory[i]).last_sent_frame
        <= d.frames by {}
}

/// After a frame something is remembered of each of its cells.
pub proof fn lemma_detected_len(
    config: Config,
    level: SimdLevel,
    state: DetectorState,
    grid: Grid,
    frame: Frame,
)
    requires
        state.consistent(),
        0 <= grid.cells(),
        state.hashes.len() == 0 || grid.cells() <= state.hashes.len(),
    ensures
        detected(config, level, state, grid, frame).hashes.len() == (if state.hashes.len() == 0 {
            grid.cells() as nat
        } else {
            state.hashes.len()
        }),
{
    reveal(partly_detected);
}

proof fn lemma_few_cells(grid: Grid, frame: Frame)
    requires
        frame.complete(),
        grid.tiles_x <= frame.width,
        grid.tiles_y <= frame.height,
    ensures
        grid.cells() <= frame.width * frame.height,
        grid.cells() <= u32::MAX,
{
    assert(grid.tiles_x * grid.tiles_y <= frame.width * frame.height) by (nonlinear_arith)
        requires
            0 <= grid.tiles_x <= frame.width,
            0 <= grid.tiles_y <= frame.height,
    ;
}

/// What a detector that has seen nothing remembers.
pub open spec fn fresh_state() -> DetectorState {
    DetectorState {
        hashes: Seq::empty(),
        older: Seq::empty(),
        memory: Seq::empty(),
        forced: Seq::empty(),
        frames: 0,
        statistics: no_statistics(),
    }
}

/// Brings what is remembered of a cell up to date with its verdict.
fn remember(meta: &mut TileMetadata, v: Verdict, prev: u64, frame_no: u64)
    ensures
        final(meta)@ == memory_after(old(meta)@, v, prev, frame_no as nat),
{
    match v {
        Verdict::Skipped | Verdict::Unchanged { .. } => {
            meta.unchanged_frames = meta.unchanged_frames.wrapping_add(1);
            meta.change_history.push(false);
        },
        Verdict::Throttled { hash, half } => {
            meta.unchanged_frames = 0;
            meta.change_history.push(true);
            meta.prev_half_hash = half;
            meta.last_hash_diff = prev ^ hash;
        },
        Verdict::Sent { hash, half, dynamic } => {
            meta.unchanged_frames = 0;
            meta.last_sent_frame = frame_no;
            meta.is_dynamic = dynamic;
            meta.last_sent_as_dynamic = dynamic;
            meta.change_history.push(true);
            meta.prev_half_hash = half;
            meta.last_hash_diff = prev ^ hash;
        },
    }
}

/// On a first frame every cell is sent, whatever the compositor reports.
pub proof fn law_first_frame_sends_every_cell(
    config: Config,
    level: SimdLevel,
    state: DetectorState,
    grid: Grid,
    frame: Frame,
    n: nat,
)
    requires
        state.hashes.len() == 0,
    ensures
        sent_cells(config, level, state, grid, frame, n) == Seq::new(n, |i: int| i as usize),
    decreases n,
{
    reveal(verdict_at);
    if n > 0 {
        law_first_frame_sends_every_cell(config, level, state, grid, frame, (n - 1) as nat);
        assert(sent_cells(config, level, state, grid, frame, n) =~= Seq::new(
            n,
            |i: int| i as usize,
        ));
    } else {
        assert(sent_cells(config, level, state, grid, frame, n) =~= Seq::new(
            n,
            |i: int| i as usize,
        ));
    }
}

/// A cell that was looked at is not sent again for the same pixels: a second
/// frame with the content of the first finds it unchanged.
pub proof fn law_same_content_is_unchanged(
    config: Config,
    level: SimdLevel,
    state: DetectorState,
    grid: Grid,
    frame: Frame,
    again: Frame,
    i: int,
)
    requires
        state.consistent(),
        0 <= i < grid.cells(),
        state.hashes.len() == 0 || grid.cells() <= state.hashes.len(),
        again.rgba@ == frame.rgba@,
        verdict_at(config, level, state, grid, frame, i) !is Skipped,
    ensures
        ({
            let v = verdict_at(
                config,
                level,
                detected(config, level, state, grid, frame),
                grid,
                again,
                i,
            );
            v is Unchanged || v is Skipped
        }),
{
    reveal(verdict_at);
    reveal(partly_detected);
}

/// A frame with the content of the one before it sends nothing, where that one
/// was looked at as a whole.
pub proof fn law_identical_frame_sends_nothing(
    config: Config,
    level: SimdLevel,
    state: DetectorState,
    grid: Grid,
    frame: Frame,
    again: Frame,
    n: nat,
)
    requires
        state.consistent(),
        n <= grid.cells(),
        state.hashes.len() == 0 || grid.cells() <= state.hashes.len(),
        again.rgba@ == frame.rgba@,
        forall|i: int|
            0 <= i < grid.cells() ==> #[trigger] verdict_at(
                config,
                level,
                state,
                grid,
                frame,
                i,
            ) !is Skipped,
    ensures
        sent_cells(
            config,
            level,
            detected(config, level, state, grid, frame),
            grid,
            again,
            n,
        ).len() == 0,
    decreases n,
{
    if n > 0 {
        law_identical_frame_sends_nothing(
            config,
            level,
            state,
            grid,
            frame,
            again,
            (n - 1) as nat,
        );
        law_same_content_is_unchanged(config, level, state, grid, frame, again, n - 1);
    }
}

/// A changed cell's baseline moves to the frame's content, whether the cell is
/// sent or held back, and it does not count as unchanged.
pub proof fn law_changed_cell_advances(
    config: Config,
    level: SimdLevel,
    state: DetectorState,
    grid: Grid,
    frame: Frame,
    i: int,
)
    requires
        state.consistent(),
        0 <= i < grid.cells(),
        state.hashes.len() == 0 || grid.cells() <= state.hashes.len(),
        verdict_at(config, level, state, grid, frame, i) is Throttled || verdict_at(
            config,
            level,
            state,
            grid,
            frame,
            i,
        ) is Sent,
    ensures
        ({
            let next = detected(config, level, state, grid, frame);
            &&& next.hashes[i] == cell_full_hash(level, grid, frame.rgba@, i)
            &&& next.memory[i].prev_half_hash == cell_half_hash(level, grid, frame.rgba@, i)
            &&& next.memory[i].unchanged_frames == 0
        }),
{
    reveal(verdict_at);
    reveal(partly_detected);
}

/// A cell that did not change in one frame is not taken for one that keeps
/// changing in the next: it is sent at high quality, at the static rate.
pub proof fn law_idle_cell_is_not_dynamic(
    config: Config,
    level: SimdLevel,
    state: DetectorState,
    grid: Grid,
    frame: Frame,
    next: Frame,
    i: int,
)
    requires
        state.consistent(),
        0 <= i < grid.cells(),
        state.hashes.len() == 0 || grid.cells() <= state.hashes.len(),
        ({
            let v = verdict_at(config, level, state, grid, frame, i);
            v is Unchanged || v is Skipped
        }),
    ensures
        ({
            let after = detected(config, level, state, grid, frame);
            let due = after.frames + 1 - after.memory[i].last_sent_frame >= send_interval(
                config,
                false,
            );
            match verdict_at(config, level, after, grid, next, i) {
                Verdict::Sent { dynamic, .. } => !dynamic && due,
                Verdict::Throttled { .. } => !due,
                _ => true,
            }
        }),
{
    reveal(verdict_at);
    reveal(partly_detected);
}

/// A cell with the verdict that it is to be sent is among those sent.
proof fn lemma_sent_has(
    config: Config,
    level: SimdLevel,
    state: DetectorState,
    grid: Grid,
    frame: Frame,
    n: nat,
    i: int,
)
    requires
        0 <= i < n <= usize::MAX,
        verdict_at(config, level, state, grid, frame, i) is Sent,
    ensures
        sent_cells(config, level, state, grid, frame, n).contains(i as usize),
    decreases n,
{
    let cells = sent_cells(config, level, state, grid, frame, n);
    if i == n - 1 {
        assert(cells.last() == i as usize);
    } else {
        lemma_sent_has(config, level, state, grid, frame, (n - 1) as nat, i);
        let before = sent_cells(config, level, state, grid, frame, (n - 1) as nat);
        let p = choose|p: int| 0 <= p < before.len() && before[p] == i as usize;
        assert(cells[p] == i as usize);
    }
}

/// An invalidated cell is sent with the next frame, at high quality: whether its
/// pixels changed or not, redrawn or not, and whatever its send rate.
pub proof fn law_invalidated_cell_is_sent(
    config: Config,
    level: SimdLevel,
    state: DetectorState,
    grid: Grid,
    frame: Frame,
    indices: Seq<usize>,
    i: int,
)
    requires
        state.consistent(),
        0 < state.hashes.len(),
        0 <= i < grid.cells() <= state.hashes.len(),
        indices.contains(i as usize),
    ensures
        verdict_at(config, level, invalidated(state, indices), grid, frame, i) == (Verdict::Sent {
            hash: cell_full_hash(level, grid, frame.rgba@, i),
            half: cell_half_hash(level, grid, frame.rgba@, i),
            dynamic: false,
        }),
        grid.cells() <= usize::MAX ==> sent_cells(
            config,
            level,
            invalidated(state, indices),
            grid,
            frame,
            grid.cells() as nat,
        ).contains(i as usize),
{
    reveal(verdict_at);
    if grid.cells() <= usize::MAX {
        lemma_sent_has(config, level, invalidated(state, indices), grid, frame, grid.cells() as nat, i);
    }
}

/// After the periodic refresh a cell last sent at low quality is sent with the
/// next frame at high quality, whatever its pixels and its send rate.
pub proof fn law_refreshed_cell_is_sent_at_high_quality(
    config: Config,
    level: SimdLevel,
    state: DetectorState,
    grid: Grid,
    frame: Frame,
    i: int,
)
    requires
        state.consistent(),
        0 < state.hashes.len(),
        0 <= i < grid.cells() <= state.hashes.len(),
        state.memory[i].last_sent_as_dynamic,
    ensures
        verdict_at(config, level, refreshed(state), grid, frame, i) == (Verdict::Sent {
            hash: cell_full_hash(level, grid, frame.rgba@, i),
            half: cell_half_hash(level, grid, frame.rgba@, i),
            dynamic: false,
        }),
        grid.cells() <= usize::MAX ==> sent_cells(
            config,
            level,
            refreshed(state),
            grid,
            frame,
            grid.cells() as nat,
        ).contains(i as usize),
{
    reveal(verdict_at);
    if grid.cells() <= usize::MAX {
        lemma_sent_has(config, level, refreshed(state), grid, frame, grid.cells() as nat, i);
    }
}

/// A forced look lasts for one frame: after it, a cell outside everything
/// redrawn is passed over again.
pub proof fn law_forced_look_lasts_one_frame(
    config: Config,
    level: SimdLevel,
    state: DetectorState,
    grid: Grid,
    frame: Frame,
    next: Frame,
    i: int,
)
    requires
        state.consistent(),
        0 <= i < grid.cells(),
        state.hashes.len() == 0 || grid.cells() <= state.hashes.len(),
        next.damage_regions@.len() > 0,
        !redrawn(next.damage_regions@, grid, i),
    ensures
        verdict_at(config, level, detected(config, level, state, grid, frame), grid, next, i)
            is Skipped,
{
    reveal(verdict_at);
    reveal(partly_detected);
}

/// A sent tile is the tile of its cell, cells come in ascending order, and
/// they are exactly those with a verdict to send.
pub proof fn lemma_sent(
    config: Config,
    level: SimdLevel,
    state: DetectorState,
    grid: Grid,
    frame: Frame,
    n: nat,
)
    requires
        n <= usize::MAX,
    ensures
        sent_tiles(config, level, state, grid, frame, n).len() == sent_cells(
            config,
            level,
            state,
            grid,
            frame,
            n,
        ).len(),
        forall|k: int|
            #![trigger sent_cells(config, level, state, grid, frame, n)[k]]
            #![trigger sent_tiles(config, level, state, grid, frame, n)[k]]
            0 <= k < sent_cells(config, level, state, grid, frame, n).len() ==> {
                let i = sent_cells(config, level, state, grid, frame, n)[k] as int;
                let v = verdict_at(config, level, state, grid, frame, i);
                &&& i < n
                &&& v matches Verdict::Sent { dynamic, .. }
                &&& sent_tiles(config, level, state, grid, frame, n)[k] == cell_tile(
                    config,
                    grid,
                    i,
                    dynamic,
                )
            },
        forall|a: int, b: int|
            0 <= a < b < sent_cells(config, level, state, grid, frame, n).len() ==> #[trigger]
            sent_cells(config, level, state, grid, frame, n)[a] < #[trigger] sent_cells(
                config,
                level,
                state,
                grid,
                frame,
                n,
            )[b],
        forall|i: int|
            0 <= i < n && #[trigger] verdict_at(config, level, state, grid, frame, i) is Sent
                ==> sent_cells(config, level, state, grid, frame, n).contains(i as usize),
    decreases n,
{
    if n > 0 {
        let m = (n - 1) as nat;
        lemma_sent(config, level, state, grid, frame, m);
        let before = sent_cells(config, level, state, grid, frame, m);
        let after = sent_cells(config, level, state, grid, frame, n);
        assert forall|i: int|
            0 <= i < n && #[trigger] verdict_at(
                config,
                level,
                state,
                grid,
                frame,
                i,
            ) is Sent implies after.contains(i as usize) by {
            if i < m {
                assert(before.contains(i as usize));
                let p = choose|p: int| 0 <= p < before.len() && before[p] == i as usize;
                assert(after[p] == i as usize);
            } else {
                assert(after[after.len() - 1] == i as usize);
            }
        }
    }
}

/// Whether a pixel was redrawn in a region.
pub open spec fn region_has(region: DamageRegion, px: int, py: int) -> bool {
    &&& region.x <= px < region.x + region.width
    &&& region.y <= py < region.y + region.height
}

/// Along one axis: a stretch reaches cell `t` where they have a pixel in common, and
/// one that is not empty and starts inside the frame reaches no other.
proof fn lemma_stretch(pos: u32, extent: u32, size: u32, count: u32, frame: int, t: int)
    requires
        1 <= size,
        0 <= t < count,
        (count - 1) * size < frame,
        frame + size <= u32::MAX,
    ensures
        ({
            let stop = if t + 1 < count {
                (t + 1) * size
            } else {
                frame
            };
            let meets = pos < stop && t * size < pos + extent;
            let reached = damage_start(pos, size, count) <= t < damage_end(
                pos,
                extent,
                size,
                count,
            );
            &&& extent >= 1 && meets ==> reached
            &&& extent >= 1 && pos < frame && reached ==> meets
        }),
{
    let (s, p) = (size as int, pos as int);
    lemma_fundamental_div_mod(p, s);
    lemma_mod_bound(p, s);
    let q = p / s;
    assert((t + 1) * s == t * s + s) by (nonlinear_arith);
    assert(q <= t ==> s * q + s <= (t + 1) * s) by (nonlinear_arith)
        requires
            1 <= s,
    ;
    assert(q >= t + 1 ==> s * q >= (t + 1) * s) by (nonlinear_arith)
        requires
            1 <= s,
    ;
    assert(t * s <= (count - 1) * s) by (nonlinear_arith)
        requires
            t <= count - 1,
            1 <= s,
    ;
    let end = smaller(pos + extent, u32::MAX as int);
    let last = smaller(end + size, u32::MAX as int) - 1;
    lemma_fundamental_div_mod(last, s);
    lemma_mod_bound(last, s);
    let e = last / s;
    assert(e >= t + 1 ==> s * e >= (t + 1) * s) by (nonlinear_arith)
        requires
            1 <= s,
    ;
    assert(e <= t ==> s * e + s <= (t + 1) * s) by (nonlinear_arith)
        requires
            1 <= s,
    ;
}

/// A redrawn region reaches every cell that has a pixel in it. One that is not empty
/// and starts inside the frame reaches no other cell.
pub proof fn law_damage_reaches_what_it_touches(
    tiles_x: int,
    frame: Frame,
    region: DamageRegion,
    i: int,
)
    requires
        0 <= tiles_x <= u32::MAX,
        frame.complete(),
        0 <= i < crate::tile::grid_over(tiles_x, frame.width as int, frame.height as int).cells(),
    ensures
        ({
            let grid = crate::tile::grid_over(tiles_x, frame.width as int, frame.height as int);
            let reached = reaches(region, grid, i % grid.tiles_x as int, i / grid.tiles_x as int);
            let touched = exists|px: int, py: int| #[trigger]
                region_has(region, px, py) && crate::tile::cell_has(grid, i, px, py);
            &&& touched ==> reached
            &&& region.width >= 1 && region.height >= 1 && region.x < frame.width && region.y
                < frame.height && reached ==> touched
        }),
{
    let grid = crate::tile::grid_over(tiles_x, frame.width as int, frame.height as int);
    crate::tile::law_grid_fits_the_frame(tiles_x, frame.width as int, frame.height as int);
    let (n, m) = (grid.tiles_x as int, grid.tiles_y as int);
    let (tw, th) = (grid.tile_width as int, grid.tile_height as int);
    let (tx, ty) = (i % n, i / n);
    crate::tile::lemma_cell_row(i, n, m);
    crate::tile::lemma_cell_spans(grid, tx, ty);
    assert(frame.width <= u32::MAX / 4 && frame.height <= u32::MAX / 4) by (nonlinear_arith)
        requires
            frame.width * frame.height * 4 <= u32::MAX,
            1 <= frame.width,
            1 <= frame.height,
    ;
    assert(tw <= n * tw && (n - 1) * tw < n * tw) by (nonlinear_arith)
        requires
            1 <= n,
            1 <= tw,
    ;
    lemma_stretch(region.x, region.width, grid.tile_width, grid.tiles_x, frame.width as int, tx);
    lemma_stretch(region.y, region.height, grid.tile_height, grid.tiles_y, frame.height as int, ty);
    let reached = reaches(region, grid, tx, ty);
    if exists|px: int, py: int| #[trigger]
        region_has(region, px, py) && crate::tile::cell_has(grid, i, px, py) {
        let (px, py) = choose|px: int, py: int| #[trigger]
            region_has(region, px, py) && crate::tile::cell_has(grid, i, px, py);
        assert(reached);
    }
    if region.width >= 1 && region.height >= 1 && region.x < frame.width && region.y < frame.height
        && reached {
        let px = if region.x < tx * tw {
            tx * tw
        } else {
            region.x as int
        };
        let py = if region.y < ty * th {
            ty * th
        } else {
            region.y as int
        };
        assert(region_has(region, px, py) && crate::tile::cell_has(grid, i, px, py));
    }
}

/// A cell with a pixel in a redrawn region is looked at. A cell that was seen before
/// and that no region touches is passed over, unless a look at it is forced.
pub proof fn law_damaged_cells_are_looked_at(
    config: Config,
    level: SimdLevel,
    state: DetectorState,
    frame: Frame,
    i: int,
)
    requires
        frame.complete(),
        0 <= i < crate::tile::grid_over(
            config.tiles_x as int,
            frame.width as int,
            frame.height as int,
        ).cells(),
    ensures
        ({
            let grid = crate::tile::grid_over(
                config.tiles_x as int,
                frame.width as int,
                frame.height as int,
            );
            let skipped = verdict_at(config, level, state, grid, frame, i) is Skipped;
            &&& frame.damage_regions@.len() == 0 ==> !skipped
            &&& state.hashes.len() == 0 ==> !skipped
            &&& state.hashes.len() > 0 && state.forced[i] ==> !skipped
            &&& forall|r: int, px: int, py: int|
                0 <= r < frame.damage_regions@.len() && #[trigger] region_has(
                    frame.damage_regions@[r],
                    px,
                    py,
                ) && crate::tile::cell_has(grid, i, px, py) ==> !skipped
            &&& state.hashes.len() > 0 && !state.forced[i] && frame.damage_regions@.len() > 0 && (
            forall|r: int|
                0 <= r < frame.damage_regions@.len() ==> {
                    let region = #[trigger] frame.damage_regions@[r];
                    &&& region.width >= 1 && region.height >= 1
                    &&& region.x < frame.width && region.y < frame.height
                    &&& forall|px: int, py: int| #[trigger]
                        region_has(region, px, py) ==> !crate::tile::cell_has(grid, i, px, py)
                }) ==> skipped
        }),
{
    reveal(verdict_at);
    let tiles_x = config.tiles_x as int;
    let grid = crate::tile::grid_over(tiles_x, frame.width as int, frame.height as int);
    let regions = frame.damage_regions@;
    assert forall|r: int, px: int, py: int|
        0 <= r < regions.len() && #[trigger] region_has(regions[r], px, py)
            && crate::tile::cell_has(grid, i, px, py) implies redrawn(regions, grid, i) by {
        law_damage_reaches_what_it_touches(tiles_x, frame, regions[r], i);
    }
    if redrawn(regions, grid, i) {
        let r = choose|r: int|
            0 <= r < regions.len() && #[trigger] reaches(
                regions[r],
                grid,
                i % grid.tiles_x as int,
                i / grid.tiles_x as int,
            );
        law_damage_reaches_what_it_touches(tiles_x, frame, regions[r], i);
    }
}

/// Of a cell that was seen before and is looked at, without force, on account of both
/// its hashes having changed: it is sent at once where it begins to keep changing,
/// and else where so many frames have passed since it was last sent that sending at
/// that pace keeps to the rate set for it; otherwise it is held back. A cell keeps
/// changing that was sent before and changed in the last frame too.
pub proof fn law_changed_cells_keep_to_their_rate(
    config: Config,
    level: SimdLevel,
    state: DetectorState,
    grid: Grid,
    frame: Frame,
    i: int,
)
    requires
        state.consistent(),
        0 <= i < grid.cells() <= state.hashes.len(),
        !state.forced[i],
        verdict_at(config, level, state, grid, frame, i) !is Skipped,
        cell_half_hash(level, grid, frame.rgba@, i) != state.memory[i].prev_half_hash,
        cell_full_hash(level, grid, frame.rgba@, i) != state.hashes[i],
        config.target_fps@ >= 1,
        config.static_tile_fps@ >= 1,
        config.dynamic_tile_fps@ >= 1,
    ensures
        ({
            let memory = state.memory[i];
            let keeps = memory.last_sent_frame > 0 && state.older[i] != state.hashes[i];
            let since = state.frames + 1 - memory.last_sent_frame;
            let rate = if keeps {
                config.dynamic_tile_fps@
            } else {
                config.static_tile_fps@
            };
            let due = (since + 1) * rate > config.target_fps@;
            match verdict_at(config, level, state, grid, frame, i) {
                Verdict::Sent { dynamic, .. } => dynamic == keeps && (due || (keeps
                    && !memory.last_sent_as_dynamic)),
                Verdict::Throttled { .. } => !due && !(keeps && !memory.last_sent_as_dynamic),
                _ => false,
            }
        }),
{
    reveal(verdict_at);
    let memory = state.memory[i];
    let keeps = memory.last_sent_frame > 0 && state.older[i] != state.hashes[i];
    let since: int = state.frames + 1 - memory.last_sent_frame;
    let t = config.target_fps@ as int;
    let rate = (if keeps {
        config.dynamic_tile_fps@
    } else {
        config.static_tile_fps@
    }) as int;
    lemma_fundamental_div_mod(t, rate);
    lemma_mod_bound(t, rate);
    let interval = t / rate;
    assert(since >= interval <==> (since + 1) * rate > t) by (nonlinear_arith)
        requires
            t == rate * interval + t % rate,
            0 <= t % rate,
            t % rate < rate,
            1 <= rate,
    ;
}

/// A cell is found unchanged only where one of its hashes says so, and then it is not
/// sent; nothing is found unchanged on a first frame or under force.
pub proof fn law_unchanged_means_the_same_hash(
    config: Config,
    level: SimdLevel,
    state: DetectorState,
    grid: Grid,
    frame: Frame,
    i: int,
)
    requires
        state.consistent(),
        0 <= i < grid.cells(),
        state.hashes.len() == 0 || grid.cells() <= state.hashes.len(),
        verdict_at(config, level, state, grid, frame, i) is Unchanged,
    ensures
        state.hashes.len() > 0,
        !state.forced[i],
        cell_half_hash(level, grid, frame.rgba@, i) == state.memory[i].prev_half_hash
            || cell_full_hash(level, grid, frame.rgba@, i) == state.hashes[i],
{
    reveal(verdict_at);
}

/// What a frame leaves behind of one of its cells. Sent, it is remembered as sent in
/// this frame, at the quality it was sent at, and as changed; held back, as changed
/// only; otherwise as unchanged for one more frame. The bits in which the hash
/// changed are those that differ between the old one and the new one.
pub proof fn law_what_is_remembered_of_a_cell(
    config: Config,
    level: SimdLevel,
    state: DetectorState,
    grid: Grid,
    frame: Frame,
    i: int,
)
    requires
        state.consistent(),
        state.frames < u64::MAX,
        0 <= i < grid.cells(),
        0 < state.hashes.len(),
        grid.cells() <= state.hashes.len(),
        0 < state.memory[i].history_limit,
    ensures
        ({
            let next = detected(config, level, state, grid, frame);
            let (before, after) = (state.memory[i], next.memory[i]);
            let v = verdict_at(config, level, state, grid, frame, i);
            let changed = v is Sent || v is Throttled;
            &&& next.frames == state.frames + 1
            &&& next.older[i] == state.hashes[i]
            &&& after.history.len() > 0 && after.history.last() == changed
            &&& !changed ==> {
                &&& next.hashes[i] == state.hashes[i]
                &&& after.prev_half_hash == before.prev_half_hash
                &&& after.last_hash_diff == before.last_hash_diff
                &&& before.unchanged_frames < u32::MAX ==> after.unchanged_frames
                    == before.unchanged_frames + 1
            }
            &&& changed ==> {
                &&& after.unchanged_frames == 0
                &&& after.last_hash_diff == state.hashes[i] ^ next.hashes[i]
            }
            &&& v matches Verdict::Sent { dynamic, .. } ==> {
                &&& after.last_sent_frame == next.frames
                &&& after.last_sent_as_dynamic == dynamic
                &&& after.is_dynamic == dynamic
            }
            &&& v !is Sent ==> {
                &&& after.last_sent_frame == before.last_sent_frame
                &&& after.last_sent_as_dynamic == before.last_sent_as_dynamic
            }
            &&& after.cached_encoded == before.cached_encoded
            &&& after.cached_hash == before.cached_hash
            &&& !next.forced[i]
        }),
{
    reveal(verdict_at);
    reveal(partly_detected);
}

/// The tile of a cell that is sent has just the cell's pixels, and its quality is the
/// high one, unless the cell keeps changing.
pub proof fn law_sent_tile_is_its_cell(
    config: Config,
    grid: Grid,
    i: int,
    dynamic: bool,
    px: int,
    py: int,
)
    requires
        grid.well_formed(),
        0 <= i < grid.cells(),
    ensures
        crate::tile::tile_has(cell_tile(config, grid, i, dynamic), px, py)
            <==> crate::tile::cell_has(grid, i, px, py),
        dynamic ==> cell_tile(config, grid, i, dynamic).quality == config.webp_quality_low,
        !dynamic ==> cell_tile(config, grid, i, dynamic).quality == config.webp_quality_high,
{
    crate::tile::lemma_cell_row(i, grid.tiles_x as int, grid.tiles_y as int);
    crate::tile::lemma_cell_spans(
        grid,
        i % grid.tiles_x as int,
        i / grid.tiles_x as int,
    );
}

/// One byte of one pixel changed since a frame in which its cell was looked at, in the
/// first row of the cell or every second one after it, and the cell is looked at
/// again: the change is found, in two lanes and in four.
pub proof fn law_changed_pixel_is_found(
    config: Config,
    level: SimdLevel,
    state: DetectorState,
    grid: Grid,
    frame: Frame,
    next: Frame,
    i: int,
    px: int,
    py: int,
    channel: int,
    value: u8,
)
    requires
        level != SimdLevel::Scalar,
        state.consistent(),
        grid.well_formed(),
        frame.complete(),
        grid.frame_width == frame.width,
        grid.frame_height == frame.height,
        0 <= i < grid.cells(),
        state.hashes.len() == 0 || grid.cells() <= state.hashes.len(),
        verdict_at(config, level, state, grid, frame, i) is Sent || verdict_at(
            config,
            level,
            state,
            grid,
            frame,
            i,
        ) is Throttled,
        crate::tile::cell_has(grid, i, px, py),
        (py - grid.rect_of(i).1) % 2 == 0,
        0 <= channel < 4,
        value != frame.rgba@[(py * frame.width + px) * 4 + channel],
        next.rgba@ == frame.rgba@.update((py * frame.width + px) * 4 + channel, value),
        verdict_at(config, level, detected(config, level, state, grid, frame), grid, next, i)
            !is Skipped,
    ensures
        ({
            let v = verdict_at(
                config,
                level,
                detected(config, level, state, grid, frame),
                grid,
                next,
                i,
            );
            v is Sent || v is Throttled
        }),
{
    let (x, y, w, h) = grid.rect_of(i);
    let stride = grid.frame_width as int;
    let n = grid.tiles_x as int;
    crate::tile::lemma_cell_row(i, n, grid.tiles_y as int);
    crate::tile::lemma_cell_spans(grid, i % n, i / n);
    assert(((y + h - 1) * stride + x + w) * 4 <= frame.rgba@.len()) by {
        assert((y + h - 1) * stride + stride <= frame.height * stride) by (nonlinear_arith)
            requires
                y + h <= frame.height,
                1 <= stride,
        ;
        assert(frame.height * stride == frame.width * frame.height) by (nonlinear_arith)
            requires
                stride == frame.width,
        ;
    }
    assert((y + (py - y)) * stride + x + (px - x) == py * frame.width + px);
    law_changed_pixel_changes_the_tile_hash(
        level,
        frame.rgba@,
        x,
        y,
        w,
        h,
        stride,
        px - x,
        py - y,
        channel,
        value,
    );
    law_changed_cell_advances(config, level, state, grid, frame, i);
    reveal(verdict_at);
    reveal(partly_detected);
}

/// The cells that are sent are those with that verdict, each once and in the grid's
/// order, and beside each stands its tile.
pub proof fn law_sent_cells_are_those_found_due(
    config: Config,
    level: SimdLevel,
    state: DetectorState,
    grid: Grid,
    frame: Frame,
    n: nat,
    i: int,
)
    requires
        n <= usize::MAX,
        0 <= i < n,
    ensures
        ({
            let cells = sent_cells(config, level, state, grid, frame, n);
            let tiles = sent_tiles(config, level, state, grid, frame, n);
            let due = verdict_at(config, level, state, grid, frame, i) is Sent;
            &&& tiles.len() == cells.len()
            &&& cells.contains(i as usize) <==> due
            &&& forall|a: int, b: int| 0 <= a < b < cells.len() ==> cells[a] < cells[b]
            &&& forall|a: int| 0 <= a < cells.len() ==> #[trigger] cells[a] < n
            &&& forall|a: int|
                0 <= a < cells.len() && #[trigger] cells[a] == i ==> exists|dynamic: bool|
                    tiles[a] == #[trigger] cell_tile(config, grid, i, dynamic)
        }),
    decreases n,
{
    let m = (n - 1) as nat;
    let before = sent_cells(config, level, state, grid, frame, m);
    let cells = sent_cells(config, level, state, grid, frame, n);
    let tiles = sent_tiles(config, level, state, grid, frame, n);
    if m > 0 {
        let j = if i < m {
            i
        } else {
            0
        };
        law_sent_cells_are_those_found_due(config, level, state, grid, frame, m, j);
    } else {
        assert(before.len() == 0);
        assert(sent_tiles(config, level, state, grid, frame, m).len() == 0);
    }
    let v = verdict_at(config, level, state, grid, frame, m as int);
    if v is Sent {
        assert(cells[before.len() as int] == m as usize);
        assert(before.contains(i as usize) ==> cells.contains(i as usize)) by {
            if before.contains(i as usize) {
                let k = choose|k: int| 0 <= k < before.len() && before[k] == i as usize;
                assert(cells[k] == i as usize);
            }
        }
    }
    assert forall|a: int| 0 <= a < cells.len() && #[trigger] cells[a] == i implies exists|
        dynamic: bool,
    | tiles[a] == #[trigger] cell_tile(config, grid, i, dynamic) by {
        if a < before.len() {
            assert(before[a] == cells[a]);
            assert(tiles[a] == sent_tiles(config, level, state, grid, frame, m)[a]);
        } else {
            match v {
                Verdict::Sent { dynamic, .. } => {
                    assert(tiles[a] == cell_tile(config, grid, i, dynamic));
                },
                _ => {},
            }
        }
    }
}

/// What one more cell adds to the counts of a frame. A frame starts from nothing but the
/// number of its redrawn regions.
pub proof fn law_each_cell_is_counted_by_its_verdict(
    config: Config,
    level: SimdLevel,
    state: DetectorState,
    grid: Grid,
    frame: Frame,
    n: nat,
)
    requires
        n < u64::MAX,
        frame.damage_regions@.len() <= u64::MAX,
    ensures
        ({
            let none = frame_counts(config, level, state, grid, frame, 0);
            let c = frame_counts(config, level, state, grid, frame, n);
            let d = frame_counts(config, level, state, grid, frame, n + 1);
            let v = verdict_at(config, level, state, grid, frame, n as int);
            &&& none.damage_regions == frame.damage_regions@.len()
            &&& none.cells == 0 && none.damage_skipped == 0 && none.half_skipped == 0
            &&& none.throttled == 0 && none.dynamic_sent == 0 && none.static_sent == 0
            &&& none.sent == 0
            &&& d.cells == c.cells + 1
            &&& d.damage_regions == c.damage_regions
            &&& d.damage_skipped == c.damage_skipped + if v is Skipped {
                1int
            } else {
                0
            }
            &&& d.half_skipped == c.half_skipped + if v == (Verdict::Unchanged { by_half: true }) {
                1int
            } else {
                0
            }
            &&& d.throttled == c.throttled + if v is Throttled {
                1int
            } else {
                0
            }
            &&& d.sent == c.sent + if v is Sent {
                1int
            } else {
                0
            }
            &&& d.dynamic_sent == c.dynamic_sent + if v is Sent && v->Sent_dynamic {
                1int
            } else {
                0
            }
            &&& d.static_sent == c.static_sent + if v is Sent && !v->Sent_dynamic {
                1int
            } else {
                0
            }
        }),
{
    law_counts_add_up(config, level, state, grid, frame, n);
}

/// The totals grow by what the last frame counted, from zero where the totals were
/// reported, and the last frame's counts are at hand.
pub proof fn law_totals_grow_until_reported(s: Statistics, reported: bool, last: FrameCounts)
    requires
        s.skipped_hashes + last.half_skipped <= u64::MAX,
        s.total_hashes + last.cells <= u64::MAX,
    ensures
        ({
            let t = statistics_after(s, reported, last);
            &&& t.last == last
            &&& reported ==> t.skipped_hashes == last.half_skipped && t.total_hashes == last.cells
            &&& !reported ==> t.skipped_hashes == s.skipped_hashes + last.half_skipped
            &&& !reported ==> t.total_hashes == s.total_hashes + last.cells
        }),
{
}

/// Statistics are reported in debug mode only, and then with every hundredth frame.
pub proof fn law_reports_are_evenly_spaced(config: Config, frames: nat)
    ensures
        !config.debug_mode ==> !reports(config, frames),
        !reports(config, 0),
        config.debug_mode ==> reports(config, (frames + 1) * 100),
        reports(config, frames) ==> exists|k: nat| frames == #[trigger] (k * 100) && k >= 1,
{
    assert((frames + 1) * 100 > 0 && ((frames + 1) * 100) % 100 == 0) by (
    nonlinear_arith);
    if reports(config, frames) {
        let k = frames / 100;
        assert(frames == k * 100);
    }
}

/// Invalidated cells lose what was kept of them; all others keep everything.
pub proof fn law_invalidation_leaves_others_alone(state: DetectorState, indices: Seq<usize>, i: int)
    requires
        state.parallel(),
        0 <= i < state.hashes.len(),
        i <= usize::MAX,
    ensures
        ({
            let after = invalidated(state, indices);
            &&& after.frames == state.frames
            &&& after.hashes.len() == state.hashes.len()
            &&& !indices.contains(i as usize) ==> {
                &&& after.hashes[i] == state.hashes[i]
                &&& after.older[i] == state.older[i]
                &&& after.memory[i] == state.memory[i]
                &&& after.forced[i] == state.forced[i]
            }
            &&& indices.contains(i as usize) ==> {
                &&& after.forced[i]
                &&& after.memory[i].cached_encoded is None
                &&& after.memory[i].last_sent_frame == 0
                &&& after.memory[i].history == state.memory[i].history
            }
        }),
{
}

/// A refresh drops all bytes kept. It forces a look at the cells last sent while they kept
/// changing; of the others nothing else changes.
pub proof fn law_refresh_looks_at_moving_cells_only(state: DetectorState, i: int)
    requires
        state.parallel(),
        0 <= i < state.hashes.len(),
    ensures
        ({
            let after = refreshed(state);
            &&& after.frames == state.frames
            &&& after.hashes.len() == state.hashes.len()
            &&& after.memory[i].cached_encoded is None
            &&& after.forced[i] == (state.forced[i] || state.memory[i].last_sent_as_dynamic)
            &&& after.memory[i].history == state.memory[i].history
            &&& !state.memory[i].last_sent_as_dynamic ==> {
                &&& after.hashes[i] == state.hashes[i]
                &&& after.older[i] == state.older[i]
                &&& after.memory[i].last_sent_frame == state.memory[i].last_sent_frame
                &&& after.memory[i].prev_half_hash == state.memory[i].prev_half_hash
            }
        }),
{
}

/// A first frame finds every cell changed from nothing: each is sent at the high quality, is
/// remembered as sent in that frame, and has one mark, for the change.
pub proof fn law_first_frame_is_remembered(
    config: Config,
    level: SimdLevel,
    state: DetectorState,
    grid: Grid,
    frame: Frame,
    i: int,
)
    requires
        state.hashes.len() == 0,
        state.frames < u64::MAX,
        0 <= i < grid.cells(),
    ensures
        ({
            let next = detected(config, level, state, grid, frame);
            let v = verdict_at(config, level, state, grid, frame, i);
            &&& v is Sent && !v->Sent_dynamic
            &&& next.hashes.len() == grid.cells()
            &&& next.hashes[i] == cell_full_hash(level, grid, frame.rgba@, i)
            &&& next.older[i] == 0
            &&& next.memory[i].last_sent_frame == state.frames + 1
            &&& next.memory[i].history == seq![true]
            &&& next.memory[i].cached_encoded is None
            &&& !next.memory[i].last_sent_as_dynamic
        }),
{
    reveal(verdict_at);
    reveal(partly_detected);
    let next = detected(config, level, state, grid, frame);
    assert(next.memory[i].history =~= seq![true]);
}

} // verus!
