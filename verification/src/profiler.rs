//! One frame through every stage of the pipeline, with the pipeline's own cache:
//! it serves tiles of a single cell, from the bytes kept for that cell. How long
//! a stage takes is measured elsewhere.

use crate::capture::DamageRegion;
use crate::config::Config;
use crate::diff::{
    detected, fresh_state, lemma_sent, sent_cells, sent_tiles, DetectorState, DiffDetector,
};
use crate::encoder::TileMerger;
use crate::frame::Frame;
use crate::pipeline::{
    by_score, cache_serves, cut_out, in_order, lemma_ordered, lemma_pixels_inside, lemma_placed,
    merge_changed, merged_from, merges, ordered, placed, score_tiles, scored, EncodingTask,
};
use crate::tile::{
    covers_one_cell, grid_over, index_of_tile, CellMemory, Grid, Tile, TileMetadata,
};
use crate::tile_hash::{content_hash, hash_tile_with, tile_pixels, SimdLevel};
use vstd::prelude::*;

verus! {

/// The pixels of a tile.
pub open spec fn pixels_of(rgba: Seq<u8>, tile: Tile, frame_width: int) -> Seq<u8> {
    tile_pixels(
        rgba,
        tile.x as int,
        tile.y as int,
        tile.width as int,
        tile.height as int,
        frame_width,
    )
}

/// The hash of a tile's pixels.
pub open spec fn hash_of(level: SimdLevel, rgba: Seq<u8>, tile: Tile, frame_width: int) -> u64 {
    content_hash(level, pixels_of(rgba, tile, frame_width))
}

/// The bytes that are kept for a tile: it has to be a single cell, whose content
/// is the one they were encoded from.
pub open spec fn kept_for(memory: Seq<CellMemory>, tile: Tile, grid: Grid, hash: u64) -> Option<Seq<u8>> {
    let i = index_of_tile(tile, grid);
    if cache_serves(memory[i], tile, grid, hash) {
        memory[i].cached_encoded
    } else {
        None
    }
}

/// The bytes that are kept for each tile of a frame, given the tiles' hashes.
pub open spec fn kept_for_all(
    memory: Seq<CellMemory>,
    tiles: Seq<Tile>,
    grid: Grid,
    hashes: Seq<u64>,
) -> Seq<Option<Seq<u8>>> {
    Seq::new(tiles.len(), |k: int| kept_for(memory, tiles[k], grid, hashes[k]))
}

/// Bytes, where there are any, as a value.
pub open spec fn as_bytes(found: Option<Vec<u8>>) -> Option<Seq<u8>> {
    match found {
        Some(b) => Some(b@),
        None => None,
    }
}

/// What was found, as values.
pub open spec fn found_values(found: Seq<Option<Vec<u8>>>) -> Seq<Option<Seq<u8>>> {
    found.map_values(|f: Option<Vec<u8>>| as_bytes(f))
}

/// A frame that went through the stages up to the encoder.
pub struct Profiled {
    /// How many cells are to be sent.
    pub tiles_detected: usize,
    /// The merged tiles, highest priority first.
    pub tiles: Vec<Tile>,
    /// The cell of each tile's corner.
    pub tile_indices: Vec<usize>,
    /// The hash of each tile's pixels.
    pub tile_hashes: Vec<u64>,
    /// Whether each tile covers one cell only.
    pub single_cell: Vec<bool>,
    /// The bytes of each tile, from the cache or empty.
    pub encoded: Vec<Vec<u8>>,
    /// The tiles that are to be encoded, numbered by their place.
    pub tasks: Vec<EncodingTask>,
    pub cache_hits: usize,
}

/// How many of the first `n` tiles something was found for.
pub open spec fn hits(found: Seq<Option<Seq<u8>>>, n: nat) -> nat
    decreases n,
{
    if n == 0 {
        0
    } else {
        hits(found, (n - 1) as nat) + if found[n - 1] is Some {
            1nat
        } else {
            0nat
        }
    }
}

/// What is to be encoded of the first `n` tiles: those that nothing was found
/// for, with their pixels and their place.
pub open spec fn to_encode(
    rgba: Seq<u8>,
    tiles: Seq<Tile>,
    frame_width: int,
    found: Seq<Option<Seq<u8>>>,
    n: nat,
) -> Seq<(Tile, Seq<u8>, usize)>
    decreases n,
{
    if n == 0 {
        Seq::empty()
    } else {
        let before = to_encode(rgba, tiles, frame_width, found, (n - 1) as nat);
        let t = tiles[n - 1];
        if found[n - 1] is Some {
            before
        } else {
            before.push((t, pixels_of(rgba, t, frame_width), (n - 1) as usize))
        }
    }
}

/// Tasks as values.
pub open spec fn task_values(tasks: Seq<EncodingTask>) -> Seq<(Tile, Seq<u8>, usize)> {
    tasks.map_values(|t: EncodingTask| (t.tile, t.tile_data@, t.tile_idx))
}

/// Bytes, or no bytes at all.
pub open spec fn bytes_or_none(bytes: Option<Seq<u8>>) -> Seq<u8> {
    match bytes {
        Some(b) => b,
        None => Seq::empty(),
    }
}

/// Whether these are the hashes of the tiles' pixels.
pub open spec fn hashed(
    level: SimdLevel,
    rgba: Seq<u8>,
    tiles: Seq<Tile>,
    frame_width: int,
    hashes: Seq<u64>,
) -> bool {
    &&& hashes.len() == tiles.len()
    &&& forall|k: int|
        0 <= k < hashes.len() ==> #[trigger] hashes[k] == hash_of(
            level,
            rgba,
            tiles[k],
            frame_width,
        )
}

/// Whether everything was looked up that follows from the tiles and the cache.
pub open spec fn looked_up(
    level: SimdLevel,
    memory: Seq<CellMemory>,
    rgba: Seq<u8>,
    grid: Grid,
    p: Profiled,
) -> bool {
    let n = p.tiles@.len();
    let found = kept_for_all(memory, p.tiles@, grid, p.tile_hashes@);
    &&& p.tile_indices@.len() == n
    &&& p.single_cell@.len() == n
    &&& p.encoded@.len() == n
    &&& forall|k: int|
        0 <= k < n ==> #[trigger] p.tile_indices@[k] == index_of_tile(p.tiles@[k], grid)
    &&& hashed(level, rgba, p.tiles@, grid.frame_width as int, p.tile_hashes@)
    &&& forall|k: int|
        0 <= k < n ==> #[trigger] p.single_cell@[k] == covers_one_cell(p.tiles@[k], grid)
    &&& forall|k: int| 0 <= k < n ==> (#[trigger] p.encoded@[k])@ == bytes_or_none(found[k])
    &&& task_values(p.tasks@) == to_encode(rgba, p.tiles@, grid.frame_width as int, found, n)
    &&& p.cache_hits == hits(found, n)
}

/// What the cells remember once the first `n` tiles' bytes are kept: those of a
/// tile that covers one cell.
pub open spec fn remembered(memory: Seq<CellMemory>, p: Profiled, n: nat) -> Seq<CellMemory>
    decreases n,
{
    if n == 0 {
        memory
    } else {
        let before = remembered(memory, p, (n - 1) as nat);
        let i = p.tile_indices@[n - 1] as int;
        if p.single_cell@[n - 1] && p.encoded@[n - 1]@.len() > 0 && i < memory.len() {
            before.update(
                i,
                CellMemory {
                    cached_encoded: Some(p.encoded@[n - 1]@),
                    cached_hash: p.tile_hashes@[n - 1],
                    ..before[i]
                },
            )
        } else {
            before
        }
    }
}

proof fn lemma_remembered(memory: Seq<CellMemory>, p: Profiled, n: nat)
    ensures
        remembered(memory, p, n).len() == memory.len(),
        forall|i: int|
            0 <= i < memory.len() ==> (#[trigger] remembered(memory, p, n)[i]).last_sent_frame
                == memory[i].last_sent_frame,
    decreases n,
{
    if n > 0 {
        lemma_remembered(memory, p, (n - 1) as nat);
    }
}

/// Whether bytes make a whole frame of this size, with sides of sixteen bits.
pub open spec fn fills(rgba: Seq<u8>, width: u32, height: u32) -> bool {
    &&& 1 <= width <= 0xffff
    &&& 1 <= height <= 0xffff
    &&& width * height * 4 <= u32::MAX
    &&& width * height * 4 <= rgba.len()
}

/// Takes frames of one size through the pipeline.
pub struct FrameProfiler {
    diff_detector: DiffDetector,
    tile_merger: TileMerger,
    grid: Grid,
    width: u32,
    height: u32,
}

impl View for FrameProfiler {
    type V = DetectorState;

    closed spec fn view(&self) -> DetectorState {
        self.diff_detector@
    }
}

impl FrameProfiler {
    pub closed spec fn settings(&self) -> Config {
        self.diff_detector.settings()
    }

    pub closed spec fn hash_level(&self) -> SimdLevel {
        self.diff_detector.hash_level()
    }

    pub closed spec fn gap(&self) -> int {
        self.tile_merger.gap()
    }

    pub closed spec fn size(&self) -> (u32, u32) {
        (self.width, self.height)
    }

    /// The grid that frames are cut into.
    pub open spec fn grid(&self) -> Grid {
        grid_over(self.settings().tiles_x as int, self.size().0 as int, self.size().1 as int)
    }

    /// Whether the detector knows this grid, or none yet.
    pub closed spec fn well_formed(&self) -> bool {
        &&& self.diff_detector@.consistent()
        &&& self.grid == self.grid()
        &&& self.grid.well_formed()
        &&& self.grid.tiles_x <= self.width
        &&& self.grid.tiles_y <= self.height
        &&& self.diff_detector@.hashes.len() == 0 || self.diff_detector@.hashes.len()
            == self.grid.cells()
    }

    /// Whether two profilers are set up alike.
    pub open spec fn same_setup(&self, other: &FrameProfiler) -> bool {
        &&& self.settings() == other.settings()
        &&& self.hash_level() == other.hash_level()
        &&& self.gap() == other.gap()
        &&& self.size() == other.size()
    }

    /// A profiler that has seen nothing.
    pub fn new(config: Config, level: SimdLevel, width: u32, height: u32) -> (p: Self)
        requires
            1 <= width,
            1 <= height,
        ensures
            p.well_formed(),
            p@ == fresh_state(),
            p.settings() == config,
            p.hash_level() == level,
            p.gap() == config.merge_gap,
            p.size() == (width, height),
    {
        let grid: Grid = Grid::new(config.tiles_x, width, height);
        let tile_merger: TileMerger = TileMerger::new(config.merge_gap);
        FrameProfiler {
            diff_detector: DiffDetector::with_level(config, level),
            tile_merger,
            grid,
            width,
            height,
        }
    }

    /// The bytes that the cache has for a single cell with this content.
    fn cached(&self, index: usize, hash: u64) -> (bytes: Option<Vec<u8>>)
        requires
            index < self@.memory.len(),
        ensures
            match bytes {
                Some(b) => self@.memory[index as int].cached_hash == hash
                    && self@.memory[index as int].cached_encoded == Some(b@),
                None => self@.memory[index as int].cached_hash != hash
                    || self@.memory[index as int].cached_encoded is None,
            },
    {
        let metadata: &TileMetadata = self.diff_detector.get_metadata(index);
        if metadata.cached_hash == hash {
            if let Some(bytes) = &metadata.cached_encoded {
                let copy: Vec<u8> = bytes.clone();
                assert(copy@ =~= bytes@);
                return Some(copy);
            }
        }
        None
    }

    /// Whether the frames have sides of sixteen bits.
    pub open spec fn small(&self) -> bool {
        self.size().0 <= 0xffff && self.size().1 <= 0xffff
    }

    /// Whether tiles lie in the grid.
    pub open spec fn all_placed(&self, tiles: Seq<Tile>) -> bool {
        forall|k: int| 0 <= k < tiles.len() ==> placed(#[trigger] tiles[k], self.grid())
    }

    /// Whether a frame is one of this profiler's.
    pub open spec fn takes(&self, frame: Frame) -> bool {
        &&& frame.streamable()
        &&& frame.width == self.size().0
        &&& frame.height == self.size().1
    }

    proof fn lemma_few_cells(&self)
        requires
            self.well_formed(),
            self.small(),
        ensures
            self.grid().cells() <= u32::MAX,
    {
        assert(self.grid.tiles_x * self.grid.tiles_y <= 0xffff * 0xffff) by (nonlinear_arith)
            requires
                0 <= self.grid.tiles_x <= 0xffff,
                0 <= self.grid.tiles_y <= 0xffff,
        ;
    }

    /// A frame of these pixels, with no damage reported.
    pub fn frame(&self, rgba: Vec<u8>) -> (frame: Frame)
        requires
            fills(rgba@, self.size().0, self.size().1),
        ensures
            self.takes(frame),
            frame.rgba == rgba,
            frame.damage_regions@.len() == 0,
    {
        let none: Vec<DamageRegion> = Vec::new();
        Frame::new(rgba, self.width, self.height, none)
    }

    /// Finds the cells to send.
    pub fn detect(&mut self, frame: &Frame) -> (changed: Vec<Tile>)
        requires
            old(self).well_formed(),
            old(self)@.frames < u64::MAX,
            old(self).takes(*frame),
        ensures
            final(self).well_formed(),
            final(self).same_setup(old(self)),
            final(self)@ == detected(
                old(self).settings(),
                old(self).hash_level(),
                old(self)@,
                old(self).grid(),
                *frame,
            ),
            final(self)@.memory.len() == final(self).grid().cells(),
            changed@ == sent_tiles(
                old(self).settings(),
                old(self).hash_level(),
                old(self)@,
                old(self).grid(),
                *frame,
                old(self).grid().cells() as nat,
            ),
            changed@.len() == sent_cells(
                old(self).settings(),
                old(self).hash_level(),
                old(self)@,
                old(self).grid(),
                *frame,
                old(self).grid().cells() as nat,
            ).len(),
    {
        proof {
            self.lemma_few_cells();
            lemma_sent(
                self.settings(),
                self.hash_level(),
                self@,
                self.grid(),
                *frame,
                self.grid().cells() as nat,
            );
        }
        let (changed, _cells): (Vec<Tile>, Vec<usize>) = self.diff_detector.detect_changes(frame);
        changed
    }

    /// Merges changed tiles.
    pub fn merge(&self, changed: &Vec<Tile>) -> (merged: Vec<Tile>)
        requires
            self.well_formed(),
            self.small(),
        ensures
            merges(self.gap(), self.grid(), changed@, merged@),
            self.all_placed(merged@),
            changed@.len() == 0 ==> merged@.len() == 0,
            self.gap() >= 0,
    {
        proof {
            self.lemma_few_cells();
            self.tile_merger.lemma_gap();
        }
        merge_changed(&self.tile_merger, &self.grid, changed)
    }

    /// The score of each merged tile.
    pub fn scores(&self, merged: &Vec<Tile>) -> (scores: Vec<i128>)
        requires
            self.well_formed(),
            self.small(),
            self.grid().cells() <= self@.memory.len(),
            self.all_placed(merged@),
        ensures
            scored(self.settings(), self@, self.grid(), merged@, scores@),
    {
        proof {
            self.lemma_few_cells();
        }
        score_tiles(&self.diff_detector, merged, &self.grid)
    }

    /// Merged tiles in the order of their scores, highest first.
    pub fn sort(merged: &Vec<Tile>, scores: &Vec<i128>) -> (tiles: Vec<Tile>)
        requires
            scores@.len() == merged@.len(),
        ensures
            ordered(merged@, scores@, tiles@),
    {
        in_order(merged, scores)
    }

    /// The hash of each tile's pixels, at the profiler's own level.
    pub fn hash_tiles(&self, frame: &Frame, tiles: &Vec<Tile>) -> (hashes: Vec<u64>)
        requires
            self.well_formed(),
            self.takes(*frame),
            self.all_placed(tiles@),
        ensures
            hashed(self.hash_level(), frame.rgba@, tiles@, frame.width as int, hashes@),
    {
        let mut hashes: Vec<u64> = Vec::new();
        let mut k: usize = 0;
        while k < tiles.len()
            invariant
                k <= tiles@.len(),
                self.well_formed(),
                self.takes(*frame),
                self.all_placed(tiles@),
                hashes@.len() == k,
                forall|j: int|
                    0 <= j < k ==> #[trigger] hashes@[j] == hash_of(
                        self.hash_level(),
                        frame.rgba@,
                        tiles@[j],
                        frame.width as int,
                    ),
            decreases tiles@.len() - k,
        {
            let tile: Tile = tiles[k];
            proof {
                assert(placed(tiles@[k as int], self.grid()));
                lemma_pixels_inside(*frame, tile);
            }
            let hash: u64 = hash_tile_with(
                self.diff_detector.level(),
                frame.rgba.as_slice(),
                tile.x,
                tile.y,
                tile.width,
                tile.height,
                frame.width,
            );
            hashes.push(hash);
            k += 1;
        }
        hashes
    }

    /// What the cache has for each tile.
    pub fn look_up(&self, tiles: &Vec<Tile>, hashes: &Vec<u64>) -> (found: Vec<Option<Vec<u8>>>)
        requires
            self.well_formed(),
            self.small(),
            self.grid().cells() <= self@.memory.len(),
            self.all_placed(tiles@),
            hashes@.len() == tiles@.len(),
        ensures
            found@.len() == tiles@.len(),
            found_values(found@) == kept_for_all(self@.memory, tiles@, self.grid(), hashes@),
    {
        let grid: &Grid = &self.grid;
        let mut found: Vec<Option<Vec<u8>>> = Vec::new();
        let mut k: usize = 0;
        while k < tiles.len()
            invariant
                k <= tiles@.len(),
                self.well_formed(),
                self.small(),
                *grid == self.grid(),
                self.grid().cells() <= self@.memory.len(),
                self.all_placed(tiles@),
                hashes@.len() == tiles@.len(),
                found@.len() == k,
                forall|j: int|
                    0 <= j < k ==> as_bytes(#[trigger] found@[j]) == kept_for(
                        self@.memory,
                        tiles@[j],
                        *grid,
                        hashes@[j],
                    ),
            decreases tiles@.len() - k,
        {
            let tile: Tile = tiles[k];
            proof {
                assert(placed(tiles@[k as int], *grid));
                self.lemma_few_cells();
                lemma_placed(tile, *grid);
            }
            let index: usize = tile.representative_index(grid);
            let bytes: Option<Vec<u8>> = if tile.is_single_cell(grid) {
                self.cached(index, hashes[k])
            } else {
                None
            };
            found.push(bytes);
            k += 1;
        }
        assert(found_values(found@) =~= kept_for_all(self@.memory, tiles@, self.grid(), hashes@));
        found
    }

    /// Cuts out the tiles that nothing was found for.
    pub fn extract(&self, frame: &Frame, tiles: &Vec<Tile>, found: &Vec<Option<Vec<u8>>>) -> (tasks: Vec<
        EncodingTask,
    >)
        requires
            self.well_formed(),
            self.takes(*frame),
            self.all_placed(tiles@),
            found@.len() == tiles@.len(),
        ensures
            task_values(tasks@) == to_encode(
                frame.rgba@,
                tiles@,
                frame.width as int,
                found_values(found@),
                tiles@.len(),
            ),
    {
        let ghost values = found_values(found@);
        let mut tasks: Vec<EncodingTask> = Vec::new();
        let mut k: usize = 0;
        assert(task_values(tasks@) =~= Seq::<(Tile, Seq<u8>, usize)>::empty());
        while k < tiles.len()
            invariant
                k <= tiles@.len(),
                self.well_formed(),
                self.takes(*frame),
                self.all_placed(tiles@),
                found@.len() == tiles@.len(),
                values == found_values(found@),
                task_values(tasks@) == to_encode(
                    frame.rgba@,
                    tiles@,
                    frame.width as int,
                    values,
                    k as nat,
                ),
            decreases tiles@.len() - k,
        {
            let tile: Tile = tiles[k];
            assert(values[k as int] == as_bytes(found@[k as int]));
            if found[k].is_none() {
                proof {
                    assert(placed(tiles@[k as int], self.grid()));
                    self.lemma_few_cells();
                    lemma_placed(tile, self.grid());
                    lemma_pixels_inside(*frame, tile);
                }
                let buffer: Vec<u8> = Vec::new();
                let ghost listed = tasks@;
                let tile_data: Vec<u8> = cut_out(frame, &tile, buffer);
                let task = EncodingTask { tile, tile_data, tile_idx: k };
                tasks.push(task);
                assert(task_values(tasks@) =~= task_values(listed).push((tile, task.tile_data@, k)));
            }
            k += 1;
        }
        tasks
    }

    /// Puts together what the stages gave.
    pub fn gather(
        &self,
        tiles_detected: usize,
        tiles: Vec<Tile>,
        tile_hashes: Vec<u64>,
        found: Vec<Option<Vec<u8>>>,
        tasks: Vec<EncodingTask>,
    ) -> (p: Profiled)
        requires
            self.well_formed(),
            self.small(),
            self.all_placed(tiles@),
            found@.len() == tiles@.len(),
        ensures
            p.tiles_detected == tiles_detected,
            p.tiles == tiles,
            p.tile_hashes == tile_hashes,
            p.tasks == tasks,
            p.tile_indices@.len() == tiles@.len(),
            p.single_cell@.len() == tiles@.len(),
            p.encoded@.len() == tiles@.len(),
            forall|k: int|
                0 <= k < tiles@.len() ==> #[trigger] p.tile_indices@[k] == index_of_tile(
                    tiles@[k],
                    self.grid(),
                ),
            forall|k: int|
                0 <= k < tiles@.len() ==> #[trigger] p.single_cell@[k] == covers_one_cell(
                    tiles@[k],
                    self.grid(),
                ),
            forall|k: int|
                0 <= k < tiles@.len() ==> (#[trigger] p.encoded@[k])@ == bytes_or_none(
                    found_values(found@)[k],
                ),
            p.cache_hits == hits(found_values(found@), tiles@.len()),
    {
        let grid: &Grid = &self.grid;
        let ghost values = found_values(found@);
        let mut tile_indices: Vec<usize> = Vec::new();
        let mut single_cell: Vec<bool> = Vec::new();
        let mut encoded: Vec<Vec<u8>> = Vec::new();
        let mut cache_hits: usize = 0;
        let mut k: usize = 0;
        while k < tiles.len()
            invariant
                k <= tiles@.len(),
                self.well_formed(),
                self.small(),
                *grid == self.grid(),
                self.all_placed(tiles@),
                found@.len() == tiles@.len(),
                values == found_values(found@),
                tile_indices@.len() == k,
                single_cell@.len() == k,
                encoded@.len() == k,
                forall|j: int|
                    0 <= j < k ==> #[trigger] tile_indices@[j] == index_of_tile(tiles@[j], *grid),
                forall|j: int|
                    0 <= j < k ==> #[trigger] single_cell@[j] == covers_one_cell(tiles@[j], *grid),
                forall|j: int|
                    0 <= j < k ==> (#[trigger] encoded@[j])@ == bytes_or_none(values[j]),
                cache_hits == hits(values, k as nat),
                cache_hits <= k,
            decreases tiles@.len() - k,
        {
            let tile: Tile = tiles[k];
            proof {
                assert(placed(tiles@[k as int], *grid));
                self.lemma_few_cells();
                lemma_placed(tile, *grid);
                assert(values[k as int] == as_bytes(found@[k as int]));
            }
            tile_indices.push(tile.representative_index(grid));
            single_cell.push(tile.is_single_cell(grid));
            match &found[k] {
                Some(bytes) => {
                    let copy: Vec<u8> = bytes.clone();
                    assert(copy@ =~= bytes@);
                    encoded.push(copy);
                    cache_hits = cache_hits + 1;
                },
                None => {
                    let none: Vec<u8> = Vec::new();
                    encoded.push(none);
                    assert(encoded@[k as int]@ =~= Seq::<u8>::empty());
                },
            }
            k += 1;
        }
        Profiled {
            tiles_detected,
            tiles,
            tile_indices,
            tile_hashes,
            single_cell,
            encoded,
            tasks,
            cache_hits,
        }
    }

    /// Takes a frame through every stage up to the encoder.
    pub fn process_frame(&mut self, rgba: Vec<u8>) -> (p: Profiled)
        requires
            old(self).well_formed(),
            old(self)@.frames < u64::MAX,
            fills(rgba@, old(self).size().0, old(self).size().1),
        ensures
            final(self).well_formed(),
            final(self).same_setup(old(self)),
            old(self).gap() >= 0,
            exists|frame: Frame| #[trigger]
                went_through(*old(self), final(self)@, frame, p) && frame.rgba == rgba,
    {
        let frame: Frame = self.frame(rgba);
        let changed: Vec<Tile> = self.detect(&frame);
        let merged: Vec<Tile> = self.merge(&changed);
        let scores: Vec<i128> = self.scores(&merged);
        let tiles: Vec<Tile> = FrameProfiler::sort(&merged, &scores);
        proof {
            assert(merged@.len() == merged.len());
            lemma_ordered(self.settings(), self@, self.grid(), merged@, scores@, tiles@);
            assert forall|k: int| 0 <= k < tiles@.len() implies placed(
                #[trigger] tiles@[k],
                self.grid(),
            ) by {
                assert(tiles@.contains(tiles@[k]));
                assert(merged@.contains(tiles@[k]));
                let j = choose|j: int| 0 <= j < merged@.len() && merged@[j] == tiles@[k];
                assert(placed(merged@[j], self.grid()));
            }
        }
        let hashes: Vec<u64> = self.hash_tiles(&frame, &tiles);
        let found: Vec<Option<Vec<u8>>> = self.look_up(&tiles, &hashes);
        let tasks: Vec<EncodingTask> = self.extract(&frame, &tiles, &found);
        let p: Profiled = self.gather(changed.len(), tiles, hashes, found, tasks);
        proof {
            let (config, level, grid) = (
                old(self).settings(),
                old(self).hash_level(),
                old(self).grid(),
            );
            assert(merged_from(config, level, old(self).gap(), old(self)@, grid, frame, merged@));
            assert(merged_from(config, level, old(self).gap(), old(self)@, grid, frame, p.tiles@));
            assert(went_through(*old(self), self@, frame, p));
        }
        p
    }

    /// Keeps the bytes of the single cells that were encoded or found.
    pub fn finish(&mut self, p: &Profiled)
        requires
            p.tile_indices@.len() == p.tiles@.len(),
            p.tile_hashes@.len() == p.tiles@.len(),
            p.single_cell@.len() == p.tiles@.len(),
            p.encoded@.len() == p.tiles@.len(),
        ensures
            old(self).well_formed() ==> final(self).well_formed(),
            final(self).same_setup(old(self)),
            final(self)@ == (DetectorState {
                memory: remembered(old(self)@.memory, *p, p.tiles@.len()),
                ..old(self)@
            }),
    {
        let ghost start = self@;
        let n: usize = p.tiles.len();
        let count: usize = self.diff_detector.get_all_metadata().len();
        assert(count == start.memory.len());
        let mut k: usize = 0;
        assert(self@ =~= DetectorState { memory: remembered(start.memory, *p, 0), ..start });
        while k < n
            invariant
                k <= n,
                n == p.tiles@.len(),
                count == start.memory.len(),
                p.tile_indices@.len() == n,
                p.tile_hashes@.len() == n,
                p.single_cell@.len() == n,
                p.encoded@.len() == n,
                start == old(self)@,
                self.same_setup(old(self)),
                self.grid == old(self).grid,
                self@ == (DetectorState {
                    memory: remembered(start.memory, *p, k as nat),
                    ..start
                }),
            decreases n - k,
        {
            proof {
                lemma_remembered(start.memory, *p, k as nat);
            }
            let at: usize = p.tile_indices[k];
            if p.single_cell[k] && p.encoded[k].len() > 0 && at < count {
                let bytes: Vec<u8> = p.encoded[k].clone();
                assert(bytes@ =~= p.encoded@[k as int]@);
                let hash: u64 = p.tile_hashes[k];
                let metadata: &mut TileMetadata = self.diff_detector.get_metadata_mut(at);
                metadata.cached_encoded = Some(bytes);
                metadata.cached_hash = hash;
            }
            k += 1;
        }
        proof {
            lemma_remembered(start.memory, *p, n as nat);
        }
    }
}

/// Whether a frame, with no damage reported, went through every stage up to the
/// encoder: detection left the state `after`, the tiles are those merged from
/// what was to be sent, in order of score, and everything was looked up.
pub open spec fn went_through(before: FrameProfiler, after: DetectorState, frame: Frame, p: Profiled) -> bool {
    let (config, level, grid) = (before.settings(), before.hash_level(), before.grid());
    &&& frame.width == before.size().0
    &&& frame.height == before.size().1
    &&& frame.damage_regions@.len() == 0
    &&& after == detected(config, level, before@, grid, frame)
    &&& p.tiles_detected == sent_cells(config, level, before@, grid, frame, grid.cells() as nat).len()
    &&& merged_from(config, level, before.gap(), before@, grid, frame, p.tiles@)
    &&& by_score(config, after, grid, p.tiles@)
    &&& looked_up(level, after.memory, frame.rgba@, grid, p)
}

/// Once a frame's bytes are kept, those of a single cell are what the cache has
/// for it, as long as its content stays the same.
pub proof fn law_kept_tile_is_found(memory: Seq<CellMemory>, grid: Grid, p: Profiled, k: int)
    requires
        0 <= k < p.tiles@.len(),
        p.tile_indices@.len() == p.tiles@.len(),
        p.tile_hashes@.len() == p.tiles@.len(),
        p.single_cell@.len() == p.tiles@.len(),
        p.encoded@.len() == p.tiles@.len(),
        forall|i: int, j: int|
            0 <= i < j < p.tiles@.len() ==> #[trigger] p.tile_indices@[i]
                != #[trigger] p.tile_indices@[j],
        p.tile_indices@[k] == index_of_tile(p.tiles@[k], grid),
        p.tile_indices@[k] < memory.len(),
        p.single_cell@[k],
        covers_one_cell(p.tiles@[k], grid),
        p.encoded@[k]@.len() > 0,
    ensures
        kept_for(
            remembered(memory, p, p.tiles@.len()),
            p.tiles@[k],
            grid,
            p.tile_hashes@[k],
        ) == Some(p.encoded@[k]@),
{
    lemma_stays_kept(memory, p, k, p.tiles@.len());
}

proof fn lemma_stays_kept(memory: Seq<CellMemory>, p: Profiled, k: int, n: nat)
    requires
        0 <= k < n <= p.tiles@.len(),
        p.tile_indices@.len() == p.tiles@.len(),
        forall|i: int, j: int|
            0 <= i < j < p.tiles@.len() ==> #[trigger] p.tile_indices@[i]
                != #[trigger] p.tile_indices@[j],
        p.tile_indices@[k] < memory.len(),
        p.single_cell@[k],
        p.encoded@[k]@.len() > 0,
    ensures
        ({
            let cell = remembered(memory, p, n)[p.tile_indices@[k] as int];
            cell.cached_encoded == Some(p.encoded@[k]@) && cell.cached_hash == p.tile_hashes@[k]
        }),
    decreases n,
{
    lemma_remembered(memory, p, (n - 1) as nat);
    if k < n - 1 {
        lemma_stays_kept(memory, p, k, (n - 1) as nat);
        assert(p.tile_indices@[k] != p.tile_indices@[n - 1]);
    }
}

/// How many tiles were found is how many were not handed out to be encoded.
pub proof fn law_found_tiles_are_not_encoded(
    rgba: Seq<u8>,
    tiles: Seq<Tile>,
    frame_width: int,
    found: Seq<Option<Seq<u8>>>,
    n: nat,
)
    requires
        n <= tiles.len(),
        n <= found.len(),
        n <= usize::MAX,
    ensures
        ({
            let tasks = to_encode(rgba, tiles, frame_width, found, n);
            &&& hits(found, n) + tasks.len() == n
            &&& forall|j: int|
                0 <= j < tasks.len() ==> {
                    let (tile, pixels, k) = #[trigger] tasks[j];
                    &&& k < n
                    &&& found[k as int] is None
                    &&& tile == tiles[k as int]
                    &&& pixels == tile_pixels(
                        rgba,
                        tile.x as int,
                        tile.y as int,
                        tile.width as int,
                        tile.height as int,
                        frame_width,
                    )
                }
            &&& forall|a: int, b: int| 0 <= a < b < tasks.len() ==> tasks[a].2 < tasks[b].2
        }),
    decreases n,
{
    if n > 0 {
        law_found_tiles_are_not_encoded(rgba, tiles, frame_width, found, (n - 1) as nat);
        let before = to_encode(rgba, tiles, frame_width, found, (n - 1) as nat);
        let tasks = to_encode(rgba, tiles, frame_width, found, n);
        assert forall|j: int| 0 <= j < tasks.len() implies {
            let (tile, pixels, k) = #[trigger] tasks[j];
            &&& k < n
            &&& found[k as int] is None
            &&& tile == tiles[k as int]
            &&& pixels == tile_pixels(
                rgba,
                tile.x as int,
                tile.y as int,
                tile.width as int,
                tile.height as int,
                frame_width,
            )
        } by {
            if j < before.len() {
                assert(tasks[j] == before[j]);
            }
        }
        assert forall|a: int, b: int| 0 <= a < b < tasks.len() implies tasks[a].2 < tasks[b].2 by {
            assert(tasks[a] == before[a]);
            if b < before.len() {
                assert(tasks[b] == before[b]);
            } else {
                assert(before[a].2 < (n - 1) as usize);
            }
        }
    }
}

/// What is found for a tile is what its cell keeps, of the same content, and only for a
/// tile of that cell alone.
pub proof fn law_found_bytes_are_of_the_same_content(
    memory: Seq<CellMemory>,
    tile: Tile,
    grid: Grid,
    hash: u64,
)
    ensures
        kept_for(memory, tile, grid, hash) matches Some(bytes) ==> {
            let cell = memory[index_of_tile(tile, grid)];
            &&& cell.cached_encoded == Some(bytes)
            &&& cell.cached_hash == hash
            &&& covers_one_cell(tile, grid)
        },
        memory[index_of_tile(tile, grid)].cached_encoded is Some
            && memory[index_of_tile(tile, grid)].cached_hash == hash && covers_one_cell(tile, grid)
            ==> kept_for(memory, tile, grid, hash) == memory[index_of_tile(
            tile,
            grid,
        )].cached_encoded,
{
}

} // verus!
