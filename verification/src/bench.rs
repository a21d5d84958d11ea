//! What a benchmark run counts. How long things take is measured elsewhere.

use crate::capture::DamageRegion;
use crate::config::Config;
use crate::diff::{detected, fresh_state, sent_cells, DetectorState, DiffDetector};
use crate::encoder::TileMerger;
use crate::frame::Frame;
use crate::pictures::{generate_scenario_frame, scenario_picture, Scenario};
use crate::pipeline::{detect_and_merge, merged_from};
use crate::tile::{grid_over, Grid, Tile};
use crate::tile_hash::SimdLevel;
use vstd::prelude::*;

verus! {

/// The width of the benchmarks' screen.
pub const BENCH_WIDTH: u32 = 1920;

/// The height of the benchmarks' screen.
pub const BENCH_HEIGHT: u32 = 1080;

/// How many of a hundred merged tiles are taken to be served from the cache.
pub open spec fn hit_rate(s: Scenario) -> int {
    match s {
        Scenario::Static => 95,
        Scenario::Moderate => 75,
        Scenario::Active => 60,
        Scenario::Video => 70,
    }
}

/// How many of `merged` tiles are taken to be served from the cache.
pub fn cached_tiles(merged: usize, s: Scenario) -> (hits: usize)
    ensures
        hits == merged * hit_rate(s) / 100,
        hits <= merged,
{
    let rate: u128 = match s {
        Scenario::Static => 95,
        Scenario::Moderate => 75,
        Scenario::Active => 60,
        Scenario::Video => 70,
    };
    proof {
        assert(0 <= merged * rate <= merged * 100) by (nonlinear_arith)
            requires
                0 <= merged,
                0 <= rate <= 100,
        ;
    }
    (merged as u128 * rate / 100) as usize
}

/// What a run counted: cells to send, merged tiles, and those taken to be
/// served from the cache.
#[derive(Clone, Copy, Debug, PartialEq, Eq, Structural)]
pub struct Tally {
    pub tiles_before: u128,
    pub tiles_after: u128,
    pub cache_hits: u128,
}

/// Everything that happens in a run: its frames, what the detector knows after
/// each of them, and what each but the first is merged into.
pub struct Trace {
    pub frames: Seq<Frame>,
    pub states: Seq<DetectorState>,
    pub merges: Seq<Seq<Tile>>,
}

/// The grid of the benchmarks' screen.
pub open spec fn bench_grid(config: Config) -> Grid {
    grid_over(config.tiles_x as int, BENCH_WIDTH as int, BENCH_HEIGHT as int)
}

/// Whether this is frame `n` of a scenario, with no damage reported.
pub open spec fn is_bench_frame(f: Frame, s: Scenario, n: int) -> bool {
    &&& f.width == BENCH_WIDTH
    &&& f.height == BENCH_HEIGHT
    &&& f.rgba@ == scenario_picture(s, BENCH_WIDTH as int, BENCH_HEIGHT as int, n)
    &&& f.damage_regions@.len() == 0
}

/// Whether step `k` of a trace is what the detector and the merger do.
pub open spec fn is_step(
    config: Config,
    level: SimdLevel,
    gap: int,
    s: Scenario,
    t: Trace,
    k: int,
) -> bool {
    let grid = bench_grid(config);
    &&& is_bench_frame(t.frames[k + 1], s, k + 1)
    &&& t.states[k + 1] == detected(config, level, t.states[k], grid, t.frames[k + 1])
    &&& merged_from(config, level, gap, t.states[k], grid, t.frames[k + 1], t.merges[k])
}

/// Whether a trace shows a run of `n` frames after the first one.
pub open spec fn is_trace(
    config: Config,
    level: SimdLevel,
    gap: int,
    s: Scenario,
    t: Trace,
    n: nat,
) -> bool {
    &&& t.frames.len() == n + 1
    &&& t.states.len() == n + 1
    &&& t.merges.len() == n
    &&& is_bench_frame(t.frames[0], s, 0)
    &&& t.states[0] == detected(config, level, fresh_state(), bench_grid(config), t.frames[0])
    &&& forall|k: int| 0 <= k < n ==> #[trigger] is_step(config, level, gap, s, t, k)
}

/// How many cells were to be sent in the first `n` steps.
pub open spec fn cells_sent(config: Config, level: SimdLevel, t: Trace, n: nat) -> nat
    decreases n,
{
    if n == 0 {
        0
    } else {
        let grid = bench_grid(config);
        cells_sent(config, level, t, (n - 1) as nat) + sent_cells(
            config,
            level,
            t.states[n - 1],
            grid,
            t.frames[n as int],
            grid.cells() as nat,
        ).len()
    }
}

/// How many merged tiles there were in the first `n` steps.
pub open spec fn tiles_merged(t: Trace, n: nat) -> nat
    decreases n,
{
    if n == 0 {
        0
    } else {
        tiles_merged(t, (n - 1) as nat) + t.merges[n - 1].len()
    }
}

/// How many merged tiles were taken to be served from the cache.
pub open spec fn tiles_cached(s: Scenario, t: Trace, n: nat) -> int
    decreases n,
{
    if n == 0 {
        0
    } else {
        tiles_cached(s, t, (n - 1) as nat) + t.merges[n - 1].len() * hit_rate(s) / 100
    }
}

/// What one more step makes of a trace.
pub open spec fn extended(t: Trace, f: Frame, state: DetectorState, merged: Seq<Tile>) -> Trace {
    Trace {
        frames: t.frames.push(f),
        states: t.states.push(state),
        merges: t.merges.push(merged),
    }
}

/// The sums over a trace's first steps do not depend on what comes later.
proof fn lemma_sums_extended(
    config: Config,
    level: SimdLevel,
    s: Scenario,
    t: Trace,
    f: Frame,
    state: DetectorState,
    merged: Seq<Tile>,
    n: nat,
)
    requires
        n < t.frames.len(),
        n < t.states.len() + 1,
        n <= t.merges.len(),
    ensures
        cells_sent(config, level, extended(t, f, state, merged), n) == cells_sent(
            config,
            level,
            t,
            n,
        ),
        tiles_merged(extended(t, f, state, merged), n) == tiles_merged(t, n),
        tiles_cached(s, extended(t, f, state, merged), n) == tiles_cached(s, t, n),
    decreases n,
{
    if n > 0 {
        lemma_sums_extended(config, level, s, t, f, state, merged, (n - 1) as nat);
    }
}

fn bench_frame(s: Scenario, n: u32) -> (f: Frame)
    ensures
        is_bench_frame(f, s, n as int),
        f.streamable(),
{
    let rgba: Vec<u8> = generate_scenario_frame(BENCH_WIDTH, BENCH_HEIGHT, n, s);
    let none: Vec<DamageRegion> = Vec::new();
    Frame::new(rgba, BENCH_WIDTH, BENCH_HEIGHT, none)
}

/// Runs a scenario: a first frame, then `frames` more that are counted.
pub fn benchmark_scenario(config: Config, level: SimdLevel, s: Scenario, frames: u32) -> (tally:
    Tally)
    requires
        frames < u32::MAX,
    ensures
        exists|t: Trace| #[trigger]
            is_trace(config, level, config.merge_gap as int, s, t, frames as nat)
                && tally.tiles_before == cells_sent(config, level, t, frames as nat)
                && tally.tiles_after == tiles_merged(t, frames as nat) && tally.cache_hits
                == tiles_cached(s, t, frames as nat),
{
    let merger: TileMerger = TileMerger::new(config.merge_gap);
    let grid: Grid = Grid::new(config.tiles_x, BENCH_WIDTH, BENCH_HEIGHT);
    let mut detector: DiffDetector = DiffDetector::with_level(config, level);
    let first: Frame = bench_frame(s, 0);
    let (_cells, _tiles) = detect_and_merge(&mut detector, &merger, &grid, &first);
    let ghost mut t = Trace {
        frames: seq![first],
        states: seq![detector@],
        merges: Seq::<Seq<Tile>>::empty(),
    };
    let ghost gap = config.merge_gap as int;
    let mut tally = Tally { tiles_before: 0, tiles_after: 0, cache_hits: 0 };
    let mut n: u32 = 0;
    while n < frames
        invariant
            n <= frames < u32::MAX,
            gap == config.merge_gap,
            merger.gap() == gap,
            grid == bench_grid(config),
            grid.well_formed(),
            grid.tiles_x <= BENCH_WIDTH,
            grid.tiles_y <= BENCH_HEIGHT,
            detector.settings() == config,
            detector.hash_level() == level,
            detector@.consistent(),
            detector@.frames == n + 1,
            detector@.hashes.len() == grid.cells(),
            is_trace(config, level, gap, s, t, n as nat),
            t.states[n as int] == detector@,
            tally.tiles_before == cells_sent(config, level, t, n as nat),
            tally.tiles_after == tiles_merged(t, n as nat),
            tally.cache_hits == tiles_cached(s, t, n as nat),
            tally.tiles_before <= n * usize::MAX,
            tally.tiles_after <= n * usize::MAX,
            tally.cache_hits <= n * usize::MAX,
        decreases frames - n,
    {
        let frame: Frame = bench_frame(s, n + 1);
        let ghost before = detector@;
        let ghost old_t = t;
        let (changed, merged): (usize, Vec<Tile>) = detect_and_merge(
            &mut detector,
            &merger,
            &grid,
            &frame,
        );
        let hits: usize = cached_tiles(merged.len(), s);
        proof {
            t = extended(old_t, frame, detector@, merged@);
            lemma_sums_extended(config, level, s, old_t, frame, detector@, merged@, n as nat);
            assert forall|k: int| 0 <= k < n + 1 implies #[trigger] is_step(
                config,
                level,
                gap,
                s,
                t,
                k,
            ) by {
                if k < n {
                    assert(is_step(config, level, gap, s, old_t, k));
                    assert(t.frames[k + 1] == old_t.frames[k + 1]);
                    assert(t.states[k + 1] == old_t.states[k + 1]);
                    assert(t.states[k] == old_t.states[k]);
                    assert(t.merges[k] == old_t.merges[k]);
                }
            }
            assert((n + 1) * usize::MAX == n * usize::MAX + usize::MAX) by (nonlinear_arith);
            assert(n * usize::MAX <= u32::MAX * usize::MAX) by (nonlinear_arith)
                requires
                    0 <= n <= u32::MAX,
            ;
        }
        tally.tiles_before = tally.tiles_before + changed as u128;
        tally.tiles_after = tally.tiles_after + merged.len() as u128;
        tally.cache_hits = tally.cache_hits + hits as u128;
        n += 1;
    }
    tally
}

/// What several runs counted, on average.
#[derive(Clone, Copy, Debug, PartialEq, Eq, Structural)]
pub struct Averages {
    pub tiles_before: u128,
    pub tiles_after: u128,
    pub cache_hits: u128,
    pub cache_misses: u128,
    /// The pixels of the merged tiles, at 48 by 27 pixels each.
    pub raw_bytes: u128,
    /// What they take once encoded, at one tenth.
    pub compressed_bytes: u128,
}

/// The bytes of an average tile.
pub const AVERAGE_TILE: u128 = 5184;

/// What the first `n` runs counted together.
pub open spec fn total(tallies: Seq<Tally>, n: nat, of: spec_fn(Tally) -> int) -> int
    decreases n,
{
    if n == 0 {
        0
    } else {
        total(tallies, (n - 1) as nat, of) + of(tallies[n - 1])
    }
}

/// A difference, or zero where it would be negative.
pub open spec fn less(a: int, b: int) -> int {
    if a < b {
        0
    } else {
        a - b
    }
}

/// What runs count stays within sixty-four bits.
pub open spec fn moderate(tallies: Seq<Tally>) -> bool {
    &&& tallies.len() <= u32::MAX
    &&& forall|k: int|
        0 <= k < tallies.len() ==> (#[trigger] tallies[k]).tiles_before <= u64::MAX
            && tallies[k].tiles_after <= u64::MAX && tallies[k].cache_hits <= u64::MAX
}

/// Averages the counts of several runs, rounding down.
pub fn average_runs(tallies: &Vec<Tally>) -> (a: Averages)
    requires
        tallies@.len() > 0,
        moderate(tallies@),
    ensures
        ({
            let n = tallies@.len();
            let before = total(tallies@, n, |t: Tally| t.tiles_before as int) / n as int;
            let after = total(tallies@, n, |t: Tally| t.tiles_after as int) / n as int;
            let hits = total(tallies@, n, |t: Tally| t.cache_hits as int) / n as int;
            &&& a.tiles_before == before
            &&& a.tiles_after == after
            &&& a.cache_hits == hits
            &&& a.cache_misses == less(after, hits)
            &&& a.raw_bytes == after * AVERAGE_TILE
            &&& a.compressed_bytes == after * AVERAGE_TILE / 10
        }),
{
    let n: usize = tallies.len();
    let mut before: u128 = 0;
    let mut after: u128 = 0;
    let mut hits: u128 = 0;
    let mut k: usize = 0;
    while k < n
        invariant
            k <= n,
            n == tallies@.len(),
            moderate(tallies@),
            before == total(tallies@, k as nat, |t: Tally| t.tiles_before as int),
            after == total(tallies@, k as nat, |t: Tally| t.tiles_after as int),
            hits == total(tallies@, k as nat, |t: Tally| t.cache_hits as int),
            before <= k * u64::MAX,
            after <= k * u64::MAX,
            hits <= k * u64::MAX,
        decreases n - k,
    {
        let t: Tally = tallies[k];
        assert(tallies@[k as int].tiles_before <= u64::MAX);
        before = before + t.tiles_before;
        after = after + t.tiles_after;
        hits = hits + t.cache_hits;
        k += 1;
    }
    let runs: u128 = n as u128;
    let tiles_after: u128 = after / runs;
    let cache_hits: u128 = hits / runs;
    proof {
        assert(after / runs <= after) by (nonlinear_arith)
            requires
                0 <= after,
                runs >= 1,
        ;
    }
    let raw_bytes: u128 = tiles_after * AVERAGE_TILE;
    Averages {
        tiles_before: before / runs,
        tiles_after,
        cache_hits,
        cache_misses: if tiles_after < cache_hits {
            0
        } else {
            tiles_after - cache_hits
        },
        raw_bytes,
        compressed_bytes: raw_bytes / 10,
    }
}

/// Latencies, summed up.
#[derive(Clone, Copy, Debug, PartialEq, Eq, Structural)]
pub struct Percentiles {
    /// The sum; the average is this by their number.
    pub sum: u128,
    pub min: u64,
    pub max: u64,
    pub p50: u64,
    pub p95: u64,
    pub p99: u64,
}

/// Whether `sorted` holds the same numbers in ascending order.
pub open spec fn is_sorting_of(sorted: Seq<u64>, numbers: Seq<u64>) -> bool {
    &&& sorted.to_multiset() == numbers.to_multiset()
    &&& forall|a: int, b: int| 0 <= a < b < sorted.len() ==> sorted[a] <= sorted[b]
}

/// The sum of the first `n` numbers.
pub open spec fn sum_of(numbers: Seq<u64>, n: nat) -> int
    decreases n,
{
    if n == 0 {
        0
    } else {
        sum_of(numbers, (n - 1) as nat) + numbers[n - 1]
    }
}

/// Which of `len` sorted numbers stands for a percentile.
pub open spec fn rank_of(len: int, percent: int) -> int {
    if len * percent / 100 < len - 1 {
        len * percent / 100
    } else {
        len - 1
    }
}

fn sort(numbers: &Vec<u64>) -> (sorted: Vec<u64>)
    ensures
        is_sorting_of(sorted@, numbers@),
        sorted@.len() == numbers@.len(),
{
    let mut sorted: Vec<u64> = Vec::new();
    let mut k: usize = 0;
    assert(numbers@.take(0) =~= Seq::<u64>::empty());
    while k < numbers.len()
        invariant
            k <= numbers@.len(),
            sorted@.len() == k,
            is_sorting_of(sorted@, numbers@.take(k as int)),
        decreases numbers@.len() - k,
    {
        let v: u64 = numbers[k];
        let mut at: usize = k;
        while at > 0 && sorted[at - 1] > v
            invariant
                at <= k,
                sorted@.len() == k,
                is_sorting_of(sorted@, numbers@.take(k as int)),
                forall|j: int| at <= j < k ==> sorted@[j] > v,
            decreases at,
        {
            at -= 1;
        }
        let ghost before = sorted@;
        sorted.insert(at, v);
        proof {
            assert(numbers@.take(k + 1) =~= numbers@.take(k as int).push(v));
            assert(sorted@ =~= before.insert(at as int, v));
            vstd::seq_lib::to_multiset_insert(before, at as int, v);
            vstd::seq_lib::to_multiset_build(numbers@.take(k as int), v);
            assert forall|a: int, b: int| 0 <= a < b < sorted@.len() implies sorted@[a]
                <= sorted@[b] by {
                let x = if a < at {
                    before[a]
                } else if a == at {
                    v
                } else {
                    before[a - 1]
                };
                let y = if b < at {
                    before[b]
                } else if b == at {
                    v
                } else {
                    before[b - 1]
                };
                assert(sorted@[a] == x && sorted@[b] == y);
            }
        }
        k += 1;
    }
    assert(numbers@.take(k as int) =~= numbers@);
    sorted
}

fn rank(len: usize, percent: usize) -> (at: usize)
    requires
        len > 0,
        percent <= 100,
    ensures
        at == rank_of(len as int, percent as int),
        at < len,
{
    proof {
        assert(0 <= len * percent <= len * 100) by (nonlinear_arith)
            requires
                0 <= len,
                0 <= percent <= 100,
        ;
    }
    let at: u128 = len as u128 * percent as u128 / 100;
    if at < (len - 1) as u128 {
        at as usize
    } else {
        len - 1
    }
}

/// Sums latencies up: all zeros where there are none.
pub fn calculate_percentiles(latencies: &Vec<u64>) -> (p: Percentiles)
    ensures
        p.sum == sum_of(latencies@, latencies@.len()),
        latencies@.len() == 0 ==> p.min == 0 && p.max == 0 && p.p50 == 0 && p.p95 == 0 && p.p99
            == 0,
        latencies@.len() > 0 ==> exists|sorted: Seq<u64>| #[trigger]
            is_sorting_of(sorted, latencies@) && {
                let n = latencies@.len() as int;
                &&& p.min == sorted[0]
                &&& p.max == sorted[n - 1]
                &&& p.p50 == sorted[rank_of(n, 50)]
                &&& p.p95 == sorted[rank_of(n, 95)]
                &&& p.p99 == sorted[rank_of(n, 99)]
            },
{
    let n: usize = latencies.len();
    if n == 0 {
        return Percentiles { sum: 0, min: 0, max: 0, p50: 0, p95: 0, p99: 0 };
    }
    let mut sum: u128 = 0;
    let mut k: usize = 0;
    while k < n
        invariant
            k <= n,
            n == latencies@.len(),
            sum == sum_of(latencies@, k as nat),
            sum <= k * u64::MAX,
        decreases n - k,
    {
        proof {
            assert((k + 1) * u64::MAX == k * u64::MAX + u64::MAX) by (nonlinear_arith);
            assert(k * u64::MAX <= (u64::MAX - 1) * u64::MAX) by (nonlinear_arith)
                requires
                    0 <= k <= u64::MAX - 1,
            ;
        }
        sum = sum + latencies[k] as u128;
        k += 1;
    }
    let sorted: Vec<u64> = sort(latencies);
    assert(is_sorting_of(sorted@, latencies@));
    Percentiles {
        sum,
        min: sorted[0],
        max: sorted[n - 1],
        p50: sorted[rank(n, 50)],
        p95: sorted[rank(n, 95)],
        p99: sorted[rank(n, 99)],
    }
}

/// Latencies have one ascending order, so their percentiles are determined, and
/// they do not fall from one to the next.
pub proof fn law_percentiles_are_ordered(sorted: Seq<u64>, other: Seq<u64>, latencies: Seq<u64>)
    requires
        latencies.len() > 0,
        is_sorting_of(sorted, latencies),
        is_sorting_of(other, latencies),
    ensures
        sorted == other,
        ({
            let n = latencies.len() as int;
            &&& sorted[0] <= sorted[rank_of(n, 50)]
            &&& sorted[rank_of(n, 50)] <= sorted[rank_of(n, 95)]
            &&& sorted[rank_of(n, 95)] <= sorted[rank_of(n, 99)]
            &&& sorted[rank_of(n, 99)] <= sorted[n - 1]
        }),
{
    let leq = |a: u64, b: u64| a <= b;
    assert(vstd::relations::sorted_by(sorted, leq));
    assert(vstd::relations::sorted_by(other, leq));
    assert(vstd::relations::total_ordering(leq));
    vstd::seq_lib::lemma_sorted_unique(sorted, other, leq);
    vstd::seq_lib::to_multiset_len(sorted);
    vstd::seq_lib::to_multiset_len(latencies);
}

/// What several runs counted together is what the first and the other ones counted; one
/// run's count is its own.
pub proof fn law_totals_add_up(first: Seq<Tally>, rest: Seq<Tally>, of: spec_fn(Tally) -> int)
    ensures
        total(first + rest, (first.len() + rest.len()) as nat, of) == total(first, first.len(), of)
            + total(rest, rest.len(), of),
        first.len() == 1 ==> total(first, 1, of) == of(first[0]),
        total(first, 0, of) == 0,
    decreases rest.len(),
{
    if rest.len() > 0 {
        let fewer = rest.drop_last();
        law_totals_add_up(first, fewer, of);
        lemma_total_prefix(first + rest, first + fewer, (first.len() + fewer.len()) as nat, of);
        lemma_total_prefix(rest, fewer, fewer.len(), of);
        assert((first + rest)[first.len() + rest.len() - 1] == rest[rest.len() - 1]);
    } else {
        assert(first + rest =~= first);
    }
    assert(total(first, 0, of) == 0);
}

proof fn lemma_total_prefix(a: Seq<Tally>, b: Seq<Tally>, n: nat, of: spec_fn(Tally) -> int)
    requires
        n <= a.len(),
        n <= b.len(),
        forall|k: int| 0 <= k < n ==> a[k] == b[k],
    ensures
        total(a, n, of) == total(b, n, of),
    decreases n,
{
    if n > 0 {
        lemma_total_prefix(a, b, (n - 1) as nat, of);
    }
}

/// An average is the whole number at or just below the exact one; what was not served from
/// the cache was missed.
pub proof fn law_average_is_rounded_down(sum: int, runs: int, hits: int)
    requires
        0 <= sum,
        runs >= 1,
        0 <= hits,
    ensures
        (sum / runs) * runs <= sum < (sum / runs + 1) * runs,
        hits <= sum / runs ==> less(sum / runs, hits) + hits == sum / runs,
        hits > sum / runs ==> less(sum / runs, hits) == 0,
{
    vstd::arithmetic::div_mod::lemma_fundamental_div_mod(sum, runs);
    vstd::arithmetic::div_mod::lemma_mod_bound(sum, runs);
    let q = sum / runs;
    assert(q * runs == runs * q && (q + 1) * runs == runs * q + runs) by (nonlinear_arith);
}

/// At most `percent` of a hundred latencies come before the one that stands for a
/// percentile, and with it there are more than that, unless it is the largest.
pub proof fn law_percentile_has_its_share_below(len: int, percent: int)
    requires
        len >= 1,
        0 <= percent <= 100,
    ensures
        0 <= rank_of(len, percent) < len,
        rank_of(len, percent) * 100 <= len * percent,
        rank_of(len, percent) < len - 1 ==> (rank_of(len, percent) + 1) * 100 > len * percent,
        percent == 100 ==> rank_of(len, percent) == len - 1,
{
    let p = len * percent;
    assert(0 <= p <= len * 100) by (nonlinear_arith)
        requires
            p == len * percent,
            0 <= percent <= 100,
            len >= 1,
    ;
}

/// The smallest and the largest of sorted latencies are those of all of them, and each is
/// one of them.
pub proof fn law_sorting_keeps_the_numbers(sorted: Seq<u64>, numbers: Seq<u64>, k: int)
    requires
        is_sorting_of(sorted, numbers),
        0 <= k < numbers.len(),
    ensures
        sorted.len() == numbers.len(),
        sorted[0] <= numbers[k] <= sorted[sorted.len() - 1],
        numbers.contains(sorted[k]),
{
    vstd::seq_lib::to_multiset_len(sorted);
    vstd::seq_lib::to_multiset_len(numbers);
    broadcast use vstd::seq_lib::group_to_multiset_ensures;
    assert(numbers.to_multiset().count(numbers[k]) > 0);
    assert(sorted.contains(numbers[k]));
    let j = choose|j: int| 0 <= j < sorted.len() && sorted[j] == numbers[k];
    assert(sorted.to_multiset().count(sorted[k]) > 0);
}

/// More tiles are served from the cache the less happens, but for a film, of which more
/// stays the same than of a page that is scrolled; never all of them.
pub proof fn law_quiet_screens_hit_the_cache_more(merged: int)
    requires
        merged > 0,
    ensures
        100 > hit_rate(Scenario::Static) > hit_rate(Scenario::Moderate) > hit_rate(Scenario::Video)
            > hit_rate(Scenario::Active) > 50,
        merged * hit_rate(Scenario::Static) / 100 < merged,
{
    assert(merged * 95 < merged * 100);
}

} // verus!
