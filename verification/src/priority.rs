//! In which order tiles are sent: those that change often, change much and lie
//! near the centre of the screen go first.
//!
//! Scores are fixed-point numbers. Weights and scores are millionths, so a
//! weighted score counts in millionths of a millionth.

use crate::bits::{count_ones, popcount};
use crate::config::Config;
use crate::tile::{at_least_one, count_true, squared_distance, CellMemory, Tile, TileMetadata};
use vstd::prelude::*;

verus! {

/// One, in millionths.
pub const UNIT: u32 = 1_000_000;

/// Whether `r` is the square root of `n`, rounded down.
pub open spec fn is_floor_sqrt(n: int, r: int) -> bool {
    0 <= r && r * r <= n < (r + 1) * (r + 1)
}

/// The square root of `n`, rounded down.
pub open spec fn floor_sqrt(n: int) -> int {
    choose|r: int| is_floor_sqrt(n, r)
}

proof fn lemma_floor_sqrt_unique(n: int, r: int, q: int)
    requires
        is_floor_sqrt(n, r),
        is_floor_sqrt(n, q),
    ensures
        r == q,
{
    if r < q {
        assert((r + 1) * (r + 1) <= q * q) by (nonlinear_arith)
            requires
                0 <= r,
                r + 1 <= q,
        ;
    }
    if q < r {
        assert((q + 1) * (q + 1) <= r * r) by (nonlinear_arith)
            requires
                0 <= q,
                q + 1 <= r,
        ;
    }
}

/// Square roots do not shrink as numbers grow.
proof fn lemma_floor_sqrt_monotone(n: int, m: int, r: int, q: int)
    requires
        n <= m,
        is_floor_sqrt(n, r),
        is_floor_sqrt(m, q),
    ensures
        r <= q,
{
    if q < r {
        assert((q + 1) * (q + 1) <= r * r) by (nonlinear_arith)
            requires
                0 <= q,
                q + 1 <= r,
        ;
    }
}

/// The largest number whose root is taken here: a squared distance of `i32`
/// range in units of 10^-12.
pub const ROOT_LIMIT: u128 = 0x1_0000_0000_0000_0000_0000;

/// The square root of `n`, rounded down.
pub fn isqrt(n: u128) -> (r: u128)
    requires
        n < ROOT_LIMIT,
    ensures
        is_floor_sqrt(n as int, r as int),
        r == floor_sqrt(n as int),
        r < 0x100_0000_0000,
{
    let mut low: u128 = 0;
    let mut high: u128 = 0x100_0000_0000;
    while high - low > 1
        invariant
            low < high <= 0x100_0000_0000,
            low * low <= n,
            n < high * high,
        decreases high - low,
    {
        let middle: u128 = low + (high - low) / 2;
        assert(middle * middle <= 0x100_0000_0000 * 0x100_0000_0000) by (nonlinear_arith)
            requires
                middle <= 0x100_0000_0000,
        ;
        if middle * middle <= n {
            low = middle;
        } else {
            high = middle;
        }
    }
    assert(high == low + 1);
    proof {
        let chosen = floor_sqrt(n as int);
        assert(is_floor_sqrt(n as int, low as int));
        lemma_floor_sqrt_unique(n as int, low as int, chosen);
    }
    low
}

/// The square of half the frame's diagonal, and at least one.
pub open spec fn diagonal_square(width: int, height: int) -> int {
    at_least_one((width * width + height * height) / 4)
}

/// How near the centre a tile lies, in millionths: one million at the centre,
/// falling with the distance, relative to half the diagonal.
pub open spec fn center_score(distance: int, width: int, height: int) -> int {
    UNIT - floor_sqrt(distance * (UNIT * UNIT) / diagonal_square(width, height))
}

/// A tile's score: the share of frames in which its cell changed, the share of
/// hash bits that differ since the last change, and its nearness to the centre,
/// each times its weight.
pub open spec fn score(
    config: Config,
    memory: CellMemory,
    distance: int,
    width: int,
    height: int,
) -> int {
    let changes = count_true(memory.history) as int;
    let frames = at_least_one(memory.history.len() as int);
    let bits = popcount(memory.last_hash_diff) as int;
    changes * UNIT / frames * config.priority_frequency_weight + bits * UNIT / 64
        * config.priority_speed_weight + center_score(distance, width, height)
        * config.priority_center_weight
}

/// The score of a tile whose corner cell is remembered as `memory`.
pub open spec fn tile_score(config: Config, memory: CellMemory, tile: Tile, width: int, height: int) -> int {
    score(config, memory, squared_distance(tile, width / 2, height / 2), width, height)
}

/// Scores a tile.
pub fn priority(tile: &Tile, metadata: &TileMetadata, width: u32, height: u32, config: &Config) -> (p:
    i128)
    requires
        tile.x + tile.width / 2 <= i32::MAX,
        tile.y + tile.height / 2 <= i32::MAX,
        squared_distance(*tile, width as int / 2, height as int / 2) <= i32::MAX,
    ensures
        p == tile_score(*config, metadata@, *tile, width as int, height as int),
{
    let (changes, frames): (u32, u32) = metadata.update_frequency();
    let bits: u32 = count_ones(metadata.last_hash_diff);
    let distance: i32 = tile.distance_from_center(width / 2, height / 2);
    proof {
        assert(width * width <= 0xffff_ffff * 0xffff_ffff) by (nonlinear_arith)
            requires
                width <= 0xffff_ffff,
        ;
        assert(height * height <= 0xffff_ffff * 0xffff_ffff) by (nonlinear_arith)
            requires
                height <= 0xffff_ffff,
        ;
        lemma_distance_nonnegative(*tile, width as int / 2, height as int / 2);
    }
    let square: u128 = (width as u128 * width as u128 + height as u128 * height as u128) / 4;
    let diagonal: u128 = if square < 1 {
        1
    } else {
        square
    };
    let scaled: u128 = distance as u128 * 1_000_000_000_000;
    let ratio: u128 = scaled / diagonal;
    proof {
        assert(ratio <= scaled) by (nonlinear_arith)
            requires
                ratio == scaled / diagonal,
                diagonal >= 1,
                scaled >= 0,
        ;
    }
    let root: u128 = isqrt(ratio);
    let center: i128 = UNIT as i128 - root as i128;
    let frequency: i128 = changes as i128 * UNIT as i128 / frames as i128;
    let speed: i128 = bits as i128 * UNIT as i128 / 64;
    let ghost (wf, ws, wc) = (
        config.priority_frequency_weight as int,
        config.priority_speed_weight as int,
        config.priority_center_weight as int,
    );
    proof {
        assert(0 <= frequency <= 64_000_000) by (nonlinear_arith)
            requires
                frequency == (changes * 1_000_000) / (frames as int),
                0 <= changes <= 64,
                1 <= frames,
        ;
        assert(0 <= frequency * wf <= 64_000_000 * 0xffff_ffff) by (nonlinear_arith)
            requires
                0 <= frequency <= 64_000_000,
                0 <= wf <= 0xffff_ffff,
        ;
        assert(0 <= speed * ws <= 1_000_000 * 0xffff_ffff) by (nonlinear_arith)
            requires
                0 <= speed <= 1_000_000,
                0 <= ws <= 0xffff_ffff,
        ;
        assert(-0x100_0000_0000 * 0xffff_ffff <= center * wc <= 1_000_000 * 0xffff_ffff)
            by (nonlinear_arith)
            requires
                -0x100_0000_0000 <= center <= 1_000_000,
                0 <= wc <= 0xffff_ffff,
        ;
    }
    frequency * config.priority_frequency_weight as i128 + speed * config.priority_speed_weight as i128
        + center * config.priority_center_weight as i128
}

proof fn lemma_distance_nonnegative(tile: Tile, center_x: int, center_y: int)
    ensures
        squared_distance(tile, center_x, center_y) >= 0,
{
    let dx = tile.x + tile.width / 2 - center_x;
    let dy = tile.y + tile.height / 2 - center_y;
    assert(dx * dx + dy * dy >= 0) by (nonlinear_arith);
}

/// Whether position `a` comes before position `b`: the higher score first, and
/// the earlier position among equals.
pub open spec fn goes_before(scores: Seq<i128>, a: int, b: int) -> bool {
    scores[a] > scores[b] || (scores[a] == scores[b] && a < b)
}

/// Whether `order` lists the first `n` positions, each once, by score.
pub open spec fn is_order(scores: Seq<i128>, order: Seq<usize>, n: int) -> bool {
    &&& order.len() == n
    &&& forall|k: int| 0 <= k < order.len() ==> (#[trigger] order[k]) < n
    &&& forall|a: int, b: int|
        0 <= a < b < order.len() ==> goes_before(
            scores,
            #[trigger] order[a] as int,
            #[trigger] order[b] as int,
        )
}

/// The positions of `scores`, highest score first; equal scores keep their
/// order.
pub fn priority_order(scores: &Vec<i128>) -> (order: Vec<usize>)
    ensures
        is_order(scores@, order@, scores@.len() as int),
{
    let mut order: Vec<usize> = Vec::new();
    let mut i: usize = 0;
    while i < scores.len()
        invariant
            i <= scores@.len(),
            is_order(scores@, order@, i as int),
        decreases scores@.len() - i,
    {
        let mut at: usize = i;
        while at > 0 && scores[order[at - 1]] < scores[i]
            invariant
                i < scores@.len(),
                is_order(scores@, order@, i as int),
                at <= i,
                forall|k: int| at <= k < i ==> scores@[#[trigger] order@[k] as int] < scores@[i as int],
            decreases at,
        {
            at -= 1;
        }
        let ghost before = order@;
        order.insert(at, i);
        proof {
            let after = order@;
            assert forall|a: int, b: int| 0 <= a < b < after.len() implies goes_before(
                scores@,
                #[trigger] after[a] as int,
                #[trigger] after[b] as int,
            ) by {
                let pa = if a < at {
                    a
                } else {
                    a - 1
                };
                let pb = if b < at {
                    b
                } else {
                    b - 1
                };
                if a == at {
                    assert(after[b] == before[pb]);
                } else if b == at {
                    assert(after[a] == before[pa]);
                    if at > 0 && pa < at - 1 {
                        assert(goes_before(
                            scores@,
                            before[pa] as int,
                            before[at - 1] as int,
                        ));
                    }
                } else {
                    assert(after[a] == before[pa] && after[b] == before[pb]);
                }
            }
        }
        i += 1;
    }
    order
}

/// An order leaves no position out.
pub proof fn lemma_order_is_complete(scores: Seq<i128>, order: Seq<usize>, n: int, i: int)
    requires
        0 <= i < n <= usize::MAX,
        is_order(scores, order, n),
    ensures
        order.contains(i as usize),
{
    let positions = order.map_values(|p: usize| p as int);
    assert(positions.no_duplicates()) by {
        assert forall|a: int, b: int| 0 <= a < b < order.len() implies positions[a]
            != positions[b] by {
            assert(goes_before(scores, order[a] as int, order[b] as int));
        }
    }
    let seen = positions.to_set();
    let all = vstd::set_lib::set_int_range(0, n);
    vstd::set_lib::lemma_int_range(0, n);
    positions.unique_seq_to_set();
    assert(seen.subset_of(all)) by {
        assert forall|p: int| seen.contains(p) implies all.contains(p) by {
            let k = choose|k: int| 0 <= k < positions.len() && positions[k] == p;
            assert(order[k] < n);
        }
    }
    vstd::set_lib::lemma_subset_equality(seen, all);
    assert(seen.contains(i));
    let k = choose|k: int| 0 <= k < positions.len() && positions[k] == i;
    assert(order[k] == i as usize);
}

proof fn lemma_floor_sqrt_exists(n: int) -> (r: int)
    requires
        0 <= n,
    ensures
        is_floor_sqrt(n, r),
        r == floor_sqrt(n),
    decreases n,
{
    let mut r: int = 0;
    if n == 0 {
        assert(0int * 0 <= n < (0int + 1) * (0 + 1)) by (nonlinear_arith)
            requires
                n == 0,
        ;
    } else {
        let q = lemma_floor_sqrt_exists(n - 1);
        if n < (q + 1) * (q + 1) {
            r = q;
        } else {
            r = q + 1;
            assert((r + 1) * (r + 1) == r * r + 2 * r + 1) by (nonlinear_arith);
        }
    }
    assert(is_floor_sqrt(n, r));
    lemma_floor_sqrt_unique(n, r, floor_sqrt(n));
    r
}

/// Of two tiles alike in everything else, the one nearer the centre scores at
/// least as high.
pub proof fn law_nearer_scores_higher(
    config: Config,
    memory: CellMemory,
    near: int,
    far: int,
    width: int,
    height: int,
)
    requires
        0 <= near <= far,
    ensures
        score(config, memory, near, width, height) >= score(config, memory, far, width, height),
{
    let d = diagonal_square(width, height);
    let u: int = UNIT * UNIT;
    let a = near * u / d;
    let b = far * u / d;
    assert(near * u <= far * u) by (nonlinear_arith)
        requires
            0 <= near <= far,
            0 <= u,
    ;
    assert(near * u >= 0) by (nonlinear_arith)
        requires
            0 <= near,
            0 <= u,
    ;
    vstd::arithmetic::div_mod::lemma_div_is_ordered(near * u, far * u, d);
    vstd::arithmetic::div_mod::lemma_div_pos_is_pos(near * u, d);
    let ra = lemma_floor_sqrt_exists(a);
    let rb = lemma_floor_sqrt_exists(b);
    lemma_floor_sqrt_monotone(a, b, ra, rb);
    let w = config.priority_center_weight as int;
    assert((UNIT - ra) * w >= (UNIT - rb) * w) by (nonlinear_arith)
        requires
            ra <= rb,
            w >= 0,
    ;
}

/// Of two tiles alike in everything else, the one whose cell changed more often
/// over the same number of frames scores at least as high.
pub proof fn law_more_changes_score_higher(
    config: Config,
    quiet: CellMemory,
    busy: CellMemory,
    distance: int,
    width: int,
    height: int,
)
    requires
        quiet.history.len() == busy.history.len(),
        count_true(quiet.history) <= count_true(busy.history),
        quiet.last_hash_diff == busy.last_hash_diff,
    ensures
        score(config, quiet, distance, width, height) <= score(
            config,
            busy,
            distance,
            width,
            height,
        ),
{
    let frames = at_least_one(quiet.history.len() as int);
    let a = count_true(quiet.history) * UNIT;
    let b = count_true(busy.history) * UNIT;
    vstd::arithmetic::div_mod::lemma_div_is_ordered(a, b, frames);
    let w = config.priority_frequency_weight as int;
    assert((a / frames) * w <= (b / frames) * w) by (nonlinear_arith)
        requires
            a / frames <= b / frames,
            w >= 0,
    ;
}

/// The share `part / whole`, in units of which `unit` make one, rounded down.
pub open spec fn is_share(share: int, part: int, whole: int, unit: int) -> bool {
    share * whole <= part * unit < (share + 1) * whole
}

proof fn lemma_share(part: int, whole: int, unit: int)
    requires
        0 <= part,
        1 <= whole,
        0 <= unit,
    ensures
        is_share(part * unit / whole, part, whole, unit),
{
    let p = part * unit;
    vstd::arithmetic::div_mod::lemma_fundamental_div_mod(p, whole);
    vstd::arithmetic::div_mod::lemma_mod_bound(p, whole);
    let q = p / whole;
    assert(whole * q == q * whole && (q + 1) * whole == q * whole + whole) by (nonlinear_arith);
}

/// A tile's score is made of three shares, each times its weight: of the frames
/// remembered, those in which its cell changed; of the sixty-four bits of its hash,
/// those that last changed; and of half the diagonal, what lies between the tile's
/// middle and the edge, its distance squared taken along both axes.
pub proof fn law_score_is_a_weighted_sum_of_shares(
    config: Config,
    memory: CellMemory,
    tile: Tile,
    width: int,
    height: int,
) -> (shares: (int, int, int))
    requires
        0 <= width,
        0 <= height,
    ensures
        ({
            let dx = tile.x + tile.width / 2 - width / 2;
            let dy = tile.y + tile.height / 2 - height / 2;
            let quarter = (width * width + height * height) / 4;
            let (often, much, far) = shares;
            &&& tile_score(config, memory, tile, width, height) == often
                * config.priority_frequency_weight + much * config.priority_speed_weight + (
            1_000_000 - far) * config.priority_center_weight
            &&& memory.history.len() == 0 ==> often == 0
            &&& memory.history.len() > 0 ==> is_share(
                often,
                count_true(memory.history) as int,
                memory.history.len() as int,
                1_000_000,
            )
            &&& is_share(much, popcount(memory.last_hash_diff) as int, 64, 1_000_000)
            &&& 0 <= far
            &&& quarter >= 1 ==> far * far * quarter <= (dx * dx + dy * dy) * 1_000_000_000_000 < (
            far + 1) * (far + 1) * quarter
        }),
{
    let dx = tile.x + tile.width / 2 - width / 2;
    let dy = tile.y + tile.height / 2 - height / 2;
    let quarter = (width * width + height * height) / 4;
    let n = memory.history.len() as int;
    let changes = count_true(memory.history) as int;
    let bits = popcount(memory.last_hash_diff) as int;
    let often = changes * UNIT / at_least_one(n);
    let much = bits * UNIT / 64;
    let d = dx * dx + dy * dy;
    assert(d >= 0) by (nonlinear_arith)
        requires
            d == dx * dx + dy * dy,
    ;
    crate::tile::law_marks_are_counted_by_position(memory.history);
    lemma_share(changes, at_least_one(n), UNIT as int);
    lemma_share(bits, 64, UNIT as int);
    let u: int = UNIT * UNIT;
    let diagonal = diagonal_square(width, height);
    let ratio = d * u / diagonal;
    assert(0 <= d * u) by (nonlinear_arith)
        requires
            0 <= d,
            0 <= u,
    ;
    vstd::arithmetic::div_mod::lemma_div_pos_is_pos(d * u, diagonal);
    let far = lemma_floor_sqrt_exists(ratio);
    lemma_share(d, diagonal, u);
    let low = far * far;
    let high = (far + 1) * (far + 1);
    assert(low * diagonal <= ratio * diagonal) by (nonlinear_arith)
        requires
            low <= ratio,
            1 <= diagonal,
    ;
    assert((ratio + 1) * diagonal <= high * diagonal) by (nonlinear_arith)
        requires
            ratio + 1 <= high,
            1 <= diagonal,
    ;
    (often, much, far)
}

/// Of two tiles alike in everything else, the one whose hash last changed in more
/// bits scores at least as high, and higher where speed has a weight.
pub proof fn law_faster_changes_score_higher(
    config: Config,
    slow: CellMemory,
    fast: CellMemory,
    tile: Tile,
    width: int,
    height: int,
)
    requires
        slow.history == fast.history,
        crate::bits::set_positions(slow.last_hash_diff, 64).len() <= crate::bits::set_positions(
            fast.last_hash_diff,
            64,
        ).len(),
    ensures
        tile_score(config, slow, tile, width, height) <= tile_score(
            config,
            fast,
            tile,
            width,
            height,
        ),
        crate::bits::set_positions(slow.last_hash_diff, 64).len() < crate::bits::set_positions(
            fast.last_hash_diff,
            64,
        ).len() && config.priority_speed_weight > 0 ==> tile_score(
            config,
            slow,
            tile,
            width,
            height,
        ) < tile_score(config, fast, tile, width, height),
{
    crate::bits::law_popcount_counts_positions(slow.last_hash_diff);
    crate::bits::law_popcount_counts_positions(fast.last_hash_diff);
    let a = popcount(slow.last_hash_diff) * UNIT / 64;
    let b = popcount(fast.last_hash_diff) * UNIT / 64;
    let w = config.priority_speed_weight as int;
    assert(a <= b);
    assert(a * w <= b * w) by (nonlinear_arith)
        requires
            a <= b,
            0 <= w,
    ;
    if a < b && w > 0 {
        assert(a * w < b * w) by (nonlinear_arith)
            requires
                a < b,
                0 < w,
        ;
    }
}

/// Of two tiles alike in everything else, the one whose cell changed in more of the
/// frames remembered scores higher where frequency has a weight.
pub proof fn law_busier_cells_score_higher(
    config: Config,
    quiet: CellMemory,
    busy: CellMemory,
    tile: Tile,
    width: int,
    height: int,
)
    requires
        quiet.history.len() == busy.history.len() <= 1_000_000,
        crate::tile::marked(quiet.history).len() < crate::tile::marked(busy.history).len(),
        quiet.last_hash_diff == busy.last_hash_diff,
        config.priority_frequency_weight > 0,
    ensures
        tile_score(config, quiet, tile, width, height) < tile_score(
            config,
            busy,
            tile,
            width,
            height,
        ),
{
    crate::tile::law_marks_are_counted_by_position(quiet.history);
    crate::tile::law_marks_are_counted_by_position(busy.history);
    let n = at_least_one(quiet.history.len() as int);
    let (p, q) = (count_true(quiet.history) as int, count_true(busy.history) as int);
    let (a, b) = (p * UNIT / n, q * UNIT / n);
    lemma_share(p, n, UNIT as int);
    lemma_share(q, n, UNIT as int);
    assert(a < b) by (nonlinear_arith)
        requires
            a * n <= p * 1_000_000,
            q * 1_000_000 < (b + 1) * n,
            p + 1 <= q,
            1 <= n <= 1_000_000,
    ;
    let w = config.priority_frequency_weight as int;
    assert(a * w < b * w) by (nonlinear_arith)
        requires
            a < b,
            0 < w,
    ;
}

/// Of two tiles alike in everything else, one whose middle is no further from the
/// frame's middle along either axis scores at least as high.
pub proof fn law_tiles_near_the_middle_score_higher(
    config: Config,
    memory: CellMemory,
    near: Tile,
    far: Tile,
    width: int,
    height: int,
)
    requires
        ({
            let (nx, ny) = (
                near.x + near.width / 2 - width / 2,
                near.y + near.height / 2 - height / 2,
            );
            let (fx, fy) = (far.x + far.width / 2 - width / 2, far.y + far.height / 2 - height / 2);
            &&& -fx <= nx <= fx || fx <= nx <= -fx
            &&& -fy <= ny <= fy || fy <= ny <= -fy
        }),
    ensures
        tile_score(config, memory, near, width, height) >= tile_score(
            config,
            memory,
            far,
            width,
            height,
        ),
{
    let (nx, ny) = (near.x + near.width / 2 - width / 2, near.y + near.height / 2 - height / 2);
    let (fx, fy) = (far.x + far.width / 2 - width / 2, far.y + far.height / 2 - height / 2);
    assert(0 <= nx * nx && nx * nx <= fx * fx) by (nonlinear_arith)
        requires
            -fx <= nx <= fx || fx <= nx <= -fx,
    ;
    assert(0 <= ny * ny && ny * ny <= fy * fy) by (nonlinear_arith)
        requires
            -fy <= ny <= fy || fy <= ny <= -fy,
    ;
    law_nearer_scores_higher(
        config,
        memory,
        squared_distance(near, width / 2, height / 2),
        squared_distance(far, width / 2, height / 2),
        width,
        height,
    );
}

/// The order goes by score, highest first, and leaves nothing out: each position
/// stands in it once, no score is followed by a higher one, and of two equal
/// scores the earlier comes first.
pub proof fn law_order_is_by_score(scores: Seq<i128>, order: Seq<usize>)
    requires
        is_order(scores, order, scores.len() as int),
        scores.len() <= usize::MAX,
    ensures
        order.len() == scores.len(),
        order.no_duplicates(),
        forall|i: int|
            0 <= i < scores.len() ==> order.contains(#[trigger] at_position(i)),
        forall|a: int, b: int|
            0 <= a < b < order.len() ==> scores[#[trigger] order[a] as int]
                >= scores[#[trigger] order[b] as int],
        forall|a: int, b: int|
            0 <= a < b < order.len() && scores[#[trigger] order[a] as int]
                == scores[#[trigger] order[b] as int] ==> order[a] < order[b],
{
    assert forall|i: int| 0 <= i < scores.len() implies order.contains(
        #[trigger] at_position(i),
    ) by {
        lemma_order_is_complete(scores, order, scores.len() as int, i);
    }
    assert forall|a: int, b: int| 0 <= a < b < order.len() implies order[a] != order[b] by {
        assert(goes_before(scores, order[a] as int, order[b] as int));
    }
}

/// A position in a list.
pub open spec fn at_position(i: int) -> usize {
    i as usize
}

} // verus!
