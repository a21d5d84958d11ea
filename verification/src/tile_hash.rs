//! Content hashes of tiles.
//!
//! A tile is hashed in two or four 64-bit lanes. Every chunk adds a running,
//! per-lane seed to the lane's word before it is folded in, so a repeated word
//! cannot cancel itself; the lanes are then rotated apart, combined and mixed.

use vstd::arithmetic::div_mod::{lemma_add_mod_noop, lemma_fundamental_div_mod_converse, lemma_mod_bound};
use vstd::arithmetic::mul::lemma_mul_inequality;
use vstd::prelude::*;
use vstd::slice::slice_subrange;

verus! {

/// Lane 0: the splitmix64 increment.
pub const SEED_LANE_0: u64 = 0x9e3779b97f4a7c15;

/// Lane 1: the first MurmurHash3 finalizer constant.
pub const SEED_LANE_1: u64 = 0xff51afd7ed558ccd;

/// Lane 2: the second MurmurHash3 finalizer constant.
pub const SEED_LANE_2: u64 = 0xc4ceb9fe1a85ec53;

/// Lane 3: the splitmix64 mixing constant.
pub const SEED_LANE_3: u64 = 0xbf58476d1ce4e5b9;

/// 2^64: hash arithmetic wraps at this bound.
pub open spec fn word_bound() -> int {
    0x1_0000_0000_0000_0000
}

/// The mixing constant of a lane.
pub open spec fn lane_seed(lane: int) -> u64 {
    if lane == 0 {
        SEED_LANE_0
    } else if lane == 1 {
        SEED_LANE_1
    } else if lane == 2 {
        SEED_LANE_2
    } else {
        SEED_LANE_3
    }
}

/// The running seed of a lane after `steps` increments: it starts at the
/// lane's constant and grows by that constant, modulo 2^64.
pub open spec fn seed_after(lane: int, steps: nat) -> u64 {
    ((lane_seed(lane) * (steps + 1)) % word_bound()) as u64
}

/// Byte `k` of `data`, zero past its end.
pub open spec fn byte_or_zero(data: Seq<u8>, k: int) -> int {
    if 0 <= k < data.len() {
        data[k] as int
    } else {
        0
    }
}

/// The little-endian word that starts at byte `at`, zero-padded.
pub open spec fn word_at(data: Seq<u8>, at: int) -> u64 {
    (byte_or_zero(data, at) + byte_or_zero(data, at + 1) * 0x100 + byte_or_zero(data, at + 2)
        * 0x1_0000 + byte_or_zero(data, at + 3) * 0x100_0000 + byte_or_zero(data, at + 4)
        * 0x1_0000_0000 + byte_or_zero(data, at + 5) * 0x100_0000_0000 + byte_or_zero(data, at + 6)
        * 0x1_0000_0000_0000 + byte_or_zero(data, at + 7) * 0x100_0000_0000_0000) as u64
}

/// What lane `lane` of `lanes` holds after the first `chunks` whole chunks.
pub open spec fn lane_after(data: Seq<u8>, lanes: int, lane: int, chunks: nat) -> u64
    decreases chunks,
{
    if chunks == 0 {
        0
    } else {
        let c = (chunks - 1) as nat;
        lane_after(data, lanes, lane, c) ^ word_at(data, (c * lanes + lane) * 8).wrapping_add(
            seed_after(lane, chunks),
        )
    }
}

/// What lane `lane` holds in the end: a remainder shorter than a chunk is
/// zero-padded and takes the seed as it stands.
pub open spec fn lane_total(data: Seq<u8>, lanes: int, lane: int) -> u64 {
    let chunks = (data.len() as int / (lanes * 8)) as nat;
    if data.len() as int % (lanes * 8) == 0 {
        lane_after(data, lanes, lane, chunks)
    } else {
        lane_after(data, lanes, lane, chunks) ^ word_at(
            data,
            (chunks * lanes + lane) * 8,
        ).wrapping_add(seed_after(lane, chunks))
    }
}

/// `x` rotated left by `r` bits, `0 < r < 64`.
pub open spec fn rotated(x: u64, r: u64) -> u64 {
    (x << r) | (x >> ((64 - r) as u64))
}

/// The first `n` lanes, rotated apart and combined with the length.
pub open spec fn combined(lanes: Seq<u64>, len: u64, n: nat) -> u64
    decreases n,
{
    if n == 0 {
        len
    } else {
        combined(lanes, len, (n - 1) as nat) ^ rotated(lanes[n - 1], ((n - 1) * 16 + 1) as u64)
    }
}

/// MurmurHash3's 64-bit finalizer.
pub open spec fn fmix64(h: u64) -> u64 {
    let a = (h ^ (h >> 33)).wrapping_mul(0xff51afd7ed558ccd);
    let b = (a ^ (a >> 33)).wrapping_mul(0xc4ceb9fe1a85ec53);
    b ^ (b >> 33)
}

/// The hash of `data` in `lanes` lanes.
pub open spec fn lanes_hash(data: Seq<u8>, lanes: int) -> u64 {
    fmix64(
        combined(
            Seq::new(lanes as nat, |lane: int| lane_total(data, lanes, lane)),
            data.len() as u64,
            lanes as nat,
        ),
    )
}

proof fn lemma_seed_step(lane: int, steps: nat)
    ensures
        seed_after(lane, steps).wrapping_add(lane_seed(lane)) == seed_after(lane, steps + 1),
{
    let s = lane_seed(lane) as int;
    let a = s * (steps + 1);
    lemma_mod_bound(a, word_bound());
    lemma_mod_bound(a + s, word_bound());
    assert(s * (steps + 2) == a + s) by (nonlinear_arith)
        requires
            a == s * (steps + 1),
    ;
    lemma_add_mod_noop(a, s, word_bound());
    assert(s % word_bound() == s);
    let t = a % word_bound() + s;
    if t < word_bound() {
        lemma_fundamental_div_mod_converse(t, word_bound(), 0, t);
    } else {
        lemma_fundamental_div_mod_converse(t, word_bound(), 1, t - word_bound());
    }
}

fn byte_past(data: &[u8], at: usize, k: usize) -> (b: u64)
    requires
        at <= data@.len(),
    ensures
        b == byte_or_zero(data@, at + k),
{
    if k < data.len() - at {
        data[at + k] as u64
    } else {
        0
    }
}

fn read_word(data: &[u8], at: usize) -> (w: u64)
    requires
        at <= data@.len(),
    ensures
        w == word_at(data@, at as int),
{
    byte_past(data, at, 0) + byte_past(data, at, 1) * 0x100 + byte_past(data, at, 2) * 0x1_0000
        + byte_past(data, at, 3) * 0x100_0000 + byte_past(data, at, 4) * 0x1_0000_0000 + byte_past(
        data,
        at,
        5,
    ) * 0x100_0000_0000 + byte_past(data, at, 6) * 0x1_0000_0000_0000 + byte_past(data, at, 7)
        * 0x100_0000_0000_0000
}

/// Combines accumulator lanes into one hash: each lane is rotated by a
/// different amount before it is folded in, so that equal lanes do not cancel,
/// and the result goes through a finalizer.
pub fn fold_lanes(lanes: &[u64], len: u64) -> (h: u64)
    requires
        lanes@.len() <= 4,
    ensures
        h == fmix64(combined(lanes@, len, lanes@.len())),
{
    let mut h: u64 = len;
    let mut i: usize = 0;
    while i < lanes.len()
        invariant
            lanes@.len() <= 4,
            i <= lanes@.len(),
            h == combined(lanes@, len, i as nat),
        decreases lanes@.len() - i,
    {
        let r: u64 = i as u64 * 16 + 1;
        let lane: u64 = lanes[i];
        h = h ^ ((lane << r) | (lane >> (64 - r)));
        i += 1;
    }
    h = h ^ (h >> 33u64);
    h = h.wrapping_mul(0xff51afd7ed558ccd);
    h = h ^ (h >> 33u64);
    h = h.wrapping_mul(0xc4ceb9fe1a85ec53);
    h ^ (h >> 33u64)
}

fn seed_of_lane(lane: usize) -> (s: u64)
    ensures
        s == lane_seed(lane as int),
{
    if lane == 0 {
        SEED_LANE_0
    } else if lane == 1 {
        SEED_LANE_1
    } else if lane == 2 {
        SEED_LANE_2
    } else {
        SEED_LANE_3
    }
}

/// Folds every word of one chunk into its lane.
fn absorb_chunk(data: &[u8], base: usize, acc: &mut Vec<u64>, seeds: &Vec<u64>)
    requires
        base <= data@.len(),
        old(acc)@.len() == seeds@.len(),
        seeds@.len() <= 4,
    ensures
        final(acc)@.len() == old(acc)@.len(),
        forall|lane: int|
            0 <= lane < seeds@.len() ==> #[trigger] final(acc)@[lane] == old(acc)@[lane] ^ word_at(
                data@,
                base + lane * 8,
            ).wrapping_add(seeds@[lane]),
{
    let mut lane: usize = 0;
    while lane < seeds.len()
        invariant
            base <= data@.len(),
            lane <= seeds@.len() <= 4,
            acc@.len() == old(acc)@.len() == seeds@.len(),
            forall|l: int|
                0 <= l < lane ==> #[trigger] acc@[l] == old(acc)@[l] ^ word_at(
                    data@,
                    base + l * 8,
                ).wrapping_add(seeds@[l]),
            forall|l: int| lane <= l < seeds@.len() ==> acc@[l] == old(acc)@[l],
        decreases seeds@.len() - lane,
    {
        let word: u64 = if lane * 8 < data.len() - base {
            read_word(data, base + lane * 8)
        } else {
            0
        };
        let mixed: u64 = word.wrapping_add(seeds[lane]);
        let folded: u64 = acc[lane] ^ mixed;
        acc.set(lane, folded);
        lane += 1;
    }
}

/// Hashes `data` in `lanes` lanes of eight bytes per chunk.
fn hash_lanes(data: &[u8], lanes: usize) -> (h: u64)
    requires
        1 <= lanes <= 4,
    ensures
        h == lanes_hash(data@, lanes as int),
{
    let mut acc: Vec<u64> = Vec::new();
    let mut seeds: Vec<u64> = Vec::new();
    let mut lane: usize = 0;
    while lane < lanes
        invariant
            lane <= lanes <= 4,
            acc@.len() == lane,
            seeds@.len() == lane,
            forall|l: int| 0 <= l < lane ==> acc@[l] == 0,
            forall|l: int| 0 <= l < lane ==> #[trigger] seeds@[l] == seed_after(l, 0),
        decreases lanes - lane,
    {
        assert(lane_seed(lane as int) * (0nat + 1) == lane_seed(lane as int)) by (nonlinear_arith);
        acc.push(0);
        seeds.push(seed_of_lane(lane));
        lane += 1;
    }
    let width: usize = lanes * 8;
    let total: usize = data.len();
    let chunks: usize = total / width;
    let mut c: usize = 0;
    while c < chunks
        invariant
            1 <= lanes <= 4,
            width == lanes * 8,
            total == data@.len(),
            chunks == total as int / width as int,
            c <= chunks,
            acc@.len() == lanes,
            seeds@.len() == lanes,
            forall|l: int|
                0 <= l < lanes ==> #[trigger] acc@[l] == lane_after(data@, lanes as int, l, c as nat),
            forall|l: int| 0 <= l < lanes ==> #[trigger] seeds@[l] == seed_after(l, c as nat),
        decreases chunks - c,
    {
        let mut s: usize = 0;
        while s < lanes
            invariant
                s <= lanes <= 4,
                seeds@.len() == lanes,
                forall|l: int| 0 <= l < s ==> #[trigger] seeds@[l] == seed_after(l, (c + 1) as nat),
                forall|l: int| s <= l < lanes ==> #[trigger] seeds@[l] == seed_after(l, c as nat),
            decreases lanes - s,
        {
            proof {
                lemma_seed_step(s as int, c as nat);
            }
            let next: u64 = seeds[s].wrapping_add(seed_of_lane(s));
            seeds.set(s, next);
            s += 1;
        }
        proof {
            lemma_chunk_start(total as int, width as int, c as int);
            assert(c * width == c * lanes * 8) by (nonlinear_arith)
                requires
                    width == lanes * 8,
            ;
        }
        absorb_chunk(data, c * width, &mut acc, &seeds);
        c += 1;
    }
    proof {
        lemma_chunk_start(total as int, width as int, chunks as int);
        assert(chunks * width == chunks * lanes * 8) by (nonlinear_arith)
            requires
                width == lanes * 8,
        ;
    }
    if total % width != 0 {
        absorb_chunk(data, chunks * width, &mut acc, &seeds);
    }
    assert(acc@ =~= Seq::new(
        lanes as nat,
        |lane: int| lane_total(data@, lanes as int, lane),
    ));
    fold_lanes(acc.as_slice(), total as u64)
}

proof fn lemma_chunk_start(len: int, width: int, c: int)
    requires
        0 < width,
        0 <= len,
        0 <= c <= len / width,
    ensures
        0 <= c * width <= len,
{
    vstd::arithmetic::div_mod::lemma_fundamental_div_mod(len, width);
    lemma_mod_bound(len, width);
    lemma_mul_inequality(c, len / width, width);
    assert(c * width >= 0) by (nonlinear_arith)
        requires
            c >= 0,
            width > 0,
    ;
    assert(width * (len / width) == (len / width) * width) by (nonlinear_arith);
}

/// Four lanes, thirty-two bytes per chunk.
pub fn hash_avx2(data: &[u8]) -> (h: u64)
    ensures
        h == lanes_hash(data@, 4),
{
    hash_lanes(data, 4)
}

/// Two lanes, sixteen bytes per chunk.
pub fn hash_sse2(data: &[u8]) -> (h: u64)
    ensures
        h == lanes_hash(data@, 2),
{
    hash_lanes(data, 2)
}

/// XXH3's 64-bit digest of `data`, as `xxhash_rust` computes it.
pub uninterp spec fn xxh3_digest(data: Seq<u8>) -> u64;

/// Hashes on processors without a vector unit, by `xxhash_rust::xxh3::Xxh3`:
/// a fresh hasher, one `update` with `data`, then `digest`. Claimed of it is
/// only that the digest depends on the bytes alone.
#[verifier::external_body]
pub(crate) fn hash_scalar(data: &[u8]) -> (h: u64)
    ensures
        h == xxh3_digest(data@),
{
    let mut hasher = xxhash_rust::xxh3::Xxh3::new();
    hasher.update(data);
    hasher.digest()
}

/// Which hash a processor runs.
#[derive(Clone, Copy, Debug, PartialEq, Eq, Structural)]
pub enum SimdLevel {
    Avx2,
    Sse2,
    Scalar,
}

impl SimdLevel {
    /// The widest level among the features that the processor reports.
    pub fn detect(avx2: bool, sse2: bool) -> (level: SimdLevel)
        ensures
            level == (if avx2 {
                SimdLevel::Avx2
            } else if sse2 {
                SimdLevel::Sse2
            } else {
                SimdLevel::Scalar
            }),
    {
        if avx2 {
            return SimdLevel::Avx2;
        }
        if sse2 {
            return SimdLevel::Sse2;
        }
        SimdLevel::Scalar
    }
}

/// The hash of `data` at `level`.
pub open spec fn content_hash(level: SimdLevel, data: Seq<u8>) -> u64 {
    match level {
        SimdLevel::Avx2 => lanes_hash(data, 4),
        SimdLevel::Sse2 => lanes_hash(data, 2),
        SimdLevel::Scalar => xxh3_digest(data),
    }
}

/// Hashes contiguous bytes.
pub fn hash_contiguous(level: SimdLevel, data: &[u8]) -> (h: u64)
    ensures
        h == content_hash(level, data@),
{
    match level {
        SimdLevel::Avx2 => hash_avx2(data),
        SimdLevel::Sse2 => hash_sse2(data),
        SimdLevel::Scalar => hash_scalar(data),
    }
}

/// Where sampled row `row` of a tile starts in the frame's bytes: the tile's
/// corner is pixel `(x, y)`, `stride` pixels make a frame row, and every
/// `step`-th row is sampled.
pub open spec fn row_start(x: int, y: int, stride: int, step: int, row: int) -> int {
    ((y + row * step) * stride + x) * 4
}

/// The first `rows` sampled rows of a tile, `width` pixels each, back to back.
pub open spec fn sampled_rows(
    rgba: Seq<u8>,
    x: int,
    y: int,
    width: int,
    stride: int,
    step: int,
    rows: nat,
) -> Seq<u8>
    decreases rows,
{
    if rows == 0 {
        Seq::empty()
    } else {
        let start = row_start(x, y, stride, step, rows - 1);
        sampled_rows(rgba, x, y, width, stride, step, (rows - 1) as nat) + rgba.subrange(
            start,
            start + width * 4,
        )
    }
}

/// Whether `rows` sampled rows of a tile lie inside a buffer of `len` bytes.
pub open spec fn rows_inside(
    len: int,
    x: int,
    y: int,
    width: int,
    stride: int,
    step: int,
    rows: int,
) -> bool {
    rows == 0 || row_start(x, y, stride, step, rows - 1) + width * 4 <= len
}

/// The column a tile is read from: a tile as wide as the frame starts at the
/// frame's left edge.
pub open spec fn read_column(x: int, width: int, stride: int) -> int {
    if width == stride {
        0
    } else {
        x
    }
}

/// The pixels that [`hash_tile`] hashes.
pub open spec fn tile_pixels(rgba: Seq<u8>, x: int, y: int, width: int, height: int, stride: int) -> Seq<
    u8,
> {
    sampled_rows(rgba, read_column(x, width, stride), y, width, stride, 1, height as nat)
}

/// The pixels that [`hash_tile_half`] hashes: rows `y`, `y + 2`, `y + 4`, ...
pub open spec fn half_tile_pixels(
    rgba: Seq<u8>,
    x: int,
    y: int,
    width: int,
    height: int,
    stride: int,
) -> Seq<u8> {
    sampled_rows(rgba, x, y, width, stride, 2, ((height + 1) / 2) as nat)
}

pub proof fn lemma_rows_inside_prefix(
    len: int,
    x: int,
    y: int,
    width: int,
    stride: int,
    step: int,
    rows: int,
    row: int,
)
    requires
        0 <= x,
        0 <= y,
        0 <= width,
        0 <= stride,
        0 <= step,
        0 <= row < rows,
        rows_inside(len, x, y, width, stride, step, rows),
    ensures
        0 <= row * step,
        0 <= (y + row * step) * stride,
        0 <= row_start(x, y, stride, step, row),
        row_start(x, y, stride, step, row) + width * 4 <= len,
{
    lemma_mul_inequality(row, rows - 1, step);
    lemma_mul_inequality(y + row * step, y + (rows - 1) * step, stride);
    assert(row * step >= 0) by (nonlinear_arith)
        requires
            row >= 0,
            step >= 0,
    ;
    let at = y + row * step;
    assert(at * stride >= 0) by (nonlinear_arith)
        requires
            at >= 0,
            stride >= 0,
    ;
}

pub proof fn lemma_sampled_rows_len(
    rgba: Seq<u8>,
    x: int,
    y: int,
    width: int,
    stride: int,
    step: int,
    rows: nat,
)
    requires
        0 <= x,
        0 <= y,
        0 <= width,
        0 <= stride,
        0 <= step,
        rows_inside(rgba.len() as int, x, y, width, stride, step, rows as int),
    ensures
        sampled_rows(rgba, x, y, width, stride, step, rows).len() == rows * width * 4,
    decreases rows,
{
    if rows > 0 {
        let prev = (rows - 1) as nat;
        lemma_rows_inside_prefix(
            rgba.len() as int,
            x,
            y,
            width,
            stride,
            step,
            rows as int,
            rows - 1,
        );
        if prev > 0 {
            lemma_rows_inside_prefix(
                rgba.len() as int,
                x,
                y,
                width,
                stride,
                step,
                rows as int,
                prev - 1,
            );
        }
        lemma_sampled_rows_len(rgba, x, y, width, stride, step, prev);
        assert(rows * width * 4 == prev * width * 4 + width * 4) by (nonlinear_arith)
            requires
                rows == prev + 1,
        ;
    } else {
        assert(0 * width * 4 == 0);
    }
}

/// Byte `k` of sampled row `row` is that byte of the frame.
pub proof fn lemma_sampled_byte(
    rgba: Seq<u8>,
    x: int,
    y: int,
    width: int,
    stride: int,
    step: int,
    rows: nat,
    row: int,
    k: int,
)
    requires
        0 <= x,
        0 <= y,
        0 <= width,
        0 <= stride,
        0 <= step,
        0 <= row < rows,
        0 <= k < width * 4,
        rows_inside(rgba.len() as int, x, y, width, stride, step, rows as int),
    ensures
        0 <= row * width * 4 + k < sampled_rows(rgba, x, y, width, stride, step, rows).len(),
        sampled_rows(rgba, x, y, width, stride, step, rows)[row * width * 4 + k]
            == rgba[row_start(x, y, stride, step, row) + k],
    decreases rows,
{
    let prev = (rows - 1) as nat;
    lemma_rows_inside_prefix(rgba.len() as int, x, y, width, stride, step, rows as int, rows - 1);
    lemma_sampled_rows_len(rgba, x, y, width, stride, step, rows);
    if prev > 0 {
        lemma_rows_inside_prefix(
            rgba.len() as int,
            x,
            y,
            width,
            stride,
            step,
            rows as int,
            prev - 1,
        );
    }
    lemma_sampled_rows_len(rgba, x, y, width, stride, step, prev);
    assert(rows * width * 4 == prev * width * 4 + width * 4) by (nonlinear_arith)
        requires
            rows == prev + 1,
    ;
    assert(0 <= row * width * 4) by (nonlinear_arith)
        requires
            row >= 0,
            width >= 0,
    ;
    if row < prev {
        assert(row * width * 4 + width * 4 <= prev * width * 4) by (nonlinear_arith)
            requires
                row + 1 <= prev,
                width >= 0,
        ;
        lemma_sampled_byte(rgba, x, y, width, stride, step, prev, row, k);
    }
}

/// Copies the sampled rows of a tile into one buffer.
fn gather_rows(
    rgba: &[u8],
    x: u32,
    y: u32,
    width: u32,
    stride: u32,
    step: u32,
    rows: u32,
) -> (out: Vec<u8>)
    requires
        step <= 2,
        rows_inside(
            rgba@.len() as int,
            x as int,
            y as int,
            width as int,
            stride as int,
            step as int,
            rows as int,
        ),
    ensures
        out@ == sampled_rows(
            rgba@,
            x as int,
            y as int,
            width as int,
            stride as int,
            step as int,
            rows as nat,
        ),
{
    let mut out: Vec<u8> = Vec::new();
    let total: usize = rgba.len();
    let mut row: u32 = 0;
    while row < rows
        invariant
            step <= 2,
            row <= rows,
            total == rgba@.len(),
            rows_inside(
                rgba@.len() as int,
                x as int,
                y as int,
                width as int,
                stride as int,
                step as int,
                rows as int,
            ),
            out@ == sampled_rows(
                rgba@,
                x as int,
                y as int,
                width as int,
                stride as int,
                step as int,
                row as nat,
            ),
        decreases rows - row,
    {
        proof {
            lemma_rows_inside_prefix(
                rgba@.len() as int,
                x as int,
                y as int,
                width as int,
                stride as int,
                step as int,
                rows as int,
                row as int,
            );
            assert(row * step <= row * 2) by (nonlinear_arith)
                requires
                    step <= 2,
            ;
        }
        let at: u64 = y as u64 + row as u64 * step as u64;
        let start: u64 = (at * stride as u64 + x as u64) * 4;
        let end: u64 = start + width as u64 * 4;
        let piece: &[u8] = slice_subrange(rgba, start as usize, end as usize);
        let ghost before = out@;
        out.extend_from_slice(piece);
        assert(out@ =~= before + piece@);
        row += 1;
    }
    out
}

proof fn lemma_full_width_rows(rgba: Seq<u8>, y: int, stride: int, rows: nat)
    requires
        0 <= y,
        0 <= stride,
        (y + rows) * stride * 4 <= rgba.len(),
    ensures
        sampled_rows(rgba, 0, y, stride, stride, 1, rows) == rgba.subrange(
            y * stride * 4,
            (y + rows) * stride * 4,
        ),
        0 <= y * stride * 4 <= (y + rows) * stride * 4,
    decreases rows,
{
    assert(0 <= y * stride <= (y + rows) * stride) by (nonlinear_arith)
        requires
            0 <= y,
            0 <= stride,
            0 <= rows,
    ;
    if rows > 0 {
        let prev = (rows - 1) as nat;
        assert((y + prev) * stride + stride == (y + rows) * stride) by (nonlinear_arith)
            requires
                rows == prev + 1,
        ;
        lemma_full_width_rows(rgba, y, stride, prev);
        assert(prev * 1 == prev);
        assert(rgba.subrange(y * stride * 4, (y + rows) * stride * 4) =~= rgba.subrange(
            y * stride * 4,
            (y + prev) * stride * 4,
        ) + rgba.subrange((y + prev) * stride * 4, (y + rows) * stride * 4));
    } else {
        assert(rgba.subrange(y * stride * 4, (y + rows) * stride * 4) =~= Seq::empty());
    }
}

/// Whether the tile's pixels lie inside a frame buffer of `len` bytes.
pub open spec fn tile_inside(len: int, x: int, y: int, width: int, height: int, stride: int) -> bool {
    if width == stride {
        (y + height) * stride * 4 <= len
    } else {
        rows_inside(len, x, y, width, stride, 1, height)
    }
}

/// Hashes the pixels of a tile at `level`. A tile as wide as the frame is
/// hashed in place.
pub fn hash_tile_with(
    level: SimdLevel,
    rgba: &[u8],
    x: u32,
    y: u32,
    width: u32,
    height: u32,
    frame_width: u32,
) -> (h: u64)
    requires
        tile_inside(
            rgba@.len() as int,
            x as int,
            y as int,
            width as int,
            height as int,
            frame_width as int,
        ),
    ensures
        h == content_hash(
            level,
            tile_pixels(
                rgba@,
                x as int,
                y as int,
                width as int,
                height as int,
                frame_width as int,
            ),
        ),
{
    if width == frame_width {
        let total: usize = rgba.len();
        proof {
            lemma_full_width_rows(rgba@, y as int, frame_width as int, height as nat);
        }
        let end_row: u64 = y as u64 + height as u64;
        proof {
            assert(end_row * frame_width <= 0x2_0000_0000 * 0x1_0000_0000) by (nonlinear_arith)
                requires
                    end_row <= 0x2_0000_0000,
                    frame_width <= 0x1_0000_0000,
            ;
            assert(y * frame_width <= end_row * frame_width) by (nonlinear_arith)
                requires
                    y <= end_row,
            ;
        }
        let start: u64 = y as u64 * frame_width as u64 * 4;
        let end: u64 = end_row * frame_width as u64 * 4;
        let piece: &[u8] = slice_subrange(rgba, start as usize, end as usize);
        return hash_contiguous(level, piece);
    }
    let pixels: Vec<u8> = gather_rows(rgba, x, y, width, frame_width, 1, height);
    hash_contiguous(level, pixels.as_slice())
}

/// Hashes every second row of a tile at `level`, from its top row on.
pub fn hash_tile_half_with(
    level: SimdLevel,
    rgba: &[u8],
    x: u32,
    y: u32,
    width: u32,
    height: u32,
    frame_width: u32,
) -> (h: u64)
    requires
        rows_inside(
            rgba@.len() as int,
            x as int,
            y as int,
            width as int,
            frame_width as int,
            2,
            (height + 1) / 2,
        ),
    ensures
        h == content_hash(
            level,
            half_tile_pixels(
                rgba@,
                x as int,
                y as int,
                width as int,
                height as int,
                frame_width as int,
            ),
        ),
{
    let rows: u32 = height / 2 + height % 2;
    let pixels: Vec<u8> = gather_rows(rgba, x, y, width, frame_width, 2, rows);
    hash_contiguous(level, pixels.as_slice())
}

/// Hashes the pixels of a tile in four lanes.
pub fn hash_tile(rgba: &[u8], x: u32, y: u32, width: u32, height: u32, frame_width: u32) -> (h: u64)
    requires
        tile_inside(
            rgba@.len() as int,
            x as int,
            y as int,
            width as int,
            height as int,
            frame_width as int,
        ),
    ensures
        h == lanes_hash(
            tile_pixels(
                rgba@,
                x as int,
                y as int,
                width as int,
                height as int,
                frame_width as int,
            ),
            4,
        ),
{
    hash_tile_with(SimdLevel::Avx2, rgba, x, y, width, height, frame_width)
}

/// Hashes every second row of a tile in four lanes.
pub fn hash_tile_half(
    rgba: &[u8],
    x: u32,
    y: u32,
    width: u32,
    height: u32,
    frame_width: u32,
) -> (h: u64)
    requires
        rows_inside(
            rgba@.len() as int,
            x as int,
            y as int,
            width as int,
            frame_width as int,
            2,
            (height + 1) / 2,
        ),
    ensures
        h == lanes_hash(
            half_tile_pixels(
                rgba@,
                x as int,
                y as int,
                width as int,
                height as int,
                frame_width as int,
            ),
            4,
        ),
{
    hash_tile_half_with(SimdLevel::Avx2, rgba, x, y, width, height, frame_width)
}

/// The half hash is blind to rows it does not sample: two frames that agree on
/// rows `y`, `y + 2`, `y + 4`, ... of a tile give the tile the same half hash,
/// at every level.
pub proof fn law_half_hash_reads_sampled_rows_only(
    level: SimdLevel,
    a: Seq<u8>,
    b: Seq<u8>,
    x: int,
    y: int,
    width: int,
    height: int,
    stride: int,
)
    requires
        0 <= x,
        0 <= y,
        0 <= width,
        0 <= height,
        0 <= stride,
        a.len() == b.len(),
        rows_inside(a.len() as int, x, y, width, stride, 2, (height + 1) / 2),
        forall|row: int, k: int|
            #![trigger a[row_start(x, y, stride, 2, row) + k]]
            0 <= row < (height + 1) / 2 && 0 <= k < width * 4 ==> a[row_start(x, y, stride, 2, row)
                + k] == b[row_start(x, y, stride, 2, row) + k],
    ensures
        content_hash(level, half_tile_pixels(a, x, y, width, height, stride)) == content_hash(
            level,
            half_tile_pixels(b, x, y, width, height, stride),
        ),
{
    let rows = ((height + 1) / 2) as nat;
    lemma_same_sampled_rows(a, b, x, y, width, stride, 2, rows, rows);
}

proof fn lemma_same_sampled_rows(
    a: Seq<u8>,
    b: Seq<u8>,
    x: int,
    y: int,
    width: int,
    stride: int,
    step: int,
    rows: nat,
    n: nat,
)
    requires
        0 <= x,
        0 <= y,
        0 <= width,
        0 <= stride,
        0 <= step,
        n <= rows,
        a.len() == b.len(),
        rows_inside(a.len() as int, x, y, width, stride, step, rows as int),
        forall|row: int, k: int|
            #![trigger a[row_start(x, y, stride, step, row) + k]]
            0 <= row < rows && 0 <= k < width * 4 ==> a[row_start(x, y, stride, step, row) + k]
                == b[row_start(x, y, stride, step, row) + k],
    ensures
        sampled_rows(a, x, y, width, stride, step, n) == sampled_rows(
            b,
            x,
            y,
            width,
            stride,
            step,
            n,
        ),
    decreases n,
{
    if n > 0 {
        lemma_same_sampled_rows(a, b, x, y, width, stride, step, rows, (n - 1) as nat);
        lemma_rows_inside_prefix(a.len() as int, x, y, width, stride, step, rows as int, n - 1);
        let start = row_start(x, y, stride, step, n - 1);
        let sa = a.subrange(start, start + width * 4);
        let sb = b.subrange(start, start + width * 4);
        assert forall|k: int| 0 <= k < width * 4 implies #[trigger] sa[k] == sb[k] by {
            assert(a[row_start(x, y, stride, step, n - 1) + k] == b[start + k]);
        }
        assert(sa =~= sb);
    }
}

/// Whether two byte strings of one length differ, and only within the eight bytes
/// from `at` on.
pub open spec fn differ_in_a_word(a: Seq<u8>, b: Seq<u8>, at: int) -> bool {
    &&& a.len() == b.len()
    &&& 0 <= at
    &&& at % 8 == 0
    &&& forall|k: int| 0 <= k < a.len() && !(at <= k < at + 8) ==> #[trigger] a[k] == b[k]
    &&& a != b
}

proof fn lemma_low_digit(a: int, ra: int, b: int, rb: int)
    requires
        0 <= a < 0x100,
        0 <= b < 0x100,
        a + ra * 0x100 == b + rb * 0x100,
    ensures
        a == b,
        ra == rb,
{
}

/// A word is determined by its bytes, and determines them.
proof fn lemma_word_bytes(a: Seq<u8>, b: Seq<u8>, at: int)
    ensures
        word_at(a, at) == word_at(b, at) <==> forall|k: int|
            at <= k < at + 8 ==> #[trigger] byte_or_zero(a, k) == byte_or_zero(b, k),
{
    let x = Seq::new(8, |i: int| byte_or_zero(a, at + i));
    let y = Seq::new(8, |i: int| byte_or_zero(b, at + i));
    if word_at(a, at) == word_at(b, at) {
        let (x7, y7) = (x[7], y[7]);
        let (x6, y6) = (x[6] + x7 * 0x100, y[6] + y7 * 0x100);
        let (x5, y5) = (x[5] + x6 * 0x100, y[5] + y6 * 0x100);
        let (x4, y4) = (x[4] + x5 * 0x100, y[4] + y5 * 0x100);
        let (x3, y3) = (x[3] + x4 * 0x100, y[3] + y4 * 0x100);
        let (x2, y2) = (x[2] + x3 * 0x100, y[2] + y3 * 0x100);
        let (x1, y1) = (x[1] + x2 * 0x100, y[1] + y2 * 0x100);
        lemma_low_digit(x[0], x1, y[0], y1);
        lemma_low_digit(x[1], x2, y[1], y2);
        lemma_low_digit(x[2], x3, y[2], y3);
        lemma_low_digit(x[3], x4, y[3], y4);
        lemma_low_digit(x[4], x5, y[4], y5);
        lemma_low_digit(x[5], x6, y[5], y6);
        lemma_low_digit(x[6], x7, y[6], y7);
        assert forall|k: int| at <= k < at + 8 implies #[trigger] byte_or_zero(a, k)
            == byte_or_zero(b, k) by {
            assert(x[k - at] == y[k - at]);
        }
    }
    if forall|k: int| at <= k < at + 8 ==> #[trigger] byte_or_zero(a, k) == byte_or_zero(b, k) {
        assert(byte_or_zero(a, at) == byte_or_zero(b, at));
        assert(byte_or_zero(a, at + 1) == byte_or_zero(b, at + 1));
        assert(byte_or_zero(a, at + 2) == byte_or_zero(b, at + 2));
        assert(byte_or_zero(a, at + 3) == byte_or_zero(b, at + 3));
        assert(byte_or_zero(a, at + 4) == byte_or_zero(b, at + 4));
        assert(byte_or_zero(a, at + 5) == byte_or_zero(b, at + 5));
        assert(byte_or_zero(a, at + 6) == byte_or_zero(b, at + 6));
        assert(byte_or_zero(a, at + 7) == byte_or_zero(b, at + 7));
    }
}

/// Byte strings that differ in one word have that word different and every other
/// the same.
proof fn lemma_words(a: Seq<u8>, b: Seq<u8>, at: int, word: int)
    requires
        differ_in_a_word(a, b, at),
        0 <= word,
        word % 8 == 0,
    ensures
        word_at(a, word) == word_at(b, word) <==> word != at,
        at < a.len(),
{
    lemma_word_bytes(a, b, word);
    if forall|k: int| 0 <= k < a.len() && at <= k < at + 8 ==> #[trigger] a[k] == b[k] {
        assert(a =~= b);
    }
    let k = choose|k: int| 0 <= k < a.len() && at <= k < at + 8 && #[trigger] a[k] != b[k];
    assert(byte_or_zero(a, k) != byte_or_zero(b, k));
    if word != at {
        assert forall|j: int| word <= j < word + 8 implies #[trigger] byte_or_zero(a, j)
            == byte_or_zero(b, j) by {
            assert(!(at <= j < at + 8));
        }
    }
}

proof fn lemma_fold_differs(x: u64, y: u64, p: u64, q: u64)
    ensures
        x == y && p != q ==> x ^ p != y ^ q,
        x != y && p == q ==> x ^ p != y ^ q,
{
    assert(x == y && p != q ==> x ^ p != y ^ q) by (bit_vector);
    assert(x != y && p == q ==> x ^ p != y ^ q) by (bit_vector);
}

/// A lane holds something else just where it took in the word that differs.
proof fn lemma_lane_after_differs(a: Seq<u8>, b: Seq<u8>, lanes: int, lane: int, at: int, chunks: nat)
    requires
        differ_in_a_word(a, b, at),
        1 <= lanes,
        0 <= lane < lanes,
    ensures
        lane_after(a, lanes, lane, chunks) != lane_after(b, lanes, lane, chunks) <==> exists|c: int|
            0 <= c < chunks && #[trigger] word_place(c, lanes, lane) == at,
    decreases chunks,
{
    if chunks > 0 {
        let c = (chunks - 1) as nat;
        lemma_lane_after_differs(a, b, lanes, lane, at, c);
        let here = word_place(c as int, lanes, lane);
        lemma_word_place(c as int, lanes, lane);
        lemma_words(a, b, at, here);
        let (x, y) = (lane_after(a, lanes, lane, c), lane_after(b, lanes, lane, c));
        let s = seed_after(lane, chunks);
        let (p, q) = (word_at(a, here).wrapping_add(s), word_at(b, here).wrapping_add(s));
        lemma_fold_differs(x, y, p, q);
        if here == at {
            assert forall|d: int| 0 <= d < c implies #[trigger] word_place(d, lanes, lane) != at by {
                lemma_word_places_differ(d, c as int, lanes, lane, lane);
            }
        }
    }
}

/// Where the word of a lane and a chunk starts.
spec fn word_place(chunk: int, lanes: int, lane: int) -> int {
    (chunk * lanes + lane) * 8
}

proof fn lemma_word_place(chunk: int, lanes: int, lane: int)
    requires
        0 <= chunk,
        1 <= lanes,
        0 <= lane,
    ensures
        0 <= word_place(chunk, lanes, lane),
        word_place(chunk, lanes, lane) % 8 == 0,
{
    assert(0 <= chunk * lanes) by (nonlinear_arith)
        requires
            0 <= chunk,
            1 <= lanes,
    ;
}

proof fn lemma_word_places_differ(c: int, d: int, lanes: int, lane: int, other: int)
    requires
        1 <= lanes,
        0 <= lane < lanes,
        0 <= other < lanes,
        c != d || lane != other,
    ensures
        word_place(c, lanes, lane) != word_place(d, lanes, other),
{
    if c < d {
        assert(c * lanes + lanes <= d * lanes) by (nonlinear_arith)
            requires
                c + 1 <= d,
                1 <= lanes,
        ;
    } else if d < c {
        assert(d * lanes + lanes <= c * lanes) by (nonlinear_arith)
            requires
                d + 1 <= c,
                1 <= lanes,
        ;
    }
}

/// Of all lanes, just the one with the word that differs holds something else in the
/// end.
proof fn lemma_lane_total_differs(a: Seq<u8>, b: Seq<u8>, lanes: int, lane: int, at: int)
    requires
        differ_in_a_word(a, b, at),
        1 <= lanes,
        0 <= lane < lanes,
    ensures
        lane_total(a, lanes, lane) != lane_total(b, lanes, lane) <==> (at / 8) % lanes == lane,
{
    let width = lanes * 8;
    let len = a.len() as int;
    let chunks = (len / width) as nat;
    let (chunk, own) = ((at / 8) / lanes, (at / 8) % lanes);
    vstd::arithmetic::div_mod::lemma_fundamental_div_mod(at / 8, lanes);
    lemma_mod_bound(at / 8, lanes);
    vstd::arithmetic::div_mod::lemma_div_pos_is_pos(at / 8, lanes);
    vstd::arithmetic::div_mod::lemma_div_pos_is_pos(len, width);
    vstd::arithmetic::div_mod::lemma_fundamental_div_mod(len, width);
    lemma_mod_bound(len, width);
    assert(lanes * chunk == chunk * lanes) by (nonlinear_arith);
    assert(word_place(chunk, lanes, own) == at);
    lemma_words(a, b, at, at);
    lemma_word_place(chunks as int, lanes, lane);
    lemma_lane_after_differs(a, b, lanes, lane, at, chunks);
    let last = word_place(chunks as int, lanes, lane);
    assert(width * chunks == chunks * lanes * 8) by (nonlinear_arith)
        requires
            width == lanes * 8,
    ;
    // The word lies in one of the chunks, or in what is left over.
    assert(chunk <= chunks && (len % width == 0 ==> chunk < chunks)) by {
        if chunk > chunks {
            assert(chunk * lanes >= (chunks + 1) * lanes) by (nonlinear_arith)
                requires
                    chunk >= chunks + 1,
                    1 <= lanes,
            ;
            assert((chunks + 1) * lanes == chunks * lanes + lanes) by (nonlinear_arith);
        }
    }
    if lane != own {
        assert forall|c: int| 0 <= c < chunks implies #[trigger] word_place(c, lanes, lane) != at by {
            lemma_word_places_differ(c, chunk, lanes, lane, own);
        }
        lemma_word_places_differ(chunks as int, chunk, lanes, lane, own);
    } else if chunk == chunks {
        assert forall|c: int| 0 <= c < chunks implies #[trigger] word_place(c, lanes, lane) != at by {
            lemma_word_places_differ(c, chunk, lanes, lane, own);
        }
    } else {
        lemma_word_places_differ(chunks as int, chunk, lanes, lane, own);
    }
    if len % width != 0 {
        lemma_words(a, b, at, last);
        let s = seed_after(lane, chunks);
        lemma_fold_differs(
            lane_after(a, lanes, lane, chunks),
            lane_after(b, lanes, lane, chunks),
            word_at(a, last).wrapping_add(s),
            word_at(b, last).wrapping_add(s),
        );
    }
}

proof fn lemma_rotated_differs(x: u64, y: u64, r: u64)
    requires
        0 < r < 64,
        x != y,
    ensures
        rotated(x, r) != rotated(y, r),
{
    let q = (64 - r) as u64;
    assert((x << r) | (x >> q) != (y << r) | (y >> q)) by (bit_vector)
        requires
            0 < r < 64,
            q == 64 - r,
            x != y,
    ;
}

/// Lanes that agree but for one combine to something else.
proof fn lemma_combined_differs(x: Seq<u64>, y: Seq<u64>, len: u64, n: nat, lane: int)
    requires
        n <= 4,
        n <= x.len(),
        x.len() == y.len(),
        0 <= lane < x.len(),
        forall|l: int| 0 <= l < x.len() ==> (#[trigger] x[l] != y[l] <==> l == lane),
    ensures
        combined(x, len, n) != combined(y, len, n) <==> lane < n,
    decreases n,
{
    if n > 0 {
        let m = (n - 1) as nat;
        lemma_combined_differs(x, y, len, m, lane);
        let r = (m * 16 + 1) as u64;
        assert(x[m as int] != y[m as int] <==> m == lane);
        if m == lane {
            lemma_rotated_differs(x[m as int], y[m as int], r);
        }
        lemma_fold_differs(
            combined(x, len, m),
            combined(y, len, m),
            rotated(x[m as int], r),
            rotated(y[m as int], r),
        );
    }
}

/// Multiplying by a number that has an inverse keeps different words different.
pub(crate) proof fn lemma_product_differs(x: u64, y: u64, c: u64, inverse: int, t: int)
    requires
        x != y,
        c * inverse == 1 + t * word_bound(),
    ensures
        x.wrapping_mul(c) != y.wrapping_mul(c),
{
    let m = word_bound();
    if x.wrapping_mul(c) == y.wrapping_mul(c) {
        assert((x * c) % m == (y * c) % m);
        lemma_undone(x, c, inverse, t);
        lemma_undone(y, c, inverse, t);
    }
}

proof fn lemma_undone(x: u64, c: u64, inverse: int, t: int)
    requires
        c * inverse == 1 + t * word_bound(),
    ensures
        (((x * c) % word_bound()) * inverse) % word_bound() == x,
{
    let m = word_bound();
    vstd::arithmetic::div_mod::lemma_mul_mod_noop_left(x * c, inverse, m);
    assert(x * c * inverse == m * (x * t) + x) by (nonlinear_arith)
        requires
            c * inverse == 1 + t * m,
    ;
    vstd::arithmetic::div_mod::lemma_mod_multiples_vanish(x * t, x as int, m);
    assert(x as int % m == x);
}

/// The finalizer keeps different words different.
proof fn lemma_fmix64_differs(x: u64, y: u64)
    requires
        x != y,
    ensures
        fmix64(x) != fmix64(y),
{
    assert(x ^ (x >> 33) != y ^ (y >> 33)) by (bit_vector)
        requires
            x != y,
    ;
    let (a, b) = (x ^ (x >> 33), y ^ (y >> 33));
    lemma_product_differs(a, b, 0xff51afd7ed558ccd, 0x4f74430c22a54005, 0x4f3e2925cb7c5b4e);
    let (a, b) = (a.wrapping_mul(0xff51afd7ed558ccd), b.wrapping_mul(0xff51afd7ed558ccd));
    assert(a ^ (a >> 33) != b ^ (b >> 33)) by (bit_vector)
        requires
            a != b,
    ;
    let (a, b) = (a ^ (a >> 33), b ^ (b >> 33));
    lemma_product_differs(a, b, 0xc4ceb9fe1a85ec53, 0x9cb4b2f8129337db, 0x7878e44812b2d581);
    let (a, b) = (a.wrapping_mul(0xc4ceb9fe1a85ec53), b.wrapping_mul(0xc4ceb9fe1a85ec53));
    assert(a ^ (a >> 33) != b ^ (b >> 33)) by (bit_vector)
        requires
            a != b,
    ;
}

/// A change within one word of eight bytes never goes unnoticed: two byte strings of
/// one length that differ there and nowhere else have different hashes, in two
/// lanes and in four.
pub proof fn law_changed_word_changes_the_hash(level: SimdLevel, a: Seq<u8>, b: Seq<u8>, at: int)
    requires
        level != SimdLevel::Scalar,
        differ_in_a_word(a, b, at),
    ensures
        content_hash(level, a) != content_hash(level, b),
{
    let lanes: int = if level == SimdLevel::Avx2 {
        4
    } else {
        2
    };
    let x = Seq::new(lanes as nat, |lane: int| lane_total(a, lanes, lane));
    let y = Seq::new(lanes as nat, |lane: int| lane_total(b, lanes, lane));
    let own = (at / 8) % lanes;
    lemma_mod_bound(at / 8, lanes);
    assert forall|l: int| 0 <= l < lanes implies (#[trigger] x[l] != y[l] <==> l == own) by {
        lemma_lane_total_differs(a, b, lanes, l, at);
    }
    let len = a.len() as u64;
    lemma_combined_differs(x, y, len, lanes as nat, own);
    lemma_fmix64_differs(combined(x, len, lanes as nat), combined(y, len, lanes as nat));
}

/// A single changed byte never goes unnoticed: two byte strings of one length that
/// differ in it alone have different hashes, in two lanes and in four.
pub proof fn law_changed_byte_changes_the_hash(level: SimdLevel, a: Seq<u8>, k: int, value: u8)
    requires
        level != SimdLevel::Scalar,
        0 <= k < a.len(),
        value != a[k],
    ensures
        content_hash(level, a) != content_hash(level, a.update(k, value)),
{
    let b = a.update(k, value);
    assert(b[k] == value);
    assert(differ_in_a_word(a, b, (k / 8) * 8));
    law_changed_word_changes_the_hash(level, a, b, (k / 8) * 8);
}

/// A word that is repeated does not cancel itself: two chunks with the same word in a
/// lane leave the lane different from what it was before them.
pub proof fn law_repeated_words_do_not_cancel(data: Seq<u8>, lanes: int, lane: int, chunks: nat)
    requires
        word_at(data, (chunks * lanes + lane) * 8) == word_at(
            data,
            ((chunks + 1) * lanes + lane) * 8,
        ),
    ensures
        lane_after(data, lanes, lane, chunks + 2) != lane_after(data, lanes, lane, chunks),
{
    let w = word_at(data, (chunks * lanes + lane) * 8);
    let (s, t) = (seed_after(lane, chunks + 1), seed_after(lane, chunks + 2));
    lemma_seed_step(lane, chunks + 1);
    let x = lane_after(data, lanes, lane, chunks);
    let (p, q) = (w.wrapping_add(s), w.wrapping_add(t));
    assert(p != q);
    assert((x ^ p) ^ q != x) by (bit_vector)
        requires
            p != q,
    ;
    reveal_with_fuel(lane_after, 3);
    assert(lane_after(data, lanes, lane, chunks + 1) == x ^ p);
}

/// What is hashed of a tile are its pixels, row by row: each byte of the pixel in
/// column `col` and row `row` of the tile, and no byte of any other.
pub proof fn law_tile_pixels_are_the_tile(
    rgba: Seq<u8>,
    x: int,
    y: int,
    width: int,
    height: int,
    stride: int,
    col: int,
    row: int,
    channel: int,
)
    requires
        0 <= x,
        0 <= y,
        1 <= width,
        x + width <= stride,
        0 <= col < width,
        0 <= row < height,
        0 <= channel < 4,
        ((y + height - 1) * stride + x + width) * 4 <= rgba.len(),
    ensures
        tile_pixels(rgba, x, y, width, height, stride).len() == width * height * 4,
        0 <= (row * width + col) * 4 + channel < width * height * 4,
        tile_pixels(rgba, x, y, width, height, stride)[(row * width + col) * 4 + channel]
            == rgba[((y + row) * stride + x + col) * 4 + channel],
{
    assert((height - 1) * 1 == height - 1 && row * 1 == row);
    lemma_sampled_rows_len(rgba, x, y, width, stride, 1, height as nat);
    lemma_sampled_byte(rgba, x, y, width, stride, 1, height as nat, row, col * 4 + channel);
    assert((row * width + col) * 4 == row * width * 4 + col * 4) by (nonlinear_arith);
    assert(height * width * 4 == width * height * 4) by (nonlinear_arith);
}

/// The half hash takes in every second row of a tile, from its first on.
pub proof fn law_half_pixels_are_every_second_row(
    rgba: Seq<u8>,
    x: int,
    y: int,
    width: int,
    height: int,
    stride: int,
    col: int,
    row: int,
    channel: int,
)
    requires
        0 <= x,
        0 <= y,
        1 <= width,
        x + width <= stride,
        0 <= col < width,
        0 <= row,
        row * 2 < height,
        0 <= channel < 4,
        ((y + height - 1) * stride + x + width) * 4 <= rgba.len(),
    ensures
        half_tile_pixels(rgba, x, y, width, height, stride).len() == width * ((height + 1) / 2) * 4,
        0 <= (row * width + col) * 4 + channel < width * ((height + 1) / 2) * 4,
        half_tile_pixels(rgba, x, y, width, height, stride)[(row * width + col) * 4 + channel]
            == rgba[((y + row * 2) * stride + x + col) * 4 + channel],
{
    let rows = ((height + 1) / 2) as nat;
    assert((y + (rows - 1) * 2) * stride <= (y + height - 1) * stride) by (nonlinear_arith)
        requires
            (rows - 1) * 2 <= height - 1,
            0 <= stride,
    ;
    lemma_sampled_rows_len(rgba, x, y, width, stride, 2, rows);
    lemma_sampled_byte(rgba, x, y, width, stride, 2, rows, row, col * 4 + channel);
    assert((row * width + col) * 4 == row * width * 4 + col * 4) by (nonlinear_arith);
    assert(rows * width * 4 == width * ((height + 1) / 2) * 4) by (nonlinear_arith)
        requires
            rows == (height + 1) / 2,
    ;
}

/// One changed byte of a frame changes one byte of the sampled rows it lies in.
proof fn lemma_sampled_update(
    rgba: Seq<u8>,
    x: int,
    y: int,
    width: int,
    stride: int,
    step: int,
    rows: nat,
    row: int,
    k: int,
    value: u8,
)
    requires
        0 <= x,
        0 <= y,
        1 <= width,
        x + width <= stride,
        1 <= step,
        0 <= row < rows,
        0 <= k < width * 4,
        rows_inside(rgba.len() as int, x, y, width, stride, step, rows as int),
    ensures
        0 <= row_start(x, y, stride, step, row) + k < rgba.len(),
        0 <= row * width * 4 + k < sampled_rows(rgba, x, y, width, stride, step, rows).len(),
        sampled_rows(
            rgba.update(row_start(x, y, stride, step, row) + k, value),
            x,
            y,
            width,
            stride,
            step,
            rows,
        ) == sampled_rows(rgba, x, y, width, stride, step, rows).update(
            row * width * 4 + k,
            value,
        ),
{
    let at = row_start(x, y, stride, step, row) + k;
    lemma_rows_inside_prefix(rgba.len() as int, x, y, width, stride, step, rows as int, row);
    let other = rgba.update(at, value);
    let (a, b) = (
        sampled_rows(rgba, x, y, width, stride, step, rows),
        sampled_rows(other, x, y, width, stride, step, rows),
    );
    lemma_sampled_rows_len(rgba, x, y, width, stride, step, rows);
    lemma_sampled_rows_len(other, x, y, width, stride, step, rows);
    lemma_sampled_byte(rgba, x, y, width, stride, step, rows, row, k);
    let w = width * 4;
    assert forall|j: int| 0 <= j < a.len() implies #[trigger] b[j] == a.update(
        row * width * 4 + k,
        value,
    )[j] by {
        let (q, i) = (j / w, j % w);
        vstd::arithmetic::div_mod::lemma_fundamental_div_mod(j, w);
        lemma_mod_bound(j, w);
        vstd::arithmetic::div_mod::lemma_div_pos_is_pos(j, w);
        assert(w * q == q * width * 4) by (nonlinear_arith)
            requires
                w == width * 4,
        ;
        assert(q < rows) by (nonlinear_arith)
            requires
                w * q <= j,
                j < rows * width * 4,
                w == width * 4,
                1 <= width,
        ;
        lemma_sampled_byte(rgba, x, y, width, stride, step, rows, q, i);
        lemma_sampled_byte(other, x, y, width, stride, step, rows, q, i);
        lemma_rows_inside_prefix(rgba.len() as int, x, y, width, stride, step, rows as int, q);
        if q != row {
            lemma_rows_apart(x, y, width, stride, step, row, q, k, i);
            lemma_places_apart(width, row, q, k, i);
        }
    }
    assert(b =~= a.update(row * width * 4 + k, value));
}

proof fn lemma_rows_apart(
    x: int,
    y: int,
    width: int,
    stride: int,
    step: int,
    row: int,
    q: int,
    k: int,
    i: int,
)
    requires
        1 <= width <= stride,
        1 <= step,
        row != q,
        0 <= k < width * 4,
        0 <= i < width * 4,
    ensures
        row_start(x, y, stride, step, row) + k != row_start(x, y, stride, step, q) + i,
{
    let (a, b) = (y + row * step, y + q * step);
    if row < q {
        assert(a + 1 <= b) by (nonlinear_arith)
            requires
                a == y + row * step,
                b == y + q * step,
                row + 1 <= q,
                1 <= step,
        ;
        assert(a * stride + stride <= b * stride) by (nonlinear_arith)
            requires
                a + 1 <= b,
                1 <= stride,
        ;
    } else {
        assert(b + 1 <= a) by (nonlinear_arith)
            requires
                a == y + row * step,
                b == y + q * step,
                q + 1 <= row,
                1 <= step,
        ;
        assert(b * stride + stride <= a * stride) by (nonlinear_arith)
            requires
                b + 1 <= a,
                1 <= stride,
        ;
    }
}

proof fn lemma_places_apart(width: int, row: int, q: int, k: int, i: int)
    requires
        1 <= width,
        row != q,
        0 <= k < width * 4,
        0 <= i < width * 4,
    ensures
        row * width * 4 + k != q * width * 4 + i,
{
    if row < q {
        assert(row * width + width <= q * width) by (nonlinear_arith)
            requires
                row + 1 <= q,
                1 <= width,
        ;
    } else {
        assert(q * width + width <= row * width) by (nonlinear_arith)
            requires
                q + 1 <= row,
                1 <= width,
        ;
    }
}

/// One byte of one pixel of a tile changed, and nothing else in the frame: the tile's
/// hash changes, in two lanes and in four. So does its half hash where the pixel
/// lies in the first row of the tile or in every second one after it.
pub proof fn law_changed_pixel_changes_the_tile_hash(
    level: SimdLevel,
    rgba: Seq<u8>,
    x: int,
    y: int,
    width: int,
    height: int,
    stride: int,
    col: int,
    row: int,
    channel: int,
    value: u8,
)
    requires
        level != SimdLevel::Scalar,
        0 <= x,
        0 <= y,
        1 <= width,
        x + width <= stride,
        0 <= col < width,
        0 <= row < height,
        0 <= channel < 4,
        ((y + height - 1) * stride + x + width) * 4 <= rgba.len(),
        value != rgba[((y + row) * stride + x + col) * 4 + channel],
    ensures
        ({
            let other = rgba.update(((y + row) * stride + x + col) * 4 + channel, value);
            &&& content_hash(level, tile_pixels(rgba, x, y, width, height, stride))
                != content_hash(level, tile_pixels(other, x, y, width, height, stride))
            &&& row % 2 == 0 ==> content_hash(
                level,
                half_tile_pixels(rgba, x, y, width, height, stride),
            ) != content_hash(level, half_tile_pixels(other, x, y, width, height, stride))
        }),
{
    let k = col * 4 + channel;
    assert((height - 1) * 1 == height - 1 && row * 1 == row);
    assert(row_start(x, y, stride, 1, row) + k == ((y + row) * stride + x + col) * 4 + channel);
    lemma_sampled_update(rgba, x, y, width, stride, 1, height as nat, row, k, value);
    lemma_sampled_byte(rgba, x, y, width, stride, 1, height as nat, row, k);
    law_changed_byte_changes_the_hash(
        level,
        tile_pixels(rgba, x, y, width, height, stride),
        row * width * 4 + k,
        value,
    );
    if row % 2 == 0 {
        let (half, rows) = (row / 2, ((height + 1) / 2) as nat);
        assert(half * 2 == row);
        assert((y + (rows - 1) * 2) * stride <= (y + height - 1) * stride) by (nonlinear_arith)
            requires
                (rows - 1) * 2 <= height - 1,
                0 <= stride,
        ;
        assert(row_start(x, y, stride, 2, half) + k == ((y + row) * stride + x + col) * 4 + channel);
        lemma_sampled_update(rgba, x, y, width, stride, 2, rows, half, k, value);
        lemma_sampled_byte(rgba, x, y, width, stride, 2, rows, half, k);
        law_changed_byte_changes_the_hash(
            level,
            half_tile_pixels(rgba, x, y, width, height, stride),
            half * width * 4 + k,
            value,
        );
    }
}

/// What lies outside a tile does not matter to it: two frames that agree on every
/// pixel of a tile give it the same pixels, and the same hash at every level.
pub proof fn law_hash_reads_the_tile_only(
    level: SimdLevel,
    a: Seq<u8>,
    b: Seq<u8>,
    x: int,
    y: int,
    width: int,
    height: int,
    stride: int,
)
    requires
        0 <= x,
        0 <= y,
        1 <= width,
        1 <= height,
        x + width <= stride,
        a.len() == b.len(),
        ((y + height - 1) * stride + x + width) * 4 <= a.len(),
        forall|row: int, k: int|
            #![trigger a[((y + row) * stride + x) * 4 + k]]
            0 <= row < height && 0 <= k < width * 4 ==> a[((y + row) * stride + x) * 4 + k]
                == b[((y + row) * stride + x) * 4 + k],
    ensures
        tile_pixels(a, x, y, width, height, stride) == tile_pixels(b, x, y, width, height, stride),
        content_hash(level, tile_pixels(a, x, y, width, height, stride)) == content_hash(
            level,
            tile_pixels(b, x, y, width, height, stride),
        ),
{
    let rows = height as nat;
    assert((height - 1) * 1 == height - 1);
    assert forall|row: int, k: int| 0 <= row < rows && 0 <= k < width * 4 implies #[trigger] a[row_start(
        x,
        y,
        stride,
        1,
        row,
    ) + k] == b[row_start(x, y, stride, 1, row) + k] by {
        assert(row * 1 == row);
        assert(a[((y + row) * stride + x) * 4 + k] == b[((y + row) * stride + x) * 4 + k]);
    }
    lemma_same_sampled_rows(a, b, x, y, width, stride, 1, rows, rows);
}

/// Without lanes, the hash is the outside digest of all the bytes, as they are.
pub proof fn law_scalar_hash_is_the_digest(data: Seq<u8>)
    ensures
        content_hash(SimdLevel::Scalar, data) == xxh3_digest(data),
{
}

/// Each lane has a seed of its own, and it is another one for every chunk.
pub proof fn law_seeds_differ(lane: int, other: int, steps: nat, more: nat)
    requires
        0 <= lane < 4,
        0 <= other < 4,
        steps < more < u64::MAX,
    ensures
        lane != other ==> lane_seed(lane) != lane_seed(other),
        seed_after(lane, steps) != seed_after(lane, more),
{
    let (x, y) = ((steps + 1) as u64, (more + 1) as u64);
    let c = lane_seed(lane);
    if lane == 0 {
        lemma_product_differs(x, y, c, 0xf1de83e19937733d, 0x957bbf35006ed677);
    } else if lane == 1 {
        lemma_product_differs(x, y, c, 0x4f74430c22a54005, 0x4f3e2925cb7c5b4e);
    } else if lane == 2 {
        lemma_product_differs(x, y, c, 0x9cb4b2f8129337db, 0x7878e44812b2d581);
    } else {
        lemma_product_differs(x, y, c, 0x96de1b173f119089, 0x70c3bca78f27f46c);
    }
    assert(x * c == c * (steps + 1) && y * c == c * (more + 1)) by (nonlinear_arith)
        requires
            x == steps + 1,
            y == more + 1,
    ;
}

} // verus!
