//! Hash functions that were weighed against each other for finding changed
//! tiles, and how they are judged.

use crate::tile_hash::{hash_scalar, lemma_product_differs, xxh3_digest};
use vstd::prelude::*;

verus! {

/// A byte, or zero behind the end.
pub open spec fn padded_byte(data: Seq<u8>, i: int) -> int {
    if 0 <= i < data.len() {
        data[i] as int
    } else {
        0
    }
}

/// The `k`th group of eight bytes as a little-endian number; zeros stand for
/// what is missing at the end.
pub open spec fn word(data: Seq<u8>, k: int) -> u64 {
    (padded_byte(data, k * 8) + padded_byte(data, k * 8 + 1) * 0x100 + padded_byte(data, k * 8 + 2)
        * 0x1_0000 + padded_byte(data, k * 8 + 3) * 0x100_0000 + padded_byte(data, k * 8 + 4)
        * 0x1_0000_0000 + padded_byte(data, k * 8 + 5) * 0x100_0000_0000 + padded_byte(
        data,
        k * 8 + 6,
    ) * 0x1_0000_0000_0000 + padded_byte(data, k * 8 + 7) * 0x100_0000_0000_0000) as u64
}

/// How many groups of eight bytes there are, the last one perhaps not full.
pub open spec fn words(data: Seq<u8>) -> int {
    (data.len() as int + 7) / 8
}

fn padded_at(data: &[u8], i: u64) -> (v: u64)
    ensures
        v == padded_byte(data@, i as int),
        v <= 255,
{
    let n: usize = data.len();
    if i < n as u64 {
        data[i as usize] as u64
    } else {
        0
    }
}

fn word_at(data: &[u8], k: usize) -> (w: u64)
    requires
        k * 8 + 7 <= u64::MAX,
    ensures
        w == word(data@, k as int),
{
    let i: u64 = k as u64 * 8;
    padded_at(data, i) + padded_at(data, i + 1) * 0x100 + padded_at(data, i + 2) * 0x1_0000
        + padded_at(data, i + 3) * 0x100_0000 + padded_at(data, i + 4) * 0x1_0000_0000 + padded_at(
        data,
        i + 5,
    ) * 0x100_0000_0000 + padded_at(data, i + 6) * 0x1_0000_0000_0000 + padded_at(data, i + 7)
        * 0x100_0000_0000_0000
}

fn word_count(data: &[u8]) -> (n: usize)
    ensures
        n == words(data@),
        n <= data@.len(),
        n * 8 <= data@.len() + 7,
{
    let len: usize = data.len();
    if len % 8 == 0 {
        len / 8
    } else {
        len / 8 + 1
    }
}

/// The bits of `x` moved up by `r` places; what falls off comes back below.
pub open spec fn rotated(x: u64, r: u64) -> u64 {
    (x << r) | (x >> ((64 - r) as u64))
}

fn rotate(x: u64, r: u64) -> (y: u64)
    requires
        0 < r < 64,
    ensures
        y == rotated(x, r),
{
    (x << r) | (x >> (64 - r))
}

/// The groups of a tile, xored.
pub open spec fn xored(data: Seq<u8>, n: nat) -> u64
    decreases n,
{
    if n == 0 {
        0
    } else {
        xored(data, (n - 1) as nat) ^ word(data, n - 1)
    }
}

fn xor_words(data: &[u8]) -> (h: u64)
    ensures
        h == xored(data@, words(data@) as nat),
{
    let n: usize = word_count(data);
    let len: usize = data.len();
    let mut h: u64 = 0;
    let mut k: usize = 0;
    while k < n
        invariant
            k <= n,
            len == data@.len(),
            n == words(data@),
            n * 8 <= len + 7,
            h == xored(data@, k as nat),
        decreases n - k,
    {
        h = h ^ word_at(data, k);
        k += 1;
    }
    h
}

/// All groups xored, and the length.
pub fn hash_xor_simple(data: &[u8]) -> (h: u64)
    ensures
        h == xored(data@, words(data@) as nat) ^ (data@.len() as u64),
{
    xor_words(data) ^ (data.len() as u64)
}

/// All groups xored.
pub fn hash_avx2_simple(data: &[u8]) -> (h: u64)
    ensures
        h == xored(data@, words(data@) as nat),
{
    xor_words(data)
}

/// One step of a hash that mixes groups of eight bytes in one after another.
#[derive(Clone, Copy, Debug, PartialEq, Eq, Structural)]
pub enum Mixer {
    XorRotate,
    Murmur3,
    SplitMix64,
    WyHash,
}

/// What a mixer starts from.
pub open spec fn seed_of(m: Mixer, len: u64) -> u64 {
    match m {
        Mixer::XorRotate => 0,
        Mixer::Murmur3 => 0,
        Mixer::SplitMix64 => len,
        Mixer::WyHash => len,
    }
}

/// `x` xored with itself moved down by `r` places.
pub open spec fn folded(x: u64, r: u64) -> u64 {
    x ^ (x >> r)
}

/// What a mixer makes of its state and the next group.
pub open spec fn mixed(m: Mixer, h: u64, w: u64) -> u64 {
    match m {
        Mixer::XorRotate => rotated(h, 7) ^ w,
        Mixer::Murmur3 => rotated(
            h ^ rotated(w.wrapping_mul(0x87c3_7b91_1142_53d5), 31).wrapping_mul(
                0x4cf5_ad43_2745_937f,
            ),
            27,
        ).wrapping_mul(5).wrapping_add(0x52dc_e729),
        Mixer::SplitMix64 => folded(
            folded(
                folded(h.wrapping_add(w), 30).wrapping_mul(0xbf58_476d_1ce4_e5b9),
                27,
            ).wrapping_mul(0x94d0_49bb_1331_11eb),
            31,
        ),
        Mixer::WyHash => (h ^ w.wrapping_mul(0xa076_1d64_78bd_642f)).wrapping_mul(
            0xe703_7ed1_a0b4_28db,
        ),
    }
}

/// The state of a mixer after `n` groups.
pub open spec fn mixed_all(m: Mixer, data: Seq<u8>, n: nat) -> u64
    decreases n,
{
    if n == 0 {
        seed_of(m, data.len() as u64)
    } else {
        mixed(m, mixed_all(m, data, (n - 1) as nat), word(data, n - 1))
    }
}

/// The hash of a mixer.
pub open spec fn mixer_hash(m: Mixer, data: Seq<u8>) -> u64 {
    let h = mixed_all(m, data, words(data) as nat);
    match m {
        Mixer::XorRotate => h ^ (data.len() as u64),
        Mixer::Murmur3 => h ^ (data.len() as u64),
        Mixer::SplitMix64 => h,
        Mixer::WyHash => h,
    }
}

fn mix(m: Mixer, h: u64, w: u64) -> (r: u64)
    ensures
        r == mixed(m, h, w),
{
    match m {
        Mixer::XorRotate => rotate(h, 7) ^ w,
        Mixer::Murmur3 => {
            let k: u64 = rotate(w.wrapping_mul(0x87c3_7b91_1142_53d5), 31).wrapping_mul(
                0x4cf5_ad43_2745_937f,
            );
            rotate(h ^ k, 27).wrapping_mul(5).wrapping_add(0x52dc_e729)
        },
        Mixer::SplitMix64 => {
            let a: u64 = h.wrapping_add(w);
            let b: u64 = (a ^ (a >> 30)).wrapping_mul(0xbf58_476d_1ce4_e5b9);
            let c: u64 = (b ^ (b >> 27)).wrapping_mul(0x94d0_49bb_1331_11eb);
            c ^ (c >> 31)
        },
        Mixer::WyHash => (h ^ w.wrapping_mul(0xa076_1d64_78bd_642f)).wrapping_mul(
            0xe703_7ed1_a0b4_28db,
        ),
    }
}

fn hash_with(m: Mixer, data: &[u8]) -> (h: u64)
    ensures
        h == mixer_hash(m, data@),
{
    let n: usize = word_count(data);
    let len: usize = data.len();
    let mut h: u64 = match m {
        Mixer::XorRotate => 0,
        Mixer::Murmur3 => 0,
        Mixer::SplitMix64 => len as u64,
        Mixer::WyHash => len as u64,
    };
    let mut k: usize = 0;
    while k < n
        invariant
            k <= n,
            len == data@.len(),
            n == words(data@),
            n * 8 <= len + 7,
            h == mixed_all(m, data@, k as nat),
        decreases n - k,
    {
        h = mix(m, h, word_at(data, k));
        k += 1;
    }
    match m {
        Mixer::XorRotate => h ^ (len as u64),
        Mixer::Murmur3 => h ^ (len as u64),
        Mixer::SplitMix64 => h,
        Mixer::WyHash => h,
    }
}

/// Groups xored with the state turned by seven bits each time.
pub fn hash_xor_rotate(data: &[u8]) -> (h: u64)
    ensures
        h == mixer_hash(Mixer::XorRotate, data@),
{
    hash_with(Mixer::XorRotate, data)
}

/// The first `n` bytes, hashed like [`hash_xor_rotate`].
pub fn hash_first_bytes(data: &[u8], n: usize) -> (h: u64)
    ensures
        h == mixer_hash(
            Mixer::XorRotate,
            data@.take(if n < data@.len() { n as int } else { data@.len() as int }),
        ),
{
    let len: usize = data.len();
    let size: usize = if n < len {
        n
    } else {
        len
    };
    let head: &[u8] = vstd::slice::slice_subrange(data, 0, size);
    assert(head@ =~= data@.take(size as int));
    hash_xor_rotate(head)
}

/// A hash in the manner of Murmur3.
pub fn murmur3_simple(data: &[u8]) -> (h: u64)
    ensures
        h == mixer_hash(Mixer::Murmur3, data@),
{
    hash_with(Mixer::Murmur3, data)
}

/// A hash in the manner of SplitMix64.
pub fn splitmix64_hash(data: &[u8]) -> (h: u64)
    ensures
        h == mixer_hash(Mixer::SplitMix64, data@),
{
    hash_with(Mixer::SplitMix64, data)
}

/// A hash in the manner of WyHash.
pub fn wyhash_simple(data: &[u8]) -> (h: u64)
    ensures
        h == mixer_hash(Mixer::WyHash, data@),
{
    hash_with(Mixer::WyHash, data)
}

/// The 64-bit xxHash3.
pub fn xxhash3_64(data: &[u8]) -> (h: u64)
    ensures
        h == xxh3_digest(data@),
{
    hash_scalar(data)
}

/// FNV-1a after the first `n` bytes.
pub open spec fn fnv1a(data: Seq<u8>, n: nat) -> u64
    decreases n,
{
    if n == 0 {
        0xcbf2_9ce4_8422_2325
    } else {
        (fnv1a(data, (n - 1) as nat) ^ (data[n - 1] as u64)).wrapping_mul(0x100_0000_01b3)
    }
}

/// The 64-bit FNV-1a.
pub fn fnv1a_64(data: &[u8]) -> (h: u64)
    ensures
        h == fnv1a(data@, data@.len()),
{
    let mut h: u64 = 0xcbf2_9ce4_8422_2325;
    let mut k: usize = 0;
    while k < data.len()
        invariant
            k <= data@.len(),
            h == fnv1a(data@, k as nat),
        decreases data@.len() - k,
    {
        h = (h ^ (data[k] as u64)).wrapping_mul(0x100_0000_01b3);
        k += 1;
    }
    h
}

/// Four bytes as a little-endian number.
pub open spec fn pixel_value(data: Seq<u8>, i: int) -> u64 {
    (data[i] + data[i + 1] * 0x100 + data[i + 2] * 0x1_0000 + data[i + 3] * 0x100_0000) as u64
}

/// How many of the first `k` samples, `step` bytes apart, are whole pixels.
pub open spec fn samples(len: int, step: int, k: nat) -> nat
    decreases k,
{
    if k == 0 {
        0
    } else {
        samples(len, step, (k - 1) as nat) + if (k - 1) * step + 3 < len {
            1nat
        } else {
            0nat
        }
    }
}

/// The first `k` samples, `step` bytes apart, xored.
pub open spec fn sampled_xor(data: Seq<u8>, step: int, k: nat) -> u64
    decreases k,
{
    if k == 0 {
        0
    } else if (k - 1) * step + 3 < data.len() {
        sampled_xor(data, step, (k - 1) as nat) ^ pixel_value(data, (k - 1) * step)
    } else {
        sampled_xor(data, step, (k - 1) as nat)
    }
}

/// How many samples there are, `step` bytes apart.
pub open spec fn sample_count(len: int, step: int) -> int {
    (len + step - 1) / step
}

/// The hash of every `stride`th pixel: their xor, and how many there are.
pub open spec fn sample_hash(data: Seq<u8>, stride: int) -> u64 {
    let n = sample_count(data.len() as int, stride * 4) as nat;
    sampled_xor(data, stride * 4, n) ^ (samples(data.len() as int, stride * 4, n) as u64)
}

proof fn lemma_samples(len: int, step: int, k: nat)
    ensures
        samples(len, step, k) <= k,
    decreases k,
{
    if k > 0 {
        lemma_samples(len, step, (k - 1) as nat);
    }
}

/// Hashes every `stride`th pixel.
pub fn hash_sample_pixels(data: &[u8], stride: usize) -> (h: u64)
    requires
        1 <= stride,
        stride * 4 <= usize::MAX,
    ensures
        h == sample_hash(data@, stride as int),
{
    let len: usize = data.len();
    let step: usize = stride * 4;
    let mut h: u64 = 0;
    let mut count: u64 = 0;
    let mut i: usize = 0;
    let ghost mut k: nat = 0;
    let mut more: bool = len > 0;
    proof {
        if len == 0 {
            vstd::arithmetic::div_mod::lemma_fundamental_div_mod_converse(
                step - 1,
                step as int,
                0,
                step - 1,
            );
        }
    }
    while more
        invariant
            len == data@.len(),
            step == stride * 4,
            step >= 4,
            more ==> i < len,
            more ==> i == k * step,
            !more ==> k == sample_count(len as int, step as int),
            k <= len,
            h == sampled_xor(data@, step as int, k),
            count == samples(len as int, step as int, k),
        decreases len - i, (if more { 1int } else { 0 }),
    {
        proof {
            lemma_samples(len as int, step as int, k);
            assert(k <= k * step) by (nonlinear_arith)
                requires
                    step >= 4,
                    0 <= k,
            ;
        }
        if len - i > 3 {
            let p: u64 = data[i] as u64 + data[i + 1] as u64 * 0x100 + data[i + 2] as u64 * 0x1_0000
                + data[i + 3] as u64 * 0x100_0000;
            h = h ^ p;
            count = count + 1;
        }
        proof {
            assert((k + 1) * step == k * step + step) by (nonlinear_arith);
            k = k + 1;
            assert((k - 1) * step == i);
        }
        if step < len - i {
            i = i + step;
        } else {
            more = false;
            proof {
                // The last sample lies less than a step before the end.
                let total = len + step - 1;
                assert(k * step <= total && total < (k + 1) * step) by (nonlinear_arith)
                    requires
                        (k - 1) * step == i,
                        i < len,
                        len - i <= step,
                        total == len + step - 1,
                        step >= 4,
                ;
                let rest = total - k * step;
                assert(total == k * step + rest);
                vstd::arithmetic::div_mod::lemma_fundamental_div_mod_converse(
                    total,
                    step as int,
                    k as int,
                    rest,
                );
            }
        }
    }
    h ^ count
}

/// How far apart the samples of a tile are: the larger the tile, the further.
pub open spec fn sample_stride(len: int) -> int {
    if len / 4 < 100 {
        2
    } else if len / 4 < 1000 {
        4
    } else {
        8
    }
}

/// Hashes every second, fourth or eighth pixel.
pub fn hash_adaptive_sample(data: &[u8]) -> (h: u64)
    ensures
        h == sample_hash(data@, sample_stride(data@.len() as int)),
{
    let pixels: usize = data.len() / 4;
    let stride: usize = if pixels < 100 {
        2
    } else if pixels < 1000 {
        4
    } else {
        8
    };
    hash_sample_pixels(data, stride)
}

/// What is added to a lane's seed for every group.
pub const SEED_STEP: u64 = 0x9e37_79b9_7f4a_7c15;

/// The seed that goes with chunk `k`.
pub open spec fn chunk_seed(k: nat) -> u64
    decreases k,
{
    if k == 0 {
        SEED_STEP.wrapping_add(SEED_STEP)
    } else {
        chunk_seed((k - 1) as nat).wrapping_add(SEED_STEP)
    }
}

/// A lane after `n` full chunks of `lanes` groups each.
pub open spec fn seeded_lane(data: Seq<u8>, lanes: int, lane: int, n: nat) -> u64
    decreases n,
{
    if n == 0 {
        0
    } else {
        seeded_lane(data, lanes, lane, (n - 1) as nat) ^ word(data, (n - 1) * lanes + lane)
            ^ chunk_seed((n - 1) as nat)
    }
}

/// A lane at the end: what does not fill a chunk is xored in without a seed.
pub open spec fn seeded_lane_end(data: Seq<u8>, lanes: int, lane: int) -> u64 {
    let full = data.len() as int / (lanes * 8);
    let acc = seeded_lane(data, lanes, lane, full as nat);
    if data.len() as int % (lanes * 8) == 0 {
        acc
    } else {
        acc ^ word(data, full * lanes + lane)
    }
}

fn lane_end(data: &[u8], lanes: usize, lane: usize) -> (acc: u64)
    requires
        lanes == 2 || lanes == 4,
        lane < lanes,
    ensures
        acc == seeded_lane_end(data@, lanes as int, lane as int),
{
    let len: usize = data.len();
    let full: usize = len / (lanes * 8);
    let mut acc: u64 = 0;
    let mut seed: u64 = SEED_STEP;
    let mut k: usize = 0;
    while k < full
        invariant
            k <= full,
            lanes == 2 || lanes == 4,
            lane < lanes,
            len == data@.len(),
            lanes == 2 ==> full == len as int / 16,
            lanes == 4 ==> full == len as int / 32,
            acc == seeded_lane(data@, lanes as int, lane as int, k as nat),
            k == 0 ==> seed == SEED_STEP,
            k > 0 ==> seed == chunk_seed((k - 1) as nat),
        decreases full - k,
    {
        proof {
            if lanes == 2 {
                assert(k * lanes == k * 2);
                assert((k * lanes + lane) * 8 + 7 < len);
            } else {
                assert(k * lanes == k * 4);
                assert((k * lanes + lane) * 8 + 7 < len);
            }
        }
        seed = seed.wrapping_add(SEED_STEP);
        acc = acc ^ word_at(data, k * lanes + lane) ^ seed;
        k += 1;
    }
    if len % (lanes * 8) != 0 {
        acc = acc ^ word_at(data, full * lanes + lane);
    }
    acc
}

/// The first vector hash, with four lanes: every lane gets the same seeds.
pub fn hash_avx2_current(data: &[u8]) -> (h: u64)
    ensures
        h == seeded_lane_end(data@, 4, 0) ^ seeded_lane_end(data@, 4, 2) ^ (seeded_lane_end(
            data@,
            4,
            1,
        ) ^ seeded_lane_end(data@, 4, 3)) ^ (data@.len() as u64),
{
    let low: u64 = lane_end(data, 4, 0) ^ lane_end(data, 4, 2);
    let high: u64 = lane_end(data, 4, 1) ^ lane_end(data, 4, 3);
    low ^ high ^ (data.len() as u64)
}

/// The first vector hash, with two lanes.
pub fn hash_sse2_current(data: &[u8]) -> (h: u64)
    ensures
        h == seeded_lane_end(data@, 2, 0) ^ seeded_lane_end(data@, 2, 1) ^ (data@.len() as u64),
{
    lane_end(data, 2, 0) ^ lane_end(data, 2, 1) ^ (data.len() as u64)
}

proof fn lemma_two_lanes(data: Seq<u8>, n: nat)
    ensures
        seeded_lane(data, 2, 0, n) ^ seeded_lane(data, 2, 1, n) == xored(data, 2 * n),
    decreases n,
{
    if n == 0 {
        assert(0u64 ^ 0u64 == 0u64) by (bit_vector);
    } else {
        let m = (n - 1) as nat;
        lemma_two_lanes(data, m);
        let (a, b) = (seeded_lane(data, 2, 0, m), seeded_lane(data, 2, 1, m));
        let k = n - 1;
        let (u, v) = (word(data, k * 2 + 0), word(data, k * 2 + 1));
        let s = chunk_seed(m);
        assert((a ^ u ^ s) ^ (b ^ v ^ s) == ((a ^ b) ^ u) ^ v) by (bit_vector);
        assert(xored(data, (2 * m + 1) as nat) == xored(data, 2 * m) ^ u);
        assert(xored(data, 2 * n) == xored(data, (2 * m + 1) as nat) ^ v);
    }
}

/// The seeds of the two-lane hash cancel each other: it is the plain xor of
/// all groups and the length. So it does not see groups that change places.
pub proof fn law_equal_seeds_cancel(data: Seq<u8>)
    ensures
        seeded_lane_end(data, 2, 0) ^ seeded_lane_end(data, 2, 1) == xored(
            data,
            words(data) as nat,
        ),
{
    let len = data.len() as int;
    let full = len / 16;
    lemma_two_lanes(data, full as nat);
    let rest = len % 16;
    if rest != 0 {
        let (a, b) = (seeded_lane(data, 2, 0, full as nat), seeded_lane(data, 2, 1, full as nat));
        let (u, v) = (word(data, full * 2), word(data, full * 2 + 1));
        assert((a ^ u) ^ (b ^ v) == ((a ^ b) ^ u) ^ v) by (bit_vector);
        assert(xored(data, (2 * full + 1) as nat) == xored(data, (2 * full) as nat) ^ u);
        if rest <= 8 {
            assert(v == 0);
            let x = xored(data, (2 * full + 1) as nat);
            assert(x ^ 0u64 == x) by (bit_vector);
            assert(words(data) == 2 * full + 1);
        } else {
            assert(words(data) == 2 * full + 2);
            assert(xored(data, (2 * full + 2) as nat) == xored(data, (2 * full + 1) as nat) ^ v);
        }
    } else {
        assert(words(data) == 2 * full);
    }
}

/// How a hash function fared.
#[derive(Clone, Copy, Debug, PartialEq, Eq, Structural)]
pub struct Marks {
    pub collisions: usize,
    /// Changes that it did not see.
    pub false_negatives: usize,
    /// Changes that it saw where there were none.
    pub false_positives: usize,
}

/// One trial: the hash of a tile, that of its variant, and whether they differ.
#[derive(Clone, Copy, Debug)]
pub struct Trial {
    pub original: u64,
    pub variant: u64,
    pub differs: bool,
}

/// Whether an earlier tile has the same hash.
pub open spec fn collides(trials: Seq<Trial>, i: int) -> bool {
    exists|j: int| 0 <= j < i && (#[trigger] trials[j]).original == trials[i].original
}

/// How many of the first `n` trials collide.
pub open spec fn collisions(trials: Seq<Trial>, n: nat) -> nat
    decreases n,
{
    if n == 0 {
        0
    } else {
        collisions(trials, (n - 1) as nat) + if collides(trials, n - 1) {
            1nat
        } else {
            0nat
        }
    }
}

/// How many changes of the first `n` trials were not seen.
pub open spec fn unseen(trials: Seq<Trial>, n: nat) -> nat
    decreases n,
{
    if n == 0 {
        0
    } else {
        let t = trials[n - 1];
        unseen(trials, (n - 1) as nat) + if t.differs && t.original == t.variant {
            1nat
        } else {
            0nat
        }
    }
}

/// How many changes were seen in the first `n` trials where there were none.
pub open spec fn imagined(trials: Seq<Trial>, n: nat) -> nat
    decreases n,
{
    if n == 0 {
        0
    } else {
        let t = trials[n - 1];
        imagined(trials, (n - 1) as nat) + if !t.differs && t.original != t.variant {
            1nat
        } else {
            0nat
        }
    }
}

fn has_twin(trials: &Vec<Trial>, i: usize) -> (b: bool)
    requires
        i < trials@.len(),
    ensures
        b == collides(trials@, i as int),
{
    let mut j: usize = 0;
    while j < i
        invariant
            j <= i < trials@.len(),
            forall|k: int| 0 <= k < j ==> (#[trigger] trials@[k]).original != trials@[i as int].original,
        decreases i - j,
    {
        if trials[j].original == trials[i].original {
            assert(trials@[j as int].original == trials@[i as int].original);
            return true;
        }
        j += 1;
    }
    false
}

/// Judges a hash function by its trials.
pub fn test_hash_function(trials: &Vec<Trial>) -> (m: Marks)
    ensures
        m.collisions == collisions(trials@, trials@.len()),
        m.false_negatives == unseen(trials@, trials@.len()),
        m.false_positives == imagined(trials@, trials@.len()),
{
    let n: usize = trials.len();
    let mut m = Marks { collisions: 0, false_negatives: 0, false_positives: 0 };
    let mut k: usize = 0;
    while k < n
        invariant
            k <= n,
            n == trials@.len(),
            m.collisions == collisions(trials@, k as nat),
            m.false_negatives == unseen(trials@, k as nat),
            m.false_positives == imagined(trials@, k as nat),
            m.collisions <= k,
            m.false_negatives <= k,
            m.false_positives <= k,
        decreases n - k,
    {
        let t: Trial = trials[k];
        if has_twin(trials, k) {
            m.collisions = m.collisions + 1;
        }
        if t.differs && t.original == t.variant {
            m.false_negatives = m.false_negatives + 1;
        }
        if !t.differs && t.original != t.variant {
            m.false_positives = m.false_positives + 1;
        }
        k += 1;
    }
    m
}

/// The weight of a missed change when hash functions are ranked.
pub const MISS_WEIGHT: u64 = 1000;

/// The weight of an imagined change when hash functions are ranked.
pub const FALSE_ALARM_WEIGHT: u64 = 100;

/// How a hash function ranks, lower being better: missed changes count most,
/// then imagined ones, then the time, in tenths of a microsecond.
pub fn quality_score(m: &Marks, tenths: u64) -> (score: u64)
    requires
        m.false_negatives * MISS_WEIGHT + m.false_positives * FALSE_ALARM_WEIGHT + tenths
            <= u64::MAX,
    ensures
        score == m.false_negatives * MISS_WEIGHT + m.false_positives * FALSE_ALARM_WEIGHT + tenths,
{
    m.false_negatives as u64 * MISS_WEIGHT + m.false_positives as u64 * FALSE_ALARM_WEIGHT + tenths
}

/// The weight of a missed change when hash functions that miss hardly any are
/// ranked.
pub const RARE_MISS_WEIGHT: u64 = 10000;

/// How a hash function ranks among those that miss hardly any change, with the
/// time in whole microseconds.
pub fn speed_score(m: &Marks, micros: u64) -> (score: u64)
    requires
        m.false_negatives * RARE_MISS_WEIGHT + m.false_positives * FALSE_ALARM_WEIGHT + micros
            <= u64::MAX,
    ensures
        score == m.false_negatives * RARE_MISS_WEIGHT + m.false_positives * FALSE_ALARM_WEIGHT
            + micros,
{
    m.false_negatives as u64 * RARE_MISS_WEIGHT + m.false_positives as u64 * FALSE_ALARM_WEIGHT
        + micros
}

/// A tile with its hash, its hash computed again, and its hash after a small
/// change.
pub struct Specimen {
    pub tile: Vec<u8>,
    pub hash: u64,
    pub again: u64,
    pub after_change: u64,
}

/// The last of the first `n` specimens with this hash.
pub open spec fn latest_with(specimens: Seq<Specimen>, hash: u64, n: nat) -> Option<int>
    decreases n,
{
    if n == 0 {
        None
    } else if specimens[n - 1].hash == hash {
        Some(n - 1)
    } else {
        latest_with(specimens, hash, (n - 1) as nat)
    }
}

/// Whether the last earlier tile with the same hash is a different tile.
pub open spec fn confused(specimens: Seq<Specimen>, i: int) -> bool {
    match latest_with(specimens, specimens[i].hash, i as nat) {
        Some(j) => specimens[j].tile@ != specimens[i].tile@,
        None => false,
    }
}

/// How many of the first `n` specimens meet a condition.
pub open spec fn counted(n: nat, met: spec_fn(int) -> bool) -> nat
    decreases n,
{
    if n == 0 {
        0
    } else {
        counted((n - 1) as nat, met) + if met(n - 1) {
            1nat
        } else {
            0nat
        }
    }
}

fn same_bytes(a: &Vec<u8>, b: &Vec<u8>) -> (same: bool)
    ensures
        same == (a@ == b@),
{
    if a.len() != b.len() {
        return false;
    }
    let mut k: usize = 0;
    while k < a.len()
        invariant
            k <= a@.len(),
            a@.len() == b@.len(),
            forall|j: int| 0 <= j < k ==> a@[j] == b@[j],
        decreases a@.len() - k,
    {
        if a[k] != b[k] {
            return false;
        }
        k += 1;
    }
    assert(a@ =~= b@);
    true
}

fn is_confused(specimens: &Vec<Specimen>, i: usize) -> (b: bool)
    requires
        i < specimens@.len(),
    ensures
        b == confused(specimens@, i as int),
{
    let hash: u64 = specimens[i].hash;
    let mut j: usize = i;
    while j > 0
        invariant
            j <= i < specimens@.len(),
            hash == specimens@[i as int].hash,
            latest_with(specimens@, hash, i as nat) == latest_with(specimens@, hash, j as nat),
        decreases j,
    {
        if specimens[j - 1].hash == hash {
            return !same_bytes(&specimens[j - 1].tile, &specimens[i].tile);
        }
        j -= 1;
    }
    false
}

/// Judges a hash function by specimens: different tiles that it confuses, small
/// changes that it does not see, and tiles that it does not recognise.
pub fn benchmark_hash(specimens: &Vec<Specimen>) -> (m: Marks)
    ensures
        m.collisions == counted(specimens@.len(), |i: int| confused(specimens@, i)),
        m.false_negatives == counted(
            specimens@.len(),
            |i: int| specimens@[i].hash == specimens@[i].after_change,
        ),
        m.false_positives == counted(
            specimens@.len(),
            |i: int| specimens@[i].hash != specimens@[i].again,
        ),
{
    let n: usize = specimens.len();
    let mut m = Marks { collisions: 0, false_negatives: 0, false_positives: 0 };
    let mut k: usize = 0;
    while k < n
        invariant
            k <= n,
            n == specimens@.len(),
            m.collisions == counted(k as nat, |i: int| confused(specimens@, i)),
            m.false_negatives == counted(
                k as nat,
                |i: int| specimens@[i].hash == specimens@[i].after_change,
            ),
            m.false_positives == counted(
                k as nat,
                |i: int| specimens@[i].hash != specimens@[i].again,
            ),
            m.collisions <= k,
            m.false_negatives <= k,
            m.false_positives <= k,
        decreases n - k,
    {
        if is_confused(specimens, k) {
            m.collisions = m.collisions + 1;
        }
        if specimens[k].hash == specimens[k].after_change {
            m.false_negatives = m.false_negatives + 1;
        }
        if specimens[k].hash != specimens[k].again {
            m.false_positives = m.false_positives + 1;
        }
        k += 1;
    }
    m
}

/// Changing one byte changes the group it stands in and no other.
proof fn lemma_word_changed(data: Seq<u8>, j: int, value: u8, k: int)
    requires
        0 <= j < data.len(),
        value != data[j],
        0 <= k,
    ensures
        word(data.update(j, value), k) != word(data, k) <==> k == j / 8,
{
    let other = data.update(j, value);
    let i = k * 8;
    assert forall|b: int| 0 <= b < data.len() && b != j implies padded_byte(other, b)
        == #[trigger] padded_byte(data, b) by {}
    if k == j / 8 {
        let r = j % 8;
        assert(j == i + r);
        if r == 0 {
        } else if r == 1 {
        } else if r == 2 {
        } else if r == 3 {
        } else if r == 4 {
        } else if r == 5 {
        } else if r == 6 {
        } else {
        }
    }
}

proof fn lemma_xor_differs(x: u64, y: u64, w: u64)
    requires
        x != y,
    ensures
        x ^ w != y ^ w,
        w ^ x != w ^ y,
{
    assert(x ^ w != y ^ w && w ^ x != w ^ y) by (bit_vector)
        requires
            x != y,
    ;
}

proof fn lemma_turned_differs(x: u64, y: u64, r: u64)
    requires
        0 < r < 64,
        x != y,
    ensures
        rotated(x, r) != rotated(y, r),
{
    let q = (64 - r) as u64;
    assert((x << r) | (x >> q) != (y << r) | (y >> q)) by (bit_vector)
        requires
            0 < r < 64,
            q == 64 - r,
            x != y,
    ;
}

proof fn lemma_folded_differs(x: u64, y: u64)
    requires
        x != y,
    ensures
        folded(x, 30) != folded(y, 30),
        folded(x, 27) != folded(y, 27),
        folded(x, 31) != folded(y, 31),
{
    assert(x ^ (x >> 30) != y ^ (y >> 30) && x ^ (x >> 27) != y ^ (y >> 27) && x ^ (x >> 31) != y ^ (
    y >> 31)) by (bit_vector)
        requires
            x != y,
    ;
}

/// What a splitting mixer makes of different sums differs.
proof fn lemma_split_differs(x: u64, y: u64)
    requires
        x != y,
    ensures
        folded(
            folded(folded(x, 30).wrapping_mul(0xbf58_476d_1ce4_e5b9), 27).wrapping_mul(
                0x94d0_49bb_1331_11eb,
            ),
            31,
        ) != folded(
            folded(folded(y, 30).wrapping_mul(0xbf58_476d_1ce4_e5b9), 27).wrapping_mul(
                0x94d0_49bb_1331_11eb,
            ),
            31,
        ),
{
    lemma_folded_differs(x, y);
    let (a, b) = (folded(x, 30), folded(y, 30));
    lemma_product_differs(a, b, 0xbf58_476d_1ce4_e5b9, 0x96de1b173f119089, 0x70c3bca78f27f46c);
    let (a, b) = (a.wrapping_mul(0xbf58_476d_1ce4_e5b9), b.wrapping_mul(0xbf58_476d_1ce4_e5b9));
    lemma_folded_differs(a, b);
    let (a, b) = (folded(a, 27), folded(b, 27));
    lemma_product_differs(a, b, 0x94d0_49bb_1331_11eb, 0x319642b2d24d8ec3, 0x1cd336eda85f1453);
    let (a, b) = (a.wrapping_mul(0x94d0_49bb_1331_11eb), b.wrapping_mul(0x94d0_49bb_1331_11eb));
    lemma_folded_differs(a, b);
}

/// From different states, the same group leads to different states.
proof fn lemma_mixed_state_differs(m: Mixer, g: u64, h: u64, w: u64)
    requires
        g != h,
    ensures
        mixed(m, g, w) != mixed(m, h, w),
{
    match m {
        Mixer::XorRotate => {
            lemma_turned_differs(g, h, 7);
            lemma_xor_differs(rotated(g, 7), rotated(h, 7), w);
        },
        Mixer::Murmur3 => {
            let v = rotated(w.wrapping_mul(0x87c3_7b91_1142_53d5), 31).wrapping_mul(
                0x4cf5_ad43_2745_937f,
            );
            lemma_xor_differs(g, h, v);
            lemma_turned_differs(g ^ v, h ^ v, 27);
            lemma_product_differs(
                rotated(g ^ v, 27),
                rotated(h ^ v, 27),
                5,
                0xcccccccccccccccd,
                4,
            );
        },
        Mixer::SplitMix64 => {
            lemma_split_differs(g.wrapping_add(w), h.wrapping_add(w));
        },
        Mixer::WyHash => {
            let v = w.wrapping_mul(0xa076_1d64_78bd_642f);
            lemma_xor_differs(g, h, v);
            lemma_product_differs(
                g ^ v,
                h ^ v,
                0xe703_7ed1_a0b4_28db,
                0x2e1b9953f3b39353,
                0x299b8884e3d4171f,
            );
        },
    }
}

/// From one state, different groups lead to different states.
proof fn lemma_mixed_word_differs(m: Mixer, h: u64, v: u64, w: u64)
    requires
        v != w,
    ensures
        mixed(m, h, v) != mixed(m, h, w),
{
    match m {
        Mixer::XorRotate => {
            lemma_xor_differs(v, w, rotated(h, 7));
        },
        Mixer::Murmur3 => {
            lemma_product_differs(
                v,
                w,
                0x87c3_7b91_1142_53d5,
                0xa98409e882ce4d7d,
                0x59e6129fa91071c3,
            );
            let (a, b) = (
                v.wrapping_mul(0x87c3_7b91_1142_53d5),
                w.wrapping_mul(0x87c3_7b91_1142_53d5),
            );
            lemma_turned_differs(a, b, 31);
            let (a, b) = (rotated(a, 31), rotated(b, 31));
            lemma_product_differs(
                a,
                b,
                0x4cf5_ad43_2745_937f,
                0xa81e14edd9de2c7f,
                0x328a44c9121df37a,
            );
            let (a, b) = (
                a.wrapping_mul(0x4cf5_ad43_2745_937f),
                b.wrapping_mul(0x4cf5_ad43_2745_937f),
            );
            lemma_xor_differs(a, b, h);
            lemma_turned_differs(h ^ a, h ^ b, 27);
            lemma_product_differs(
                rotated(h ^ a, 27),
                rotated(h ^ b, 27),
                5,
                0xcccccccccccccccd,
                4,
            );
        },
        Mixer::SplitMix64 => {
            lemma_split_differs(h.wrapping_add(v), h.wrapping_add(w));
        },
        Mixer::WyHash => {
            lemma_product_differs(
                v,
                w,
                0xa076_1d64_78bd_642f,
                0x939c72e4af1e62cf,
                0x5c85e2de8a9b090e,
            );
            let (a, b) = (
                v.wrapping_mul(0xa076_1d64_78bd_642f),
                w.wrapping_mul(0xa076_1d64_78bd_642f),
            );
            lemma_xor_differs(a, b, h);
            lemma_product_differs(
                h ^ a,
                h ^ b,
                0xe703_7ed1_a0b4_28db,
                0x2e1b9953f3b39353,
                0x299b8884e3d4171f,
            );
        },
    }
}

proof fn lemma_mixed_all_differs(m: Mixer, data: Seq<u8>, j: int, value: u8, n: nat)
    requires
        0 <= j < data.len(),
        value != data[j],
    ensures
        mixed_all(m, data.update(j, value), n) != mixed_all(m, data, n) <==> j / 8 < n,
    decreases n,
{
    if n > 0 {
        let other = data.update(j, value);
        lemma_mixed_all_differs(m, data, j, value, (n - 1) as nat);
        lemma_word_changed(data, j, value, n - 1);
        let (g, h) = (mixed_all(m, other, (n - 1) as nat), mixed_all(m, data, (n - 1) as nat));
        if g != h {
            lemma_mixed_state_differs(m, g, h, word(data, n - 1));
        } else if j / 8 == n - 1 {
            lemma_mixed_word_differs(m, h, word(other, n - 1), word(data, n - 1));
        }
    }
}

/// No mixer misses a single changed byte.
pub proof fn law_mixers_see_every_byte(m: Mixer, data: Seq<u8>, j: int, value: u8)
    requires
        0 <= j < data.len(),
        value != data[j],
    ensures
        mixer_hash(m, data.update(j, value)) != mixer_hash(m, data),
{
    let n = words(data) as nat;
    lemma_mixed_all_differs(m, data, j, value, n);
    lemma_xor_differs(
        mixed_all(m, data.update(j, value), n),
        mixed_all(m, data, n),
        data.len() as u64,
    );
}

proof fn lemma_xored_differs(data: Seq<u8>, j: int, value: u8, n: nat)
    requires
        0 <= j < data.len(),
        value != data[j],
    ensures
        xored(data.update(j, value), n) != xored(data, n) <==> j / 8 < n,
    decreases n,
{
    if n > 0 {
        let other = data.update(j, value);
        lemma_xored_differs(data, j, value, (n - 1) as nat);
        lemma_word_changed(data, j, value, n - 1);
        let (g, h) = (xored(other, (n - 1) as nat), xored(data, (n - 1) as nat));
        if g != h {
            lemma_xor_differs(g, h, word(data, n - 1));
        } else if j / 8 == n - 1 {
            lemma_xor_differs(word(other, n - 1), word(data, n - 1), h);
        }
    }
}

/// The plain xor does not miss a single changed byte either, with the length or without.
pub proof fn law_xor_sees_every_byte(data: Seq<u8>, j: int, value: u8)
    requires
        0 <= j < data.len(),
        value != data[j],
    ensures
        ({
            let other = data.update(j, value);
            let (x, y) = (xored(other, words(other) as nat), xored(data, words(data) as nat));
            x != y && x ^ (other.len() as u64) != y ^ (data.len() as u64)
        }),
{
    let n = words(data) as nat;
    lemma_xored_differs(data, j, value, n);
    lemma_xor_differs(xored(data.update(j, value), n), xored(data, n), data.len() as u64);
}

/// FNV-1a does not miss a single changed byte.
pub proof fn law_fnv_sees_every_byte(data: Seq<u8>, j: int, value: u8, n: nat)
    requires
        0 <= j < data.len(),
        value != data[j],
        n <= data.len(),
    ensures
        fnv1a(data.update(j, value), n) != fnv1a(data, n) <==> j < n,
    decreases n,
{
    if n > 0 {
        let other = data.update(j, value);
        law_fnv_sees_every_byte(data, j, value, (n - 1) as nat);
        let (g, h) = (fnv1a(other, (n - 1) as nat), fnv1a(data, (n - 1) as nat));
        let (v, w) = (other[n - 1] as u64, data[n - 1] as u64);
        if g != h {
            lemma_xor_differs(g, h, w);
        } else if j == n - 1 {
            lemma_xor_differs(v, w, h);
        }
        if g != h || j == n - 1 {
            lemma_product_differs(
                g ^ v,
                h ^ w,
                0x100_0000_01b3,
                0xce965057aff6957b,
                0xce9650590f,
            );
        }
    }
}

proof fn lemma_same_samples(data: Seq<u8>, other: Seq<u8>, step: int, k: nat)
    requires
        step >= 4,
        data.len() == other.len(),
        forall|j: int| 0 <= j < data.len() && j % step < 4 ==> data[j] == other[j],
    ensures
        sampled_xor(data, step, k) == sampled_xor(other, step, k),
    decreases k,
{
    if k > 0 {
        lemma_same_samples(data, other, step, (k - 1) as nat);
        let i = (k - 1) * step;
        if i + 3 < data.len() {
            assert(0 <= i) by (nonlinear_arith)
                requires
                    i == (k - 1) * step,
                    k >= 1,
                    step >= 4,
            ;
            assert forall|c: int| 0 <= c < 4 implies #[trigger] data[i + c] == other[i + c] by {
                vstd::arithmetic::div_mod::lemma_fundamental_div_mod_converse(
                    i + c,
                    step,
                    k - 1,
                    c,
                );
            }
            assert(data[i + 0] == other[i + 0] && data[i + 1] == other[i + 1]);
            assert(data[i + 2] == other[i + 2] && data[i + 3] == other[i + 3]);
        }
    }
}

/// A hash of samples takes in every `stride`th pixel and nothing else: tiles of one length
/// with the same pixels there have the same hash.
pub proof fn law_samples_are_every_strideth_pixel(data: Seq<u8>, other: Seq<u8>, stride: int)
    requires
        stride >= 1,
        data.len() == other.len(),
        forall|j: int| 0 <= j < data.len() && j % (stride * 4) < 4 ==> data[j] == other[j],
    ensures
        sample_hash(data, stride) == sample_hash(other, stride),
{
    let n = sample_count(data.len() as int, stride * 4) as nat;
    lemma_same_samples(data, other, stride * 4, n);
}

/// Every second pixel is taken of tiles under a hundred pixels, every fourth under a
/// thousand, and every eighth of larger ones.
pub proof fn law_larger_tiles_are_sampled_less(pixels: int)
    requires
        0 <= pixels,
    ensures
        pixels < 100 ==> sample_stride(pixels * 4) == 2,
        100 <= pixels < 1000 ==> sample_stride(pixels * 4) == 4,
        pixels >= 1000 ==> sample_stride(pixels * 4) == 8,
{
}

/// The different hashes of the first `n` tiles.
pub open spec fn hashes_seen(trials: Seq<Trial>, n: nat) -> Set<u64>
    decreases n,
{
    if n == 0 {
        Set::empty()
    } else {
        hashes_seen(trials, (n - 1) as nat).insert(trials[n - 1].original)
    }
}

proof fn lemma_hashes_seen(trials: Seq<Trial>, n: nat, hash: u64)
    requires
        n <= trials.len(),
    ensures
        hashes_seen(trials, n).finite(),
        hashes_seen(trials, n).contains(hash) <==> exists|j: int|
            0 <= j < n && (#[trigger] trials[j]).original == hash,
    decreases n,
{
    if n > 0 {
        lemma_hashes_seen(trials, (n - 1) as nat, hash);
        if trials[n - 1].original == hash {
            assert(hashes_seen(trials, n).contains(hash));
        }
    }
}

/// Every tile has a hash of its own or collides: the collisions and the different hashes
/// make the number of tiles.
pub proof fn law_collisions_are_missing_hashes(trials: Seq<Trial>, n: nat)
    requires
        n <= trials.len(),
    ensures
        hashes_seen(trials, n).finite(),
        collisions(trials, n) + hashes_seen(trials, n).len() == n,
    decreases n,
{
    if n > 0 {
        law_collisions_are_missing_hashes(trials, (n - 1) as nat);
        lemma_hashes_seen(trials, (n - 1) as nat, trials[n - 1].original);
        let before = hashes_seen(trials, (n - 1) as nat);
        if before.contains(trials[n - 1].original) {
            assert(before.insert(trials[n - 1].original) =~= before);
            assert(collides(trials, n - 1));
        } else {
            assert(!collides(trials, n - 1));
        }
    }
}

/// No change went unseen where every changed tile has another hash than before, and none
/// was imagined where every unchanged one has the same; and only then.
pub proof fn law_marks_are_free_of_errors(trials: Seq<Trial>, n: nat)
    requires
        n <= trials.len(),
    ensures
        unseen(trials, n) == 0 <==> forall|k: int|
            0 <= k < n && (#[trigger] trials[k]).differs ==> trials[k].original
                != trials[k].variant,
        imagined(trials, n) == 0 <==> forall|k: int|
            0 <= k < n && !(#[trigger] trials[k]).differs ==> trials[k].original
                == trials[k].variant,
        unseen(trials, n) + imagined(trials, n) <= n,
    decreases n,
{
    if n > 0 {
        law_marks_are_free_of_errors(trials, (n - 1) as nat);
        let t = trials[n - 1];
        let m = (n - 1) as nat;
        assert(unseen(trials, m) != 0 ==> exists|k: int|
            0 <= k < m && (#[trigger] trials[k]).differs && trials[k].original
                == trials[k].variant);
        assert(imagined(trials, m) != 0 ==> exists|k: int|
            0 <= k < m && !(#[trigger] trials[k]).differs && trials[k].original
                != trials[k].variant);
    }
}

proof fn lemma_latest_with(specimens: Seq<Specimen>, hash: u64, n: nat)
    requires
        n <= specimens.len(),
    ensures
        latest_with(specimens, hash, n) matches Some(j) ==> 0 <= j < n && specimens[j].hash == hash
            && (forall|k: int| j < k < n ==> (#[trigger] specimens[k]).hash != hash),
        latest_with(specimens, hash, n) is None ==> forall|k: int|
            0 <= k < n ==> (#[trigger] specimens[k]).hash != hash,
    decreases n,
{
    if n > 0 {
        lemma_latest_with(specimens, hash, (n - 1) as nat);
    }
}

/// A tile is only confused with an earlier one of the same hash and other content. It is
/// confused where the last such hash was that of other content, whatever came before.
pub proof fn law_confusion_is_of_different_tiles(specimens: Seq<Specimen>, i: int, j: int)
    requires
        0 <= j < i < specimens.len(),
        specimens[j].hash == specimens[i].hash,
        forall|k: int| j < k < i ==> (#[trigger] specimens[k]).hash != specimens[i].hash,
    ensures
        confused(specimens, i) <==> specimens[j].tile@ != specimens[i].tile@,
{
    lemma_latest_with(specimens, specimens[i].hash, i as nat);
}

} // verus!
