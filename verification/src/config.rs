//! Settings of the streamer.

use crate::ice::IceServer;
use crate::text::{
    all_chars, begins_with, chars_of, find, find_char, find_from, join, lines, same_text,
    split_lines, text_from, trim, trim_range,
};
use vstd::prelude::*;

verus! {

/// A rate in frames per second, never zero.
#[derive(Clone, Copy, Debug)]
pub struct Fps {
    value: u64,
}

impl View for Fps {
    type V = nat;

    closed spec fn view(&self) -> nat {
        self.value as nat
    }
}

impl Fps {
    #[verifier::type_invariant]
    spec fn positive(self) -> bool {
        self.value > 0
    }

    /// The rate `value`, or `None` for zero.
    pub fn new(value: u64) -> (rate: Option<Fps>)
        ensures
            rate is Some <==> value > 0,
            rate matches Some(r) ==> r@ == value,
    {
        if value == 0 {
            None
        } else {
            Some(Fps { value })
        }
    }

    /// The rate as a number.
    pub fn get(&self) -> (value: u64)
        ensures
            value == self@,
            value > 0,
    {
        proof {
            use_type_invariant(self);
        }
        self.value
    }
}

/// The scale of [`Config`]'s fractional settings: one million stands for 1.0.
pub const MILLIONTHS: u32 = 1_000_000;

/// The streamer's settings. Qualities and weights are in millionths.
#[derive(Clone)]
pub struct Config {
    pub ws_port: u16,
    pub target_fps: Fps,
    pub tiles_x: u32,
    pub webp_quality_low: u32,
    pub webp_quality_high: u32,
    pub merge_gap: u32,
    pub priority_history_window: usize,
    pub priority_frequency_weight: u32,
    pub priority_speed_weight: u32,
    pub priority_center_weight: u32,
    pub static_tile_fps: Fps,
    pub dynamic_tile_fps: Fps,
    pub debug_mode: bool,
    pub auth_token: String,
    pub tls_cert_path: Option<String>,
    pub tls_key_path: Option<String>,
    pub ice_interface: Option<String>,
    pub ice_ipv4_only: bool,
    pub ice_servers: Vec<IceServer>,
    pub control: bool,
}

/// The settings of a streamer that nothing was configured for.
pub open spec fn is_default(c: Config) -> bool {
    &&& c.ws_port == 9001
    &&& c.target_fps@ == 60
    &&& c.tiles_x == 20
    &&& c.webp_quality_low == 1_000_000
    &&& c.webp_quality_high == 10_000_000
    &&& c.merge_gap == 0
    &&& c.priority_history_window == 30
    &&& c.priority_frequency_weight == 500_000
    &&& c.priority_speed_weight == 300_000
    &&& c.priority_center_weight == 200_000
    &&& c.static_tile_fps@ == 16
    &&& c.dynamic_tile_fps@ == 60
    &&& !c.debug_mode
    &&& c.auth_token@ == Seq::<char>::empty()
    &&& c.tls_cert_path is None
    &&& c.tls_key_path is None
    &&& c.ice_interface is None
    &&& !c.ice_ipv4_only
    &&& c.ice_servers@ == Seq::<IceServer>::empty()
    &&& !c.control
}

impl Default for Config {
    fn default() -> (c: Self)
        ensures
            is_default(c),
    {
        Config {
            ws_port: 9001,
            target_fps: Fps { value: 60 },
            tiles_x: 20,
            webp_quality_low: 1_000_000,
            webp_quality_high: 10_000_000,
            merge_gap: 0,
            priority_history_window: 30,
            priority_frequency_weight: 500_000,
            priority_speed_weight: 300_000,
            priority_center_weight: 200_000,
            static_tile_fps: Fps { value: 16 },
            dynamic_tile_fps: Fps { value: 60 },
            debug_mode: false,
            auth_token: String::new(),
            tls_cert_path: None,
            tls_key_path: None,
            ice_interface: None,
            ice_ipv4_only: false,
            ice_servers: Vec::new(),
            control: false,
        }
    }
}

/// The highest rate that [`Config::cap_rates`] lets through.
pub const MAX_RATE: u64 = 1000;

/// The cap that a wish for `wanted` frames per second stands for.
pub open spec fn rate_cap(wanted: nat) -> nat {
    if wanted < 1 {
        1
    } else if wanted > MAX_RATE {
        MAX_RATE as nat
    } else {
        wanted
    }
}

/// A rate under a cap.
pub open spec fn capped(rate: nat, cap: nat) -> nat {
    if rate > cap {
        cap
    } else {
        rate
    }
}

impl Fps {
    /// The rate, or `cap` if it is higher.
    fn at_most(&self, cap: u64) -> (rate: Fps)
        requires
            cap >= 1,
        ensures
            rate@ == capped(self@, cap as nat),
    {
        let value: u64 = self.get();
        if value > cap {
            Fps { value: cap }
        } else {
            Fps { value }
        }
    }
}

impl Config {
    /// How long a frame lasts, in milliseconds.
    pub fn frame_duration(&self) -> (ms: u64)
        ensures
            ms == duration_at(self.target_fps@),
            ms == 1000nat / self.target_fps@,
            self.target_fps@ > 0,
    {
        1000 / self.target_fps.get()
    }

    /// Caps all three rates; the cap itself is kept between 1 and
    /// [`MAX_RATE`].
    pub fn cap_rates(&mut self, wanted: u64)
        ensures
            final(self).target_fps@ == capped(old(self).target_fps@, rate_cap(wanted as nat)),
            final(self).static_tile_fps@ == capped(
                old(self).static_tile_fps@,
                rate_cap(wanted as nat),
            ),
            final(self).dynamic_tile_fps@ == capped(
                old(self).dynamic_tile_fps@,
                rate_cap(wanted as nat),
            ),
            *final(self) == (Config {
                target_fps: final(self).target_fps,
                static_tile_fps: final(self).static_tile_fps,
                dynamic_tile_fps: final(self).dynamic_tile_fps,
                ..*old(self)
            }),
    {
        let cap: u64 = if wanted < 1 {
            1
        } else if wanted > MAX_RATE {
            MAX_RATE
        } else {
            wanted
        };
        self.target_fps = self.target_fps.at_most(cap);
        self.static_tile_fps = self.static_tile_fps.at_most(cap);
        self.dynamic_tile_fps = self.dynamic_tile_fps.at_most(cap);
    }
}

/// More than this for a tile makes a slow machine, in nanoseconds: 20 ms.
pub const SLOW_TILE: u64 = 20_000_000;

/// More than this for a tile makes a medium machine, in nanoseconds: 10 ms.
pub const MEDIUM_TILE: u64 = 10_000_000;

/// How many tiles the encoder benchmark times.
pub const BENCHMARK_ROUNDS: u64 = 10;

/// How far apart changed tiles may be to be merged, given how long encoding
/// `rounds` tiles took: the slower the machine, the further.
pub open spec fn gap_for(elapsed: int, rounds: int) -> u32 {
    if elapsed > SLOW_TILE * rounds {
        3
    } else if elapsed > MEDIUM_TILE * rounds {
        1
    } else {
        0
    }
}

/// Picks the merge gap for a machine that took `elapsed` nanoseconds to encode
/// [`BENCHMARK_ROUNDS`] tiles.
pub fn merge_gap_for(elapsed: u64) -> (gap: u32)
    ensures
        gap == gap_for(elapsed as int, BENCHMARK_ROUNDS as int),
{
    if elapsed > SLOW_TILE * BENCHMARK_ROUNDS {
        3
    } else if elapsed > MEDIUM_TILE * BENCHMARK_ROUNDS {
        1
    } else {
        0
    }
}

/// Where the merge gap comes from.
#[derive(Clone, Copy, Debug, PartialEq, Eq, Structural)]
pub enum Tuning {
    /// The benchmark result of an earlier run.
    Cached(u32),
    /// The time that the benchmark took now, in nanoseconds.
    Measured(u64),
}

impl Config {
    /// The default settings with the merge gap that fits the machine.
    pub fn with_auto_merge_gap(tuning: Tuning) -> (c: Self)
        ensures
            c.merge_gap == match tuning {
                Tuning::Cached(gap) => gap,
                Tuning::Measured(elapsed) => gap_for(elapsed as int, BENCHMARK_ROUNDS as int),
            },
            is_default((Config { merge_gap: 0, ..c })),
    {
        let mut config: Config = Config::default();
        config.merge_gap = match tuning {
            Tuning::Cached(gap) => gap,
            Tuning::Measured(elapsed) => merge_gap_for(elapsed),
        };
        config
    }
}

/// A slower machine never gets a smaller gap.
pub proof fn law_slower_machines_merge_more(a: int, b: int, rounds: int)
    requires
        a <= b,
        rounds >= 0,
    ensures
        gap_for(a, rounds) <= gap_for(b, rounds),
{
    assert(MEDIUM_TILE * rounds <= SLOW_TILE * rounds) by (nonlinear_arith)
        requires
            rounds >= 0,
    ;
}

/// A benchmark result kept from an earlier run. Times are seconds.
pub struct BenchmarkCache {
    pub cpu_model: String,
    pub merge_gap: u32,
    pub timestamp: u64,
    pub binary_mtime: u64,
}

/// Seconds in a day.
pub const DAY: u64 = 86400;

/// How many days a benchmark result is kept for.
pub const CACHE_DAYS: u64 = 7;

/// Whether a kept result still holds: same processor, same program, and not
/// too old.
pub open spec fn still_holds(c: BenchmarkCache, cpu_model: Seq<char>, mtime: u64, now: u64) -> bool {
    &&& c.cpu_model@ == cpu_model
    &&& c.binary_mtime == mtime
    &&& now - c.timestamp <= CACHE_DAYS * DAY
}

/// The merge gap of a kept result, if it still holds.
pub fn cached_gap(cache: &BenchmarkCache, cpu_model: &str, mtime: u64, now: u64) -> (gap: Option<u32>)
    requires
        cache.timestamp <= now,
    ensures
        gap == (if still_holds(*cache, cpu_model@, mtime, now) {
            Some(cache.merge_gap)
        } else {
            None
        }),
{
    if !same_text(cache.cpu_model.as_str(), cpu_model) {
        return None;
    }
    if cache.binary_mtime != mtime {
        return None;
    }
    if now - cache.timestamp > CACHE_DAYS * DAY {
        return None;
    }
    Some(cache.merge_gap)
}

/// The value of a line, between its first colon and the next one.
pub open spec fn value_in(line: Seq<char>) -> Option<Seq<char>> {
    match find(line, ':') {
        Some(i) => Some(
            trim(
                line.subrange(
                    i + 1,
                    match find_from(line, ':', i + 1) {
                        Some(j) => j,
                        None => line.len() as int,
                    },
                ),
            ),
        ),
        None => None,
    }
}

/// The model that lines `from` on name: that of the first line that starts with
/// `model name` and has a value.
pub open spec fn model_in(info: Seq<Seq<char>>, from: int) -> Seq<char>
    decreases info.len() - from,
{
    if from >= info.len() {
        "unknown"@
    } else if "model name"@.is_prefix_of(info[from]) && value_in(info[from]) is Some {
        value_in(info[from])->0
    } else {
        model_in(info, from + 1)
    }
}

/// The processor's model, as the text of `/proc/cpuinfo` names it.
pub fn cpu_model(cpuinfo: &str) -> (model: String)
    ensures
        model@ == model_in(lines(cpuinfo@), 0),
{
    let all: Vec<Vec<char>> = split_lines(cpuinfo);
    let head: Vec<char> = chars_of("model name");
    let ghost values = lines(cpuinfo@);
    assert(values.len() == all@.len());
    let mut k: usize = 0;
    while k < all.len()
        invariant
            k <= all@.len(),
            head@ == "model name"@,
            values == all_chars(all@),
            values.len() == all@.len(),
            values == lines(cpuinfo@),
            model_in(values, 0) == model_in(values, k as int),
        decreases all@.len() - k,
    {
        let line: &Vec<char> = &all[k];
        let n: usize = line.len();
        assert(values[k as int] == line@);
        if begins_with(line, &head) {
            if let Some(i) = find_char(line, ':', 0) {
                let end: usize = match find_char(line, ':', i + 1) {
                    Some(j) => j,
                    None => n,
                };
                let (a, b) = trim_range(line, i + 1, end);
                return text_from(line, a, b);
            }
        }
        k += 1;
    }
    "unknown".to_owned()
}

/// A path with a name added to it.
pub open spec fn with_name(base: Seq<char>, name: Seq<char>) -> Seq<char> {
    if base.len() == 0 || base.last() == '/' {
        base + name
    } else {
        base + "/"@ + name
    }
}

/// Where the benchmark result is kept, given the values of `XDG_CACHE_HOME` and
/// `HOME`.
pub open spec fn cache_dir(xdg: Option<Seq<char>>, home: Option<Seq<char>>) -> Seq<char> {
    let base = match xdg {
        Some(dir) => dir,
        None => with_name(
            match home {
                Some(dir) => dir,
                None => "/tmp"@,
            },
            ".cache"@,
        ),
    };
    with_name(base, "screen-streamer"@)
}

fn add_name(base: &str, name: &str) -> (path: String)
    ensures
        path@ == with_name(base@, name@),
{
    let chars: Vec<char> = chars_of(base);
    let n: usize = chars.len();
    if n == 0 || chars[n - 1] == '/' {
        join(base, name)
    } else {
        join(join(base, "/").as_str(), name)
    }
}

/// The text of an optional string.
pub open spec fn str_value(s: Option<&str>) -> Option<Seq<char>> {
    match s {
        Some(s) => Some(s@),
        None => None,
    }
}

/// The directory of the benchmark result, by the values of `XDG_CACHE_HOME` and
/// `HOME`.
pub fn cache_directory(xdg: Option<&str>, home: Option<&str>) -> (path: String)
    ensures
        path@ == cache_dir(str_value(xdg), str_value(home)),
{
    let base: String = match xdg {
        Some(dir) => dir.to_owned(),
        None => match home {
            Some(dir) => add_name(dir, ".cache"),
            None => add_name("/tmp", ".cache"),
        },
    };
    add_name(base.as_str(), "screen-streamer")
}

/// The file of the benchmark result.
pub fn cache_file_path(xdg: Option<&str>, home: Option<&str>) -> (path: String)
    ensures
        path@ == with_name(cache_dir(str_value(xdg), str_value(home)), "cpu_bench.json"@),
{
    let dir: String = cache_directory(xdg, home);
    add_name(dir.as_str(), "cpu_bench.json")
}

/// A capped rate is the highest one that is no higher than the rate itself, the wish,
/// or a thousand; a wish for less than one counts as one.
pub proof fn law_capped_rates_keep_all_limits(rate: nat, wanted: nat)
    requires
        rate >= 1,
    ensures
        ({
            let r = capped(rate, rate_cap(wanted));
            &&& 1 <= r <= rate
            &&& r <= 1000
            &&& r <= wanted || r == 1
            &&& r == rate || r == 1000 || r == wanted || (r == 1 && wanted == 0)
        }),
{
}

/// A machine that takes more than twenty milliseconds per tile merges over three cells,
/// one that takes more than ten over one, and a faster one over none.
pub proof fn law_gap_follows_the_time_per_tile(elapsed: int, rounds: int)
    requires
        rounds >= 1,
    ensures
        gap_for(elapsed, rounds) == 3 <==> elapsed > 20_000_000 * rounds,
        gap_for(elapsed, rounds) == 1 <==> 10_000_000 * rounds < elapsed <= 20_000_000 * rounds,
        gap_for(elapsed, rounds) == 0 <==> elapsed <= 10_000_000 * rounds,
{
}

/// A kept result holds for a week on the machine and for the program it was made with.
pub proof fn law_kept_result_holds_for_a_week(c: BenchmarkCache, cpu_model: Seq<char>, mtime: u64, now: u64)
    ensures
        still_holds(c, cpu_model, mtime, now) ==> now <= c.timestamp + 604_800,
        still_holds(c, cpu_model, mtime, now) ==> c.cpu_model@ == cpu_model && c.binary_mtime
            == mtime,
        c.cpu_model@ == cpu_model && c.binary_mtime == mtime && c.timestamp <= now <= c.timestamp
            + 604_800 ==> still_holds(c, cpu_model, mtime, now),
{
}

/// By default the three weights of a score make one whole, cells that keep changing may
/// be sent in every frame, and still ones get the higher quality.
pub proof fn law_default_settings_fit_together(c: Config)
    requires
        is_default(c),
    ensures
        c.priority_frequency_weight + c.priority_speed_weight + c.priority_center_weight
            == MILLIONTHS,
        c.priority_frequency_weight > c.priority_speed_weight > c.priority_center_weight > 0,
        c.dynamic_tile_fps@ == c.target_fps@,
        1 <= c.static_tile_fps@ < c.dynamic_tile_fps@,
        0 < c.webp_quality_low < c.webp_quality_high <= 100 * MILLIONTHS,
        c.tiles_x >= 1,
        c.priority_history_window >= 1,
        !c.control,
{
}

/// A name added to a path comes last, after the path and one slash: the path's own, if
/// it ends in one. An empty path gives the name alone.
pub proof fn law_name_is_added_after_a_slash(base: Seq<char>, name: Seq<char>)
    ensures
        ({
            let path = with_name(base, name);
            &&& base.is_prefix_of(path)
            &&& name.is_suffix_of(path)
            &&& base.len() == 0 ==> path == name
            &&& base.len() > 0 ==> path[path.len() - name.len() - 1] == '/'
            &&& path.len() <= base.len() + 1 + name.len()
            &&& base.len() > 0 && base.last() == '/' ==> path.len() == base.len() + name.len()
        }),
{
    reveal_strlit("/");
    let path = with_name(base, name);
    assert(base =~= path.subrange(0, base.len() as int));
    assert(name =~= path.subrange(path.len() - name.len(), path.len() as int));
}

/// The cache directory's setting comes first, then the home directory's `.cache`, then
/// that of the temporary directory; the program has a directory of its own there.
pub proof fn law_cache_directory_is_the_first_known(xdg: Seq<char>, home: Seq<char>, other: Option<Seq<char>>)
    ensures
        cache_dir(Some(xdg), other) == with_name(xdg, "screen-streamer"@),
        cache_dir(None, Some(home)) == cache_dir(Some(with_name(home, ".cache"@)), other),
        cache_dir(None, None) == cache_dir(None, Some("/tmp"@)),
{
}

/// How many whole milliseconds a frame lasts at a rate.
pub open spec fn duration_at(rate: nat) -> nat {
    1000nat / rate
}

/// A second's worth of frames fits a second, and would not if each lasted a millisecond
/// longer.
pub proof fn law_frames_fill_a_second(rate: nat)
    requires
        rate >= 1,
    ensures
        duration_at(rate) * rate <= 1000,
        (duration_at(rate) + 1) * rate > 1000,
{
    let q = 1000nat / rate;
    vstd::arithmetic::div_mod::lemma_fundamental_div_mod(1000, rate as int);
    vstd::arithmetic::div_mod::lemma_mod_bound(1000, rate as int);
    assert(q * rate == rate * q && (q + 1) * rate == rate * q + rate) by (nonlinear_arith);
}

/// A line's value stands behind its first colon, up to the next one, without the white space
/// around it; a line without a colon has none.
pub proof fn law_value_stands_behind_the_colon(name: Seq<char>, value: Seq<char>, rest: Seq<char>)
    requires
        !name.contains(':'),
        !value.contains(':'),
    ensures
        value_in(name + seq![':'] + value) == Some(trim(value)),
        value_in(name + seq![':'] + value + seq![':'] + rest) == Some(trim(value)),
        value_in(name) is None,
{
    let (short, n) = (name + seq![':'] + value, name.len() as int);
    let long = short + seq![':'] + rest;
    let end = short.len() as int;
    lemma_first_colon(name, short, n);
    lemma_first_colon(name, long, n);
    crate::text::lemma_find_from(name, ':', 0);
    match find(name, ':') {
        Some(i) => {
            assert(name.contains(name[i]));
        },
        None => {},
    }
    crate::text::lemma_find_from(short, ':', n + 1);
    crate::text::lemma_find_from(long, ':', n + 1);
    match find_from(short, ':', n + 1) {
        Some(j) => {
            assert(value.contains(value[j - n - 1]));
        },
        None => {},
    }
    assert(long[end] == ':');
    match find_from(long, ':', n + 1) {
        Some(j) => {
            if j < end {
                assert(long[j] == value[j - n - 1]);
                assert(value.contains(value[j - n - 1]));
            }
        },
        None => {},
    }
    assert(short.subrange(n + 1, short.len() as int) =~= value);
    assert(long.subrange(n + 1, end) =~= value);
}

proof fn lemma_first_colon(name: Seq<char>, line: Seq<char>, n: int)
    requires
        !name.contains(':'),
        n == name.len(),
        n < line.len(),
        line[n] == ':',
        forall|k: int| 0 <= k < n ==> line[k] == name[k],
    ensures
        find(line, ':') == Some(n),
{
    crate::text::lemma_find_from(line, ':', 0);
    match find(line, ':') {
        Some(i) => {
            if i < n {
                assert(name.contains(name[i]));
            }
        },
        None => {},
    }
}

/// The model is the value of the first line that begins with `model name` and has a value,
/// and is not known where there is none.
pub proof fn law_first_named_model_counts(info: Seq<Seq<char>>, from: int, k: int)
    requires
        0 <= from <= k,
        k <= info.len(),
        forall|j: int|
            from <= j < k ==> !"model name"@.is_prefix_of(#[trigger] info[j]) || value_in(info[j])
                is None,
    ensures
        k == info.len() ==> model_in(info, from) == "unknown"@,
        k < info.len() && "model name"@.is_prefix_of(info[k]) ==> (value_in(info[k]) matches Some(
            value,
        ) ==> model_in(info, from) == value),
    decreases k - from,
{
    if from < k {
        assert(!"model name"@.is_prefix_of(info[from]) || value_in(info[from]) is None);
        law_first_named_model_counts(info, from + 1, k);
    }
}

} // verus!
