use screen_streamer::config::{
    cache_directory, cache_file_path, cached_gap, cpu_model, merge_gap_for, BenchmarkCache, Config,
    Fps, Tuning, BENCHMARK_ROUNDS,
};

const MS: u64 = 1_000_000;

#[test]
fn the_defaults_are_those_of_the_reference_table() {
    let c = Config::default();
    assert_eq!(c.ws_port, 9001);
    assert_eq!(c.target_fps.get(), 60);
    assert_eq!(c.tiles_x, 20);
    assert_eq!((c.webp_quality_low, c.webp_quality_high), (1_000_000, 10_000_000));
    assert_eq!(c.merge_gap, 0);
    assert_eq!(c.priority_history_window, 30);
    assert_eq!(
        (c.priority_frequency_weight, c.priority_speed_weight, c.priority_center_weight),
        (500_000, 300_000, 200_000)
    );
    assert_eq!((c.static_tile_fps.get(), c.dynamic_tile_fps.get()), (16, 60));
    assert!(!c.debug_mode && !c.control && !c.ice_ipv4_only);
    assert!(c.auth_token.is_empty() && c.ice_servers.is_empty());
}

#[test]
fn a_frame_lasts_a_fraction_of_a_second() {
    let mut c = Config::default();
    assert_eq!(c.frame_duration(), 16);
    c.target_fps = Fps::new(1).unwrap();
    assert_eq!(c.frame_duration(), 1000);
    c.target_fps = Fps::new(2000).unwrap();
    assert_eq!(c.frame_duration(), 0);
    assert!(Fps::new(0).is_none());
}

#[test]
fn all_rates_are_capped_alike() {
    let mut c = Config::default();
    c.cap_rates(30);
    assert_eq!(
        (c.target_fps.get(), c.static_tile_fps.get(), c.dynamic_tile_fps.get()),
        (30, 16, 30)
    );
    c.cap_rates(0);
    assert_eq!(
        (c.target_fps.get(), c.static_tile_fps.get(), c.dynamic_tile_fps.get()),
        (1, 1, 1)
    );
    let mut c = Config { target_fps: Fps::new(5000).unwrap(), ..Config::default() };
    c.cap_rates(9999);
    assert_eq!(c.target_fps.get(), 1000);
    assert_eq!(c.static_tile_fps.get(), 16);
}

#[test]
fn slow_machines_merge_more() {
    let rounds = BENCHMARK_ROUNDS;
    assert_eq!(merge_gap_for(0), 0);
    assert_eq!(merge_gap_for(10 * MS * rounds), 0);
    assert_eq!(merge_gap_for(10 * MS * rounds + 1), 1);
    assert_eq!(merge_gap_for(20 * MS * rounds), 1);
    assert_eq!(merge_gap_for(20 * MS * rounds + 1), 3);
    assert_eq!(Config::with_auto_merge_gap(Tuning::Cached(2)).merge_gap, 2);
    assert_eq!(Config::with_auto_merge_gap(Tuning::Measured(u64::MAX)).merge_gap, 3);
}

#[test]
fn a_benchmark_result_holds_for_a_week_on_one_machine() {
    const DAY: u64 = 86400;
    let cache = BenchmarkCache {
        cpu_model: "cpu".into(),
        merge_gap: 3,
        timestamp: 1000,
        binary_mtime: 5,
    };
    assert_eq!(cached_gap(&cache, "cpu", 5, 1000), Some(3));
    assert_eq!(cached_gap(&cache, "cpu", 5, 1000 + 7 * DAY), Some(3));
    assert_eq!(cached_gap(&cache, "cpu", 5, 1000 + 7 * DAY + 1), None);
    assert_eq!(cached_gap(&cache, "other", 5, 1000), None);
    assert_eq!(cached_gap(&cache, "cpu", 6, 1000), None);
}

#[test]
fn the_processor_is_read_from_cpuinfo() {
    let info = "processor\t: 0\nmodel name\nmodel name\t: Fast CPU : 3 GHz\nmodel name: Other\n";
    assert_eq!(cpu_model(info), "Fast CPU");
    assert_eq!(cpu_model("processor: 0\r\nmodel name:  X \r\n"), "X");
    assert_eq!(cpu_model(""), "unknown");
    assert_eq!(cpu_model("my model name: X"), "unknown");
}

#[test]
fn the_cache_follows_the_base_directories() {
    assert_eq!(cache_directory(Some("/c"), Some("/h")), "/c/screen-streamer");
    assert_eq!(
        cache_file_path(None, Some("/home/u")),
        "/home/u/.cache/screen-streamer/cpu_bench.json"
    );
    assert_eq!(cache_file_path(None, None), "/tmp/.cache/screen-streamer/cpu_bench.json");
    assert_eq!(cache_directory(Some("/c/"), None), "/c/screen-streamer");
    assert_eq!(cache_directory(Some(""), None), "screen-streamer");
}
