use screen_streamer::bench::{
    average_runs, benchmark_scenario, cached_tiles, calculate_percentiles, Percentiles, Tally,
};
use screen_streamer::config::Config;
use screen_streamer::pictures::Scenario;
use screen_streamer::tile_hash::SimdLevel;

#[test]
fn the_cache_is_taken_to_serve_a_share_of_the_tiles() {
    assert_eq!(cached_tiles(20, Scenario::Static), 19);
    assert_eq!(cached_tiles(7, Scenario::Moderate), 5);
    assert_eq!(cached_tiles(5, Scenario::Active), 3);
    assert_eq!(cached_tiles(9, Scenario::Video), 6);
    assert_eq!(cached_tiles(0, Scenario::Video), 0);
}

#[test]
fn a_clock_changes_few_tiles() {
    let tally = benchmark_scenario(Config::default(), SimdLevel::Avx2, Scenario::Static, 2);
    // The clock lies in columns 17 to 19 and rows 0 and 1.
    assert!(tally.tiles_before >= 6 && tally.tiles_before <= 12, "{tally:?}");
    assert!(tally.tiles_after >= 1 && tally.tiles_after <= tally.tiles_before);
    assert!(tally.cache_hits <= tally.tiles_after);
}

#[test]
fn runs_are_averaged() {
    let runs = vec![
        Tally { tiles_before: 10, tiles_after: 4, cache_hits: 5 },
        Tally { tiles_before: 13, tiles_after: 5, cache_hits: 6 },
    ];
    let a = average_runs(&runs);
    assert_eq!((a.tiles_before, a.tiles_after, a.cache_hits), (11, 4, 5));
    assert_eq!(a.cache_misses, 0);
    assert_eq!((a.raw_bytes, a.compressed_bytes), (4 * 48 * 27 * 4, 4 * 48 * 27 * 4 / 10));
}

#[test]
fn percentiles_are_ranks_in_the_sorted_list() {
    let v: Vec<u64> = (0..100).map(|i| (i * 37) % 100).collect();
    assert_eq!(
        calculate_percentiles(&v),
        Percentiles { sum: 4950, min: 0, max: 99, p50: 50, p95: 95, p99: 99 }
    );
    assert_eq!(
        calculate_percentiles(&vec![7]),
        Percentiles { sum: 7, min: 7, max: 7, p50: 7, p95: 7, p99: 7 }
    );
    assert_eq!(
        calculate_percentiles(&vec![]),
        Percentiles { sum: 0, min: 0, max: 0, p50: 0, p95: 0, p99: 0 }
    );
}
