use screen_streamer::capture::DamageRegion;
use screen_streamer::config::{Config, Fps};
use screen_streamer::diff::{DiffDetector, REPORT_INTERVAL};
use screen_streamer::frame::Frame;
use screen_streamer::tile_hash::{hash_tile, hash_tile_with, SimdLevel};

const W: u32 = 20;
const H: u32 = 20;

/// tiles_x=2 over a 20x20 frame gives a clean 2x2 grid of 10x10 cells:
/// idx 0=(0,0) 1=(1,0) 2=(0,1) 3=(1,1).
fn test_config(tiles_x: u32, static_fps: u64, dynamic_fps: u64) -> Config {
    Config {
        tiles_x,
        target_fps: Fps::new(60).unwrap(),
        static_tile_fps: Fps::new(static_fps).unwrap(),
        dynamic_tile_fps: Fps::new(dynamic_fps).unwrap(),
        debug_mode: false,
        ..Config::default()
    }
}

fn solid_frame(width: u32, height: u32, value: u8) -> Frame {
    Frame::new(vec![value; (width * height * 4) as usize], width, height, vec![])
}

// A varied (position-dependent) fill, not a flat color.
fn paint_region(frame: &mut Frame, x: u32, y: u32, w: u32, h: u32, seed: u8) {
    for row in y..y + h {
        for col in x..x + w {
            let offset = ((row * frame.width + col) * 4) as usize;
            let v = seed.wrapping_add(((row * 7 + col * 13) % 251) as u8);
            frame.rgba[offset..offset + 4].copy_from_slice(&[v, v.wrapping_add(1), v.wrapping_add(2), 255]);
        }
    }
}

#[test]
fn first_frame_reports_every_tile_changed() {
    let mut detector = DiffDetector::new(test_config(2, 60, 60));
    let (changed, indices) = detector.detect_changes(&solid_frame(W, H, 0));
    assert_eq!(changed.len(), 4);
    assert_eq!(indices.len(), 4);
}

#[test]
fn identical_second_frame_reports_no_changes() {
    let mut detector = DiffDetector::new(test_config(2, 60, 60));
    let frame = solid_frame(W, H, 0);
    detector.detect_changes(&frame);
    let (changed, indices) = detector.detect_changes(&frame);
    assert!(changed.is_empty());
    assert!(indices.is_empty());
}

#[test]
fn only_the_changed_tile_is_reported() {
    let mut detector = DiffDetector::new(test_config(2, 60, 60));
    detector.detect_changes(&solid_frame(W, H, 0));

    let mut frame2 = solid_frame(W, H, 0);
    paint_region(&mut frame2, 10, 10, 10, 10, 255); // cell (1,1) -> idx 3
    let (_, indices) = detector.detect_changes(&frame2);
    assert_eq!(indices, vec![3]);
}

#[test]
fn invalidate_tiles_forces_resend_even_under_active_damage_skip() {
    // The damage-region skip must not swallow a forced re-detection from
    // invalidate_tiles when the invalidated tile falls outside the current
    // frame's damage regions.
    let mut detector = DiffDetector::new(test_config(2, 60, 60));
    let frame = solid_frame(W, H, 0);
    detector.detect_changes(&frame); // baseline

    // Damage region covering only cell (0,0) -> idx 0, not idx 3.
    let damage_elsewhere = vec![DamageRegion { x: 0, y: 0, width: 10, height: 10 }];

    // Sanity check: without invalidation, tile 3 is skipped by damage tracking.
    let f1 = Frame::new(frame.rgba.clone(), W, H, damage_elsewhere.clone());
    let (_, indices) = detector.detect_changes(&f1);
    assert!(!indices.contains(&3), "tile 3 shouldn't be touched without invalidation");

    detector.invalidate_tiles(&[3]);

    let f2 = Frame::new(frame.rgba.clone(), W, H, damage_elsewhere);
    let (_, indices) = detector.detect_changes(&f2);
    assert!(indices.contains(&3), "invalidated tile must be force-redetected even outside damage regions");
}

#[test]
fn force_redetect_only_applies_for_one_frame() {
    let mut detector = DiffDetector::new(test_config(2, 60, 60));
    let frame = solid_frame(W, H, 0);
    detector.detect_changes(&frame);

    let damage_elsewhere = vec![DamageRegion { x: 0, y: 0, width: 10, height: 10 }];
    detector.invalidate_tiles(&[3]);

    let f1 = Frame::new(frame.rgba.clone(), W, H, damage_elsewhere.clone());
    let (_, indices1) = detector.detect_changes(&f1);
    assert!(indices1.contains(&3));

    // The forced look was consumed by the frame above; damage-skip
    // should apply normally again on this next frame.
    let f2 = Frame::new(frame.rgba.clone(), W, H, damage_elsewhere);
    let (_, indices2) = detector.detect_changes(&f2);
    assert!(!indices2.contains(&3));
}

#[test]
fn throttled_tile_still_advances_its_hash_baseline() {
    // A tile's *first* change after baseline always sends immediately
    // (the is_dynamic state-transition fast path), so the interval only
    // actually throttles a *second, continuing* change — hence 3 frames.
    let mut detector = DiffDetector::new(test_config(2, 60, 1)); // dynamic interval = 60
    detector.detect_changes(&solid_frame(W, H, 0)); // frame 1: baseline

    let mut frame2 = solid_frame(W, H, 0);
    paint_region(&mut frame2, 0, 0, 10, 10, 100);
    detector.detect_changes(&frame2); // frame 2: first change, sent immediately
    assert!(detector.get_metadata(0).last_sent_as_dynamic);

    let mut frame3 = solid_frame(W, H, 0);
    paint_region(&mut frame3, 0, 0, 10, 10, 200);
    let (_, indices) = detector.detect_changes(&frame3); // frame 3: continuing change, now throttled
    assert!(!indices.contains(&0), "a continuing dynamic-tile change should be throttled by a large dynamic_tile_fps interval");
    assert_eq!(detector.get_metadata(0).unchanged_frames, 0, "throttled-but-changed tile must not be counted as unchanged");
    assert_eq!(
        detector.get_current_hashes()[0],
        hash_tile(&frame3.rgba, 0, 0, 10, 10, W),
        "hash baseline must advance to frame 3's content even though sending it was throttled"
    );
}

#[test]
fn invalidate_cache_resets_only_dynamic_tiles_hash_state() {
    let mut detector = DiffDetector::new(test_config(2, 60, 60));
    detector.detect_changes(&solid_frame(W, H, 0)); // frame 1: baseline

    let mut frame2 = solid_frame(W, H, 0);
    paint_region(&mut frame2, 0, 0, 10, 10, 100);
    detector.detect_changes(&frame2); // first change -> classified dynamic, sent immediately
    assert!(detector.get_metadata(0).last_sent_as_dynamic, "tile 0 should be classified dynamic after its first change");

    let hash_before = detector.get_current_hashes()[0];
    assert_ne!(hash_before, 0, "sanity: baseline actually moved off the initial zero");

    detector.invalidate_cache();
    assert_eq!(detector.get_metadata(0).cached_hash, 0);
    assert_eq!(detector.get_current_hashes()[0], 0, "dynamic tile's hash baseline must be reset by invalidate_cache");
}

#[test]
fn reset_makes_the_next_frame_a_fresh_first_frame() {
    let mut detector = DiffDetector::new(test_config(2, 60, 60));
    detector.detect_changes(&solid_frame(W, H, 0));
    detector.reset();

    let (changed, _) = detector.detect_changes(&solid_frame(W, H, 0));
    assert_eq!(changed.len(), 4, "after reset, the next frame should be treated as the first frame again");
}

#[test]
fn a_still_tile_is_sent_at_high_quality_and_a_moving_one_at_low() {
    let config = test_config(2, 60, 60);
    let (low, high) = (config.webp_quality_low, config.webp_quality_high);
    let mut detector = DiffDetector::new(config);
    let (first, _) = detector.detect_changes(&solid_frame(W, H, 0));
    assert!(first.iter().all(|t| t.quality == high));
    let mut frame2 = solid_frame(W, H, 0);
    paint_region(&mut frame2, 0, 0, 10, 10, 100);
    let (second, _) = detector.detect_changes(&frame2);
    assert_eq!(second.len(), 1);
    assert_eq!(second[0].quality, low);
}

#[test]
fn damage_leaves_cells_outside_it_alone() {
    let mut detector = DiffDetector::new(test_config(2, 60, 60));
    detector.detect_changes(&solid_frame(W, H, 0));
    let mut frame = solid_frame(W, H, 0);
    paint_region(&mut frame, 0, 0, 20, 20, 9);
    frame.damage_regions = vec![DamageRegion { x: 10, y: 0, width: 1, height: 1 }];
    let (_, indices) = detector.detect_changes(&frame);
    assert_eq!(indices, vec![1]);
}

#[test]
fn the_hash_level_is_the_one_asked_for() {
    for level in [SimdLevel::Avx2, SimdLevel::Sse2, SimdLevel::Scalar] {
        let mut detector = DiffDetector::with_level(test_config(2, 60, 60), level);
        let mut frame = solid_frame(W, H, 3);
        paint_region(&mut frame, 0, 0, 20, 20, 77);
        detector.detect_changes(&frame);
        assert_eq!(
            detector.get_current_hashes()[3],
            hash_tile_with(level, &frame.rgba, 10, 10, 10, 10, W)
        );
    }
}

#[test]
fn metadata_can_be_changed_in_place() {
    let mut detector = DiffDetector::new(test_config(2, 60, 60));
    detector.detect_changes(&solid_frame(W, H, 0));
    detector.get_metadata_mut(2).cached_hash = 5;
    assert_eq!(detector.get_metadata(2).cached_hash, 5);
    detector.get_all_metadata_mut()[1].cached_hash = 6;
    assert_eq!(detector.get_all_metadata()[1].cached_hash, 6);
    assert_eq!(detector.get_all_metadata().len(), 4);
    assert_eq!(detector.config().tiles_x, 2);
}

#[test]
fn a_cell_that_rested_for_a_frame_is_not_dynamic() {
    let config = test_config(2, 60, 60);
    let high = config.webp_quality_high;
    let mut detector = DiffDetector::new(config);
    detector.detect_changes(&solid_frame(W, H, 0));
    detector.detect_changes(&solid_frame(W, H, 0));

    let mut frame = solid_frame(W, H, 0);
    paint_region(&mut frame, 0, 0, 10, 10, 100);
    let (tiles, indices) = detector.detect_changes(&frame);
    assert_eq!(indices, vec![0]);
    assert_eq!(tiles[0].quality, high);
    assert!(!detector.get_metadata(0).last_sent_as_dynamic);
}

#[test]
fn a_cell_passed_over_for_a_frame_is_not_dynamic() {
    let mut detector = DiffDetector::new(test_config(2, 60, 60));
    detector.detect_changes(&solid_frame(W, H, 0));
    let mut elsewhere = solid_frame(W, H, 0);
    elsewhere.damage_regions = vec![DamageRegion { x: 10, y: 10, width: 10, height: 10 }];
    detector.detect_changes(&elsewhere);

    let mut frame = solid_frame(W, H, 0);
    paint_region(&mut frame, 0, 0, 10, 10, 100);
    let (_, indices) = detector.detect_changes(&frame);
    assert_eq!(indices, vec![0]);
    assert!(!detector.get_metadata(0).last_sent_as_dynamic);
}

#[test]
fn an_invalidated_cell_is_sent_on_the_very_next_frame_whatever_its_rate() {
    for (static_fps, dynamic_fps) in [(1, 1), (1, 60), (60, 1), (60, 60), (8, 32)] {
        for value in [0u8, 1, 128, 255] {
            for damage in [vec![], vec![DamageRegion { x: 0, y: 0, width: 1, height: 1 }]] {
                let config = test_config(2, static_fps, dynamic_fps);
                let high = config.webp_quality_high;
                let mut detector = DiffDetector::new(config);
                detector.detect_changes(&solid_frame(W, H, value));
                detector.invalidate_tiles(&[3]);
                let mut frame = solid_frame(W, H, value);
                frame.damage_regions = damage;
                let (tiles, indices) = detector.detect_changes(&frame);
                assert_eq!(indices, vec![3]);
                assert_eq!(tiles[0].quality, high);
            }
        }
    }
}

#[test]
fn a_refreshed_cell_is_sent_at_high_quality_whatever_its_rate() {
    let config = test_config(2, 1, 60);
    let high = config.webp_quality_high;
    let mut detector = DiffDetector::new(config);
    detector.detect_changes(&solid_frame(W, H, 0));
    let mut frame = solid_frame(W, H, 0);
    paint_region(&mut frame, 0, 0, 10, 10, 100);
    detector.detect_changes(&frame);
    assert!(detector.get_metadata(0).last_sent_as_dynamic);
    detector.invalidate_cache();
    let (tiles, indices) = detector.detect_changes(&frame);
    assert_eq!(indices, vec![0]);
    assert_eq!(tiles[0].quality, high);
}

fn debug_detector(static_fps: u64, dynamic_fps: u64) -> DiffDetector {
    DiffDetector::new(Config { debug_mode: true, ..test_config(2, static_fps, dynamic_fps) })
}

#[test]
fn statistics_are_reported_every_hundred_frames_in_debug_mode() {
    let frame = solid_frame(W, H, 7);
    let mut quiet = DiffDetector::new(test_config(2, 60, 60));
    let mut detector = debug_detector(60, 60);
    assert_eq!(detector.debug_report(), None);
    for n in 1..=200u64 {
        quiet.detect_changes(&frame);
        assert_eq!(quiet.debug_report(), None);
        detector.detect_changes(&frame);
        match detector.debug_report() {
            Some(report) => {
                assert_eq!(n % REPORT_INTERVAL, 0);
                assert_eq!(report.frame, n);
                // The first frame has every cell hashed in full.
                let skipped = if n == 100 { 396 } else { 400 };
                assert_eq!(report.statistics.skipped_hashes, skipped);
                assert_eq!(report.statistics.total_hashes, 400);
                let last = report.statistics.last;
                assert_eq!((last.cells, last.half_skipped, last.sent), (4, 4, 0));
            }
            None => assert_ne!(n % REPORT_INTERVAL, 0),
        }
    }
    detector.reset();
    assert_eq!(detector.debug_report(), None);
}

#[test]
fn each_kind_of_cell_is_counted() {
    let mut detector = debug_detector(1, 1);
    for _ in 0..98 {
        detector.detect_changes(&solid_frame(W, H, 0));
    }
    // Frame 99: cell 0 changes after a long rest, and is sent as static.
    let mut moving = solid_frame(W, H, 0);
    paint_region(&mut moving, 0, 0, 10, 10, 100);
    detector.detect_changes(&moving);
    assert!(!detector.get_metadata(0).last_sent_as_dynamic);
    // Frame 100: cell 0 goes on changing, cell 1 is outside the damage, cell 2
    // is as it was and cell 3 is looked at by force.
    detector.invalidate_tiles(&[3]);
    let mut frame = solid_frame(W, H, 0);
    paint_region(&mut frame, 0, 0, 10, 10, 200);
    frame.damage_regions = vec![
        DamageRegion { x: 0, y: 0, width: 10, height: 10 },
        DamageRegion { x: 0, y: 10, width: 10, height: 10 },
    ];
    let (_, indices) = detector.detect_changes(&frame);
    assert_eq!(indices, vec![0, 3]);
    assert_eq!(detector.statistics(), detector.debug_report().unwrap().statistics);
    let last = detector.statistics().last;
    assert_eq!((last.cells, last.damage_regions), (4, 2));
    assert_eq!((last.damage_skipped, last.half_skipped, last.throttled), (1, 1, 0));
    assert_eq!((last.dynamic_sent, last.static_sent, last.sent), (1, 1, 2));
}

#[test]
fn a_cell_held_back_is_counted() {
    let mut detector = debug_detector(60, 1);
    for _ in 0..97 {
        detector.detect_changes(&solid_frame(W, H, 0));
    }
    for seed in [50u8, 100, 200] {
        let mut frame = solid_frame(W, H, 0);
        paint_region(&mut frame, 0, 0, 10, 10, seed);
        detector.detect_changes(&frame);
    }
    let last = detector.debug_report().unwrap().statistics.last;
    assert_eq!((last.throttled, last.sent, last.half_skipped), (1, 0, 3));
}
