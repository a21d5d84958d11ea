use screen_streamer::config::Config;
use screen_streamer::pictures::generate_test_frame;
use screen_streamer::profiler::FrameProfiler;
use screen_streamer::tile_hash::{hash_tile, hash_tile_with, SimdLevel};

#[test]
fn a_frame_goes_through_every_stage() {
    let config = Config { tiles_x: 4, ..Config::default() };
    let mut profiler = FrameProfiler::new(config, SimdLevel::Avx2, 64, 36);
    let frame = generate_test_frame(64, 36, 1, 200);
    let mut p = profiler.process_frame(frame.clone());
    assert_eq!(p.tiles_detected, 16);
    assert_eq!(p.cache_hits, 0);
    assert_eq!(p.tasks.len(), p.tiles.len());
    for (k, tile) in p.tiles.iter().enumerate() {
        assert_eq!(
            p.tile_hashes[k],
            hash_tile(&frame, tile.x, tile.y, tile.width, tile.height, 64)
        );
        assert_eq!(p.tasks[k].tile_idx, k);
        assert_eq!(p.tasks[k].tile_data.len(), (tile.width * tile.height * 4) as usize);
    }
    for (k, bytes) in p.encoded.iter_mut().enumerate() {
        *bytes = vec![k as u8 + 1; 3];
    }
    profiler.finish(&p);

    let same = profiler.process_frame(frame);
    assert_eq!(same.tiles_detected, 0);
    assert!(same.tiles.is_empty());
}

#[test]
fn kept_bytes_serve_the_same_content_of_a_cell() {
    let config = Config { tiles_x: 1, ..Config::default() };
    let mut profiler = FrameProfiler::new(config, SimdLevel::Avx2, 16, 9);
    let a = generate_test_frame(16, 9, 1, 100);
    let b = generate_test_frame(16, 9, 2, 100);
    let mut first = profiler.process_frame(a.clone());
    assert_eq!(first.tiles.len(), 1);
    first.encoded[0] = vec![42, 43];
    profiler.finish(&first);
    let other = profiler.process_frame(b);
    assert_eq!((other.cache_hits, other.tasks.len()), (0, 1));
    profiler.finish(&other);
    let again = profiler.process_frame(a);
    assert_eq!((again.cache_hits, again.tasks.len()), (1, 0));
    assert_eq!(again.encoded[0], [42, 43]);
}

#[test]
fn merged_tiles_are_encoded_anew() {
    let config = Config { tiles_x: 2, ..Config::default() };
    let mut profiler = FrameProfiler::new(config, SimdLevel::Avx2, 32, 18);
    let a = generate_test_frame(32, 18, 1, 576);
    let b = generate_test_frame(32, 18, 2, 576);
    let mut first = profiler.process_frame(a.clone());
    assert_eq!(first.single_cell, [false]);
    first.encoded[0] = vec![42];
    profiler.finish(&first);
    let other = profiler.process_frame(b);
    profiler.finish(&other);
    let again = profiler.process_frame(a);
    assert_eq!((again.cache_hits, again.tasks.len()), (0, 1));
}

#[test]
fn tiles_are_hashed_at_the_level_asked_for() {
    for level in [SimdLevel::Avx2, SimdLevel::Sse2, SimdLevel::Scalar] {
        let config = Config { tiles_x: 4, ..Config::default() };
        let mut profiler = FrameProfiler::new(config, level, 64, 36);
        let frame = generate_test_frame(64, 36, 1, 700);
        let p = profiler.process_frame(frame.clone());
        for (k, t) in p.tiles.iter().enumerate() {
            assert_eq!(
                p.tile_hashes[k],
                hash_tile_with(level, &frame, t.x, t.y, t.width, t.height, 64)
            );
        }
    }
}

#[test]
fn the_stages_one_by_one_give_what_the_whole_gives() {
    let config = Config { tiles_x: 4, ..Config::default() };
    let mut whole = FrameProfiler::new(config.clone(), SimdLevel::Sse2, 64, 36);
    let mut staged = FrameProfiler::new(config, SimdLevel::Sse2, 64, 36);
    for n in 0..4u32 {
        let rgba = generate_test_frame(64, 36, n, 300);
        let mut p = whole.process_frame(rgba.clone());

        let frame = staged.frame(rgba);
        let changed = staged.detect(&frame);
        let merged = staged.merge(&changed);
        let scores = staged.scores(&merged);
        let tiles = FrameProfiler::sort(&merged, &scores);
        let hashes = staged.hash_tiles(&frame, &tiles);
        let found = staged.look_up(&tiles, &hashes);
        let tasks = staged.extract(&frame, &tiles, &found);
        let mut s = staged.gather(changed.len(), tiles, hashes, found, tasks);

        assert_eq!(s.tiles_detected, p.tiles_detected);
        assert_eq!(s.tiles, p.tiles);
        assert_eq!(s.tile_indices, p.tile_indices);
        assert_eq!(s.tile_hashes, p.tile_hashes);
        assert_eq!(s.single_cell, p.single_cell);
        assert_eq!(s.encoded, p.encoded);
        assert_eq!(s.cache_hits, p.cache_hits);
        assert_eq!(s.tasks.len(), p.tasks.len());
        for k in 0..p.encoded.len() {
            p.encoded[k] = vec![k as u8, 1];
            s.encoded[k] = vec![k as u8, 1];
        }
        whole.finish(&p);
        staged.finish(&s);
    }
}
