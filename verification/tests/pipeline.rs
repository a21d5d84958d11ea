use screen_streamer::config::Config;
use screen_streamer::frame::Frame;
use screen_streamer::pipeline::{
    fallback_task, EncodedFrame, EncodedResult, FrameWork, Pipeline, FULL_REFRESH_INTERVAL,
};
use screen_streamer::priority::priority;
use screen_streamer::tile::{Tile, TileMetadata};

fn test_config() -> Config {
    Config {
        tiles_x: 4,
        merge_gap: 0,
        ..Config::default()
    }
}

fn solid(w: u32, h: u32, v: u8) -> Frame {
    Frame {
        rgba: vec![v; (w * h * 4) as usize],
        width: w,
        height: h,
        damage_regions: vec![],
    }
}

/// Encodes what a frame needs and finishes it.
fn finish(pipeline: &mut Pipeline, mut work: FrameWork) -> EncodedFrame {
    let tasks = std::mem::take(&mut work.tasks);
    let results = tasks
        .into_iter()
        .map(|task| EncodedResult {
            tile_idx: task.tile_idx,
            data: fast_webp::encode_rgba(
                &task.tile_data,
                task.tile.width,
                task.tile.height,
                fast_webp::WebpOptions {
                    quality: task.tile.quality as f32 / 1_000_000.0,
                    ..Default::default()
                },
            )
            .unwrap(),
        })
        .collect();
    work.place(results);
    assert!(work.missing().is_empty());
    pipeline.finish(work)
}

fn process(pipeline: &mut Pipeline, frame: &Frame) -> Option<EncodedFrame> {
    let work = pipeline.process(frame, 0)?;
    Some(finish(pipeline, work))
}

#[test]
fn process_first_frame_returns_header_and_tiles() {
    let config = test_config();
    let mut pipeline = Pipeline::new(config);
    let frame = solid(64, 36, 128);

    let result = process(&mut pipeline, &frame).unwrap();

    assert!(result.header.is_some());
    assert_eq!(result.header.unwrap(), (64, 36));
    assert!(!result.tiles.is_empty());
    assert_eq!(result.tiles.len(), result.encoded.len());
    assert!(!result.encoded.is_empty());
    for encoded_tile in &result.encoded {
        assert!(!encoded_tile.is_empty());
    }
}

#[test]
fn process_identical_frame_returns_none() {
    let config = test_config();
    let mut pipeline = Pipeline::new(config);
    let frame = solid(64, 36, 128);

    // First frame
    let _ = process(&mut pipeline, &frame);

    // Second identical frame
    let result = process(&mut pipeline, &frame);
    assert!(result.is_none());
}

#[test]
fn process_different_size_frame_bumps_epoch() {
    let config = test_config();
    let mut pipeline = Pipeline::new(config);
    let frame1 = solid(64, 36, 128);
    let frame2 = solid(128, 72, 128);

    assert!(process(&mut pipeline, &frame1).is_some());
    assert_eq!(pipeline.epoch(), 0);

    let result2 = process(&mut pipeline, &frame2).unwrap();
    assert_eq!(pipeline.epoch(), 1);
    assert!(result2.header.is_some());
    assert_eq!(result2.header.unwrap().0, 128);
    assert_eq!(result2.header.unwrap().1, 72);
}

#[test]
fn invalidate_with_current_epoch_returns_true() {
    let config = test_config();
    let mut pipeline = Pipeline::new(config);
    let frame = solid(64, 36, 128);

    let _ = process(&mut pipeline, &frame);
    let current_epoch = pipeline.epoch();

    let result = pipeline.invalidate(current_epoch, &[0, 1]);
    assert!(result);
}

#[test]
fn invalidate_with_stale_epoch_returns_false() {
    let mut pipeline = Pipeline::new(test_config());
    let _ = process(&mut pipeline, &solid(64, 36, 128));
    let _ = process(&mut pipeline, &solid(128, 72, 128));
    assert!(
        !pipeline.invalidate(0, &[0, 1]),
        "cells from the old 64x36 grid"
    );
}

#[test]
fn invalidated_cells_are_resent_on_an_unchanged_frame() {
    let mut pipeline = Pipeline::new(test_config());
    let frame = solid(64, 36, 128);
    let _ = process(&mut pipeline, &frame);
    assert!(process(&mut pipeline, &frame).is_none());
    let epoch = pipeline.epoch();
    assert!(pipeline.invalidate(epoch, &[0]));
    let out = process(&mut pipeline, &frame).expect("cell 0 must be re-sent");
    assert!(out.ack_indices.contains(&0));
    assert_eq!(out.header, None);
}

#[test]
fn priority_is_higher_near_screen_center() {
    let config = Config::default();
    let metadata = TileMetadata::default();
    let center_tile = Tile::new(940, 520, 40, 40, 5_000_000); // near the center of 1920x1080
    let corner_tile = Tile::new(0, 0, 40, 40, 5_000_000);

    let center = priority(&center_tile, &metadata, 1920, 1080, &config);
    let corner = priority(&corner_tile, &metadata, 1920, 1080, &config);
    assert!(
        center > corner,
        "a tile near the center should score higher than one at the corner"
    );
}

#[test]
fn priority_increases_with_change_frequency() {
    let config = Config::default();
    let tile = Tile::new(0, 0, 40, 40, 5_000_000);

    let mut quiet = TileMetadata::default();
    for _ in 0..10 {
        quiet.change_history.push(false);
    }
    let mut busy = TileMetadata::default();
    for _ in 0..10 {
        busy.change_history.push(true);
    }

    let quiet_priority = priority(&tile, &quiet, 1920, 1080, &config);
    let busy_priority = priority(&tile, &busy, 1920, 1080, &config);
    assert!(
        busy_priority > quiet_priority,
        "a tile that keeps changing should score higher than one that never does"
    );
}

#[test]
fn every_sent_cell_is_acknowledged_once() {
    let mut pipeline = Pipeline::new(test_config());
    let out = process(&mut pipeline, &solid(64, 36, 128)).unwrap();
    let mut cells = out.ack_indices.clone();
    cells.sort_unstable();
    assert_eq!(cells, (0..16).collect::<Vec<usize>>());
}

#[test]
fn an_unchanged_cell_is_served_from_the_cache_when_it_is_sent_again() {
    let mut pipeline = Pipeline::new(test_config());
    let mut frame = solid(64, 36, 128);
    let _ = process(&mut pipeline, &frame);
    // One cell changes alone: its bytes are kept.
    for row in 0..4usize {
        for i in 0..16 {
            frame.rgba[row * 64 * 4 + i] = (row * 7 + i) as u8;
        }
    }
    let first = pipeline.process(&frame, 0).unwrap();
    assert_eq!(first.tasks.len(), 1);
    let sent = finish(&mut pipeline, first);
    assert_eq!(sent.tiles.len(), 1);
    // Every second, cells sent at low quality are looked at again.
    let again = pipeline.process(&frame, FULL_REFRESH_INTERVAL);
    assert!(again.is_some());
}

#[test]
fn results_are_placed_by_cell_and_empty_ones_are_missing() {
    let mut pipeline = Pipeline::new(test_config());
    let frame = solid(64, 36, 128);
    let mut work = pipeline.process(&frame, 0).unwrap();
    let first = work.tile_indices[0];
    work.place(vec![EncodedResult { tile_idx: first, data: vec![1, 2, 3] }]);
    assert_eq!(work.encoded[0], [1, 2, 3]);
    assert!(!work.missing().contains(&0));
    if work.tiles.len() > 1 {
        assert!(work.missing().contains(&1));
    }
    let tile = work.tiles[0];
    let task = fallback_task(&frame, &tile, first).unwrap();
    assert_eq!(task.tile_idx, first);
    assert_eq!(task.tile_data.len(), (tile.width * tile.height * 4) as usize);
    assert!(task.tile_data.iter().all(|&b| b == 128));
}

#[test]
fn returned_buffers_are_taken_back() {
    let mut pipeline = Pipeline::new(test_config());
    pipeline.recycle(vec![0u8; 32640]);
    pipeline.take_back(vec![7u8; 4], 32640);
    pipeline.take_back(vec![7u8; 4], 65280);
    assert!(process(&mut pipeline, &solid(64, 36, 1)).is_some());
}

#[test]
fn cells_of_merged_tiles_are_acknowledged_once_each() {
    let mut pipeline = Pipeline::new(Config { tiles_x: 8, merge_gap: 1, ..Config::default() });
    let mut frame = solid(128, 72, 0);
    let _ = process(&mut pipeline, &frame);
    for (n, byte) in frame.rgba.iter_mut().enumerate() {
        if n % 3 == 0 && (n / 4) % 128 < 70 {
            *byte = (n % 251) as u8;
        }
    }
    let out = process(&mut pipeline, &frame).unwrap();
    assert_eq!(out.tiles.len(), out.encoded.len());
    let mut cells = out.ack_indices.clone();
    cells.sort_unstable();
    cells.dedup();
    assert_eq!(cells.len(), out.ack_indices.len());
    assert!(cells.contains(&0));
}

#[test]
fn an_invalidated_cell_is_resent_on_the_second_frame() {
    // The default rates would hold a static cell back for several frames.
    let mut pipeline = Pipeline::new(test_config());
    let frame = solid(64, 36, 0);
    let _ = process(&mut pipeline, &frame);
    assert!(pipeline.invalidate(pipeline.epoch(), &[5]));
    let out = process(&mut pipeline, &frame).expect("cell 5 must be re-sent");
    assert_eq!(out.ack_indices, [5]);
}

#[test]
fn the_pipeline_reports_what_its_detector_counted() {
    let mut pipeline = Pipeline::new(Config { debug_mode: true, ..test_config() });
    let frame = solid(64, 36, 9);
    for n in 1..=100u64 {
        assert_eq!(pipeline.debug_report(), None);
        let _ = process(&mut pipeline, &frame);
        assert_eq!(pipeline.debug_report().is_some(), n == 100);
    }
    let report = pipeline.debug_report().unwrap();
    assert_eq!(report.frame, 100);
    assert_eq!(report.statistics.total_hashes, 1600);
}
