use screen_streamer::tile::{CircularBuffer, Grid, Tile, TileMetadata};
use screen_streamer::tile_hash::{
    hash_avx2, hash_contiguous, hash_sse2, hash_tile, hash_tile_half, hash_tile_half_with,
    hash_tile_with, SimdLevel,
};

const Q: u32 = 5_000_000;

/// Grid with the given cell size and cell counts (frame = exact multiple).
fn g(tile_width: u32, tile_height: u32, tiles_x: u32, tiles_y: u32) -> Grid {
    Grid {
        tiles_x,
        tiles_y,
        tile_width,
        tile_height,
        frame_width: tile_width * tiles_x,
        frame_height: tile_height * tiles_y,
    }
}

#[test]
fn grid_matches_the_old_tile_dimensions_on_1080p() {
    let grid = Grid::new(20, 1920, 1080);
    assert_eq!(
        (grid.tile_width, grid.tile_height, grid.tiles_y),
        (96, 54, 20)
    );
    assert_eq!(grid.cell_count(), 400);
}

#[test]
fn last_column_and_row_reach_the_frame_edge() {
    let grid = Grid::new(20, 1366, 768); // 68 px columns, 1360 px would leave 6 px uncovered
    assert_eq!(grid.x_span(19, 19), (1292, 1366));
    assert_eq!(grid.x_span(16, 19), (1088, 1366));
    assert_eq!(grid.x_span(0, 3), (0, 272));
    let last = grid.cell_count() - 1;
    let (x, y, w, h) = grid.cell_rect(last);
    assert_eq!((x + w, y + h), (1366, 768));
    let covered: u64 = (0..grid.cell_count())
        .map(|i| {
            let (_, _, w, h) = grid.cell_rect(i);
            u64::from(w) * u64::from(h)
        })
        .sum();
    assert_eq!(covered, 1366 * 768, "cells tile the frame exactly");
}

#[test]
fn degenerate_frames_do_not_divide_by_zero() {
    for (w, h) in [(5, 5), (1, 1), (0, 0), (4000, 1), (1, 4000)] {
        let grid = Grid::new(20, w, h);
        assert!(grid.tile_width >= 1 && grid.tile_height >= 1, "{w}x{h}");
        let (x, y, cw, ch) = grid.cell_rect(grid.cell_count() - 1);
        assert_eq!((x + cw, y + ch), (w.max(1), h.max(1)), "{w}x{h}");
    }
}

#[test]
fn grid_bounds_single_cell() {
    let tile = Tile::new(40, 20, 20, 10, Q);
    assert_eq!(tile.grid_bounds(&g(20, 10, 10, 10)), (2, 2, 2, 2));
}

#[test]
fn grid_bounds_merged_region() {
    let tile = Tile::new(20, 10, 40, 20, Q); // 2x2 cells starting at (1,1)
    assert_eq!(tile.grid_bounds(&g(20, 10, 10, 10)), (1, 1, 2, 2));
}

#[test]
fn grid_bounds_clamps_to_grid_edge() {
    let tile = Tile::new(0, 0, 1000, 1000, Q);
    assert_eq!(tile.grid_bounds(&g(20, 10, 5, 5)), (0, 0, 4, 4));
}

#[test]
fn representative_index_is_top_left_cell() {
    let tile = Tile::new(40, 20, 20, 10, Q);
    assert_eq!(tile.representative_index(&g(20, 10, 10, 100)), 22); // ty=2, tx=2 -> 2*10+2
}

#[test]
fn is_single_cell_true_for_unmerged_tile() {
    let tile = Tile::new(20, 10, 20, 10, Q);
    assert!(tile.is_single_cell(&g(20, 10, 10, 10)));
}

#[test]
fn is_single_cell_false_for_merged_tile() {
    let tile = Tile::new(20, 10, 40, 20, Q);
    assert!(!tile.is_single_cell(&g(20, 10, 10, 10)));
}

#[test]
fn covered_indices_single_cell_has_one_entry() {
    let tile = Tile::new(20, 10, 20, 10, Q);
    assert_eq!(tile.covered_indices(&g(20, 10, 10, 10)), vec![11]); // ty=1,tx=1 -> 1*10+1
}

#[test]
fn covered_indices_matches_every_cell_in_a_merged_region() {
    let tile = Tile::new(20, 10, 40, 20, Q); // covers (1,1),(2,1),(1,2),(2,2)
    let mut indices = tile.covered_indices(&g(20, 10, 10, 10));
    indices.sort_unstable();
    assert_eq!(indices, vec![11, 12, 21, 22]);
}

#[test]
fn covered_indices_matches_max_merge_region_size() {
    // 4x4 grid cells (the largest a single TileMerger output can span)
    let tile = Tile::new(0, 0, 80, 40, Q);
    assert_eq!(tile.covered_indices(&g(20, 10, 10, 10)).len(), 16);
}

#[test]
fn distance_from_center_is_zero_at_center() {
    let tile = Tile::new(40, 40, 20, 20, Q); // tile center is (50,50)
    assert_eq!(tile.distance_from_center(50, 50), 0);
}

#[test]
fn circular_buffer_tracks_count_ones_within_capacity() {
    let mut buf = CircularBuffer::new(4);
    buf.push(true);
    buf.push(false);
    buf.push(true);
    assert_eq!(buf.len(), 3);
    assert_eq!(buf.count_ones(), 2);
}

#[test]
fn circular_buffer_evicts_oldest_beyond_capacity() {
    let mut buf = CircularBuffer::new(2);
    buf.push(true);
    buf.push(true);
    buf.push(false); // evicts the first `true`
    assert_eq!(buf.len(), 2);
    assert_eq!(buf.count_ones(), 1);
}

#[test]
fn circular_buffer_caps_capacity_at_64() {
    let mut buf = CircularBuffer::new(1000);
    for _ in 0..100 {
        buf.push(true);
    }
    assert_eq!(buf.len(), 64);
    assert_eq!(buf.count_ones(), 64);
}

#[test]
fn tile_metadata_update_frequency_is_ratio_of_changes() {
    let mut meta = TileMetadata::default();
    meta.change_history.push(true);
    meta.change_history.push(true);
    meta.change_history.push(false);
    meta.change_history.push(false);
    let (changes, frames) = meta.update_frequency();
    assert_eq!(changes as f32 / frames as f32, 0.5);
}

#[test]
fn hash_tile_is_deterministic() {
    let (width, height) = (8u32, 4u32);
    let rgba = vec![42u8; (width * height * 4) as usize];
    assert_eq!(
        hash_tile(&rgba, 0, 0, width, height, width),
        hash_tile(&rgba, 0, 0, width, height, width)
    );
}

#[test]
fn hash_tile_no_longer_collides_between_different_uniform_colors() {
    let (width, height) = (10u32, 10u32); // 400 bytes: 12 AVX2 chunks (even) + a 16B remainder
    let a = vec![0u8; (width * height * 4) as usize];
    let b = vec![255u8; (width * height * 4) as usize];
    assert_ne!(
        hash_tile(&a, 0, 0, width, height, width),
        hash_tile(&b, 0, 0, width, height, width),
    );

    let (width2, height2) = (8u32, 8u32); // 256 bytes = 8 AVX2 chunks exactly
    let a2 = vec![0u8; (width2 * height2 * 4) as usize];
    let b2 = vec![255u8; (width2 * height2 * 4) as usize];
    assert_ne!(
        hash_tile(&a2, 0, 0, width2, height2, width2),
        hash_tile(&b2, 0, 0, width2, height2, width2),
    );
}

#[test]
fn hash_tile_distinguishes_uniform_colors_across_many_sizes() {
    let colors: &[(u8, u8)] = &[(0, 255), (0, 128), (1, 254), (17, 200), (127, 128)];
    for side in 1u32..=20 {
        let (width, height) = (side, side);
        for &(ca, cb) in colors {
            let a = vec![ca; (width * height * 4) as usize];
            let b = vec![cb; (width * height * 4) as usize];
            assert_ne!(
                hash_tile(&a, 0, 0, width, height, width),
                hash_tile(&b, 0, 0, width, height, width),
                "collision at {width}x{height} between fill {ca} and fill {cb}"
            );
        }
    }
}

#[test]
fn hash_sse2_directly_no_longer_collides_between_uniform_colors() {
    let (width, height) = (10u32, 10u32); // 400 bytes: 25 SSE2 chunks exactly, no remainder
    let a = vec![0u8; (width * height * 4) as usize];
    let b = vec![255u8; (width * height * 4) as usize];
    let ha = hash_sse2(&a);
    let hb = hash_sse2(&b);
    assert_ne!(ha, hb);
}

#[test]
fn hash_tile_differs_for_different_pixel_content() {
    let (width, height) = (8u32, 4u32);
    let a = vec![0u8; (width * height * 4) as usize];
    let mut b = a.clone();
    b[0] = 255;
    assert_ne!(
        hash_tile(&a, 0, 0, width, height, width),
        hash_tile(&b, 0, 0, width, height, width)
    );
}

#[test]
fn hash_tile_half_is_blind_to_an_unsampled_row() {
    // hash_tile_half samples rows y, y+2, y+4, ... — a change confined
    // to row y+1 (not sampled) must not move the half-hash.
    let (width, height) = (4u32, 4u32);
    let mut rgba = vec![0u8; (width * height * 4) as usize];
    let before = hash_tile_half(&rgba, 0, 0, width, height, width);
    let row1_offset = (width * 4) as usize; // start of row 1
    rgba[row1_offset] = 255;
    let after = hash_tile_half(&rgba, 0, 0, width, height, width);
    assert_eq!(before, after);
}

#[test]
fn hash_tile_half_changes_when_a_sampled_row_changes() {
    let (width, height) = (4u32, 4u32);
    let mut rgba = vec![0u8; (width * height * 4) as usize];
    let before = hash_tile_half(&rgba, 0, 0, width, height, width);
    rgba[0] = 255; // row 0 is always sampled
    let after = hash_tile_half(&rgba, 0, 0, width, height, width);
    assert_ne!(before, after);
}

#[test]
fn a_tile_hashes_like_its_pixels_back_to_back() {
    let frame: Vec<u8> = (0..16 * 8 * 4).map(|i| (i % 251) as u8).collect();
    let mut pixels = Vec::new();
    for row in 3..7usize {
        pixels.extend_from_slice(&frame[(row * 16 + 5) * 4..(row * 16 + 12) * 4]);
    }
    assert_eq!(hash_tile(&frame, 5, 3, 7, 4, 16), hash_avx2(&pixels));
    assert_eq!(hash_tile_with(SimdLevel::Sse2, &frame, 5, 3, 7, 4, 16), hash_sse2(&pixels));
    let mut half = pixels[..28].to_vec();
    half.extend_from_slice(&pixels[56..84]);
    assert_eq!(
        hash_tile_half_with(SimdLevel::Avx2, &frame, 5, 3, 7, 4, 16),
        hash_avx2(&half)
    );
}

#[test]
fn processors_without_vectors_use_xxh3() {
    let data: Vec<u8> = (0..1000).map(|i| (i % 256) as u8).collect();
    assert_eq!(
        hash_contiguous(SimdLevel::Scalar, &data),
        xxhash_rust::xxh3::xxh3_64(&data)
    );
    assert_eq!(hash_contiguous(SimdLevel::Avx2, &data), hash_avx2(&data));
    assert_eq!(hash_contiguous(SimdLevel::Sse2, &data), hash_sse2(&data));
    assert_eq!(SimdLevel::detect(true, true), SimdLevel::Avx2);
    assert_eq!(SimdLevel::detect(false, true), SimdLevel::Sse2);
    assert_eq!(SimdLevel::detect(false, false), SimdLevel::Scalar);
}

#[test]
fn distance_is_squared() {
    let tile = Tile::new(0, 0, 2, 2, Q); // centre (1,1)
    assert_eq!(tile.distance_from_center(4, 5), 9 + 16);
}

#[test]
fn a_fresh_history_is_empty() {
    let buf = CircularBuffer::default();
    assert!(buf.is_empty());
    assert_eq!(buf.count_ones(), 0);
    assert_eq!(TileMetadata::default().cached_encoded, None);
}

#[test]
fn rows_are_counted_from_the_aspect_ratio() {
    let grid = Grid::new(20, 1366, 768);
    assert_eq!(grid.y_span(0, 0).0, 0);
    assert_eq!(grid.y_span(0, grid.tiles_y - 1), (0, 768));
}

#[test]
fn covered_cells_rise_and_share_a_pixel_with_the_tile() {
    let grid = Grid::new(4, 50, 37);
    for tile in [
        Tile::new(0, 0, 1, 1, 0),
        Tile::new(11, 7, 3, 9, 0),
        Tile::new(12, 6, 24, 12, 0),
        Tile::new(30, 20, 20, 17, 0),
        Tile::new(0, 0, 50, 37, 0),
    ] {
        let cells = tile.covered_indices(&grid);
        assert!(cells.windows(2).all(|w| w[0] < w[1]));
        for i in 0..grid.cell_count() {
            let (x, y, w, h) = grid.cell_rect(i);
            let shares = x < tile.x + tile.width
                && tile.x < x + w
                && y < tile.y + tile.height
                && tile.y < y + h;
            assert_eq!(cells.contains(&i), shares, "cell {i}");
        }
    }
}
