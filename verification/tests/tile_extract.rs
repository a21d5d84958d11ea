use screen_streamer::tile_extract::extract_tile;

#[test]
fn test_extract_tile_full_width() {
    let frame = vec![1u8; 1920 * 1080 * 4];
    let mut tile = vec![0u8; 1920 * 27 * 4];

    extract_tile(&frame, &mut tile, 0, 0, 1920, 27, 1920);

    assert_eq!(tile[0], 1);
    assert_eq!(tile[tile.len() - 1], 1);
}

#[test]
fn test_extract_tile_partial_width() {
    let mut frame = vec![0u8; 1920 * 1080 * 4];
    // Fill test pattern
    for i in 0..frame.len() {
        frame[i] = (i % 256) as u8;
    }

    let mut tile = vec![0u8; 48 * 27 * 4];
    extract_tile(&frame, &mut tile, 100, 50, 48, 27, 1920);

    // Verify first pixel
    let src_offset = ((50 * 1920 + 100) * 4) as usize;
    assert_eq!(tile[0], frame[src_offset]);
    assert_eq!(tile[1], frame[src_offset + 1]);
}

#[test]
fn every_row_of_a_tile_is_copied() {
    let frame: Vec<u8> = (0..10 * 6 * 4).map(|i| i as u8).collect();
    let mut tile = vec![0u8; 3 * 2 * 4 + 5];
    extract_tile(&frame, &mut tile, 4, 3, 3, 2, 10);
    assert_eq!(tile[..12], frame[(3 * 10 + 4) * 4..(3 * 10 + 7) * 4]);
    assert_eq!(tile[12..24], frame[(4 * 10 + 4) * 4..(4 * 10 + 7) * 4]);
    assert_eq!(tile[24..], [0u8; 5], "what does not belong to the tile stays");
}
