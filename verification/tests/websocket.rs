use screen_streamer::config::Config;
use screen_streamer::frame::Frame;
use screen_streamer::tile_hash::SimdLevel;
use screen_streamer::transport::tile_packets;
use screen_streamer::websocket::{
    is_plain_upgrade, page_response, wait_for_frame, wants_websocket, Caching, PlainStream,
};

#[test]
fn the_plain_upgrade_is_recognised_as_browsers_write_it() {
    assert!(is_plain_upgrade("GET / HTTP/1.1\r\nUpgrade: websocket\r\n\r\n"));
    assert!(is_plain_upgrade("GET / HTTP/1.1\r\nUpgrade: WebSocket\r\n\r\n"));
    assert!(!is_plain_upgrade("GET / HTTP/1.1\r\nupgrade: websocket\r\n\r\n"));
    assert!(!is_plain_upgrade(""));
    assert!(wants_websocket(b"\xffUpgrade: websocket"));
    assert!(!wants_websocket(b"Upgrade: websocke"));
}

#[test]
fn a_page_is_sent_with_its_length_in_bytes() {
    assert_eq!(
        page_response("<p>є</p>", Caching::AskAgain),
        "HTTP/1.1 200 OK\r\nContent-Type: text/html; charset=utf-8\r\nContent-Length: 9\r\nCache-Control: no-cache\r\n\r\n<p>є</p>"
    );
    assert_eq!(
        page_response("", Caching::Never),
        "HTTP/1.1 200 OK\r\nContent-Type: text/html; charset=utf-8\r\nContent-Length: 0\r\nCache-Control: no-cache, no-store, must-revalidate\r\nPragma: no-cache\r\nExpires: 0\r\n\r\n"
    );
}

#[test]
fn a_late_frame_is_not_waited_for() {
    assert_eq!(wait_for_frame(5, 8), Some(3));
    assert_eq!(wait_for_frame(8, 8), None);
    assert_eq!(wait_for_frame(9, 8), None);
}

#[test]
fn a_plain_stream_sends_the_whole_first_frame() {
    let config = Config { tiles_x: 4, ..Config::default() };
    let mut stream = PlainStream::new(config, SimdLevel::Avx2);
    let mut rgba: Vec<u8> = (0..64 * 36 * 4).map(|i| (i % 251) as u8).collect();
    let first = stream.process(&Frame::new(rgba.clone(), 64, 36, vec![]));
    assert_eq!(first.header, Some((64, 36)));
    let area: u32 = first.tiles.iter().map(|t| t.width * t.height).sum();
    assert_eq!(area, 64 * 36);
    assert_eq!(first.tasks.len(), first.tiles.len());
    for (k, task) in first.tasks.iter().enumerate() {
        assert_eq!(task.tile_idx, k);
        assert_eq!((task.tile.x, task.tile.y), (first.tiles[k].x, first.tiles[k].y));
        let corner = ((task.tile.y * 64 + task.tile.x) * 4) as usize;
        assert_eq!(task.tile_data[..4], rgba[corner..corner + 4]);
    }

    let same = stream.process(&Frame::new(rgba.clone(), 64, 36, vec![]));
    assert_eq!((same.header, same.tiles.len(), same.tasks.len()), (None, 0, 0));

    for b in &mut rgba[..16] {
        *b ^= 0xff;
    }
    let small = stream.process(&Frame::new(rgba[..32 * 18 * 4].to_vec(), 32, 18, vec![]));
    assert_eq!(small.header, Some((32, 18)));
    assert!(!small.tiles.is_empty());
}

#[test]
fn plain_packets_hold_tiles_only() {
    let tile = screen_streamer::tile::Tile::new(1, 2, 3, 4, 0);
    let packets = tile_packets(&vec![tile], &vec![vec![9u8, 8]]);
    assert_eq!(packets.len(), 1);
    assert_eq!(&packets[0][..], [10, 0, 0, 0, 1, 0, 2, 0, 3, 0, 4, 0, 9, 8]);
    assert!(tile_packets(&vec![], &vec![]).is_empty());
}
