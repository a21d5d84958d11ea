use screen_streamer::pipeline::EncodedFrame;
use screen_streamer::stream::{SendLoop, ACK_POLL};
use screen_streamer::tile::Tile;
use screen_streamer::transport::ACK_TIMEOUT;

fn frame(header: Option<(u32, u32)>, tiles: usize) -> EncodedFrame {
    EncodedFrame {
        header,
        tiles: (0..tiles).map(|i| Tile::new(i as u32, 0, 1, 1, 0)).collect(),
        encoded: (0..tiles).map(|i| vec![i as u8; 10]).collect(),
        ack_indices: (0..tiles).collect(),
        epoch: 4,
    }
}

#[test]
fn a_frame_without_tiles_makes_no_batch() {
    let mut s = SendLoop::new();
    let out = s.send(&frame(Some((64, 36)), 0), vec![], 0).unwrap();
    assert_eq!(&out.header.unwrap()[..], [0xFF, 0xFF, 64, 0, 36, 0]);
    assert!(out.packets.is_empty());
    assert_eq!(out.bytes, 0);
    assert_eq!(s.in_flight(), 0);
}

#[test]
fn a_lost_batch_gives_its_cells_back() {
    let mut s = SendLoop::new();
    let out = s.send(&frame(None, 3), vec![0, 1, 2], 100).unwrap();
    assert!(out.header.is_none());
    assert_eq!(out.bytes, 30);
    assert_eq!(&out.packets[0][..], [0xFE, 0xFF, 1, 0, 0, 0, 3, 0, 0, 0]);
    assert!(s.wake(&vec![], 100 + ACK_TIMEOUT).is_empty());
    assert_eq!(s.wake(&vec![], 101 + ACK_TIMEOUT), vec![(4, vec![0, 1, 2])]);
    assert_eq!(s.in_flight(), 0);
}

#[test]
fn acknowledged_batches_are_not_sent_again() {
    let mut s = SendLoop::new();
    s.send(&frame(None, 1), vec![0], 0).unwrap();
    s.send(&frame(None, 2), vec![0, 1], 0).unwrap();
    assert_eq!(s.wake(&vec![1, 77], ACK_TIMEOUT * 2), vec![(4, vec![0, 1])]);
}

#[test]
fn an_oversized_frame_is_refused_whole() {
    let mut s = SendLoop::new();
    let e = s.send(&frame(Some((65536, 1)), 1), vec![0], 0).err().unwrap();
    assert_eq!(e.message(), "WebRTC: Screen resolution 65536×1 exceeds protocol limit");
    assert_eq!(s.in_flight(), 0);
}

#[test]
fn lost_batches_are_looked_for_within_the_timeout() {
    assert!(ACK_POLL < ACK_TIMEOUT);
}
