use screen_streamer::error::Error;
use screen_streamer::pipeline::EncodedFrame;
use screen_streamer::tile::Tile;
use screen_streamer::transport::{
    batch_packets, can_send, header_packet, image_bytes, AckTracker, ACK_TIMEOUT,
};

const MS: u64 = 1_000_000;

fn frame(tiles: Vec<Tile>, encoded: Vec<Vec<u8>>) -> EncodedFrame {
    EncodedFrame { header: None, tiles, encoded, ack_indices: vec![], epoch: 0 }
}

#[test]
fn sequence_numbers_increase_from_one() {
    let mut t = AckTracker::new(ACK_TIMEOUT);
    let now = 7;
    assert_eq!(t.register(0, vec![1], now), 1);
    assert_eq!(t.register(0, vec![2], now), 2);
}

#[test]
fn acked_batches_never_expire() {
    let mut t = AckTracker::new(ACK_TIMEOUT);
    let now = 7;
    let seq = t.register(0, vec![1, 2], now);
    t.ack(seq);
    assert!(t.take_expired(now + ACK_TIMEOUT * 10).is_empty());
    assert_eq!(t.in_flight(), 0);
}

#[test]
fn unacked_batch_expires_only_after_the_timeout_with_its_epoch_and_cells() {
    let mut t = AckTracker::new(ACK_TIMEOUT);
    let now = 7;
    t.register(3, vec![4, 5, 6], now);
    assert!(t.take_expired(now + ACK_TIMEOUT).is_empty());
    assert_eq!(
        t.take_expired(now + ACK_TIMEOUT + MS),
        vec![(3, vec![4, 5, 6])]
    );
    assert!(
        t.take_expired(now + ACK_TIMEOUT * 10).is_empty(),
        "reported once"
    );
}

#[test]
fn late_ack_for_an_expired_batch_is_harmless() {
    let mut t = AckTracker::new(ACK_TIMEOUT);
    let now = 7;
    let seq = t.register(0, vec![1], now);
    t.take_expired(now + ACK_TIMEOUT * 2);
    t.ack(seq);
    t.ack(999);
    assert_eq!(t.in_flight(), 0);
}

#[test]
fn sequence_wraps_around() {
    let mut t = AckTracker::resume(ACK_TIMEOUT, u32::MAX);
    assert_eq!(t.register(0, vec![], 7), 0);
}

#[test]
fn all_overdue_batches_come_back_at_once() {
    let mut t = AckTracker::new(ACK_TIMEOUT);
    t.register(1, vec![1], 0);
    t.register(1, vec![2, 3], 10);
    let kept = t.register(2, vec![4], ACK_TIMEOUT);
    let mut lost = t.take_expired(ACK_TIMEOUT + 11);
    lost.sort();
    assert_eq!(lost, vec![(1, vec![1]), (1, vec![2, 3])]);
    assert_eq!(t.in_flight(), 1);
    t.ack(kept);
    assert_eq!(t.in_flight(), 0);
}

#[test]
fn a_clock_that_goes_back_loses_nothing() {
    let mut t = AckTracker::new(ACK_TIMEOUT);
    t.register(0, vec![1], 1_000);
    assert!(t.take_expired(5).is_empty());
    assert_eq!(t.in_flight(), 1);
}

#[test]
fn a_size_beyond_sixteen_bits_is_an_error() {
    assert_eq!(&header_packet(1920, 1080).unwrap()[..], [0xFF, 0xFF, 0x80, 0x07, 0x38, 0x04]);
    let e = header_packet(70000, 1080).unwrap_err();
    assert!(matches!(e, Error::WebRTC(_)));
    assert_eq!(
        e.message(),
        "WebRTC: Screen resolution 70000×1080 exceeds protocol limit"
    );
}

#[test]
fn a_batch_announces_its_tiles_first() {
    let f = frame(
        vec![Tile::new(1, 2, 64, 36, 0), Tile::new(3, 6, 64, 36, 0)],
        vec![b"ab".to_vec(), b"c".to_vec()],
    );
    assert!(can_send(&f));
    let packets = batch_packets(9, &f);
    assert_eq!(packets.len(), 2);
    assert_eq!(&packets[0][..], [0xFE, 0xFF, 9, 0, 0, 0, 2, 0, 0, 0]);
    assert_eq!(packets[1].len(), 4 + 10 + 4 + 9);
    assert_eq!(&packets[1][..6], [10, 0, 0, 0, 1, 0]);
    assert_eq!(image_bytes(&f), 3);
}

#[test]
fn tiles_that_do_not_fit_the_wire_cannot_be_sent() {
    assert!(!can_send(&frame(vec![Tile::new(70000, 0, 1, 1, 0)], vec![vec![1]])));
    assert!(can_send(&frame(vec![Tile::new(70000, 0, 1, 1, 0)], vec![])));
}
