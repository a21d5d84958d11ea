use bytes::Bytes;
use screen_streamer::protocol::{
    decode_ack, encode_header, encode_seq, pack_tiles, wire_bool, InputEvent, MouseButton,
    TileRect, MAX_PACKET_SIZE,
};

fn rect(x: u32) -> TileRect {
    TileRect { x, y: 2 * x, width: 64, height: 36 }
}

fn place(r: &TileRect) -> (u32, u32, u32, u32) {
    (r.x, r.y, r.width, r.height)
}

/// Parses packets back into (rect, payload) — mirrors the client decoder.
fn unpack(packets: &[Bytes]) -> Vec<(TileRect, Vec<u8>)> {
    let mut out = Vec::new();
    for p in packets {
        let mut off = 0;
        while off < p.len() {
            let len = u32::from_le_bytes(p[off..off + 4].try_into().unwrap()) as usize;
            let t = &p[off + 4..off + 4 + len];
            let f = |i: usize| u16::from_le_bytes([t[i], t[i + 1]]) as u32;
            out.push((TileRect { x: f(0), y: f(2), width: f(4), height: f(6) }, t[8..].to_vec()));
            off += 4 + len;
        }
    }
    out
}

#[test]
fn header_bytes_and_limit() {
    assert_eq!(encode_header(1920, 1080), Some([0xFF, 0xFF, 0x80, 0x07, 0x38, 0x04]));
    assert_eq!(encode_header(65535, 1), Some([0xFF, 0xFF, 0xFF, 0xFF, 0x01, 0x00]));
    assert_eq!(encode_header(65536, 1080), None);
    assert_eq!(encode_header(1920, 65536), None);
}

#[test]
fn seq_packet_bytes() {
    assert_eq!(encode_seq(0x0102_0304, 7), [0xFE, 0xFF, 0x04, 0x03, 0x02, 0x01, 7, 0, 0, 0]);
}

#[test]
fn ack_is_exactly_four_bytes() {
    assert_eq!(decode_ack(&0x1234_5678u32.to_le_bytes()), Some(0x1234_5678));
    assert_eq!(decode_ack(&[1, 2, 3]), None);
    assert_eq!(decode_ack(&[1, 2, 3, 4, 5]), None);
    assert_eq!(decode_ack(&[]), None);
}

#[test]
fn no_tiles_no_packets() {
    assert!(pack_tiles(&[]).is_empty());
}

#[test]
fn two_small_tiles_share_one_packet_byte_exact() {
    let packets = pack_tiles(&[(rect(1), &b"ab"[..]), (rect(3), &b"c"[..])]);
    assert_eq!(packets.len(), 1);
    let expected: Vec<u8> = [
        &10u32.to_le_bytes()[..], &[1, 0, 2, 0, 64, 0, 36, 0], b"ab",
        &9u32.to_le_bytes()[..], &[3, 0, 6, 0, 64, 0, 36, 0], b"c",
    ]
    .concat();
    assert_eq!(&packets[0][..], &expected[..]);
}

#[test]
fn many_tiles_split_without_exceeding_the_limit() {
    let payload = vec![7u8; 2000]; // 2012 bytes encoded → 3 per packet
    let tiles: Vec<_> = (0..5).map(|i| (rect(i), &payload[..])).collect();
    let packets = pack_tiles(&tiles);
    assert_eq!(packets.len(), 2);
    assert!(packets.iter().all(|p| p.len() <= MAX_PACKET_SIZE));
    let back = unpack(&packets);
    assert_eq!(back.len(), 5);
    for ((r, p), (r2, p2)) in tiles.iter().zip(&back) {
        assert_eq!((place(r), *p), (place(r2), &p2[..]));
    }
}

#[test]
fn tile_exactly_filling_a_packet_is_not_split_off() {
    let payload = vec![0u8; MAX_PACKET_SIZE - 12];
    let packets = pack_tiles(&[(rect(0), &payload[..]), (rect(1), &b"x"[..])]);
    assert_eq!(packets.len(), 2);
    assert_eq!(packets[0].len(), MAX_PACKET_SIZE);
}

#[test]
fn oversized_tile_gets_its_own_packet_in_order() {
    let big = vec![9u8; 9000];
    let tiles = [(rect(0), &b"small"[..]), (rect(1), &big[..]), (rect(2), &b"tail"[..])];
    let packets = pack_tiles(&tiles);
    assert_eq!(packets.iter().map(|p| p.len()).collect::<Vec<_>>(), [17, 9012, 16]);
    let back = unpack(&packets);
    assert_eq!(back.iter().map(|(r, _)| r.x).collect::<Vec<_>>(), [0, 1, 2]);
    assert_eq!(back[1].1, big);
}

#[test]
fn input_events_round_trip() {
    let events = [
        InputEvent::PointerMotion { x: 1919, y: 1079 },
        InputEvent::PointerButton { button: MouseButton::Right, pressed: true },
        InputEvent::PointerButton { button: MouseButton::Forward, pressed: false },
        InputEvent::PointerAxis { dx: -5, dy: i16::MIN },
        InputEvent::Key { code: 42, pressed: false },
        InputEvent::Key { code: 0x1ff, pressed: true },
    ];
    for e in events {
        assert_eq!(InputEvent::decode(&e.encode()), Some(e), "{e:?}");
    }
}

#[test]
fn malformed_input_is_rejected() {
    for bad in [
        &[][..],
        &[0x09],
        &[0x01, 0x64, 0x00, 0xC8],
        &[0x04, 0x2A, 0x00, 0x01, 0x00],
        &[0x02, 0x00, 0x02],
        &[0x04, 0x2A, 0x00, 0x02],
        &[0x02, 0x05, 0x01],
    ] {
        assert_eq!(InputEvent::decode(bad), None, "{bad:?}");
    }
}

#[test]
fn mouse_button_evdev_codes() {
    let buttons = [
        MouseButton::Left,
        MouseButton::Right,
        MouseButton::Middle,
        MouseButton::Back,
        MouseButton::Forward,
    ];
    let codes: Vec<u32> = buttons.map(MouseButton::evdev_code).into();
    assert_eq!(codes, [0x110, 0x111, 0x112, 0x113, 0x114]);
}

#[test]
fn event_bytes_are_little_endian() {
    assert_eq!(InputEvent::PointerMotion { x: 0x0102, y: 0x0304 }.encode(), [1, 2, 1, 4, 3]);
    assert_eq!(
        InputEvent::PointerButton { button: MouseButton::Middle, pressed: true }.encode(),
        [2, 1, 1]
    );
    assert_eq!(InputEvent::PointerAxis { dx: -1, dy: 2 }.encode(), [3, 0xff, 0xff, 2, 0]);
    assert_eq!(InputEvent::Key { code: 0x1ff, pressed: false }.encode(), [4, 0xff, 0x01, 0]);
}

#[test]
fn buttons_and_flags_keep_their_wire_numbers() {
    for n in 0..5u8 {
        assert_eq!(MouseButton::from_wire(n).unwrap().to_wire(), n);
    }
    assert_eq!(MouseButton::from_wire(5), None);
    assert_eq!(wire_bool(0), Some(false));
    assert_eq!(wire_bool(1), Some(true));
    assert_eq!(wire_bool(2), None);
}

#[test]
fn an_acknowledgement_reads_back_its_number() {
    for seq in [0u32, 1, 0x8000_0000, u32::MAX] {
        assert_eq!(decode_ack(&seq.to_le_bytes()), Some(seq));
        assert_eq!(encode_seq(seq, 0)[2..6], seq.to_le_bytes());
    }
}
