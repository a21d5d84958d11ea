//! The binary wire format. All integers are little-endian.
//!
//! To the client:
//! - resolution header, 6 bytes: `0xFFFF | width u16 | height u16`
//! - sequence packet, 10 bytes: `0xFFFE | seq u32 | tile_count u32`
//! - tile packets: back-to-back `tile_len u32 | x u16 | y u16 | w u16 | h u16 | image`,
//!   where `tile_len` counts what follows it, up to [`MAX_PACKET_SIZE`] per packet
//!
//! From the client: an acknowledgement, exactly 4 bytes: `seq u32`; and one
//! [`InputEvent`] per message.

use bytes::Bytes;
use vstd::prelude::*;

verus! {

pub const MARKER_HEADER: u16 = 0xFFFF;

pub const MARKER_SEQ: u16 = 0xFFFE;

/// Tiles are packed into packets up to this size; a tile larger than this on
/// its own gets a packet to itself. Tiles are never split.
pub const MAX_PACKET_SIZE: usize = 8_000;

/// How many bytes a tile's place takes.
pub const TILE_PREFIX: usize = 8;

/// `v` in two bytes, low byte first.
pub open spec fn le16(v: int) -> Seq<u8> {
    seq![(v % 0x100) as u8, (v / 0x100 % 0x100) as u8]
}

/// `v` in four bytes, low byte first.
pub open spec fn le32(v: int) -> Seq<u8> {
    seq![
        (v % 0x100) as u8,
        (v / 0x100 % 0x100) as u8,
        (v / 0x1_0000 % 0x100) as u8,
        (v / 0x100_0000 % 0x100) as u8,
    ]
}

/// The number in two bytes, low byte first.
pub open spec fn from_le16(b: Seq<u8>) -> int {
    b[0] + b[1] * 0x100
}

/// The number in four bytes, low byte first.
pub open spec fn from_le32(b: Seq<u8>) -> int {
    b[0] + b[1] * 0x100 + b[2] * 0x1_0000 + b[3] * 0x100_0000
}

proof fn lemma_le16_round_trip(v: int)
    requires
        0 <= v < 0x1_0000,
    ensures
        from_le16(le16(v)) == v,
{
}

proof fn lemma_le32_round_trip(v: int)
    requires
        0 <= v < 0x1_0000_0000,
    ensures
        from_le32(le32(v)) == v,
{
}

fn low_byte(v: u32) -> (b: u8)
    ensures
        b == v as int % 0x100,
{
    (v % 0x100) as u8
}

/// A tile's placement on screen, in pixels.
#[derive(Clone, Copy, Debug, PartialEq, Eq, Structural)]
pub struct TileRect {
    pub x: u32,
    pub y: u32,
    pub width: u32,
    pub height: u32,
}

/// The bytes of a resolution header.
pub open spec fn header_bytes(width: int, height: int) -> Seq<u8> {
    le16(MARKER_HEADER as int) + le16(width) + le16(height)
}

/// Resolution header, or `None` if a side does not fit sixteen bits.
pub fn encode_header(width: u32, height: u32) -> (header: Option<[u8; 6]>)
    ensures
        header is Some <==> width <= 0xffff && height <= 0xffff,
        header matches Some(b) ==> b@ == header_bytes(width as int, height as int),
{
    if width > 0xffff || height > 0xffff {
        return None;
    }
    let b: [u8; 6] = [
        0xff,
        0xff,
        low_byte(width),
        low_byte(width / 0x100),
        low_byte(height),
        low_byte(height / 0x100),
    ];
    assert(b@ =~= header_bytes(width as int, height as int));
    Some(b)
}

/// The bytes of a sequence packet.
pub open spec fn seq_bytes(seq: int, tile_count: int) -> Seq<u8> {
    le16(MARKER_SEQ as int) + le32(seq) + le32(tile_count)
}

/// Sequence packet announcing the next `tile_count` tiles as batch `seq`.
pub fn encode_seq(seq: u32, tile_count: u32) -> (packet: [u8; 10])
    ensures
        packet@ == seq_bytes(seq as int, tile_count as int),
{
    let b: [u8; 10] = [
        0xfe,
        0xff,
        low_byte(seq),
        low_byte(seq / 0x100),
        low_byte(seq / 0x1_0000),
        low_byte(seq / 0x100_0000),
        low_byte(tile_count),
        low_byte(tile_count / 0x100),
        low_byte(tile_count / 0x1_0000),
        low_byte(tile_count / 0x100_0000),
    ];
    assert(b@ =~= seq_bytes(seq as int, tile_count as int));
    b
}

/// Client acknowledgement of batch `seq`; anything that is not exactly four
/// bytes is not one.
pub fn decode_ack(msg: &[u8]) -> (seq: Option<u32>)
    ensures
        seq is Some <==> msg@.len() == 4,
        seq matches Some(s) ==> s == from_le32(msg@),
{
    if msg.len() != 4 {
        return None;
    }
    Some(
        msg[0] as u32 + msg[1] as u32 * 0x100 + msg[2] as u32 * 0x1_0000 + msg[3] as u32
            * 0x100_0000,
    )
}

/// An acknowledgement of `seq` is read as `seq`.
pub proof fn law_ack_round_trip(seq: u32)
    ensures
        le32(seq as int).len() == 4,
        from_le32(le32(seq as int)) == seq,
{
    lemma_le32_round_trip(seq as int);
}

/// Headers and sequence packets tell themselves apart by their first bytes.
pub proof fn law_markers_differ(width: int, height: int, seq: int, tile_count: int)
    ensures
        header_bytes(width, height).len() == 6,
        seq_bytes(seq, tile_count).len() == 10,
        from_le16(header_bytes(width, height)) == MARKER_HEADER,
        from_le16(seq_bytes(seq, tile_count)) == MARKER_SEQ,
        MARKER_HEADER != MARKER_SEQ,
{
}

/// A browser's mouse button.
#[derive(Clone, Copy, Debug, PartialEq, Eq, Structural)]
pub enum MouseButton {
    Left,
    Middle,
    Right,
    Back,
    Forward,
}

/// A button's number in the browser's `MouseEvent.button`.
pub open spec fn button_number(button: MouseButton) -> u8 {
    match button {
        MouseButton::Left => 0,
        MouseButton::Middle => 1,
        MouseButton::Right => 2,
        MouseButton::Back => 3,
        MouseButton::Forward => 4,
    }
}

impl MouseButton {
    /// The button with the number `v`, if there is one.
    pub fn from_wire(v: u8) -> (button: Option<Self>)
        ensures
            button is Some <==> v <= 4,
            button matches Some(b) ==> button_number(b) == v,
    {
        match v {
            0 => Some(MouseButton::Left),
            1 => Some(MouseButton::Middle),
            2 => Some(MouseButton::Right),
            3 => Some(MouseButton::Back),
            4 => Some(MouseButton::Forward),
            _ => None,
        }
    }

    /// The button's number.
    pub fn to_wire(self) -> (v: u8)
        ensures
            v == button_number(self),
            v <= 4,
    {
        match self {
            MouseButton::Left => 0,
            MouseButton::Middle => 1,
            MouseButton::Right => 2,
            MouseButton::Back => 3,
            MouseButton::Forward => 4,
        }
    }

    /// The button's code in Linux's `input-event-codes.h`.
    pub fn evdev_code(self) -> (code: u32)
        ensures
            code == evdev_button(self),
    {
        match self {
            MouseButton::Left => 0x110,
            MouseButton::Right => 0x111,
            MouseButton::Middle => 0x112,
            MouseButton::Back => 0x113,
            MouseButton::Forward => 0x114,
        }
    }
}

/// A button's code in Linux's `input-event-codes.h`.
pub open spec fn evdev_button(button: MouseButton) -> u32 {
    match button {
        MouseButton::Left => 0x110,
        MouseButton::Right => 0x111,
        MouseButton::Middle => 0x112,
        MouseButton::Back => 0x113,
        MouseButton::Forward => 0x114,
    }
}

/// A remote-control event from the client.
#[derive(Clone, Copy, Debug, PartialEq, Eq, Structural)]
pub enum InputEvent {
    /// Absolute position in screen pixels. `0x01 | x u16 | y u16`
    PointerMotion { x: u16, y: u16 },
    /// `0x02 | button u8 | pressed u8`
    PointerButton { button: MouseButton, pressed: bool },
    /// Scroll delta in pixels. `0x03 | dx i16 | dy i16`
    PointerAxis { dx: i16, dy: i16 },
    /// Linux evdev keycode. `0x04 | code u16 | pressed u8`
    Key { code: u16, pressed: bool },
}

/// A signed number as the sixteen bits that stand for it.
pub open spec fn twos_complement(v: i16) -> int {
    if v < 0 {
        v + 0x1_0000
    } else {
        v as int
    }
}

/// A flag's byte.
pub open spec fn flag_byte(v: bool) -> u8 {
    if v {
        1
    } else {
        0
    }
}

/// The bytes of an event.
pub open spec fn event_bytes(event: InputEvent) -> Seq<u8> {
    match event {
        InputEvent::PointerMotion { x, y } => seq![0x01u8] + le16(x as int) + le16(y as int),
        InputEvent::PointerButton { button, pressed } => seq![
            0x02u8,
            button_number(button),
            flag_byte(pressed),
        ],
        InputEvent::PointerAxis { dx, dy } => seq![0x03u8] + le16(twos_complement(dx)) + le16(
            twos_complement(dy),
        ),
        InputEvent::Key { code, pressed } => seq![0x04u8] + le16(code as int) + seq![
            flag_byte(pressed),
        ],
    }
}

/// The flag of a byte: only 0 and 1 stand for one.
pub fn wire_bool(v: u8) -> (flag: Option<bool>)
    ensures
        flag is Some <==> v <= 1,
        flag matches Some(b) ==> flag_byte(b) == v,
{
    match v {
        0 => Some(false),
        1 => Some(true),
        _ => None,
    }
}

fn u16_at(msg: &[u8], i: usize) -> (v: u16)
    requires
        i + 1 < msg@.len(),
    ensures
        v == from_le16(msg@.skip(i as int)),
        le16(v as int) == msg@.subrange(i as int, i + 2),
{
    let v: u16 = msg[i] as u16 + msg[i + 1] as u16 * 0x100;
    assert(le16(v as int) =~= msg@.subrange(i as int, i + 2));
    v
}

fn signed(v: u16) -> (s: i16)
    ensures
        twos_complement(s) == v,
{
    if v >= 0x8000 {
        (v as i32 - 0x1_0000) as i16
    } else {
        v as i16
    }
}

impl InputEvent {
    /// Decodes untrusted network input; malformed messages yield `None`.
    pub fn decode(msg: &[u8]) -> (event: Option<Self>)
        ensures
            event matches Some(e) ==> msg@ == event_bytes(e),
            event is None ==> forall|e: InputEvent| msg@ != #[trigger] event_bytes(e),
    {
        if msg.len() == 0 {
            return None;
        }
        let kind: u8 = msg[0];
        if kind == 0x01 && msg.len() == 5 {
            let event = InputEvent::PointerMotion { x: u16_at(msg, 1), y: u16_at(msg, 3) };
            assert(msg@ =~= event_bytes(event)) by {
                assert(msg@ =~= seq![0x01u8] + msg@.subrange(1, 3) + msg@.subrange(3, 5));
            }
            return Some(event);
        }
        if kind == 0x02 && msg.len() == 3 {
            let button = MouseButton::from_wire(msg[1]);
            let pressed = wire_bool(msg[2]);
            if let Some(b) = button {
                if let Some(p) = pressed {
                    let event = InputEvent::PointerButton { button: b, pressed: p };
                    assert(msg@ =~= event_bytes(event));
                    return Some(event);
                }
            }
            proof {
                assert forall|e: InputEvent| msg@ != #[trigger] event_bytes(e) by {
                    if msg@ == event_bytes(e) {
                        assert(event_bytes(e)[0] == 0x02);
                        assert(event_bytes(e)[1] == msg@[1]);
                        assert(event_bytes(e)[2] == msg@[2]);
                    }
                }
            }
            return None;
        }
        if kind == 0x03 && msg.len() == 5 {
            let event = InputEvent::PointerAxis {
                dx: signed(u16_at(msg, 1)),
                dy: signed(u16_at(msg, 3)),
            };
            assert(msg@ =~= event_bytes(event)) by {
                assert(msg@ =~= seq![0x03u8] + msg@.subrange(1, 3) + msg@.subrange(3, 5));
            }
            return Some(event);
        }
        if kind == 0x04 && msg.len() == 4 {
            let pressed = wire_bool(msg[3]);
            if let Some(p) = pressed {
                let event = InputEvent::Key { code: u16_at(msg, 1), pressed: p };
                assert(msg@ =~= event_bytes(event)) by {
                    assert(msg@ =~= seq![0x04u8] + msg@.subrange(1, 3) + seq![msg@[3]]);
                }
                return Some(event);
            }
            proof {
                assert forall|e: InputEvent| msg@ != #[trigger] event_bytes(e) by {
                    if msg@ == event_bytes(e) {
                        assert(event_bytes(e)[0] == 0x04);
                        assert(event_bytes(e)[3] == msg@[3]);
                    }
                }
            }
            return None;
        }
        proof {
            assert forall|e: InputEvent| msg@ != #[trigger] event_bytes(e) by {
                if msg@ == event_bytes(e) {
                    assert(event_bytes(e)[0] == kind);
                    assert(event_bytes(e).len() == msg@.len());
                }
            }
        }
        None
    }

    /// Inverse of [`decode`](Self::decode).
    pub fn encode(&self) -> (msg: Vec<u8>)
        ensures
            msg@ == event_bytes(*self),
    {
        let mut msg: Vec<u8> = Vec::new();
        match *self {
            InputEvent::PointerMotion { x, y } => {
                msg.push(0x01);
                push_u16(&mut msg, x);
                push_u16(&mut msg, y);
            },
            InputEvent::PointerButton { button, pressed } => {
                msg.push(0x02);
                msg.push(button.to_wire());
                msg.push(
                    if pressed {
                        1
                    } else {
                        0
                    },
                );
            },
            InputEvent::PointerAxis { dx, dy } => {
                msg.push(0x03);
                push_u16(&mut msg, unsigned(dx));
                push_u16(&mut msg, unsigned(dy));
            },
            InputEvent::Key { code, pressed } => {
                msg.push(0x04);
                push_u16(&mut msg, code);
                msg.push(
                    if pressed {
                        1
                    } else {
                        0
                    },
                );
            },
        }
        assert(msg@ =~= event_bytes(*self));
        msg
    }
}

fn unsigned(v: i16) -> (u: u16)
    ensures
        u == twos_complement(v),
{
    if v < 0 {
        (v as i32 + 0x1_0000) as u16
    } else {
        v as u16
    }
}

fn push_u16(out: &mut Vec<u8>, v: u16)
    ensures
        final(out)@ == old(out)@ + le16(v as int),
{
    out.push(low_byte(v as u32));
    out.push(low_byte(v as u32 / 0x100));
    assert(out@ =~= old(out)@ + le16(v as int));
}

/// Two events with the same bytes are the same event, so decoding what was
/// encoded gives the event back.
pub proof fn law_event_bytes_determine_the_event(a: InputEvent, b: InputEvent)
    requires
        event_bytes(a) == event_bytes(b),
    ensures
        a == b,
{
    let (x, y) = (event_bytes(a), event_bytes(b));
    assert(x[0] == y[0]);
    match a {
        InputEvent::PointerMotion { x: ax, y: ay } => {
            assert(x[1] == y[1] && x[2] == y[2] && x[3] == y[3] && x[4] == y[4]);
        },
        InputEvent::PointerButton { .. } => {
            assert(x[1] == y[1] && x[2] == y[2]);
        },
        InputEvent::PointerAxis { .. } => {
            assert(x[1] == y[1] && x[2] == y[2] && x[3] == y[3] && x[4] == y[4]);
        },
        InputEvent::Key { .. } => {
            assert(x[1] == y[1] && x[2] == y[2] && x[3] == y[3]);
        },
    }
}

/// `bytes::Bytes`, a shared byte string.
#[verifier::external_type_specification]
#[verifier::external_body]
pub struct ExBytes(Bytes);

/// The bytes of a byte string.
pub uninterp spec fn contents(bytes: Bytes) -> Seq<u8>;

/// `Bytes::from(Vec<u8>)`: the byte string holds the vector's bytes, in order.
#[verifier::external_body]
pub(crate) fn share(bytes: Vec<u8>) -> (shared: Bytes)
    ensures
        contents(shared) == bytes@,
{
    Bytes::from(bytes)
}

/// The bytes of each of several byte strings.
pub open spec fn all_contents(packets: Seq<Bytes>) -> Seq<Seq<u8>> {
    packets.map_values(|p: Bytes| contents(p))
}

/// A tile to send: where it goes, and its encoded image.
pub open spec fn tile_bytes(rect: TileRect, image: Seq<u8>) -> Seq<u8> {
    le32(TILE_PREFIX + image.len()) + le16(rect.x as int) + le16(rect.y as int) + le16(
        rect.width as int,
    ) + le16(rect.height as int) + image
}

/// Whether a tile's place fits sixteen bits and its length thirty-two.
pub open spec fn encodable(rect: TileRect, image: Seq<u8>) -> bool {
    &&& rect.x <= 0xffff
    &&& rect.y <= 0xffff
    &&& rect.width <= 0xffff
    &&& rect.height <= 0xffff
    &&& TILE_PREFIX + image.len() <= u32::MAX
}

/// Tiles as values.
pub open spec fn tile_values(tiles: Seq<(TileRect, &[u8])>) -> Seq<(TileRect, Seq<u8>)> {
    tiles.map_values(|t: (TileRect, &[u8])| (t.0, t.1@))
}

/// The bytes of tiles `from..to`, back to back.
pub open spec fn run_bytes(tiles: Seq<(TileRect, Seq<u8>)>, from: int, to: int) -> Seq<u8>
    decreases to - from,
{
    if to <= from {
        Seq::empty()
    } else {
        run_bytes(tiles, from, to - 1) + tile_bytes(tiles[to - 1].0, tiles[to - 1].1)
    }
}

/// Where a packet ends that starts with tile `from` and holds the tiles up to
/// `to` already: it takes every further tile that fits.
pub open spec fn packet_end(tiles: Seq<(TileRect, Seq<u8>)>, from: int, to: int) -> int
    decreases tiles.len() - to,
{
    if to < tiles.len() && run_bytes(tiles, from, to + 1).len() <= MAX_PACKET_SIZE {
        packet_end(tiles, from, to + 1)
    } else {
        to
    }
}

/// The packets for the tiles from `from` on. Each takes as many whole tiles as
/// fit, and at least one.
pub open spec fn packets_from(tiles: Seq<(TileRect, Seq<u8>)>, from: int) -> Seq<Seq<u8>>
    decreases tiles.len() - from,
    via packets_from_shrinks
{
    if from >= tiles.len() {
        Seq::empty()
    } else {
        let end = packet_end(tiles, from, from + 1);
        seq![run_bytes(tiles, from, end)] + packets_from(tiles, end)
    }
}

#[via_fn]
proof fn packets_from_shrinks(tiles: Seq<(TileRect, Seq<u8>)>, from: int) {
    if from < tiles.len() {
        lemma_packet_end(tiles, from, from + 1);
    }
}

proof fn lemma_packet_end(tiles: Seq<(TileRect, Seq<u8>)>, from: int, to: int)
    ensures
        to <= packet_end(tiles, from, to),
        to <= tiles.len() ==> packet_end(tiles, from, to) <= tiles.len(),
    decreases tiles.len() - to,
{
    if to < tiles.len() && run_bytes(tiles, from, to + 1).len() <= MAX_PACKET_SIZE {
        lemma_packet_end(tiles, from, to + 1);
    }
}

/// More tiles make more bytes.
proof fn lemma_run_grows(tiles: Seq<(TileRect, Seq<u8>)>, from: int, to: int)
    requires
        from <= to,
    ensures
        run_bytes(tiles, from, to + 1) == run_bytes(tiles, from, to) + tile_bytes(
            tiles[to].0,
            tiles[to].1,
        ),
        tile_bytes(tiles[to].0, tiles[to].1).len() == 4 + TILE_PREFIX + tiles[to].1.len(),
{
}

fn push_u32(out: &mut Vec<u8>, v: u32)
    ensures
        final(out)@ == old(out)@ + le32(v as int),
{
    out.push(low_byte(v));
    out.push(low_byte(v / 0x100));
    out.push(low_byte(v / 0x1_0000));
    out.push(low_byte(v / 0x100_0000));
    assert(out@ =~= old(out)@ + le32(v as int));
}

fn push_tile(out: &mut Vec<u8>, rect: &TileRect, image: &[u8])
    requires
        encodable(*rect, image@),
    ensures
        final(out)@ == old(out)@ + tile_bytes(*rect, image@),
{
    push_u32(out, (TILE_PREFIX + image.len()) as u32);
    push_u16(out, rect.x as u16);
    push_u16(out, rect.y as u16);
    push_u16(out, rect.width as u16);
    push_u16(out, rect.height as u16);
    let ghost before = out@;
    out.extend_from_slice(image);
    assert(out@ =~= before + image@);
    assert(out@ =~= old(out)@ + tile_bytes(*rect, image@));
}

/// Packs tiles, in order, into packets.
pub fn pack_tiles(tiles: &[(TileRect, &[u8])]) -> (packets: Vec<Bytes>)
    requires
        forall|k: int| 0 <= k < tiles@.len() ==> encodable((#[trigger] tiles@[k]).0, tiles@[k].1@),
    ensures
        all_contents(packets@) == packets_from(tile_values(tiles@), 0),
{
    let ghost values = tile_values(tiles@);
    let ghost all = packets_from(values, 0);
    let ghost mut from: int = 0;
    let mut packets: Vec<Bytes> = Vec::new();
    let mut current: Vec<u8> = Vec::new();
    let mut i: usize = 0;
    assert(all_contents(packets@) + packets_from(values, 0) =~= all);
    while i < tiles.len()
        invariant
            forall|k: int|
                0 <= k < tiles@.len() ==> encodable((#[trigger] tiles@[k]).0, tiles@[k].1@),
            values == tile_values(tiles@),
            0 <= from <= i <= tiles@.len(),
            current@ == run_bytes(values, from, i as int),
            current@.len() <= MAX_PACKET_SIZE,
            from == i <==> current@.len() == 0,
            from < i ==> packet_end(values, from, from + 1) == packet_end(values, from, i as int),
            all_contents(packets@) + packets_from(values, from) == all,
        decreases tiles@.len() - i,
    {
        let (rect, image): (TileRect, &[u8]) = tiles[i];
        assert(values[i as int] == (rect, image@));
        proof {
            lemma_run_grows(values, from, i as int);
        }
        let encoded_len: u64 = 4 + TILE_PREFIX as u64 + image.len() as u64;
        if current.len() > 0 && current.len() as u64 + encoded_len > MAX_PACKET_SIZE as u64 {
            proof {
                assert(packet_end(values, from, i as int) == i);
                lemma_shipped(packets@, current@, values, from, i as int, all);
                from = i as int;
                lemma_run_grows(values, from, i as int);
            }
            packets.push(share(current));
            current = Vec::new();
        }
        push_tile(&mut current, &rect, image);
        assert(current@ =~= run_bytes(values, from, i + 1));
        if current.len() > MAX_PACKET_SIZE {
            proof {
                assert(from == i);
                lemma_run_grows(values, from, i + 1);
                assert(packet_end(values, from, i + 1) == i + 1);
                lemma_shipped(packets@, current@, values, from, i + 1, all);
                from = i + 1;
            }
            packets.push(share(current));
            current = Vec::new();
        }
        i += 1;
    }
    if current.len() > 0 {
        proof {
            assert(packet_end(values, from, i as int) == i);
            lemma_shipped(packets@, current@, values, from, i as int, all);
            from = i as int;
        }
        packets.push(share(current));
    }
    assert(packets_from(values, from) =~= Seq::<Seq<u8>>::empty());
    assert(all_contents(packets@) =~= all);
    packets
}

/// Shipping a full packet leaves the packets after it to be made.
proof fn lemma_shipped(
    packets: Seq<Bytes>,
    current: Seq<u8>,
    tiles: Seq<(TileRect, Seq<u8>)>,
    from: int,
    to: int,
    all: Seq<Seq<u8>>,
)
    requires
        0 <= from < to <= tiles.len(),
        current == run_bytes(tiles, from, to),
        packet_end(tiles, from, from + 1) == to,
        all_contents(packets) + packets_from(tiles, from) == all,
    ensures
        forall|p: Bytes|
            contents(p) == current ==> #[trigger] all_contents(packets.push(p)) + packets_from(
                tiles,
                to,
            ) == all,
{
    assert forall|p: Bytes| contents(p) == current implies #[trigger] all_contents(packets.push(p))
        + packets_from(tiles, to) == all by {
        let before = all_contents(packets);
        assert(all_contents(packets.push(p)) =~= before.push(current));
        assert(before.push(current) + packets_from(tiles, to) =~= before + (seq![current]
            + packets_from(tiles, to)));
    }
}

/// The tiles a client reads from one packet: a length, the tile of that
/// length, and so on to the end.
pub open spec fn unpacked(packet: Seq<u8>) -> Seq<(TileRect, Seq<u8>)>
    decreases packet.len(),
{
    let n = from_le32(packet);
    if packet.len() < 4 + TILE_PREFIX || n < TILE_PREFIX || 4 + n > packet.len() {
        Seq::empty()
    } else {
        let tile = packet.subrange(4, 4 + n);
        let rect = TileRect {
            x: from_le16(tile) as u32,
            y: from_le16(tile.skip(2)) as u32,
            width: from_le16(tile.skip(4)) as u32,
            height: from_le16(tile.skip(6)) as u32,
        };
        seq![(rect, tile.skip(TILE_PREFIX as int))] + unpacked(packet.skip(4 + n))
    }
}

/// The tiles a client reads from packets, one after the other.
pub open spec fn all_unpacked(packets: Seq<Seq<u8>>) -> Seq<(TileRect, Seq<u8>)>
    decreases packets.len(),
{
    if packets.len() == 0 {
        Seq::empty()
    } else {
        unpacked(packets[0]) + all_unpacked(packets.drop_first())
    }
}

/// A run of tiles is its first tile and the run after it.
proof fn lemma_run_first(tiles: Seq<(TileRect, Seq<u8>)>, from: int, to: int)
    requires
        0 <= from < to <= tiles.len(),
    ensures
        run_bytes(tiles, from, to) == tile_bytes(tiles[from].0, tiles[from].1) + run_bytes(
            tiles,
            from + 1,
            to,
        ),
    decreases to - from,
{
    let first = tile_bytes(tiles[from].0, tiles[from].1);
    if to == from + 1 {
        assert(run_bytes(tiles, from, from) =~= Seq::<u8>::empty());
        assert(run_bytes(tiles, from, to) =~= first + run_bytes(tiles, from + 1, to));
    } else {
        lemma_run_first(tiles, from, to - 1);
        let last = tile_bytes(tiles[to - 1].0, tiles[to - 1].1);
        assert(first + run_bytes(tiles, from + 1, to - 1) + last =~= first + (run_bytes(
            tiles,
            from + 1,
            to - 1,
        ) + last));
    }
}

/// A tile followed by anything is read back.
#[verifier::spinoff_prover]
#[verifier::rlimit(60)]
proof fn lemma_tile_unpacked(rect: TileRect, image: Seq<u8>, rest: Seq<u8>)
    requires
        encodable(rect, image),
    ensures
        unpacked(tile_bytes(rect, image) + rest) == seq![(rect, image)] + unpacked(rest),
{
    let packet = tile_bytes(rect, image) + rest;
    let n = TILE_PREFIX + image.len();
    lemma_le32_round_trip(n as int);
    lemma_le16_round_trip(rect.x as int);
    lemma_le16_round_trip(rect.y as int);
    lemma_le16_round_trip(rect.width as int);
    lemma_le16_round_trip(rect.height as int);
    let l = le32(n as int);
    assert(packet[0] == l[0] && packet[1] == l[1] && packet[2] == l[2] && packet[3] == l[3]);
    let tile = packet.subrange(4, 4 + n);
    let place = le16(rect.x as int) + le16(rect.y as int) + le16(rect.width as int) + le16(
        rect.height as int,
    );
    assert(tile =~= place + image);
    assert(tile.skip(TILE_PREFIX as int) =~= image);
    assert(packet.skip(4 + n) =~= rest);
    assert(tile[0] == le16(rect.x as int)[0] && tile[1] == le16(rect.x as int)[1]);
    assert(tile.skip(2)[0] == le16(rect.y as int)[0] && tile.skip(2)[1] == le16(rect.y as int)[1]);
    assert(tile.skip(4)[0] == le16(rect.width as int)[0] && tile.skip(4)[1] == le16(
        rect.width as int,
    )[1]);
    assert(tile.skip(6)[0] == le16(rect.height as int)[0] && tile.skip(6)[1] == le16(
        rect.height as int,
    )[1]);
}

proof fn lemma_run_unpacked(tiles: Seq<(TileRect, Seq<u8>)>, from: int, to: int)
    requires
        0 <= from <= to <= tiles.len(),
        forall|k: int| 0 <= k < tiles.len() ==> encodable((#[trigger] tiles[k]).0, tiles[k].1),
    ensures
        unpacked(run_bytes(tiles, from, to)) == tiles.subrange(from, to),
    decreases to - from,
{
    if from == to {
        assert(tiles.subrange(from, to) =~= Seq::empty());
    } else {
        lemma_run_first(tiles, from, to);
        lemma_tile_unpacked(tiles[from].0, tiles[from].1, run_bytes(tiles, from + 1, to));
        lemma_run_unpacked(tiles, from + 1, to);
        assert(tiles.subrange(from, to) =~= seq![tiles[from]] + tiles.subrange(from + 1, to));
    }
}

/// A client that reads the packets in order gets every tile back, unchanged, in
/// order and none besides.
pub proof fn law_packets_hold_the_tiles(tiles: Seq<(TileRect, Seq<u8>)>, from: int)
    requires
        0 <= from <= tiles.len(),
        forall|k: int| 0 <= k < tiles.len() ==> encodable((#[trigger] tiles[k]).0, tiles[k].1),
    ensures
        all_unpacked(packets_from(tiles, from)) == tiles.subrange(from, tiles.len() as int),
    decreases tiles.len() - from,
{
    if from < tiles.len() {
        lemma_packet_end(tiles, from, from + 1);
        let end = packet_end(tiles, from, from + 1);
        lemma_run_unpacked(tiles, from, end);
        law_packets_hold_the_tiles(tiles, end);
        let packets = packets_from(tiles, from);
        assert(packets.drop_first() =~= packets_from(tiles, end));
        assert(tiles.subrange(from, tiles.len() as int) =~= tiles.subrange(from, end)
            + tiles.subrange(end, tiles.len() as int));
    } else {
        assert(tiles.subrange(from, tiles.len() as int) =~= Seq::empty());
    }
}

proof fn lemma_packet_size(tiles: Seq<(TileRect, Seq<u8>)>, from: int, to: int)
    requires
        run_bytes(tiles, from, to).len() <= MAX_PACKET_SIZE || to == from + 1,
    ensures
        run_bytes(tiles, from, packet_end(tiles, from, to)).len() <= MAX_PACKET_SIZE || packet_end(
            tiles,
            from,
            to,
        ) == from + 1,
    decreases tiles.len() - to,
{
    if to < tiles.len() && run_bytes(tiles, from, to + 1).len() <= MAX_PACKET_SIZE {
        lemma_packet_size(tiles, from, to + 1);
    }
}

/// No packet is larger than the limit, but for one that holds a single tile.
pub proof fn law_packets_keep_the_limit(tiles: Seq<(TileRect, Seq<u8>)>, from: int, k: int)
    requires
        0 <= from <= tiles.len(),
        0 <= k < packets_from(tiles, from).len(),
    ensures
        packets_from(tiles, from)[k].len() <= MAX_PACKET_SIZE || exists|i: int|
            0 <= i < tiles.len() && packets_from(tiles, from)[k] == #[trigger] tile_bytes(
                tiles[i].0,
                tiles[i].1,
            ),
    decreases tiles.len() - from,
{
    lemma_packet_end(tiles, from, from + 1);
    let end = packet_end(tiles, from, from + 1);
    if k == 0 {
        lemma_packet_size(tiles, from, from + 1);
        if end == from + 1 {
            assert(run_bytes(tiles, from, from) =~= Seq::<u8>::empty());
            assert(run_bytes(tiles, from, end) =~= tile_bytes(tiles[from].0, tiles[from].1));
        }
    } else {
        law_packets_keep_the_limit(tiles, end, k - 1);
        assert(packets_from(tiles, from)[k] == packets_from(tiles, end)[k - 1]);
    }
}

/// Two bytes stand for what the low one counts in ones and the high one in 256s.
pub open spec fn reads16(b: Seq<u8>, at: int, v: int) -> bool {
    b[at] + 256 * b[at + 1] == v
}

/// Four bytes stand for what they count in ones, 256s, 65,536s and 16,777,216s.
pub open spec fn reads32(b: Seq<u8>, at: int, v: int) -> bool {
    b[at] + 256 * b[at + 1] + 65_536 * b[at + 2] + 16_777_216 * b[at + 3] == v
}

/// Where the parts of a header stand.
pub proof fn law_header_layout(width: int, height: int)
    requires
        0 <= width <= 0xffff,
        0 <= height <= 0xffff,
    ensures
        ({
            let b = header_bytes(width, height);
            &&& b.len() == 6
            &&& b[0] == 0xff && b[1] == 0xff
            &&& reads16(b, 2, width)
            &&& reads16(b, 4, height)
        }),
{
}

/// Where the parts of a sequence packet stand.
pub proof fn law_sequence_layout(seq: int, tile_count: int)
    requires
        0 <= seq <= u32::MAX,
        0 <= tile_count <= u32::MAX,
    ensures
        ({
            let b = seq_bytes(seq, tile_count);
            &&& b.len() == 10
            &&& b[0] == 0xfe && b[1] == 0xff
            &&& reads32(b, 2, seq)
            &&& reads32(b, 6, tile_count)
        }),
{
    let b = seq_bytes(seq, tile_count);
    let (s, c) = (le32(seq), le32(tile_count));
    lemma_le32_round_trip(seq);
    lemma_le32_round_trip(tile_count);
    assert(b.len() == 10);
    assert(b[2] == s[0] && b[3] == s[1] && b[4] == s[2] && b[5] == s[3]);
    assert(b[6] == c[0] && b[7] == c[1] && b[8] == c[2] && b[9] == c[3]);
}

/// An acknowledgement is read low byte first.
pub proof fn law_acknowledgement_layout(msg: Seq<u8>)
    requires
        msg.len() == 4,
    ensures
        reads32(msg, 0, from_le32(msg)),
{
}

/// Where the parts of an event stand. A negative delta is sent as the number 65,536
/// above it.
pub proof fn law_event_layout(event: InputEvent)
    ensures
        ({
            let b = event_bytes(event);
            match event {
                InputEvent::PointerMotion { x, y } => {
                    &&& b.len() == 5 && b[0] == 1
                    &&& reads16(b, 1, x as int)
                    &&& reads16(b, 3, y as int)
                },
                InputEvent::PointerButton { button, pressed } => {
                    &&& b.len() == 3 && b[0] == 2
                    &&& b[1] == button_number(button)
                    &&& b[2] == 1 <==> pressed
                    &&& b[2] == 0 <==> !pressed
                },
                InputEvent::PointerAxis { dx, dy } => {
                    &&& b.len() == 5 && b[0] == 3
                    &&& reads16(b, 1, dx as int) || reads16(b, 1, dx + 65_536)
                    &&& reads16(b, 3, dy as int) || reads16(b, 3, dy + 65_536)
                },
                InputEvent::Key { code, pressed } => {
                    &&& b.len() == 4 && b[0] == 4
                    &&& reads16(b, 1, code as int)
                    &&& b[3] == 1 <==> pressed
                    &&& b[3] == 0 <==> !pressed
                },
            }
        }),
{
}

/// The browser counts the buttons left, middle, right, back, forward from zero; the
/// system has the right one before the middle one and the rest in the same order,
/// one code after the other.
pub proof fn law_buttons_are_numbered(button: MouseButton)
    ensures
        button_number(button) == 0 <==> button is Left,
        button_number(button) == 1 <==> button is Middle,
        button_number(button) == 2 <==> button is Right,
        button_number(button) == 3 <==> button is Back,
        button_number(button) == 4 <==> button is Forward,
        button is Middle || button is Right ==> evdev_button(button) + button_number(button)
            == 0x113,
        !(button is Middle || button is Right) ==> evdev_button(button) == 0x110 + button_number(
            button,
        ),
{
}

/// Where the parts of a tile stand in its packet.
#[verifier::spinoff_prover]
#[verifier::rlimit(60)]
pub proof fn law_tile_layout(rect: TileRect, image: Seq<u8>)
    requires
        rect.x <= 0xffff,
        rect.y <= 0xffff,
        rect.width <= 0xffff,
        rect.height <= 0xffff,
        8 + image.len() <= u32::MAX,
    ensures
        ({
            let b = tile_bytes(rect, image);
            &&& b.len() == 12 + image.len()
            &&& reads32(b, 0, 8 + image.len() as int)
            &&& reads16(b, 4, rect.x as int)
            &&& reads16(b, 6, rect.y as int)
            &&& reads16(b, 8, rect.width as int)
            &&& reads16(b, 10, rect.height as int)
            &&& b.skip(12) == image
            &&& encodable(rect, image)
        }),
{
    let b = tile_bytes(rect, image);
    let n = TILE_PREFIX + image.len();
    lemma_le32_round_trip(n as int);
    lemma_le16_round_trip(rect.x as int);
    lemma_le16_round_trip(rect.y as int);
    lemma_le16_round_trip(rect.width as int);
    lemma_le16_round_trip(rect.height as int);
    let l = le32(n as int);
    assert(b[0] == l[0] && b[1] == l[1] && b[2] == l[2] && b[3] == l[3]);
    let (x, y) = (le16(rect.x as int), le16(rect.y as int));
    let (w, h) = (le16(rect.width as int), le16(rect.height as int));
    assert(b[4] == x[0] && b[5] == x[1] && b[6] == y[0] && b[7] == y[1]);
    assert(b[8] == w[0] && b[9] == w[1] && b[10] == h[0] && b[11] == h[1]);
    assert(b.skip(12) =~= image);
}

proof fn lemma_packet_full(tiles: Seq<(TileRect, Seq<u8>)>, from: int, to: int)
    requires
        from < to,
    ensures
        ({
            let end = packet_end(tiles, from, to);
            end < tiles.len() ==> run_bytes(tiles, from, end).len() + 12 + tiles[end].1.len() > 8000
        }),
    decreases tiles.len() - to,
{
    lemma_run_grows(tiles, from, to);
    if to < tiles.len() && run_bytes(tiles, from, to + 1).len() <= MAX_PACKET_SIZE {
        lemma_packet_full(tiles, from, to + 1);
    }
}

/// Packets are filled. Each has at least one tile; only one with a single tile is
/// longer than 8,000 bytes; and the first tile of the next packet would not have
/// fitted.
pub proof fn law_packets_are_filled(tiles: Seq<(TileRect, Seq<u8>)>, from: int, k: int)
    requires
        0 <= from <= tiles.len(),
        0 <= k < packets_from(tiles, from).len(),
        forall|j: int| 0 <= j < tiles.len() ==> encodable((#[trigger] tiles[j]).0, tiles[j].1),
    ensures
        ({
            let packets = packets_from(tiles, from);
            let read = unpacked(packets[k]);
            &&& read.len() >= 1
            &&& packets[k].len() > 8000 ==> read.len() == 1
            &&& k + 1 < packets.len() ==> packets[k].len() + 12 + unpacked(packets[k + 1])[0].1.len()
                > 8000
        }),
    decreases tiles.len() - from,
{
    lemma_packet_end(tiles, from, from + 1);
    let end = packet_end(tiles, from, from + 1);
    let packets = packets_from(tiles, from);
    assert(packets =~= seq![run_bytes(tiles, from, end)] + packets_from(tiles, end));
    if k == 0 {
        lemma_packet_size(tiles, from, from + 1);
        lemma_run_unpacked(tiles, from, end);
        lemma_packet_full(tiles, from, from + 1);
        if 1 < packets.len() {
            let last = packet_end(tiles, end, end + 1);
            lemma_packet_end(tiles, end, end + 1);
            lemma_run_unpacked(tiles, end, last);
            assert(packets[1] == run_bytes(tiles, end, last));
        }
    } else {
        law_packets_are_filled(tiles, end, k - 1);
        assert(packets[k] == packets_from(tiles, end)[k - 1]);
        if k + 1 < packets.len() {
            assert(packets[k + 1] == packets_from(tiles, end)[k]);
        }
    }
}

} // verus!
