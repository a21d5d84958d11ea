//! What goes out on the `screen` channel, and which batches of it the client
//! has acknowledged.
//!
//! Times are nanoseconds of one monotonic clock.

use crate::error::{Error, Result};
use crate::pipeline::EncodedFrame;
use crate::protocol::{
    all_contents, all_unpacked, contents, encodable, encode_header, encode_seq, header_bytes,
    law_packets_hold_the_tiles, pack_tiles, packets_from, seq_bytes, share, tile_values, TileRect,
    TILE_PREFIX,
};
use crate::text::{decimal, decimal_text, join};
use crate::tile::Tile;
use bytes::Bytes;
use std::collections::HashMap;
use vstd::prelude::*;
use vstd::std_specs::iter::IteratorSpec;

verus! {

broadcast use vstd::std_specs::hash::group_hash_axioms;

/// A batch unacknowledged for longer than this is treated as lost: 150 ms.
pub const ACK_TIMEOUT: u64 = 150_000_000;

/// The grid cells of a lost batch, with the tile grid they belong to.
pub type LostCells = (u64, Vec<usize>);

/// A batch on its way.
struct InFlight {
    sent_at: u64,
    epoch: u64,
    cells: Vec<usize>,
}

/// A batch on its way, as a value.
pub struct Batch {
    pub sent_at: int,
    pub epoch: u64,
    pub cells: Seq<usize>,
}

impl Batch {
    /// Whether the batch counts as lost at time `now`.
    pub open spec fn expired(self, now: int, timeout: int) -> bool {
        now - self.sent_at > timeout
    }
}

impl View for InFlight {
    type V = Batch;

    closed spec fn view(&self) -> Batch {
        Batch { sent_at: self.sent_at as int, epoch: self.epoch, cells: self.cells@ }
    }
}

/// What a tracker knows.
pub struct Outstanding {
    /// The number given out last.
    pub last_seq: u32,
    /// The batches on their way, by number.
    pub batches: Map<u32, Batch>,
}

/// The number after `seq`: the numbers wrap around.
pub open spec fn seq_after(seq: u32) -> u32 {
    if seq == u32::MAX {
        0
    } else {
        (seq + 1) as u32
    }
}

/// A batch joins those on their way.
pub open spec fn registered(o: Outstanding, batch: Batch) -> Outstanding {
    Outstanding {
        last_seq: seq_after(o.last_seq),
        batches: o.batches.insert(seq_after(o.last_seq), batch),
    }
}

/// A batch was delivered.
pub open spec fn acknowledged(o: Outstanding, seq: u32) -> Outstanding {
    Outstanding { last_seq: o.last_seq, batches: o.batches.remove(seq) }
}

/// The numbers of the batches that count as lost.
pub open spec fn overdue(o: Outstanding, now: int, timeout: int) -> Set<u32> {
    Set::new(|seq: u32| o.batches.contains_key(seq) && o.batches[seq].expired(now, timeout))
}

/// What is left once the lost batches are taken out.
pub open spec fn without_overdue(o: Outstanding, now: int, timeout: int) -> Outstanding {
    Outstanding {
        last_seq: o.last_seq,
        batches: o.batches.remove_keys(overdue(o, now, timeout)),
    }
}

/// Whether `lost` holds the batches numbered `seqs`, in that order.
pub open spec fn holds_batches(lost: Seq<LostCells>, o: Outstanding, seqs: Seq<u32>) -> bool {
    &&& lost.len() == seqs.len()
    &&& forall|k: int|
        0 <= k < lost.len() ==> (#[trigger] lost[k]).0 == o.batches[seqs[k]].epoch && lost[k].1@
            == o.batches[seqs[k]].cells
}

/// Tracks the batches that were sent and not acknowledged yet.
///
/// A client acknowledges a batch once it has decoded every tile of it, so of a
/// batch that is not acknowledged in time at least one tile got lost. All the
/// cells that it covered are then handed back, to be sent again.
pub struct AckTracker {
    timeout: u64,
    next_seq: u32,
    in_flight: HashMap<u32, InFlight>,
}

impl View for AckTracker {
    type V = Outstanding;

    closed spec fn view(&self) -> Outstanding {
        Outstanding {
            last_seq: self.next_seq,
            batches: self.in_flight@.map_values(|f: InFlight| f@),
        }
    }
}

/// Whether one of the first `n` entries has number `seq`.
spec fn seen(entries: Seq<(&u32, &InFlight)>, n: int, seq: u32) -> bool {
    exists|j: int| 0 <= j < n && *(#[trigger] entries[j]).0 == seq
}

impl AckTracker {
    /// How long a batch may stay unacknowledged.
    pub closed spec fn timeout(&self) -> int {
        self.timeout as int
    }

    /// A tracker with nothing on its way. The first batch is number one.
    pub fn new(timeout: u64) -> (t: Self)
        ensures
            t.timeout() == timeout,
            t@ == (Outstanding { last_seq: 0, batches: Map::empty() }),
    {
        Self::resume(timeout, 0)
    }

    /// A tracker with nothing on its way that goes on after batch `last_seq`.
    pub fn resume(timeout: u64, last_seq: u32) -> (t: Self)
        ensures
            t.timeout() == timeout,
            t@ == (Outstanding { last_seq, batches: Map::empty() }),
    {
        let t = AckTracker { timeout, next_seq: last_seq, in_flight: HashMap::new() };
        assert(t@.batches =~= Map::<u32, Batch>::empty());
        t
    }

    /// Notes a batch that is about to be sent, and gives its number.
    pub fn register(&mut self, epoch: u64, cells: Vec<usize>, now: u64) -> (seq: u32)
        ensures
            final(self).timeout() == old(self).timeout(),
            final(self)@ == registered(
                old(self)@,
                (Batch { sent_at: now as int, epoch, cells: cells@ }),
            ),
            seq == final(self)@.last_seq,
    {
        self.next_seq = self.next_seq.wrapping_add(1);
        self.in_flight.insert(self.next_seq, InFlight { sent_at: now, epoch, cells });
        assert(self@.batches =~= registered(
            old(self)@,
            Batch { sent_at: now as int, epoch, cells: cells@ },
        ).batches);
        self.next_seq
    }

    /// Marks a batch as delivered. A number that is unknown, or whose batch was
    /// given up already, changes nothing.
    pub fn ack(&mut self, seq: u32)
        ensures
            final(self).timeout() == old(self).timeout(),
            final(self)@ == acknowledged(old(self)@, seq),
    {
        self.in_flight.remove(&seq);
        assert(self@.batches =~= old(self)@.batches.remove(seq));
    }

    /// The numbers of the batches that count as lost.
    fn overdue_seqs(&self, now: u64) -> (seqs: Vec<u32>)
        ensures
            seqs@.no_duplicates(),
            seqs@.to_set() == overdue(self@, now as int, self.timeout()),
    {
        let mut seqs: Vec<u32> = Vec::new();
        let ghost all = overdue(self@, now as int, self.timeout());
        for entry in it: self.in_flight.iter()
            invariant
                it.seq() == self.in_flight.iter().remaining(),
                it.seq().no_duplicates(),
                all == overdue(self@, now as int, self.timeout()),
                seqs@.no_duplicates(),
                forall|k: int|
                    0 <= k < seqs@.len() ==> all.contains(#[trigger] seqs@[k]) && seen(
                        it.seq(),
                        it.index() as int,
                        seqs@[k],
                    ),
                forall|j: int|
                    0 <= j < it.index() && all.contains(*(#[trigger] it.seq()[j]).0)
                        ==> seqs@.contains(*it.seq()[j].0),
        {
            let ghost before = seqs@;
            let ghost i = it.index() as int;
            assert(entry == it.seq()[i]);
            assert(self.in_flight@.contains_key(*it.seq()[i].0));
            assert(self.in_flight@[*it.seq()[i].0] == *it.seq()[i].1);
            let seq: u32 = *entry.0;
            assert(self@.batches[seq] == entry.1@);
            if now > entry.1.sent_at && now - entry.1.sent_at > self.timeout {
                assert(all.contains(seq));
                assert forall|k: int| 0 <= k < before.len() implies before[k] != seq by {
                    assert(seen(it.seq(), i, before[k]));
                    let j = choose|j: int| 0 <= j < i && *(#[trigger] it.seq()[j]).0 == before[k];
                    assert(self.in_flight@[*it.seq()[j].0] == *it.seq()[j].1);
                    if before[k] == seq {
                        assert(it.seq()[j] == it.seq()[i]);
                    }
                }
                seqs.push(seq);
                assert(seqs@[before.len() as int] == seq);
                assert forall|j: int|
                    0 <= j < i + 1 && all.contains(*(#[trigger] it.seq()[j]).0) implies seqs@.contains(
                    *it.seq()[j].0,
                ) by {
                    if j < i {
                        let k = choose|k: int| 0 <= k < before.len() && before[k] == *it.seq()[j].0;
                        assert(seqs@[k] == *it.seq()[j].0);
                    }
                }
            } else {
                assert(!all.contains(seq));
            }
            assert forall|k: int| 0 <= k < seqs@.len() implies seen(
                it.seq(),
                i + 1,
                #[trigger] seqs@[k],
            ) by {
                if k < before.len() {
                    assert(seen(it.seq(), i, before[k]));
                    let j = choose|j: int| 0 <= j < i && *(#[trigger] it.seq()[j]).0 == before[k];
                    assert(*it.seq()[j].0 == seqs@[k]);
                } else {
                    assert(*it.seq()[i].0 == seqs@[k]);
                }
            }
        }
        assert forall|seq: u32| all.contains(seq) implies seqs@.contains(seq) by {
            let items = self.in_flight.iter().remaining();
            assert(self.in_flight@.contains_key(seq));
            assert(items.contains((&seq, &self.in_flight@[seq])));
            let j = choose|j: int|
                0 <= j < items.len() && items[j] == (&seq, &self.in_flight@[seq]);
            assert(*items[j].0 == seq);
        }
        assert(seqs@.to_set() =~= all);
        seqs
    }

    /// Takes out the batches that count as lost at time `now`. They come in no
    /// particular order.
    pub fn take_expired(&mut self, now: u64) -> (lost: Vec<LostCells>)
        ensures
            final(self).timeout() == old(self).timeout(),
            final(self)@ == without_overdue(old(self)@, now as int, old(self).timeout()),
            exists|seqs: Seq<u32>|
                seqs.no_duplicates() && seqs.to_set() == overdue(
                    old(self)@,
                    now as int,
                    old(self).timeout(),
                ) && #[trigger] holds_batches(lost@, old(self)@, seqs),
    {
        let seqs: Vec<u32> = self.overdue_seqs(now);
        let ghost start = self.in_flight@;
        let ghost o = self@;
        let mut lost: Vec<LostCells> = Vec::new();
        let mut k: usize = 0;
        assert(seqs@.take(0).to_set() =~= Set::<u32>::empty());
        assert(start.remove_keys(Set::empty()) =~= start);
        while k < seqs.len()
            invariant
                k <= seqs@.len(),
                k == lost@.len(),
                self.timeout == old(self).timeout,
                self.next_seq == old(self).next_seq,
                start == old(self).in_flight@,
                o == old(self)@,
                o.batches == start.map_values(|f: InFlight| f@),
                seqs@.no_duplicates(),
                seqs@.to_set() == overdue(o, now as int, old(self).timeout()),
                self.in_flight@ == start.remove_keys(seqs@.take(k as int).to_set()),
                holds_batches(lost@, o, seqs@.take(k as int)),
            decreases seqs@.len() - k,
        {
            let seq: u32 = seqs[k];
            assert(seqs@.to_set().contains(seqs@[k as int]));
            assert(start.contains_key(seq));
            assert(!seqs@.take(k as int).contains(seq));
            let taken: Option<InFlight> = self.in_flight.remove(&seq);
            assert(taken is Some);
            assert(seqs@.take(k + 1) =~= seqs@.take(k as int).push(seq));
            assert(seqs@.take(k + 1).to_set() =~= seqs@.take(k as int).to_set().insert(seq)) by {
                assert(seqs@.take(k + 1)[k as int] == seq);
                assert forall|s: u32| seqs@.take(k as int).contains(s) implies seqs@.take(
                    k + 1,
                ).contains(s) by {
                    let j = choose|j: int| 0 <= j < k && seqs@.take(k as int)[j] == s;
                    assert(seqs@.take(k + 1)[j] == s);
                }
            }
            assert(self.in_flight@ =~= start.remove_keys(seqs@.take(k + 1).to_set()));
            match taken {
                Some(f) => {
                    lost.push((f.epoch, f.cells));
                },
                None => {},
            }
            assert forall|j: int| 0 <= j < lost@.len() implies (#[trigger] lost@[j]).0
                == o.batches[seqs@.take(k + 1)[j]].epoch && lost@[j].1@ == o.batches[seqs@.take(
                k + 1,
            )[j]].cells by {
                if j < k {
                    assert(seqs@.take(k as int)[j] == seqs@.take(k + 1)[j]);
                }
            }
            k += 1;
        }
        assert(seqs@.take(k as int) =~= seqs@);
        assert(self@.batches =~= without_overdue(o, now as int, old(self).timeout()).batches);
        lost
    }

    /// How many batches are on their way.
    pub fn in_flight(&self) -> (n: usize)
        ensures
            n == self@.batches.len(),
    {
        assert(self@.batches.dom() =~= self.in_flight@.dom());
        self.in_flight.len()
    }
}

/// An acknowledged batch is never reported as lost, however late one looks.
pub proof fn law_acknowledged_batches_never_expire(o: Outstanding, seq: u32, now: int, timeout: int)
    ensures
        !overdue(acknowledged(o, seq), now, timeout).contains(seq),
        forall|other: u32|
            other != seq ==> overdue(acknowledged(o, seq), now, timeout).contains(other) == overdue(
                o,
                now,
                timeout,
            ).contains(other),
{
}

/// A batch stays on its way up to the timeout and is lost right after it.
pub proof fn law_batch_is_lost_after_the_timeout(o: Outstanding, batch: Batch, now: int, timeout: int)
    ensures
        overdue(registered(o, batch), now, timeout).contains(seq_after(o.last_seq)) <==> now
            > batch.sent_at + timeout,
{
}

/// A lost batch is reported once: afterwards it is not on its way any more,
/// and all others still are.
pub proof fn law_lost_batches_are_reported_once(
    o: Outstanding,
    now: int,
    later: int,
    timeout: int,
    seq: u32,
)
    ensures
        overdue(o, now, timeout).contains(seq) ==> !overdue(
            without_overdue(o, now, timeout),
            later,
            timeout,
        ).contains(seq),
        o.batches.contains_key(seq) && !overdue(o, now, timeout).contains(seq)
            ==> without_overdue(o, now, timeout).batches.contains_key(seq) && without_overdue(
            o,
            now,
            timeout,
        ).batches[seq] == o.batches[seq],
{
}

/// An acknowledgement of a batch that is not on its way changes nothing.
pub proof fn law_late_acknowledgement_is_harmless(o: Outstanding, seq: u32)
    requires
        !o.batches.contains_key(seq),
    ensures
        acknowledged(o, seq) == o,
{
    assert(o.batches.remove(seq) =~= o.batches);
}

/// Sequence numbers count up by one and start over at zero.
pub proof fn law_numbers_count_up(o: Outstanding, batch: Batch)
    ensures
        registered(o, batch).last_seq == (o.last_seq + 1) % 0x1_0000_0000,
        registered(o, batch).batches[registered(o, batch).last_seq] == batch,
{
}

/// What is said of a frame that is too large for its header.
pub open spec fn too_large(width: u32, height: u32) -> Seq<char> {
    "Screen resolution "@ + decimal(width as nat) + "×"@ + decimal(height as nat)
        + " exceeds protocol limit"@
}

/// The packet that announces a frame size, or why there is none.
pub fn header_packet(width: u32, height: u32) -> (r: Result<Bytes>)
    ensures
        match r {
            Ok(packet) => width <= 0xffff && height <= 0xffff && contents(packet) == header_bytes(
                width as int,
                height as int,
            ),
            Err(e) => (width > 0xffff || height > 0xffff) && (e matches Error::WebRTC(text)
                && text@ == too_large(width, height)),
        },
{
    match encode_header(width, height) {
        Some(header) => {
            let mut bytes: Vec<u8> = Vec::new();
            bytes.extend_from_slice(&header);
            assert(bytes@ =~= header_bytes(width as int, height as int));
            Ok(share(bytes))
        },
        None => {
            let w: String = decimal_text(width as u64);
            let h: String = decimal_text(height as u64);
            let size: String = join("Screen resolution ", w.as_str());
            let size: String = join(size.as_str(), "×");
            let size: String = join(size.as_str(), h.as_str());
            let text: String = join(size.as_str(), " exceeds protocol limit");
            Err(Error::WebRTC(text))
        },
    }
}

/// Where a tile goes.
pub open spec fn place_of(tile: Tile) -> TileRect {
    TileRect { x: tile.x, y: tile.y, width: tile.width, height: tile.height }
}

/// The tiles of a frame that have encoded bytes beside them, as they are packed.
pub open spec fn packed_tiles(tiles: Seq<Tile>, encoded: Seq<Vec<u8>>) -> Seq<(TileRect, Seq<u8>)> {
    let n = if tiles.len() < encoded.len() { tiles.len() } else { encoded.len() };
    Seq::new(n, |k: int| (place_of(tiles[k]), encoded[k]@))
}

/// Whether every tile of a frame fits its packet's fields.
pub open spec fn sendable(frame: EncodedFrame) -> bool {
    &&& frame.tiles@.len() <= u32::MAX
    &&& forall|k: int|
        0 <= k < frame.tiles@.len() && k < frame.encoded@.len() ==> encodable(
            place_of(#[trigger] frame.tiles@[k]),
            frame.encoded@[k]@,
        )
}

/// Whether a frame can be put into packets. Frames of a size that has a header
/// packet can, unless an image is gigabytes long.
pub fn can_send(frame: &EncodedFrame) -> (b: bool)
    ensures
        b == sendable(*frame),
{
    if frame.tiles.len() as u64 > u32::MAX as u64 {
        return false;
    }
    let mut k: usize = 0;
    while k < frame.tiles.len() && k < frame.encoded.len()
        invariant
            k <= frame.tiles@.len(),
            frame.tiles@.len() <= u32::MAX,
            forall|j: int|
                0 <= j < k && j < frame.encoded@.len() ==> encodable(
                    place_of(#[trigger] frame.tiles@[j]),
                    frame.encoded@[j]@,
                ),
        decreases frame.tiles@.len() - k,
    {
        let t: &Tile = &frame.tiles[k];
        let len: usize = frame.encoded[k].len();
        if t.x > 0xffff || t.y > 0xffff || t.width > 0xffff || t.height > 0xffff || len as u64
            > u32::MAX as u64 - TILE_PREFIX as u64 {
            assert(!encodable(place_of(frame.tiles@[k as int]), frame.encoded@[k as int]@));
            return false;
        }
        k += 1;
    }
    true
}

/// The packets that carry tiles with their encoded bytes.
pub fn tile_packets(tiles: &Vec<Tile>, encoded: &Vec<Vec<u8>>) -> (packets: Vec<Bytes>)
    requires
        forall|k: int|
            0 <= k < tiles@.len() && k < encoded@.len() ==> encodable(
                place_of(#[trigger] tiles@[k]),
                encoded@[k]@,
            ),
    ensures
        all_contents(packets@) == packets_from(packed_tiles(tiles@, encoded@), 0),
{
    let mut parts: Vec<(TileRect, &[u8])> = Vec::new();
    let ghost values = packed_tiles(tiles@, encoded@);
    let mut k: usize = 0;
    while k < tiles.len() && k < encoded.len()
        invariant
            k <= tiles@.len(),
            k <= encoded@.len(),
            values == packed_tiles(tiles@, encoded@),
            tile_values(parts@) == values.take(k as int),
        decreases tiles@.len() - k,
    {
        let ghost before = parts@;
        let t: &Tile = &tiles[k];
        parts.push(
            (
                TileRect { x: t.x, y: t.y, width: t.width, height: t.height },
                encoded[k].as_slice(),
            ),
        );
        assert(tile_values(before).len() == k);
        assert(tile_values(parts@) =~= tile_values(before).push(
            (place_of(tiles@[k as int]), encoded@[k as int]@),
        ));
        assert(values.take(k + 1) =~= tile_values(before).push(values[k as int]));
        k += 1;
    }
    assert(values.take(k as int) =~= values);
    assert forall|j: int| 0 <= j < parts@.len() implies encodable(
        (#[trigger] parts@[j]).0,
        parts@[j].1@,
    ) by {
        assert(tile_values(parts@)[j] == values[j]);
        assert(encodable(place_of(tiles@[j]), encoded@[j]@));
    }
    pack_tiles(parts.as_slice())
}

/// The packets of one batch: its number and how many tiles follow, then the
/// tiles.
pub fn batch_packets(seq: u32, frame: &EncodedFrame) -> (packets: Vec<Bytes>)
    requires
        sendable(*frame),
    ensures
        all_contents(packets@) == seq![seq_bytes(seq as int, frame.tiles@.len() as int)]
            + packets_from(packed_tiles(frame.tiles@, frame.encoded@), 0),
{
    let head: [u8; 10] = encode_seq(seq, frame.tiles.len() as u32);
    let mut bytes: Vec<u8> = Vec::new();
    bytes.extend_from_slice(&head);
    assert(bytes@ =~= seq_bytes(seq as int, frame.tiles@.len() as int));
    let mut packets: Vec<Bytes> = Vec::new();
    packets.push(share(bytes));
    let mut rest: Vec<Bytes> = tile_packets(&frame.tiles, &frame.encoded);
    let ghost first = packets@;
    let ghost others = rest@;
    packets.append(&mut rest);
    assert(packets@ =~= first + others);
    assert(all_contents(packets@) =~= all_contents(first) + all_contents(others));
    assert(all_contents(first) =~= seq![seq_bytes(seq as int, frame.tiles@.len() as int)]);
    packets
}

/// How many bytes several images take.
pub open spec fn total_len(encoded: Seq<Vec<u8>>) -> nat
    decreases encoded.len(),
{
    if encoded.len() == 0 {
        0
    } else {
        total_len(encoded.drop_last()) + encoded.last()@.len()
    }
}

proof fn lemma_total_len_grows(encoded: Seq<Vec<u8>>, k: int)
    requires
        0 <= k <= encoded.len(),
    ensures
        total_len(encoded.take(k)) <= total_len(encoded),
    decreases encoded.len() - k,
{
    if k < encoded.len() {
        lemma_total_len_grows(encoded, k + 1);
        assert(encoded.take(k + 1).drop_last() =~= encoded.take(k));
    } else {
        assert(encoded.take(k) =~= encoded);
    }
}

/// How many bytes of images a frame holds.
pub fn image_bytes(frame: &EncodedFrame) -> (n: usize)
    requires
        total_len(frame.encoded@) <= usize::MAX,
    ensures
        n == total_len(frame.encoded@),
{
    let mut n: usize = 0;
    let mut k: usize = 0;
    assert(frame.encoded@.take(0) =~= Seq::empty());
    while k < frame.encoded.len()
        invariant
            k <= frame.encoded@.len(),
            n == total_len(frame.encoded@.take(k as int)),
            total_len(frame.encoded@) <= usize::MAX,
        decreases frame.encoded@.len() - k,
    {
        proof {
            lemma_total_len_grows(frame.encoded@, k + 1);
            assert(frame.encoded@.take(k + 1).drop_last() =~= frame.encoded@.take(k as int));
        }
        n = n + frame.encoded[k].len();
        k += 1;
    }
    assert(frame.encoded@.take(k as int) =~= frame.encoded@);
    n
}

/// Whether a report names a batch's grid and its cells.
pub open spec fn names_batch(report: LostCells, batch: Batch) -> bool {
    report.0 == batch.epoch && report.1@ == batch.cells
}

/// Whether a report names some batch that waits for longer than the timeout.
pub open spec fn names_lost_batch(report: LostCells, o: Outstanding, now: int, timeout: int) -> bool {
    exists|seq: u32|
        o.batches.contains_key(seq) && now - o.batches[seq].sent_at > timeout
            && #[trigger] names_batch(report, o.batches[seq])
}

/// What is reported is what got lost: for every batch that waits for longer than the
/// timeout there is a report with its grid and its cells, and there are no others.
pub proof fn law_reports_are_the_lost_batches(
    lost: Seq<LostCells>,
    o: Outstanding,
    seqs: Seq<u32>,
    now: int,
    timeout: int,
)
    requires
        seqs.no_duplicates(),
        seqs.to_set() == overdue(o, now, timeout),
        holds_batches(lost, o, seqs),
    ensures
        forall|seq: u32|
            o.batches.contains_key(seq) && now - (#[trigger] o.batches[seq]).sent_at > timeout
                ==> exists|k: int|
                0 <= k < lost.len() && names_batch(#[trigger] lost[k], o.batches[seq]),
        forall|k: int|
            0 <= k < lost.len() ==> names_lost_batch(#[trigger] lost[k], o, now, timeout),
        overdue(o, now, timeout).len() == lost.len(),
{
    seqs.unique_seq_to_set();
    assert forall|seq: u32|
        o.batches.contains_key(seq) && now - (#[trigger] o.batches[seq]).sent_at
            > timeout implies exists|k: int|
        0 <= k < lost.len() && names_batch(#[trigger] lost[k], o.batches[seq]) by {
        assert(overdue(o, now, timeout).contains(seq));
        assert(seqs.to_set().contains(seq));
        let k = choose|k: int| 0 <= k < seqs.len() && seqs[k] == seq;
        assert(names_batch(lost[k], o.batches[seq]));
    }
    assert forall|k: int| 0 <= k < lost.len() implies names_lost_batch(
        #[trigger] lost[k],
        o,
        now,
        timeout,
    ) by {
        assert(seqs.to_set().contains(seqs[k]));
        assert(overdue(o, now, timeout).contains(seqs[k]));
        assert(names_batch(lost[k], o.batches[seqs[k]]));
    }
}

/// A registered batch waits under a number of its own, next to all that waited before
/// under other numbers.
pub proof fn law_registered_batch_waits_beside_the_others(o: Outstanding, batch: Batch, other: u32)
    ensures
        ({
            let next = registered(o, batch);
            &&& next.last_seq != o.last_seq
            &&& next.batches.contains_key(next.last_seq)
            &&& next.batches[next.last_seq] == batch
            &&& other != next.last_seq ==> (next.batches.contains_key(other)
                <==> o.batches.contains_key(other))
            &&& other != next.last_seq && o.batches.contains_key(other) ==> next.batches[other]
                == o.batches[other]
        }),
{
}

/// A client that reads the packets of a frame gets each tile that has an image: where it
/// goes, how large it is, and the image, in the frame's order.
pub proof fn law_client_reads_the_frame(frame: EncodedFrame, k: int)
    requires
        sendable(frame),
        0 <= k < frame.tiles@.len(),
        k < frame.encoded@.len(),
    ensures
        ({
            let read = all_unpacked(packets_from(packed_tiles(frame.tiles@, frame.encoded@), 0));
            let tile = frame.tiles@[k];
            &&& k < read.len() <= frame.tiles@.len()
            &&& read.len() <= frame.encoded@.len()
            &&& read[k].0.x == tile.x
            &&& read[k].0.y == tile.y
            &&& read[k].0.width == tile.width
            &&& read[k].0.height == tile.height
            &&& read[k].1 == frame.encoded@[k]@
        }),
{
    let packed = packed_tiles(frame.tiles@, frame.encoded@);
    assert forall|j: int| 0 <= j < packed.len() implies encodable(
        (#[trigger] packed[j]).0,
        packed[j].1,
    ) by {
        assert(encodable(place_of(frame.tiles@[j]), frame.encoded@[j]@));
    }
    law_packets_hold_the_tiles(packed, 0);
    assert(packed.subrange(0, packed.len() as int) =~= packed);
}

/// A frame whose sides fit sixteen bits can be sent, unless it has billions of tiles or
/// an image of four gigabytes.
pub proof fn law_ordinary_frames_can_be_sent(frame: EncodedFrame)
    requires
        frame.tiles@.len() <= u32::MAX,
        forall|k: int|
            0 <= k < frame.tiles@.len() ==> {
                let tile = #[trigger] frame.tiles@[k];
                &&& tile.x + tile.width <= 0xffff
                &&& tile.y + tile.height <= 0xffff
            },
        forall|k: int|
            0 <= k < frame.encoded@.len() ==> (#[trigger] frame.encoded@[k])@.len() + 8 <= u32::MAX,
    ensures
        sendable(frame),
{
    assert forall|k: int| 0 <= k < frame.tiles@.len() && k < frame.encoded@.len() implies encodable(
        place_of(#[trigger] frame.tiles@[k]),
        frame.encoded@[k]@,
    ) by {
        let image = frame.encoded@[k];
    }
}

/// The bytes of several images are those of the first ones and those of the rest.
pub proof fn law_image_bytes_add_up(first: Seq<Vec<u8>>, rest: Seq<Vec<u8>>, one: Vec<u8>)
    ensures
        total_len(first + rest) == total_len(first) + total_len(rest),
        total_len(seq![one]) == one@.len(),
        total_len(Seq::empty()) == 0,
    decreases rest.len(),
{
    assert(seq![one].drop_last() =~= Seq::<Vec<u8>>::empty());
    assert(total_len(seq![one].drop_last()) == 0);
    if rest.len() > 0 {
        law_image_bytes_add_up(first, rest.drop_last(), one);
        assert((first + rest).drop_last() =~= first + rest.drop_last());
    } else {
        assert(first + rest =~= first);
    }
}

} // verus!
