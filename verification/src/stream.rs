//! The sending side of one streaming session: what goes out for each frame,
//! and which cells have to be sent again.

use crate::error::{Error, Result};
use crate::pipeline::EncodedFrame;
use crate::protocol::{
    all_contents, all_unpacked, contents, header_bytes, law_header_layout, law_sequence_layout,
    packets_from, reads16, reads32, seq_bytes,
};
use crate::transport::{
    acknowledged, batch_packets, header_packet, holds_batches, image_bytes,
    law_client_reads_the_frame, overdue, packed_tiles,
    registered, sendable, seq_after, too_large, total_len, without_overdue, AckTracker, Batch,
    LostCells, Outstanding, ACK_TIMEOUT,
};
use bytes::Bytes;
use vstd::prelude::*;

verus! {

/// How often lost batches are looked for while no frame comes, in nanoseconds:
/// 50 ms. Without this, a batch lost right before the screen went static would
/// never be sent again.
pub const ACK_POLL: u64 = 50_000_000;

/// What is on its way after several acknowledgements.
pub open spec fn acknowledged_all(o: Outstanding, seqs: Seq<u32>) -> Outstanding
    decreases seqs.len(),
{
    if seqs.len() == 0 {
        o
    } else {
        acknowledged(acknowledged_all(o, seqs.drop_last()), seqs.last())
    }
}

/// What goes out for a frame.
pub struct Outgoing {
    /// The packet that announces the frame's size, to be sent first.
    pub header: Option<Bytes>,
    /// The packets of the frame's tiles, in order.
    pub packets: Vec<Bytes>,
    /// How many bytes of images they hold.
    pub bytes: usize,
}

/// Whether a frame's size, where it is announced, fits its packet.
pub open spec fn header_fits(frame: EncodedFrame) -> bool {
    match frame.header {
        Some((width, height)) => width <= 0xffff && height <= 0xffff,
        None => true,
    }
}

/// What is on its way once a frame has gone out: a frame without tiles makes
/// no batch.
pub open spec fn after_frame(o: Outstanding, frame: EncodedFrame, now: int) -> Outstanding {
    if frame.tiles@.len() == 0 {
        o
    } else {
        registered(
            o,
            Batch { sent_at: now, epoch: frame.epoch, cells: frame.ack_indices@ },
        )
    }
}

/// Whether these are the packets for a frame, given what was on its way before.
pub open spec fn is_outgoing(out: Outgoing, o: Outstanding, frame: EncodedFrame) -> bool {
    &&& match frame.header {
        Some((width, height)) => out.header matches Some(packet) && contents(packet)
            == header_bytes(width as int, height as int),
        None => out.header is None,
    }
    &&& if frame.tiles@.len() == 0 {
        &&& out.packets@ == Seq::<Bytes>::empty()
        &&& out.bytes == 0
    } else {
        &&& all_contents(out.packets@) == seq![
            seq_bytes(seq_after(o.last_seq) as int, frame.tiles@.len() as int),
        ] + packets_from(packed_tiles(frame.tiles@, frame.encoded@), 0)
        &&& out.bytes == total_len(frame.encoded@)
    }
}

/// The sending side of one session.
pub struct SendLoop {
    acks: AckTracker,
}

impl View for SendLoop {
    type V = Outstanding;

    closed spec fn view(&self) -> Outstanding {
        self.acks@
    }
}

impl SendLoop {
    /// Nothing was sent yet.
    pub fn new() -> (s: Self)
        ensures
            s@ == (Outstanding { last_seq: 0, batches: Map::empty() }),
            s.waits_for() == ACK_TIMEOUT,
    {
        SendLoop { acks: AckTracker::new(ACK_TIMEOUT) }
    }

    /// How long a batch may stay unacknowledged, in nanoseconds.
    pub closed spec fn waits_for(&self) -> int {
        self.acks.timeout()
    }

    /// Takes in the acknowledgements that came, and gives the cells of the
    /// batches that are lost by now.
    pub fn wake(&mut self, acked: &Vec<u32>, now: u64) -> (lost: Vec<LostCells>)
        ensures
            final(self).waits_for() == old(self).waits_for(),
            final(self)@ == without_overdue(
                acknowledged_all(old(self)@, acked@),
                now as int,
                old(self).waits_for(),
            ),
            exists|seqs: Seq<u32>|
                seqs.no_duplicates() && seqs.to_set() == overdue(
                    acknowledged_all(old(self)@, acked@),
                    now as int,
                    old(self).waits_for(),
                ) && #[trigger] holds_batches(
                    lost@,
                    acknowledged_all(old(self)@, acked@),
                    seqs,
                ),
    {
        let mut k: usize = 0;
        assert(acked@.take(0) =~= Seq::<u32>::empty());
        while k < acked.len()
            invariant
                k <= acked@.len(),
                self.acks.timeout() == old(self).acks.timeout(),
                self.acks@ == acknowledged_all(old(self)@, acked@.take(k as int)),
            decreases acked@.len() - k,
        {
            assert(acked@.take(k + 1).drop_last() =~= acked@.take(k as int));
            self.acks.ack(acked[k]);
            k += 1;
        }
        assert(acked@.take(k as int) =~= acked@);
        self.acks.take_expired(now)
    }

    /// Notes a frame that is about to be sent, and gives its packets. A frame
    /// whose size does not fit its packet is not sent at all.
    pub fn send(&mut self, frame: &EncodedFrame, cells: Vec<usize>, now: u64) -> (r: Result<Outgoing>)
        requires
            cells@ == frame.ack_indices@,
            header_fits(*frame) ==> sendable(*frame),
            total_len(frame.encoded@) <= usize::MAX,
        ensures
            final(self).waits_for() == old(self).waits_for(),
            r is Ok <==> header_fits(*frame),
            r matches Ok(out) ==> is_outgoing(out, old(self)@, *frame),
            r is Ok ==> final(self)@ == after_frame(old(self)@, *frame, now as int),
            r is Err ==> final(self)@ == old(self)@,
            r matches Err(e) ==> (e matches Error::WebRTC(text) && (frame.header matches Some(size)
                && text@ == too_large(size.0, size.1))),
    {
        let header: Option<Bytes> = match frame.header {
            Some((width, height)) => match header_packet(width, height) {
                Ok(packet) => Some(packet),
                Err(e) => {
                    return Err(e);
                },
            },
            None => None,
        };
        if frame.tiles.len() == 0 {
            let packets: Vec<Bytes> = Vec::new();
            return Ok(Outgoing { header, packets, bytes: 0 });
        }
        let seq: u32 = self.acks.register(frame.epoch, cells, now);
        let packets: Vec<Bytes> = batch_packets(seq, frame);
        let bytes: usize = image_bytes(frame);
        Ok(Outgoing { header, packets, bytes })
    }

    /// How many batches are on their way.
    pub fn in_flight(&self) -> (n: usize)
        ensures
            n == self@.batches.len(),
    {
        self.acks.in_flight()
    }
}

/// A batch that was sent and is not acknowledged is handed back, with exactly
/// the cells of its frame, at the first look after the timeout.
pub proof fn law_lost_frame_gives_its_cells_back(
    o: Outstanding,
    frame: EncodedFrame,
    sent: int,
    now: int,
    timeout: int,
)
    requires
        frame.tiles@.len() > 0,
        now > sent + timeout,
    ensures
        ({
            let after = after_frame(o, frame, sent);
            let seq = seq_after(o.last_seq);
            &&& overdue(after, now, timeout).contains(seq)
            &&& after.batches[seq].cells == frame.ack_indices@
            &&& after.batches[seq].epoch == frame.epoch
        }),
{
}

/// A batch that was acknowledged in time is not handed back.
pub proof fn law_acknowledged_frame_is_not_sent_again(
    o: Outstanding,
    frame: EncodedFrame,
    sent: int,
    now: int,
    timeout: int,
)
    ensures
        !overdue(
            acknowledged(after_frame(o, frame, sent), seq_after(o.last_seq)),
            now,
            timeout,
        ).contains(seq_after(o.last_seq)),
{
}

/// Acknowledged batches are on their way no more; all others are, as they were.
pub proof fn law_only_acknowledged_batches_are_settled(o: Outstanding, seqs: Seq<u32>, seq: u32)
    ensures
        acknowledged_all(o, seqs).last_seq == o.last_seq,
        acknowledged_all(o, seqs).batches.contains_key(seq) <==> o.batches.contains_key(seq)
            && !seqs.contains(seq),
        o.batches.contains_key(seq) && !seqs.contains(seq) ==> acknowledged_all(
            o,
            seqs,
        ).batches[seq] == o.batches[seq],
    decreases seqs.len(),
{
    if seqs.len() > 0 {
        let before = seqs.drop_last();
        law_only_acknowledged_batches_are_settled(o, before, seq);
        if before.contains(seq) {
            let k = choose|k: int| 0 <= k < before.len() && before[k] == seq;
            assert(seqs[k] == seq);
        }
        if seqs.contains(seq) && seqs.last() != seq {
            let k = choose|k: int| 0 <= k < seqs.len() && seqs[k] == seq;
            assert(before[k] == seq);
        }
        assert(seqs.last() == seq ==> seqs.contains(seq));
    }
}

/// What a client gets of a frame: its size first where it is announced; then, if it has
/// tiles, the batch number that the tracker waits for and how many tiles follow, and then
/// those tiles with their images.
pub proof fn law_client_gets_the_frame(out: Outgoing, o: Outstanding, frame: EncodedFrame, now: int)
    requires
        is_outgoing(out, o, frame),
        sendable(frame),
        frame.encoded@.len() == frame.tiles@.len(),
    ensures
        out.header is Some <==> frame.header is Some,
        frame.header matches Some((width, height)) ==> width <= 0xffff && height <= 0xffff
            ==> reads16(contents(out.header->0), 2, width as int) && reads16(
            contents(out.header->0),
            4,
            height as int,
        ),
        frame.tiles@.len() == 0 ==> out.packets@.len() == 0,
        frame.tiles@.len() > 0 ==> {
            let packets = all_contents(out.packets@);
            let read = all_unpacked(packets.skip(1));
            &&& packets.len() >= 1
            &&& reads32(packets[0], 2, after_frame(o, frame, now).last_seq as int)
            &&& reads32(packets[0], 6, frame.tiles@.len() as int)
            &&& after_frame(o, frame, now).batches.contains_key(
                after_frame(o, frame, now).last_seq,
            )
            &&& read.len() == frame.tiles@.len()
            &&& forall|k: int|
                0 <= k < read.len() ==> (#[trigger] read[k]).0.x == frame.tiles@[k].x
                    && read[k].0.y == frame.tiles@[k].y && read[k].0.width == frame.tiles@[k].width
                    && read[k].0.height == frame.tiles@[k].height && read[k].1
                    == frame.encoded@[k]@
        },
{
    match frame.header {
        Some((width, height)) => {
            if width <= 0xffff && height <= 0xffff {
                law_header_layout(width as int, height as int);
            }
        },
        None => {},
    }
    if frame.tiles@.len() > 0 {
        let seq = seq_after(o.last_seq);
        let packets = all_contents(out.packets@);
        let tail = packets_from(packed_tiles(frame.tiles@, frame.encoded@), 0);
        law_sequence_layout(seq as int, frame.tiles@.len() as int);
        assert(packets.skip(1) =~= tail);
        assert(packets[0] == seq_bytes(seq as int, frame.tiles@.len() as int));
        let read = all_unpacked(tail);
        law_client_reads_the_frame(frame, 0);
        law_client_reads_the_frame(frame, frame.tiles@.len() - 1);
        assert forall|k: int| 0 <= k < read.len() implies (#[trigger] read[k]).0.x
            == frame.tiles@[k].x && read[k].0.y == frame.tiles@[k].y && read[k].0.width
            == frame.tiles@[k].width && read[k].0.height == frame.tiles@[k].height && read[k].1
            == frame.encoded@[k]@ by {
            law_client_reads_the_frame(frame, k);
        }
    }
}

/// A batch is given up 150 milliseconds after it was sent, unless it is acknowledged; a
/// frame without tiles is never waited for.
pub proof fn law_batches_are_given_up_in_time(o: Outstanding, frame: EncodedFrame, sent: int, now: int)
    ensures
        frame.tiles@.len() == 0 ==> after_frame(o, frame, sent) == o,
        frame.tiles@.len() > 0 ==> (overdue(
            after_frame(o, frame, sent),
            now,
            ACK_TIMEOUT as int,
        ).contains(seq_after(o.last_seq)) <==> now - sent > 150_000_000),
{
}

} // verus!
