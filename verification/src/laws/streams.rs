//! Streams: what a segment does to one, and which bytes of one are packets.

use vstd::prelude::*;
use crate::format::{entry_is_for, PacketFormat};
use crate::frame::{
    frame_segment, segment_of, timestamp, Address, FrameView, NetLayer, SegmentView, StreamKey,
    TcpFields,
};
use crate::reassembly::{bytes_of, is_packet, is_unfinished, joined, joined_packets_are_read};
use crate::search::{
    first_from, first_from_at, first_from_is_least, last_below, last_below_is_greatest,
};
use crate::stream::{
    after_frames, after_segment, event_start, packets_of, split_from, with_segment, RuleView,
    StreamView,
};

verus! {

/// A segment that starts where the stream ends is appended, whole and as it is, under every
/// rule.
pub proof fn data_in_order_is_appended(state: StreamView, rule: RuleView, payload: Seq<u8>)
    ensures
        with_segment(state, rule, state.next_seq, payload).buffer == state.buffer + payload,
        with_segment(state, rule, state.next_seq, payload).next_seq == (state.next_seq
            + payload.len()) % 0x1_0000_0000,
{
}

/// A segment that lies ahead of what is expected, by up to half the number space, is all that
/// the stream holds afterwards, whatever it held before, and the stream goes on behind it.
pub proof fn a_gap_starts_the_stream_anew(
    state: StreamView,
    rule: RuleView,
    seq: u32,
    payload: Seq<u8>,
)
    requires
        1 <= (seq - state.next_seq) % 0x1_0000_0000 <= 0x7FFF_FFFF,
    ensures
        with_segment(state, rule, seq, payload).buffer == payload,
        with_segment(state, rule, seq, payload).next_seq == (seq + payload.len()) % 0x1_0000_0000,
{
}

/// Of a segment that lies behind, by up to half the number space, what is there already is
/// skipped and the rest is appended. A segment with nothing new changes nothing.
pub proof fn repeated_data_is_skipped(
    state: StreamView,
    rule: RuleView,
    seq: u32,
    payload: Seq<u8>,
)
    requires
        !(rule is Bytewise),
        1 <= (state.next_seq - seq) % 0x1_0000_0000 <= 0x8000_0000,
    ensures
        ({
            let known = (state.next_seq - seq) % 0x1_0000_0000;
            let after = with_segment(state, rule, seq, payload);
            &&& payload.len() <= known ==> after == state
            &&& payload.len() > known ==> {
                &&& after.buffer == state.buffer + payload.subrange(known, payload.len() as int)
                &&& after.next_seq == (seq + payload.len()) % 0x1_0000_0000
            }
        }),
{
}

/// Under the bytewise rule every segment that does not continue the stream starts it anew.
pub proof fn bytewise_streams_start_anew(state: StreamView, seq: u32, payload: Seq<u8>)
    requires
        seq != state.next_seq,
    ensures
        with_segment(state, RuleView::Bytewise, seq, payload).buffer == payload,
        with_segment(state, RuleView::Bytewise, seq, payload).next_seq == (seq + payload.len())
            % 0x1_0000_0000,
{
}

/// A packet whose bytes are all there, 5 to 1000 of them by the number that it starts with,
/// is cut off as it is, and reading goes on behind it.
pub proof fn a_whole_packet_is_cut_off(buffer: Seq<u8>, rule: RuleView, i: int)
    requires
        0 <= i,
        i + 5 <= buffer.len(),
        5 <= buffer[i] + 256 * buffer[i + 1] <= 1000,
        i + buffer[i] + 256 * buffer[i + 1] <= buffer.len(),
    ensures
        ({
            let end = i + buffer[i] + 256 * buffer[i + 1];
            &&& split_from(buffer, rule, i).0 == seq![buffer.subrange(i, end)] + split_from(
                buffer,
                rule,
                end,
            ).0
            &&& split_from(buffer, rule, i).1 == split_from(buffer, rule, end).1
        }),
{
}

/// Fewer than five bytes, and a packet of which bytes are missing, are kept for later.
pub proof fn unfinished_data_is_kept(buffer: Seq<u8>, rule: RuleView, i: int)
    requires
        0 <= i <= buffer.len(),
        i + 5 > buffer.len() || (5 <= buffer[i] + 256 * buffer[i + 1] <= 1000 && i + buffer[i] + 256
            * buffer[i + 1] > buffer.len()),
    ensures
        split_from(buffer, rule, i).0.len() == 0,
        split_from(buffer, rule, i).1 == i,
{
}

/// Whether an unencrypted packet of 300 to 400 bytes can start at an index, by its length and
/// the byte behind that.
pub open spec fn looks_like_an_event(buffer: Seq<u8>, i: int) -> bool {
    300 <= buffer[i] + 256 * buffer[i + 1] <= 400 && buffer[i + 2] == 0
}

/// Whether one of some formats is for a packet with the length and opcode at an index.
pub open spec fn has_format(formats: Seq<PacketFormat>, buffer: Seq<u8>, i: int) -> bool {
    exists|k: int|
        0 <= k < formats.len() && (#[trigger] formats[k]).packet_len == buffer[i] + 256 * buffer[i
            + 1] && formats[k].opcode == buffer[i + 3] + 256 * buffer[i + 4]
}

/// Whether reading may go on at an index behind data that is no packet.
pub open spec fn may_go_on(buffer: Seq<u8>, rule: RuleView, i: int) -> bool {
    looks_like_an_event(buffer, i) && match rule {
        RuleView::Known(formats) => has_format(formats, buffer, i),
        _ => true,
    }
}

/// What reading goes on at is what looks like an event packet, of a known format where
/// formats are known.
proof fn event_start_is_plain(buffer: Seq<u8>, rule: RuleView, i: int)
    requires
        !(rule is Bytewise),
        0 <= i,
        i + 5 <= buffer.len(),
    ensures
        event_start(buffer, rule)(i) == may_go_on(buffer, rule, i),
{
    match rule {
        RuleView::Known(formats) => {
            let opcode = (buffer[i + 3] + 256 * buffer[i + 4]) as u16;
            let len = buffer[i] + 256 * buffer[i + 1];
            let p = entry_is_for(formats, opcode, len);
            last_below_is_greatest(p, formats.len() as int);
            match last_below(p, formats.len() as int) {
                Some(k) => {
                    assert(p(k));
                    if looks_like_an_event(buffer, i) {
                        assert(formats[k].packet_len == len);
                    }
                },
                None => {
                    assert forall|k: int| 0 <= k < formats.len() implies !(
                    (#[trigger] formats[k]).packet_len == len && formats[k].opcode == opcode) by {
                        assert(!p(k));
                    }
                },
            }
        },
        _ => {},
    }
}

/// Where a length is below 5 or above 1000, reading goes on at the next place that looks like
/// an event packet, of a known format where formats are known.
pub proof fn reading_goes_on_at_the_next_event(buffer: Seq<u8>, rule: RuleView, i: int, k: int)
    requires
        !(rule is Bytewise),
        0 <= i < k,
        k + 5 < buffer.len(),
        buffer[i] + 256 * buffer[i + 1] < 5 || buffer[i] + 256 * buffer[i + 1] > 1000,
        may_go_on(buffer, rule, k),
        forall|j: int| i < j < k ==> !#[trigger] may_go_on(buffer, rule, j),
    ensures
        split_from(buffer, rule, i) == split_from(buffer, rule, k),
{
    let p = event_start(buffer, rule);
    event_start_is_plain(buffer, rule, k);
    assert forall|j: int| i + 1 <= j < k implies !#[trigger] p(j) by {
        event_start_is_plain(buffer, rule, j);
        assert(!may_go_on(buffer, rule, j));
    }
    first_from_at(p, i + 1, k, buffer.len() - 5);
}

/// Where a length is below 5 or above 1000 and nothing behind it looks like an event packet,
/// of a known format where formats are known, the data is dropped.
pub proof fn data_without_an_event_is_dropped(buffer: Seq<u8>, rule: RuleView, i: int)
    requires
        !(rule is Bytewise),
        0 <= i,
        i + 5 <= buffer.len(),
        buffer[i] + 256 * buffer[i + 1] < 5 || buffer[i] + 256 * buffer[i + 1] > 1000,
        forall|j: int| i < j && j + 5 < buffer.len() ==> !#[trigger] may_go_on(buffer, rule, j),
    ensures
        split_from(buffer, rule, i).0.len() == 0,
        split_from(buffer, rule, i).1 == buffer.len(),
{
    let p = event_start(buffer, rule);
    first_from_is_least(p, i + 1, buffer.len() - 5);
    match first_from(p, i + 1, buffer.len() - 5) {
        Some(j) => {
            event_start_is_plain(buffer, rule, j);
            assert(!may_go_on(buffer, rule, j));
        },
        None => {},
    }
}

/// Under the bytewise rule, reading goes on at the byte behind a length below 5 or above
/// 1000.
pub proof fn bytewise_reading_tries_the_next_byte(buffer: Seq<u8>, i: int)
    requires
        0 <= i,
        i + 5 <= buffer.len(),
        buffer[i] + 256 * buffer[i + 1] < 5 || buffer[i] + 256 * buffer[i + 1] > 1000,
    ensures
        split_from(buffer, RuleView::Bytewise, i) == split_from(
            buffer,
            RuleView::Bytewise,
            i + 1,
        ),
{
}

/// The first segment of a stream opens it: the packets in the segment come out, whatever its
/// sequence number is, and what is unfinished is kept.
pub proof fn the_first_segment_opens_a_stream(
    streams: Map<StreamKey, StreamView>,
    rule: RuleView,
    segment: SegmentView,
    packets: Seq<Seq<u8>>,
    tail: Seq<u8>,
)
    requires
        !streams.dom().contains(segment.key),
        segment.payload == joined(packets) + tail,
        forall|k: int| 0 <= k < packets.len() ==> is_packet(#[trigger] packets[k]),
        is_unfinished(tail),
    ensures
        after_segment(streams, rule, segment).1 == packets,
        after_segment(streams, rule, segment).0[segment.key].buffer == tail,
        after_segment(streams, rule, segment).0[segment.key].next_seq == (segment.seq
            + segment.payload.len()) % 0x1_0000_0000,
        after_segment(streams, rule, segment).0.dom() == streams.dom().insert(segment.key),
{
    joined_packets_are_read(seq![], packets, tail, rule);
    assert(Seq::<u8>::empty() + joined(packets) + tail =~= segment.payload);
    assert(Seq::<u8>::empty() + segment.payload =~= segment.payload);
    assert(segment.payload.skip(joined(packets).len() as int) =~= tail);
    assert(after_segment(streams, rule, segment).0.dom() =~= streams.dom().insert(segment.key));
}

/// Behind a lost segment, the packets that a segment carries come out, whatever was pending,
/// and what is unfinished is kept.
pub proof fn packets_behind_a_gap_come_out(
    streams: Map<StreamKey, StreamView>,
    rule: RuleView,
    segment: SegmentView,
    packets: Seq<Seq<u8>>,
    tail: Seq<u8>,
)
    requires
        streams.dom().contains(segment.key),
        1 <= (segment.seq - streams[segment.key].next_seq) % 0x1_0000_0000 <= 0x7FFF_FFFF,
        segment.payload == joined(packets) + tail,
        forall|k: int| 0 <= k < packets.len() ==> is_packet(#[trigger] packets[k]),
        is_unfinished(tail),
    ensures
        after_segment(streams, rule, segment).1 == packets,
        after_segment(streams, rule, segment).0[segment.key].buffer == tail,
        after_segment(streams, rule, segment).0[segment.key].next_seq == (segment.seq
            + segment.payload.len()) % 0x1_0000_0000,
{
    joined_packets_are_read(seq![], packets, tail, rule);
    assert(Seq::<u8>::empty() + joined(packets) + tail =~= segment.payload);
    assert(segment.payload.skip(joined(packets).len() as int) =~= tail);
}

/// A segment touches no stream but its own.
pub proof fn other_streams_are_left_alone(
    streams: Map<StreamKey, StreamView>,
    rule: RuleView,
    segment: SegmentView,
    other: StreamKey,
)
    requires
        other != segment.key,
    ensures
        ({
            let after = after_segment(streams, rule, segment).0;
            &&& after.dom().contains(other) == streams.dom().contains(other)
            &&& streams.dom().contains(other) ==> after[other] == streams[other]
        }),
{
}

/// What a segment completes is cut off the front of its stream, with it added, and what is left
/// behind the last packet is kept.
pub proof fn completed_packets_leave_the_stream(
    streams: Map<StreamKey, StreamView>,
    rule: RuleView,
    segment: SegmentView,
)
    requires
        streams.dom().contains(segment.key),
    ensures
        ({
            let state = with_segment(
                streams[segment.key],
                rule,
                segment.seq,
                segment.payload,
            );
            let (after, packets) = after_segment(streams, rule, segment);
            let (cut, rest) = split_from(state.buffer, rule, 0);
            &&& packets == cut
            &&& after[segment.key].next_seq == state.next_seq
            &&& after[segment.key].buffer == state.buffer.skip(rest)
        }),
{
}

/// The packets that come out of a capture with one more frame are those from before and those
/// that the frame's segment completes, in this order.
pub proof fn a_frame_adds_what_its_segment_completes(
    frames: Seq<FrameView>,
    frame: FrameView,
    rule: RuleView,
)
    ensures
        ({
            let before = bytes_of(packets_of(frames, rule));
            let after = bytes_of(packets_of(frames.push(frame), rule));
            let streams = after_frames(frames, rule).0;
            match frame_segment(frame.data) {
                Some(segment) => after == before + after_segment(streams, rule, segment).1,
                None => after == before,
            }
        }),
        packets_of(seq![], rule).len() == 0,
{
    let all = frames.push(frame);
    assert(all.drop_last() =~= frames);
    let before = bytes_of(packets_of(frames, rule));
    match frame_segment(frame.data) {
        Some(segment) => {
            let streams = after_frames(frames, rule).0;
            assert(bytes_of(packets_of(all, rule)) =~= before + after_segment(
                streams,
                rule,
                segment,
            ).1);
        },
        None => {
            assert(bytes_of(packets_of(all, rule)) =~= before);
        },
    }
}

/// Packets that several segments carry, one list behind the other.
pub open spec fn all_of(sent: Seq<Seq<Seq<u8>>>) -> Seq<Seq<u8>>
    decreases sent.len(),
{
    if sent.len() == 0 {
        seq![]
    } else {
        all_of(sent.drop_last()) + sent.last()
    }
}

/// Whether a frame carries whole packets of a stream, at a sequence number.
pub open spec fn carries_packets(
    frame: FrameView,
    key: StreamKey,
    seq: u32,
    packets: Seq<Seq<u8>>,
) -> bool {
    &&& frame_segment(frame.data) == Some(SegmentView { key, seq, payload: joined(packets) })
    &&& forall|k: int| 0 <= k < packets.len() ==> is_packet(#[trigger] packets[k])
}

/// The sequence number that a stream expects behind a segment of whole packets.
pub open spec fn expected_behind(seq: u32, packets: Seq<Seq<u8>>) -> u32 {
    ((seq + joined(packets).len()) % 0x1_0000_0000) as u32
}

/// A lost segment loses what it carried and nothing else: where later segments carry whole
/// packets, the first of them behind a gap and each of the others in order or behind another
/// gap, all of their packets come out, behind those that came out before.
pub proof fn a_gap_loses_only_what_was_lost(
    frames: Seq<FrameView>,
    later: Seq<FrameView>,
    key: StreamKey,
    rule: RuleView,
    seqs: Seq<u32>,
    sent: Seq<Seq<Seq<u8>>>,
)
    requires
        after_frames(frames, rule).0.dom().contains(key),
        later.len() == seqs.len(),
        later.len() == sent.len(),
        forall|k: int|
            #![trigger later[k]]
            0 <= k < later.len() ==> carries_packets(later[k], key, seqs[k], sent[k]),
        later.len() > 0 ==> 1 <= (seqs[0] - after_frames(frames, rule).0[key].next_seq)
            % 0x1_0000_0000 <= 0x7FFF_FFFF,
        forall|k: int|
            #![trigger seqs[k]]
            0 < k < later.len() ==> (seqs[k] - expected_behind(seqs[k - 1], sent[k - 1]))
                % 0x1_0000_0000 <= 0x7FFF_FFFF,
    ensures
        bytes_of(packets_of(frames + later, rule)) == bytes_of(packets_of(frames, rule)) + all_of(
            sent,
        ),
{
    later_packets_come_out(frames, later, key, rule, seqs, sent);
}

proof fn later_packets_come_out(
    frames: Seq<FrameView>,
    later: Seq<FrameView>,
    key: StreamKey,
    rule: RuleView,
    seqs: Seq<u32>,
    sent: Seq<Seq<Seq<u8>>>,
)
    requires
        after_frames(frames, rule).0.dom().contains(key),
        later.len() == seqs.len(),
        later.len() == sent.len(),
        forall|k: int|
            #![trigger later[k]]
            0 <= k < later.len() ==> carries_packets(later[k], key, seqs[k], sent[k]),
        later.len() > 0 ==> 1 <= (seqs[0] - after_frames(frames, rule).0[key].next_seq)
            % 0x1_0000_0000 <= 0x7FFF_FFFF,
        forall|k: int|
            #![trigger seqs[k]]
            0 < k < later.len() ==> (seqs[k] - expected_behind(seqs[k - 1], sent[k - 1]))
                % 0x1_0000_0000 <= 0x7FFF_FFFF,
    ensures
        bytes_of(packets_of(frames + later, rule)) == bytes_of(packets_of(frames, rule)) + all_of(
            sent,
        ),
        after_frames(frames + later, rule).0.dom().contains(key),
        later.len() > 0 ==> after_frames(frames + later, rule).0[key] == (StreamView {
            buffer: seq![],
            next_seq: expected_behind(seqs.last(), sent.last()),
        }),
    decreases later.len(),
{
    let n = later.len() as int;
    if n == 0 {
        assert(frames + later =~= frames);
        assert(bytes_of(packets_of(frames, rule)) + all_of(sent) =~= bytes_of(
            packets_of(frames, rule),
        ));
    } else {
        let before = later.drop_last();
        assert forall|k: int|
            #![trigger before[k]]
            0 <= k < before.len() implies carries_packets(
            before[k],
            key,
            seqs.drop_last()[k],
            sent.drop_last()[k],
        ) by {
            assert(carries_packets(later[k], key, seqs[k], sent[k]));
        }
        assert forall|k: int|
            #![trigger seqs.drop_last()[k]]
            0 < k < before.len() implies (seqs.drop_last()[k] - expected_behind(
            seqs.drop_last()[k - 1],
            sent.drop_last()[k - 1],
        )) % 0x1_0000_0000 <= 0x7FFF_FFFF by {
            assert((seqs[k] - expected_behind(seqs[k - 1], sent[k - 1])) % 0x1_0000_0000
                <= 0x7FFF_FFFF);
        }
        later_packets_come_out(frames, before, key, rule, seqs.drop_last(), sent.drop_last());
        let all = frames + later;
        assert(all.drop_last() =~= frames + before);
        assert(all.last() == later[n - 1]);
        assert(carries_packets(later[n - 1], key, seqs[n - 1], sent[n - 1]));
        let streams = after_frames(frames + before, rule).0;
        let payload = joined(sent[n - 1]);
        let segment = SegmentView { key, seq: seqs[n - 1], payload };
        if n == 1 {
            assert(frames + before =~= frames);
        } else {
            assert((seqs[n - 1] - expected_behind(seqs[n - 2], sent[n - 2])) % 0x1_0000_0000
                <= 0x7FFF_FFFF);
        }
        one_more_comes_out(streams, rule, segment, sent[n - 1]);
        assert(bytes_of(packets_of(all, rule)) =~= bytes_of(packets_of(frames + before, rule))
            + sent[n - 1]);
        assert(bytes_of(packets_of(frames, rule)) + all_of(sent) =~= bytes_of(
            packets_of(frames, rule),
        ) + all_of(sent.drop_last()) + sent[n - 1]);
    }
}

/// Whole packets come out of a segment in front of which nothing is pending, or behind a gap.
proof fn one_more_comes_out(
    streams: Map<StreamKey, StreamView>,
    rule: RuleView,
    segment: SegmentView,
    packets: Seq<Seq<u8>>,
)
    requires
        streams.dom().contains(segment.key),
        segment.payload == joined(packets),
        forall|k: int| 0 <= k < packets.len() ==> is_packet(#[trigger] packets[k]),
        ({
            let ahead = (segment.seq - streams[segment.key].next_seq) % 0x1_0000_0000;
            1 <= ahead <= 0x7FFF_FFFF || (ahead == 0 && streams[segment.key].buffer.len() == 0)
        }),
    ensures
        after_segment(streams, rule, segment).1 == packets,
        after_segment(streams, rule, segment).0.dom().contains(segment.key),
        after_segment(streams, rule, segment).0[segment.key] == (StreamView {
            buffer: seq![],
            next_seq: expected_behind(segment.seq, packets),
        }),
{
    joined_packets_are_read(seq![], packets, seq![], rule);
    let data = joined(packets);
    assert(Seq::<u8>::empty() + data + Seq::<u8>::empty() =~= data);
    assert(streams[segment.key].buffer.len() == 0 ==> streams[segment.key].buffer + data =~= data);
    assert(data.skip(data.len() as int) =~= Seq::<u8>::empty());
}

/// The packets that the last frame of a capture completes come behind those before, with the
/// time of that frame; a frame without TCP data completes none.
pub proof fn a_frame_adds_its_packets(frames: Seq<FrameView>, rule: RuleView)
    requires
        frames.len() > 0,
    ensures
        ({
            let before = packets_of(frames.drop_last(), rule);
            let after = packets_of(frames, rule);
            &&& before.len() <= after.len()
            &&& after.take(before.len() as int) == before
            &&& forall|j: int|
                before.len() <= j < after.len() ==> (#[trigger] after[j]).ts == timestamp(
                    frames.last().sec,
                    frames.last().usec,
                )
            &&& frame_segment(frames.last().data) is None ==> after == before
        }),
{
    let before = packets_of(frames.drop_last(), rule);
    let after = packets_of(frames, rule);
    assert(after.take(before.len() as int) =~= before);
}

/// A frame's headers give a segment exactly where they name IP and TCP and leave data; the
/// segment has the addresses, the ports, the sequence number and all of the data.
pub proof fn a_segment_is_what_the_headers_say(
    net: NetLayer,
    tcp: Option<TcpFields>,
    payload: Seq<u8>,
)
    ensures
        segment_of(net, tcp, payload) is Some <==> (net is Ipv4 || net is Ipv6) && tcp is Some
            && payload.len() > 0,
        segment_of(net, tcp, payload) matches Some(s) ==> {
            &&& s.payload == payload
            &&& s.seq == tcp->0.seq
            &&& s.key.source_port == tcp->0.source_port
            &&& s.key.destination_port == tcp->0.destination_port
            &&& net matches NetLayer::Ipv4(source, destination) ==> s.key.source == Address::V4(
                source,
            ) && s.key.destination == Address::V4(destination)
            &&& net matches NetLayer::Ipv6(source, destination) ==> s.key.source == Address::V6(
                source,
            ) && s.key.destination == Address::V6(destination)
        },
{
}

} // verus!
