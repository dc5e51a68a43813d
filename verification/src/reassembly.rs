//! What reassembly guarantees: a stream of packets comes out as it was sent, however it
//! is cut into segments, and whatever is sent twice.

use vstd::prelude::*;
use crate::frame::{frame_segment, timestamp, FrameView, SegmentView, StreamKey};
use crate::search::first_from_is_least;
use crate::stream::{
    after_frames, after_segment, event_start, is_packet_len, length_at, packets_of, resync,
    seq_after, seq_lag, split_from, with_segment, PacketView, RuleView, StreamView,
};

verus! {

/// Sequence numbers of one stream lie as far apart as their places in the data.
proof fn seq_lag_is_distance(start: u32, near: int, far: int)
    requires
        0 <= near <= far,
        far - near < 0x1_0000_0000,
    ensures
        seq_lag(seq_after(start, far), seq_after(start, near)) == far - near,
{
    let m = 0x1_0000_0000;
    vstd::arithmetic::div_mod::lemma_sub_mod_noop(start + far, start + near, m);
    assert((start + far) - (start + near) == far - near);
}

/// The sequence number behind two pieces of data.
proof fn seq_after_twice(start: u32, near: int, len: int)
    requires
        0 <= near,
        0 <= len,
    ensures
        seq_after(seq_after(start, near), len) == seq_after(start, near + len),
{
    let m = 0x1_0000_0000;
    vstd::arithmetic::div_mod::lemma_add_mod_noop(start + near, len, m);
    vstd::arithmetic::div_mod::lemma_add_mod_noop((start + near) % m, len, m);
    assert(((start + near) % m) % m == (start + near) % m);
}

/// A segment whose data overlaps or repeats data that is already there adds what is new
/// in it and nothing else. Here the stream holds the data from `kept` to `have`, and the
/// segment brings the data from `from` to `to`.
pub proof fn overlap_is_added_once(
    data: Seq<u8>,
    start: u32,
    rule: RuleView,
    kept: int,
    have: int,
    from: int,
    to: int,
)
    requires
        0 <= kept <= have,
        0 <= from <= have,
        from <= to <= data.len(),
        have <= data.len(),
        have - from <= 0x8000_0000,
        !(rule is Bytewise) || from == have,
    ensures
        ({
            let state = StreamView {
                buffer: data.subrange(kept, have),
                next_seq: seq_after(start, have),
            };
            let reach = if to > have {
                to
            } else {
                have
            };
            with_segment(state, rule, seq_after(start, from), data.subrange(from, to))
                == (StreamView {
                buffer: data.subrange(kept, reach),
                next_seq: seq_after(start, reach),
            })
        }),
{
    seq_lag_is_distance(start, from, have);
    seq_after_twice(start, from, to - from);
    let piece = data.subrange(from, to);
    if from == have {
        assert(data.subrange(kept, have) + piece =~= data.subrange(kept, to));
    } else if to > have {
        assert(data.subrange(kept, have) + piece.skip(have - from) =~= data.subrange(kept, to));
    }
}

/// Whether data from `i` on is made of packets, the last of which may be unfinished.
pub open spec fn framed(data: Seq<u8>, i: int) -> bool
    decreases data.len() - i,
{
    i + 5 > data.len() || {
        &&& is_packet_len(length_at(data, i))
        &&& i + length_at(data, i) > data.len() || framed(data, i + length_at(data, i))
    }
}

/// What is read up to a cut and what is read behind it is what is read without the cut.
pub proof fn reading_in_two_parts(
    data: Seq<u8>,
    rule: RuleView,
    i: int,
    cut: int,
    end: int,
)
    requires
        0 <= i <= cut <= end <= data.len(),
        framed(data, i),
    ensures
        ({
            let (early, rest) = split_from(data.take(cut), rule, i);
            let (late, last) = split_from(data.take(end), rule, rest);
            &&& i <= rest <= cut
            &&& framed(data, rest)
            &&& split_from(data.take(end), rule, i) == (early + late, last)
        }),
    decreases data.len() - i,
{
    let (early, rest) = split_from(data.take(cut), rule, i);
    let (late, last) = split_from(data.take(end), rule, rest);
    if i + 5 > cut {
        assert(early + late =~= late);
    } else {
        let len = length_at(data, i);
        assert(length_at(data.take(cut), i) == len);
        assert(length_at(data.take(end), i) == len);
        if i + len > cut {
            assert(early + late =~= late);
        } else {
            reading_in_two_parts(data, rule, i + len, cut, end);
            let (more, _) = split_from(data.take(cut), rule, i + len);
            let packet = data.subrange(i, i + len);
            assert(data.take(cut).subrange(i, i + len) =~= packet);
            assert(data.take(end).subrange(i, i + len) =~= packet);
            assert(seq![packet] + (more + late) =~= (seq![packet] + more) + late);
        }
    }
}

/// What is read from a place does not depend on what stands before it.
proof fn reading_from_a_place(data: Seq<u8>, rule: RuleView, kept: int, end: int, i: int)
    requires
        0 <= kept <= i <= end <= data.len(),
        framed(data, i),
    ensures
        split_from(data.subrange(kept, end), rule, i - kept) == (
            split_from(data.take(end), rule, i).0,
            split_from(data.take(end), rule, i).1 - kept,
        ),
    decreases data.len() - i,
{
    if i + 5 <= end {
        let len = length_at(data, i);
        assert(length_at(data.take(end), i) == len);
        assert(length_at(data.subrange(kept, end), i - kept) == len);
        if i + len <= end {
            reading_from_a_place(data, rule, kept, end, i + len);
            assert(data.subrange(kept, end).subrange(i - kept, i + len - kept)
                =~= data.take(end).subrange(i, i + len));
        }
    }
}

/// How much of the data the first `n` segments have brought.
pub open spec fn reach(cuts: Seq<(int, int)>, n: int) -> int
    decreases n,
{
    if n <= 0 {
        0
    } else {
        let before = reach(cuts, n - 1);
        if cuts[n - 1].1 > before {
            cuts[n - 1].1
        } else {
            before
        }
    }
}

/// Segments that bring data in order: each is a piece of the data that leaves no gap. It
/// may repeat up to half the number space, or nothing under the bytewise rule.
pub open spec fn in_order(data: Seq<u8>, rule: RuleView, cuts: Seq<(int, int)>) -> bool {
    forall|k: int|
        #![trigger cuts[k]]
        0 <= k < cuts.len() ==> {
            let (from, to) = cuts[k];
            &&& 0 <= from <= to <= data.len()
            &&& from <= reach(cuts, k)
            &&& reach(cuts, k) - from <= 0x8000_0000
            &&& rule is Bytewise ==> from == reach(cuts, k)
        }
}

/// The stream after the first `n` segments, and the packets that they completed. The
/// data starts at the sequence number `start`.
pub open spec fn after_pieces(
    data: Seq<u8>,
    start: u32,
    rule: RuleView,
    cuts: Seq<(int, int)>,
    n: int,
) -> (StreamView, Seq<Seq<u8>>)
    decreases n,
{
    if n <= 0 {
        (StreamView { buffer: seq![], next_seq: seq_after(start, 0) }, seq![])
    } else {
        let (state, packets) = after_pieces(data, start, rule, cuts, n - 1);
        let (from, to) = cuts[n - 1];
        let added = with_segment(state, rule, seq_after(start, from), data.subrange(from, to));
        let (found, rest) = split_from(added.buffer, rule, 0);
        (
            StreamView { buffer: added.buffer.skip(rest), next_seq: added.next_seq },
            packets + found,
        )
    }
}

/// One segment takes a stream from the packets of what was there to the packets of what is
/// there with it.
proof fn segment_completes_packets(
    data: Seq<u8>,
    start: u32,
    rule: RuleView,
    have: int,
    from: int,
    to: int,
)
    requires
        framed(data, 0),
        0 <= from <= have <= data.len(),
        from <= to <= data.len(),
        have - from <= 0x8000_0000,
        !(rule is Bytewise) || from == have,
    ensures
        ({
            let (packets, kept) = split_from(data.take(have), rule, 0);
            let state = StreamView {
                buffer: data.subrange(kept, have),
                next_seq: seq_after(start, have),
            };
            let added = with_segment(
                state,
                rule,
                seq_after(start, from),
                data.subrange(from, to),
            );
            let (found, rest) = split_from(added.buffer, rule, 0);
            let now = if to > have {
                to
            } else {
                have
            };
            let (all, last) = split_from(data.take(now), rule, 0);
            &&& 0 <= last <= now
            &&& all == packets + found
            &&& added.buffer.skip(rest) == data.subrange(last, now)
            &&& added.next_seq == seq_after(start, now)
        }),
{
    let (packets, kept) = split_from(data.take(have), rule, 0);
    let now = if to > have {
        to
    } else {
        have
    };
    reading_in_two_parts(data, rule, 0, have, now);
    assert(0 <= kept <= have && framed(data, kept));
    overlap_is_added_once(data, start, rule, kept, have, from, to);
    let (late, last) = split_from(data.take(now), rule, kept);
    assert(split_from(data.take(now), rule, 0) == (packets + late, last));
    reading_in_two_parts(data, rule, kept, now, now);
    assert(kept <= last <= now);
    reading_from_a_place(data, rule, kept, now, kept);
    assert(split_from(data.subrange(kept, now), rule, 0) == (late, last - kept));
    assert(data.subrange(kept, now).skip(last - kept) =~= data.subrange(last, now));
}

/// However a stream of packets is cut into segments, and whatever of it is sent again, the
/// packets that come out are those of the data that was brought, each of them once and in
/// order, and the stream keeps the rest of that data.
pub proof fn segments_rebuild_the_stream(
    data: Seq<u8>,
    start: u32,
    rule: RuleView,
    cuts: Seq<(int, int)>,
    n: int,
)
    requires
        framed(data, 0),
        in_order(data, rule, cuts),
        0 <= n <= cuts.len(),
    ensures
        ({
            let brought = data.take(reach(cuts, n));
            let (packets, rest) = split_from(brought, rule, 0);
            &&& 0 <= rest <= reach(cuts, n) <= data.len()
            &&& after_pieces(data, start, rule, cuts, n) == (
                StreamView {
                    buffer: data.subrange(rest, reach(cuts, n)),
                    next_seq: seq_after(start, reach(cuts, n)),
                },
                packets,
            )
        }),
    decreases n,
{
    if n == 0 {
        assert(data.subrange(0, 0) =~= Seq::<u8>::empty());
        assert(data.take(0) =~= Seq::<u8>::empty());
    } else {
        segments_rebuild_the_stream(data, start, rule, cuts, n - 1);
        let (from, to) = cuts[n - 1];
        segment_completes_packets(data, start, rule, reach(cuts, n - 1), from, to);
    }
}

/// A packet as it stands in a stream: it starts with its own length.
pub open spec fn is_packet(packet: Seq<u8>) -> bool {
    is_packet_len(packet.len() as int) && length_at(packet, 0) == packet.len()
}

/// Packets one behind the other.
pub open spec fn joined(packets: Seq<Seq<u8>>) -> Seq<u8>
    decreases packets.len(),
{
    if packets.len() == 0 {
        seq![]
    } else {
        packets[0] + joined(packets.skip(1))
    }
}

/// What cannot be read as a packet yet: less than a header, or less than the length that
/// its header gives.
pub open spec fn is_unfinished(tail: Seq<u8>) -> bool {
    tail.len() < 5 || (is_packet_len(length_at(tail, 0)) && length_at(tail, 0) > tail.len())
}

/// Packets that stand one behind the other are read as they are, and an unfinished packet
/// behind them is kept.
pub proof fn joined_packets_are_read(
    before: Seq<u8>,
    packets: Seq<Seq<u8>>,
    tail: Seq<u8>,
    rule: RuleView,
)
    requires
        forall|k: int| 0 <= k < packets.len() ==> is_packet(#[trigger] packets[k]),
        is_unfinished(tail),
    ensures
        ({
            let data = before + joined(packets) + tail;
            &&& framed(data, before.len() as int)
            &&& split_from(data, rule, before.len() as int) == (
                packets,
                (before.len() + joined(packets).len()) as int,
            )
        }),
    decreases packets.len(),
{
    let data = before + joined(packets) + tail;
    let i = before.len() as int;
    if packets.len() == 0 {
        assert(packets =~= Seq::<Seq<u8>>::empty());
        if tail.len() >= 5 {
            assert(length_at(data, i) == length_at(tail, 0));
        }
    } else {
        let packet = packets[0];
        let rest = packets.skip(1);
        assert(is_packet(packet));
        assert forall|k: int| 0 <= k < rest.len() implies is_packet(#[trigger] rest[k]) by {
            assert(is_packet(packets[k + 1]));
        }
        joined_packets_are_read(before + packet, rest, tail, rule);
        assert(before + packet + joined(rest) + tail =~= data);
        assert(length_at(data, i) == length_at(packet, 0));
        assert(data.subrange(i, i + packet.len()) =~= packet);
        assert(seq![packet] + rest =~= packets);
    }
}

/// The packets of a stream come out exactly as they were sent, however the stream was cut
/// into segments and whatever of it was sent again.
pub proof fn sent_packets_come_out(
    packets: Seq<Seq<u8>>,
    start: u32,
    rule: RuleView,
    cuts: Seq<(int, int)>,
)
    requires
        forall|k: int| 0 <= k < packets.len() ==> is_packet(#[trigger] packets[k]),
        in_order(joined(packets), rule, cuts),
        reach(cuts, cuts.len() as int) == joined(packets).len(),
    ensures
        after_pieces(joined(packets), start, rule, cuts, cuts.len() as int).1 == packets,
{
    let data = joined(packets);
    joined_packets_are_read(seq![], packets, seq![], rule);
    assert(Seq::<u8>::empty() + data + Seq::<u8>::empty() =~= data);
    segments_rebuild_the_stream(data, start, rule, cuts, cuts.len() as int);
    assert(data.take(data.len() as int) =~= data);
}

/// A segment changes no stream but its own.
pub proof fn streams_are_independent(
    streams: Map<StreamKey, StreamView>,
    rule: RuleView,
    segment: SegmentView,
    other: StreamKey,
)
    requires
        other != segment.key,
    ensures
        ({
            let after = after_segment(streams, rule, segment).0;
            &&& after.dom().contains(other) == streams.dom().contains(other)
            &&& after[other] == streams[other]
        }),
{
}

/// The bytes of packets.
pub open spec fn bytes_of(packets: Seq<PacketView>) -> Seq<Seq<u8>> {
    Seq::new(packets.len(), |i: int| packets[i].data)
}

/// Whether the frames of a capture are the segments of one stream, cut at `cuts`.
pub open spec fn carries(
    frames: Seq<FrameView>,
    key: StreamKey,
    data: Seq<u8>,
    start: u32,
    cuts: Seq<(int, int)>,
) -> bool {
    &&& frames.len() == cuts.len()
    &&& forall|k: int|
        #![trigger frames[k]]
        #![trigger cuts[k]]
        0 <= k < frames.len() ==> frame_segment(frames[k].data) == Some(
            SegmentView {
                key,
                seq: seq_after(start, cuts[k].0),
                payload: data.subrange(cuts[k].0, cuts[k].1),
            },
        )
}

/// What a capture of one stream holds after its first `n` frames.
proof fn frames_follow_pieces(
    frames: Seq<FrameView>,
    key: StreamKey,
    data: Seq<u8>,
    start: u32,
    rule: RuleView,
    cuts: Seq<(int, int)>,
    n: int,
)
    requires
        carries(frames, key, data, start, cuts),
        in_order(data, rule, cuts),
        0 <= n <= frames.len(),
    ensures
        ({
            let (streams, packets) = after_frames(frames.take(n), rule);
            let (state, pieces) = after_pieces(data, start, rule, cuts, n);
            &&& bytes_of(packets) == pieces
            &&& if n == 0 {
                !streams.dom().contains(key)
            } else {
                streams.dom().contains(key) && streams[key] == state
            }
        }),
    decreases n,
{
    if n == 0 {
        assert(frames.take(0) =~= Seq::<FrameView>::empty());
        assert(bytes_of(after_frames(frames.take(0), rule).1) =~= Seq::<Seq<u8>>::empty());
    } else {
        frames_follow_pieces(frames, key, data, start, rule, cuts, n - 1);
        let now = frames.take(n);
        assert(now.drop_last() =~= frames.take(n - 1));
        assert(now.last() == frames[n - 1]);
        let (streams, packets) = after_frames(frames.take(n - 1), rule);
        let (state, pieces) = after_pieces(data, start, rule, cuts, n - 1);
        let (from, to) = cuts[n - 1];
        let segment = frame_segment(frames[n - 1].data)->0;
        if n == 1 {
            assert(from == 0);
        }
        assert(after_segment(streams, rule, segment).0[key] == after_pieces(
            data,
            start,
            rule,
            cuts,
            n,
        ).0);
        assert(bytes_of(after_frames(now, rule).1) =~= pieces + after_segment(
            streams,
            rule,
            segment,
        ).1);
    }
}

/// A capture of one stream gives the packets that were sent over it, however the stream
/// was cut into frames and whatever of it was sent again.
pub proof fn captured_packets_come_out(
    frames: Seq<FrameView>,
    key: StreamKey,
    packets: Seq<Seq<u8>>,
    start: u32,
    rule: RuleView,
    cuts: Seq<(int, int)>,
)
    requires
        forall|k: int| 0 <= k < packets.len() ==> is_packet(#[trigger] packets[k]),
        carries(frames, key, joined(packets), start, cuts),
        in_order(joined(packets), rule, cuts),
        reach(cuts, cuts.len() as int) == joined(packets).len(),
    ensures
        bytes_of(packets_of(frames, rule)) == packets,
{
    let n = frames.len() as int;
    frames_follow_pieces(frames, key, joined(packets), start, rule, cuts, n);
    sent_packets_come_out(packets, start, rule, cuts);
    assert(frames.take(n) =~= frames);
}

/// Where a packet ends in the data of its stream.
pub open spec fn packet_end(packets: Seq<Seq<u8>>, j: int) -> int {
    joined(packets.take(j + 1)).len() as int
}

/// The data of packets in two parts.
proof fn joined_in_two_parts(packets: Seq<Seq<u8>>, c: int)
    requires
        0 <= c <= packets.len(),
    ensures
        joined(packets) == joined(packets.take(c)) + joined(packets.skip(c)),
    decreases packets.len(),
{
    if c == 0 {
        assert(packets.take(0) =~= Seq::<Seq<u8>>::empty());
        assert(packets.skip(0) =~= packets);
        assert(joined(packets) =~= joined(packets.take(0)) + joined(packets.skip(0)));
    } else {
        let rest = packets.skip(1);
        joined_in_two_parts(rest, c - 1);
        assert(packets.take(c).skip(1) =~= rest.take(c - 1));
        assert(packets.skip(c) =~= rest.skip(c - 1));
        assert(joined(packets) =~= joined(packets.take(c)) + joined(packets.skip(c)));
    }
}

/// Packets end one behind the other.
proof fn ends_increase(packets: Seq<Seq<u8>>, i: int, j: int)
    requires
        0 <= i <= j < packets.len(),
    ensures
        packet_end(packets, i) <= packet_end(packets, j),
        i < j ==> packet_end(packets, j) == packet_end(packets, j - 1) + packets[j].len(),
        packet_end(packets, j) <= joined(packets).len(),
    decreases j - i,
{
    joined_in_two_parts(packets, j + 1);
    if i < j {
        ends_increase(packets, i, j - 1);
        let front = packets.take(j + 1);
        joined_in_two_parts(front, j);
        assert(front.take(j) =~= packets.take(j));
        assert(front.skip(j) =~= seq![packets[j]]);
        joined_single(packets[j]);
    }
}

proof fn joined_single(packet: Seq<u8>)
    ensures
        joined(seq![packet]) == packet,
{
    reveal_with_fuel(joined, 2);
    assert(seq![packet].skip(1) =~= Seq::<Seq<u8>>::empty());
    assert(joined(seq![packet]) =~= packet);
}

/// Of the first bytes of a stream, those packets are read that end in them.
proof fn finished_packets_are_read(packets: Seq<Seq<u8>>, rule: RuleView, c: int, end: int)
    requires
        forall|k: int| 0 <= k < packets.len() ==> is_packet(#[trigger] packets[k]),
        0 <= c <= packets.len(),
        joined(packets.take(c)).len() <= end <= joined(packets).len(),
        c < packets.len() ==> end < packet_end(packets, c),
    ensures
        split_from(joined(packets).take(end), rule, 0).0 == packets.take(c),
{
    let front = packets.take(c);
    let back = packets.skip(c);
    let data = joined(packets);
    joined_in_two_parts(packets, c);
    let tail = joined(back).take(end - joined(front).len());
    assert forall|k: int| 0 <= k < front.len() implies is_packet(#[trigger] front[k]) by {
        assert(is_packet(packets[k]));
    }
    if c < packets.len() {
        let packet = packets[c];
        assert(is_packet(packet));
        assert(back[0] == packet);
        assert(joined(back) == packet + joined(back.skip(1)));
        let more = packets.take(c + 1);
        joined_in_two_parts(more, c);
        assert(more.take(c) =~= front);
        assert(more.skip(c) =~= seq![packet]);
        joined_single(packet);
        if tail.len() >= 5 {
            assert(length_at(tail, 0) == length_at(packet, 0));
        }
    } else {
        assert(back =~= Seq::<Seq<u8>>::empty());
    }
    assert(is_unfinished(tail));
    joined_packets_are_read(seq![], front, tail, rule);
    assert(Seq::<u8>::empty() + joined(front) + tail =~= data.take(end));
}

/// How many packets end in the first bytes of a stream.
proof fn count_finished(packets: Seq<Seq<u8>>, end: int) -> (c: int)
    requires
        0 <= end <= joined(packets).len(),
    ensures
        0 <= c <= packets.len(),
        joined(packets.take(c)).len() <= end,
        c < packets.len() ==> end < packet_end(packets, c),
    decreases packets.len(),
{
    let n = packets.len() as int;
    assert(packets.take(n) =~= packets);
    if n == 0 || joined(packets).len() <= end {
        n
    } else {
        let before = packets.drop_last();
        joined_in_two_parts(packets, n - 1);
        assert(packets.take(n - 1) =~= before);
        if joined(before).len() <= end {
            assert(packets.take(n - 1 + 1) =~= packets);
            n - 1
        } else {
            let c = count_finished(before, end);
            assert(before.take(c) =~= packets.take(c));
            assert(before.take(before.len() as int) =~= before);
            assert(before.take(c + 1) =~= packets.take(c + 1));
            c
        }
    }
}

/// The packets of the first frames of a capture are the first of all its packets.
proof fn early_packets_stay(frames: Seq<FrameView>, rule: RuleView, n: int)
    requires
        0 <= n <= frames.len(),
    ensures
        packets_of(frames.take(n), rule).len() <= packets_of(frames, rule).len(),
        forall|j: int|
            0 <= j < packets_of(frames.take(n), rule).len() ==> (#[trigger] packets_of(
                frames,
                rule,
            )[j]) == packets_of(frames.take(n), rule)[j],
    decreases frames.len(),
{
    if n < frames.len() {
        let before = frames.drop_last();
        early_packets_stay(before, rule, n);
        assert(before.take(n) =~= frames.take(n));
        assert forall|j: int| 0 <= j < packets_of(frames.take(n), rule).len() implies (
        #[trigger] packets_of(frames, rule)[j]) == packets_of(frames.take(n), rule)[j] by {
            assert(packets_of(before, rule)[j] == packets_of(frames.take(n), rule)[j]);
        }
    } else {
        assert(frames.take(n) =~= frames);
    }
}

/// Of the first `n` frames of a captured stream, packet `j` comes out where it ends in what
/// they bring.
proof fn packets_up_to_a_frame(
    frames: Seq<FrameView>,
    key: StreamKey,
    packets: Seq<Seq<u8>>,
    start: u32,
    rule: RuleView,
    cuts: Seq<(int, int)>,
    j: int,
    n: int,
)
    requires
        forall|k: int| 0 <= k < packets.len() ==> is_packet(#[trigger] packets[k]),
        carries(frames, key, joined(packets), start, cuts),
        in_order(joined(packets), rule, cuts),
        0 <= j < packets.len(),
        0 <= n <= frames.len(),
    ensures
        ({
            let found = packets_of(frames.take(n), rule);
            &&& j < found.len() <==> packet_end(packets, j) <= reach(cuts, n)
            &&& j < found.len() ==> found[j].data == packets[j]
        }),
{
    let data = joined(packets);
    joined_packets_are_read(seq![], packets, seq![], rule);
    assert(Seq::<u8>::empty() + data + Seq::<u8>::empty() =~= data);
    segments_rebuild_the_stream(data, start, rule, cuts, n);
    frames_follow_pieces(frames, key, data, start, rule, cuts, n);
    let end = reach(cuts, n);
    let c = count_finished(packets, end);
    finished_packets_are_read(packets, rule, c, end);
    let found = packets_of(frames.take(n), rule);
    assert(bytes_of(found) == packets.take(c));
    assert(bytes_of(found).len() == found.len());
    if j < c {
        ends_increase(packets, j, c - 1);
        assert(bytes_of(found)[j] == packets[j]);
    } else {
        ends_increase(packets, c, j);
    }
}

/// The packets that the last frame of a capture completes bear its time.
proof fn packets_of_one_more_frame(frames: Seq<FrameView>, rule: RuleView)
    requires
        frames.len() > 0,
    ensures
        forall|j: int|
            packets_of(frames.drop_last(), rule).len() <= j < packets_of(frames, rule).len() ==> (
            #[trigger] packets_of(frames, rule)[j]).ts == timestamp(
                frames.last().sec,
                frames.last().usec,
            ),
{
}

/// Each packet of a captured stream bears the time of the frame that brought its last byte,
/// however the stream was cut into frames: where packet `j` is not finished before frame
/// `n` and is finished with it, it comes out with the time of that frame.
pub proof fn packets_bear_the_time_of_their_last_byte(
    frames: Seq<FrameView>,
    key: StreamKey,
    packets: Seq<Seq<u8>>,
    start: u32,
    rule: RuleView,
    cuts: Seq<(int, int)>,
    j: int,
    n: int,
)
    requires
        forall|k: int| 0 <= k < packets.len() ==> is_packet(#[trigger] packets[k]),
        carries(frames, key, joined(packets), start, cuts),
        in_order(joined(packets), rule, cuts),
        0 <= j < packets.len(),
        0 <= n < frames.len(),
        reach(cuts, n) < packet_end(packets, j) <= reach(cuts, n + 1),
    ensures
        j < packets_of(frames, rule).len(),
        packets_of(frames, rule)[j] == (PacketView {
            ts: timestamp(frames[n].sec, frames[n].usec),
            data: packets[j],
        }),
{
    packets_up_to_a_frame(frames, key, packets, start, rule, cuts, j, n);
    packets_up_to_a_frame(frames, key, packets, start, rule, cuts, j, n + 1);
    let now = frames.take(n + 1);
    assert(now.drop_last() =~= frames.take(n));
    assert(now.last() == frames[n]);
    packets_of_one_more_frame(now, rule);
    early_packets_stay(frames, rule, n + 1);
}

/// Whether frame `n` brings the last byte of packet `j`, which the frames before it do not.
pub open spec fn brings_last_byte(
    packets: Seq<Seq<u8>>,
    cuts: Seq<(int, int)>,
    j: int,
    n: int,
) -> bool {
    reach(cuts, n) < packet_end(packets, j) <= reach(cuts, n + 1)
}

/// Whether packet `j` comes out of a capture as it was sent, with the time of the frame that
/// brings its last byte.
pub open spec fn comes_out_in_time(
    frames: Seq<FrameView>,
    packets: Seq<Seq<u8>>,
    rule: RuleView,
    cuts: Seq<(int, int)>,
    j: int,
) -> bool {
    exists|n: int|
        0 <= n < frames.len() && #[trigger] brings_last_byte(packets, cuts, j, n) && packets_of(
            frames,
            rule,
        )[j] == (PacketView {
            ts: timestamp(frames[n].sec, frames[n].usec),
            data: packets[j],
        })
}

/// Some frame among the first `n` brings the last byte of a packet that ends in what they
/// bring.
proof fn last_byte_is_brought(packets: Seq<Seq<u8>>, cuts: Seq<(int, int)>, j: int, n: int) -> (m:
    int)
    requires
        0 <= n,
        0 < packet_end(packets, j) <= reach(cuts, n),
    ensures
        0 <= m < n,
        brings_last_byte(packets, cuts, j, m),
    decreases n,
{
    if reach(cuts, n - 1) < packet_end(packets, j) {
        n - 1
    } else {
        last_byte_is_brought(packets, cuts, j, n - 1)
    }
}

/// A capture of one stream gives exactly the packets that were sent over it, each once and
/// in order, and each with the time of the frame that brought its last byte, however the
/// stream was cut into frames and whatever of it was sent again.
pub proof fn captured_packets_come_out_in_time(
    frames: Seq<FrameView>,
    key: StreamKey,
    packets: Seq<Seq<u8>>,
    start: u32,
    rule: RuleView,
    cuts: Seq<(int, int)>,
)
    requires
        forall|k: int| 0 <= k < packets.len() ==> is_packet(#[trigger] packets[k]),
        carries(frames, key, joined(packets), start, cuts),
        in_order(joined(packets), rule, cuts),
        reach(cuts, cuts.len() as int) == joined(packets).len(),
    ensures
        packets_of(frames, rule).len() == packets.len(),
        forall|j: int|
            0 <= j < packets.len() ==> #[trigger] comes_out_in_time(
                frames,
                packets,
                rule,
                cuts,
                j,
            ),
{
    captured_packets_come_out(frames, key, packets, start, rule, cuts);
    assert(bytes_of(packets_of(frames, rule)).len() == packets_of(frames, rule).len());
    assert forall|j: int| 0 <= j < packets.len() implies #[trigger] comes_out_in_time(
        frames,
        packets,
        rule,
        cuts,
        j,
    ) by {
        ends_increase(packets, j, j);
        let front = packets.take(j + 1);
        joined_in_two_parts(front, j);
        assert(front.skip(j) =~= seq![packets[j]]);
        joined_single(packets[j]);
        assert(is_packet(packets[j]));
        let n = last_byte_is_brought(packets, cuts, j, cuts.len() as int);
        packets_bear_the_time_of_their_last_byte(
            frames,
            key,
            packets,
            start,
            rule,
            cuts,
            j,
            n,
        );
    }
}

/// What is cut out of data is packets.
proof fn cut_packets_are_packets(buffer: Seq<u8>, rule: RuleView, i: int)
    requires
        0 <= i,
    ensures
        forall|k: int|
            0 <= k < split_from(buffer, rule, i).0.len() ==> is_packet(
                #[trigger] split_from(buffer, rule, i).0[k],
            ),
    decreases buffer.len() - i,
{
    if i + 5 <= buffer.len() {
        let len = length_at(buffer, i);
        if !is_packet_len(len) {
            first_from_is_least(event_start(buffer, rule), i + 1, buffer.len() - 5);
            match resync(buffer, rule, i) {
                Some(next) => {
                    cut_packets_are_packets(buffer, rule, next);
                    assert(split_from(buffer, rule, i) == split_from(buffer, rule, next));
                },
                None => {},
            }
        } else if i + len <= buffer.len() {
            cut_packets_are_packets(buffer, rule, i + len);
            let packet = buffer.subrange(i, i + len);
            let rest = split_from(buffer, rule, i + len).0;
            let all = split_from(buffer, rule, i).0;
            assert(length_at(packet, 0) == len);
            assert forall|k: int| 0 <= k < all.len() implies is_packet(#[trigger] all[k]) by {
                if k > 0 {
                    assert(all[k] == rest[k - 1]);
                }
            }
        }
    }
}

/// Every packet of a capture is 5 to 1000 bytes long and starts with its length.
pub proof fn packets_start_with_their_length(frames: Seq<FrameView>, rule: RuleView)
    ensures
        forall|k: int|
            0 <= k < packets_of(frames, rule).len() ==> is_packet(
                (#[trigger] packets_of(frames, rule)[k]).data,
            ),
    decreases frames.len(),
{
    if frames.len() > 0 {
        let before = frames.drop_last();
        packets_start_with_their_length(before, rule);
        match frame_segment(frames.last().data) {
            Some(segment) => {
                let (streams, packets) = after_frames(before, rule);
                let opened = if streams.dom().contains(segment.key) {
                    streams[segment.key]
                } else {
                    StreamView { buffer: seq![], next_seq: segment.seq }
                };
                let added = with_segment(opened, rule, segment.seq, segment.payload);
                cut_packets_are_packets(added.buffer, rule, 0);
                let all = packets_of(frames, rule);
                let found = after_segment(streams, rule, segment).1;
                assert forall|k: int| 0 <= k < all.len() implies is_packet(
                    (#[trigger] all[k]).data,
                ) by {
                    if k < packets.len() {
                        assert(all[k] == packets_of(before, rule)[k]);
                    } else {
                        assert(all[k].data == found[k - packets.len()]);
                    }
                }
            },
            None => {
                assert(packets_of(frames, rule) == packets_of(before, rule));
            },
        }
    }
}

/// Whether a frame belongs to a stream.
pub open spec fn belongs_to(frame: FrameView, key: StreamKey) -> bool {
    match frame_segment(frame.data) {
        Some(segment) => segment.key == key,
        None => false,
    }
}

/// The frames of one stream, in their order.
pub open spec fn frames_of(frames: Seq<FrameView>, key: StreamKey) -> Seq<FrameView>
    decreases frames.len(),
{
    if frames.len() == 0 {
        seq![]
    } else if belongs_to(frames.last(), key) {
        frames_of(frames.drop_last(), key).push(frames.last())
    } else {
        frames_of(frames.drop_last(), key)
    }
}

/// A stream is what its own frames make it, whatever other traffic lies between them.
pub proof fn other_traffic_does_not_matter(frames: Seq<FrameView>, key: StreamKey, rule: RuleView)
    ensures
        ({
            let (all, _) = after_frames(frames, rule);
            let (own, _) = after_frames(frames_of(frames, key), rule);
            &&& all.dom().contains(key) == own.dom().contains(key)
            &&& all.dom().contains(key) ==> all[key] == own[key]
        }),
    decreases frames.len(),
{
    if frames.len() == 0 {
        assert(frames_of(frames, key) =~= frames);
    } else {
        other_traffic_does_not_matter(frames.drop_last(), key, rule);
        if belongs_to(frames.last(), key) {
            let own = frames_of(frames, key);
            assert(own.drop_last() =~= frames_of(frames.drop_last(), key));
            assert(own.last() == frames.last());
        }
    }
}

/// The packets that a frame completes are the same with and without other traffic before
/// it.
pub proof fn completed_packets_are_the_streams_own(
    frames: Seq<FrameView>,
    key: StreamKey,
    rule: RuleView,
)
    requires
        frames.len() > 0,
        belongs_to(frames.last(), key),
    ensures
        ({
            let own = frames_of(frames, key);
            let early = packets_of(frames.drop_last(), rule).len() as int;
            let own_early = packets_of(own.drop_last(), rule).len() as int;
            packets_of(frames, rule).skip(early) == packets_of(own, rule).skip(own_early)
        }),
{
    let own = frames_of(frames, key);
    assert(own.drop_last() =~= frames_of(frames.drop_last(), key));
    assert(own.last() == frames.last());
    other_traffic_does_not_matter(frames.drop_last(), key, rule);
    let (all_streams, all_packets) = after_frames(frames.drop_last(), rule);
    let (own_streams, own_packets) = after_frames(own.drop_last(), rule);
    let segment = frame_segment(frames.last().data)->0;
    assert(after_segment(all_streams, rule, segment).1 == after_segment(
        own_streams,
        rule,
        segment,
    ).1);
    assert(packets_of(frames, rule).skip(all_packets.len() as int) =~= packets_of(
        own,
        rule,
    ).skip(own_packets.len() as int));
}

} // verus!
