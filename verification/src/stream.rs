//! Game packets out of TCP streams: segments are put together, and the stream is cut
//! into packets that start with their length.

use vstd::prelude::*;
use crate::format::{find_last_format, last_format_for, PacketFormat};
use crate::frame::{
    frame_segment, frames_view, read_segment, timestamp, write_timestamp, CapturedFrame, FrameView,
    Segment, SegmentView, StreamKey,
};
use crate::names::unit_at;
use crate::search::{first_from, first_from_is_least, first_from_same, first_from_split};

verus! {

/// One direction of a TCP connection: the data that is not cut into packets yet, and
/// the sequence number that continues it.
pub struct TcpState {
    pub buffer: Vec<u8>,
    pub next_seq: u32,
}

/// One direction of a TCP connection, by value.
pub struct StreamView {
    pub buffer: Seq<u8>,
    pub next_seq: u32,
}

impl View for TcpState {
    type V = StreamView;

    open spec fn view(&self) -> StreamView {
        StreamView { buffer: self.buffer@, next_seq: self.next_seq }
    }
}

/// How a stream is read.
pub enum StreamRule {
    /// Repeated data is skipped. Behind data that is no packet, the next thing that looks
    /// like an event packet is sought.
    Plausible,
    /// As `Plausible`, but the packet that is sought is of one of these formats.
    Known(Vec<PacketFormat>),
    /// Data that does not continue the stream starts it anew. Behind data that is no
    /// packet, the next byte is tried.
    Bytewise,
}

/// How a stream is read, by value.
pub enum RuleView {
    Plausible,
    Known(Seq<PacketFormat>),
    Bytewise,
}

impl View for StreamRule {
    type V = RuleView;

    open spec fn view(&self) -> RuleView {
        match self {
            StreamRule::Plausible => RuleView::Plausible,
            StreamRule::Known(formats) => RuleView::Known(formats@),
            StreamRule::Bytewise => RuleView::Bytewise,
        }
    }
}

/// How far a sequence number lies behind the one that continues the stream.
pub open spec fn seq_lag(next: u32, seq: u32) -> int {
    (next - seq) % 0x1_0000_0000
}

/// The sequence number behind a segment.
pub open spec fn seq_after(seq: u32, len: int) -> u32 {
    ((seq + len) % 0x1_0000_0000) as u32
}

/// The stream with a segment added. A segment that continues the stream is appended. Of
/// one that lies up to half the number space behind, what is new is appended. Any other
/// starts the stream anew.
pub open spec fn with_segment(
    state: StreamView,
    rule: RuleView,
    seq: u32,
    payload: Seq<u8>,
) -> StreamView {
    let lag = seq_lag(state.next_seq, seq);
    let next_seq = seq_after(seq, payload.len() as int);
    if lag == 0 {
        StreamView { buffer: state.buffer + payload, next_seq }
    } else if lag <= 0x8000_0000 && !(rule is Bytewise) {
        if payload.len() > lag {
            StreamView { buffer: state.buffer + payload.skip(lag), next_seq }
        } else {
            state
        }
    } else {
        StreamView { buffer: payload, next_seq }
    }
}

/// Adds a segment to a stream.
pub fn add_segment(state: &mut TcpState, rule: &StreamRule, seq: u32, payload: &[u8])
    ensures
        final(state)@ == with_segment(old(state)@, rule@, seq, payload@),
{
    let ghost before = state@;
    let lag: u32 = state.next_seq.wrapping_sub(seq);
    assert(lag == seq_lag(state.next_seq, seq));
    let len: u32 = (payload.len() as u64 % 0x1_0000_0000) as u32;
    let next_seq: u32 = seq.wrapping_add(len);
    proof {
        assert(next_seq == (seq + len) % 0x1_0000_0000);
        vstd::arithmetic::div_mod::lemma_add_mod_noop(
            seq as int,
            payload.len() as int,
            0x1_0000_0000,
        );
        assert(seq as int % 0x1_0000_0000 == seq);
        assert(next_seq == seq_after(seq, payload@.len() as int));
    }
    let bytewise = matches!(rule, StreamRule::Bytewise);
    if lag == 0 {
        state.buffer.extend_from_slice(payload);
        state.next_seq = next_seq;
        assert(state.buffer@ =~= before.buffer + payload@);
    } else if lag <= 0x8000_0000 && !bytewise {
        if payload.len() as u64 > lag as u64 {
            let new = vstd::slice::slice_subrange(payload, lag as usize, payload.len());
            state.buffer.extend_from_slice(new);
            state.next_seq = next_seq;
            assert(state.buffer@ =~= before.buffer + payload@.skip(lag as int));
        }
    } else {
        state.buffer.clear();
        state.buffer.extend_from_slice(payload);
        state.next_seq = next_seq;
        assert(state.buffer@ =~= payload@);
    }
}

/// The length that a packet at `i` gives itself.
pub open spec fn length_at(buffer: Seq<u8>, i: int) -> int {
    unit_at(buffer, i) as int
}

/// Whether a length can be that of a packet.
pub open spec fn is_packet_len(len: int) -> bool {
    5 <= len <= 1000
}

/// Whether something that looks like an event packet starts at an index: it is 300 to
/// 400 bytes long and not encrypted, and of a format that the rule knows.
pub open spec fn event_start(buffer: Seq<u8>, rule: RuleView) -> spec_fn(int) -> bool {
    |i: int|
        {
            &&& 300 <= length_at(buffer, i) <= 400
            &&& buffer[i + 2] == 0
            &&& match rule {
                RuleView::Known(formats) => last_format_for(
                    formats,
                    unit_at(buffer, i + 3),
                    length_at(buffer, i),
                ) is Some,
                _ => true,
            }
        }
}

/// Where reading goes on behind data at `i` that is no packet, if it can.
pub open spec fn resync(buffer: Seq<u8>, rule: RuleView, i: int) -> Option<int> {
    if rule is Bytewise {
        Some(i + 1)
    } else {
        first_from(event_start(buffer, rule), i + 1, buffer.len() - 5)
    }
}

/// The packets of a buffer from `i` on, and where the data starts that is kept for later:
/// an unfinished packet. Data in which no packet can be found is not kept.
pub open spec fn split_from(buffer: Seq<u8>, rule: RuleView, i: int) -> (Seq<Seq<u8>>, int)
    decreases buffer.len() - i,
{
    if i + 5 > buffer.len() {
        (seq![], i)
    } else if !is_packet_len(length_at(buffer, i)) {
        proof {
            first_from_is_least(event_start(buffer, rule), i + 1, buffer.len() - 5);
        }
        match resync(buffer, rule, i) {
            Some(next) => split_from(buffer, rule, next),
            None => (seq![], buffer.len() as int),
        }
    } else if i + length_at(buffer, i) > buffer.len() {
        (seq![], i)
    } else {
        let next = i + length_at(buffer, i);
        let (packets, rest) = split_from(buffer, rule, next);
        (seq![buffer.subrange(i, next)] + packets, rest)
    }
}

/// A game packet, with the time of the frame that completed it.
pub struct BdoPacket {
    pub ts: String,
    pub data: Vec<u8>,
}

/// A game packet, by value.
pub struct PacketView {
    pub ts: Seq<char>,
    pub data: Seq<u8>,
}

impl View for BdoPacket {
    type V = PacketView;

    open spec fn view(&self) -> PacketView {
        PacketView { ts: self.ts@, data: self.data@ }
    }
}

/// A list of game packets, by value.
pub open spec fn packets_view(packets: Seq<BdoPacket>) -> Seq<PacketView> {
    Seq::new(packets.len(), |i: int| packets[i]@)
}

/// Packets with the time of the frame that completed them.
pub open spec fn stamped(packets: Seq<Seq<u8>>, ts: Seq<char>) -> Seq<PacketView> {
    Seq::new(packets.len(), |i: int| PacketView { ts, data: packets[i] })
}

/// Reads the little-endian number at `i`.
pub fn read_unit(bytes: &[u8], i: usize) -> (r: u16)
    requires
        i + 1 < bytes.len(),
    ensures
        r == unit_at(bytes@, i as int),
{
    bytes[i] as u16 + 256 * bytes[i + 1] as u16
}

/// Whether something that looks like an event packet starts at `i`.
fn is_event_start(buffer: &[u8], rule: &StreamRule, i: usize) -> (r: bool)
    requires
        i + 5 < buffer.len(),
    ensures
        r == event_start(buffer@, rule@)(i as int),
{
    let len: u16 = read_unit(buffer, i);
    if len < 300 || len > 400 || buffer[i + 2] != 0x00 {
        return false;
    }
    match rule {
        StreamRule::Known(formats) => {
            let opcode: u16 = read_unit(buffer, i + 3);
            find_last_format(formats.as_slice(), opcode, len as usize).is_some()
        },
        _ => true,
    }
}

/// Finds where reading goes on behind data at `i` that is no packet.
fn find_resync(buffer: &[u8], rule: &StreamRule, i: usize) -> (r: Option<usize>)
    requires
        i + 5 <= buffer.len(),
    ensures
        match r {
            Some(k) => i < k < buffer.len() && resync(buffer@, rule@, i as int) == Some(k as int),
            None => resync(buffer@, rule@, i as int) is None,
        },
{
    if matches!(rule, StreamRule::Bytewise) {
        return Some(i + 1);
    }
    let ghost p = event_start(buffer@, rule@);
    let ghost n = buffer.len() - 5;
    let mut k: usize = i + 1;
    while k < buffer.len() - 5
        invariant
            5 <= buffer.len(),
            i < k,
            p == event_start(buffer@, rule@),
            n == buffer.len() - 5,
            first_from(p, i + 1, n) == first_from(p, k as int, n),
            !(rule@ is Bytewise),
        decreases buffer.len() - k,
    {
        if is_event_start(buffer, rule, k) {
            return Some(k);
        }
        k = k + 1;
    }
    None
}

/// Cuts the data of a stream into packets, which are added to `out`. What is left of the
/// data stays in the stream.
pub fn take_packets(state: &mut TcpState, rule: &StreamRule, ts: &str, out: &mut Vec<BdoPacket>)
    ensures
        ({
            let (packets, rest) = split_from(old(state).buffer@, rule@, 0);
            &&& packets_view(final(out)@) == packets_view(old(out)@) + stamped(packets, ts@)
            &&& final(state).buffer@ == old(state).buffer@.skip(rest)
            &&& final(state).next_seq == old(state).next_seq
        }),
{
    let ghost buffer = state.buffer@;
    let ghost before = packets_view(out@);
    let ghost all = split_from(buffer, rule@, 0);
    let mut i: usize = 0;
    let ghost mut found: Seq<Seq<u8>> = seq![];
    assert(found + all.0 =~= all.0);
    assert(packets_view(out@) =~= before + stamped(found, ts@));
    loop
        invariant
            i <= buffer.len(),
            state.buffer@ == buffer,
            state.next_seq == old(state).next_seq,
            buffer == old(state).buffer@,
            before == packets_view(old(out)@),
            all == split_from(buffer, rule@, 0),
            packets_view(out@) == before + stamped(found, ts@),
            found + split_from(buffer, rule@, i as int).0 == all.0,
            split_from(buffer, rule@, i as int).1 == all.1,
        ensures
            i <= buffer.len(),
            state.buffer@ == buffer,
            state.next_seq == old(state).next_seq,
            packets_view(out@) == before + stamped(found, ts@),
            found == all.0,
            i == all.1,
        decreases buffer.len() - i,
    {
        if state.buffer.len() < 5 || i > state.buffer.len() - 5 {
            assert(found + split_from(buffer, rule@, i as int).0 =~= found);
            break;
        }
        let len: usize = read_unit(state.buffer.as_slice(), i) as usize;
        if len < 5 || len > 1000 {
            match find_resync(state.buffer.as_slice(), rule, i) {
                Some(next) => {
                    i = next;
                    continue;
                },
                None => {
                    assert(found + split_from(buffer, rule@, i as int).0 =~= found);
                    i = state.buffer.len();
                    break;
                },
            }
        }
        if len > state.buffer.len() - i {
            assert(found + split_from(buffer, rule@, i as int).0 =~= found);
            break;
        }
        let data = vstd::slice::slice_to_vec(
            vstd::slice::slice_subrange(state.buffer.as_slice(), i, i + len),
        );
        let ghost rest = split_from(buffer, rule@, i + len).0;
        let ghost earlier = found;
        let ghost out_before = out@;
        out.push(BdoPacket { ts: ts.to_owned(), data });
        proof {
            found = found.push(data@);
            assert(found + rest =~= earlier + (seq![data@] + rest));
            assert(packets_view(out@) =~= packets_view(out_before).push(
                PacketView { ts: ts@, data: data@ },
            ));
            assert(stamped(found, ts@) =~= stamped(earlier, ts@).push(
                PacketView { ts: ts@, data: data@ },
            ));
            assert(packets_view(out@) =~= before + stamped(found, ts@));
        }
        i = i + len;
    }
    let kept = vstd::slice::slice_to_vec(
        vstd::slice::slice_subrange(state.buffer.as_slice(), i, state.buffer.len()),
    );
    assert(kept@ =~= buffer.skip(i as int));
    state.buffer = kept;
}

/// The streams of a capture: one for each direction of a TCP connection, in the order in
/// which they were first seen.
pub struct Streams {
    pub entries: Vec<(StreamKey, TcpState)>,
}

/// Whether the stream at an index has a key.
pub open spec fn has_key(entries: Seq<(StreamKey, TcpState)>, key: StreamKey) -> spec_fn(
    int,
) -> bool {
    |i: int| entries[i].0 == key
}

/// Where the stream with a key stands.
pub open spec fn entry_index(entries: Seq<(StreamKey, TcpState)>, key: StreamKey) -> Option<int> {
    first_from(has_key(entries, key), 0, entries.len() as int)
}

impl View for Streams {
    type V = Map<StreamKey, StreamView>;

    open spec fn view(&self) -> Map<StreamKey, StreamView> {
        Map::new(
            |key: StreamKey| entry_index(self.entries@, key) is Some,
            |key: StreamKey| self.entries@[entry_index(self.entries@, key)->0].1@,
        )
    }
}

/// A stream that is added at the end is added to the map.
proof fn entry_pushed(before: Streams, after: Streams, key: StreamKey, state: TcpState)
    requires
        entry_index(before.entries@, key) is None,
        after.entries@ == before.entries@.push((key, state)),
    ensures
        after@ == before@.insert(key, state@),
{
    let n = before.entries@.len() as int;
    assert forall|k: StreamKey| #[trigger] entry_index(after.entries@, k) == (if k == key {
        Some(n)
    } else {
        entry_index(before.entries@, k)
    }) by {
        let p = has_key(before.entries@, k);
        let q = has_key(after.entries@, k);
        first_from_same(p, q, 0, n);
        first_from_split(q, 0, n, n + 1);
        assert(q(n) == (k == key));
        assert(first_from(q, n + 1, n + 1) is None);
    }
    assert forall|k: StreamKey| entry_index(before.entries@, k) is Some implies 0 <= (
    #[trigger] entry_index(before.entries@, k))->0 < n by {
        first_from_is_least(has_key(before.entries@, k), 0, n);
    }
    assert(after@ =~= before@.insert(key, state@));
}

/// A stream whose state is replaced is replaced in the map.
proof fn entry_replaced(before: Streams, after: Streams, i: int, key: StreamKey, state: TcpState)
    requires
        entry_index(before.entries@, key) == Some(i),
        after.entries@ == before.entries@.update(i, (key, state)),
    ensures
        after@ == before@.insert(key, state@),
{
    let n = before.entries@.len() as int;
    first_from_is_least(has_key(before.entries@, key), 0, n);
    assert forall|k: StreamKey| #[trigger]
        entry_index(after.entries@, k) == entry_index(before.entries@, k) by {
        first_from_same(has_key(before.entries@, k), has_key(after.entries@, k), 0, n);
    }
    assert forall|k: StreamKey| k != key && entry_index(before.entries@, k) is Some implies (
    #[trigger] entry_index(before.entries@, k))->0 != i && 0 <= entry_index(
        before.entries@,
        k,
    )->0 < n by {
        first_from_is_least(has_key(before.entries@, k), 0, n);
    }
    assert(after@ =~= before@.insert(key, state@));
}

impl Streams {
    /// No streams yet.
    pub fn new() -> (r: Streams)
        ensures
            r@ == Map::<StreamKey, StreamView>::empty(),
    {
        let r = Streams { entries: Vec::new() };
        assert(r@ =~= Map::<StreamKey, StreamView>::empty());
        r
    }

    /// Finds the stream with a key.
    pub fn find(&self, key: StreamKey) -> (r: Option<usize>)
        ensures
            match r {
                Some(i) => i < self.entries@.len() && entry_index(self.entries@, key) == Some(
                    i as int,
                ),
                None => entry_index(self.entries@, key) is None,
            },
    {
        let ghost p = has_key(self.entries@, key);
        let ghost n = self.entries@.len() as int;
        let mut i: usize = 0;
        while i < self.entries.len()
            invariant
                i <= self.entries.len(),
                p == has_key(self.entries@, key),
                n == self.entries@.len(),
                first_from(p, 0, n) == first_from(p, i as int, n),
            decreases self.entries.len() - i,
        {
            if self.entries[i].0 == key {
                assert(p(i as int));
                return Some(i);
            }
            assert(!p(i as int));
            i = i + 1;
        }
        None
    }

    /// Adds a segment to its stream, and the packets that it completes to `out`.
    pub fn receive(
        &mut self,
        rule: &StreamRule,
        segment: &Segment,
        ts: &str,
        out: &mut Vec<BdoPacket>,
    )
        ensures
            final(self)@ == after_segment(old(self)@, rule@, segment@).0,
            packets_view(final(out)@) == packets_view(old(out)@) + stamped(
                after_segment(old(self)@, rule@, segment@).1,
                ts@,
            ),
    {
        let found = self.find(segment.key);
        let mut state = match found {
            Some(i) => TcpState {
                buffer: vstd::slice::slice_to_vec(self.entries[i].1.buffer.as_slice()),
                next_seq: self.entries[i].1.next_seq,
            },
            None => TcpState { buffer: Vec::new(), next_seq: segment.seq },
        };
        let ghost before = *self;
        assert(state@ == (match found {
            Some(i) => before@[segment.key],
            None => StreamView { buffer: seq![], next_seq: segment.seq },
        }));
        add_segment(&mut state, rule, segment.seq, segment.payload.as_slice());
        take_packets(&mut state, rule, ts, out);
        let ghost kept = state;
        match found {
            Some(i) => {
                self.entries.set(i, (segment.key, state));
                proof {
                    entry_replaced(before, *self, i as int, segment.key, kept);
                }
            },
            None => {
                self.entries.push((segment.key, state));
                proof {
                    entry_pushed(before, *self, segment.key, kept);
                }
            },
        }
    }
}

/// The streams after a segment, and the packets that it completes. The first segment of a
/// stream opens it at its own sequence number.
pub open spec fn after_segment(
    streams: Map<StreamKey, StreamView>,
    rule: RuleView,
    segment: SegmentView,
) -> (Map<StreamKey, StreamView>, Seq<Seq<u8>>) {
    let opened = if streams.dom().contains(segment.key) {
        streams[segment.key]
    } else {
        StreamView { buffer: seq![], next_seq: segment.seq }
    };
    let added = with_segment(opened, rule, segment.seq, segment.payload);
    let (packets, rest) = split_from(added.buffer, rule, 0);
    let kept = StreamView { buffer: added.buffer.skip(rest), next_seq: added.next_seq };
    (streams.insert(segment.key, kept), packets)
}

/// The streams after a capture, and the packets in it.
pub open spec fn after_frames(frames: Seq<FrameView>, rule: RuleView) -> (
    Map<StreamKey, StreamView>,
    Seq<PacketView>,
)
    decreases frames.len(),
{
    if frames.len() == 0 {
        (Map::empty(), seq![])
    } else {
        let (streams, packets) = after_frames(frames.drop_last(), rule);
        let frame = frames.last();
        match frame_segment(frame.data) {
            Some(segment) => {
                let (next, found) = after_segment(streams, rule, segment);
                (next, packets + stamped(found, timestamp(frame.sec, frame.usec)))
            },
            None => (streams, packets),
        }
    }
}

/// The game packets of a capture, in the order in which they are completed.
pub open spec fn packets_of(frames: Seq<FrameView>, rule: RuleView) -> Seq<PacketView> {
    after_frames(frames, rule).1
}

/// Reads the game packets of a capture.
pub fn read_packets(frames: &[CapturedFrame], rule: &StreamRule) -> (r: Vec<BdoPacket>)
    ensures
        packets_view(r@) == packets_of(frames_view(frames@), rule@),
{
    let mut streams = Streams::new();
    let mut out: Vec<BdoPacket> = Vec::new();
    let ghost all = frames_view(frames@);
    let mut i: usize = 0;
    assert(all.take(0) =~= Seq::<FrameView>::empty());
    assert(packets_view(out@) =~= Seq::<PacketView>::empty());
    while i < frames.len()
        invariant
            i <= frames.len(),
            all == frames_view(frames@),
            streams@ == after_frames(all.take(i as int), rule@).0,
            packets_view(out@) == after_frames(all.take(i as int), rule@).1,
        decreases frames.len() - i,
    {
        let frame = &frames[i];
        proof {
            let next = all.take(i + 1);
            assert(next.drop_last() =~= all.take(i as int));
            assert(next.last() == frame@);
        }
        match read_segment(frame.data.as_slice()) {
            Some(segment) => {
                let ts = write_timestamp(frame.sec, frame.usec);
                streams.receive(rule, &segment, ts.as_str(), &mut out);
            },
            None => {},
        }
        i = i + 1;
    }
    assert(all.take(i as int) =~= all);
    out
}

} // verus!
