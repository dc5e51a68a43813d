//! Streams, and the packets in them.

use etherparse::PacketBuilder;
use rodent_logger::format::PacketFormat;
use rodent_logger::frame::{Address, CapturedFrame, Segment, StreamKey};
use rodent_logger::stream::{
    add_segment, read_packets, take_packets, BdoPacket, StreamRule, Streams, TcpState,
};

fn packet(len: usize, opcode: u16, fill: u8) -> Vec<u8> {
    let mut data = vec![fill; len];
    data[..2].copy_from_slice(&(len as u16).to_le_bytes());
    data[2] = 0;
    data[3..5].copy_from_slice(&opcode.to_le_bytes());
    data
}

fn state(buffer: &[u8], next_seq: u32) -> TcpState {
    TcpState { buffer: buffer.to_vec(), next_seq }
}

fn added(buffer: &[u8], next_seq: u32, rule: &StreamRule, seq: u32, payload: &[u8]) -> (Vec<u8>, u32) {
    let mut s = state(buffer, next_seq);
    add_segment(&mut s, rule, seq, payload);
    (s.buffer, s.next_seq)
}

fn taken(buffer: &[u8], rule: &StreamRule) -> (Vec<Vec<u8>>, Vec<u8>) {
    let mut s = state(buffer, 9);
    let mut out = Vec::new();
    take_packets(&mut s, rule, "1.000002", &mut out);
    assert_eq!(s.next_seq, 9);
    assert!(out.iter().all(|p| p.ts == "1.000002"));
    (out.into_iter().map(|p| p.data).collect(), s.buffer)
}

fn known(opcode: u16, packet_len: usize) -> StreamRule {
    StreamRule::Known(vec![PacketFormat {
        opcode,
        packet_len,
        enemy_char_offset: 0,
        enemy_family_offset: 0,
        friendly_char_offset: 0,
        friendly_family_offset: 0,
        guild_marker_offset: 0,
        guild_flag_offset_from_marker: 0,
        guild_string_offset_from_marker: 0,
        guild_string_offset: 0,
        is_death_value: 0,
        old_format: false,
    }])
}

#[test]
fn data_in_order_is_appended() {
    assert_eq!(added(b"abc", 10, &StreamRule::Plausible, 10, b"de"), (b"abcde".to_vec(), 12));
    assert_eq!(added(b"abc", 10, &StreamRule::Bytewise, 10, b"de"), (b"abcde".to_vec(), 12));
}

#[test]
fn sequence_numbers_wrap() {
    assert_eq!(
        added(b"a", u32::MAX, &StreamRule::Plausible, u32::MAX, b"bcd"),
        (b"abcd".to_vec(), 2)
    );
    assert_eq!(
        added(b"a", 1, &StreamRule::Plausible, u32::MAX, b"xybc"),
        (b"abc".to_vec(), 3)
    );
}

#[test]
fn repeated_data_is_skipped() {
    assert_eq!(added(b"abc", 10, &StreamRule::Plausible, 8, b"bcde"), (b"abcde".to_vec(), 12));
    assert_eq!(added(b"abc", 10, &StreamRule::Plausible, 7, b"abc"), (b"abc".to_vec(), 10));
    assert_eq!(added(b"abc", 10, &StreamRule::Plausible, 5, b"ab"), (b"abc".to_vec(), 10));
}

#[test]
fn a_gap_starts_the_stream_anew() {
    assert_eq!(added(b"abc", 10, &StreamRule::Plausible, 11, b"xy"), (b"xy".to_vec(), 13));
    assert_eq!(added(b"abc", 10, &StreamRule::Bytewise, 8, b"xy"), (b"xy".to_vec(), 10));
}

#[test]
fn half_the_number_space_lies_behind() {
    let seq = 10u32.wrapping_sub(0x8000_0000);
    assert_eq!(added(b"abc", 10, &StreamRule::Plausible, seq, b"xy"), (b"abc".to_vec(), 10));
    assert_eq!(
        added(b"abc", 10, &StreamRule::Plausible, seq.wrapping_sub(1), b"xy"),
        (b"xy".to_vec(), seq.wrapping_add(1))
    );
}

#[test]
fn packets_are_cut_at_their_lengths() {
    let (a, b) = (packet(5, 7, 1), packet(300, 8, 2));
    let unfinished = &packet(400, 9, 3)[..120];
    let mut data = a.clone();
    data.extend_from_slice(&b);
    data.extend_from_slice(unfinished);
    for rule in [StreamRule::Plausible, StreamRule::Bytewise, known(8, 300)] {
        assert_eq!(taken(&data, &rule), (vec![a.clone(), b.clone()], unfinished.to_vec()));
    }
    assert_eq!(taken(&data[..3], &StreamRule::Plausible), (vec![], data[..3].to_vec()));
}

#[test]
fn reading_goes_on_at_the_next_plausible_packet() {
    let event = packet(320, 8, 2);
    let mut data = vec![0xEE; 40];
    data.extend_from_slice(&event);
    data.extend_from_slice(&[1, 2, 3]);
    assert_eq!(taken(&data, &StreamRule::Plausible), (vec![event.clone()], vec![1, 2, 3]));
    assert_eq!(taken(&data, &known(8, 320)), (vec![event.clone()], vec![1, 2, 3]));
    assert_eq!(taken(&data, &StreamRule::Bytewise), (vec![event], vec![1, 2, 3]));
}

#[test]
fn data_without_a_packet_is_dropped() {
    let mut data = vec![0xEE; 40];
    data.extend_from_slice(&packet(320, 8, 0xEE));
    assert_eq!(taken(&data, &known(9, 320)), (vec![], vec![]));
    assert_eq!(taken(&vec![0xEE; 40], &StreamRule::Plausible), (vec![], vec![]));
    assert_eq!(taken(&vec![0xEE; 40], &StreamRule::Bytewise), (vec![], vec![0xEE; 4]));
}

fn frame(source_port: u16, seq: u32, payload: &[u8]) -> CapturedFrame {
    let builder = PacketBuilder::ethernet2([0; 6], [1; 6])
        .ipv4([1, 2, 3, 4], [5, 6, 7, 8], 64)
        .tcp(source_port, 40000, seq, 1000);
    let mut data = Vec::new();
    builder.write(&mut data, payload).unwrap();
    CapturedFrame { sec: 100, usec: seq as i64 % 1000, data }
}

fn bytes(packets: Vec<BdoPacket>) -> Vec<Vec<u8>> {
    packets.into_iter().map(|p| p.data).collect()
}

#[test]
fn sent_packets_come_out_however_they_are_cut() {
    let packets = vec![packet(300, 1, 1), packet(5, 2, 2), packet(1000, 3, 3)];
    let data: Vec<u8> = packets.concat();
    for size in [1, 4, 7, 299, 305, 700, 1305] {
        let mut frames = Vec::new();
        let mut at = 0;
        while at < data.len() {
            let end = (at + size).min(data.len());
            let again = at.saturating_sub(3);
            frames.push(frame(9000, 77 + again as u32, &data[again..end]));
            frames.push(frame(9000, 77 + again as u32, &data[again..at.max(again + 1)]));
            at = end;
        }
        assert_eq!(bytes(read_packets(&frames, &StreamRule::Plausible)), packets, "{}", size);
    }
}

#[test]
fn packets_bear_the_time_of_their_last_byte() {
    let data: Vec<u8> = [packet(300, 1, 1), packet(5, 2, 2), packet(320, 3, 3)].concat();
    let frames = [
        frame(9000, 0, &data[..299]),
        frame(9000, 299, &data[299..300]),
        frame(9000, 299, &data[299..400]),
        frame(9000, 400, &data[400..]),
    ];
    let times: Vec<String> =
        read_packets(&frames, &StreamRule::Plausible).into_iter().map(|p| p.ts).collect();
    assert_eq!(times, ["100.000299", "100.000299", "100.000400"]);
}

#[test]
fn connections_do_not_mix() {
    let (a, b) = (packet(300, 1, 1), packet(320, 2, 2));
    let frames = [
        frame(1, 10, &a[..100]),
        frame(2, 500, &b[..200]),
        CapturedFrame { sec: 0, usec: 0, data: vec![1, 2, 3] },
        frame(1, 110, &a[100..]),
        frame(2, 700, &b[200..]),
    ];
    let packets = read_packets(&frames, &StreamRule::Plausible);
    assert_eq!(packets[0].ts, "100.000110");
    assert_eq!(packets[1].ts, "100.000700");
    assert_eq!(bytes(packets), vec![a, b]);
}

#[test]
fn streams_are_told_apart_by_their_keys() {
    let key = |port| StreamKey {
        source: Address::V4(1),
        source_port: port,
        destination: Address::V4(2),
        destination_port: 3,
    };
    let mut streams = Streams::new();
    let mut out = Vec::new();
    let segment = |port, payload: &[u8]| Segment { key: key(port), seq: 5, payload: payload.to_vec() };
    streams.receive(&StreamRule::Plausible, &segment(1, b"ab"), "t", &mut out);
    streams.receive(&StreamRule::Plausible, &segment(2, &packet(5, 1, 0)), "t", &mut out);
    assert_eq!(streams.find(key(1)), Some(0));
    assert_eq!(streams.find(key(2)), Some(1));
    assert_eq!(streams.find(key(3)), None);
    assert_eq!(streams.entries[0].1.buffer, b"ab");
    assert_eq!(streams.entries[0].1.next_seq, 7);
    assert_eq!(streams.entries[1].1.buffer, b"");
    assert_eq!(bytes(out), vec![packet(5, 1, 0)]);
}
