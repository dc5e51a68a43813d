//! Frames, and the TCP data in them.

use etherparse::PacketBuilder;
use rodent_logger::address::{write_endpoint, write_ipv4, write_ipv6};
use rodent_logger::analyze::{analyze, tell_packet};
use rodent_logger::capture::{capture, capture_filter, CaptureAction, CaptureEvent};
use rodent_logger::frame::{
    ipv4_endpoints, read_segment, segment_from_headers, summarize_frame, summarize_plain,
    summary_from_headers, write_flags, Address, CapturedFrame, FrameHeaders, NetLayer, TcpFields,
    TcpSummary,
};

fn tcp_v4(payload: &[u8]) -> Vec<u8> {
    let builder = PacketBuilder::ethernet2([1, 2, 3, 4, 5, 6], [7, 8, 9, 10, 11, 12])
        .ipv4([192, 168, 1, 20], [10, 0, 0, 7], 64)
        .tcp(8889, 50123, 0xFFFF_FFF0, 1024)
        .syn()
        .ack(77)
        .psh();
    let mut frame = Vec::new();
    builder.write(&mut frame, payload).unwrap();
    frame
}

fn tcp_v6(payload: &[u8]) -> Vec<u8> {
    let mut source = [0; 16];
    source[15] = 1;
    let mut destination = [0; 16];
    destination[0] = 0x20;
    let builder = PacketBuilder::ethernet2([1, 2, 3, 4, 5, 6], [7, 8, 9, 10, 11, 12])
        .ipv6(source, destination, 64)
        .tcp(1, 2, 3, 4);
    let mut frame = Vec::new();
    builder.write(&mut frame, payload).unwrap();
    frame
}

fn udp_v4(payload: &[u8]) -> Vec<u8> {
    let builder = PacketBuilder::ethernet2([1, 2, 3, 4, 5, 6], [7, 8, 9, 10, 11, 12])
        .ipv4([192, 168, 1, 20], [10, 0, 0, 7], 64)
        .udp(8889, 50123);
    let mut frame = Vec::new();
    builder.write(&mut frame, payload).unwrap();
    frame
}

#[test]
fn a_segment_is_read_over_ipv4() {
    let segment = read_segment(&tcp_v4(b"hello")).unwrap();
    assert_eq!(segment.key.source, Address::V4(0xC0A8_0114));
    assert_eq!(segment.key.destination, Address::V4(0x0A00_0007));
    assert_eq!(segment.key.source_port, 8889);
    assert_eq!(segment.key.destination_port, 50123);
    assert_eq!(segment.seq, 0xFFFF_FFF0);
    assert_eq!(segment.payload, b"hello");
}

#[test]
fn a_segment_is_read_over_ipv6() {
    let segment = read_segment(&tcp_v6(b"x")).unwrap();
    assert_eq!(segment.key.source, Address::V6(1));
    assert_eq!(segment.key.destination, Address::V6(0x20 << 120));
    assert_eq!((segment.key.source_port, segment.key.destination_port), (1, 2));
    assert_eq!(segment.seq, 3);
    assert_eq!(segment.payload, b"x");
}

#[test]
fn other_frames_hold_no_segment() {
    assert!(read_segment(&[]).is_none());
    assert!(read_segment(&[0; 13]).is_none());
    assert!(read_segment(&tcp_v4(b"")).is_none());
    assert!(read_segment(&udp_v4(b"data")).is_none());
}

const FIELDS: TcpFields = TcpFields {
    source_port: 1,
    destination_port: 2,
    seq: 3,
    syn: false,
    ack: true,
    psh: false,
    fin: false,
    rst: false,
    urg: false,
};

#[test]
fn headers_without_ip_or_tcp_give_no_segment() {
    let headers = |net, tcp, payload: &[u8]| FrameHeaders { net, tcp, payload: payload.to_vec() };
    let ip = NetLayer::Ipv4(1, 2);
    assert!(segment_from_headers(headers(NetLayer::Other, Some(FIELDS), b"x")).is_none());
    assert!(segment_from_headers(headers(ip, None, b"x")).is_none());
    assert!(segment_from_headers(headers(ip, Some(FIELDS), b"")).is_none());
    let segment = segment_from_headers(headers(ip, Some(FIELDS), b"x")).unwrap();
    assert_eq!(segment.key.source, Address::V4(1));
    assert_eq!(segment.key.destination, Address::V4(2));
    assert_eq!(segment.seq, 3);
}

#[test]
fn endpoints_of_ipv4_frames() {
    assert_eq!(ipv4_endpoints(&tcp_v4(b"")), Some((0xC0A8_0114, 0x0A00_0007)));
    assert_eq!(ipv4_endpoints(&udp_v4(b"")), Some((0xC0A8_0114, 0x0A00_0007)));
    assert_eq!(ipv4_endpoints(&tcp_v6(b"")), None);
    assert_eq!(ipv4_endpoints(&[0; 10]), None);
    let mut broken = tcp_v4(b"");
    broken[14] = 0x55;
    assert_eq!(ipv4_endpoints(&broken), None);
    broken[14] = 0x44;
    assert_eq!(ipv4_endpoints(&broken), None);
    assert_eq!(ipv4_endpoints(&tcp_v4(b"")[..33]), None);
}

#[test]
fn tcp_frames_are_summarised() {
    for summarize in [summarize_frame, summarize_plain] {
        let summary = summarize(&tcp_v4(b"data")).unwrap();
        assert_eq!(summary.source, Address::V4(0xC0A8_0114));
        assert_eq!(summary.destination, Address::V4(0x0A00_0007));
        assert_eq!(summary.fields.source_port, 8889);
        assert_eq!(summary.fields.destination_port, 50123);
        assert_eq!(summary.fields.seq, 0xFFFF_FFF0);
        assert_eq!(write_flags(&summary.fields), "SAP");
        assert_eq!(summary.payload, b"data");
        let summary = summarize(&tcp_v6(b"data")).unwrap();
        assert_eq!(summary.source, Address::V6(1));
        assert_eq!(summary.destination, Address::V6(0x20 << 120));
        assert_eq!((summary.fields.source_port, summary.fields.destination_port), (1, 2));
        assert_eq!(summary.fields.seq, 3);
        assert_eq!(summary.payload, b"data");
        assert!(summarize(&udp_v4(b"data")).is_none());
        assert!(summarize(&tcp_v4(b"")[..40]).is_none());
        assert!(summarize(&tcp_v6(b"")[..60]).is_none());
    }
}

#[test]
fn padding_is_no_payload() {
    for frame in [tcp_v4(b"ab"), tcp_v6(b"ab")] {
        let mut padded = frame.clone();
        padded.extend_from_slice(&[0; 9]);
        assert_eq!(summarize_frame(&padded).unwrap().payload, b"ab");
        let cut = &frame[..frame.len() - 1];
        assert_eq!(summarize_frame(cut).unwrap().payload, b"a");
    }
}

#[test]
fn a_length_that_leaves_no_room_for_tcp_is_not_heeded() {
    for total in [0u8, 10, 20, 30, 39] {
        let mut frame = tcp_v4(b"abc");
        frame[17] = total;
        let summary = summarize_plain(&frame).unwrap();
        assert_eq!(summary.fields.source_port, 8889);
        assert_eq!(summary.payload, b"abc", "{}", total);
        assert!(analyze(&CapturedFrame { sec: 1, usec: 2, data: frame }).0.is_some());
    }
    for (total, payload) in [(40u8, &b""[..]), (42, b"ab"), (43, b"abc"), (44, b"abc")] {
        let mut frame = tcp_v4(b"abc");
        frame[17] = total;
        assert_eq!(summarize_plain(&frame).unwrap().payload, payload);
    }
    for len in [0u8, 19] {
        let mut frame = tcp_v6(b"abc");
        frame[19] = len;
        assert_eq!(summarize_plain(&frame).unwrap().payload, b"abc");
    }
}

#[test]
fn tagged_frames_are_summarised() {
    let mut tagged = tcp_v4(b"data");
    tagged.splice(12..12, [0x81, 0x00, 0x00, 0x07]);
    assert!(summarize_plain(&tagged).is_none());
    let summary = summarize_frame(&tagged).unwrap();
    assert_eq!(summary.source, Address::V4(0xC0A8_0114));
    assert_eq!(write_flags(&summary.fields), "SAP");
    assert_eq!(summary.payload, b"data");
}

#[test]
fn headers_are_summarised() {
    let headers = |net, tcp| FrameHeaders { net, tcp, payload: b"x".to_vec() };
    let summary = summary_from_headers(headers(NetLayer::Ipv6(7, 8), Some(FIELDS))).unwrap();
    assert_eq!((summary.source, summary.destination), (Address::V6(7), Address::V6(8)));
    assert_eq!(summary.fields, FIELDS);
    assert_eq!(summary.payload, b"x");
    assert!(summary_from_headers(headers(NetLayer::Ipv6(7, 8), None)).is_none());
    assert!(summary_from_headers(headers(NetLayer::Other, Some(FIELDS))).is_none());
}

#[test]
fn all_flags_have_letters() {
    let builder = PacketBuilder::ethernet2([0; 6], [0; 6])
        .ipv4([1, 2, 3, 4], [5, 6, 7, 8], 64)
        .tcp(1, 2, 3, 4)
        .syn()
        .ack(1)
        .psh()
        .fin()
        .rst()
        .urg(1);
    let mut frame = Vec::new();
    builder.write(&mut frame, &[]).unwrap();
    assert_eq!(write_flags(&summarize_frame(&frame).unwrap().fields), "SAPFRU");
}

#[test]
fn a_frame_is_told_of_in_two_lines() {
    let data: Vec<u8> = (0..40).collect();
    let frame = CapturedFrame { sec: 1720456789, usec: 42, data: tcp_v4(&data) };
    let (line, payload) = analyze(&frame);
    assert_eq!(
        line.unwrap(),
        "1720456789.42 | 192.168.1.20:8889 -> 10.0.0.7:50123 | SAP | 40 bytes payload"
    );
    assert_eq!(payload.unwrap(), format!("  Payload: {:02x?}", &data[..32]));
    let (line, payload) = analyze(&CapturedFrame { sec: 1, usec: 2, data: tcp_v4(&[0xAB]) });
    assert!(line.unwrap().ends_with("| 1 bytes payload"));
    assert_eq!(payload.unwrap(), "  Payload: [ab]");
    let (line, payload) = analyze(&CapturedFrame { sec: 1, usec: 2, data: tcp_v4(&[]) });
    assert!(line.unwrap().ends_with("| 0 bytes payload"));
    assert_eq!(payload, None);
    assert_eq!(analyze(&CapturedFrame { sec: 1, usec: 2, data: udp_v4(&[1]) }), (None, None));
}

#[test]
fn a_frame_over_ipv6_is_told_of() {
    let (line, payload) = analyze(&CapturedFrame { sec: 1, usec: 2, data: tcp_v6(&[0xCD]) });
    assert_eq!(line.unwrap(), "1.2 | [::1]:1 -> [2000::]:2 |  | 1 bytes payload");
    assert_eq!(payload.unwrap(), "  Payload: [cd]");
}

#[test]
fn a_packet_is_told_of() {
    let frame = CapturedFrame { sec: 9, usec: 10, data: vec![] };
    let t = TcpSummary {
        source: Address::V6(0x2001_0db8_0000_0000_0000_0000_0000_0001),
        destination: Address::V4(1),
        fields: FIELDS,
        payload: vec![],
    };
    let (line, payload) = tell_packet(&frame, &t);
    assert_eq!(line, "9.10 | [2001:db8::1]:1 -> 0.0.0.1:2 | A | 0 bytes payload");
    assert_eq!(payload, None);
}

#[test]
fn addresses_have_four_numbers() {
    assert_eq!(write_ipv4(0), "0.0.0.0");
    assert_eq!(write_ipv4(0xC0A8_0114), "192.168.1.20");
    assert_eq!(write_ipv4(u32::MAX), "255.255.255.255");
    assert_eq!(write_endpoint(Address::V4(7), 65535), "0.0.0.7:65535");
}

#[test]
fn zero_groups_are_left_out_once() {
    for (address, text) in [
        (0u128, "::"),
        (1, "::1"),
        (0xfe80 << 112, "fe80::"),
        (0x2001_0db8_0000_0000_0000_0000_0000_0001, "2001:db8::1"),
        (0x2001_0db8_0000_0001_0001_0001_0001_0001, "2001:db8:0:1:1:1:1:1"),
        (0x2001_0000_0000_0001_0000_0000_0000_0001, "2001:0:0:1::1"),
        (0x2001_0db8_0000_0000_0001_0000_0000_0001, "2001:db8::1:0:0:1"),
        (0x0000_0000_0000_0000_0000_ffff_c0a8_0114, "::ffff:192.168.1.20"),
        (0x0000_0000_0000_0000_0001_ffff_c0a8_0114, "::1:ffff:c0a8:114"),
        (0x0001_0023_0456_789a_bcde_f000_0f00_00f0, "1:23:456:789a:bcde:f000:f00:f0"),
        (u128::MAX, "ffff:ffff:ffff:ffff:ffff:ffff:ffff:ffff"),
    ] {
        assert_eq!(write_ipv6(address), text);
        assert_eq!(write_endpoint(Address::V6(address), 80), format!("[{}]:80", text));
    }
}

#[test]
fn a_captured_frame_is_saved_and_counted() {
    match capture(4, CaptureEvent::Frame(&tcp_v4(b"x"))) {
        CaptureAction::Save { number, line } => {
            assert_eq!(number, 5);
            assert_eq!(line.unwrap(), "\r[5] 192.168.1.20 -> 10.0.0.7  ");
        }
        _ => panic!(),
    }
    match capture(0, CaptureEvent::Frame(&tcp_v6(b"x"))) {
        CaptureAction::Save { number, line } => assert_eq!((number, line), (1, None)),
        _ => panic!(),
    }
}

#[test]
fn a_capture_ends_or_waits() {
    assert!(matches!(capture(4, CaptureEvent::Timeout), CaptureAction::Wait));
    assert!(matches!(
        capture(4, CaptureEvent::NoMorePackets),
        CaptureAction::Finish { saved: 4 }
    ));
    match capture(4, CaptureEvent::Failure("device gone".to_string())) {
        CaptureAction::Fail { message } => assert_eq!(message, "Capture error: device gone"),
        _ => panic!(),
    }
}

#[test]
fn an_empty_filter_is_none() {
    assert_eq!(capture_filter(None), None);
    assert_eq!(capture_filter(Some("")), None);
    assert_eq!(capture_filter(Some("tcp")), Some("tcp"));
}
