//! Captured frames, and the TCP segments in them.

use vstd::prelude::*;
use etherparse::{
    Ethernet2Header, Ipv4Header, Ipv6Header, NetHeaders, PacketHeaders, TcpHeader,
    TransportHeader,
};
use crate::text::{push_signed, push_zero_padded, signed_decimal, zero_padded};

verus! {

/// A frame of a capture, with the time of its capture.
pub struct CapturedFrame {
    pub sec: i64,
    pub usec: i64,
    pub data: Vec<u8>,
}

/// A frame of a capture, by value.
pub struct FrameView {
    pub sec: i64,
    pub usec: i64,
    pub data: Seq<u8>,
}

impl View for CapturedFrame {
    type V = FrameView;

    open spec fn view(&self) -> FrameView {
        FrameView { sec: self.sec, usec: self.usec, data: self.data@ }
    }
}

/// The frames of a capture, by value.
pub open spec fn frames_view(frames: Seq<CapturedFrame>) -> Seq<FrameView> {
    Seq::new(frames.len(), |i: int| frames[i]@)
}

/// The address of a host.
#[derive(Debug, Clone, Copy, PartialEq, Eq, Structural)]
pub enum Address {
    V4(u32),
    V6(u128),
}

/// What the network layer of a frame says: where an IP packet comes from and goes to.
#[derive(Debug, Clone, Copy, PartialEq, Eq, Structural)]
pub enum NetLayer {
    Ipv4(u32, u32),
    Ipv6(u128, u128),
    Other,
}

/// The ports, the sequence number and the control flags of a TCP header.
#[derive(Debug, Clone, Copy, PartialEq, Eq, Structural)]
pub struct TcpFields {
    pub source_port: u16,
    pub destination_port: u16,
    pub seq: u32,
    pub syn: bool,
    pub ack: bool,
    pub psh: bool,
    pub fin: bool,
    pub rst: bool,
    pub urg: bool,
}

/// The headers of a frame: those of the network layer, that of TCP where the frame carries
/// it, and what is behind the last header.
pub struct FrameHeaders {
    pub net: NetLayer,
    pub tcp: Option<TcpFields>,
    pub payload: Vec<u8>,
}

/// What `PacketHeaders::from_ethernet_slice` makes of a frame.
pub uninterp spec fn ethernet_headers(frame: Seq<u8>) -> Option<
    (NetLayer, Option<TcpFields>, Seq<u8>),
>;

/// `PacketHeaders::from_ethernet_slice`: the headers of an Ethernet II frame, link
/// extensions, IP extensions and transport layer included. What it gives depends on the
/// frame alone; the result is named, not spelled out.
#[verifier::external_body]
pub(crate) fn parse_headers(frame: &[u8]) -> (r: Option<FrameHeaders>)
    ensures
        match r {
            Some(h) => ethernet_headers(frame@) == Some((h.net, h.tcp, h.payload@)),
            None => ethernet_headers(frame@) is None,
        },
{
    let h = PacketHeaders::from_ethernet_slice(frame).ok()?;
    let net = match h.net {
        Some(NetHeaders::Ipv4(ip, _)) => NetLayer::Ipv4(u32::from_be_bytes(ip.source), u32::from_be_bytes(ip.destination)),
        Some(NetHeaders::Ipv6(ip, _)) => NetLayer::Ipv6(u128::from_be_bytes(ip.source), u128::from_be_bytes(ip.destination)),
        _ => NetLayer::Other,
    };
    let tcp = match h.transport {
        Some(TransportHeader::Tcp(TcpHeader { source_port, destination_port, sequence_number: seq, syn, ack, psh, fin, rst, urg, .. })) =>
            Some(TcpFields { source_port, destination_port, seq, syn, ack, psh, fin, rst, urg }),
        _ => None,
    };
    Some(FrameHeaders { net, tcp, payload: h.payload.slice().to_vec() })
}

/// The direction of a TCP connection that a segment belongs to.
#[derive(Debug, Clone, Copy, PartialEq, Eq, Structural)]
pub struct StreamKey {
    pub source: Address,
    pub source_port: u16,
    pub destination: Address,
    pub destination_port: u16,
}

/// A TCP segment that carries data.
pub struct Segment {
    pub key: StreamKey,
    pub seq: u32,
    pub payload: Vec<u8>,
}

/// A TCP segment that carries data, by value.
pub struct SegmentView {
    pub key: StreamKey,
    pub seq: u32,
    pub payload: Seq<u8>,
}

impl View for Segment {
    type V = SegmentView;

    open spec fn view(&self) -> SegmentView {
        SegmentView { key: self.key, seq: self.seq, payload: self.payload@ }
    }
}

/// The source and destination that the network layer of a frame names.
pub open spec fn net_addresses(net: NetLayer) -> Option<(Address, Address)> {
    match net {
        NetLayer::Ipv4(source, destination) => Some(
            (Address::V4(source), Address::V4(destination)),
        ),
        NetLayer::Ipv6(source, destination) => Some(
            (Address::V6(source), Address::V6(destination)),
        ),
        _ => None,
    }
}

/// The source and destination that the network layer of a frame names.
fn read_addresses(net: NetLayer) -> (r: Option<(Address, Address)>)
    ensures
        r == net_addresses(net),
{
    match net {
        NetLayer::Ipv4(source, destination) => Some(
            (Address::V4(source), Address::V4(destination)),
        ),
        NetLayer::Ipv6(source, destination) => Some(
            (Address::V6(source), Address::V6(destination)),
        ),
        _ => None,
    }
}

/// The segment that a frame's headers tell of: there is one where the frame carries TCP
/// over IP and has data behind its headers.
pub open spec fn segment_of(
    net: NetLayer,
    tcp: Option<TcpFields>,
    payload: Seq<u8>,
) -> Option<SegmentView> {
    match (net_addresses(net), tcp) {
        (Some((source, destination)), Some(t)) if payload.len() > 0 => Some(
            SegmentView {
                key: StreamKey {
                    source,
                    source_port: t.source_port,
                    destination,
                    destination_port: t.destination_port,
                },
                seq: t.seq,
                payload,
            },
        ),
        _ => None,
    }
}

/// The segment that a frame's headers tell of.
pub fn segment_from_headers(headers: FrameHeaders) -> (r: Option<Segment>)
    ensures
        match r {
            Some(s) => segment_of(headers.net, headers.tcp, headers.payload@) == Some(s@),
            None => segment_of(headers.net, headers.tcp, headers.payload@) is None,
        },
{
    let (source, destination) = match read_addresses(headers.net) {
        Some(addresses) => addresses,
        None => {
            return None;
        },
    };
    match headers.tcp {
        Some(t) => {
            if headers.payload.len() == 0 {
                return None;
            }
            let key = StreamKey {
                source,
                source_port: t.source_port,
                destination,
                destination_port: t.destination_port,
            };
            Some(Segment { key, seq: t.seq, payload: headers.payload })
        },
        None => None,
    }
}

/// The TCP data in a frame.
pub open spec fn frame_segment(frame: Seq<u8>) -> Option<SegmentView> {
    match ethernet_headers(frame) {
        Some((net, tcp, payload)) => segment_of(net, tcp, payload),
        None => None,
    }
}

/// Reads the TCP data in a frame.
pub fn read_segment(frame: &[u8]) -> (r: Option<Segment>)
    ensures
        match r {
            Some(s) => frame_segment(frame@) == Some(s@),
            None => frame_segment(frame@) is None,
        },
{
    match parse_headers(frame) {
        Some(headers) => segment_from_headers(headers),
        None => None,
    }
}

/// The time of a capture: seconds, a point, and the microseconds in six digits.
pub open spec fn timestamp(sec: i64, usec: i64) -> Seq<char> {
    signed_decimal(sec as int).push('.') + zero_padded(usec as int, 6)
}

/// Writes the time of a capture.
pub fn write_timestamp(sec: i64, usec: i64) -> (r: String)
    ensures
        r@ == timestamp(sec, usec),
{
    let mut out = String::new();
    push_signed(&mut out, sec);
    out.push('.');
    push_zero_padded(&mut out, usec, 6);
    assert(out@ =~= timestamp(sec, usec));
    out
}

/// The big-endian number of two bytes at `i`.
pub open spec fn be16(b: Seq<u8>, i: int) -> u16 {
    (256 * b[i] + b[i + 1]) as u16
}

/// The big-endian number of four bytes at `i`.
pub open spec fn be32(b: Seq<u8>, i: int) -> u32 {
    (0x1000000 * b[i] + 0x10000 * b[i + 1] + 0x100 * b[i + 2] + b[i + 3]) as u32
}

/// The ether type of an Ethernet II frame and what is behind its header of 14 bytes.
pub open spec fn ethernet2_parts(b: Seq<u8>) -> Option<(u16, Seq<u8>)> {
    if b.len() >= 14 {
        Some((be16(b, 12), b.skip(14)))
    } else {
        None
    }
}

/// `Ethernet2Header::from_slice`: it fails on fewer than 14 bytes, and else gives the
/// big-endian ether type at offset 12 and what is behind the 14 bytes.
#[verifier::external_body]
pub(crate) fn ethernet2_header(b: &[u8]) -> (r: Option<(u16, &[u8])>)
    ensures
        match r {
            Some((ether_type, rest)) => ethernet2_parts(b@) == Some((ether_type, rest@)),
            None => ethernet2_parts(b@) is None,
        },
{
    match Ethernet2Header::from_slice(b) {
        Ok((header, rest)) => Some((header.ether_type.0, rest)),
        Err(_) => None,
    }
}

/// The big-endian number of sixteen bytes at `i`.
pub open spec fn be128(b: Seq<u8>, i: int) -> u128 {
    (0x1_0000_0000_0000_0000_0000_0000 * be32(b, i) + 0x1_0000_0000_0000_0000 * be32(b, i + 4)
        + 0x1_0000_0000 * be32(b, i + 8) + be32(b, i + 12)) as u128
}

/// The parts of an IPv4 packet, whose first byte holds the version and the length of the
/// header in words. It gives its length with the header.
pub open spec fn ipv4_parts(b: Seq<u8>) -> Option<(u32, u32, u8, u16, Seq<u8>)> {
    if b.len() >= 20 && b[0] / 16 == 4 && b[0] % 16 >= 5 && b.len() >= 4 * (b[0] % 16) {
        Some((be32(b, 12), be32(b, 16), b[9], be16(b, 2), b.skip(4 * (b[0] % 16))))
    } else {
        None
    }
}

/// `Ipv4Header::from_slice`: it fails on fewer than 20 bytes, a version other than 4, a
/// header length below five words, or a header that is longer than the slice. Else it
/// gives the addresses at offsets 12 and 16, the protocol at offset 9, the total length at
/// offset 2, and what is behind the header. The other fields of the header are left out.
#[verifier::external_body]
pub(crate) fn ipv4_header(b: &[u8]) -> (r: Option<(u32, u32, u8, u16, &[u8])>)
    ensures
        match r {
            Some((source, destination, protocol, total, rest)) => ipv4_parts(b@) == Some(
                (source, destination, protocol, total, rest@),
            ),
            None => ipv4_parts(b@) is None,
        },
{
    match Ipv4Header::from_slice(b) {
        Ok((h, rest)) => {
            let source = u32::from_be_bytes(h.source);
            let destination = u32::from_be_bytes(h.destination);
            Some((source, destination, h.protocol.0, h.total_len, rest))
        },
        Err(_) => None,
    }
}

/// The source address, the destination address, the next header, the length without the
/// header, and the rest of an IPv6 packet, whose first byte holds the version.
pub open spec fn ipv6_parts(b: Seq<u8>) -> Option<(u128, u128, u8, u16, Seq<u8>)> {
    if b.len() >= 40 && b[0] / 16 == 6 {
        Some((be128(b, 8), be128(b, 24), b[6], be16(b, 4), b.skip(40)))
    } else {
        None
    }
}

/// `Ipv6Header::from_slice`: it fails on fewer than 40 bytes or a version other than 6. Else
/// it gives the addresses at offsets 8 and 24, the next header at offset 6, the payload
/// length at offset 4, and what is behind the 40 bytes. The other fields of the header are
/// left out.
#[verifier::external_body]
pub(crate) fn ipv6_header(b: &[u8]) -> (r: Option<(u128, u128, u8, u16, &[u8])>)
    ensures
        match r {
            Some((source, destination, next, len, rest)) => ipv6_parts(b@) == Some(
                (source, destination, next, len, rest@),
            ),
            None => ipv6_parts(b@) is None,
        },
{
    match Ipv6Header::from_slice(b) {
        Ok((h, rest)) => {
            let source = u128::from_be_bytes(h.source);
            let destination = u128::from_be_bytes(h.destination);
            Some((source, destination, h.next_header.0, h.payload_length, rest))
        },
        Err(_) => None,
    }
}

/// The ports, the flags and the data of a TCP segment, whose thirteenth byte holds the
/// length of the header in words in its upper half.
pub open spec fn tcp_parts(b: Seq<u8>) -> Option<(TcpFields, Seq<u8>)> {
    if b.len() >= 20 && b[12] / 16 >= 5 && b.len() >= 4 * (b[12] / 16) {
        Some(
            (
                TcpFields {
                    source_port: be16(b, 0),
                    destination_port: be16(b, 2),
                    seq: be32(b, 4),
                    fin: b[13] % 2 == 1,
                    syn: b[13] / 2 % 2 == 1,
                    rst: b[13] / 4 % 2 == 1,
                    psh: b[13] / 8 % 2 == 1,
                    ack: b[13] / 16 % 2 == 1,
                    urg: b[13] / 32 % 2 == 1,
                },
                b.skip(4 * (b[12] / 16)),
            ),
        )
    } else {
        None
    }
}

/// `TcpHeader::from_slice`: it fails on fewer than 20 bytes, a header length below five
/// words, or a header that is longer than the slice. Else it gives the ports at offsets
/// 0 and 2, the sequence number at offset 4, the flags in the low bits of the byte at
/// offset 13, and what is behind the header. The other fields of the header are left out.
#[verifier::external_body]
pub(crate) fn tcp_header(b: &[u8]) -> (r: Option<(TcpFields, &[u8])>)
    ensures
        match r {
            Some((fields, rest)) => tcp_parts(b@) == Some((fields, rest@)),
            None => tcp_parts(b@) is None,
        },
{
    match TcpHeader::from_slice(b) {
        Ok((h, rest)) => {
            let (source_port, destination_port, seq) = (h.source_port, h.destination_port, h.sequence_number);
            let (syn, ack, psh, fin, rst, urg) = (h.syn, h.ack, h.psh, h.fin, h.rst, h.urg);
            Some((TcpFields { source_port, destination_port, seq, syn, ack, psh, fin, rst, urg }, rest))
        },
        Err(_) => None,
    }
}

/// The first `n` bytes, or all where there are not as many.
pub open spec fn cut_to(rest: Seq<u8>, n: int) -> Seq<u8> {
    if 0 <= n <= rest.len() {
        rest.take(n)
    } else {
        rest
    }
}

/// The first `n` bytes, or all where there are not as many.
fn cut_bytes(rest: &[u8], n: i64) -> (r: &[u8])
    ensures
        r@ == cut_to(rest@, n as int),
{
    if 0 <= n && n as u64 <= rest.len() as u64 {
        let part = vstd::slice::slice_subrange(rest, 0, n as usize);
        assert(part@ =~= rest@.take(n as int));
        part
    } else {
        rest
    }
}

/// The IPv4 addresses of a frame, the protocol of what its packet carries, how much the
/// packet says that is, and what is behind its header.
pub open spec fn frame_ipv4(frame: Seq<u8>) -> Option<(u32, u32, u8, int, Seq<u8>)> {
    match ethernet2_parts(frame) {
        Some((ether_type, packet)) if ether_type == 0x0800 => match ipv4_parts(packet) {
            Some((source, destination, protocol, total, rest)) => Some(
                (source, destination, protocol, total - (packet.len() - rest.len()), rest),
            ),
            None => None,
        },
        _ => None,
    }
}

/// The IPv6 addresses of a frame, the next header of its packet, how much the packet says
/// it carries, and what is behind its header.
pub open spec fn frame_ipv6(frame: Seq<u8>) -> Option<(u128, u128, u8, int, Seq<u8>)> {
    match ethernet2_parts(frame) {
        Some((ether_type, packet)) if ether_type == 0x86DD => match ipv6_parts(packet) {
            Some((source, destination, next, len, rest)) => Some(
                (source, destination, next, len as int, rest),
            ),
            None => None,
        },
        _ => None,
    }
}

/// Reads the IPv4 header of a frame.
fn read_ipv4(frame: &[u8]) -> (r: Option<(u32, u32, u8, i64, &[u8])>)
    ensures
        match r {
            Some((source, destination, protocol, declared, rest)) => frame_ipv4(frame@) == Some(
                (source, destination, protocol, declared as int, rest@),
            ) && -0x10000 < declared < 0x10000,
            None => frame_ipv4(frame@) is None,
        },
{
    match ethernet2_header(frame) {
        Some((ether_type, packet)) => {
            if ether_type != 0x0800 {
                return None;
            }
            match ipv4_header(packet) {
                Some((source, destination, protocol, total, rest)) => {
                    let header: i64 = (packet.len() - rest.len()) as i64;
                    Some((source, destination, protocol, total as i64 - header, rest))
                },
                None => None,
            }
        },
        None => None,
    }
}

/// Reads the IPv6 header of a frame.
fn read_ipv6(frame: &[u8]) -> (r: Option<(u128, u128, u8, i64, &[u8])>)
    ensures
        match r {
            Some((source, destination, next, declared, rest)) => frame_ipv6(frame@) == Some(
                (source, destination, next, declared as int, rest@),
            ) && 0 <= declared < 0x10000,
            None => frame_ipv6(frame@) is None,
        },
{
    match ethernet2_header(frame) {
        Some((ether_type, packet)) => {
            if ether_type != 0x86DD {
                return None;
            }
            match ipv6_header(packet) {
                Some((source, destination, next, len, rest)) => Some(
                    (source, destination, next, len as i64, rest),
                ),
                None => None,
            }
        },
        None => None,
    }
}

/// The source and destination of a frame that carries IPv4.
pub fn ipv4_endpoints(frame: &[u8]) -> (r: Option<(u32, u32)>)
    ensures
        r == (match frame_ipv4(frame@) {
            Some((source, destination, _, _, _)) => Some((source, destination)),
            None => None,
        }),
{
    match read_ipv4(frame) {
        Some((source, destination, _, _, _)) => Some((source, destination)),
        None => None,
    }
}

/// The letters of the control flags that are set, in the order SYN, ACK, PSH, FIN, RST,
/// URG.
pub open spec fn flag_letters(t: TcpFields) -> Seq<char> {
    letter_if(t.syn, 'S') + letter_if(t.ack, 'A') + letter_if(t.psh, 'P') + letter_if(t.fin, 'F')
        + letter_if(t.rst, 'R') + letter_if(t.urg, 'U')
}

pub open spec fn letter_if(set: bool, c: char) -> Seq<char> {
    if set {
        seq![c]
    } else {
        seq![]
    }
}

fn push_letter_if(out: &mut String, set: bool, c: char)
    ensures
        final(out)@ == old(out)@ + letter_if(set, c),
{
    if set {
        out.push(c);
    }
    assert(out@ =~= old(out)@ + letter_if(set, c));
}

/// Writes the letters of the control flags that are set.
pub fn write_flags(t: &TcpFields) -> (r: String)
    ensures
        r@ == flag_letters(*t),
{
    let mut out = String::new();
    push_letter_if(&mut out, t.syn, 'S');
    push_letter_if(&mut out, t.ack, 'A');
    push_letter_if(&mut out, t.psh, 'P');
    push_letter_if(&mut out, t.fin, 'F');
    push_letter_if(&mut out, t.rst, 'R');
    push_letter_if(&mut out, t.urg, 'U');
    assert(out@ =~= flag_letters(*t));
    out
}

/// What is told of a TCP packet in the summary of a capture.
pub struct TcpSummary {
    pub source: Address,
    pub destination: Address,
    pub fields: TcpFields,
    pub payload: Vec<u8>,
}

/// What is told of a TCP packet in the summary of a capture, by value.
pub struct SummaryView {
    pub source: Address,
    pub destination: Address,
    pub fields: TcpFields,
    pub payload: Seq<u8>,
}

impl View for TcpSummary {
    type V = SummaryView;

    open spec fn view(&self) -> SummaryView {
        SummaryView {
            source: self.source,
            destination: self.destination,
            fields: self.fields,
            payload: self.payload@,
        }
    }
}

/// The TCP packet behind the header of an IP packet. It carries as much as is there of what
/// the IP packet declares. A length that ends before the data of the TCP packet starts, or
/// behind what is there, is not heeded.
pub open spec fn tcp_in(
    source: Address,
    destination: Address,
    protocol: u8,
    declared: int,
    rest: Seq<u8>,
) -> Option<SummaryView> {
    match tcp_parts(rest) {
        Some((fields, data)) if protocol == 6 => {
            let payload = cut_to(data, declared - (rest.len() - data.len()));
            Some(SummaryView { source, destination, fields, payload })
        },
        _ => None,
    }
}

/// The TCP packet of a frame that holds an IPv4 or IPv6 header and behind it that of TCP.
pub open spec fn plain_tcp(frame: Seq<u8>) -> Option<SummaryView> {
    match (frame_ipv4(frame), frame_ipv6(frame)) {
        (Some((source, destination, protocol, declared, rest)), _) => tcp_in(
            Address::V4(source),
            Address::V4(destination),
            protocol,
            declared,
            rest,
        ),
        (None, Some((source, destination, next, declared, rest))) => tcp_in(
            Address::V6(source),
            Address::V6(destination),
            next,
            declared,
            rest,
        ),
        (None, None) => None,
    }
}

/// The TCP packet that a frame's headers tell of.
pub open spec fn tcp_of(net: NetLayer, tcp: Option<TcpFields>, payload: Seq<u8>) -> Option<
    SummaryView,
> {
    match (net_addresses(net), tcp) {
        (Some((source, destination)), Some(fields)) => Some(
            SummaryView { source, destination, fields, payload },
        ),
        _ => None,
    }
}

/// The TCP packet over IP of a frame. Where other headers stand between those of Ethernet,
/// IP and TCP, it is what all headers of the frame tell.
pub open spec fn frame_tcp(frame: Seq<u8>) -> Option<SummaryView> {
    match plain_tcp(frame) {
        Some(t) => Some(t),
        None => match ethernet_headers(frame) {
            Some((net, tcp, payload)) => tcp_of(net, tcp, payload),
            None => None,
        },
    }
}

/// Finds the TCP packet behind the header of an IP packet.
fn find_tcp(
    source: Address,
    destination: Address,
    protocol: u8,
    declared: i64,
    rest: &[u8],
) -> (r: Option<TcpSummary>)
    requires
        -0x10000 < declared < 0x10000,
    ensures
        match r {
            Some(t) => tcp_in(source, destination, protocol, declared as int, rest@) == Some(t@),
            None => tcp_in(source, destination, protocol, declared as int, rest@) is None,
        },
{
    if protocol != 6 {
        return None;
    }
    match tcp_header(rest) {
        Some((fields, data)) => {
            let header: i64 = (rest.len() - data.len()) as i64;
            let payload = vstd::slice::slice_to_vec(cut_bytes(data, declared - header));
            Some(TcpSummary { source, destination, fields, payload })
        },
        None => None,
    }
}

/// Summarises a frame that holds an IPv4 or IPv6 header and behind it that of TCP.
pub fn summarize_plain(frame: &[u8]) -> (r: Option<TcpSummary>)
    ensures
        match r {
            Some(t) => plain_tcp(frame@) == Some(t@),
            None => plain_tcp(frame@) is None,
        },
{
    match read_ipv4(frame) {
        Some((source, destination, protocol, declared, rest)) => find_tcp(
            Address::V4(source),
            Address::V4(destination),
            protocol,
            declared,
            rest,
        ),
        None => match read_ipv6(frame) {
            Some((source, destination, next, declared, rest)) => find_tcp(
                Address::V6(source),
                Address::V6(destination),
                next,
                declared,
                rest,
            ),
            None => None,
        },
    }
}

/// Summarises the TCP packet that a frame's headers tell of.
pub fn summary_from_headers(headers: FrameHeaders) -> (r: Option<TcpSummary>)
    ensures
        match r {
            Some(t) => tcp_of(headers.net, headers.tcp, headers.payload@) == Some(t@),
            None => tcp_of(headers.net, headers.tcp, headers.payload@) is None,
        },
{
    match (read_addresses(headers.net), headers.tcp) {
        (Some((source, destination)), Some(fields)) => Some(
            TcpSummary { source, destination, fields, payload: headers.payload },
        ),
        _ => None,
    }
}

/// Summarises a frame that carries TCP over IP; other frames have no summary.
pub fn summarize_frame(frame: &[u8]) -> (r: Option<TcpSummary>)
    ensures
        match r {
            Some(t) => frame_tcp(frame@) == Some(t@),
            None => frame_tcp(frame@) is None,
        },
{
    match summarize_plain(frame) {
        Some(t) => Some(t),
        None => match parse_headers(frame) {
            Some(headers) => summary_from_headers(headers),
            None => None,
        },
    }
}

} // verus!
