//! The summary of a capture, frame by frame.

use vstd::prelude::*;
use crate::address::{endpoint_text, write_endpoint};
use crate::frame::{
    flag_letters, frame_ipv4, frame_ipv6, frame_segment, frame_tcp, summarize_frame, tcp_parts,
    write_flags, CapturedFrame, FrameView, SummaryView, TcpSummary,
};
use crate::text::{decimal, hex_byte, push_decimal, push_hex_byte, push_signed, signed_decimal};

verus! {

/// The line on a TCP packet: the seconds and the microseconds of its capture, where it comes from and goes to, its
/// flags, and how many bytes it carries.
pub open spec fn packet_line(frame: FrameView, t: SummaryView) -> Seq<char> {
    signed_decimal(frame.sec as int) + "."@ + signed_decimal(frame.usec as int) + " | "@
        + endpoint_text(t.source, t.fields.source_port) + " -> "@ + endpoint_text(
        t.destination,
        t.fields.destination_port,
    ) + " | "@ + flag_letters(t.fields) + " | "@ + decimal(t.payload.len()) + " bytes payload"@
}

/// Bytes in hexadecimal, with commas between them.
pub open spec fn hex_list(bytes: Seq<u8>) -> Seq<char>
    decreases bytes.len(),
{
    if bytes.len() == 0 {
        seq![]
    } else if bytes.len() == 1 {
        hex_byte(bytes[0])
    } else {
        hex_list(bytes.drop_last()) + ", "@ + hex_byte(bytes.last())
    }
}

/// The line on the first 32 bytes that a packet carries.
pub open spec fn payload_line(payload: Seq<u8>) -> Seq<char> {
    let shown = if payload.len() > 32 {
        payload.take(32)
    } else {
        payload
    };
    "  Payload: ["@ + hex_list(shown) + "]"@
}

/// What is told of a TCP packet: a line on it, and one on what it carries, if it carries
/// anything.
pub open spec fn packet_lines(frame: FrameView, t: SummaryView) -> (Seq<char>, Option<Seq<char>>) {
    (
        packet_line(frame, t),
        if t.payload.len() > 0 {
            Some(payload_line(t.payload))
        } else {
            None
        },
    )
}

/// What is told of a frame: the lines on its TCP packet over IPv4 or IPv6. Of other frames
/// nothing is told.
pub open spec fn frame_lines(frame: FrameView) -> (Option<Seq<char>>, Option<Seq<char>>) {
    match frame_tcp(frame.data) {
        Some(t) => {
            let (line, payload) = packet_lines(frame, t);
            (Some(line), payload)
        },
        None => (None, None),
    }
}

/// Appends bytes in hexadecimal, with commas between them.
fn push_hex_list(out: &mut String, bytes: &[u8])
    ensures
        final(out)@ == old(out)@ + hex_list(bytes@),
{
    let mut i: usize = 0;
    assert(out@ =~= old(out)@ + hex_list(bytes@.take(0)));
    while i < bytes.len()
        invariant
            i <= bytes.len(),
            out@ == old(out)@ + hex_list(bytes@.take(i as int)),
        decreases bytes.len() - i,
    {
        proof {
            assert(bytes@.take(i + 1).drop_last() =~= bytes@.take(i as int));
            assert(bytes@.take(i + 1).last() == bytes@[i as int]);
        }
        if i > 0 {
            out.append(", ");
        }
        push_hex_byte(out, bytes[i]);
        assert(out@ =~= old(out)@ + hex_list(bytes@.take(i + 1)));
        i = i + 1;
    }
    assert(bytes@.take(i as int) =~= bytes@);
}

/// Texts that may be missing, by value.
pub open spec fn line_view(line: Option<String>) -> Option<Seq<char>> {
    match line {
        Some(s) => Some(s@),
        None => None,
    }
}

/// Tells of a TCP packet, and of what it carries.
pub fn tell_packet(frame: &CapturedFrame, t: &TcpSummary) -> (r: (String, Option<String>))
    ensures
        (r.0@, line_view(r.1)) == packet_lines(frame@, t@),
{
    let mut line = String::new();
    push_signed(&mut line, frame.sec);
    line.append(".");
    push_signed(&mut line, frame.usec);
    line.append(" | ");
    let source = write_endpoint(t.source, t.fields.source_port);
    line.append(source.as_str());
    line.append(" -> ");
    let destination = write_endpoint(t.destination, t.fields.destination_port);
    line.append(destination.as_str());
    line.append(" | ");
    let flags = write_flags(&t.fields);
    line.append(flags.as_str());
    line.append(" | ");
    push_decimal(&mut line, t.payload.len() as u64);
    line.append(" bytes payload");
    assert(line@ =~= packet_line(frame@, t@));
    if t.payload.len() == 0 {
        return (line, None);
    }
    let shown = if t.payload.len() > 32 {
        vstd::slice::slice_subrange(t.payload.as_slice(), 0, 32)
    } else {
        t.payload.as_slice()
    };
    assert(t.payload@.subrange(0, 32) =~= t.payload@.take(32));
    let mut data = "  Payload: [".to_owned();
    push_hex_list(&mut data, shown);
    data.append("]");
    (line, Some(data))
}

/// Tells of a frame: its TCP packet over IPv4 or IPv6, and what the packet carries.
pub fn analyze(frame: &CapturedFrame) -> (r: (Option<String>, Option<String>))
    ensures
        (line_view(r.0), line_view(r.1)) == frame_lines(frame@),
{
    match summarize_frame(frame.data.as_slice()) {
        Some(t) => {
            let (line, payload) = tell_packet(frame, &t);
            (Some(line), payload)
        },
        None => (None, None),
    }
}

/// Every TCP packet is told of, whether it is carried by IPv4 or by IPv6.
pub proof fn every_tcp_packet_is_told_of(frame: FrameView)
    requires
        ({
            ||| frame_ipv4(frame.data) matches Some((_, _, protocol, _, rest)) && protocol == 6
                && tcp_parts(rest) is Some
            ||| frame_ipv6(frame.data) matches Some((_, _, next, _, rest)) && next == 6
                && tcp_parts(rest) is Some
            ||| frame_segment(frame.data) is Some
        }),
    ensures
        frame_tcp(frame.data) is Some,
        frame_lines(frame).0 == Some(packet_line(frame, frame_tcp(frame.data)->0)),
{
}

} // verus!
