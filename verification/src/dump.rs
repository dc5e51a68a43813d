//! The strings of packets of one kind, with what is found around the guild marker.

use vstd::prelude::*;
use crate::detect::{marker_in_packet, marker_of};
use crate::export::from_marker;
use crate::format::PacketFormat;
use crate::frame::{frames_view, CapturedFrame};
use crate::kinds::{check_unencrypted, is_unencrypted, kind_of, packet_kind, PacketKind};
use crate::marker::find_guild_marker;
use crate::names::{bdo_string, find_all_bdo_strings, names_in, names_view, read_bdo_string};
use crate::reassembly::packets_start_with_their_length;
use crate::stream::{
    packets_of, packets_view, read_packets, BdoPacket, PacketView, RuleView, StreamRule,
};
use crate::text::{
    decimal, hex_byte, push_decimal, push_hex_byte, push_right_aligned, push_with_sign,
    right_aligned, sign_and_decimal,
};

verus! {

/// The kind of packet that is dumped: the one that is asked for, if both its opcode and
/// its length are given, else that of the format that was saved last.
pub fn dump_target(
    opcode: Option<u16>,
    packet_len: Option<usize>,
    formats: &[PacketFormat],
) -> (r: Option<PacketKind>)
    ensures
        r == (match (opcode, packet_len) {
            (Some(opcode), Some(packet_len)) => Some(PacketKind { opcode, packet_len }),
            _ => if formats@.len() > 0 {
                Some(
                    PacketKind {
                        opcode: formats@.last().opcode,
                        packet_len: formats@.last().packet_len,
                    },
                )
            } else {
                None
            },
        }),
{
    match (opcode, packet_len) {
        (Some(opcode), Some(packet_len)) => Some(PacketKind { opcode, packet_len }),
        _ => {
            if formats.len() > 0 {
                let f = formats[formats.len() - 1];
                Some(PacketKind { opcode: f.opcode, packet_len: f.packet_len })
            } else {
                None
            }
        },
    }
}

/// The lines on the names of a packet.
pub open spec fn name_lines(names: Seq<(Seq<char>, int)>) -> Seq<char>
    decreases names.len(),
{
    if names.len() == 0 {
        seq![]
    } else {
        name_lines(names.drop_last()) + "  "@ + right_aligned(decimal(names.last().1 as nat), 4)
            + ": \""@ + names.last().0 + "\"\n"@
    }
}

/// Bytes in hexadecimal, sixteen in a line.
pub open spec fn byte_lines(bytes: Seq<u8>) -> Seq<char>
    decreases bytes.len(),
{
    if bytes.len() == 0 {
        seq![]
    } else {
        byte_lines(bytes.drop_last()) + hex_byte(bytes.last()) + " "@ + if bytes.len() % 16 == 0 {
            "\n"@
        } else {
            ""@
        }
    }
}

/// The bytes around the marker: eight before it, and up to twenty from it on.
pub open spec fn around_marker(data: Seq<u8>, marker: int) -> Seq<u8> {
    let start = if marker < 8 {
        0
    } else {
        marker - 8
    };
    let end = if marker + 20 > data.len() {
        data.len() as int
    } else {
        marker + 20
    };
    data.subrange(start, end)
}

/// The lines on the place of a packet's guild marker and its flag.
pub open spec fn flag_lines(marker: int, flag: int) -> Seq<char> {
    "\n--- Guild marker ---\n  Marker at offset: "@ + decimal(marker as nat) + "\n  Flag rel: "@
        + sign_and_decimal(flag) + " -> byte "@ + decimal(from_marker(marker, flag) as nat)
        + "\n"@
}

/// The line on a packet's guild name. Its offset is counted from the marker on: it is shown,
/// with the byte that lies as far behind the marker, and the name that stands there.
pub open spec fn guild_line(data: Seq<u8>, marker: int, guild: int) -> Seq<char> {
    "  Guild string rel: "@ + sign_and_decimal(guild) + " -> byte "@ + decimal(
        (marker + guild) as nat,
    ) + " -> \""@ + bdo_string(data, marker + guild) + "\"\n"@
}

/// The lines on the bytes around a packet's guild marker.
pub open spec fn raw_lines(data: Seq<u8>, marker: int) -> Seq<char> {
    "\n--- Raw bytes around marker (offset "@ + decimal(marker as nat) + ") ---\n"@ + byte_lines(
        around_marker(data, marker),
    ) + "\n"@
}

/// The lines on the guild marker of a packet.
pub open spec fn marker_lines(data: Seq<u8>, found: Option<(int, int, int)>) -> Seq<char> {
    match found {
        Some((marker, flag, guild)) => flag_lines(marker, flag) + guild_line(data, marker, guild)
            + raw_lines(data, marker),
        None => "\nNo guild marker found\n"@,
    }
}

/// The dump of a packet.
pub open spec fn packet_dump(data: Seq<u8>, known: Seq<PacketFormat>) -> Seq<char> {
    "Found matching packet ("@ + decimal(data.len())
        + " bytes):\n\n--- All BDO strings by offset ---\n"@ + name_lines(names_in(data))
        + marker_lines(data, marker_of(data, known)) + "\n"@
}

/// Whether one more packet may be dumped.
pub open spec fn is_below(limit: Option<usize>, dumped: int) -> bool {
    match limit {
        Some(most) => dumped < most,
        None => true,
    }
}

/// The dumps of the packets of a kind: of the first of them, up to a limit, or of all.
pub open spec fn dumps_of(
    packets: Seq<PacketView>,
    target: PacketKind,
    known: Seq<PacketFormat>,
    limit: Option<usize>,
) -> Seq<Seq<char>>
    decreases packets.len(),
{
    if packets.len() == 0 {
        seq![]
    } else {
        let before = dumps_of(packets.drop_last(), target, known, limit);
        let data = packets.last().data;
        if is_below(limit, before.len() as int) && is_unencrypted(data) && kind_of(data) == target {
            before.push(packet_dump(data, known))
        } else {
            before
        }
    }
}

/// Appends the lines on the names of a packet.
fn push_name_lines(out: &mut String, names: &[(String, usize)])
    ensures
        final(out)@ == old(out)@ + name_lines(names_view(names@)),
{
    let ghost all = names_view(names@);
    let mut i: usize = 0;
    assert(out@ =~= old(out)@ + name_lines(all.take(0)));
    while i < names.len()
        invariant
            i <= names.len(),
            all == names_view(names@),
            out@ == old(out)@ + name_lines(all.take(i as int)),
        decreases names.len() - i,
    {
        proof {
            assert(all.take(i + 1).drop_last() =~= all.take(i as int));
            assert(all.take(i + 1).last() == all[i as int]);
        }
        out.append("  ");
        push_right_aligned(out, names[i].1 as u64, 4);
        out.append(": \"");
        out.append(names[i].0.as_str());
        out.append("\"\n");
        assert(out@ =~= old(out)@ + name_lines(all.take(i + 1)));
        i = i + 1;
    }
    assert(all.take(i as int) =~= all);
}

/// Appends bytes in hexadecimal, sixteen in a line.
fn push_byte_lines(out: &mut String, bytes: &[u8])
    ensures
        final(out)@ == old(out)@ + byte_lines(bytes@),
{
    let mut i: usize = 0;
    assert(out@ =~= old(out)@ + byte_lines(bytes@.take(0)));
    proof {
        reveal_strlit("");
    }
    while i < bytes.len()
        invariant
            i <= bytes.len(),
            out@ == old(out)@ + byte_lines(bytes@.take(i as int)),
            ""@.len() == 0,
        decreases bytes.len() - i,
    {
        proof {
            assert(bytes@.take(i + 1).drop_last() =~= bytes@.take(i as int));
            assert(bytes@.take(i + 1).last() == bytes@[i as int]);
        }
        push_hex_byte(out, bytes[i]);
        out.append(" ");
        if (i + 1) % 16 == 0 {
            out.append("\n");
        }
        assert(out@ =~= old(out)@ + byte_lines(bytes@.take(i + 1)));
        i = i + 1;
    }
    assert(bytes@.take(i as int) =~= bytes@);
}

/// Appends the lines on the place of a packet's guild marker and its flag.
fn push_flag_lines(out: &mut String, marker: usize, flag: isize)
    requires
        marker <= 1000,
    ensures
        final(out)@ == old(out)@ + flag_lines(marker as int, flag as int),
{
    let flag_at: usize = if flag >= 0 {
        marker + flag as usize
    } else {
        let back: usize = (-(flag + 1)) as usize;
        if back < marker {
            marker - back - 1
        } else {
            0
        }
    };
    assert(flag_at == from_marker(marker as int, flag as int));
    out.append("\n--- Guild marker ---\n  Marker at offset: ");
    push_decimal(out, marker as u64);
    out.append("\n  Flag rel: ");
    push_with_sign(out, flag as i64);
    out.append(" -> byte ");
    push_decimal(out, flag_at as u64);
    out.append("\n");
    assert(out@ =~= old(out)@ + flag_lines(marker as int, flag as int));
}

/// Appends the line on a packet's guild name.
fn push_guild_line(out: &mut String, data: &[u8], marker: usize, guild: usize)
    requires
        marker <= 1000,
        guild <= 1000,
    ensures
        final(out)@ == old(out)@ + guild_line(data@, marker as int, guild as int),
{
    let at: usize = marker + guild;
    out.append("  Guild string rel: ");
    push_with_sign(out, guild as i64);
    out.append(" -> byte ");
    push_decimal(out, at as u64);
    out.append(" -> \"");
    let name = read_bdo_string(data, at);
    out.append(name.as_str());
    out.append("\"\n");
    assert(out@ =~= old(out)@ + guild_line(data@, marker as int, guild as int));
}

/// Appends the lines on the bytes around a packet's guild marker.
fn push_raw_lines(out: &mut String, data: &[u8], marker: usize)
    requires
        marker < data.len() <= 1000,
    ensures
        final(out)@ == old(out)@ + raw_lines(data@, marker as int),
{
    let start: usize = if marker < 8 {
        0
    } else {
        marker - 8
    };
    let end: usize = if marker + 20 > data.len() {
        data.len()
    } else {
        marker + 20
    };
    out.append("\n--- Raw bytes around marker (offset ");
    push_decimal(out, marker as u64);
    out.append(") ---\n");
    push_byte_lines(out, vstd::slice::slice_subrange(data, start, end));
    out.append("\n");
    assert(out@ =~= old(out)@ + raw_lines(data@, marker as int));
}

/// Appends the lines on the guild marker of a packet.
fn push_marker_lines(out: &mut String, data: &[u8], found: Option<(usize, isize, usize)>)
    requires
        data.len() <= 1000,
        found matches Some((marker, _, guild)) ==> marker < data.len() && guild < data.len(),
    ensures
        final(out)@ == old(out)@ + marker_lines(
            data@,
            match found {
                Some((marker, flag, guild)) => Some((marker as int, flag as int, guild as int)),
                None => None,
            },
        ),
{
    match found {
        Some((marker, flag, guild)) => {
            push_flag_lines(out, marker, flag);
            push_guild_line(out, data, marker, guild);
            push_raw_lines(out, data, marker);
            assert(out@ =~= old(out)@ + marker_lines(
                data@,
                Some((marker as int, flag as int, guild as int)),
            ));
        },
        None => {
            out.append("\nNo guild marker found\n");
        },
    }
}

/// Writes the dump of a packet.
pub fn dump_packet(data: &[u8], known_formats: &[PacketFormat]) -> (r: String)
    requires
        5 <= data.len() <= 1000,
    ensures
        r@ == packet_dump(data@, known_formats@),
{
    let kind = packet_kind(data);
    let names = find_all_bdo_strings(data);
    let found = find_guild_marker(
        data,
        names.as_slice(),
        kind.opcode,
        kind.packet_len,
        known_formats,
    );
    proof {
        marker_in_packet(data@, known_formats@);
    }
    let mut out = "Found matching packet (".to_owned();
    push_decimal(&mut out, data.len() as u64);
    out.append(" bytes):\n\n--- All BDO strings by offset ---\n");
    push_name_lines(&mut out, names.as_slice());
    push_marker_lines(&mut out, data, found);
    out.append("\n");
    assert(out@ =~= packet_dump(data@, known_formats@));
    out
}

/// Texts, by value.
pub open spec fn dumps_view(dumps: Seq<String>) -> Seq<Seq<char>> {
    Seq::new(dumps.len(), |i: int| dumps[i]@)
}

/// Dumps the packets of a kind: the first of them, up to a limit, or all.
pub fn dump_packets(
    packets: &[BdoPacket],
    target: PacketKind,
    known_formats: &[PacketFormat],
    limit: Option<usize>,
) -> (r: Vec<String>)
    requires
        forall|i: int| 0 <= i < packets.len() ==> (#[trigger] packets@[i]).data@.len() <= 1000,
    ensures
        dumps_view(r@) == dumps_of(packets_view(packets@), target, known_formats@, limit),
{
    let ghost all = packets_view(packets@);
    let mut out: Vec<String> = Vec::new();
    let mut i: usize = 0;
    assert(dumps_view(out@) =~= dumps_of(all.take(0), target, known_formats@, limit));
    while i < packets.len()
        invariant
            i <= packets.len(),
            all == packets_view(packets@),
            forall|k: int| 0 <= k < packets.len() ==> (#[trigger] packets@[k]).data@.len() <= 1000,
            dumps_view(out@) == dumps_of(all.take(i as int), target, known_formats@, limit),
        decreases packets.len() - i,
    {
        let ghost before = out@;
        let data = packets[i].data.as_slice();
        proof {
            assert(all.take(i + 1).drop_last() =~= all.take(i as int));
            assert(all.take(i + 1).last().data == data@);
            assert(dumps_view(out@).len() == out@.len());
            assert(packets@[i as int].data@.len() <= 1000);
        }
        let is_open = match limit {
            Some(most) => out.len() < most,
            None => true,
        };
        if is_open && check_unencrypted(data) && packet_kind(data) == target {
            let text = dump_packet(data, known_formats);
            out.push(text);
            assert(dumps_view(out@) =~= dumps_view(before).push(text@));
        }
        i = i + 1;
    }
    assert(all.take(i as int) =~= all);
    out
}

/// Dumps the packets of a kind in a capture: the first of them, up to a limit, or all.
pub fn dump_strings(
    frames: &[CapturedFrame],
    target: PacketKind,
    known_formats: &[PacketFormat],
    limit: Option<usize>,
) -> (r: Vec<String>)
    ensures
        dumps_view(r@) == dumps_of(
            packets_of(frames_view(frames@), RuleView::Bytewise),
            target,
            known_formats@,
            limit,
        ),
{
    let packets = read_packets(frames, &StreamRule::Bytewise);
    proof {
        packets_start_with_their_length(frames_view(frames@), RuleView::Bytewise);
        assert forall|i: int| 0 <= i < packets@.len() implies (
        #[trigger] packets@[i]).data@.len() <= 1000 by {
            assert(packets_view(packets@)[i] == packets@[i]@);
        }
    }
    dump_packets(packets.as_slice(), target, known_formats, limit)
}

} // verus!
