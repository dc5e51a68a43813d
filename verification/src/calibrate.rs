//! Calibration of a packet format from an event whose names are known.

use vstd::prelude::*;
use crate::detect::outcome;
use crate::format::PacketFormat;
use crate::frame::{frames_view, CapturedFrame};
use crate::kinds::{
    are_at, check_event_sized, find_most_common, is_event_sized, kind_of, kinds_of, most_common,
    packet_kind, picked, picked_step, PacketKind,
};
use crate::marker::{find_marker, first_marker};
use crate::names::{
    find_all_bdo_strings, find_offset, names_in, names_view, null_terminated, offset_of,
    utf16le_bytes_with_null,
};
use crate::search::first_from;
use crate::stream::{packets_of, packets_view, read_packets, BdoPacket, PacketView, RuleView, StreamRule};
use crate::text::{lower, lowered, same_text};

verus! {

/// Whether a packet can serve for calibration: it can be that of an event and holds five
/// names or more.
pub open spec fn is_calibration_packet() -> spec_fn(PacketView) -> bool {
    |p: PacketView| is_event_sized(p.data) && names_in(p.data).len() >= 5
}

/// The kind of the most common packet that can serve for calibration, the time of the
/// first such packet, and the names in it.
pub open spec fn calibration_candidate(packets: Seq<PacketView>) -> Option<
    (PacketKind, Seq<char>, Seq<(Seq<char>, int)>),
> {
    let candidates = picked(packets, is_calibration_packet());
    match most_common(kinds_of(candidates)) {
        Some(i) => Some(
            (kind_of(candidates[i].data), candidates[i].ts, names_in(candidates[i].data)),
        ),
        None => None,
    }
}

/// Whether a packet can serve for calibration.
fn check_calibration_packet(packet: &BdoPacket) -> (r: bool)
    ensures
        r == is_calibration_packet()(packet@),
{
    let data = packet.data.as_slice();
    if !check_event_sized(data) {
        return false;
    }
    let names = find_all_bdo_strings(data);
    assert(names_view(names@).len() == names@.len());
    names.len() >= 5
}

/// Finds the most common event packet among packets, and gives its opcode and length, the
/// time of the first such packet, and the names in it with their offsets.
pub fn find_packet_candidates(packets: &[BdoPacket]) -> (r: Result<
    (u16, usize, String, Vec<(String, usize)>),
    String,
>)
    ensures
        match (r, calibration_candidate(packets_view(packets@))) {
            (Ok((opcode, packet_len, ts, names)), Some((kind, first, found))) => {
                &&& kind == PacketKind { opcode, packet_len }
                &&& ts@ == first
                &&& names_view(names@) == found
            },
            (Err(e), None) => e@ == "No event packets found in pcap"@,
            _ => false,
        },
{
    let ghost all = packets_view(packets@);
    let ghost pick = is_calibration_packet();
    let mut places: Vec<usize> = Vec::new();
    let mut kinds: Vec<PacketKind> = Vec::new();
    let mut i: usize = 0;
    assert(kinds@ =~= kinds_of(picked(all.take(0), pick)));
    while i < packets.len()
        invariant
            i <= packets.len(),
            all == packets_view(packets@),
            pick == is_calibration_packet(),
            are_at(all, places@, picked(all.take(i as int), pick)),
            kinds@ == kinds_of(picked(all.take(i as int), pick)),
        decreases packets.len() - i,
    {
        proof {
            picked_step(all, pick, i as int);
            assert(all[i as int] == packets@[i as int]@);
        }
        if check_calibration_packet(&packets[i]) {
            places.push(i);
            kinds.push(packet_kind(packets[i].data.as_slice()));
            assert(kinds@ =~= kinds_of(picked(all.take(i + 1), pick)));
        }
        i = i + 1;
    }
    assert(all.take(i as int) =~= all);
    match find_most_common(kinds.as_slice()) {
        None => Err("No event packets found in pcap".to_owned()),
        Some(k) => {
            let packet = &packets[places[k]];
            assert(picked(all, pick)[k as int] == packet@);
            let names = find_all_bdo_strings(packet.data.as_slice());
            Ok((kinds[k].opcode, kinds[k].packet_len, packet.ts.as_str().to_owned(), names))
        },
    }
}

/// Finds the most common event packet of a capture, and gives its opcode and length, the
/// time of the first such packet, and the names in it with their offsets.
pub fn find_calibration_candidates(frames: &[CapturedFrame]) -> (r: Result<
    (u16, usize, String, Vec<(String, usize)>),
    String,
>)
    ensures
        match (
            r,
            calibration_candidate(packets_of(frames_view(frames@), RuleView::Plausible)),
        ) {
            (Ok((opcode, packet_len, ts, names)), Some((kind, first, found))) => {
                &&& kind == PacketKind { opcode, packet_len }
                &&& ts@ == first
                &&& names_view(names@) == found
            },
            (Err(e), None) => e@ == "No event packets found in pcap"@,
            _ => false,
        },
{
    let packets = read_packets(frames, &StreamRule::Plausible);
    find_packet_candidates(packets.as_slice())
}

/// The names of an event, by value.
pub struct EventNames {
    pub friendly_char: Seq<char>,
    pub friendly_family: Seq<char>,
    pub enemy_char: Seq<char>,
    pub enemy_family: Seq<char>,
    pub enemy_guild: Seq<char>,
}

/// Where a name stands in a packet, with its terminator.
pub open spec fn name_offset(data: Seq<u8>, name: Seq<char>) -> Option<int> {
    offset_of(data, null_terminated(name))
}

/// Whether the packet at an index can be that of an event and holds all of the names.
pub open spec fn holds_names(packets: Seq<PacketView>, names: EventNames) -> spec_fn(int) -> bool {
    |i: int|
        {
            let data = packets[i].data;
            &&& is_event_sized(data)
            &&& name_offset(data, names.friendly_char) is Some
            &&& name_offset(data, names.friendly_family) is Some
            &&& name_offset(data, names.enemy_char) is Some
            &&& name_offset(data, names.enemy_family) is Some
            &&& name_offset(data, names.enemy_guild) is Some
        }
}

/// The place of the kill/death flag from the marker at `i`: the fifth byte where it can be
/// a flag, else the fourth where that can.
pub open spec fn calibration_flag(data: Seq<u8>, i: int) -> Option<int> {
    if data[i + 5] <= 1 {
        Some(5)
    } else if data[i + 4] <= 1 {
        Some(4)
    } else {
        None
    }
}

/// The format that an event gives: the offsets of its names, the marker, the flag, and
/// the flag's value for a death.
pub open spec fn format_of_event(data: Seq<u8>, names: EventNames, is_death: bool) -> Result<
    PacketFormat,
    Seq<char>,
> {
    match first_marker(data) {
        Some(marker) if marker != 0 => match calibration_flag(data, marker) {
            Some(flag) => {
                let value = data[marker + flag];
                let guild = name_offset(data, names.enemy_guild)->0;
                Ok(
                    PacketFormat {
                        opcode: kind_of(data).opcode,
                        packet_len: kind_of(data).packet_len,
                        enemy_char_offset: name_offset(data, names.enemy_char)->0 as usize,
                        enemy_family_offset: name_offset(data, names.enemy_family)->0 as usize,
                        friendly_char_offset: name_offset(data, names.friendly_char)->0 as usize,
                        friendly_family_offset: name_offset(
                            data,
                            names.friendly_family,
                        )->0 as usize,
                        guild_marker_offset: marker as usize,
                        guild_flag_offset_from_marker: flag as isize,
                        guild_string_offset_from_marker: (guild - marker) as isize,
                        guild_string_offset: guild as usize,
                        is_death_value: if is_death {
                            value
                        } else {
                            (1 - value) as u8
                        },
                        old_format: false,
                    },
                )
            },
            None => Err("Could not determine kill/death flag offset from marker"@),
        },
        _ => Err("Guild marker (0x06 00 00 00) not found in packet"@),
    }
}

/// The format that the first packet with all of the names gives, for an event that is
/// called a kill or a death, in any case.
pub open spec fn calibrated(packets: Seq<PacketView>, names: EventNames, event: Seq<char>) -> Result<
    PacketFormat,
    Seq<char>,
> {
    let called = lowered(event);
    if called != "kill"@ && called != "death"@ {
        Err("event must be 'kill' or 'death'"@)
    } else {
        match first_from(holds_names(packets, names), 0, packets.len() as int) {
            Some(i) => format_of_event(packets[i].data, names, called == "death"@),
            None => Err("No packet containing all provided names was found"@),
        }
    }
}

/// The format that an event packet gives, whose names stand at these offsets.
fn describe_event(
    data: &[u8],
    enemy_char_offset: usize,
    enemy_family_offset: usize,
    friendly_char_offset: usize,
    friendly_family_offset: usize,
    enemy_guild_offset: usize,
    is_death: bool,
    Ghost(names): Ghost<EventNames>,
) -> (r: Result<PacketFormat, String>)
    requires
        is_event_sized(data@),
        name_offset(data@, names.enemy_char) == Some(enemy_char_offset as int),
        name_offset(data@, names.enemy_family) == Some(enemy_family_offset as int),
        name_offset(data@, names.friendly_char) == Some(friendly_char_offset as int),
        name_offset(data@, names.friendly_family) == Some(friendly_family_offset as int),
        name_offset(data@, names.enemy_guild) == Some(enemy_guild_offset as int),
        enemy_guild_offset <= data.len(),
    ensures
        outcome(r) == format_of_event(data@, names, is_death),
{
    let marker: usize = match find_marker(data) {
        Some(i) => i,
        None => 0,
    };
    if marker == 0 {
        return Err("Guild marker (0x06 00 00 00) not found in packet".to_owned());
    }
    let flag: usize = if data[marker + 5] <= 1 {
        5
    } else if data[marker + 4] <= 1 {
        4
    } else {
        return Err("Could not determine kill/death flag offset from marker".to_owned());
    };
    let value: u8 = data[marker + flag];
    let kind = packet_kind(data);
    Ok(
        PacketFormat {
            opcode: kind.opcode,
            packet_len: kind.packet_len,
            enemy_char_offset,
            enemy_family_offset,
            friendly_char_offset,
            friendly_family_offset,
            guild_marker_offset: marker,
            guild_flag_offset_from_marker: flag as isize,
            guild_string_offset_from_marker: enemy_guild_offset as isize - marker as isize,
            guild_string_offset: enemy_guild_offset,
            is_death_value: if is_death {
                value
            } else {
                1 - value
            },
            old_format: false,
        },
    )
}

/// Calibrates a format with the event's name in lower case.
fn calibrate_called(
    packets: &[BdoPacket],
    friendly_char: &str,
    friendly_family: &str,
    enemy_char: &str,
    enemy_family: &str,
    enemy_guild: &str,
    is_death: bool,
) -> (r: Result<PacketFormat, String>)
    ensures
        ({
            let names = EventNames {
                friendly_char: friendly_char@,
                friendly_family: friendly_family@,
                enemy_char: enemy_char@,
                enemy_family: enemy_family@,
                enemy_guild: enemy_guild@,
            };
            let all = packets_view(packets@);
            outcome(r) == (match first_from(holds_names(all, names), 0, all.len() as int) {
                Some(i) => format_of_event(all[i].data, names, is_death),
                None => Err("No packet containing all provided names was found"@),
            })
        }),
{
    let ghost names = EventNames {
        friendly_char: friendly_char@,
        friendly_family: friendly_family@,
        enemy_char: enemy_char@,
        enemy_family: enemy_family@,
        enemy_guild: enemy_guild@,
    };
    let ghost all = packets_view(packets@);
    let ghost p = holds_names(all, names);
    let ghost n = all.len() as int;
    let friendly_char_bytes = utf16le_bytes_with_null(friendly_char);
    let friendly_family_bytes = utf16le_bytes_with_null(friendly_family);
    let enemy_char_bytes = utf16le_bytes_with_null(enemy_char);
    let enemy_family_bytes = utf16le_bytes_with_null(enemy_family);
    let enemy_guild_bytes = utf16le_bytes_with_null(enemy_guild);
    let mut i: usize = 0;
    while i < packets.len()
        invariant
            i <= packets.len(),
            all == packets_view(packets@),
            n == all.len(),
            p == holds_names(all, names),
            names.friendly_char == friendly_char@,
            names.friendly_family == friendly_family@,
            names.enemy_char == enemy_char@,
            names.enemy_family == enemy_family@,
            names.enemy_guild == enemy_guild@,
            friendly_char_bytes@ == null_terminated(friendly_char@),
            friendly_family_bytes@ == null_terminated(friendly_family@),
            enemy_char_bytes@ == null_terminated(enemy_char@),
            enemy_family_bytes@ == null_terminated(enemy_family@),
            enemy_guild_bytes@ == null_terminated(enemy_guild@),
            first_from(p, 0, n) == first_from(p, i as int, n),
        decreases packets.len() - i,
    {
        let data = packets[i].data.as_slice();
        assert(all[i as int].data == data@);
        if check_event_sized(data) {
            match (
                find_offset(data, friendly_char_bytes.as_slice()),
                find_offset(data, friendly_family_bytes.as_slice()),
                find_offset(data, enemy_char_bytes.as_slice()),
                find_offset(data, enemy_family_bytes.as_slice()),
                find_offset(data, enemy_guild_bytes.as_slice()),
            ) {
                (Some(fc), Some(ff), Some(ec), Some(ef), Some(eg)) => {
                    assert(p(i as int));
                    return describe_event(data, ec, ef, fc, ff, eg, is_death, Ghost(names));
                },
                _ => {},
            }
        }
        assert(!p(i as int));
        i = i + 1;
    }
    Err("No packet containing all provided names was found".to_owned())
}

/// Reads what an event is called: whether it is a death or a kill, in any case.
pub fn check_event(event: &str) -> (r: Result<bool, String>)
    ensures
        match r {
            Ok(is_death) => {
                &&& is_death == (lowered(event@) == "death"@)
                &&& is_death || lowered(event@) == "kill"@
            },
            Err(e) => {
                &&& lowered(event@) != "kill"@
                &&& lowered(event@) != "death"@
                &&& e@ == "event must be 'kill' or 'death'"@
            },
        },
{
    let called = lower(event);
    if same_text(called.as_str(), "death") {
        Ok(true)
    } else if same_text(called.as_str(), "kill") {
        Ok(false)
    } else {
        Err("event must be 'kill' or 'death'".to_owned())
    }
}

/// Calibrates a format from packets that hold a known event: the friendly and the enemy
/// names in it, and whether it was a kill or a death.
pub fn calibrate_packet_format(
    packets: &[BdoPacket],
    friendly_char: &str,
    friendly_family: &str,
    enemy_char: &str,
    enemy_family: &str,
    enemy_guild: &str,
    event: &str,
) -> (r: Result<PacketFormat, String>)
    ensures
        outcome(r) == calibrated(
            packets_view(packets@),
            (EventNames {
                friendly_char: friendly_char@,
                friendly_family: friendly_family@,
                enemy_char: enemy_char@,
                enemy_family: enemy_family@,
                enemy_guild: enemy_guild@,
            }),
            event@,
        ),
{
    let is_death = match check_event(event) {
        Ok(is_death) => is_death,
        Err(e) => {
            return Err(e);
        },
    };
    calibrate_called(
        packets,
        friendly_char,
        friendly_family,
        enemy_char,
        enemy_family,
        enemy_guild,
        is_death,
    )
}

/// Calibrates a format from a capture that holds a known event: the friendly and the enemy
/// names in it, all five of which must stand in one packet, and whether it was a kill or a
/// death.
pub fn calibrate_format(
    frames: &[CapturedFrame],
    friendly_char: &str,
    friendly_family: &str,
    enemy_char: &str,
    enemy_family: &str,
    enemy_guild: &str,
    event: &str,
) -> (r: Result<PacketFormat, String>)
    ensures
        outcome(r) == calibrated(
            packets_of(frames_view(frames@), RuleView::Plausible),
            (EventNames {
                friendly_char: friendly_char@,
                friendly_family: friendly_family@,
                enemy_char: enemy_char@,
                enemy_family: enemy_family@,
                enemy_guild: enemy_guild@,
            }),
            event@,
        ),
{
    let packets = read_packets(frames, &StreamRule::Plausible);
    calibrate_packet_format(
        packets.as_slice(),
        friendly_char,
        friendly_family,
        enemy_char,
        enemy_family,
        enemy_guild,
        event,
    )
}

} // verus!
