//! Calibration: what a format learns from one known event.

use vstd::prelude::*;
use crate::calibrate::{
    calibrated, calibration_candidate, format_of_event, holds_names, is_calibration_packet,
    EventNames,
};
use crate::export::event_in;
use crate::kinds::{kind_of, kinds_of, most_common, picked};
use crate::laws::detection::{picked_is_filter, the_most_common_kind_is_taken};
use crate::laws::events::the_flag_alone_tells_a_death;
use crate::laws::markers::{
    a_marker_is_found_if_there_is_one, marker_stands_at, no_marker_stands,
    the_first_marker_is_found,
};
use crate::names::{names_in, null_terminated, offset_of};
use crate::search::{first_from, first_from_at, first_from_is_least};
use crate::stream::PacketView;
use crate::text::lowered;

verus! {

/// The calibrated flag is the fifth byte from the marker wherever that byte is 0 or 1, and
/// whatever the fourth is. It is the fourth only where the fifth cannot be a flag and the
/// fourth can. Where neither can, nothing is calibrated.
pub proof fn the_fifth_byte_is_the_flag(
    data: Seq<u8>,
    names: EventNames,
    is_death: bool,
    m: int,
)
    requires
        marker_stands_at(data, m),
        m > 0,
    ensures
        ({
            let r = format_of_event(data, names, is_death);
            &&& data[m + 5] == 0 || data[m + 5] == 1 ==> (r matches Ok(f)
                && f.guild_flag_offset_from_marker == 5)
            &&& data[m + 5] > 1 && (data[m + 4] == 0 || data[m + 4] == 1) ==> (r matches Ok(f)
                && f.guild_flag_offset_from_marker == 4)
            &&& data[m + 5] > 1 && data[m + 4] > 1 ==> r is Err
        }),
{
    the_first_marker_is_found(data, m);
}

/// Without a marker behind the first byte nothing is calibrated.
pub proof fn a_marker_is_needed(data: Seq<u8>, names: EventNames, is_death: bool)
    requires
        no_marker_stands(data) || marker_stands_at(data, 0),
    ensures
        format_of_event(data, names, is_death) is Err,
{
    a_marker_is_found_if_there_is_one(data);
    if marker_stands_at(data, 0) {
        the_first_marker_is_found(data, 0);
    }
}

/// A calibrated format tells the event it comes from as what it was.
pub proof fn the_event_is_told_as_it_was(
    packet: PacketView,
    names: EventNames,
    is_death: bool,
)
    requires
        format_of_event(packet.data, names, is_death) is Ok,
    ensures
        event_in(packet, format_of_event(packet.data, names, is_death)->Ok_0).is_death == is_death,
{
    a_marker_is_found_if_there_is_one(packet.data);
}

/// A format that was calibrated from a packet whose fifth byte can be a flag tells kill from
/// death in packets that differ in that byte: one with the same value there is what the
/// calibrated event was, and one with the other value is not.
pub proof fn kills_and_deaths_are_told_apart(
    data: Seq<u8>,
    names: EventNames,
    is_death: bool,
    m: int,
    packet: PacketView,
    n: int,
)
    requires
        marker_stands_at(data, m),
        m > 0,
        data[m + 5] <= 1,
        marker_stands_at(packet.data, n),
        packet.data[n + 5] <= 1,
    ensures
        format_of_event(data, names, is_death) matches Ok(f) && (event_in(packet, f).is_death
            == is_death <==> packet.data[n + 5] == data[m + 5]),
{
    the_fifth_byte_is_the_flag(data, names, is_death, m);
    the_first_marker_is_found(data, m);
    let f = format_of_event(data, names, is_death)->Ok_0;
    the_flag_alone_tells_a_death(packet, f, n);
}

/// Where only the fourth byte can be the flag, packets that differ in that byte are told apart
/// by it.
pub proof fn the_fourth_byte_tells_where_the_fifth_cannot(
    data: Seq<u8>,
    names: EventNames,
    is_death: bool,
    m: int,
    packet: PacketView,
    n: int,
)
    requires
        marker_stands_at(data, m),
        m > 0,
        data[m + 5] > 1,
        data[m + 4] <= 1,
        marker_stands_at(packet.data, n),
        packet.data[n + 4] <= 1,
    ensures
        format_of_event(data, names, is_death) matches Ok(f) && (event_in(packet, f).is_death
            == is_death <==> packet.data[n + 4] == data[m + 4]),
{
    the_fifth_byte_is_the_flag(data, names, is_death, m);
    the_first_marker_is_found(data, m);
    let f = format_of_event(data, names, is_death)->Ok_0;
    the_flag_alone_tells_a_death(packet, f, n);
}

/// A calibrated format is for packets with the opcode and length of the event's, has the first
/// place of each name, the first marker, and the guild's distance from it.
pub proof fn the_offsets_are_those_of_the_names(
    data: Seq<u8>,
    names: EventNames,
    is_death: bool,
    m: int,
    offsets: (int, int, int, int, int),
)
    requires
        5 <= data.len() <= 500,
        marker_stands_at(data, m),
        format_of_event(data, names, is_death) is Ok,
        offset_of(data, null_terminated(names.enemy_char)) == Some(offsets.0),
        offset_of(data, null_terminated(names.enemy_family)) == Some(offsets.1),
        offset_of(data, null_terminated(names.friendly_char)) == Some(offsets.2),
        offset_of(data, null_terminated(names.friendly_family)) == Some(offsets.3),
        offset_of(data, null_terminated(names.enemy_guild)) == Some(offsets.4),
        0 <= offsets.0 < data.len(),
        0 <= offsets.1 < data.len(),
        0 <= offsets.2 < data.len(),
        0 <= offsets.3 < data.len(),
        0 <= offsets.4 < data.len(),
    ensures
        ({
            let f = format_of_event(data, names, is_death)->Ok_0;
            &&& f.opcode == data[3] + 256 * data[4]
            &&& f.packet_len == data.len()
            &&& f.enemy_char_offset == offsets.0
            &&& f.enemy_family_offset == offsets.1
            &&& f.friendly_char_offset == offsets.2
            &&& f.friendly_family_offset == offsets.3
            &&& f.guild_string_offset == offsets.4
            &&& f.guild_marker_offset == m
            &&& f.guild_marker_offset + f.guild_string_offset_from_marker == offsets.4
            &&& !f.old_format
        }),
{
    the_first_marker_is_found(data, m);
}

/// Whether a packet can be that of an event and holds all of an event's names, each with its
/// terminator.
pub open spec fn tells_of_the_event(data: Seq<u8>, names: EventNames) -> bool {
    &&& 300 <= data.len() <= 500
    &&& data[2] == 0
    &&& data[3] != 0 || data[4] != 0
    &&& offset_of(data, null_terminated(names.friendly_char)) is Some
    &&& offset_of(data, null_terminated(names.friendly_family)) is Some
    &&& offset_of(data, null_terminated(names.enemy_char)) is Some
    &&& offset_of(data, null_terminated(names.enemy_family)) is Some
    &&& offset_of(data, null_terminated(names.enemy_guild)) is Some
}

/// The format comes from the first packet that holds all of the names, for a kill or a death
/// as it is called, in upper or lower case.
pub proof fn the_first_packet_with_the_names_is_taken(
    packets: Seq<PacketView>,
    names: EventNames,
    event: Seq<char>,
    i: int,
)
    requires
        0 <= i < packets.len(),
        tells_of_the_event(packets[i].data, names),
        forall|k: int| 0 <= k < i ==> !tells_of_the_event((#[trigger] packets[k]).data, names),
    ensures
        lowered(event) == seq!['k', 'i', 'l', 'l'] ==> calibrated(packets, names, event)
            == format_of_event(packets[i].data, names, false),
        lowered(event) == seq!['d', 'e', 'a', 't', 'h'] ==> calibrated(packets, names, event)
            == format_of_event(packets[i].data, names, true),
{
    let p = holds_names(packets, names);
    assert(p(i));
    assert forall|k: int| 0 <= k < i implies !#[trigger] p(k) by {
        assert(!tells_of_the_event(packets[k].data, names));
    }
    first_from_at(p, 0, i, packets.len() as int);
    reveal_strlit("kill");
    reveal_strlit("death");
    assert("kill"@ =~= seq!['k', 'i', 'l', 'l']);
    assert("death"@ =~= seq!['d', 'e', 'a', 't', 'h']);
    assert("kill"@.len() != "death"@.len());
}

/// Nothing is calibrated without a packet that holds all of the names, nor for what is called
/// neither a kill nor a death.
pub proof fn nothing_is_calibrated_without_the_names(
    packets: Seq<PacketView>,
    names: EventNames,
    event: Seq<char>,
)
    requires
        (forall|k: int|
            0 <= k < packets.len() ==> !tells_of_the_event((#[trigger] packets[k]).data, names))
            || (lowered(event) != seq!['k', 'i', 'l', 'l'] && lowered(event) != seq![
            'd',
            'e',
            'a',
            't',
            'h',
        ]),
    ensures
        calibrated(packets, names, event) is Err,
{
    let p = holds_names(packets, names);
    first_from_is_least(p, 0, packets.len() as int);
    match first_from(p, 0, packets.len() as int) {
        Some(k) => {
            assert(p(k));
            assert(tells_of_the_event(packets[k].data, names));
        },
        None => {},
    }
    reveal_strlit("kill");
    reveal_strlit("death");
    assert("kill"@ =~= seq!['k', 'i', 'l', 'l']);
    assert("death"@ =~= seq!['d', 'e', 'a', 't', 'h']);
}

/// Whether a packet can be that of an event and holds five names or more.
pub open spec fn may_serve(data: Seq<u8>) -> bool {
    &&& 300 <= data.len() <= 500
    &&& data[2] == 0
    &&& data[3] != 0 || data[4] != 0
    &&& names_in(data).len() >= 5
}

/// The candidate for calibration is the first packet of the most common kind among those with
/// five names or more.
pub proof fn the_candidate_is_of_the_most_common_kind(packets: Seq<PacketView>)
    ensures
        ({
            let candidates = packets.filter(|p: PacketView| may_serve(p.data));
            &&& candidates.len() == 0 ==> calibration_candidate(packets) is None
            &&& candidates.len() > 0 ==> {
                let i = most_common(kinds_of(candidates))->0;
                &&& 0 <= i < candidates.len()
                &&& calibration_candidate(packets) matches Some((kind, ts, found)) && {
                    &&& kind == kind_of(candidates[i].data)
                    &&& ts == candidates[i].ts
                    &&& found == names_in(candidates[i].data)
                }
            }
        }),
{
    let keep = |p: PacketView| may_serve(p.data);
    assert forall|p: PacketView| #[trigger] is_calibration_packet()(p) == keep(p) by {}
    picked_is_filter(packets, is_calibration_packet(), keep);
    let candidates = picked(packets, is_calibration_packet());
    if candidates.len() > 0 {
        the_most_common_kind_is_taken(kinds_of(candidates), 0);
    }
}

} // verus!
