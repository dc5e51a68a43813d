//! Events: what a packet tells of, byte by byte, and which packets tell of one.

use vstd::prelude::*;
use crate::detect::detected;
use crate::export::{
    event_format, event_in, event_name, event_row, event_table, events_in, exported, header_row,
    player_label, CsvLayout, EventView,
};
use crate::format::{entry_is_for, PacketFormat};
use crate::frame::{frames_view, CapturedFrame};
use crate::laws::formats::a_saved_format_is_brought_up_to_date;
use crate::laws::markers::{
    a_marker_is_found_if_there_is_one, marker_stands_at, no_marker_stands,
    the_first_marker_is_found,
};
use crate::names::bdo_string;
use crate::reassembly::packets_start_with_their_length;
use crate::refresh::updated;
use crate::search::{first_from, first_from_is_least, last_below, last_below_is_greatest};
use crate::stream::{packets_of, PacketView, RuleView};
use crate::text::trimmed;

verus! {

/// With the flag in the packet, it is a death exactly where the byte at the format's distance
/// from the first marker has the format's value for a death. No other byte counts.
pub proof fn the_flag_alone_tells_a_death(packet: PacketView, fmt: PacketFormat, m: int)
    requires
        marker_stands_at(packet.data, m),
        0 <= m + fmt.guild_flag_offset_from_marker < packet.data.len(),
    ensures
        event_in(packet, fmt).is_death <==> packet.data[m + fmt.guild_flag_offset_from_marker]
            == fmt.is_death_value,
{
    the_first_marker_is_found(packet.data, m);
}

/// Packets that have the same first marker and the same flag tell of the same, a kill or a
/// death, whatever else they hold.
pub proof fn other_bytes_tell_nothing_of_a_death(
    one: PacketView,
    other: PacketView,
    fmt: PacketFormat,
    m: int,
)
    requires
        marker_stands_at(one.data, m),
        marker_stands_at(other.data, m),
        0 <= m + fmt.guild_flag_offset_from_marker < one.data.len(),
        m + fmt.guild_flag_offset_from_marker < other.data.len(),
        one.data[m + fmt.guild_flag_offset_from_marker] == other.data[m
            + fmt.guild_flag_offset_from_marker],
    ensures
        event_in(one, fmt).is_death == event_in(other, fmt).is_death,
{
    the_flag_alone_tells_a_death(one, fmt, m);
    the_flag_alone_tells_a_death(other, fmt, m);
}

/// A flag that would lie before the packet is its first byte.
pub proof fn a_flag_before_the_packet_is_its_first_byte(
    packet: PacketView,
    fmt: PacketFormat,
    m: int,
)
    requires
        marker_stands_at(packet.data, m),
        m + fmt.guild_flag_offset_from_marker < 0,
    ensures
        event_in(packet, fmt).is_death <==> packet.data[0] == fmt.is_death_value,
{
    the_first_marker_is_found(packet.data, m);
}

/// Without a marker, or with the flag behind the packet's end, it is a kill.
pub proof fn without_a_flag_it_is_a_kill(packet: PacketView, fmt: PacketFormat, m: int)
    requires
        no_marker_stands(packet.data) || (marker_stands_at(packet.data, m) && m
            + fmt.guild_flag_offset_from_marker >= packet.data.len()),
    ensures
        !event_in(packet, fmt).is_death,
{
    if no_marker_stands(packet.data) {
        a_marker_is_found_if_there_is_one(packet.data);
    } else {
        the_first_marker_is_found(packet.data, m);
    }
}

/// An event has the time of its packet, and the names that stand at the format's offsets.
pub proof fn an_event_has_the_names_of_its_packet(packet: PacketView, fmt: PacketFormat)
    ensures
        ({
            let e = event_in(packet, fmt);
            let family = bdo_string(packet.data, fmt.enemy_family_offset as int);
            let character = bdo_string(packet.data, fmt.enemy_char_offset as int);
            &&& e.ts == packet.ts
            &&& e.friendly_family == bdo_string(packet.data, fmt.friendly_family_offset as int)
            &&& e.friendly_char == bdo_string(packet.data, fmt.friendly_char_offset as int)
            &&& fmt.old_format ==> e.enemy_name == family
            &&& !fmt.old_format ==> e.enemy_name == family + seq![' ', '('] + character + seq![')']
            &&& 0 < fmt.guild_string_offset < packet.data.len() ==> e.enemy_guild == bdo_string(
                packet.data,
                fmt.guild_string_offset as int,
            )
            &&& fmt.guild_string_offset >= packet.data.len() > 0 ==> e.enemy_guild.len() == 0
        }),
{
    let family = bdo_string(packet.data, fmt.enemy_family_offset as int);
    let character = bdo_string(packet.data, fmt.enemy_char_offset as int);
    reveal_strlit(" (");
    reveal_strlit(")");
    assert(player_label(family, character) =~= family + seq![' ', '('] + character + seq![')']);
}

/// Where a format has no offset for the guild's name, the name is looked for at the format's
/// distance from the first marker.
pub proof fn a_guild_is_found_from_the_marker(packet: PacketView, fmt: PacketFormat, m: int)
    requires
        fmt.guild_string_offset == 0,
    ensures
        ({
            let i = m + fmt.guild_string_offset_from_marker;
            let guild = event_in(packet, fmt).enemy_guild;
            &&& marker_stands_at(packet.data, m) && 0 <= i < packet.data.len() ==> guild
                == bdo_string(packet.data, i)
            &&& marker_stands_at(packet.data, m) && i >= packet.data.len() ==> guild.len() == 0
            &&& marker_stands_at(packet.data, m) && i < 0 ==> guild == bdo_string(packet.data, 0)
            &&& no_marker_stands(packet.data) ==> guild.len() == 0
        }),
{
    a_marker_is_found_if_there_is_one(packet.data);
    if marker_stands_at(packet.data, m) {
        the_first_marker_is_found(packet.data, m);
    }
}

/// Whether the last format of a list for a packet is this one.
pub open spec fn is_last_for(formats: Seq<PacketFormat>, q: int, data: Seq<u8>) -> bool {
    &&& 0 <= q < formats.len()
    &&& formats[q].opcode == data[3] + 256 * data[4]
    &&& formats[q].packet_len == data.len()
    &&& forall|k: int|
        q < k < formats.len() ==> !((#[trigger] formats[k]).opcode == data[3] + 256 * data[4]
            && formats[k].packet_len == data.len())
}

/// Whether a packet is not one that a list of formats can read: it is shorter than a header,
/// encrypted, or no format has its opcode and length.
pub open spec fn is_not_read(formats: Seq<PacketFormat>, data: Seq<u8>) -> bool {
    ||| data.len() < 5
    ||| data[2] != 0
    ||| forall|k: int|
        0 <= k < formats.len() ==> !((#[trigger] formats[k]).opcode == data[3] + 256 * data[4]
            && formats[k].packet_len == data.len())
}

proof fn formats_are_plain(formats: Seq<PacketFormat>, data: Seq<u8>, q: int)
    requires
        data.len() <= usize::MAX,
    ensures
        data.len() >= 5 && data[2] == 0 && is_last_for(formats, q, data) ==> event_format(
            data,
            formats,
        ) == Some(formats[q]),
        is_not_read(formats, data) ==> event_format(data, formats) is None,
{
    let p = entry_is_for(formats, (data[3] + 256 * data[4]) as u16, data.len() as int);
    let n = formats.len() as int;
    last_below_is_greatest(p, n);
    if data.len() >= 5 && data[2] == 0 {
        match last_below(p, n) {
            Some(k) => {
                assert(p(k));
                assert(formats[k].opcode == data[3] + 256 * data[4]);
                if is_last_for(formats, q, data) {
                    assert(p(q));
                    if q > k {
                        assert(!p(q));
                    }
                }
            },
            None => {
                if is_last_for(formats, q, data) {
                    assert(p(q));
                }
            },
        }
    }
}

/// A packet is read in the last format with its opcode and length, and tells of one event, the
/// last of those so far.
pub proof fn a_packet_tells_of_one_event(
    packets: Seq<PacketView>,
    formats: Seq<PacketFormat>,
    packet: PacketView,
    q: int,
)
    requires
        5 <= packet.data.len() <= usize::MAX,
        packet.data[2] == 0,
        is_last_for(formats, q, packet.data),
    ensures
        events_in(packets.push(packet), formats) == events_in(packets, formats).push(
            event_in(packet, formats[q]),
        ),
{
    formats_are_plain(formats, packet.data, q);
    assert(packets.push(packet).drop_last() =~= packets);
}

/// A packet that is encrypted, cut short or of no known format tells of nothing.
pub proof fn an_unknown_packet_tells_of_nothing(
    packets: Seq<PacketView>,
    formats: Seq<PacketFormat>,
    packet: PacketView,
)
    requires
        packet.data.len() <= usize::MAX,
        is_not_read(formats, packet.data),
    ensures
        events_in(packets.push(packet), formats) == events_in(packets, formats),
{
    formats_are_plain(formats, packet.data, 0);
    assert(packets.push(packet).drop_last() =~= packets);
}

/// No packets tell of no events.
pub proof fn no_packets_tell_of_nothing(formats: Seq<PacketFormat>)
    ensures
        events_in(seq![], formats).len() == 0,
{
}

/// A row of the table holds the time, the event's name, the friendly family and character, the
/// enemy's guild and the enemy, in this order and as they are; or the two players with the
/// guild before them, the friendly one by family and character without the space around them.
pub proof fn a_row_holds_the_event(event: EventView)
    ensures
        ({
            let detailed = event_row(CsvLayout::Detailed, event);
            &&& detailed.len() == 6
            &&& detailed[0] == event.ts
            &&& detailed[1] == event_name(event.is_death)
            &&& detailed[2] == event.friendly_family
            &&& detailed[3] == event.friendly_char
            &&& detailed[4] == event.enemy_guild
            &&& detailed[5] == event.enemy_name
        }),
        ({
            let matchup = event_row(CsvLayout::Matchups, event);
            &&& matchup.len() == 5
            &&& matchup[0] == event.ts
            &&& matchup[1] == event_name(event.is_death)
            &&& matchup[2] == event.enemy_guild
            &&& matchup[3] == trimmed(event.friendly_family) + seq![' ', '('] + trimmed(
                event.friendly_char,
            ) + seq![')']
            &&& matchup[4] == event.enemy_name
        }),
        event_name(true) == seq!['D', 'e', 'a', 't', 'h'],
        event_name(false) == seq!['K', 'i', 'l', 'l'],
{
    reveal_strlit("Death");
    reveal_strlit("Kill");
    reveal_strlit(" (");
    reveal_strlit(")");
    assert("Death"@ =~= seq!['D', 'e', 'a', 't', 'h']);
    assert("Kill"@ =~= seq!['K', 'i', 'l', 'l']);
    let (family, character) = (trimmed(event.friendly_family), trimmed(event.friendly_char));
    assert(player_label(family, character) =~= family + seq![' ', '('] + character + seq![')']);
}

/// The table has a header and behind it one row for each event, in their order, as wide as the
/// header.
pub proof fn each_event_has_its_row(layout: CsvLayout, events: Seq<EventView>, i: int)
    requires
        0 <= i < events.len(),
    ensures
        event_table(layout, events).len() == events.len() + 1,
        event_table(layout, events)[0] == header_row(layout),
        event_table(layout, events)[i + 1] == event_row(layout, events[i]),
        event_table(layout, events)[i + 1].len() == header_row(layout).len(),
{
}

/// There are as many events as packets that a list of formats can read.
pub proof fn every_readable_packet_tells_of_an_event(
    packets: Seq<PacketView>,
    formats: Seq<PacketFormat>,
)
    requires
        forall|i: int|
            0 <= i < packets.len() ==> (#[trigger] packets[i]).data.len() <= usize::MAX,
    ensures
        events_in(packets, formats).len() == packets.filter(
            |p: PacketView| !is_not_read(formats, p.data),
        ).len(),
    decreases packets.len(),
{
    reveal(Seq::filter);
    if packets.len() > 0 {
        let rest = packets.drop_last();
        let data = packets.last().data;
        assert forall|i: int| 0 <= i < rest.len() implies (#[trigger] rest[i]).data.len()
            <= usize::MAX by {
            assert(rest[i] == packets[i]);
        }
        assert(packets[packets.len() - 1].data.len() <= usize::MAX);
        every_readable_packet_tells_of_an_event(rest, formats);
        formats_are_plain(formats, data, 0);
        if !is_not_read(formats, data) {
            let k = choose|k: int|
                0 <= k < formats.len() && (#[trigger] formats[k]).opcode == data[3] + 256 * data[4]
                    && formats[k].packet_len == data.len();
            let p = entry_is_for(formats, (data[3] + 256 * data[4]) as u16, data.len() as int);
            last_below_is_greatest(p, formats.len() as int);
            assert(p(k));
        }
    }
}

/// An export has one row for each packet that the saved formats can read, as they are after
/// they were brought up to date by what the capture itself shows.
pub proof fn an_export_has_a_row_for_each_readable_packet(
    frames: Seq<CapturedFrame>,
    layout: CsvLayout,
    known: Seq<PacketFormat>,
    formats: Seq<PacketFormat>,
)
    ensures
        exported(frames, layout, known, formats) matches Ok((_, count, what, after)) ==> {
            let packets = packets_of(frames_view(frames), RuleView::Known(after));
            &&& count == packets.filter(|p: PacketView| !is_not_read(after, p.data)).len()
            &&& what is Kept ==> after == formats
            &&& what is Added ==> after == formats.push(what->Added_0)
            &&& what is Updated ==> after.len() == formats.len() && after.contains(
                what->Updated_0,
            )
        },
{
    let detection = detected(packets_of(frames_view(frames), RuleView::Plausible), known, None);
    match exported(frames, layout, known, formats) {
        Ok((_, _, _, after)) => {
            let packets = packets_of(frames_view(frames), RuleView::Known(after));
            packets_start_with_their_length(frames_view(frames), RuleView::Known(after));
            every_readable_packet_tells_of_an_event(packets, after);
            match detection {
                Ok(d) => {
                    let p = entry_is_for(formats, d.opcode, d.packet_len as int);
                    first_from_is_least(p, 0, formats.len() as int);
                    match first_from(p, 0, formats.len() as int) {
                        Some(q) => {
                            assert(p(q));
                            assert forall|j: int| 0 <= j < q implies !((
                            #[trigger] formats[j]).opcode == d.opcode && formats[j].packet_len
                                == d.packet_len) by {
                                assert(!p(j));
                            }
                            a_saved_format_is_brought_up_to_date(d, formats, q);
                            assert(formats.update(q, updated(d, formats[q]))[q] == updated(
                                d,
                                formats[q],
                            ));
                        },
                        None => {},
                    }
                },
                Err(_) => {},
            }
        },
        Err(_) => {},
    }
}

/// An export fails exactly where nothing is saved and the capture shows no format either.
pub proof fn an_export_needs_a_format(
    frames: Seq<CapturedFrame>,
    layout: CsvLayout,
    known: Seq<PacketFormat>,
    formats: Seq<PacketFormat>,
)
    ensures
        exported(frames, layout, known, formats) is Err <==> formats.len() == 0 && detected(
            packets_of(frames_view(frames), RuleView::Plausible),
            known,
            None,
        ) is Err,
{
}

} // verus!
