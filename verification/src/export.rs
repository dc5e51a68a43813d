//! Events of a capture, and the table they are exported to.

use vstd::prelude::*;
use crate::calibrate::{format_of_event, name_offset, EventNames};
use crate::detect::detected;
use crate::format::{copy_formats, find_last_format, last_format_for, PacketFormat};
use crate::frame::{frames_view, CapturedFrame};
use crate::kinds::{check_unencrypted, is_event_sized, is_unencrypted, kind_of, packet_kind};
use crate::marker::{find_marker, first_marker, marker_in};
use crate::names::{
    bdo_string, null_terminated, read_bdo_string, stands_at, written_name_reads_back,
};
use crate::records::{csv_text, fields_view, is_table, starts_with_mark, write_record};
use crate::refresh::{refresh_packet_formats, refreshed, RefreshOutcome};
use crate::search::first_from_is_least;
use crate::stream::{packets_of, packets_view, read_packets, BdoPacket, PacketView, RuleView, StreamRule};
use crate::text::{trim, trimmed};
use crate::utf16::encode;

verus! {

/// A kill or a death, as a packet tells it.
pub struct Event {
    pub ts: String,
    pub is_death: bool,
    pub friendly_family: String,
    pub friendly_char: String,
    pub enemy_guild: String,
    pub enemy_name: String,
}

/// A kill or a death, by value.
pub struct EventView {
    pub ts: Seq<char>,
    pub is_death: bool,
    pub friendly_family: Seq<char>,
    pub friendly_char: Seq<char>,
    pub enemy_guild: Seq<char>,
    pub enemy_name: Seq<char>,
}

impl View for Event {
    type V = EventView;

    open spec fn view(&self) -> EventView {
        EventView {
            ts: self.ts@,
            is_death: self.is_death,
            friendly_family: self.friendly_family@,
            friendly_char: self.friendly_char@,
            enemy_guild: self.enemy_guild@,
            enemy_name: self.enemy_name@,
        }
    }
}

/// A list of events, by value.
pub open spec fn events_view(events: Seq<Event>) -> Seq<EventView> {
    Seq::new(events.len(), |i: int| events[i]@)
}

/// The place at a distance from the marker, but not before the packet.
pub open spec fn from_marker(marker: int, distance: int) -> int {
    if marker + distance < 0 {
        0
    } else {
        marker + distance
    }
}

/// Whether a packet tells of a death: the flag has the format's value for one. Without a
/// marker, or with the flag outside the packet, it tells of a kill.
pub open spec fn tells_death(data: Seq<u8>, fmt: PacketFormat) -> bool {
    match first_marker(data) {
        Some(marker) => {
            let i = from_marker(marker, fmt.guild_flag_offset_from_marker as int);
            i < data.len() && data[i] == fmt.is_death_value
        },
        None => false,
    }
}

/// The enemy's guild: at the format's offset, or at its distance from the marker where the
/// format has no offset. What lies outside the packet reads as no guild.
pub open spec fn guild_in(data: Seq<u8>, fmt: PacketFormat) -> Seq<char> {
    if fmt.guild_string_offset > 0 {
        if fmt.guild_string_offset < data.len() {
            bdo_string(data, fmt.guild_string_offset as int)
        } else {
            seq![]
        }
    } else {
        match first_marker(data) {
            Some(marker) => {
                let i = from_marker(marker, fmt.guild_string_offset_from_marker as int);
                if i < data.len() {
                    bdo_string(data, i)
                } else {
                    seq![]
                }
            },
            None => seq![],
        }
    }
}

/// A family name with the character's name in brackets behind it.
pub open spec fn player_label(family: Seq<char>, character: Seq<char>) -> Seq<char> {
    family + " ("@ + character + ")"@
}

/// The event that a packet tells of in a format. An old format has no character name for
/// the enemy.
pub open spec fn event_in(packet: PacketView, fmt: PacketFormat) -> EventView {
    let data = packet.data;
    let enemy_family = bdo_string(data, fmt.enemy_family_offset as int);
    let enemy_char = bdo_string(data, fmt.enemy_char_offset as int);
    EventView {
        ts: packet.ts,
        is_death: tells_death(data, fmt),
        friendly_family: bdo_string(data, fmt.friendly_family_offset as int),
        friendly_char: bdo_string(data, fmt.friendly_char_offset as int),
        enemy_guild: guild_in(data, fmt),
        enemy_name: if fmt.old_format {
            enemy_family
        } else {
            player_label(enemy_family, enemy_char)
        },
    }
}

/// The format that a packet is read in: the last one for its opcode and length. An
/// encrypted packet is not read.
pub open spec fn event_format(data: Seq<u8>, formats: Seq<PacketFormat>) -> Option<PacketFormat> {
    if is_unencrypted(data) {
        last_format_for(formats, kind_of(data).opcode, kind_of(data).packet_len as int)
    } else {
        None
    }
}

/// The events that packets tell of, in their order.
pub open spec fn events_in(packets: Seq<PacketView>, formats: Seq<PacketFormat>) -> Seq<EventView>
    decreases packets.len(),
{
    if packets.len() == 0 {
        seq![]
    } else {
        let rest = events_in(packets.drop_last(), formats);
        match event_format(packets.last().data, formats) {
            Some(fmt) => rest.push(event_in(packets.last(), fmt)),
            None => rest,
        }
    }
}

/// Finds the place at a distance from the marker, if it is in the packet.
fn place_from_marker(len: usize, marker: usize, distance: isize) -> (r: Option<usize>)
    requires
        marker < len,
    ensures
        match r {
            Some(i) => i < len && i == from_marker(marker as int, distance as int),
            None => from_marker(marker as int, distance as int) >= len,
        },
{
    if distance >= 0 {
        let ahead: usize = distance as usize;
        if ahead < len - marker {
            Some(marker + ahead)
        } else {
            None
        }
    } else {
        let back: usize = (-(distance + 1)) as usize;
        if back < marker {
            Some(marker - back - 1)
        } else {
            Some(0)
        }
    }
}

/// Writes a family name with the character's name in brackets behind it.
pub fn write_player_label(family: &str, character: &str) -> (r: String)
    ensures
        r@ == player_label(family@, character@),
{
    let mut out = family.to_owned();
    out.append(" (");
    out.append(character);
    out.append(")");
    assert(out@ =~= player_label(family@, character@));
    out
}

/// Reads the event that a packet tells of in a format.
pub fn read_event(packet: &BdoPacket, fmt: &PacketFormat) -> (r: Event)
    ensures
        r@ == event_in(packet@, *fmt),
{
    let data = packet.data.as_slice();
    let enemy_char = read_bdo_string(data, fmt.enemy_char_offset);
    let enemy_family = read_bdo_string(data, fmt.enemy_family_offset);
    let friendly_char = read_bdo_string(data, fmt.friendly_char_offset);
    let friendly_family = read_bdo_string(data, fmt.friendly_family_offset);
    let mut enemy_guild = String::new();
    let mut is_death = false;
    if fmt.guild_string_offset > 0 && fmt.guild_string_offset < data.len() {
        enemy_guild = read_bdo_string(data, fmt.guild_string_offset);
    }
    match find_marker(data) {
        Some(marker) => {
            match place_from_marker(data.len(), marker, fmt.guild_flag_offset_from_marker) {
                Some(i) => {
                    is_death = data[i] == fmt.is_death_value;
                },
                None => {},
            }
            if fmt.guild_string_offset == 0 {
                match place_from_marker(data.len(), marker, fmt.guild_string_offset_from_marker) {
                    Some(i) => {
                        enemy_guild = read_bdo_string(data, i);
                    },
                    None => {},
                }
            }
        },
        None => {},
    }
    assert(enemy_guild@ =~= guild_in(data@, *fmt));
    let enemy_name = if fmt.old_format {
        enemy_family
    } else {
        write_player_label(enemy_family.as_str(), enemy_char.as_str())
    };
    Event {
        ts: packet.ts.as_str().to_owned(),
        is_death,
        friendly_family,
        friendly_char,
        enemy_guild,
        enemy_name,
    }
}

/// Reads the events that packets tell of.
pub fn read_events(packets: &[BdoPacket], formats: &[PacketFormat]) -> (r: Vec<Event>)
    ensures
        events_view(r@) == events_in(packets_view(packets@), formats@),
{
    let ghost all = packets_view(packets@);
    let mut events: Vec<Event> = Vec::new();
    let mut i: usize = 0;
    assert(events_view(events@) =~= events_in(all.take(0), formats@));
    while i < packets.len()
        invariant
            i <= packets.len(),
            all == packets_view(packets@),
            events_view(events@) == events_in(all.take(i as int), formats@),
        decreases packets.len() - i,
    {
        let packet = &packets[i];
        let ghost before = events@;
        proof {
            assert(all.take(i + 1).drop_last() =~= all.take(i as int));
            assert(all.take(i + 1).last() == packet@);
        }
        let data = packet.data.as_slice();
        if check_unencrypted(data) {
            let kind = packet_kind(data);
            match find_last_format(formats, kind.opcode, kind.packet_len) {
                Some(fmt) => {
                    events.push(read_event(packet, &fmt));
                    assert(events_view(events@) =~= events_view(before).push(
                        event_in(packet@, fmt),
                    ));
                },
                None => {},
            }
        }
        i = i + 1;
    }
    assert(all.take(i as int) =~= all);
    events
}

/// The columns of an exported table.
#[derive(Debug, Clone, Copy, PartialEq, Eq, Structural)]
pub enum CsvLayout {
    /// Timestamp, event, guild, and the two players, each as a family name with the
    /// character's name in brackets.
    Matchups,
    /// Timestamp, event, and the friendly family, friendly character, enemy guild and
    /// enemy player in columns of their own.
    Detailed,
}

/// The header of an exported table.
pub open spec fn header_row(layout: CsvLayout) -> Seq<Seq<char>> {
    match layout {
        CsvLayout::Matchups => seq![
            "Timestamp"@,
            "Event"@,
            "Guild"@,
            "Player 1"@,
            "Player 2"@,
        ],
        CsvLayout::Detailed => seq![
            "Timestamp"@,
            "Event"@,
            "Friendly Family"@,
            "Friendly Player"@,
            "Enemy Guild"@,
            "Enemy Player"@,
        ],
    }
}

/// What an event is called.
pub open spec fn event_name(is_death: bool) -> Seq<char> {
    if is_death {
        "Death"@
    } else {
        "Kill"@
    }
}

/// The row of an event.
pub open spec fn event_row(layout: CsvLayout, e: EventView) -> Seq<Seq<char>> {
    match layout {
        CsvLayout::Matchups => seq![
            e.ts,
            event_name(e.is_death),
            e.enemy_guild,
            player_label(trimmed(e.friendly_family), trimmed(e.friendly_char)),
            e.enemy_name,
        ],
        CsvLayout::Detailed => seq![
            e.ts,
            event_name(e.is_death),
            e.friendly_family,
            e.friendly_char,
            e.enemy_guild,
            e.enemy_name,
        ],
    }
}

/// The table of events: the header, and one row for each event.
pub open spec fn event_table(layout: CsvLayout, events: Seq<EventView>) -> Seq<Seq<Seq<char>>> {
    Seq::new(
        events.len() + 1,
        |i: int|
            if i == 0 {
                header_row(layout)
            } else {
                event_row(layout, events[i - 1])
            },
    )
}

/// The fields of the header.
fn write_header(layout: CsvLayout) -> (r: Vec<String>)
    ensures
        fields_view(r@) == header_row(layout),
{
    let mut fields: Vec<String> = Vec::new();
    fields.push("Timestamp".to_owned());
    fields.push("Event".to_owned());
    match layout {
        CsvLayout::Matchups => {
            fields.push("Guild".to_owned());
            fields.push("Player 1".to_owned());
            fields.push("Player 2".to_owned());
        },
        CsvLayout::Detailed => {
            fields.push("Friendly Family".to_owned());
            fields.push("Friendly Player".to_owned());
            fields.push("Enemy Guild".to_owned());
            fields.push("Enemy Player".to_owned());
        },
    }
    assert(fields_view(fields@) =~= header_row(layout));
    fields
}

/// The fields of an event's row.
pub fn write_row(layout: CsvLayout, e: &Event) -> (r: Vec<String>)
    ensures
        fields_view(r@) == event_row(layout, e@),
{
    let mut fields: Vec<String> = Vec::new();
    fields.push(e.ts.as_str().to_owned());
    fields.push(
        if e.is_death {
            "Death".to_owned()
        } else {
            "Kill".to_owned()
        },
    );
    match layout {
        CsvLayout::Matchups => {
            let family = trim(e.friendly_family.as_str());
            let character = trim(e.friendly_char.as_str());
            fields.push(e.enemy_guild.as_str().to_owned());
            fields.push(write_player_label(family.as_str(), character.as_str()));
            fields.push(e.enemy_name.as_str().to_owned());
        },
        CsvLayout::Detailed => {
            fields.push(e.friendly_family.as_str().to_owned());
            fields.push(e.friendly_char.as_str().to_owned());
            fields.push(e.enemy_guild.as_str().to_owned());
            fields.push(e.enemy_name.as_str().to_owned());
        },
    }
    assert(fields_view(fields@) =~= event_row(layout, e@));
    fields
}

/// Writes the table of events.
pub fn write_events(layout: CsvLayout, events: &[Event]) -> (r: String)
    ensures
        r@ == csv_text(event_table(layout, events_view(events@))),
{
    let ghost table = event_table(layout, events_view(events@));
    let header = write_header(layout);
    assert(fields_view(header@).len() == header@.len());
    let mut out = write_record(&header);
    proof {
        assert(table.take(1).drop_last() =~= Seq::<Seq<Seq<char>>>::empty());
        assert(table.take(1).last() == header_row(layout));
        assert(csv_text(table.take(1).drop_last()) =~= Seq::<char>::empty());
        assert(out@ =~= csv_text(table.take(1)));
    }
    let mut i: usize = 0;
    while i < events.len()
        invariant
            i <= events.len(),
            table == event_table(layout, events_view(events@)),
            out@ == csv_text(table.take(i + 1)),
        decreases events.len() - i,
    {
        let row = write_row(layout, &events[i]);
        assert(fields_view(row@).len() == row@.len());
        let line = write_record(&row);
        out.append(line.as_str());
        proof {
            assert(table.take(i + 2).drop_last() =~= table.take(i + 1));
            assert(table.take(i + 2).last() == event_row(layout, events@[i as int]@));
        }
        i = i + 1;
    }
    assert(table.take(i + 1) =~= table);
    out
}

/// What an export gives: the table, how many events are in it, and what became of the
/// saved formats.
pub struct Export {
    pub csv: String,
    pub count: u64,
    pub refresh: RefreshOutcome,
}

/// The message for an export without any format.
pub open spec fn no_format(reason: Seq<char>) -> Seq<char> {
    "Could not detect packet format from pcap and no saved config found: "@ + reason
}

/// The events that a capture tells of in saved formats.
pub open spec fn captured_events(
    frames: Seq<CapturedFrame>,
    formats: Seq<PacketFormat>,
) -> Seq<EventView> {
    events_in(packets_of(frames_view(frames), RuleView::Known(formats)), formats)
}

/// What an export gives: the table, how many events are in it, what became of the saved
/// formats, and the saved formats after it.
pub open spec fn exported(
    frames: Seq<CapturedFrame>,
    layout: CsvLayout,
    known: Seq<PacketFormat>,
    formats: Seq<PacketFormat>,
) -> Result<(Seq<char>, int, RefreshOutcome, Seq<PacketFormat>), Seq<char>> {
    match refreshed(
        detected(packets_of(frames_view(frames), RuleView::Plausible), known, None),
        formats,
    ) {
        Ok((what, after)) => {
            let events = captured_events(frames, after);
            Ok((csv_text(event_table(layout, events)), events.len() as int, what, after))
        },
        Err(reason) => Err(no_format(reason)),
    }
}

/// Exports the events of a capture. The saved formats are brought up to date first. There
/// is no export where there are none and none is detected.
pub fn export_csv(
    frames: &[CapturedFrame],
    layout: CsvLayout,
    known_formats: &[PacketFormat],
    formats: &mut Vec<PacketFormat>,
) -> (r: Result<Export, String>)
    ensures
        match (
            r,
            refreshed(
                detected(
                    packets_of(frames_view(frames@), RuleView::Plausible),
                    known_formats@,
                    None,
                ),
                old(formats)@,
            ),
        ) {
            (Ok(export), Ok((what, after))) => {
                let events = captured_events(frames@, after);
                &&& final(formats)@ == after
                &&& export.refresh == what
                &&& export.count == events.len()
                &&& export.csv@ == csv_text(event_table(layout, events))
            },
            (Err(e), Err(reason)) => e@ == no_format(reason) && final(formats)@ == old(formats)@,
            _ => false,
        },
        exported(frames@, layout, known_formats@, old(formats)@) == (match r {
            Ok(export) => Ok(
                (export.csv@, export.count as int, export.refresh, final(formats)@),
            ),
            Err(e) => Err(e@),
        }),
{
    let refresh = match refresh_packet_formats(frames, known_formats, formats) {
        Ok(done) => done,
        Err(reason) => {
            let mut message = "Could not detect packet format from pcap and no saved config found: "
                .to_owned();
            message.append(reason.as_str());
            return Err(message);
        },
    };
    let rule = StreamRule::Known(copy_formats(formats.as_slice()));
    let packets = read_packets(frames, &rule);
    let events = read_events(packets.as_slice(), formats.as_slice());
    assert(events_view(events@).len() == events@.len());
    let csv = write_events(layout, events.as_slice());
    Ok(Export { csv, count: events.len() as u64, refresh })
}

/// Whether a text fits into a name field of a packet and holds no null character.
pub open spec fn fits_field(name: Seq<char>) -> bool {
    encode(name).len() <= 31 && forall|k: int| 0 <= k < name.len() ==> name[k] != '\0'
}

/// A name that stands in a packet is what the field at its offset reads as.
proof fn named_field_reads_back(data: Seq<u8>, name: Seq<char>)
    requires
        name_offset(data, name) is Some,
        fits_field(name),
    ensures
        0 <= name_offset(data, name)->0 < data.len(),
        bdo_string(data, name_offset(data, name)->0) == name,
{
    let needle = null_terminated(name);
    first_from_is_least(stands_at(data, needle), 0, data.len() - needle.len() + 1);
    written_name_reads_back(data, name_offset(data, name)->0, name);
}

/// A format that was calibrated from an event reads that event out of its packet: the
/// names that were given, and whether it was a kill or a death.
pub proof fn calibrated_format_reads_its_event(
    packet: PacketView,
    names: EventNames,
    is_death: bool,
)
    requires
        is_event_sized(packet.data),
        name_offset(packet.data, names.friendly_char) is Some,
        name_offset(packet.data, names.friendly_family) is Some,
        name_offset(packet.data, names.enemy_char) is Some,
        name_offset(packet.data, names.enemy_family) is Some,
        name_offset(packet.data, names.enemy_guild) is Some,
        fits_field(names.friendly_char),
        fits_field(names.friendly_family),
        fits_field(names.enemy_char),
        fits_field(names.enemy_family),
        fits_field(names.enemy_guild),
        format_of_event(packet.data, names, is_death) is Ok,
    ensures
        event_in(packet, format_of_event(packet.data, names, is_death)->Ok_0) == (EventView {
            ts: packet.ts,
            is_death,
            friendly_family: names.friendly_family,
            friendly_char: names.friendly_char,
            enemy_guild: names.enemy_guild,
            enemy_name: player_label(names.enemy_family, names.enemy_char),
        }),
{
    let data = packet.data;
    named_field_reads_back(data, names.friendly_char);
    named_field_reads_back(data, names.friendly_family);
    named_field_reads_back(data, names.enemy_char);
    named_field_reads_back(data, names.enemy_family);
    named_field_reads_back(data, names.enemy_guild);
    first_from_is_least(marker_in(data), 0, data.len() - 7);
}

/// Exported events make up a table.
pub proof fn events_make_a_table(layout: CsvLayout, events: Seq<EventView>)
    ensures
        is_table(event_table(layout, events)),
        !starts_with_mark(event_table(layout, events)),
{
    let table = event_table(layout, events);
    assert(table[0] == header_row(layout));
    reveal_strlit("Timestamp");
    assert forall|i: int| 0 <= i < table.len() implies (#[trigger] table[i]).len()
        == table[0].len() && table[i].len() >= 2 by {}
}

} // verus!
