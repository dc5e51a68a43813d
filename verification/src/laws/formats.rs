//! Lists of formats: what saving, calibrating and refreshing do to one.

use vstd::prelude::*;
use crate::format::{entry_is_for, formats_without, same_layout, with_format, PacketFormat};
use crate::laws::markers::{is_first_for, none_is_for, the_first_format_counts};
use crate::refresh::{refreshed, updated, RefreshOutcome};
use crate::search::first_from_at;

verus! {

/// A format is saved in place of the first one with its opcode and length; the others stay
/// where they are.
pub proof fn saving_replaces_the_first(formats: Seq<PacketFormat>, fmt: PacketFormat, q: int)
    requires
        is_first_for(formats, q, fmt.opcode, fmt.packet_len as int),
    ensures
        with_format(formats, fmt).len() == formats.len(),
        with_format(formats, fmt)[q] == fmt,
        forall|k: int|
            0 <= k < formats.len() && k != q ==> #[trigger] with_format(formats, fmt)[k]
                == formats[k],
{
    let p = entry_is_for(formats, fmt.opcode, fmt.packet_len as int);
    assert(p(q));
    assert forall|j: int| 0 <= j < q implies !#[trigger] p(j) by {
        assert(!(formats[j].opcode == fmt.opcode && formats[j].packet_len == fmt.packet_len));
    }
    first_from_at(p, 0, q, formats.len() as int);
}

/// A format for packets that no other one is for is saved last; the others stay where they
/// are.
pub proof fn saving_adds_what_is_new(formats: Seq<PacketFormat>, fmt: PacketFormat)
    requires
        none_is_for(formats, fmt.opcode, fmt.packet_len as int),
    ensures
        with_format(formats, fmt).len() == formats.len() + 1,
        with_format(formats, fmt)[formats.len() as int] == fmt,
        forall|k: int|
            0 <= k < formats.len() ==> #[trigger] with_format(formats, fmt)[k] == formats[k],
{
    the_first_format_counts(formats, 0, fmt.opcode, fmt.packet_len as int);
}

/// Of a list of known formats, calibration leaves those with another opcode or length, all of
/// them and in their order.
pub proof fn calibration_leaves_other_formats(
    formats: Seq<PacketFormat>,
    opcode: u16,
    packet_len: int,
)
    ensures
        formats_without(formats, opcode, packet_len) == formats.filter(
            |f: PacketFormat| f.opcode != opcode || f.packet_len != packet_len,
        ),
    decreases formats.len(),
{
    reveal(Seq::filter);
    if formats.len() > 0 {
        calibration_leaves_other_formats(formats.drop_last(), opcode, packet_len);
    }
}

/// Two formats are of the same layout exactly where nothing but the value for a death differs.
pub proof fn a_layout_is_all_but_the_death_value(left: PacketFormat, right: PacketFormat)
    ensures
        same_layout(left, right) <==> {
            &&& left.opcode == right.opcode
            &&& left.packet_len == right.packet_len
            &&& left.enemy_char_offset == right.enemy_char_offset
            &&& left.enemy_family_offset == right.enemy_family_offset
            &&& left.friendly_char_offset == right.friendly_char_offset
            &&& left.friendly_family_offset == right.friendly_family_offset
            &&& left.guild_marker_offset == right.guild_marker_offset
            &&& left.guild_flag_offset_from_marker == right.guild_flag_offset_from_marker
            &&& left.guild_string_offset_from_marker == right.guild_string_offset_from_marker
            &&& left.guild_string_offset == right.guild_string_offset
            &&& left.old_format == right.old_format
        },
{
}

/// Whether the enemy's names stand around the friendly ones.
pub open spec fn enemy_around(f: PacketFormat) -> bool {
    f.enemy_char_offset < f.friendly_char_offset < f.friendly_family_offset
        < f.enemy_family_offset
}

/// Whether the friendly names stand around the enemy's.
pub open spec fn friendly_around(f: PacketFormat) -> bool {
    f.friendly_char_offset < f.enemy_char_offset < f.enemy_family_offset
        < f.friendly_family_offset
}

/// Whether a format has the sides of another.
pub open spec fn has_sides_of(f: PacketFormat, other: PacketFormat) -> bool {
    &&& f.enemy_char_offset == other.enemy_char_offset
    &&& f.enemy_family_offset == other.enemy_family_offset
    &&& f.friendly_char_offset == other.friendly_char_offset
    &&& f.friendly_family_offset == other.friendly_family_offset
}

/// Whether a format has the sides of another, the other way round.
pub open spec fn has_sides_against(f: PacketFormat, other: PacketFormat) -> bool {
    &&& f.enemy_char_offset == other.friendly_char_offset
    &&& f.enemy_family_offset == other.friendly_family_offset
    &&& f.friendly_char_offset == other.enemy_char_offset
    &&& f.friendly_family_offset == other.enemy_family_offset
}

/// An update takes the places from what was detected, and from what was saved the value for a
/// death and the age; the sides are the detected ones, the way round that was saved.
pub proof fn an_update_takes_the_places(detected: PacketFormat, saved: PacketFormat)
    ensures
        ({
            let now = updated(detected, saved);
            &&& now.opcode == detected.opcode
            &&& now.packet_len == detected.packet_len
            &&& now.guild_marker_offset == detected.guild_marker_offset
            &&& now.guild_flag_offset_from_marker == detected.guild_flag_offset_from_marker
            &&& now.guild_string_offset_from_marker == detected.guild_string_offset_from_marker
            &&& now.guild_string_offset == detected.guild_string_offset
            &&& now.is_death_value == saved.is_death_value
            &&& now.old_format == saved.old_format
            &&& has_sides_of(now, detected) || has_sides_against(now, detected)
            &&& enemy_around(detected) && enemy_around(saved) ==> has_sides_of(now, detected)
            &&& friendly_around(detected) && friendly_around(saved) ==> has_sides_of(now, detected)
            &&& enemy_around(detected) && friendly_around(saved) ==> has_sides_against(
                now,
                detected,
            )
            &&& friendly_around(detected) && enemy_around(saved) ==> has_sides_against(
                now,
                detected,
            )
            &&& !has_sides_against(saved, detected) && !((enemy_around(detected)
                || friendly_around(detected)) && (enemy_around(saved) || friendly_around(saved)))
                ==> has_sides_of(now, detected)
        }),
{
}

/// Where nothing is detected, saved formats stay as they are, and without any it is the error.
pub proof fn nothing_detected_changes_nothing(reason: Seq<char>, formats: Seq<PacketFormat>)
    ensures
        formats.len() > 0 ==> refreshed(Err(reason), formats) == Ok::<
            (RefreshOutcome, Seq<PacketFormat>),
            Seq<char>,
        >((RefreshOutcome::Kept, formats)),
        formats.len() == 0 ==> refreshed(Err(reason), formats) == Err::<
            (RefreshOutcome, Seq<PacketFormat>),
            Seq<char>,
        >(reason),
{
}

/// A detected format for packets that no saved one is for is added, as it is.
pub proof fn a_new_format_is_added(d: PacketFormat, formats: Seq<PacketFormat>)
    requires
        none_is_for(formats, d.opcode, d.packet_len as int),
    ensures
        refreshed(Ok(d), formats) == Ok::<(RefreshOutcome, Seq<PacketFormat>), Seq<char>>(
            (RefreshOutcome::Added(d), formats.push(d)),
        ),
{
    the_first_format_counts(formats, 0, d.opcode, d.packet_len as int);
}

/// A saved format for the detected packets gets the detected places; where it has them already
/// all formats stay as they are.
pub proof fn a_saved_format_is_brought_up_to_date(
    d: PacketFormat,
    formats: Seq<PacketFormat>,
    q: int,
)
    requires
        is_first_for(formats, q, d.opcode, d.packet_len as int),
    ensures
        ({
            let now = updated(d, formats[q]);
            &&& now == formats[q] ==> refreshed(Ok(d), formats) == Ok::<
                (RefreshOutcome, Seq<PacketFormat>),
                Seq<char>,
            >((RefreshOutcome::Kept, formats))
            &&& now != formats[q] ==> refreshed(Ok(d), formats) == Ok::<
                (RefreshOutcome, Seq<PacketFormat>),
                Seq<char>,
            >((RefreshOutcome::Updated(now), formats.update(q, now)))
        }),
{
    the_first_format_counts(formats, q, d.opcode, d.packet_len as int);
    let now = updated(d, formats[q]);
    saving_replaces_the_first(formats, now, q);
    assert(with_format(formats, now) =~= formats.update(q, now));
    an_update_takes_the_places(d, formats[q]);
}

} // verus!
