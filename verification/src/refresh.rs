//! Formats that heal themselves: before an export, the layout of the capture is detected
//! and takes the place of a saved one that no longer fits.

use vstd::prelude::*;
use crate::detect::{
    a_name_turns_a_format_at_most, detect_format, detected, outcome, swap_sides, swapped,
};
use crate::format::{
    distinct_formats_match_once, find_format, format_for, formats_distinct, last_format_for,
    same_layout, same_packet_layout, save_packet_format, saved_format_is_found,
    saving_keeps_formats_distinct, with_format, PacketFormat,
};
use crate::frame::{frames_view, CapturedFrame};
use crate::stream::{packets_of, PacketView, RuleView};

verus! {

/// What a refresh did to the saved formats.
#[derive(Debug, Clone, Copy, PartialEq, Eq, Structural)]
pub enum RefreshOutcome {
    /// The saved formats are as they were.
    Kept,
    /// A saved format's layout was replaced by this one.
    Updated(PacketFormat),
    /// This format was added.
    Added(PacketFormat),
}

/// A detected format with what a saved one knows besides the layout: which value of the
/// flag is a death, and whether the format is old. Packets alone do not tell either.
pub open spec fn with_meaning(detected: PacketFormat, saved: PacketFormat) -> PacketFormat {
    PacketFormat {
        is_death_value: saved.is_death_value,
        old_format: saved.old_format,
        ..detected
    }
}

/// Whether the friendly side comes first in a layout, where that can be told: in the two
/// orders in which the names of the sides are detected.
pub open spec fn friendly_first(f: PacketFormat) -> Option<bool> {
    if f.enemy_char_offset < f.friendly_char_offset < f.friendly_family_offset
        < f.enemy_family_offset {
        Some(false)
    } else if f.friendly_char_offset < f.enemy_char_offset < f.enemy_family_offset
        < f.friendly_family_offset {
        Some(true)
    } else {
        None
    }
}

/// Whether a detected format has the sides the other way round than a saved one: the saved
/// layout is the detected one with the sides swapped, or the order of the sides tells it.
pub open spec fn is_turned(detected: PacketFormat, saved: PacketFormat) -> bool {
    ||| same_layout(saved, with_meaning(swapped(detected), saved))
    ||| match (friendly_first(detected), friendly_first(saved)) {
        (Some(d), Some(s)) => d != s,
        _ => false,
    }
}

/// A detected format with the sides as a saved one has them, and with what that one knows
/// besides the layout. Which side is whose was told with a player's name when the format
/// was saved; packets alone do not tell it.
pub open spec fn updated(detected: PacketFormat, saved: PacketFormat) -> PacketFormat {
    with_meaning(
        if is_turned(detected, saved) {
            swapped(detected)
        } else {
            detected
        },
        saved,
    )
}

/// What becomes of the saved formats when a format was detected: it is added, or takes
/// the place of the saved one for the same packets where their layouts differ, with the
/// sides as they were. Without a detected format, saved formats stay as they are; where
/// there are none, that is an error.
pub open spec fn refreshed(
    detection: Result<PacketFormat, Seq<char>>,
    formats: Seq<PacketFormat>,
) -> Result<(RefreshOutcome, Seq<PacketFormat>), Seq<char>> {
    match detection {
        Err(e) => if formats.len() == 0 {
            Err(e)
        } else {
            Ok((RefreshOutcome::Kept, formats))
        },
        Ok(d) => match format_for(formats, d.opcode, d.packet_len as int) {
            Some(saved) => {
                let now = updated(d, saved);
                if same_layout(saved, now) {
                    Ok((RefreshOutcome::Kept, formats))
                } else {
                    Ok((RefreshOutcome::Updated(now), with_format(formats, now)))
                }
            },
            None => Ok((RefreshOutcome::Added(d), with_format(formats, d))),
        },
    }
}

/// Whether the friendly side comes first in a layout, where that can be told.
fn tell_first(f: &PacketFormat) -> (r: Option<bool>)
    ensures
        r == friendly_first(*f),
{
    if f.enemy_char_offset < f.friendly_char_offset && f.friendly_char_offset
        < f.friendly_family_offset && f.friendly_family_offset < f.enemy_family_offset {
        Some(false)
    } else if f.friendly_char_offset < f.enemy_char_offset && f.enemy_char_offset
        < f.enemy_family_offset && f.enemy_family_offset < f.friendly_family_offset {
        Some(true)
    } else {
        None
    }
}

/// Gives a detected format what a saved one knows besides the layout.
fn add_meaning(detected: &PacketFormat, saved: &PacketFormat) -> (r: PacketFormat)
    ensures
        r == with_meaning(*detected, *saved),
{
    PacketFormat {
        is_death_value: saved.is_death_value,
        old_format: saved.old_format,
        ..*detected
    }
}

/// Gives a detected format the sides of a saved one, and what that one knows besides the
/// layout.
pub fn update_format(detected: &PacketFormat, saved: &PacketFormat) -> (r: PacketFormat)
    ensures
        r == updated(*detected, *saved),
{
    let other = swap_sides(detected);
    let as_saved = add_meaning(&other, saved);
    if same_packet_layout(saved, &as_saved) {
        return as_saved;
    }
    match (tell_first(detected), tell_first(saved)) {
        (Some(d), Some(s)) => {
            if d != s {
                as_saved
            } else {
                add_meaning(detected, saved)
            }
        },
        _ => add_meaning(detected, saved),
    }
}

/// Brings the saved formats up to date with what was detected.
pub fn apply_detection(detection: Result<PacketFormat, String>, formats: &mut Vec<PacketFormat>) -> (r:
    Result<RefreshOutcome, String>)
    ensures
        match (r, refreshed(outcome(detection), old(formats)@)) {
            (Ok(done), Ok((what, after))) => done == what && final(formats)@ == after,
            (Err(e), Err(message)) => e@ == message && final(formats)@ == old(formats)@,
            _ => false,
        },
{
    let detected = match detection {
        Ok(d) => d,
        Err(e) => {
            if formats.len() == 0 {
                return Err(e);
            }
            return Ok(RefreshOutcome::Kept);
        },
    };
    match find_format(formats.as_slice(), detected.opcode, detected.packet_len) {
        Some(saved) => {
            let now = update_format(&detected, &saved);
            if same_packet_layout(&saved, &now) {
                return Ok(RefreshOutcome::Kept);
            }
            save_packet_format(formats, &now);
            Ok(RefreshOutcome::Updated(now))
        },
        None => {
            save_packet_format(formats, &detected);
            Ok(RefreshOutcome::Added(detected))
        },
    }
}

/// Detects the layout of a capture and brings the saved formats up to date with it.
pub fn refresh_packet_formats(
    frames: &[CapturedFrame],
    known_formats: &[PacketFormat],
    formats: &mut Vec<PacketFormat>,
) -> (r: Result<RefreshOutcome, String>)
    ensures
        match (
            r,
            refreshed(
                detected(
                    packets_of(frames_view(frames@), RuleView::Plausible),
                    known_formats@,
                    None,
                ),
                old(formats)@,
            ),
        ) {
            (Ok(done), Ok((what, after))) => done == what && final(formats)@ == after,
            (Err(e), Err(message)) => e@ == message && final(formats)@ == old(formats)@,
            _ => false,
        },
{
    let detection = detect_format(frames, None, known_formats);
    apply_detection(detection, formats)
}

/// After a refresh with a detected format, the format for its packets has the detected
/// layout. The sides of a format that was there are kept, and so is what it says of deaths
/// and of its age.
pub proof fn refresh_adopts_the_layout(d: PacketFormat, formats: Seq<PacketFormat>)
    ensures
        refreshed(Ok(d), formats) is Ok,
        ({
            let after = refreshed(Ok(d), formats)->Ok_0.1;
            let before = format_for(formats, d.opcode, d.packet_len as int);
            match format_for(after, d.opcode, d.packet_len as int) {
                Some(now) => match before {
                    Some(saved) => now == updated(d, saved),
                    None => now == d,
                },
                None => false,
            }
        }),
{
    match format_for(formats, d.opcode, d.packet_len as int) {
        Some(saved) => {
            saved_format_is_found(
                formats,
                updated(d, saved),
                d.opcode,
                d.packet_len as int,
            );
        },
        None => {
            saved_format_is_found(formats, d, d.opcode, d.packet_len as int);
        },
    }
}

/// A refresh changes no format for other packets.
pub proof fn refresh_keeps_other_formats(
    d: PacketFormat,
    formats: Seq<PacketFormat>,
    opcode: u16,
    packet_len: int,
)
    requires
        d.opcode != opcode || d.packet_len != packet_len,
    ensures
        refreshed(Ok(d), formats) is Ok,
        format_for(refreshed(Ok(d), formats)->Ok_0.1, opcode, packet_len) == format_for(
            formats,
            opcode,
            packet_len,
        ),
{
    match format_for(formats, d.opcode, d.packet_len as int) {
        Some(saved) => {
            saved_format_is_found(formats, updated(d, saved), opcode, packet_len);
        },
        None => {
            saved_format_is_found(formats, d, opcode, packet_len);
        },
    }
}

/// A second refresh with the same detected format changes nothing.
pub proof fn refreshing_twice_is_refreshing_once(d: PacketFormat, formats: Seq<PacketFormat>)
    ensures
        refreshed(Ok(d), formats) is Ok,
        ({
            let after = refreshed(Ok(d), formats)->Ok_0.1;
            refreshed(Ok(d), after) == Ok::<_, Seq<char>>((RefreshOutcome::Kept, after))
        }),
{
    refresh_adopts_the_layout(d, formats);
}

/// An export after a refresh reads the packets of the detected kind in the detected
/// layout, with the sides that were saved, where no two saved formats are for the same packets. No two are for the same
/// packets after it either.
pub proof fn export_follows_the_refresh(d: PacketFormat, formats: Seq<PacketFormat>)
    requires
        formats_distinct(formats),
    ensures
        refreshed(Ok(d), formats) is Ok,
        ({
            let after = refreshed(Ok(d), formats)->Ok_0.1;
            &&& formats_distinct(after)
            &&& last_format_for(after, d.opcode, d.packet_len as int) == Some(
                match format_for(formats, d.opcode, d.packet_len as int) {
                    Some(saved) => updated(d, saved),
                    None => d,
                },
            )
        }),
{
    let after = refreshed(Ok(d), formats)->Ok_0.1;
    refresh_adopts_the_layout(d, formats);
    match format_for(formats, d.opcode, d.packet_len as int) {
        Some(saved) => saving_keeps_formats_distinct(formats, updated(d, saved)),
        None => saving_keeps_formats_distinct(formats, d),
    }
    distinct_formats_match_once(after, d.opcode, d.packet_len as int);
}

/// A saved format that is the detected one with the sides swapped is kept.
pub proof fn a_turned_format_is_kept(
    d: PacketFormat,
    saved: PacketFormat,
    formats: Seq<PacketFormat>,
)
    requires
        format_for(formats, d.opcode, d.packet_len as int) == Some(saved),
        saved == swapped(with_meaning(d, saved)),
    ensures
        refreshed(Ok(d), formats) == Ok::<_, Seq<char>>((RefreshOutcome::Kept, formats)),
{
}

/// Where a layout has moved, the side that came first still does, if it can be told which
/// that was.
pub proof fn refresh_keeps_the_side(d: PacketFormat, saved: PacketFormat)
    requires
        friendly_first(d) is Some,
        friendly_first(saved) is Some,
    ensures
        friendly_first(updated(d, saved)) == friendly_first(saved),
{
}

/// An export uses what detection saved for the same capture, with the sides as the player's
/// name told them: the refresh before it changes nothing.
pub proof fn export_uses_what_was_detected(
    packets: Seq<PacketView>,
    known: Seq<PacketFormat>,
    player_name: Option<Seq<char>>,
    formats: Seq<PacketFormat>,
)
    requires
        detected(packets, known, player_name) is Ok,
    ensures
        ({
            let fmt = detected(packets, known, player_name)->Ok_0;
            let saved = with_format(formats, fmt);
            refreshed(detected(packets, known, None), saved) == Ok::<_, Seq<char>>(
                (RefreshOutcome::Kept, saved),
            )
        }),
{
    let fmt = detected(packets, known, player_name)->Ok_0;
    match player_name {
        Some(name) => a_name_turns_a_format_at_most(packets, known, name),
        None => {},
    }
    saved_format_is_found(formats, fmt, fmt.opcode, fmt.packet_len as int);
}

} // verus!
