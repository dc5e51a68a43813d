//! Detection of a packet format: the most common event packet of a capture is taken
//! apart into names, and the order of the names gives the fields.

use vstd::prelude::*;
use crate::format::{format_for, is_for, PacketFormat};
use crate::frame::{frames_view, CapturedFrame};
use crate::kinds::{
    absent_kind_is_not_counted, are_at, check_event_sized, count_of, find_most_common,
    is_as_common_as_any, is_event_sized, kind_of, kinds_of, most_common, packet_kind, picked,
    picked_meets, picked_step, PacketKind,
};
use crate::marker::{find_guild_marker, guild_marker, guild_marker_is_among};
use crate::names::{
    contains_bytes, ends_before, find_all_bdo_strings, find_offset, is_read_at, name_bytes,
    names_are_ordered, names_in, names_view, offset_of, utf16le_bytes,
};
use crate::search::{first_from, first_from_is_least};
use crate::stream::{packets_of, packets_view, read_packets, BdoPacket, PacketView, RuleView, StreamRule};
use crate::text::{decimal, push_decimal};

verus! {

/// The guild marker of a packet, its flag's place from it, and the guild name's offset.
pub open spec fn marker_of(data: Seq<u8>, known: Seq<PacketFormat>) -> Option<(int, int, int)> {
    let kind = kind_of(data);
    guild_marker(data, names_in(data), kind.opcode, kind.packet_len as int, known)
}

/// Whether a packet can tell of a matchup: it can be that of an event, holds four names
/// or more, and has a guild marker with a flag.
pub open spec fn is_matchup(known: Seq<PacketFormat>) -> spec_fn(PacketView) -> bool {
    |p: PacketView|
        {
            &&& is_event_sized(p.data)
            &&& names_in(p.data).len() >= 4
            &&& marker_of(p.data, known) matches Some((_, flag, _))
            &&& flag >= 0
        }
}

/// The packets that can tell of a matchup.
pub open spec fn matchups(packets: Seq<PacketView>, known: Seq<PacketFormat>) -> Seq<PacketView> {
    picked(packets, is_matchup(known))
}

/// Whether the packet at an index is of a kind and holds a name.
pub open spec fn names_player(
    packets: Seq<PacketView>,
    kind: PacketKind,
    name: Seq<char>,
) -> spec_fn(int) -> bool {
    |i: int|
        kind_of(packets[i].data) == kind && offset_of(packets[i].data, name_bytes(name)) is Some
}

/// Which entries of a list are for packets of a kind, by their age.
pub open spec fn entry_of_age(
    formats: Seq<PacketFormat>,
    kind: PacketKind,
    old_format: bool,
) -> spec_fn(int) -> bool {
    |i: int|
        is_for(formats[i], kind.opcode, kind.packet_len as int) && formats[i].old_format
            == old_format
}

/// The first format for packets of a kind, by its age.
pub open spec fn format_of_age(
    formats: Seq<PacketFormat>,
    kind: PacketKind,
    old_format: bool,
) -> Option<PacketFormat> {
    match first_from(entry_of_age(formats, kind, old_format), 0, formats.len() as int) {
        Some(i) => Some(formats[i]),
        None => None,
    }
}

/// Whether the name at an index has an offset.
pub open spec fn has_offset(names: Seq<(Seq<char>, int)>, offset: int) -> spec_fn(int) -> bool {
    |i: int| names[i].1 == offset
}

/// Which of the names is the guild's: the one that the marker points to. Without a marker
/// behind the first byte, and where no name has that offset, it is the fourth.
pub open spec fn guild_index(names: Seq<(Seq<char>, int)>, marker: int, guild: int) -> int {
    match first_from(has_offset(names, guild), 0, names.len() as int) {
        Some(i) if marker > 0 => i,
        _ => 3,
    }
}

/// Why a format was not detected, or the format.
pub open spec fn outcome(r: Result<PacketFormat, String>) -> Result<PacketFormat, Seq<char>> {
    match r {
        Ok(f) => Ok(f),
        Err(e) => Err(e@),
    }
}

/// The offsets of the two players' names, in the order enemy character, enemy family,
/// friendly character, friendly family: as they stand, or the other way round where `at`
/// is the place of one of the enemy's names.
pub open spec fn oriented(offsets: (int, int, int, int), at: Option<int>) -> Option<
    (int, int, int, int),
> {
    let (enemy_char, enemy_family, friendly_char, friendly_family) = offsets;
    match at {
        None => Some(offsets),
        Some(i) => if i == enemy_char || i == enemy_family {
            Some((friendly_char, friendly_family, enemy_char, enemy_family))
        } else if i == friendly_char || i == friendly_family {
            Some(offsets)
        } else {
            None
        },
    }
}

/// The message for a name that stands at none of the players' offsets.
pub open spec fn misplaced_name(name: Seq<char>, friendly_char: int, enemy_char: int) -> Seq<
    char,
> {
    "Name '"@ + name + "' not at a character offset (expected "@ + decimal(friendly_char as nat)
        + " or "@ + decimal(enemy_char as nat) + ")"@
}

/// The message for a packet with too few names.
pub open spec fn too_few_names(found: int) -> Seq<char> {
    "Representative packet has fewer than 5 strings (found "@ + decimal(found as nat) + ")"@
}

/// The format of a packet. The names other than the guild's are, in this order, the
/// enemy's character, the friendly character, the friendly family and the enemy's family;
/// with a player's name and a packet that holds it, the sides are swapped where the name
/// is the enemy's. An old format is taken over, with its marker refreshed.
pub open spec fn format_of_packet(
    data: Seq<u8>,
    known: Seq<PacketFormat>,
    player: Option<(Seq<char>, Seq<u8>)>,
) -> Result<PacketFormat, Seq<char>> {
    let kind = kind_of(data);
    let names = names_in(data);
    let (marker, flag, guild) = match marker_of(data, known) {
        Some(m) => m,
        None => (0, 0, 0),
    };
    match format_of_age(known, kind, true) {
        Some(old) => Ok(
            PacketFormat {
                guild_marker_offset: marker as usize,
                guild_flag_offset_from_marker: flag as isize,
                guild_string_offset_from_marker: (guild - marker) as isize,
                ..old
            },
        ),
        None => if names.len() < 5 {
            Err(too_few_names(names.len() as int))
        } else {
            let g = guild_index(names, marker, guild);
            let others = names.remove(g);
            let at = match player {
                Some((name, packet)) => offset_of(packet, name_bytes(name)),
                None => None,
            };
            let offsets = (others[0].1, others[3].1, others[1].1, others[2].1);
            match oriented(offsets, at) {
                Some((enemy_char, enemy_family, friendly_char, friendly_family)) => Ok(
                    PacketFormat {
                        opcode: kind.opcode,
                        packet_len: kind.packet_len,
                        enemy_char_offset: enemy_char as usize,
                        enemy_family_offset: enemy_family as usize,
                        friendly_char_offset: friendly_char as usize,
                        friendly_family_offset: friendly_family as usize,
                        guild_marker_offset: marker as usize,
                        guild_flag_offset_from_marker: flag as isize,
                        guild_string_offset_from_marker: (names[g].1 - marker) as isize,
                        guild_string_offset: names[g].1 as usize,
                        is_death_value: match format_of_age(known, kind, false) {
                            Some(f) => f.is_death_value,
                            None => 0,
                        },
                        old_format: false,
                    },
                ),
                None => Err(misplaced_name(player.unwrap().0, offsets.2, offsets.0)),
            }
        },
    }
}

/// The format of a capture: that of the first packet of the most common kind that can
/// tell of a matchup. A player's name is looked up in the first packet of that kind that
/// holds it.
pub open spec fn detected(
    packets: Seq<PacketView>,
    known: Seq<PacketFormat>,
    player_name: Option<Seq<char>>,
) -> Result<PacketFormat, Seq<char>> {
    let candidates = matchups(packets, known);
    match most_common(kinds_of(candidates)) {
        None => Err("No matchup event packets found in pcap"@),
        Some(i) => {
            let data = candidates[i].data;
            match player_name {
                None => format_of_packet(data, known, None),
                Some(name) => match first_from(
                    names_player(candidates, kind_of(data), name),
                    0,
                    candidates.len() as int,
                ) {
                    None => Err("Player name not found in any event packet"@),
                    Some(j) => format_of_packet(data, known, Some((name, candidates[j].data))),
                },
            }
        },
    }
}

/// The error for a name that stands at none of the players' offsets.
fn misplaced_name_error(name: &str, friendly_char: usize, enemy_char: usize) -> (r: String)
    ensures
        r@ == misplaced_name(name@, friendly_char as int, enemy_char as int),
{
    let mut out = String::new();
    out.append("Name '");
    out.append(name);
    out.append("' not at a character offset (expected ");
    push_decimal(&mut out, friendly_char as u64);
    out.append(" or ");
    push_decimal(&mut out, enemy_char as u64);
    out.append(")");
    assert(out@ =~= misplaced_name(name@, friendly_char as int, enemy_char as int));
    out
}

/// The error for a packet with too few names.
fn too_few_names_error(found: usize) -> (r: String)
    ensures
        r@ == too_few_names(found as int),
{
    let mut out = String::new();
    out.append("Representative packet has fewer than 5 strings (found ");
    push_decimal(&mut out, found as u64);
    out.append(")");
    assert(out@ =~= too_few_names(found as int));
    out
}

/// Finds the first format for packets of a kind, by its age.
fn find_format_of_age(formats: &[PacketFormat], kind: PacketKind, old_format: bool) -> (r: Option<
    PacketFormat,
>)
    ensures
        r == format_of_age(formats@, kind, old_format),
{
    let ghost p = entry_of_age(formats@, kind, old_format);
    let ghost n = formats.len() as int;
    let mut i: usize = 0;
    while i < formats.len()
        invariant
            i <= formats.len(),
            n == formats.len(),
            p == entry_of_age(formats@, kind, old_format),
            first_from(p, 0, n) == first_from(p, i as int, n),
        decreases formats.len() - i,
    {
        let f = formats[i];
        if f.opcode == kind.opcode && f.packet_len == kind.packet_len && f.old_format
            == old_format {
            assert(p(i as int));
            return Some(f);
        }
        assert(!p(i as int));
        i = i + 1;
    }
    None
}

/// Finds which of the names is the guild's.
fn find_guild_index(names: &[(String, usize)], marker: usize, guild: usize) -> (r: usize)
    requires
        names.len() >= 4,
    ensures
        r == guild_index(names_view(names@), marker as int, guild as int),
        r < names.len(),
{
    let ghost p = has_offset(names_view(names@), guild as int);
    let ghost n = names.len() as int;
    let mut i: usize = 0;
    while i < names.len()
        invariant
            i <= names.len(),
            n == names.len(),
            p == has_offset(names_view(names@), guild as int),
            first_from(p, 0, n) == first_from(p, i as int, n),
            names.len() >= 4,
        decreases names.len() - i,
    {
        if names[i].1 == guild {
            assert(p(i as int));
            return if marker > 0 {
                i
            } else {
                3
            };
        }
        assert(!p(i as int));
        i = i + 1;
    }
    3
}

/// The place, in a list without the element at `g`, from which element `k` comes.
fn place_without(g: usize, k: usize) -> (r: usize)
    requires
        k < usize::MAX,
    ensures
        r == (if k < g {
            k as int
        } else {
            k + 1
        }),
{
    if k < g {
        k
    } else {
        k + 1
    }
}

/// The format of an event packet, with the player's name and a packet that holds it where
/// the sides are to be told apart by it.
fn describe_packet(data: &[u8], known: &[PacketFormat], player: Option<(&str, &[u8])>) -> (r:
    Result<PacketFormat, String>)
    requires
        is_event_sized(data@),
        player matches Some((name, packet)) ==> name@.len() > 0 && offset_of(
            packet@,
            name_bytes(name@),
        ) is Some,
    ensures
        outcome(r) == format_of_packet(
            data@,
            known@,
            match player {
                Some((name, packet)) => Some((name@, packet@)),
                None => None,
            },
        ),
{
    let kind = packet_kind(data);
    let names = find_all_bdo_strings(data);
    let ghost view = names_in(data@);
    proof {
        names_are_ordered(data@, 0);
        marker_in_packet(data@, known@);
        assert forall|k: int| 0 <= k < names@.len() implies (#[trigger] names@[k]).1
            == view[k].1 && view[k].1 < data@.len() by {
            assert(names_view(names@)[k] == view[k]);
        }
    }
    let (marker, flag, guild) = match find_guild_marker(
        data,
        names.as_slice(),
        kind.opcode,
        kind.packet_len,
        known,
    ) {
        Some(m) => m,
        None => (0, 0, 0),
    };
    match find_format_of_age(known, kind, true) {
        Some(old) => {
            return Ok(
                PacketFormat {
                    guild_marker_offset: marker,
                    guild_flag_offset_from_marker: flag,
                    guild_string_offset_from_marker: guild as isize - marker as isize,
                    ..old
                },
            );
        },
        None => {},
    }
    if names.len() < 5 {
        return Err(too_few_names_error(names.len()));
    }
    let g: usize = find_guild_index(names.as_slice(), marker, guild);
    let ghost others = view.remove(g as int);
    let mut enemy_char: usize = names[place_without(g, 0)].1;
    let mut friendly_char: usize = names[place_without(g, 1)].1;
    let mut friendly_family: usize = names[place_without(g, 2)].1;
    let mut enemy_family: usize = names[place_without(g, 3)].1;
    let guild_offset: usize = names[g].1;
    let ghost offsets = (others[0].1, others[3].1, others[1].1, others[2].1);
    assert(offsets == (
        enemy_char as int,
        enemy_family as int,
        friendly_char as int,
        friendly_family as int,
    ));
    match player {
        Some((name, packet)) => {
            let bytes = utf16le_bytes(name);
            proof {
                name_bytes_are_there(name@);
            }
            match find_offset(packet, bytes.as_slice()) {
                Some(at) => {
                    if at == enemy_char || at == enemy_family {
                        let (c, f) = (enemy_char, enemy_family);
                        enemy_char = friendly_char;
                        enemy_family = friendly_family;
                        friendly_char = c;
                        friendly_family = f;
                    } else if at != friendly_char && at != friendly_family {
                        return Err(misplaced_name_error(name, friendly_char, enemy_char));
                    }
                },
                None => {},
            }
        },
        None => {},
    }
    let is_death_value: u8 = match find_format_of_age(known, kind, false) {
        Some(f) => f.is_death_value,
        None => 0,
    };
    Ok(
        PacketFormat {
            opcode: kind.opcode,
            packet_len: kind.packet_len,
            enemy_char_offset: enemy_char,
            enemy_family_offset: enemy_family,
            friendly_char_offset: friendly_char,
            friendly_family_offset: friendly_family,
            guild_marker_offset: marker,
            guild_flag_offset_from_marker: flag,
            guild_string_offset_from_marker: guild_offset as isize - marker as isize,
            guild_string_offset: guild_offset,
            is_death_value,
            old_format: false,
        },
    )
}

/// A name with characters has bytes.
proof fn name_bytes_are_there(name: Seq<char>)
    requires
        name.len() > 0,
    ensures
        name_bytes(name).len() > 0,
{
}

/// The marker of a packet and the guild's name lie in the packet.
pub proof fn marker_in_packet(data: Seq<u8>, known: Seq<PacketFormat>)
    ensures
        marker_of(data, known) matches Some((marker, _, guild)) ==> 0 <= marker < data.len()
            && 0 <= guild < data.len(),
{
    names_are_ordered(data, 0);
    let kind = kind_of(data);
    guild_marker_is_among(
        data,
        names_in(data),
        format_for(known, kind.opcode, kind.packet_len as int),
        0,
    );
}

/// Whether a packet can tell of a matchup.
fn check_matchup(packet: &BdoPacket, known: &[PacketFormat]) -> (r: bool)
    ensures
        r == is_matchup(known@)(packet@),
{
    let data = packet.data.as_slice();
    if !check_event_sized(data) {
        return false;
    }
    let names = find_all_bdo_strings(data);
    if names.len() < 4 {
        assert(names_view(names@).len() < 4);
        return false;
    }
    let kind = packet_kind(data);
    match find_guild_marker(data, names.as_slice(), kind.opcode, kind.packet_len, known) {
        Some((_, flag, _)) => flag >= 0,
        None => false,
    }
}

/// The places of the packets that can tell of a matchup, and their kinds.
fn gather_matchups(packets: &[BdoPacket], known: &[PacketFormat]) -> (r: (
    Vec<usize>,
    Vec<PacketKind>,
))
    ensures
        are_at(packets_view(packets@), r.0@, matchups(packets_view(packets@), known@)),
        r.1@ == kinds_of(matchups(packets_view(packets@), known@)),
{
    let ghost all = packets_view(packets@);
    let ghost pick = is_matchup(known@);
    let mut places: Vec<usize> = Vec::new();
    let mut kinds: Vec<PacketKind> = Vec::new();
    let mut i: usize = 0;
    assert(kinds@ =~= kinds_of(picked(all.take(0), pick)));
    while i < packets.len()
        invariant
            i <= packets.len(),
            all == packets_view(packets@),
            pick == is_matchup(known@),
            are_at(all, places@, picked(all.take(i as int), pick)),
            kinds@ == kinds_of(picked(all.take(i as int), pick)),
        decreases packets.len() - i,
    {
        proof {
            picked_step(all, pick, i as int);
            assert(all[i as int] == packets@[i as int]@);
        }
        if check_matchup(&packets[i], known) {
            places.push(i);
            kinds.push(packet_kind(packets[i].data.as_slice()));
            assert(kinds@ =~= kinds_of(picked(all.take(i + 1), pick)));
        }
        i = i + 1;
    }
    assert(all.take(i as int) =~= all);
    (places, kinds)
}

/// Whether any packet of a capture can tell of a matchup.
pub fn has_matchups(frames: &[CapturedFrame], known_formats: &[PacketFormat]) -> (r: bool)
    ensures
        r == (matchups(
            packets_of(frames_view(frames@), RuleView::Plausible),
            known_formats@,
        ).len() > 0),
{
    let packets = read_packets(frames, &StreamRule::Plausible);
    let (places, _) = gather_matchups(packets.as_slice(), known_formats);
    places.len() > 0
}

/// Finds the first of some packets that is of a kind and holds a name.
fn find_named(packets: &[BdoPacket], places: &[usize], kinds: &[PacketKind], kind: PacketKind, name:
    &str, Ghost(candidates): Ghost<Seq<PacketView>>) -> (r: Option<usize>)
    requires
        name@.len() > 0,
        are_at(packets_view(packets@), places@, candidates),
        kinds@ == kinds_of(candidates),
    ensures
        match r {
            Some(j) => j < places.len() && first_from(
                names_player(candidates, kind, name@),
                0,
                candidates.len() as int,
            ) == Some(j as int),
            None => first_from(
                names_player(candidates, kind, name@),
                0,
                candidates.len() as int,
            ) is None,
        },
{
    let bytes = utf16le_bytes(name);
    proof {
        name_bytes_are_there(name@);
    }
    let ghost p = names_player(candidates, kind, name@);
    let ghost n = candidates.len() as int;
    let mut j: usize = 0;
    while j < places.len()
        invariant
            j <= places.len(),
            are_at(packets_view(packets@), places@, candidates),
            kinds@ == kinds_of(candidates),
            n == candidates.len(),
            p == names_player(candidates, kind, name@),
            bytes@ == name_bytes(name@),
            bytes@.len() > 0,
            first_from(p, 0, n) == first_from(p, j as int, n),
        decreases places.len() - j,
    {
        let ghost packet = candidates[j as int];
        assert(packet == packets_view(packets@)[places@[j as int] as int]);
        assert(kinds@[j as int] == kind_of(packet.data));
        if kinds[j] == kind && contains_bytes(packets[places[j]].data.as_slice(), bytes.as_slice()) {
            assert(p(j as int));
            return Some(j);
        }
        assert(!p(j as int));
        j = j + 1;
    }
    None
}

/// Detects the format of the packets of a capture.
pub fn detect_packet_format(
    packets: &[BdoPacket],
    player_name: Option<&str>,
    known_formats: &[PacketFormat],
) -> (r: Result<PacketFormat, String>)
    requires
        player_name matches Some(name) ==> name@.len() > 0,
    ensures
        outcome(r) == detected(
            packets_view(packets@),
            known_formats@,
            match player_name {
                Some(name) => Some(name@),
                None => None,
            },
        ),
{
    let ghost candidates = matchups(packets_view(packets@), known_formats@);
    let (places, kinds) = gather_matchups(packets, known_formats);
    let i: usize = match find_most_common(kinds.as_slice()) {
        Some(i) => i,
        None => {
            return Err("No matchup event packets found in pcap".to_owned());
        },
    };
    proof {
        picked_meets(packets_view(packets@), is_matchup(known_formats@));
        assert(candidates[i as int] == packets_view(packets@)[places@[i as int] as int]);
    }
    let data = packets[places[i]].data.as_slice();
    match player_name {
        None => describe_packet(data, known_formats, None),
        Some(name) => match find_named(
            packets,
            places.as_slice(),
            kinds.as_slice(),
            kinds[i],
            name,
            Ghost(candidates),
        ) {
            None => Err("Player name not found in any event packet".to_owned()),
            Some(j) => {
                proof {
                    first_from_is_least(
                        names_player(candidates, kind_of(data@), name@),
                        0,
                        candidates.len() as int,
                    );
                    assert(candidates[j as int] == packets_view(packets@)[places@[j as int] as int]);
                }
                describe_packet(
                    data,
                    known_formats,
                    Some((name, packets[places[j]].data.as_slice())),
                )
            },
        },
    }
}

/// Detects the format of a capture. A player's name, of a character or a family, tells
/// the friendly side from the enemy's.
pub fn detect_format(
    frames: &[CapturedFrame],
    player_name: Option<&str>,
    known_formats: &[PacketFormat],
) -> (r: Result<PacketFormat, String>)
    requires
        player_name matches Some(name) ==> name@.len() > 0,
    ensures
        outcome(r) == detected(
            packets_of(frames_view(frames@), RuleView::Plausible),
            known_formats@,
            match player_name {
                Some(name) => Some(name@),
                None => None,
            },
        ),
{
    let packets = read_packets(frames, &StreamRule::Plausible);
    detect_packet_format(packets.as_slice(), player_name, known_formats)
}

/// The same format with the two sides swapped.
pub open spec fn swapped(f: PacketFormat) -> PacketFormat {
    PacketFormat {
        enemy_char_offset: f.friendly_char_offset,
        enemy_family_offset: f.friendly_family_offset,
        friendly_char_offset: f.enemy_char_offset,
        friendly_family_offset: f.enemy_family_offset,
        ..f
    }
}

/// Swaps the two sides of a format.
pub fn swap_sides(f: &PacketFormat) -> (r: PacketFormat)
    ensures
        r == swapped(*f),
{
    PacketFormat {
        enemy_char_offset: f.friendly_char_offset,
        enemy_family_offset: f.friendly_family_offset,
        friendly_char_offset: f.enemy_char_offset,
        friendly_family_offset: f.enemy_family_offset,
        ..*f
    }
}

/// A player's name only tells the sides apart: with it a format is detected as without
/// it, or with the sides swapped, and the name stands in one of the friendly fields.
pub proof fn named_player_is_friendly(
    data: Seq<u8>,
    known: Seq<PacketFormat>,
    name: Seq<char>,
    packet: Seq<u8>,
)
    requires
        is_event_sized(data),
        offset_of(packet, name_bytes(name)) is Some,
        format_of_age(known, kind_of(data), true) is None,
        format_of_packet(data, known, Some((name, packet))) is Ok,
    ensures
        ({
            let with = format_of_packet(data, known, Some((name, packet)))->Ok_0;
            let without = format_of_packet(data, known, None)->Ok_0;
            let at = offset_of(packet, name_bytes(name))->0;
            &&& format_of_packet(data, known, None) is Ok
            &&& with == without || with == swapped(without)
            &&& at == with.friendly_char_offset || at == with.friendly_family_offset
        }),
{
    names_are_ordered(data, 0);
    marker_in_packet(data, known);
    let names = names_in(data);
    let (marker, flag, guild) = match marker_of(data, known) {
        Some(m) => m,
        None => (0, 0, 0),
    };
    let g = guild_index(names, marker, guild);
    first_from_is_least(has_offset(names, guild), 0, names.len() as int);
    let others = names.remove(g);
    assert forall|k: int| 0 <= k < others.len() implies 0 <= (#[trigger] others[k]).1
        < data.len() by {
        assert(others[k] == names[if k < g {
            k
        } else {
            k + 1
        }]);
    }
}

/// A field of a detected format is the offset of a name of the packet.
pub open spec fn is_name_offset(data: Seq<u8>, offset: int) -> bool {
    exists|k: int| 0 <= k < names_in(data).len() && (#[trigger] names_in(data)[k]).1 == offset
}

/// The fields of a detected format are five different names of the packet.
pub proof fn detected_fields_are_names(data: Seq<u8>, known: Seq<PacketFormat>)
    requires
        is_event_sized(data),
        format_of_age(known, kind_of(data), true) is None,
        format_of_packet(data, known, None) is Ok,
    ensures
        ({
            let f = format_of_packet(data, known, None)->Ok_0;
            &&& is_name_offset(data, f.enemy_char_offset as int)
            &&& is_name_offset(data, f.enemy_family_offset as int)
            &&& is_name_offset(data, f.friendly_char_offset as int)
            &&& is_name_offset(data, f.friendly_family_offset as int)
            &&& is_name_offset(data, f.guild_string_offset as int)
            &&& f.enemy_char_offset < f.friendly_char_offset < f.friendly_family_offset
                < f.enemy_family_offset < f.packet_len
            &&& f.guild_string_offset != f.enemy_char_offset
            &&& f.guild_string_offset != f.enemy_family_offset
            &&& f.guild_string_offset != f.friendly_char_offset
            &&& f.guild_string_offset != f.friendly_family_offset
            &&& f.guild_string_offset < f.packet_len
            &&& f.guild_marker_offset + f.guild_string_offset_from_marker
                == f.guild_string_offset
        }),
{
    marker_in_packet(data, known);
    let names = names_in(data);
    let (marker, flag, guild) = match marker_of(data, known) {
        Some(m) => m,
        None => (0, 0, 0),
    };
    let g = guild_index(names, marker, guild);
    first_from_is_least(has_offset(names, guild), 0, names.len() as int);
    other_names_increase(data, g);
    let others = names.remove(g);
    let f = format_of_packet(data, known, None)->Ok_0;
    assert(f.enemy_char_offset == others[0].1);
    assert(f.friendly_char_offset == others[1].1);
    assert(f.friendly_family_offset == others[2].1);
    assert(f.enemy_family_offset == others[3].1);
    assert(f.guild_string_offset == names[g].1);
}

/// The names of a packet but for one increase, and that one is none of them.
proof fn other_names_increase(data: Seq<u8>, g: int)
    requires
        names_in(data).len() >= 5,
        0 <= g < names_in(data).len(),
    ensures
        ({
            let names = names_in(data);
            let others = names.remove(g);
            &&& 0 <= others[0].1 < others[1].1 < others[2].1 < others[3].1 < data.len()
            &&& 0 <= names[g].1 < data.len()
            &&& forall|k: int| 0 <= k < 4 ==> (#[trigger] others[k]).1 != names[g].1
            &&& forall|k: int| 0 <= k < 4 ==> is_name_offset(data, (#[trigger] others[k]).1)
            &&& is_name_offset(data, names[g].1)
        }),
{
    let names = names_in(data);
    let others = names.remove(g);
    names_increase(data);
    assert forall|k: int| 0 <= k < 4 implies is_name_offset(data, (#[trigger] others[k]).1)
        && others[k].1 != names[g].1 by {
        let m = if k < g {
            k
        } else {
            k + 1
        };
        assert(others[k] == names[m]);
    }
}

/// The names of a packet are listed with increasing offsets.
proof fn names_increase(data: Seq<u8>)
    ensures
        forall|k: int|
            0 <= k < names_in(data).len() ==> 0 <= (#[trigger] names_in(data)[k]).1 < data.len(),
        forall|k: int, m: int|
            0 <= k < m < names_in(data).len() ==> (#[trigger] names_in(data)[k]).1 < (
            #[trigger] names_in(data)[m]).1,
{
    names_are_ordered(data, 0);
    let names = names_in(data);
    assert forall|k: int, m: int| 0 <= k < m < names.len() implies (#[trigger] names[k]).1 < (
    #[trigger] names[m]).1 by {
        assert(ends_before(names[k], names[m]));
        assert(is_read_at(data, 0, names[k]));
    }
}

/// The kind that a format is for.
pub open spec fn kind_for(f: PacketFormat) -> PacketKind {
    PacketKind { opcode: f.opcode, packet_len: f.packet_len }
}

/// A detected format is for the packets that it was taken from.
proof fn format_is_for_its_packet(
    data: Seq<u8>,
    known: Seq<PacketFormat>,
    player: Option<(Seq<char>, Seq<u8>)>,
)
    requires
        is_event_sized(data),
        format_of_packet(data, known, player) is Ok,
    ensures
        kind_for(format_of_packet(data, known, player)->Ok_0) == kind_of(data),
        format_of_packet(data, known, player)->Ok_0.old_format == (format_of_age(
            known,
            kind_of(data),
            true,
        ) is Some),
{
    let p = entry_of_age(known, kind_of(data), true);
    first_from_is_least(p, 0, known.len() as int);
    match first_from(p, 0, known.len() as int) {
        Some(i) => {
            assert(p(i));
        },
        None => {},
    }
}

/// The detected format is for the kind of packets that is most common among those that
/// can tell of a matchup.
pub proof fn detected_kind_is_most_common(
    packets: Seq<PacketView>,
    known: Seq<PacketFormat>,
    player_name: Option<Seq<char>>,
    other: PacketKind,
)
    requires
        detected(packets, known, player_name) is Ok,
    ensures
        ({
            let kinds = kinds_of(matchups(packets, known));
            let kind = kind_for(detected(packets, known, player_name)->Ok_0);
            &&& kinds.contains(kind)
            &&& count_of(kinds, other) <= count_of(kinds, kind)
        }),
{
    let candidates = matchups(packets, known);
    let kinds = kinds_of(candidates);
    let p = is_as_common_as_any(kinds);
    picked_meets(packets, is_matchup(known));
    first_from_is_least(p, 0, kinds.len() as int);
    let i = most_common(kinds)->0;
    let data = candidates[i].data;
    match player_name {
        None => format_is_for_its_packet(data, known, None),
        Some(name) => {
            let j = first_from(
                names_player(candidates, kind_of(data), name),
                0,
                candidates.len() as int,
            )->0;
            format_is_for_its_packet(data, known, Some((name, candidates[j].data)));
        },
    }
    assert(p(i));
    assert(kinds[i] == kind_of(data));
    if kinds.contains(other) {
        let k = choose|k: int| 0 <= k < kinds.len() && kinds[k] == other;
        assert(count_of(kinds, kinds[k]) <= count_of(kinds, kinds[i]));
    } else {
        absent_kind_is_not_counted(kinds, other);
    }
}

/// Where a format is detected with a player's name, one of its packets holds the name in
/// one of the friendly fields. An old format is taken over as it is.
pub proof fn detection_befriends_the_player(
    packets: Seq<PacketView>,
    known: Seq<PacketFormat>,
    name: Seq<char>,
)
    requires
        detected(packets, known, Some(name)) is Ok,
        !detected(packets, known, Some(name))->Ok_0.old_format,
    ensures
        ({
            let f = detected(packets, known, Some(name))->Ok_0;
            exists|j: int|
                0 <= j < matchups(packets, known).len() && kind_of(
                    (#[trigger] matchups(packets, known)[j]).data,
                ) == kind_for(f) && {
                    let at = offset_of(matchups(packets, known)[j].data, name_bytes(name));
                    at == Some(f.friendly_char_offset as int) || at == Some(
                        f.friendly_family_offset as int,
                    )
                }
        }),
{
    let candidates = matchups(packets, known);
    let kinds = kinds_of(candidates);
    picked_meets(packets, is_matchup(known));
    first_from_is_least(is_as_common_as_any(kinds), 0, kinds.len() as int);
    let i = most_common(kinds)->0;
    let data = candidates[i].data;
    let q = names_player(candidates, kind_of(data), name);
    first_from_is_least(q, 0, candidates.len() as int);
    let j = first_from(q, 0, candidates.len() as int)->0;
    assert(q(j));
    let packet = candidates[j].data;
    format_is_for_its_packet(data, known, Some((name, packet)));
    named_player_is_friendly(data, known, name, packet);
    assert(kind_of(matchups(packets, known)[j].data) == kind_of(data));
}

/// With a player's name the same format is detected as without it, or that format with the
/// sides swapped.
pub proof fn a_name_turns_a_format_at_most(
    packets: Seq<PacketView>,
    known: Seq<PacketFormat>,
    name: Seq<char>,
)
    requires
        detected(packets, known, Some(name)) is Ok,
    ensures
        detected(packets, known, None) is Ok,
        ({
            let with = detected(packets, known, Some(name))->Ok_0;
            let without = detected(packets, known, None)->Ok_0;
            with == without || with == swapped(without)
        }),
{
    let candidates = matchups(packets, known);
    let kinds = kinds_of(candidates);
    picked_meets(packets, is_matchup(known));
    first_from_is_least(is_as_common_as_any(kinds), 0, kinds.len() as int);
    let i = most_common(kinds)->0;
    let data = candidates[i].data;
    let q = names_player(candidates, kind_of(data), name);
    first_from_is_least(q, 0, candidates.len() as int);
    let j = first_from(q, 0, candidates.len() as int)->0;
    assert(q(j));
    if format_of_age(known, kind_of(data), true) is None {
        named_player_is_friendly(data, known, name, candidates[j].data);
    }
}

} // verus!
