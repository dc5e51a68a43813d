//! Detection: which packet a format is taken from, and which of its names the fields are.

use vstd::prelude::*;
use crate::detect::{
    detected, entry_of_age, format_of_age, format_of_packet, guild_index, has_offset, is_matchup,
    marker_in_packet, marker_of, matchups, names_player,
};
use crate::format::{format_for, PacketFormat};
use crate::kinds::{
    count_of, is_as_common_as_any, kind_of, kinds_of, most_common, picked, PacketKind,
};
use crate::marker::{guild_marker, guild_marker_is_among};
use crate::names::{ends_before, name_bytes, names_are_ordered, names_in, offset_of};
use crate::search::{first_from, first_from_at, first_from_is_least};
use crate::stream::PacketView;

verus! {

/// Whether no old format of a list is for a packet, by its opcode and length.
pub open spec fn none_old(known: Seq<PacketFormat>, data: Seq<u8>) -> bool {
    forall|k: int|
        0 <= k < known.len() ==> !((#[trigger] known[k]).old_format && known[k].opcode == data[3]
            + 256 * data[4] && known[k].packet_len == data.len())
}

proof fn age_is_plain(known: Seq<PacketFormat>, data: Seq<u8>)
    requires
        5 <= data.len() <= 500,
    ensures
        none_old(known, data) <==> format_of_age(known, kind_of(data), true) is None,
{
    let p = entry_of_age(known, kind_of(data), true);
    first_from_is_least(p, 0, known.len() as int);
    match first_from(p, 0, known.len() as int) {
        Some(k) => {
            assert(p(k));
            assert(known[k].old_format);
        },
        None => {
            assert forall|k: int| 0 <= k < known.len() implies !(
            (#[trigger] known[k]).old_format && known[k].opcode == data[3] + 256 * data[4]
                && known[k].packet_len == data.len()) by {
                assert(!p(k));
            }
        },
    }
}

/// The names of a packet have growing offsets, all of them in the packet.
proof fn offsets_grow(data: Seq<u8>)
    ensures
        forall|i: int, j: int|
            0 <= i < j < names_in(data).len() ==> (#[trigger] names_in(data)[i]).1 < (
            #[trigger] names_in(data)[j]).1,
        forall|i: int|
            0 <= i < names_in(data).len() ==> 0 <= (#[trigger] names_in(data)[i]).1 < data.len(),
{
    names_are_ordered(data, 0);
    assert forall|i: int, j: int| 0 <= i < j < names_in(data).len() implies (
    #[trigger] names_in(data)[i]).1 < (#[trigger] names_in(data)[j]).1 by {
        assert(ends_before(names_in(data)[i], names_in(data)[j]));
    }
}

/// The place of the guild's name among the names of a packet.
proof fn guild_is_found(data: Seq<u8>, known: Seq<PacketFormat>, g: int)
    requires
        marker_of(data, known) is Some,
        marker_of(data, known).unwrap().0 > 0,
        0 <= g < names_in(data).len(),
        names_in(data)[g].1 == marker_of(data, known).unwrap().2,
    ensures
        guild_index(names_in(data), marker_of(data, known).unwrap().0, marker_of(data, known).unwrap().2) == g,
{
    let names = names_in(data);
    let guild = marker_of(data, known).unwrap().2;
    offsets_grow(data);
    let p = has_offset(names, guild);
    assert(p(g));
    assert forall|j: int| 0 <= j < g implies !#[trigger] p(j) by {
        assert(names[j].1 < names[g].1);
    }
    first_from_at(p, 0, g, names.len() as int);
}

/// The names of a packet without the one at an index, in their order.
pub open spec fn name_beside(data: Seq<u8>, g: int, k: int) -> int {
    names_in(data)[if k < g {
        k
    } else {
        k + 1
    }].1
}

/// A detected format has the guild's name where the guild marker says, wherever that is among
/// the names. The other names are, one behind the other, the enemy's character, the friendly
/// character, the friendly family and the enemy's family.
pub proof fn the_guild_is_where_the_marker_says(data: Seq<u8>, known: Seq<PacketFormat>, g: int)
    requires
        5 <= data.len() <= 500,
        none_old(known, data),
        marker_of(data, known) is Some,
        marker_of(data, known).unwrap().0 > 0,
        names_in(data).len() >= 5,
        0 <= g < names_in(data).len(),
        names_in(data)[g].1 == marker_of(data, known).unwrap().2,
    ensures
        format_of_packet(data, known, None) matches Ok(f) && {
            let (marker, flag, guild) = marker_of(data, known)->0;
            &&& f.guild_string_offset == guild
            &&& f.guild_marker_offset == marker
            &&& f.guild_marker_offset + f.guild_string_offset_from_marker == guild
            &&& f.guild_flag_offset_from_marker == flag
            &&& f.enemy_char_offset == name_beside(data, g, 0)
            &&& f.friendly_char_offset == name_beside(data, g, 1)
            &&& f.friendly_family_offset == name_beside(data, g, 2)
            &&& f.enemy_family_offset == name_beside(data, g, 3)
            &&& f.opcode == data[3] + 256 * data[4]
            &&& f.packet_len == data.len()
            &&& !f.old_format
        },
{
    offsets_grow(data);
    marker_in_packet(data, known);
    age_is_plain(known, data);
    guild_is_found(data, known, g);
    flag_fits(data, known);
    let names = names_in(data);
    let others = names.remove(g);
    assert(others[0] == names[if 0 < g {
        0
    } else {
        1
    }]);
    assert(others[1] == names[if 1 < g {
        1
    } else {
        2
    }]);
    assert(others[2] == names[if 2 < g {
        2
    } else {
        3
    }]);
    assert(others[3] == names[if 3 < g {
        3
    } else {
        4
    }]);
}

proof fn flag_fits(data: Seq<u8>, known: Seq<PacketFormat>)
    ensures
        marker_of(data, known) matches Some((_, flag, _)) ==> isize::MIN <= flag <= isize::MAX,
{
    let f = format_for(known, kind_of(data).opcode, kind_of(data).packet_len as int);
    guild_marker_is_among(data, names_in(data), f, 0);
}

/// The guild marker of a packet is looked for in the whole packet, among all of its names, with
/// the formats for its opcode and length.
pub proof fn the_whole_packet_is_searched(data: Seq<u8>, known: Seq<PacketFormat>)
    requires
        5 <= data.len() <= 500,
    ensures
        marker_of(data, known) == guild_marker(
            data,
            names_in(data),
            (data[3] + 256 * data[4]) as u16,
            data.len() as int,
            known,
        ),
{
}

/// Every guild marker names one of the packet's names.
pub proof fn the_marker_names_a_name(data: Seq<u8>, known: Seq<PacketFormat>)
    requires
        marker_of(data, known) is Some,
    ensures
        exists|g: int|
            0 <= g < names_in(data).len() && (#[trigger] names_in(data)[g]).1 == marker_of(
                data,
                known,
            ).unwrap().2,
{
    let f = format_for(known, kind_of(data).opcode, kind_of(data).packet_len as int);
    guild_marker_is_among(data, names_in(data), f, 0);
}

/// Without a marker behind the first byte, the guild's name is the fourth.
pub proof fn without_a_marker_the_fourth_name_is_the_guild(data: Seq<u8>, known: Seq<PacketFormat>)
    requires
        5 <= data.len() <= 500,
        none_old(known, data),
        marker_of(data, known) is None || marker_of(data, known).unwrap().0 == 0,
        names_in(data).len() >= 5,
    ensures
        format_of_packet(data, known, None) matches Ok(f) && {
            &&& f.guild_marker_offset == 0
            &&& f.guild_string_offset == names_in(data)[3].1
            &&& f.guild_string_offset_from_marker == names_in(data)[3].1
            &&& f.enemy_char_offset == names_in(data)[0].1
            &&& f.friendly_char_offset == names_in(data)[1].1
            &&& f.friendly_family_offset == names_in(data)[2].1
            &&& f.enemy_family_offset == names_in(data)[4].1
        },
{
    offsets_grow(data);
    age_is_plain(known, data);
    let names = names_in(data);
    let others = names.remove(3);
    assert(others[0] == names[0] && others[1] == names[1] && others[2] == names[2] && others[3]
        == names[4]);
}

/// A packet with fewer than five names gives no new format.
pub proof fn five_names_are_needed(
    data: Seq<u8>,
    known: Seq<PacketFormat>,
    player: Option<(Seq<char>, Seq<u8>)>,
)
    requires
        5 <= data.len() <= 500,
        none_old(known, data),
        names_in(data).len() < 5,
    ensures
        format_of_packet(data, known, player) is Err,
{
    age_is_plain(known, data);
}

/// The value for a death is that of the first format in use for the packet, and 0 where there
/// is none.
pub proof fn the_death_value_is_kept(
    data: Seq<u8>,
    known: Seq<PacketFormat>,
    player: Option<(Seq<char>, Seq<u8>)>,
    q: int,
)
    requires
        5 <= data.len() <= 500,
        none_old(known, data),
        format_of_packet(data, known, player) is Ok,
    ensures
        (0 <= q < known.len() && known[q].opcode == data[3] + 256 * data[4] && known[q].packet_len
            == data.len() && forall|k: int|
            0 <= k < q ==> !((#[trigger] known[k]).opcode == data[3] + 256 * data[4]
                && known[k].packet_len == data.len())) ==> format_of_packet(
            data,
            known,
            player,
        )->Ok_0.is_death_value == known[q].is_death_value,
        (forall|k: int|
            0 <= k < known.len() ==> !((#[trigger] known[k]).opcode == data[3] + 256 * data[4]
                && known[k].packet_len == data.len())) ==> format_of_packet(
            data,
            known,
            player,
        )->Ok_0.is_death_value == 0,
{
    age_is_plain(known, data);
    let p = entry_of_age(known, kind_of(data), false);
    first_from_is_least(p, 0, known.len() as int);
    if 0 <= q < known.len() && known[q].opcode == data[3] + 256 * data[4] && known[q].packet_len
        == data.len() && (forall|k: int|
        0 <= k < q ==> !((#[trigger] known[k]).opcode == data[3] + 256 * data[4]
            && known[k].packet_len == data.len())) {
        assert(!known[q].old_format);
        assert(p(q));
        assert forall|j: int| 0 <= j < q implies !#[trigger] p(j) by {
            assert(!(known[j].opcode == data[3] + 256 * data[4] && known[j].packet_len
                == data.len()));
        }
        first_from_at(p, 0, q, known.len() as int);
    }
    if forall|k: int|
        0 <= k < known.len() ==> !((#[trigger] known[k]).opcode == data[3] + 256 * data[4]
            && known[k].packet_len == data.len()) {
        match first_from(p, 0, known.len() as int) {
            Some(k) => {
                assert(p(k));
                assert(known[k].opcode == data[3] + 256 * data[4]);
            },
            None => {},
        }
    }
}

/// An old format stays as it is but for the marker, and what is measured from it.
pub proof fn an_old_format_has_its_marker_refreshed(
    data: Seq<u8>,
    known: Seq<PacketFormat>,
    player: Option<(Seq<char>, Seq<u8>)>,
    q: int,
)
    requires
        5 <= data.len() <= 500,
        0 <= q < known.len(),
        known[q].old_format,
        known[q].opcode == data[3] + 256 * data[4],
        known[q].packet_len == data.len(),
        forall|k: int|
            0 <= k < q ==> !((#[trigger] known[k]).old_format && known[k].opcode == data[3] + 256
                * data[4] && known[k].packet_len == data.len()),
        marker_of(data, known) is Some,
    ensures
        format_of_packet(data, known, player) matches Ok(f) && {
            let (marker, flag, guild) = marker_of(data, known)->0;
            &&& f.guild_marker_offset == marker
            &&& f.guild_flag_offset_from_marker == flag
            &&& f.guild_marker_offset + f.guild_string_offset_from_marker == guild
            &&& f.opcode == known[q].opcode
            &&& f.packet_len == known[q].packet_len
            &&& f.enemy_char_offset == known[q].enemy_char_offset
            &&& f.enemy_family_offset == known[q].enemy_family_offset
            &&& f.friendly_char_offset == known[q].friendly_char_offset
            &&& f.friendly_family_offset == known[q].friendly_family_offset
            &&& f.guild_string_offset == known[q].guild_string_offset
            &&& f.is_death_value == known[q].is_death_value
            &&& f.old_format
        },
{
    let p = entry_of_age(known, kind_of(data), true);
    marker_in_packet(data, known);
    flag_fits(data, known);
    assert(p(q));
    assert forall|j: int| 0 <= j < q implies !#[trigger] p(j) by {
        assert(!(known[j].old_format && known[j].opcode == data[3] + 256 * data[4]
            && known[j].packet_len == data.len()));
    }
    first_from_at(p, 0, q, known.len() as int);
}

/// A player's name that stands in the enemy's fields swaps the sides; one that stands in the
/// friendly fields leaves them; one that stands elsewhere gives no format.
pub proof fn a_name_decides_the_sides(
    data: Seq<u8>,
    known: Seq<PacketFormat>,
    name: Seq<char>,
    packet: Seq<u8>,
    at: int,
)
    requires
        5 <= data.len() <= 500,
        none_old(known, data),
        format_of_packet(data, known, None) is Ok,
        offset_of(packet, name_bytes(name)) == Some(at),
    ensures
        ({
            let plain = format_of_packet(data, known, None)->Ok_0;
            let r = format_of_packet(data, known, Some((name, packet)));
            &&& at == plain.enemy_char_offset || at == plain.enemy_family_offset ==> (r matches Ok(
                f,
            ) && f.friendly_char_offset == plain.enemy_char_offset && f.friendly_family_offset
                == plain.enemy_family_offset && f.enemy_char_offset == plain.friendly_char_offset
                && f.enemy_family_offset == plain.friendly_family_offset && f.guild_string_offset
                == plain.guild_string_offset && f.guild_marker_offset == plain.guild_marker_offset
                && f.guild_flag_offset_from_marker == plain.guild_flag_offset_from_marker
                && f.guild_string_offset_from_marker == plain.guild_string_offset_from_marker
                && f.is_death_value == plain.is_death_value && f.opcode == plain.opcode
                && f.packet_len == plain.packet_len && f.old_format == plain.old_format)
            &&& at == plain.friendly_char_offset || at == plain.friendly_family_offset ==> r == Ok::<
                PacketFormat,
                Seq<char>,
            >(plain)
            &&& at != plain.enemy_char_offset && at != plain.enemy_family_offset && at
                != plain.friendly_char_offset && at != plain.friendly_family_offset ==> r is Err
        }),
{
    offsets_grow(data);
    age_is_plain(known, data);
    marker_in_packet(data, known);
    let names = names_in(data);
    let (marker, flag, guild) = match marker_of(data, known) {
        Some(m) => m,
        None => (0, 0, 0),
    };
    let g = guild_index(names, marker, guild);
    first_from_is_least(has_offset(names, guild), 0, names.len() as int);
    let others = names.remove(g);
    assert forall|k: int| 0 <= k < others.len() implies #[trigger] others[k] == names[if k < g {
        k
    } else {
        k + 1
    }] by {}
    assert forall|i: int, j: int| 0 <= i < j < others.len() implies (#[trigger] others[i]).1 < (
    #[trigger] others[j]).1 by {
        let x = if i < g {
            i
        } else {
            i + 1
        };
        let y = if j < g {
            j
        } else {
            j + 1
        };
        assert(names[x].1 < names[y].1);
    }
    assert(others[0].1 < others[1].1 && others[1].1 < others[2].1 && others[2].1 < others[3].1);
    assert(names[if 3 < g {
        3
    } else {
        4
    }].1 < data.len());
}

/// A packet that can tell of a matchup: unencrypted, with an opcode, of 300 to 500 bytes, with
/// four names or more and a guild marker with a flag.
pub open spec fn may_be_a_matchup(data: Seq<u8>, known: Seq<PacketFormat>) -> bool {
    &&& 300 <= data.len() <= 500
    &&& data[2] == 0
    &&& data[3] != 0 || data[4] != 0
    &&& names_in(data).len() >= 4
    &&& marker_of(data, known) is Some
    &&& marker_of(data, known).unwrap().1 >= 0
}

/// The candidates for detection are the packets that can tell of a matchup, in their order.
pub proof fn candidates_are_the_matchups(packets: Seq<PacketView>, known: Seq<PacketFormat>)
    ensures
        matchups(packets, known) == packets.filter(
            |p: PacketView| may_be_a_matchup(p.data, known),
        ),
{
    let keep = |p: PacketView| may_be_a_matchup(p.data, known);
    assert forall|p: PacketView| #[trigger] is_matchup(known)(p) == keep(p) by {}
    picked_is_filter(packets, is_matchup(known), keep);
}

/// What is picked is the list without the rest.
pub proof fn picked_is_filter(
    packets: Seq<PacketView>,
    pick: spec_fn(PacketView) -> bool,
    keep: spec_fn(PacketView) -> bool,
)
    requires
        forall|p: PacketView| #[trigger] pick(p) == keep(p),
    ensures
        picked(packets, pick) == packets.filter(keep),
    decreases packets.len(),
{
    reveal(Seq::filter);
    if packets.len() > 0 {
        picked_is_filter(packets.drop_last(), pick, keep);
        assert(pick(packets.last()) == keep(packets.last()));
    }
}

/// A kind is counted as often as it occurs.
pub proof fn kinds_are_counted(kinds: Seq<PacketKind>, kind: PacketKind)
    ensures
        count_of(kinds, kind) == kinds.to_multiset().count(kind),
    decreases kinds.len(),
{
    kinds.to_multiset_ensures();
    if kinds.len() > 0 {
        let rest = kinds.drop_last();
        kinds_are_counted(rest, kind);
        rest.to_multiset_ensures();
        assert(rest.push(kinds.last()) =~= kinds);
        assert(kinds.to_multiset() =~= rest.to_multiset().insert(kinds.last()));
    } else {
        assert(kinds.to_multiset().len() == 0);
    }
}

/// The most common kind is the first of those that occur as often as any.
pub proof fn the_most_common_kind_is_taken(kinds: Seq<PacketKind>, k: int)
    requires
        0 <= k < kinds.len(),
    ensures
        most_common(kinds) matches Some(i) && {
            &&& 0 <= i < kinds.len()
            &&& kinds.to_multiset().count(kinds[k]) <= kinds.to_multiset().count(kinds[i])
            &&& k < i ==> kinds.to_multiset().count(kinds[k]) < kinds.to_multiset().count(kinds[i])
        },
{
    let p = is_as_common_as_any(kinds);
    most_common_exists(kinds, kinds.len() as int);
    first_from_is_least(p, 0, kinds.len() as int);
    let i = most_common(kinds)->0;
    assert(p(i));
    kinds_are_counted(kinds, kinds[k]);
    kinds_are_counted(kinds, kinds[i]);
    assert(count_of(kinds, kinds[k]) <= count_of(kinds, kinds[i]));
    if k < i {
        assert(!p(k));
        if count_of(kinds, kinds[k]) >= count_of(kinds, kinds[i]) {
            assert forall|j: int| 0 <= j < kinds.len() implies count_of(kinds, #[trigger] kinds[j])
                <= count_of(kinds, kinds[k]) by {
                assert(count_of(kinds, kinds[j]) <= count_of(kinds, kinds[i]));
            }
            assert(p(k));
        }
    }
}

/// One of the first kinds of a list is as common as any of them.
proof fn most_common_exists(kinds: Seq<PacketKind>, n: int) -> (i: int)
    requires
        0 < n <= kinds.len(),
    ensures
        0 <= i < n,
        forall|j: int| 0 <= j < n ==> count_of(kinds, #[trigger] kinds[j]) <= count_of(kinds, kinds[i]),
        n == kinds.len() ==> is_as_common_as_any(kinds)(i),
    decreases n,
{
    if n == 1 {
        0
    } else {
        let i = most_common_exists(kinds, n - 1);
        if count_of(kinds, kinds[n - 1]) > count_of(kinds, kinds[i]) {
            n - 1
        } else {
            i
        }
    }
}

/// A format is detected from the first packet of the most common kind among those that can
/// tell of a matchup, and from none where there is no such packet.
pub proof fn the_format_is_that_of_the_first_packet(
    packets: Seq<PacketView>,
    known: Seq<PacketFormat>,
)
    ensures
        ({
            let candidates = packets.filter(|p: PacketView| may_be_a_matchup(p.data, known));
            &&& candidates.len() == 0 ==> detected(packets, known, None) is Err
            &&& candidates.len() > 0 ==> {
                let i = most_common(kinds_of(candidates))->0;
                &&& 0 <= i < candidates.len()
                &&& detected(packets, known, None) == format_of_packet(
                    candidates[i].data,
                    known,
                    None,
                )
            }
        }),
{
    candidates_are_the_matchups(packets, known);
    let candidates = matchups(packets, known);
    if candidates.len() > 0 {
        the_most_common_kind_is_taken(kinds_of(candidates), 0);
    }
}

/// With a player's name, the sides are told by the first packet of the same kind that holds
/// the name; where none does, no format is detected.
pub proof fn the_name_is_looked_up_in_the_same_kind(
    packets: Seq<PacketView>,
    known: Seq<PacketFormat>,
    name: Seq<char>,
    j: int,
)
    ensures
        ({
            let candidates = packets.filter(|p: PacketView| may_be_a_matchup(p.data, known));
            let i = most_common(kinds_of(candidates))->0;
            let holds = |k: int|
                0 <= k < candidates.len() && kind_of(candidates[k].data) == kind_of(
                    candidates[i].data,
                ) && offset_of(candidates[k].data, name_bytes(name)) is Some;
            &&& (forall|k: int| !#[trigger] holds(k)) ==> detected(packets, known, Some(name)) is Err
            &&& holds(j) && (forall|k: int| 0 <= k < j ==> !#[trigger] holds(k)) ==> detected(
                packets,
                known,
                Some(name),
            ) == format_of_packet(
                candidates[i].data,
                known,
                Some((name, candidates[j].data)),
            )
        }),
{
    candidates_are_the_matchups(packets, known);
    let candidates = matchups(packets, known);
    let n = candidates.len() as int;
    if n > 0 {
        the_most_common_kind_is_taken(kinds_of(candidates), 0);
        let i = most_common(kinds_of(candidates))->0;
        let holds = |k: int|
            0 <= k < candidates.len() && kind_of(candidates[k].data) == kind_of(candidates[i].data)
                && offset_of(candidates[k].data, name_bytes(name)) is Some;
        let q = names_player(candidates, kind_of(candidates[i].data), name);
        assert forall|k: int| 0 <= k < n implies #[trigger] q(k) == holds(k) by {}
        first_from_is_least(q, 0, n);
        if forall|k: int| !#[trigger] holds(k) {
            if first_from(q, 0, n) is Some {
                assert(holds(first_from(q, 0, n)->0));
            }
        }
        if holds(j) && (forall|k: int| 0 <= k < j ==> !#[trigger] holds(k)) {
            assert(q(j));
            assert forall|k: int| 0 <= k < j implies !#[trigger] q(k) by {
                assert(!holds(k));
            }
            first_from_at(q, 0, j, n);
        }
    }
}

} // verus!
