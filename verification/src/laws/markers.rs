//! The guild marker: where it is found, where the flag lies from it, and which of the names
//! beside it is the guild's.

use vstd::prelude::*;
use crate::format::{entry_is_for, format_for, PacketFormat};
use crate::marker::{
    capitals, first_marker, guild_marker, guild_marker_from, letters, marker_in, more_capitals,
    starts_after, starts_before, string_after, string_before,
};
use crate::search::{
    first_from, first_from_at, first_from_is_least, last_below, last_below_is_greatest,
};
use crate::text::{is_capital, is_letter};

verus! {

/// Whether the bytes 06 00 00 00 stand at an index.
pub open spec fn bytes_of_marker(data: Seq<u8>, i: int) -> bool {
    data.subrange(i, i + 4) == seq![6u8, 0u8, 0u8, 0u8]
}

/// Whether the first 06 00 00 00 of a packet that has four more bytes behind it is at an
/// index.
pub open spec fn marker_stands_at(data: Seq<u8>, m: int) -> bool {
    &&& 0 <= m
    &&& m + 8 <= data.len()
    &&& bytes_of_marker(data, m)
    &&& forall|j: int| 0 <= j < m ==> !#[trigger] bytes_of_marker(data, j)
}

/// Whether no 06 00 00 00 of a packet has four more bytes behind it.
pub open spec fn no_marker_stands(data: Seq<u8>) -> bool {
    forall|j: int| 0 <= j && j + 8 <= data.len() ==> !#[trigger] bytes_of_marker(data, j)
}

proof fn marker_bytes(data: Seq<u8>, i: int)
    requires
        0 <= i,
        i + 8 <= data.len(),
    ensures
        bytes_of_marker(data, i) == marker_in(data)(i),
{
    let four = data.subrange(i, i + 4);
    assert(four[0] == data[i] && four[1] == data[i + 1] && four[2] == data[i + 2] && four[3]
        == data[i + 3]);
    if marker_in(data)(i) {
        assert(four =~= seq![6u8, 0u8, 0u8, 0u8]);
    }
}

/// The marker that is found is the first 06 00 00 00 with four more bytes behind it.
pub proof fn the_first_marker_is_found(data: Seq<u8>, m: int)
    requires
        marker_stands_at(data, m),
    ensures
        first_marker(data) == Some(m),
{
    marker_bytes(data, m);
    assert forall|j: int| 0 <= j < m implies !#[trigger] marker_in(data)(j) by {
        marker_bytes(data, j);
        assert(!bytes_of_marker(data, j));
    }
    first_from_at(marker_in(data), 0, m, data.len() - 7);
}

/// No marker is found exactly where no 06 00 00 00 has four more bytes behind it.
pub proof fn a_marker_is_found_if_there_is_one(data: Seq<u8>)
    ensures
        first_marker(data) is None <==> no_marker_stands(data),
        first_marker(data) matches Some(m) ==> marker_stands_at(data, m),
{
    let p = marker_in(data);
    first_from_is_least(p, 0, data.len() - 7);
    match first_marker(data) {
        Some(m) => {
            marker_bytes(data, m);
            assert forall|j: int| 0 <= j < m implies !#[trigger] bytes_of_marker(data, j) by {
                marker_bytes(data, j);
                assert(!p(j));
            }
        },
        None => {
            assert forall|j: int| 0 <= j && j + 8 <= data.len() implies !#[trigger] bytes_of_marker(
                data,
                j,
            ) by {
                marker_bytes(data, j);
                assert(!p(j));
            }
        },
    }
}

/// Whether a format is the first one of a list for packets of an opcode and a length.
pub open spec fn is_first_for(
    known: Seq<PacketFormat>,
    q: int,
    opcode: u16,
    packet_len: int,
) -> bool {
    &&& 0 <= q < known.len()
    &&& known[q].opcode == opcode
    &&& known[q].packet_len == packet_len
    &&& forall|k: int|
        0 <= k < q ==> !((#[trigger] known[k]).opcode == opcode && known[k].packet_len
            == packet_len)
}

/// Whether no format of a list is for packets of an opcode and a length.
pub open spec fn none_is_for(known: Seq<PacketFormat>, opcode: u16, packet_len: int) -> bool {
    forall|k: int|
        0 <= k < known.len() ==> !((#[trigger] known[k]).opcode == opcode && known[k].packet_len
            == packet_len)
}

/// The format for packets of an opcode and a length is the first with both of them.
pub proof fn the_first_format_counts(
    known: Seq<PacketFormat>,
    q: int,
    opcode: u16,
    packet_len: int,
)
    ensures
        is_first_for(known, q, opcode, packet_len) ==> format_for(known, opcode, packet_len)
            == Some(known[q]),
        none_is_for(known, opcode, packet_len) <==> format_for(known, opcode, packet_len) is None,
{
    let p = entry_is_for(known, opcode, packet_len);
    first_from_is_least(p, 0, known.len() as int);
    if is_first_for(known, q, opcode, packet_len) {
        assert(p(q));
        assert forall|j: int| 0 <= j < q implies !#[trigger] p(j) by {
            assert(!(known[j].opcode == opcode && known[j].packet_len == packet_len));
        }
        first_from_at(p, 0, q, known.len() as int);
    }
    match first_from(p, 0, known.len() as int) {
        Some(k) => {
            assert(p(k));
            assert(known[k].opcode == opcode);
        },
        None => {
            assert forall|k: int| 0 <= k < known.len() implies !((#[trigger] known[k]).opcode
                == opcode && known[k].packet_len == packet_len) by {
                assert(!p(k));
            }
        },
    }
}

/// Whether the last string that starts before an index is this one.
pub open spec fn stands_before(strings: Seq<(Seq<char>, int)>, m: int, b: int) -> bool {
    &&& 0 <= b < strings.len()
    &&& strings[b].1 < m
    &&& forall|k: int| b < k < strings.len() ==> (#[trigger] strings[k]).1 >= m
}

/// Whether the first string that starts after an index is this one.
pub open spec fn stands_after(strings: Seq<(Seq<char>, int)>, m: int, a: int) -> bool {
    &&& 0 <= a < strings.len()
    &&& strings[a].1 > m
    &&& forall|k: int| 0 <= k < a ==> (#[trigger] strings[k]).1 <= m
}

proof fn neighbours(strings: Seq<(Seq<char>, int)>, m: int)
    ensures
        forall|b: int| #[trigger]
            stands_before(strings, m, b) ==> string_before(strings, m) == Some(b),
        forall|a: int| #[trigger]
            stands_after(strings, m, a) ==> string_after(strings, m) == Some(a),
        string_before(strings, m) matches Some(b) ==> stands_before(strings, m, b),
        string_after(strings, m) matches Some(a) ==> stands_after(strings, m, a),
        string_before(strings, m) is None <==> forall|k: int|
            0 <= k < strings.len() ==> (#[trigger] strings[k]).1 >= m,
        string_after(strings, m) is None <==> forall|k: int|
            0 <= k < strings.len() ==> (#[trigger] strings[k]).1 <= m,
{
    let p = starts_before(strings, m);
    let q = starts_after(strings, m);
    let n = strings.len() as int;
    assert forall|k: int| #![trigger strings[k]] p(k) == (strings[k].1 < m) by {}
    assert forall|k: int| #![trigger strings[k]] q(k) == (strings[k].1 > m) by {}
    last_below_is_greatest(p, n);
    first_from_is_least(q, 0, n);
    match last_below(p, n) {
        Some(b) => {
            assert(p(b));
            assert forall|k: int| b < k < n implies (#[trigger] strings[k]).1 >= m by {
                assert(!p(k));
            }
            assert forall|c: int| #[trigger] stands_before(strings, m, c) implies c == b by {
                assert(p(c));
                if b < c {
                    assert(!p(c));
                } else if c < b {
                    assert(strings[b].1 >= m);
                }
            }
        },
        None => {
            assert forall|k: int| 0 <= k < n implies (#[trigger] strings[k]).1 >= m by {
                assert(!p(k));
            }
        },
    }
    match first_from(q, 0, n) {
        Some(a) => {
            assert(q(a));
            assert forall|k: int| 0 <= k < a implies (#[trigger] strings[k]).1 <= m by {
                assert(!q(k));
            }
            assert forall|c: int| #[trigger] stands_after(strings, m, c) implies c == a by {
                assert(q(c));
                if c < a {
                    assert(!q(c));
                } else if a < c {
                    assert(strings[a].1 <= m);
                }
            }
        },
        None => {
            assert forall|k: int| 0 <= k < n implies (#[trigger] strings[k]).1 <= m by {
                assert(!q(k));
            }
        },
    }
}

/// The search comes to the first marker.
proof fn marker_search_starts_there(
    payload: Seq<u8>,
    strings: Seq<(Seq<char>, int)>,
    known: Option<PacketFormat>,
    i: int,
    m: int,
)
    requires
        0 <= i <= m,
        marker_stands_at(payload, m),
    ensures
        guild_marker_from(payload, strings, known, i) == guild_marker_from(
            payload,
            strings,
            known,
            m,
        ),
    decreases m - i,
{
    if i < m {
        marker_bytes(payload, i);
        assert(!bytes_of_marker(payload, i));
        marker_search_starts_there(payload, strings, known, i + 1, m);
    }
}

/// The search finds nothing where there is no marker.
proof fn marker_search_fails(
    payload: Seq<u8>,
    strings: Seq<(Seq<char>, int)>,
    known: Option<PacketFormat>,
    i: int,
)
    requires
        0 <= i,
        no_marker_stands(payload),
    ensures
        guild_marker_from(payload, strings, known, i) is None,
    decreases payload.len() - i,
{
    if i + 8 <= payload.len() {
        marker_bytes(payload, i);
        assert(!bytes_of_marker(payload, i));
        marker_search_fails(payload, strings, known, i + 1);
    }
}

/// A packet without a marker has no guild marker.
pub proof fn without_a_marker_none_is_found(
    payload: Seq<u8>,
    strings: Seq<(Seq<char>, int)>,
    opcode: u16,
    packet_len: int,
    known: Seq<PacketFormat>,
)
    requires
        no_marker_stands(payload),
    ensures
        guild_marker(payload, strings, opcode, packet_len, known) is None,
{
    marker_search_fails(payload, strings, format_for(known, opcode, packet_len), 0);
}

/// In packets of a known format the guild marker is the first marker, the flag lies where the
/// format has it, and of two neighbours the guild's name is the one on the format's side.
pub proof fn a_known_format_gives_flag_and_side(
    payload: Seq<u8>,
    strings: Seq<(Seq<char>, int)>,
    opcode: u16,
    packet_len: int,
    known: Seq<PacketFormat>,
    q: int,
    m: int,
    b: int,
    a: int,
)
    requires
        is_first_for(known, q, opcode, packet_len),
        marker_stands_at(payload, m),
        stands_before(strings, m, b),
        stands_after(strings, m, a),
    ensures
        guild_marker(payload, strings, opcode, packet_len, known) == Some(
            (
                m,
                known[q].guild_flag_offset_from_marker as int,
                if known[q].guild_string_offset_from_marker < 0 {
                    strings[b].1
                } else {
                    strings[a].1
                },
            ),
        ),
{
    the_first_format_counts(known, q, opcode, packet_len);
    marker_search_starts_there(payload, strings, Some(known[q]), 0, m);
    marker_bytes(payload, m);
    neighbours(strings, m);
}

/// Where the first marker has a string on one side of it only, the guild's name is that one,
/// in a known format or not.
pub proof fn a_lone_neighbour_is_the_guild(
    payload: Seq<u8>,
    strings: Seq<(Seq<char>, int)>,
    opcode: u16,
    packet_len: int,
    known: Seq<PacketFormat>,
    m: int,
    k: int,
)
    requires
        marker_stands_at(payload, m),
        (stands_before(strings, m, k) && forall|j: int|
            0 <= j < strings.len() ==> (#[trigger] strings[j]).1 <= m) || (stands_after(
            strings,
            m,
            k,
        ) && forall|j: int| 0 <= j < strings.len() ==> (#[trigger] strings[j]).1 >= m),
    ensures
        guild_marker(payload, strings, opcode, packet_len, known) matches Some((marker, _, guild))
            && marker == m && guild == strings[k].1,
{
    let f = format_for(known, opcode, packet_len);
    marker_search_starts_there(payload, strings, f, 0, m);
    marker_bytes(payload, m);
    neighbours(strings, m);
}

/// In packets of an unknown format the flag is the first of the two bytes behind the marker
/// that is 0 or 1, and -1 stands for none.
pub proof fn an_unknown_format_takes_the_first_flag(
    payload: Seq<u8>,
    strings: Seq<(Seq<char>, int)>,
    opcode: u16,
    packet_len: int,
    known: Seq<PacketFormat>,
    m: int,
    k: int,
)
    requires
        none_is_for(known, opcode, packet_len),
        marker_stands_at(payload, m),
        0 <= k < strings.len(),
        strings[k].1 != m,
    ensures
        guild_marker(payload, strings, opcode, packet_len, known) matches Some((marker, flag, _))
            && {
            &&& marker == m
            &&& flag == 4 || flag == 5 || flag == -1
            &&& flag == 4 <==> payload[m + 4] == 0 || payload[m + 4] == 1
            &&& flag == 5 <==> payload[m + 4] > 1 && (payload[m + 5] == 0 || payload[m + 5] == 1)
        },
{
    the_first_format_counts(known, 0, opcode, packet_len);
    marker_search_starts_there(payload, strings, None, 0, m);
    marker_bytes(payload, m);
    neighbours(strings, m);
    if string_before(strings, m) is None && string_after(strings, m) is None {
        assert(strings[k].1 >= m);
        assert(strings[k].1 <= m);
    }
}

/// How many characters are letters.
pub open spec fn letters_in(s: Seq<char>) -> nat {
    s.filter(|c: char| is_letter(c)).len()
}

/// How many characters are letters in upper case.
pub open spec fn capitals_in(s: Seq<char>) -> nat {
    s.filter(|c: char| is_letter(c) && is_capital(c)).len()
}

proof fn counted(s: Seq<char>)
    ensures
        letters(s) == letters_in(s),
        capitals(s) == capitals_in(s),
        capitals(s) <= letters(s),
    decreases s.len(),
{
    reveal(Seq::filter);
    if s.len() > 0 {
        counted(s.drop_last());
    }
}

/// The share of capitals among the letters, as a fraction: a text without letters has none.
pub open spec fn share_is_greater(a: Seq<char>, b: Seq<char>) -> bool {
    let a_all = if letters_in(a) == 0 {
        1
    } else {
        letters_in(a)
    };
    let b_all = if letters_in(b) == 0 {
        1
    } else {
        letters_in(b)
    };
    capitals_in(a) * b_all > capitals_in(b) * a_all
}

proof fn shares_agree(a: Seq<char>, b: Seq<char>)
    ensures
        more_capitals(a, b) == share_is_greater(a, b),
{
    counted(a);
    counted(b);
    let (ca, cb) = (capitals_in(a), capitals_in(b));
    let lb = letters_in(b);
    if letters_in(a) == 0 {
        assert(ca == 0);
        let b_all = if lb == 0 {
            1
        } else {
            lb
        };
        assert(ca * b_all == 0) by (nonlinear_arith)
            requires
                ca == 0,
        ;
        assert(cb * 1 >= 0);
    } else if lb == 0 {
        let la = letters_in(a);
        assert(cb * la == 0) by (nonlinear_arith)
            requires
                cb == 0,
        ;
    }
}

/// In packets of an unknown format with a string on both sides of the marker, the guild's name
/// is the one with the greater share of capitals; with equal shares the nearer one; and at
/// equal distances the one before.
pub proof fn an_unknown_guild_is_told_by_its_capitals(
    payload: Seq<u8>,
    strings: Seq<(Seq<char>, int)>,
    opcode: u16,
    packet_len: int,
    known: Seq<PacketFormat>,
    m: int,
    b: int,
    a: int,
)
    requires
        none_is_for(known, opcode, packet_len),
        marker_stands_at(payload, m),
        stands_before(strings, m, b),
        stands_after(strings, m, a),
    ensures
        guild_marker(payload, strings, opcode, packet_len, known) matches Some((_, _, guild)) && {
            let before = share_is_greater(strings[b].0, strings[a].0);
            let after = share_is_greater(strings[a].0, strings[b].0);
            &&& before ==> guild == strings[b].1
            &&& after ==> guild == strings[a].1
            &&& !before && !after && m - strings[b].1 <= strings[a].1 - m ==> guild == strings[b].1
            &&& !before && !after && m - strings[b].1 > strings[a].1 - m ==> guild == strings[a].1
            &&& !(before && after)
        },
{
    the_first_format_counts(known, 0, opcode, packet_len);
    marker_search_starts_there(payload, strings, None, 0, m);
    marker_bytes(payload, m);
    neighbours(strings, m);
    shares_agree(strings[b].0, strings[a].0);
    shares_agree(strings[a].0, strings[b].0);
}

/// A marker that names stand around always has one of them as its guild: where a packet has
/// names and a marker that is none of their offsets, a guild marker is found.
pub proof fn a_marker_among_names_is_found(
    payload: Seq<u8>,
    strings: Seq<(Seq<char>, int)>,
    opcode: u16,
    packet_len: int,
    known: Seq<PacketFormat>,
    m: int,
    k: int,
)
    requires
        marker_stands_at(payload, m),
        0 <= k < strings.len(),
        strings[k].1 != m,
    ensures
        guild_marker(payload, strings, opcode, packet_len, known) matches Some((marker, _, _))
            && marker == m,
{
    let f = format_for(known, opcode, packet_len);
    marker_search_starts_there(payload, strings, f, 0, m);
    marker_bytes(payload, m);
    neighbours(strings, m);
    if string_before(strings, m) is None && string_after(strings, m) is None {
        assert(strings[k].1 >= m);
        assert(strings[k].1 <= m);
    }
}

} // verus!
