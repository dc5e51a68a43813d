//! The guild marker of an event packet: the bytes 06 00 00 00, next to the guild's
//! name and the byte that tells a kill from a death.

use vstd::prelude::*;
use crate::format::{find_format, format_for, PacketFormat};
use crate::names::names_view;
use crate::search::{first_from, first_from_is_least, last_below, last_below_is_greatest};
use crate::text::{chars_of, check_capital, check_letter, is_capital, is_letter};

verus! {

/// Whether the marker stands at an index.
pub open spec fn marker_at(payload: Seq<u8>, i: int) -> bool {
    &&& payload[i] == 0x06
    &&& payload[i + 1] == 0
    &&& payload[i + 2] == 0
    &&& payload[i + 3] == 0
}

pub open spec fn marker_in(payload: Seq<u8>) -> spec_fn(int) -> bool {
    |i: int| marker_at(payload, i)
}

/// The first marker that has four more bytes behind it.
pub open spec fn first_marker(payload: Seq<u8>) -> Option<int> {
    first_from(marker_in(payload), 0, payload.len() - 7)
}

/// Whether the marker stands at `i`.
pub fn is_marker(payload: &[u8], i: usize) -> (r: bool)
    requires
        i + 7 < payload.len(),
    ensures
        r == marker_at(payload@, i as int),
{
    payload[i] == 0x06 && payload[i + 1] == 0x00 && payload[i + 2] == 0x00 && payload[i + 3]
        == 0x00
}

/// Finds the first marker that has four more bytes behind it.
pub fn find_marker(payload: &[u8]) -> (r: Option<usize>)
    ensures
        match r {
            Some(i) => i + 7 < payload.len() && first_marker(payload@) == Some(i as int),
            None => first_marker(payload@) is None,
        },
{
    let ghost p = marker_in(payload@);
    let ghost n = payload.len() - 7;
    if payload.len() < 7 {
        return None;
    }
    let mut i: usize = 0;
    while i < payload.len() - 7
        invariant
            7 <= payload.len(),
            i <= payload.len() - 7,
            p == marker_in(payload@),
            n == payload.len() - 7,
            first_from(p, 0, n) == first_from(p, i as int, n),
        decreases payload.len() - i,
    {
        if is_marker(payload, i) {
            assert(p(i as int));
            return Some(i);
        }
        assert(!p(i as int));
        i = i + 1;
    }
    None
}

/// How many of the characters are letters.
pub open spec fn letters(s: Seq<char>) -> nat
    decreases s.len(),
{
    if s.len() == 0 {
        0
    } else {
        letters(s.drop_last()) + if is_letter(s.last()) {
            1nat
        } else {
            0
        }
    }
}

/// How many of the characters are letters in upper case.
pub open spec fn capitals(s: Seq<char>) -> nat
    decreases s.len(),
{
    if s.len() == 0 {
        0
    } else {
        capitals(s.drop_last()) + if is_letter(s.last()) && is_capital(s.last()) {
            1nat
        } else {
            0
        }
    }
}

/// Whether the share of capitals among the letters is greater in `a` than in `b`. A
/// text without letters has a share of zero.
pub open spec fn more_capitals(a: Seq<char>, b: Seq<char>) -> bool {
    if letters(a) == 0 {
        false
    } else if letters(b) == 0 {
        capitals(a) > 0
    } else {
        capitals(a) * letters(b) > capitals(b) * letters(a)
    }
}

/// Counts the letters of a text, and the capitals among them.
fn count_letters(s: &str) -> (r: (usize, usize))
    ensures
        r.0 == letters(s@),
        r.1 == capitals(s@),
        r.1 <= r.0,
{
    let chars = chars_of(s);
    let mut all: usize = 0;
    let mut upper: usize = 0;
    let mut k: usize = 0;
    while k < chars.len()
        invariant
            k <= chars.len(),
            upper <= all <= k,
            all == letters(chars@.take(k as int)),
            upper == capitals(chars@.take(k as int)),
        decreases chars.len() - k,
    {
        assert(chars@.take(k + 1).drop_last() =~= chars@.take(k as int));
        if check_letter(chars[k]) {
            all = all + 1;
            if check_capital(chars[k]) {
                upper = upper + 1;
            }
        }
        k = k + 1;
    }
    assert(chars@.take(k as int) =~= s@);
    (all, upper)
}

/// Whether the share of capitals among the letters is greater in `a` than in `b`.
fn has_more_capitals(a: &str, b: &str) -> (r: bool)
    ensures
        r == more_capitals(a@, b@),
{
    let (a_all, a_upper) = count_letters(a);
    let (b_all, b_upper) = count_letters(b);
    if a_all == 0 {
        false
    } else if b_all == 0 {
        a_upper > 0
    } else {
        assert(a_upper * b_all <= u64::MAX * u64::MAX) by (nonlinear_arith)
            requires
                a_upper <= u64::MAX,
                b_all <= u64::MAX,
        ;
        assert(b_upper * a_all <= u64::MAX * u64::MAX) by (nonlinear_arith)
            requires
                b_upper <= u64::MAX,
                a_all <= u64::MAX,
        ;
        let left: u128 = a_upper as u128 * b_all as u128;
        let right: u128 = b_upper as u128 * a_all as u128;
        left > right
    }
}

pub open spec fn starts_before(strings: Seq<(Seq<char>, int)>, i: int) -> spec_fn(int) -> bool {
    |k: int| strings[k].1 < i
}

pub open spec fn starts_after(strings: Seq<(Seq<char>, int)>, i: int) -> spec_fn(int) -> bool {
    |k: int| strings[k].1 > i
}

/// The last string that starts before `i`.
pub open spec fn string_before(strings: Seq<(Seq<char>, int)>, i: int) -> Option<int> {
    last_below(starts_before(strings, i), strings.len() as int)
}

/// The first string that starts after `i`.
pub open spec fn string_after(strings: Seq<(Seq<char>, int)>, i: int) -> Option<int> {
    first_from(starts_after(strings, i), 0, strings.len() as int)
}

/// The offset of the guild's name for the marker at `i`. In a known format it lies on
/// that format's side of the marker, if there is a string on it. Else it is the
/// neighbour with the greater share of capitals, or the nearer one, or the one before.
pub open spec fn guild_offset(
    strings: Seq<(Seq<char>, int)>,
    known: Option<PacketFormat>,
    i: int,
) -> Option<int> {
    match (string_before(strings, i), string_after(strings, i)) {
        (Some(b), Some(a)) => match known {
            Some(k) => Some(
                if k.guild_string_offset_from_marker < 0 {
                    strings[b].1
                } else {
                    strings[a].1
                },
            ),
            None => Some(
                if more_capitals(strings[b].0, strings[a].0) {
                    strings[b].1
                } else if more_capitals(strings[a].0, strings[b].0) {
                    strings[a].1
                } else if i - strings[b].1 <= strings[a].1 - i {
                    strings[b].1
                } else {
                    strings[a].1
                },
            ),
        },
        (Some(b), None) => Some(strings[b].1),
        (None, Some(a)) => Some(strings[a].1),
        (None, None) => None,
    }
}

/// The place of the kill/death flag, from the marker at `i`: that of a known format,
/// else the first of the next two bytes that can be a flag, else -1.
pub open spec fn flag_offset(payload: Seq<u8>, known: Option<PacketFormat>, i: int) -> int {
    match known {
        Some(k) => k.guild_flag_offset_from_marker as int,
        None => if payload[i + 4] <= 1 {
            4
        } else if payload[i + 5] <= 1 {
            5
        } else {
            -1
        },
    }
}

/// The first marker at `i` or after it that has a string beside it. The search for a
/// known format ends at the first marker.
pub open spec fn guild_marker_from(
    payload: Seq<u8>,
    strings: Seq<(Seq<char>, int)>,
    known: Option<PacketFormat>,
    i: int,
) -> Option<(int, int, int)>
    decreases payload.len() - i,
{
    if i >= payload.len() - 7 {
        None
    } else if !marker_at(payload, i) {
        guild_marker_from(payload, strings, known, i + 1)
    } else {
        match guild_offset(strings, known, i) {
            Some(off) => Some((i, flag_offset(payload, known, i), off)),
            None => if known is Some {
                None
            } else {
                guild_marker_from(payload, strings, known, i + 1)
            },
        }
    }
}

/// The guild marker of a packet, its flag's place from it, and the guild name's offset.
pub open spec fn guild_marker(
    payload: Seq<u8>,
    strings: Seq<(Seq<char>, int)>,
    opcode: u16,
    packet_len: int,
    known_formats: Seq<PacketFormat>,
) -> Option<(int, int, int)> {
    guild_marker_from(payload, strings, format_for(known_formats, opcode, packet_len), 0)
}

/// The guild marker that is found has four more bytes behind it, and the guild's name is
/// one of the strings.
pub proof fn guild_marker_is_among(
    payload: Seq<u8>,
    strings: Seq<(Seq<char>, int)>,
    known: Option<PacketFormat>,
    i: int,
)
    requires
        0 <= i,
    ensures
        guild_marker_from(payload, strings, known, i) matches Some((marker, flag, guild)) ==> {
            &&& i <= marker < payload.len() - 7
            &&& marker_at(payload, marker)
            &&& flag == flag_offset(payload, known, marker)
            &&& exists|k: int| 0 <= k < strings.len() && (#[trigger] strings[k]).1 == guild
        },
    decreases payload.len() - i,
{
    if i < payload.len() - 7 {
        last_below_is_greatest(starts_before(strings, i), strings.len() as int);
        first_from_is_least(starts_after(strings, i), 0, strings.len() as int);
        guild_marker_is_among(payload, strings, known, i + 1);
    }
}

/// In a packet of no known format, the byte that is taken for the flag is 0 or 1.
pub proof fn found_flag_is_a_flag(
    payload: Seq<u8>,
    strings: Seq<(Seq<char>, int)>,
    opcode: u16,
    packet_len: int,
    known_formats: Seq<PacketFormat>,
)
    requires
        format_for(known_formats, opcode, packet_len) is None,
    ensures
        guild_marker(payload, strings, opcode, packet_len, known_formats) matches Some(
            (marker, flag, _),
        ) ==> flag == -1 || (marker + flag < payload.len() && payload[marker + flag] <= 1),
{
    guild_marker_is_among(payload, strings, None, 0);
}

/// Finds the last string that starts before `i`.
fn find_before(strings: &[(String, usize)], i: usize) -> (r: Option<usize>)
    ensures
        match r {
            Some(k) => k < strings.len() && strings@[k as int].1 < i && string_before(
                names_view(strings@),
                i as int,
            ) == Some(k as int),
            None => string_before(names_view(strings@), i as int) is None,
        },
{
    let ghost p = starts_before(names_view(strings@), i as int);
    let mut n: usize = strings.len();
    while n > 0
        invariant
            n <= strings.len(),
            p == starts_before(names_view(strings@), i as int),
            last_below(p, strings.len() as int) == last_below(p, n as int),
        decreases n,
    {
        if strings[n - 1].1 < i {
            assert(p(n - 1));
            return Some(n - 1);
        }
        assert(!p(n - 1));
        n = n - 1;
    }
    None
}

/// Finds the first string that starts after `i`.
fn find_after(strings: &[(String, usize)], i: usize) -> (r: Option<usize>)
    ensures
        match r {
            Some(k) => k < strings.len() && strings@[k as int].1 > i && string_after(
                names_view(strings@),
                i as int,
            ) == Some(k as int),
            None => string_after(names_view(strings@), i as int) is None,
        },
{
    let ghost p = starts_after(names_view(strings@), i as int);
    let mut k: usize = 0;
    while k < strings.len()
        invariant
            k <= strings.len(),
            p == starts_after(names_view(strings@), i as int),
            first_from(p, 0, strings.len() as int) == first_from(
                p,
                k as int,
                strings.len() as int,
            ),
        decreases strings.len() - k,
    {
        if strings[k].1 > i {
            assert(p(k as int));
            return Some(k);
        }
        assert(!p(k as int));
        k = k + 1;
    }
    None
}

/// The offset of the guild's name for the marker at `i`.
fn choose_guild(strings: &[(String, usize)], known: &Option<PacketFormat>, i: usize) -> (r: Option<
    usize,
>)
    ensures
        match r {
            Some(off) => guild_offset(names_view(strings@), *known, i as int) == Some(off as int),
            None => guild_offset(names_view(strings@), *known, i as int) is None,
        },
{
    let before = find_before(strings, i);
    let after = find_after(strings, i);
    match (before, after) {
        (Some(b), Some(a)) => {
            let b_off: usize = strings[b].1;
            let a_off: usize = strings[a].1;
            match known {
                Some(k) => {
                    if k.guild_string_offset_from_marker < 0 {
                        Some(b_off)
                    } else {
                        Some(a_off)
                    }
                },
                None => {
                    if has_more_capitals(strings[b].0.as_str(), strings[a].0.as_str()) {
                        Some(b_off)
                    } else if has_more_capitals(strings[a].0.as_str(), strings[b].0.as_str()) {
                        Some(a_off)
                    } else if i - b_off <= a_off - i {
                        Some(b_off)
                    } else {
                        Some(a_off)
                    }
                },
            }
        },
        (Some(b), None) => Some(strings[b].1),
        (None, Some(a)) => Some(strings[a].1),
        (None, None) => None,
    }
}

/// Finds the guild marker of a packet. The result holds the marker's offset, the place
/// of the kill/death flag from it (negative where no byte can be the flag), and the
/// offset of the guild's name.
pub fn find_guild_marker(
    payload: &[u8],
    strings: &[(String, usize)],
    opcode: u16,
    packet_len: usize,
    known_formats: &[PacketFormat],
) -> (r: Option<(usize, isize, usize)>)
    ensures
        match r {
            Some((marker, flag, guild)) => guild_marker(
                payload@,
                names_view(strings@),
                opcode,
                packet_len as int,
                known_formats@,
            ) == Some((marker as int, flag as int, guild as int)),
            None => guild_marker(
                payload@,
                names_view(strings@),
                opcode,
                packet_len as int,
                known_formats@,
            ) is None,
        },
{
    let known = find_format(known_formats, opcode, packet_len);
    if payload.len() < 7 {
        return None;
    }
    let mut i: usize = 0;
    while i < payload.len() - 7
        invariant
            7 <= payload.len(),
            i <= payload.len() - 7,
            guild_marker_from(payload@, names_view(strings@), known, 0) == guild_marker_from(
                payload@,
                names_view(strings@),
                known,
                i as int,
            ),
            known == format_for(known_formats@, opcode, packet_len as int),
        decreases payload.len() - i,
    {
        if is_marker(payload, i) {
            match choose_guild(strings, &known, i) {
                Some(guild) => {
                    let flag: isize = match known {
                        Some(k) => k.guild_flag_offset_from_marker,
                        None => {
                            if payload[i + 4] <= 1 {
                                4
                            } else if payload[i + 5] <= 1 {
                                5
                            } else {
                                -1
                            }
                        },
                    };
                    return Some((i, flag, guild));
                },
                None => {
                    if known.is_some() {
                        return None;
                    }
                },
            }
        }
        i = i + 1;
    }
    None
}

} // verus!
