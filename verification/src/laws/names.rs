//! Names: which bytes of a packet are one, what they read as, and where one is found.

use vstd::prelude::*;
use vstd::utf8::encode_utf8;
use crate::names::{
    bdo_string, ends_before, field_len, is_plain_text, is_read_at, le_bytes, name_at, name_bytes,
    name_units, names_are_ordered, names_from, names_in, null_in_field, null_terminated, offset_of,
    plain_string_at, stands_at, terminator,
};
use crate::search::{first_from, first_from_at, first_from_is_least};
use crate::text::{char_is_ascii_punctuation, is_letter_or_number, is_space};
use crate::utf16::{decode, encode, encode_decode_len};

verus! {

/// The number that two bytes of a field give, the low byte first.
pub open spec fn number_at(payload: Seq<u8>, start: int, k: int) -> int {
    payload[start + 2 * k] + 256 * payload[start + 2 * k + 1]
}

/// Whether a field has a number of code units before its end: none of them is zero, and they
/// end at a zero, at the thirty-first, or where the payload has no two bytes left.
pub open spec fn field_has(payload: Seq<u8>, start: int, n: int) -> bool {
    &&& 0 <= n <= 31
    &&& n > 0 ==> start + 2 * n <= payload.len()
    &&& forall|k: int| 0 <= k < n ==> #[trigger] number_at(payload, start, k) != 0
    &&& n == 31 || start + 2 * n + 2 > payload.len() || number_at(payload, start, n) == 0
}

/// A field reads as the text of its code units, low byte first, up to the first zero, and at
/// most thirty-one of them.
pub proof fn a_field_reads_up_to_its_null(payload: Seq<u8>, start: int, n: int)
    requires
        0 <= start,
        field_has(payload, start, n),
    ensures
        bdo_string(payload, start) == decode(
            Seq::new(n as nat, |k: int| number_at(payload, start, k) as u16),
        ),
        terminator(payload, start) is Some <==> n < 31 && start + 2 * n + 2 <= payload.len(),
{
    let p = null_in_field(payload, start);
    let len = field_len(payload, start);
    assert forall|k: int| 0 <= k < n implies !#[trigger] p(k) by {
        assert(number_at(payload, start, k) != 0);
    }
    if n < 31 && start + 2 * n + 2 <= payload.len() {
        assert(p(n));
        first_from_at(p, 0, n, len);
    } else {
        assert(len == n);
        first_from_is_least(p, 0, len);
        if first_from(p, 0, len) is Some {
            assert(p(first_from(p, 0, len)->0));
        }
    }
    let units = Seq::new(n as nat, |k: int| number_at(payload, start, k) as u16);
    assert(name_units(payload, start) =~= units);
}

/// A field that starts where the payload has no two bytes left reads as no text.
pub proof fn a_field_behind_the_end_is_empty(payload: Seq<u8>, start: int)
    requires
        0 <= start,
        start + 2 > payload.len(),
    ensures
        bdo_string(payload, start).len() == 0,
{
    a_field_reads_up_to_its_null(payload, start, 0);
}

/// Code units that are no surrogates are the characters with their numbers.
pub proof fn plain_units_are_characters(units: Seq<u16>)
    requires
        forall|k: int|
            0 <= k < units.len() ==> !(0xD800 <= #[trigger] units[k] && units[k] <= 0xDFFF),
    ensures
        decode(units).len() == units.len(),
        forall|k: int|
            0 <= k < units.len() ==> (#[trigger] decode(units)[k]) as u32 == units[k] as u32,
    decreases units.len(),
{
    if units.len() > 0 {
        let rest = units.skip(1);
        assert forall|k: int| 0 <= k < rest.len() implies !(0xD800 <= #[trigger] rest[k]
            && rest[k] <= 0xDFFF) by {
            assert(rest[k] == units[k + 1]);
        }
        plain_units_are_characters(rest);
        assert(!(0xD800 <= units[0] && units[0] <= 0xDFFF));
        assert forall|k: int| 0 <= k < units.len() implies (#[trigger] decode(units)[k]) as u32
            == units[k] as u32 by {
            if k > 0 {
                assert(decode(units)[k] == decode(rest)[k - 1]);
            }
        }
    }
}

/// A high surrogate and the low one behind it are one character; each gives ten bits of its
/// number above 0xFFFF.
pub proof fn a_pair_is_one_character(high: u16, low: u16, rest: Seq<u16>)
    requires
        0xD800 <= high <= 0xDBFF,
        0xDC00 <= low <= 0xDFFF,
    ensures
        decode(seq![high, low] + rest).len() == decode(rest).len() + 1,
        decode(seq![high, low] + rest)[0] as u32 == 0x10000 + 0x400 * (high - 0xD800) + (low
            - 0xDC00),
        decode(seq![high, low] + rest).skip(1) == decode(rest),
{
    let units = seq![high, low] + rest;
    assert(units.skip(2) =~= rest);
    assert(decode(units).skip(1) =~= decode(rest));
}

/// A surrogate without its other half becomes the replacement character, and nothing else is
/// lost with it.
pub proof fn an_unpaired_surrogate_is_replaced(unit: u16, rest: Seq<u16>)
    requires
        0xD800 <= unit <= 0xDFFF,
        unit >= 0xDC00 || rest.len() == 0 || rest[0] < 0xDC00 || rest[0] > 0xDFFF,
    ensures
        decode(seq![unit] + rest) == seq!['\u{fffd}'] + decode(rest),
{
    let units = seq![unit] + rest;
    assert(units.skip(1) =~= rest);
}

/// Text is written one character behind the other; a character up to 0xFFFF is one code unit
/// with its number, and each other is a high and a low surrogate.
pub proof fn characters_are_written_one_by_one(c: char, rest: Seq<char>)
    ensures
        ({
            let units = encode(seq![c] + rest);
            &&& c as u32 <= 0xFFFF ==> units.len() == 1 + encode(rest).len() && units[0] == c as u32
                && units.skip(1) == encode(rest)
            &&& c as u32 > 0xFFFF ==> {
                &&& units.len() == 2 + encode(rest).len()
                &&& 0xD800 <= units[0] <= 0xDBFF
                &&& 0xDC00 <= units[1] <= 0xDFFF
                &&& c as u32 == 0x10000 + 0x400 * (units[0] - 0xD800) + (units[1] - 0xDC00)
                &&& units.skip(2) == encode(rest)
            }
        }),
        encode(seq![]).len() == 0,
{
    let chars = seq![c] + rest;
    assert(chars.skip(1) =~= rest);
    let units = encode(chars);
    if c as u32 <= 0xFFFF {
        assert(units.skip(1) =~= encode(rest));
    } else {
        assert(units.skip(2) =~= encode(rest));
    }
}

/// Bytes of code units come in pairs, the low byte first.
pub proof fn the_low_byte_comes_first(units: Seq<u16>, k: int)
    requires
        0 <= k < units.len(),
    ensures
        le_bytes(units).len() == 2 * units.len(),
        le_bytes(units)[2 * k] + 256 * le_bytes(units)[2 * k + 1] == units[k],
{
    assert((2 * k) % 2 == 0 && (2 * k) / 2 == k && (2 * k + 1) % 2 == 1 && (2 * k + 1) / 2 == k);
}

/// A name is written in two bytes for each code unit; its terminator is two zeros more.
pub proof fn a_name_is_written_with_its_terminator(name: Seq<char>, k: int)
    requires
        0 <= k < encode(name).len(),
    ensures
        name_bytes(name).len() == 2 * encode(name).len(),
        name_bytes(name)[2 * k] + 256 * name_bytes(name)[2 * k + 1] == encode(name)[k],
        null_terminated(name) == name_bytes(name) + seq![0u8, 0u8],
{
    the_low_byte_comes_first(encode(name), k);
}

/// Whether bytes stand in others at a place.
pub open spec fn is_there(haystack: Seq<u8>, needle: Seq<u8>, at: int) -> bool {
    &&& 0 <= at
    &&& at + needle.len() <= haystack.len()
    &&& forall|k: int| 0 <= k < needle.len() ==> haystack[at + k] == #[trigger] needle[k]
}

proof fn standing_is_plain(haystack: Seq<u8>, needle: Seq<u8>, at: int)
    requires
        0 <= at,
        at + needle.len() <= haystack.len(),
    ensures
        is_there(haystack, needle, at) == stands_at(haystack, needle)(at),
{
    let part = haystack.subrange(at, at + needle.len());
    if is_there(haystack, needle, at) {
        assert(part =~= needle);
    }
    if part == needle {
        assert forall|k: int| 0 <= k < needle.len() implies haystack[at + k]
            == #[trigger] needle[k] by {
            assert(part[k] == needle[k]);
        }
    }
}

/// Bytes are found at the first place where they stand, and nowhere exactly where they stand
/// at none.
pub proof fn the_first_place_is_found(haystack: Seq<u8>, needle: Seq<u8>)
    ensures
        offset_of(haystack, needle) matches Some(at) ==> is_there(haystack, needle, at)
            && forall|j: int| 0 <= j < at ==> !#[trigger] is_there(haystack, needle, j),
        offset_of(haystack, needle) is None ==> forall|j: int|
            !#[trigger] is_there(haystack, needle, j),
{
    let p = stands_at(haystack, needle);
    let n = haystack.len() - needle.len() + 1;
    first_from_is_least(p, 0, n);
    match offset_of(haystack, needle) {
        Some(at) => {
            assert(p(at));
            standing_is_plain(haystack, needle, at);
            assert forall|j: int| 0 <= j < at implies !#[trigger] is_there(haystack, needle, j) by {
                standing_is_plain(haystack, needle, j);
                assert(!p(j));
            }
        },
        None => {
            assert forall|j: int| !#[trigger] is_there(haystack, needle, j) by {
                if 0 <= j && j + needle.len() <= haystack.len() {
                    standing_is_plain(haystack, needle, j);
                    assert(!p(j));
                }
            }
        },
    }
}

/// Whether a name of a number of code units is recognised at an offset: it starts with a
/// printable character of ASCII, has three to thirty code units and a zero behind them, and
/// holds no control code and nothing undecodable.
pub open spec fn name_stands(payload: Seq<u8>, i: int, n: int) -> bool {
    let name = bdo_string(payload, i);
    &&& 0 <= i
    &&& i + 2 <= payload.len()
    &&& 0x20 <= payload[i] <= 0x7E
    &&& payload[i + 1] == 0
    &&& 3 <= n <= 30
    &&& i + 2 * n + 2 <= payload.len()
    &&& field_has(payload, i, n)
    &&& forall|k: int|
        0 <= k < name.len() ==> {
            &&& (#[trigger] name[k]) as u32 > 0x1F
            &&& !(0x7F <= name[k] as u32 <= 0x9F)
            &&& name[k] != '\u{fffd}'
        }
}

/// The number of code units of the field at an offset.
proof fn units_of_field(payload: Seq<u8>, i: int) -> (n: int)
    requires
        0 <= i,
        i + 2 <= payload.len(),
    ensures
        field_has(payload, i, n),
        n == name_units(payload, i).len(),
{
    let p = null_in_field(payload, i);
    let len = field_len(payload, i);
    first_from_is_least(p, 0, len);
    let n = name_units(payload, i).len() as int;
    assert forall|k: int| 0 <= k < n implies #[trigger] number_at(payload, i, k) != 0 by {
        assert(!p(k));
    }
    if terminator(payload, i) is Some {
        assert(p(n));
    }
    n
}

proof fn recognising_is_plain(payload: Seq<u8>, i: int) -> (n: int)
    requires
        0 <= i,
        i + 2 <= payload.len(),
    ensures
        name_at(payload, i) == name_stands(payload, i, n),
        n == encode(bdo_string(payload, i)).len(),
        forall|m: int| #[trigger] name_stands(payload, i, m) ==> m == n,
{
    let n = units_of_field(payload, i);
    encode_decode_len(name_units(payload, i));
    a_field_reads_up_to_its_null(payload, i, n);
    assert forall|m: int| #[trigger] name_stands(payload, i, m) implies m == n by {
        assert(field_has(payload, i, m));
        if m < n {
            assert(number_at(payload, i, m) != 0);
        } else if n < m {
            assert(number_at(payload, i, n) != 0);
        }
    }
    n
}

/// What is listed is recognised where it is listed, reads as it is listed, and ends before the
/// next one starts.
pub proof fn what_is_listed_is_a_name(payload: Seq<u8>, k: int)
    requires
        0 <= k < names_in(payload).len(),
    ensures
        ({
            let (name, at) = names_in(payload)[k];
            &&& name == bdo_string(payload, at)
            &&& name_stands(payload, at, encode(name).len() as int)
            &&& k + 1 < names_in(payload).len() ==> at + 2 * encode(name).len() <= names_in(
                payload,
            )[k + 1].1
        }),
{
    names_are_ordered(payload, 0);
    let (name, at) = names_in(payload)[k];
    assert(is_read_at(payload, 0, names_in(payload)[k]));
    let n = recognising_is_plain(payload, at);
    if k + 1 < names_in(payload).len() {
        assert(ends_before(names_in(payload)[k], names_in(payload)[k + 1]));
    }
}

/// Whether a listed name starts at an offset, or before it and ends behind it.
pub open spec fn is_covered(names: Seq<(Seq<char>, int)>, i: int) -> bool {
    exists|k: int|
        0 <= k < names.len() && (#[trigger] names[k]).1 <= i && (names[k].1 == i || i < names[k].1
            + 2 * encode(names[k].0).len())
}

/// Every name that is recognised at an offset is listed, unless it starts within one that is
/// listed.
pub proof fn every_name_is_listed(payload: Seq<u8>, i: int, n: int)
    requires
        name_stands(payload, i, n),
    ensures
        is_covered(names_in(payload), i),
{
    listing_covers(payload, 0, i, n);
}

proof fn listing_covers(payload: Seq<u8>, s: int, i: int, n: int)
    requires
        0 <= s <= i,
        name_stands(payload, i, n),
    ensures
        is_covered(names_from(payload, s), i),
    decreases i - s,
{
    let here = recognising_is_plain(payload, s);
    let at = recognising_is_plain(payload, i);
    let listed = names_from(payload, s);
    if name_at(payload, s) {
        let name = bdo_string(payload, s);
        let after = s + 2 * encode(name).len();
        assert(listed[0] == (name, s));
        if i < after {
            assert(is_covered(listed, i));
        } else {
            listing_covers(payload, after, i, n);
            let rest = names_from(payload, after);
            let k = choose|k: int|
                0 <= k < rest.len() && (#[trigger] rest[k]).1 <= i && (rest[k].1 == i || i
                    < rest[k].1 + 2 * encode(rest[k].0).len());
            assert(listed[k + 1] == rest[k]);
        }
    } else {
        assert(s < i);
        listing_covers(payload, s + 1, i, n);
    }
}

/// A letter, a number, white space or ASCII punctuation.
pub open spec fn is_readable(c: char) -> bool {
    ||| is_letter_or_number(c)
    ||| is_space(c)
    ||| 0x21 <= c as u32 <= 0x2F
    ||| 0x3A <= c as u32 <= 0x40
    ||| 0x5B <= c as u32 <= 0x60
    ||| 0x7B <= c as u32 <= 0x7E
}

proof fn readable_is_plain(c: char)
    ensures
        is_readable(c) == (is_letter_or_number(c) || is_space(c) || char_is_ascii_punctuation(c)),
{
}

/// A plain string starts at an offset exactly where a printable character of ASCII stands there
/// and the field reads as three to thirty bytes of UTF-8 made of letters, numbers, white space
/// and ASCII punctuation.
pub proof fn a_plain_string_is_readable(payload: Seq<u8>, i: int)
    requires
        0 <= i,
    ensures
        plain_string_at(payload)(i) <==> {
            &&& i + 2 <= payload.len()
            &&& 0x20 <= payload[i] <= 0x7E
            &&& payload[i + 1] == 0
            &&& 3 <= encode_utf8(bdo_string(payload, i)).len() <= 30
            &&& forall|k: int|
                0 <= k < bdo_string(payload, i).len() ==> is_readable(
                    #[trigger] bdo_string(payload, i)[k],
                )
        },
{
    let s = bdo_string(payload, i);
    if is_plain_text(s) {
        assert forall|k: int| 0 <= k < s.len() implies is_readable(#[trigger] s[k]) by {
            readable_is_plain(s[k]);
        }
    }
    if forall|k: int| 0 <= k < s.len() ==> is_readable(#[trigger] s[k]) {
        assert forall|k: int| 0 <= k < s.len() implies {
            ||| is_letter_or_number(#[trigger] s[k])
            ||| is_space(s[k])
            ||| char_is_ascii_punctuation(s[k])
        } by {
            readable_is_plain(s[k]);
        }
        assert(is_plain_text(s));
    }
}

} // verus!
