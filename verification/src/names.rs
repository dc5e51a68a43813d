//! Names in game packets: null-terminated UTF-16 in fields of 62 bytes.

use vstd::prelude::*;
use vstd::utf8::encode_utf8;
use crate::search::{first_from, first_from_at, first_from_is_least};
use crate::text::{
    char_is_ascii_punctuation, char_is_control, chars_of, check_letter_or_number, check_space,
    is_ascii_punctuation, is_control, is_letter_or_number, is_space,
};
use crate::utf16::{
    decode, decode_encode, decode_units, encode, encode_char, encode_decode_len, encode_units, is_high_surrogate,
    is_low_surrogate, REPLACEMENT,
};

verus! {

/// The size of a name field in bytes, terminator included.
pub const FIELD_BYTES: usize = 62;

/// The little-endian number at `i`.
pub open spec fn unit_at(bytes: Seq<u8>, i: int) -> u16 {
    (bytes[i] + 256 * bytes[i + 1]) as u16
}

/// How many whole code units of the field that starts at `start` lie in the payload.
pub open spec fn field_len(payload: Seq<u8>, start: int) -> int {
    if start + 2 > payload.len() {
        0
    } else if start + FIELD_BYTES <= payload.len() {
        FIELD_BYTES as int / 2
    } else {
        (payload.len() - start) / 2
    }
}

/// Whether code unit `k` of the field at `start` is the terminator.
pub open spec fn null_in_field(payload: Seq<u8>, start: int) -> spec_fn(int) -> bool {
    |k: int| unit_at(payload, start + 2 * k) == 0
}

/// The place of the field's first terminator.
pub open spec fn terminator(payload: Seq<u8>, start: int) -> Option<int> {
    first_from(null_in_field(payload, start), 0, field_len(payload, start))
}

/// The code units of the field before its terminator, or all where it has none.
pub open spec fn name_units(payload: Seq<u8>, start: int) -> Seq<u16> {
    let n = match terminator(payload, start) {
        Some(k) => k,
        None => field_len(payload, start),
    };
    Seq::new(n as nat, |k: int| unit_at(payload, start + 2 * k))
}

/// The name in the field at `start`.
pub open spec fn bdo_string(payload: Seq<u8>, start: int) -> Seq<char> {
    decode(name_units(payload, start))
}

/// The code units of the field at `start`, and whether a terminator ends them.
fn read_units(payload: &[u8], start: usize) -> (r: (Vec<u16>, bool))
    ensures
        r.0@ == name_units(payload@, start as int),
        r.1 == (terminator(payload@, start as int) is Some),
{
    let mut units: Vec<u16> = Vec::new();
    let ghost p = null_in_field(payload@, start as int);
    let ghost n = field_len(payload@, start as int);
    if payload.len() < 2 || start > payload.len() - 2 {
        assert(units@ =~= name_units(payload@, start as int));
        return (units, false);
    }
    let len: usize = if payload.len() - start >= FIELD_BYTES {
        FIELD_BYTES / 2
    } else {
        (payload.len() - start) / 2
    };
    let mut k: usize = 0;
    while k < len
        invariant
            k <= len,
            len == n,
            n == field_len(payload@, start as int),
            start + 2 * len <= payload.len(),
            p == null_in_field(payload@, start as int),
            units@ == Seq::new(k as nat, |j: int| unit_at(payload@, start + 2 * j)),
            first_from(p, 0, n) == first_from(p, k as int, n),
        decreases len - k,
    {
        let u: u16 = payload[start + 2 * k] as u16 + 256 * payload[start + 2 * k + 1] as u16;
        assert(u == unit_at(payload@, start + 2 * k));
        assert(p(k as int) == (u == 0));
        if u == 0 {
            assert(units@ =~= name_units(payload@, start as int));
            return (units, true);
        }
        units.push(u);
        k = k + 1;
        assert(units@ =~= Seq::new(k as nat, |j: int| unit_at(payload@, start + 2 * j)));
    }
    assert(units@ =~= name_units(payload@, start as int));
    (units, false)
}

/// Reads the name in the field at `start`: at most 31 code units, up to the
/// terminator. A field that starts past the payload's end reads as the empty name.
pub fn read_bdo_string(payload: &[u8], start: usize) -> (r: String)
    ensures
        r@ == bdo_string(payload@, start as int),
{
    let (units, _) = read_units(payload, start);
    decode_units(units.as_slice())
}

/// A text that can be a name: three to thirty code units, none of them a control
/// code or undecodable.
pub open spec fn is_name(name: Seq<char>) -> bool {
    &&& 3 <= encode(name).len() <= 30
    &&& forall|k: int|
        0 <= k < name.len() ==> !char_is_control(#[trigger] name[k]) && name[k] != REPLACEMENT
}

/// Whether a name is recognised at `i`: it starts with a printable ASCII character and
/// its field has a terminator.
pub open spec fn name_at(payload: Seq<u8>, i: int) -> bool {
    &&& 0x20 <= payload[i] <= 0x7E
    &&& payload[i + 1] == 0
    &&& terminator(payload, i) is Some
    &&& is_name(bdo_string(payload, i))
}

/// The names that lie at `i` or after it, with their offsets. The search goes on
/// behind a name that it has found.
pub open spec fn names_from(payload: Seq<u8>, i: int) -> Seq<(Seq<char>, int)>
    decreases
            if i < payload.len() {
                payload.len() - i
            } else {
                0
            },
{
    if i + 2 > payload.len() {
        seq![]
    } else if name_at(payload, i) {
        let name = bdo_string(payload, i);
        seq![(name, i)] + names_from(payload, i + 2 * encode(name).len())
    } else {
        names_from(payload, i + 1)
    }
}

/// All names in a payload.
pub open spec fn names_in(payload: Seq<u8>) -> Seq<(Seq<char>, int)> {
    names_from(payload, 0)
}

/// A list of names and offsets, by value.
pub open spec fn names_view(names: Seq<(String, usize)>) -> Seq<(Seq<char>, int)> {
    Seq::new(names.len(), |k: int| (names[k].0@, names[k].1 as int))
}

/// Whether each character may stand in a name.
fn all_readable(chars: &Vec<char>) -> (r: bool)
    ensures
        r == (forall|k: int|
            0 <= k < chars@.len() ==> !char_is_control(#[trigger] chars@[k]) && chars@[k]
                != REPLACEMENT),
{
    let mut k: usize = 0;
    while k < chars.len()
        invariant
            k <= chars.len(),
            forall|j: int|
                0 <= j < k ==> !char_is_control(#[trigger] chars@[j]) && chars@[j] != REPLACEMENT,
        decreases chars.len() - k,
    {
        if is_control(chars[k]) || chars[k] == REPLACEMENT {
            return false;
        }
        k = k + 1;
    }
    true
}

/// Finds all names in a payload, in the order of their offsets.
pub fn find_all_bdo_strings(payload: &[u8]) -> (r: Vec<(String, usize)>)
    ensures
        names_view(r@) == names_in(payload@),
{
    let mut results: Vec<(String, usize)> = Vec::new();
    let mut i: usize = 0;
    assert(names_view(results@) + names_from(payload@, 0) =~= names_in(payload@));
    while payload.len() >= 2 && i <= payload.len() - 2
        invariant
            i <= payload.len(),
            names_view(results@) + names_from(payload@, i as int) == names_in(payload@),
        decreases payload.len() - i,
    {
        if payload[i] >= 0x20 && payload[i] <= 0x7E && payload[i + 1] == 0x00 {
            let (units, terminated) = read_units(payload, i);
            let name = decode_units(units.as_slice());
            let len: usize = units.len();
            proof {
                encode_decode_len(units@);
                first_from_is_least(
                    null_in_field(payload@, i as int),
                    0,
                    field_len(payload@, i as int),
                );
            }
            if terminated && len >= 3 && len <= 30 && all_readable(&chars_of(name.as_str())) {
                assert(name_at(payload@, i as int));
                let ghost before = results@;
                let ghost rest = names_from(payload@, i + 2 * len);
                results.push((name, i));
                assert(names_view(results@) =~= names_view(before).push((name@, i as int)));
                assert(names_view(results@) + rest =~= names_view(before) + (seq![
                    (name@, i as int),
                ] + rest));
                i = i + len * 2;
                continue;
            }
        }
        assert(!name_at(payload@, i as int));
        i = i + 1;
    }
    assert(names_view(results@) =~= names_in(payload@));
    results
}

/// The code units as bytes, each with its low byte first.
pub open spec fn le_bytes(units: Seq<u16>) -> Seq<u8> {
    Seq::new(
        2 * units.len(),
        |i: int|
            if i % 2 == 0 {
                (units[i / 2] % 256) as u8
            } else {
                (units[i / 2] / 256) as u8
            },
    )
}

/// A name as it is written in a packet, without its terminator.
pub open spec fn name_bytes(name: Seq<char>) -> Seq<u8> {
    le_bytes(encode(name))
}

/// A name as it is written in a packet, with its terminator.
pub open spec fn null_terminated(name: Seq<char>) -> Seq<u8> {
    name_bytes(name) + seq![0u8, 0u8]
}

/// Writes a name as UTF-16 with the low byte of each code unit first.
pub fn utf16le_bytes(s: &str) -> (r: Vec<u8>)
    ensures
        r@ == name_bytes(s@),
{
    let units = encode_units(s);
    let mut bytes: Vec<u8> = Vec::new();
    let mut k: usize = 0;
    while k < units.len()
        invariant
            k <= units.len(),
            bytes@ == le_bytes(units@.take(k as int)),
        decreases units.len() - k,
    {
        let u: u16 = units[k];
        bytes.push((u % 256) as u8);
        bytes.push((u / 256) as u8);
        k = k + 1;
        assert(bytes@ =~= le_bytes(units@.take(k as int)));
    }
    assert(units@.take(k as int) =~= units@);
    bytes
}

/// Writes a name as UTF-16 with the low byte of each code unit first, and its
/// terminator.
pub fn utf16le_bytes_with_null(s: &str) -> (r: Vec<u8>)
    ensures
        r@ == null_terminated(s@),
{
    let mut bytes = utf16le_bytes(s);
    bytes.push(0x00);
    bytes.push(0x00);
    assert(bytes@ =~= null_terminated(s@));
    bytes
}

/// Whether `needle` stands in `haystack` at an index.
pub open spec fn stands_at(haystack: Seq<u8>, needle: Seq<u8>) -> spec_fn(int) -> bool {
    |i: int| haystack.subrange(i, i + needle.len()) == needle
}

/// The first place of `needle` in `haystack`.
pub open spec fn offset_of(haystack: Seq<u8>, needle: Seq<u8>) -> Option<int> {
    first_from(stands_at(haystack, needle), 0, haystack.len() - needle.len() + 1)
}

/// Whether `needle` stands in `haystack` at `i`.
fn matches_at(haystack: &[u8], needle: &[u8], i: usize) -> (r: bool)
    requires
        i + needle.len() <= haystack.len(),
    ensures
        r == stands_at(haystack@, needle@)(i as int),
{
    let mut k: usize = 0;
    let ghost part = haystack@.subrange(i as int, i + needle@.len());
    while k < needle.len()
        invariant
            k <= needle.len(),
            i + needle.len() <= haystack.len(),
            part == haystack@.subrange(i as int, i + needle@.len()),
            forall|j: int| 0 <= j < k ==> part[j] == needle@[j],
        decreases needle.len() - k,
    {
        if haystack[i + k] != needle[k] {
            assert(part[k as int] != needle@[k as int]);
            return false;
        }
        k = k + 1;
    }
    assert(part =~= needle@);
    true
}

/// Finds the first place of `needle` in `haystack`.
pub fn find_offset(haystack: &[u8], needle: &[u8]) -> (r: Option<usize>)
    requires
        needle.len() > 0,
    ensures
        match r {
            Some(i) => offset_of(haystack@, needle@) == Some(i as int),
            None => offset_of(haystack@, needle@) is None,
        },
        r matches Some(i) ==> i + needle.len() <= haystack.len(),
{
    let ghost p = stands_at(haystack@, needle@);
    if needle.len() > haystack.len() {
        return None;
    }
    let end: usize = haystack.len() - needle.len();
    let mut i: usize = 0;
    while i <= end
        invariant
            needle.len() > 0,
            end + needle.len() == haystack.len(),
            i <= end + 1,
            p == stands_at(haystack@, needle@),
            first_from(p, 0, end + 1) == first_from(p, i as int, end + 1),
        decreases end + 1 - i,
    {
        if matches_at(haystack, needle, i) {
            return Some(i);
        }
        i = i + 1;
    }
    None
}

/// Whether `needle` stands anywhere in `haystack`.
pub fn contains_bytes(haystack: &[u8], needle: &[u8]) -> (r: bool)
    requires
        needle.len() > 0,
    ensures
        r == (offset_of(haystack@, needle@) is Some),
{
    find_offset(haystack, needle).is_some()
}

/// A text of letters, numbers, white space and ASCII punctuation.
pub open spec fn is_plain_text(s: Seq<char>) -> bool {
    forall|k: int|
        0 <= k < s.len() ==> {
            ||| is_letter_or_number(#[trigger] s[k])
            ||| is_space(s[k])
            ||| char_is_ascii_punctuation(s[k])
        }
}

/// Whether a plain text of three to thirty UTF-8 bytes, with a printable ASCII
/// character in front, stands at an index.
pub open spec fn plain_string_at(payload: Seq<u8>) -> spec_fn(int) -> bool {
    |i: int|
        {
            let s = bdo_string(payload, i);
            &&& i + 2 <= payload.len()
            &&& 0x20 <= payload[i] <= 0x7E
            &&& payload[i + 1] == 0
            &&& 3 <= encode_utf8(s).len() <= 30
            &&& is_plain_text(s)
        }
}

/// A character takes at most four bytes in UTF-8.
proof fn encode_utf8_len(s: Seq<char>)
    ensures
        encode_utf8(s).len() <= 4 * s.len(),
    decreases s.len(),
{
    if s.len() > 0 {
        encode_utf8_len(s.drop_first());
    }
}

/// Code units decode to no more characters than they are.
proof fn decode_len(units: Seq<u16>)
    ensures
        decode(units).len() <= units.len(),
    decreases units.len(),
{
    if units.len() == 0 {
    } else if is_high_surrogate(units[0]) && units.len() > 1 && is_low_surrogate(units[1]) {
        decode_len(units.skip(2));
    } else {
        decode_len(units.skip(1));
    }
}

/// Whether each character is a letter, a number, white space or ASCII punctuation.
fn all_plain(chars: &Vec<char>) -> (r: bool)
    ensures
        r == is_plain_text(chars@),
{
    let mut k: usize = 0;
    while k < chars.len()
        invariant
            k <= chars.len(),
            is_plain_text(chars@.take(k as int)),
        decreases chars.len() - k,
    {
        let c = chars[k];
        if !(check_letter_or_number(c) || check_space(c) || is_ascii_punctuation(c)) {
            assert(chars@[k as int] == c);
            return false;
        }
        assert(forall|j: int| 0 <= j < k ==> chars@[j] == #[trigger] chars@.take(k as int)[j]);
        k = k + 1;
    }
    assert(chars@.take(k as int) =~= chars@);
    true
}

/// Finds the first plain text that starts in `start_range..=end_range`, and its
/// offset; the empty text and 0 where there is none.
pub fn find_bdo_string_in_range(payload: &[u8], start_range: usize, end_range: usize) -> (r: (
    String,
    usize,
))
    ensures
        match first_from(plain_string_at(payload@), start_range as int, end_range + 1) {
            Some(i) => r.0@ == bdo_string(payload@, i) && r.1 == i,
            None => r.0@.len() == 0 && r.1 == 0,
        },
{
    let ghost p = plain_string_at(payload@);
    let mut start: usize = start_range;
    while start <= end_range && payload.len() >= 2 && start <= payload.len() - 2
        invariant
            p == plain_string_at(payload@),
            first_from(p, start_range as int, end_range + 1) == first_from(
                p,
                start as int,
                end_range + 1,
            ),
        decreases payload.len() - start,
    {
        if payload[start] >= 0x20 && payload[start] <= 0x7E && payload[start + 1] == 0x00 {
            let candidate = read_bdo_string(payload, start);
            proof {
                decode_len(name_units(payload@, start as int));
                encode_utf8_len(candidate@);
                first_from_is_least(
                    null_in_field(payload@, start as int),
                    0,
                    field_len(payload@, start as int),
                );
            }
            let len: usize = candidate.as_str().len();
            if len >= 3 && len <= 30 && all_plain(&chars_of(candidate.as_str())) {
                assert(p(start as int));
                return (candidate, start);
            }
        }
        assert(!p(start as int));
        start = start + 1;
    }
    proof {
        first_from_is_least(p, start as int, end_range + 1);
    }
    (String::new(), 0)
}

/// What is recognised as a name ends, with its terminator, inside the payload.
proof fn name_at_fits(payload: Seq<u8>, i: int)
    requires
        0 <= i,
        i + 2 <= payload.len(),
        name_at(payload, i),
    ensures
        encode(bdo_string(payload, i)).len() == name_units(payload, i).len(),
        i + 2 * encode(bdo_string(payload, i)).len() + 2 <= payload.len(),
{
    encode_decode_len(name_units(payload, i));
    first_from_is_least(null_in_field(payload, i), 0, field_len(payload, i));
}

/// Whether an entry of a list of names is what its field in the payload reads as, and
/// the field lies in the payload, at `i` or after it.
pub open spec fn is_read_at(payload: Seq<u8>, i: int, entry: (Seq<char>, int)) -> bool {
    &&& i <= entry.1
    &&& entry.1 + 2 * encode(entry.0).len() + 2 <= payload.len()
    &&& name_at(payload, entry.1)
    &&& entry.0 == bdo_string(payload, entry.1)
}

/// Whether one entry of a list of names ends where the other starts, or before.
pub open spec fn ends_before(a: (Seq<char>, int), b: (Seq<char>, int)) -> bool {
    a.1 + 2 * encode(a.0).len() <= b.1
}

/// The names of a payload are listed in the order of their offsets, no two of them
/// overlap, and each is what its field reads as.
pub proof fn names_are_ordered(payload: Seq<u8>, i: int)
    requires
        0 <= i,
    ensures
        forall|k: int|
            0 <= k < names_from(payload, i).len() ==> is_read_at(
                payload,
                i,
                #[trigger] names_from(payload, i)[k],
            ),
        forall|k: int, m: int|
            0 <= k < m < names_from(payload, i).len() ==> ends_before(
                #[trigger] names_from(payload, i)[k],
                #[trigger] names_from(payload, i)[m],
            ),
    decreases
            if i < payload.len() {
                payload.len() - i
            } else {
                0
            },
{
    let all = names_from(payload, i);
    if i + 2 > payload.len() {
    } else if name_at(payload, i) {
        let name = bdo_string(payload, i);
        let next = i + 2 * encode(name).len();
        name_at_fits(payload, i);
        names_are_ordered(payload, next);
        let rest = names_from(payload, next);
        assert(all[0] == (name, i));
        assert forall|k: int| 0 < k < all.len() implies #[trigger] all[k] == rest[k - 1]
            && is_read_at(payload, next, all[k]) by {}
        assert forall|k: int, m: int| 0 <= k < m < all.len() implies ends_before(
            #[trigger] all[k],
            #[trigger] all[m],
        ) by {
            assert(all[m] == rest[m - 1]);
            if k > 0 {
                assert(all[k] == rest[k - 1]);
            }
        }
    } else {
        names_are_ordered(payload, i + 1);
        assert forall|k: int| 0 <= k < all.len() implies is_read_at(
            payload,
            i,
            #[trigger] all[k],
        ) by {
            assert(is_read_at(payload, i + 1, names_from(payload, i + 1)[k]));
        }
        assert forall|k: int, m: int| 0 <= k < m < all.len() implies ends_before(
            #[trigger] all[k],
            #[trigger] all[m],
        ) by {
            assert(ends_before(names_from(payload, i + 1)[k], names_from(payload, i + 1)[m]));
        }
    }
}

/// A name of at most 31 code units, written into a packet with its terminator, is
/// read back as it was written.
pub proof fn written_name_reads_back(payload: Seq<u8>, start: int, name: Seq<char>)
    requires
        0 <= start,
        start + null_terminated(name).len() <= payload.len(),
        payload.subrange(start, start + null_terminated(name).len()) == null_terminated(name),
        encode(name).len() <= 31,
        forall|k: int| 0 <= k < name.len() ==> name[k] != '\0',
    ensures
        bdo_string(payload, start) == name,
        encode(name).len() <= 30 ==> terminator(payload, start) == Some(encode(name).len() as int),
{
    let units = encode(name);
    let written = null_terminated(name);
    let n = units.len() as int;
    let p = null_in_field(payload, start);
    let len = field_len(payload, start);
    encode_has_no_null(name);
    assert forall|k: int| 0 <= k < n implies unit_at(payload, start + 2 * k) == units[k] by {
        assert(payload[start + 2 * k] == written[2 * k]);
        assert(payload[start + 2 * k + 1] == written[2 * k + 1]);
        assert((2 * k) % 2 == 0 && (2 * k) / 2 == k && (2 * k + 1) % 2 == 1 && (2 * k + 1) / 2 == k);
        let u = units[k];
        assert(u % 256 + 256 * (u / 256) == u);
    }
    assert forall|k: int| 0 <= k < n implies !#[trigger] p(k) by {
        assert(units[k] != 0);
        assert(unit_at(payload, start + 2 * k) == units[k]);
    }
    assert(payload[start + 2 * n] == written[2 * n]);
    assert(payload[start + 2 * n + 1] == written[2 * n + 1]);
    if n <= 30 {
        assert(n < len);
        assert(p(n));
        first_from_at(p, 0, n, len);
    } else {
        first_from_is_least(p, 0, len);
    }
    assert(name_units(payload, start) =~= units);
    decode_encode(name);
}

/// Only the null character has a null among its code units.
proof fn encode_has_no_null(name: Seq<char>)
    requires
        forall|k: int| 0 <= k < name.len() ==> name[k] != '\0',
    ensures
        forall|k: int| 0 <= k < encode(name).len() ==> #[trigger] encode(name)[k] != 0,
    decreases name.len(),
{
    if name.len() > 0 {
        encode_has_no_null(name.skip(1));
        encode_char_has_no_null(name[0]);
        let head = encode_char(name[0]);
        let rest = encode(name.skip(1));
        assert forall|k: int| 0 <= k < encode(name).len() implies #[trigger] encode(name)[k]
            != 0 by {
            if k < head.len() {
                assert(encode(name)[k] == head[k]);
            } else {
                assert(encode(name)[k] == rest[k - head.len()]);
            }
        }
    }
}

proof fn encode_char_has_no_null(c: char)
    requires
        c != '\0',
    ensures
        forall|k: int| 0 <= k < encode_char(c).len() ==> #[trigger] encode_char(c)[k] != 0,
{
}

/// A name written into a packet is found there, unless a text that is recognised
/// before it runs into it.
pub proof fn written_name_is_found(payload: Seq<u8>, start: int, name: Seq<char>)
    requires
        0 <= start,
        start + null_terminated(name).len() <= payload.len(),
        payload.subrange(start, start + null_terminated(name).len()) == null_terminated(name),
        is_name(name),
        0x20 <= name[0] as u32 <= 0x7E,
        forall|i: int|
            0 <= i < start && #[trigger] name_at(payload, i) ==> i + 2 * encode(
                bdo_string(payload, i),
            ).len() <= start,
    ensures
        names_in(payload).contains((name, start)),
{
    assert forall|k: int| 0 <= k < name.len() implies name[k] != '\0' by {
        assert(!char_is_control(name[k]));
    }
    written_name_reads_back(payload, start, name);
    if name.len() == 0 {
        assert(encode(name).len() == 0);
    }
    let written = null_terminated(name);
    assert(encode(name)[0] == name[0] as u32);
    assert(written[0] == name[0] as u32 && written[1] == 0);
    assert(payload[start] == written[0] && payload[start + 1] == written[1]);
    assert(name_at(payload, start));
    assert(names_from(payload, start)[0] == (name, start));
    found_later(payload, 0, start, name);
}

proof fn found_later(payload: Seq<u8>, i: int, start: int, name: Seq<char>)
    requires
        0 <= i <= start,
        start + 2 <= payload.len(),
        names_from(payload, start).contains((name, start)),
        forall|j: int|
            0 <= j < start && #[trigger] name_at(payload, j) ==> j + 2 * encode(
                bdo_string(payload, j),
            ).len() <= start,
    ensures
        names_from(payload, i).contains((name, start)),
    decreases start - i,
{
    if i < start {
        if name_at(payload, i) {
            let next = i + 2 * encode(bdo_string(payload, i)).len();
            found_later(payload, next, start, name);
            let rest = names_from(payload, next);
            let k = choose|k: int| 0 <= k < rest.len() && rest[k] == (name, start);
            assert(names_from(payload, i)[k + 1] == (name, start));
        } else {
            found_later(payload, i + 1, start, name);
        }
    }
}

} // verus!
