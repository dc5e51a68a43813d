//! UTF-16: the encoding of names in game packets.

use vstd::prelude::*;
use crate::text::chars_of;

verus! {

/// The character that stands for text that cannot be decoded.
pub const REPLACEMENT: char = '\u{fffd}';

pub open spec fn is_high_surrogate(u: u16) -> bool {
    0xD800 <= u < 0xDC00
}

pub open spec fn is_low_surrogate(u: u16) -> bool {
    0xDC00 <= u < 0xE000
}

/// The character that a surrogate pair encodes.
pub open spec fn pair_char(high: u16, low: u16) -> char {
    (0x10000 + (high - 0xD800) * 0x400 + (low - 0xDC00)) as char
}

/// The text that UTF-16 code units encode, where an unpaired surrogate stands for
/// the replacement character.
pub open spec fn decode(units: Seq<u16>) -> Seq<char>
    decreases units.len(),
{
    if units.len() == 0 {
        seq![]
    } else if is_high_surrogate(units[0]) && units.len() > 1 && is_low_surrogate(units[1]) {
        seq![pair_char(units[0], units[1])] + decode(units.skip(2))
    } else if is_high_surrogate(units[0]) || is_low_surrogate(units[0]) {
        seq![REPLACEMENT] + decode(units.skip(1))
    } else {
        seq![units[0] as char] + decode(units.skip(1))
    }
}

/// The code units of one character.
pub open spec fn encode_char(c: char) -> Seq<u16> {
    if (c as u32) < 0x10000 {
        seq![(c as u32) as u16]
    } else {
        seq![
            (0xD800 + (c as u32 - 0x10000) / 0x400) as u16,
            (0xDC00 + (c as u32 - 0x10000) % 0x400) as u16,
        ]
    }
}

/// The code units of a text.
pub open spec fn encode(chars: Seq<char>) -> Seq<u16>
    decreases chars.len(),
{
    if chars.len() == 0 {
        seq![]
    } else {
        encode_char(chars[0]) + encode(chars.skip(1))
    }
}

/// The code units of one character are no unpaired surrogate and stand for it.
proof fn encode_char_decodes(c: char)
    ensures
        ({
            let units = encode_char(c);
            if (c as u32) < 0x10000 {
                &&& units.len() == 1
                &&& !is_high_surrogate(units[0])
                &&& !is_low_surrogate(units[0])
                &&& units[0] as char == c
            } else {
                &&& units.len() == 2
                &&& is_high_surrogate(units[0])
                &&& is_low_surrogate(units[1])
                &&& pair_char(units[0], units[1]) == c
            }
        }),
{
    if (c as u32) >= 0x10000 {
        let d = c as u32 - 0x10000;
        assert(d == (d / 0x400) * 0x400 + d % 0x400);
    }
}

/// Decoding gives back every text that was encoded.
pub proof fn decode_encode(chars: Seq<char>)
    ensures
        decode(encode(chars)) == chars,
    decreases chars.len(),
{
    if chars.len() > 0 {
        let c = chars[0];
        let rest = chars.skip(1);
        decode_encode(rest);
        let units = encode(chars);
        assert(units.skip(encode_char(c).len() as int) =~= encode(rest));
        assert(seq![c] + rest =~= chars);
        encode_char_decodes(c);
    } else {
        assert(decode(encode(chars)) =~= chars);
    }
}

/// Text takes as many code units as it was decoded from, broken pairs included.
pub proof fn encode_decode_len(units: Seq<u16>)
    ensures
        encode(decode(units)).len() == units.len(),
    decreases units.len(),
{
    if units.len() == 0 {
    } else if is_high_surrogate(units[0]) && units.len() > 1 && is_low_surrogate(units[1]) {
        encode_decode_len(units.skip(2));
        assert(decode(units).skip(1) =~= decode(units.skip(2)));
    } else {
        encode_decode_len(units.skip(1));
        assert(decode(units).skip(1) =~= decode(units.skip(1)));
    }
}

/// Decodes UTF-16, with the replacement character for each unpaired surrogate.
pub fn decode_units(units: &[u16]) -> (r: String)
    ensures
        r@ == decode(units@),
{
    let mut r = String::new();
    let mut i: usize = 0;
    assert(units@.skip(0) =~= units@);
    while i < units.len()
        invariant
            i <= units.len(),
            r@ + decode(units@.skip(i as int)) == decode(units@),
        decreases units.len() - i,
    {
        let ghost rest = units@.skip(i as int);
        let ghost before = r@;
        let u = units[i];
        if 0xD800 <= u && u < 0xDC00 && i + 1 < units.len() && 0xDC00 <= units[i + 1] && units[i
            + 1] < 0xE000 {
            let code: u32 = 0x10000 + (u as u32 - 0xD800) * 0x400 + (units[i + 1] as u32 - 0xDC00);
            match char::from_u32(code) {
                Some(c) => r.push(c),
                None => {},
            }
            assert(rest.skip(2) =~= units@.skip(i + 2));
            i = i + 2;
        } else {
            match char::from_u32(u as u32) {
                Some(c) => r.push(c),
                None => r.push(REPLACEMENT),
            }
            assert(rest.skip(1) =~= units@.skip(i + 1));
            i = i + 1;
        }
        assert(r@ + decode(units@.skip(i as int)) =~= before + decode(rest));
    }
    assert(units@.skip(i as int) =~= Seq::<u16>::empty());
    assert(r@ =~= decode(units@));
    r
}

/// The UTF-16 code units of a text.
pub fn encode_units(s: &str) -> (r: Vec<u16>)
    ensures
        r@ == encode(s@),
{
    let chars = chars_of(s);
    let mut r: Vec<u16> = Vec::new();
    let mut i: usize = 0;
    assert(chars@.skip(0) =~= chars@);
    while i < chars.len()
        invariant
            i <= chars.len(),
            r@ + encode(chars@.skip(i as int)) == encode(chars@),
        decreases chars.len() - i,
    {
        let ghost rest = chars@.skip(i as int);
        let ghost before = r@;
        let c: u32 = chars[i] as u32;
        if c < 0x10000 {
            r.push(c as u16);
        } else {
            r.push((0xD800 + (c - 0x10000) / 0x400) as u16);
            r.push((0xDC00 + (c - 0x10000) % 0x400) as u16);
        }
        assert(rest.skip(1) =~= chars@.skip(i + 1));
        i = i + 1;
        assert(r@ + encode(chars@.skip(i as int)) =~= before + encode(rest));
    }
    assert(chars@.skip(i as int) =~= Seq::<char>::empty());
    assert(r@ =~= encode(chars@));
    r
}

} // verus!
