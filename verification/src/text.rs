//! Strings as sequences of characters: building them, taking them apart, and
//! writing numbers in them.

use vstd::prelude::*;
use crate::search::{first_from, first_from_is_least, last_below, last_below_is_greatest};

verus! {

/// `String::push` appends one character.
pub assume_specification[ String::push ](s: &mut String, c: char)
    ensures
        final(s)@ == old(s)@.push(c),
;

/// `char::from_u32` gives the character with a scalar value, and none for a
/// surrogate or a number past the last scalar value.
pub assume_specification[ char::from_u32 ](code: u32) -> (r: Option<char>)
    ensures
        r == (if code < 0xD800 || 0xE000 <= code <= 0x10FFFF {
            Some(code as char)
        } else {
            None
        }),
;

/// Whether a character is a letter: `char::is_alphabetic`.
pub uninterp spec fn char_is_alphabetic(c: char) -> bool;

/// `char::is_alphabetic`: whether the character has Unicode's `Alphabetic` property. Its
/// answer depends on the character alone and is named; of ASCII it is also said that the
/// letters are those from A to Z, in either case.
#[verifier::external_body]
fn is_alphabetic(c: char) -> (r: bool)
    ensures
        r == char_is_alphabetic(c),
        (c as u32) < 0x80 ==> r == ('A' <= c <= 'Z' || 'a' <= c <= 'z'),
{
    c.is_alphabetic()
}

/// A letter. Which characters of ASCII are letters is spelled out.
pub open spec fn is_letter(c: char) -> bool {
    if (c as u32) < 0x80 {
        'A' <= c <= 'Z' || 'a' <= c <= 'z'
    } else {
        char_is_alphabetic(c)
    }
}

/// Whether a character is a letter.
pub fn check_letter(c: char) -> (r: bool)
    ensures
        r == is_letter(c),
{
    is_alphabetic(c)
}

/// Whether a character is an upper-case letter: `char::is_uppercase`.
pub uninterp spec fn char_is_uppercase(c: char) -> bool;

/// `char::is_uppercase`: whether the character has Unicode's `Uppercase` property. Its
/// answer depends on the character alone and is named; of ASCII it is also said that the
/// capitals are those from A to Z.
#[verifier::external_body]
fn is_uppercase(c: char) -> (r: bool)
    ensures
        r == char_is_uppercase(c),
        (c as u32) < 0x80 ==> r == ('A' <= c <= 'Z'),
{
    c.is_uppercase()
}

/// A capital. Which characters of ASCII are capitals is spelled out.
pub open spec fn is_capital(c: char) -> bool {
    if (c as u32) < 0x80 {
        'A' <= c <= 'Z'
    } else {
        char_is_uppercase(c)
    }
}

/// Whether a character is a capital.
pub fn check_capital(c: char) -> (r: bool)
    ensures
        r == is_capital(c),
{
    is_uppercase(c)
}

/// Whether a character is a letter or a number: `char::is_alphanumeric`.
pub uninterp spec fn char_is_alphanumeric(c: char) -> bool;

/// `char::is_alphanumeric`: whether the character is alphabetic or numeric in Unicode. Its
/// answer depends on the character alone and is named; of ASCII it is also said that these
/// are the letters from A to Z, in either case, and the ten digits.
#[verifier::external_body]
fn is_alphanumeric(c: char) -> (r: bool)
    ensures
        r == char_is_alphanumeric(c),
        (c as u32) < 0x80 ==> r == ('A' <= c <= 'Z' || 'a' <= c <= 'z' || '0' <= c <= '9'),
{
    c.is_alphanumeric()
}

/// A letter or a number. Which characters of ASCII are such is spelled out.
pub open spec fn is_letter_or_number(c: char) -> bool {
    if (c as u32) < 0x80 {
        'A' <= c <= 'Z' || 'a' <= c <= 'z' || '0' <= c <= '9'
    } else {
        char_is_alphanumeric(c)
    }
}

/// Whether a character is a letter or a number.
pub fn check_letter_or_number(c: char) -> (r: bool)
    ensures
        r == is_letter_or_number(c),
{
    is_alphanumeric(c)
}

/// Whether a character is white space: `char::is_whitespace`.
pub uninterp spec fn char_is_whitespace(c: char) -> bool;

/// `char::is_whitespace`: whether the character has Unicode's `White_Space` property. Its
/// answer depends on the character alone and is named; of ASCII it is also said that white
/// space is the space and the codes from the tab to the carriage return.
#[verifier::external_body]
fn is_whitespace(c: char) -> (r: bool)
    ensures
        r == char_is_whitespace(c),
        (c as u32) < 0x80 ==> r == (c == ' ' || '\t' <= c <= '\r'),
{
    c.is_whitespace()
}

/// White space. Which characters of ASCII are such is spelled out.
pub open spec fn is_space(c: char) -> bool {
    if (c as u32) < 0x80 {
        c == ' ' || '\t' <= c <= '\r'
    } else {
        char_is_whitespace(c)
    }
}

/// Whether a character is white space.
pub fn check_space(c: char) -> (r: bool)
    ensures
        r == is_space(c),
{
    is_whitespace(c)
}

/// A control code: one of the characters of Unicode's general category `Cc`.
pub open spec fn char_is_control(c: char) -> bool {
    c as u32 <= 0x1F || 0x7F <= c as u32 <= 0x9F
}

/// Whether a character is a control code.
pub fn is_control(c: char) -> (r: bool)
    ensures
        r == char_is_control(c),
{
    let code: u32 = c as u32;
    code <= 0x1F || (0x7F <= code && code <= 0x9F)
}

/// A punctuation mark of ASCII.
pub open spec fn char_is_ascii_punctuation(c: char) -> bool {
    ||| '!' <= c <= '/'
    ||| ':' <= c <= '@'
    ||| '[' <= c <= '`'
    ||| '{' <= c <= '~'
}

/// Whether a character is a punctuation mark of ASCII.
pub fn is_ascii_punctuation(c: char) -> (r: bool)
    ensures
        r == char_is_ascii_punctuation(c),
{
    ('!' <= c && c <= '/') || (':' <= c && c <= '@') || ('[' <= c && c <= '`') || ('{' <= c && c
        <= '~')
}

/// A text in lower case: `str::to_lowercase`.
pub uninterp spec fn lowercase(s: Seq<char>) -> Seq<char>;

/// A text of ASCII characters.
pub open spec fn is_ascii_text(s: Seq<char>) -> bool {
    forall|k: int| 0 <= k < s.len() ==> (#[trigger] s[k] as u32) < 0x80
}

/// A text with each capital of ASCII replaced by its small letter.
pub open spec fn ascii_lowercase(s: Seq<char>) -> Seq<char> {
    s.map_values(
        |c: char|
            if 'A' <= c <= 'Z' {
                (c as u32 + 32) as char
            } else {
                c
            },
    )
}

/// `str::to_lowercase`: the text in lower case by Unicode's rules. What it gives depends on
/// the text alone and is named; of a text of ASCII characters it is also said that the
/// capitals become small letters and the rest stays.
#[verifier::external_body]
fn to_lowercase(s: &str) -> (r: String)
    ensures
        r@ == lowercase(s@),
        is_ascii_text(s@) ==> r@ == ascii_lowercase(s@),
{
    s.to_lowercase()
}

/// A text in lower case. What becomes of ASCII characters is spelled out.
pub open spec fn lowered(s: Seq<char>) -> Seq<char> {
    if is_ascii_text(s) {
        ascii_lowercase(s)
    } else {
        lowercase(s)
    }
}

/// Puts a text into lower case.
pub fn lower(s: &str) -> (r: String)
    ensures
        r@ == lowered(s@),
{
    to_lowercase(s)
}

/// The characters of `s`.
pub fn chars_of(s: &str) -> (r: Vec<char>)
    ensures
        r@ == s@,
{
    let mut r: Vec<char> = Vec::new();
    for c in it: s.chars()
        invariant
            r@ == s@.take(it.index()),
            it.seq() == s@,
    {
        r.push(c);
        assert(s@.take(it.index() + 1) =~= s@.take(it.index()).push(c));
    }
    assert(s@.take(s@.len() as int) =~= s@);
    r
}

/// Whether two texts are the same.
pub fn same_text(a: &str, b: &str) -> (r: bool)
    ensures
        r == (a@ == b@),
{
    let left: String = a.to_owned();
    let right: String = b.to_owned();
    left == right
}

/// The string made of `chars`.
pub fn string_of(chars: &[char]) -> (r: String)
    ensures
        r@ == chars@,
{
    let mut r = String::new();
    let mut i: usize = 0;
    while i < chars.len()
        invariant
            i <= chars.len(),
            r@ == chars@.take(i as int),
        decreases chars.len() - i,
    {
        r.push(chars[i]);
        assert(chars@.take(i + 1) =~= chars@.take(i as int).push(chars@[i as int]));
        i = i + 1;
    }
    assert(chars@.take(chars@.len() as int) =~= chars@);
    r
}

/// Whether the character at an index is no white space.
pub open spec fn is_ink(s: Seq<char>) -> spec_fn(int) -> bool {
    |i: int| !is_space(s[i])
}

/// A text without the white space at its ends.
pub open spec fn trimmed(s: Seq<char>) -> Seq<char> {
    match (first_from(is_ink(s), 0, s.len() as int), last_below(is_ink(s), s.len() as int)) {
        (Some(i), Some(k)) => s.subrange(i, k + 1),
        _ => seq![],
    }
}

/// Takes the white space off the ends of a text.
pub fn trim(s: &str) -> (r: String)
    ensures
        r@ == trimmed(s@),
{
    let chars = chars_of(s);
    let ghost p = is_ink(s@);
    let ghost n = s@.len() as int;
    let mut i: usize = 0;
    while i < chars.len() && check_space(chars[i])
        invariant
            i <= chars.len(),
            chars@ == s@,
            n == s@.len(),
            p == is_ink(s@),
            first_from(p, 0, n) == first_from(p, i as int, n),
        decreases chars.len() - i,
    {
        assert(!p(i as int));
        i = i + 1;
    }
    let mut k: usize = chars.len();
    while k > 0 && check_space(chars[k - 1])
        invariant
            k <= chars.len(),
            chars@ == s@,
            n == s@.len(),
            p == is_ink(s@),
            last_below(p, n) == last_below(p, k as int),
        decreases k,
    {
        assert(!p(k - 1));
        k = k - 1;
    }
    proof {
        first_from_is_least(p, 0, n);
        last_below_is_greatest(p, n);
        if i < n {
            assert(p(i as int));
        }
        if k > 0 {
            assert(p(k - 1));
        }
    }
    if i >= k {
        assert(trimmed(s@) =~= Seq::<char>::empty());
        return String::new();
    }
    string_of(vstd::slice::slice_subrange(chars.as_slice(), i, k))
}

/// The digit for a number below ten.
pub open spec fn digit(d: int) -> char {
    (48 + d) as char
}

/// A number in decimal.
pub open spec fn decimal(n: nat) -> Seq<char>
    decreases n,
{
    if n < 10 {
        seq![digit(n as int)]
    } else {
        decimal(n / 10).push(digit((n % 10) as int))
    }
}

/// A number in decimal, with a minus sign where it is negative.
pub open spec fn signed_decimal(n: int) -> Seq<char> {
    if n < 0 {
        seq!['-'] + decimal((-n) as nat)
    } else {
        decimal(n as nat)
    }
}

/// The same character `n` times.
pub open spec fn repeated(c: char, n: int) -> Seq<char> {
    Seq::new(
        if n < 0 {
            0
        } else {
            n as nat
        },
        |i: int| c,
    )
}

/// A number in decimal, with zeros behind its sign to fill up the width.
pub open spec fn zero_padded(n: int, width: int) -> Seq<char> {
    if n < 0 {
        let digits = decimal((-n) as nat);
        seq!['-'] + repeated('0', width - 1 - digits.len()) + digits
    } else {
        let digits = decimal(n as nat);
        repeated('0', width - digits.len()) + digits
    }
}

/// A text with spaces behind it to fill up the width.
pub open spec fn left_aligned(s: Seq<char>, width: int) -> Seq<char> {
    s + repeated(' ', width - s.len())
}

/// Appends a number in decimal.
pub fn push_decimal(out: &mut String, n: u64)
    ensures
        final(out)@ == old(out)@ + decimal(n as nat),
    decreases n,
{
    if n >= 10 {
        push_decimal(out, n / 10);
    }
    let ghost before = out@;
    let d: u8 = (n % 10) as u8;
    out.push((48 + d) as char);
    assert(out@ =~= old(out)@ + decimal(n as nat));
}

/// Appends a character `n` times.
pub fn push_repeated(out: &mut String, c: char, n: usize)
    ensures
        final(out)@ == old(out)@ + repeated(c, n as int),
{
    let mut k: usize = 0;
    assert(out@ =~= old(out)@ + repeated(c, 0));
    while k < n
        invariant
            k <= n,
            out@ == old(out)@ + repeated(c, k as int),
        decreases n - k,
    {
        out.push(c);
        k = k + 1;
        assert(out@ =~= old(out)@ + repeated(c, k as int));
    }
}

/// Appends a text, with spaces behind it to fill up the width.
pub fn push_left_aligned(out: &mut String, s: &str, width: usize)
    ensures
        final(out)@ == old(out)@ + left_aligned(s@, width as int),
{
    let len: usize = s.unicode_len();
    out.append(s);
    if len < width {
        push_repeated(out, ' ', width - len);
    }
    assert(out@ =~= old(out)@ + left_aligned(s@, width as int));
}

/// The distance of a number from zero.
fn magnitude(n: i64) -> (r: u64)
    ensures
        r == (if n < 0 {
            -n
        } else {
            n as int
        }),
{
    if n < 0 {
        (-(n + 1)) as u64 + 1
    } else {
        n as u64
    }
}

/// Appends a number in decimal, with a minus sign where it is negative.
pub fn push_signed(out: &mut String, n: i64)
    ensures
        final(out)@ == old(out)@ + signed_decimal(n as int),
{
    if n < 0 {
        out.push('-');
    }
    push_decimal(out, magnitude(n));
    assert(out@ =~= old(out)@ + signed_decimal(n as int));
}

/// Appends a number in decimal, with zeros behind its sign to fill up the width.
pub fn push_zero_padded(out: &mut String, n: i64, width: usize)
    ensures
        final(out)@ == old(out)@ + zero_padded(n as int, width as int),
{
    let mut digits = String::new();
    push_decimal(&mut digits, magnitude(n));
    assert(digits@ =~= decimal((if n < 0 {
        -n
    } else {
        n as int
    }) as nat));
    let mut taken: usize = digits.as_str().unicode_len();
    if n < 0 {
        out.push('-');
        if taken < width && taken + 1 < width {
            push_repeated(out, '0', width - taken - 1);
        }
    } else if taken < width {
        push_repeated(out, '0', width - taken);
    }
    out.append(digits.as_str());
    assert(out@ =~= old(out)@ + zero_padded(n as int, width as int));
}

/// A text with spaces before it to fill up the width.
pub open spec fn right_aligned(s: Seq<char>, width: int) -> Seq<char> {
    repeated(' ', width - s.len()) + s
}

/// Appends a number in decimal, with spaces before it to fill up the width.
pub fn push_right_aligned(out: &mut String, n: u64, width: usize)
    ensures
        final(out)@ == old(out)@ + right_aligned(decimal(n as nat), width as int),
{
    let mut digits = String::new();
    push_decimal(&mut digits, n);
    assert(digits@ =~= decimal(n as nat));
    let len: usize = digits.as_str().unicode_len();
    if len < width {
        push_repeated(out, ' ', width - len);
    }
    out.append(digits.as_str());
    assert(out@ =~= old(out)@ + right_aligned(decimal(n as nat), width as int));
}

/// A number in decimal behind its sign.
pub open spec fn sign_and_decimal(n: int) -> Seq<char> {
    if n < 0 {
        seq!['-'] + decimal((-n) as nat)
    } else {
        seq!['+'] + decimal(n as nat)
    }
}

/// Appends a number in decimal behind its sign.
pub fn push_with_sign(out: &mut String, n: i64)
    ensures
        final(out)@ == old(out)@ + sign_and_decimal(n as int),
{
    if n >= 0 {
        out.push('+');
    }
    push_signed(out, n);
    assert(out@ =~= old(out)@ + sign_and_decimal(n as int));
}

/// The hexadecimal digit for a number below sixteen.
pub open spec fn hex_digit(d: int) -> char {
    if d < 10 {
        (48 + d) as char
    } else {
        (87 + d) as char
    }
}

/// A byte as two hexadecimal digits.
pub open spec fn hex_byte(b: u8) -> Seq<char> {
    seq![hex_digit(b as int / 16), hex_digit(b as int % 16)]
}

/// The hexadecimal digit for a number below sixteen.
fn write_hex_digit(d: u8) -> (r: char)
    requires
        d < 16,
    ensures
        r == hex_digit(d as int),
{
    if d < 10 {
        (48 + d) as char
    } else {
        (87 + d) as char
    }
}

/// Appends a byte as two hexadecimal digits.
pub fn push_hex_byte(out: &mut String, b: u8)
    ensures
        final(out)@ == old(out)@ + hex_byte(b),
{
    out.push(write_hex_digit(b / 16));
    out.push(write_hex_digit(b % 16));
    assert(out@ =~= old(out)@ + hex_byte(b));
}

/// A number in hexadecimal.
pub open spec fn hex_number(n: nat) -> Seq<char>
    decreases n,
{
    if n < 16 {
        seq![hex_digit(n as int)]
    } else {
        hex_number(n / 16).push(hex_digit((n % 16) as int))
    }
}

/// Appends a number in hexadecimal.
pub fn push_hex(out: &mut String, n: u64)
    ensures
        final(out)@ == old(out)@ + hex_number(n as nat),
    decreases n,
{
    if n >= 16 {
        push_hex(out, n / 16);
    }
    out.push(write_hex_digit((n % 16) as u8));
    assert(out@ =~= old(out)@ + hex_number(n as nat));
}

} // verus!
