//! Texts: numbers, columns, trimming, and what is read back of them.

use vstd::prelude::*;
use crate::frame::timestamp;
use crate::prompt::{choice_of, decimal_number, digit_value, number_of, opcode_of_text, Choice};
use crate::search::{first_from, first_from_is_least, last_below, last_below_is_greatest};
use crate::text::{
    decimal, hex_byte, hex_number, is_ink, is_space, left_aligned, lowered, right_aligned,
    sign_and_decimal, signed_decimal, trimmed, zero_padded,
};

verus! {

/// The number that decimal digits stand for.
pub open spec fn worth(digits: Seq<char>) -> int
    decreases digits.len(),
{
    if digits.len() == 0 {
        0
    } else {
        10 * worth(digits.drop_last()) + (digits.last() as u32 - 0x30)
    }
}

/// Whether all characters are decimal digits.
pub open spec fn are_digits(s: Seq<char>) -> bool {
    forall|k: int| 0 <= k < s.len() ==> 0x30 <= (#[trigger] s[k]) as u32 <= 0x39
}

/// A number in decimal is made of digits that stand for it, without zeros in front.
pub proof fn a_decimal_stands_for_its_number(n: nat)
    ensures
        decimal(n).len() >= 1,
        are_digits(decimal(n)),
        worth(decimal(n)) == n,
        n > 0 ==> decimal(n)[0] as u32 != 0x30,
        n == 0 ==> decimal(n).len() == 1,
    decreases n,
{
    if n < 10 {
        let s = decimal(n);
        assert(s.drop_last().len() == 0);
        assert(worth(s.drop_last()) == 0);
    } else {
        a_decimal_stands_for_its_number(n / 10);
        let s = decimal(n);
        assert(s.drop_last() =~= decimal(n / 10));
    }
}

/// A negative number has a minus sign in front of its digits, and no other number has one.
pub proof fn a_sign_is_shown(n: int)
    ensures
        n < 0 ==> signed_decimal(n) == seq!['-'] + decimal((-n) as nat),
        n >= 0 ==> signed_decimal(n) == decimal(n as nat),
        n < 0 ==> sign_and_decimal(n) == seq!['-'] + decimal((-n) as nat),
        n >= 0 ==> sign_and_decimal(n) == seq!['+'] + decimal(n as nat),
{
}

/// Padding with zeros fills a number up to a width, and changes neither a longer one nor what
/// it stands for.
pub proof fn zeros_fill_up(n: nat, width: int)
    ensures
        are_digits(zero_padded(n as int, width)),
        worth(zero_padded(n as int, width)) == n,
        zero_padded(n as int, width).len() == if decimal(n).len() < width {
            width
        } else {
            decimal(n).len() as int
        },
{
    let digits = decimal(n);
    a_decimal_stands_for_its_number(n);
    let zeros = zero_padded(n as int, width).take(zero_padded(n as int, width).len() - digits.len());
    assert(zeros + digits =~= zero_padded(n as int, width));
    zeros_are_worth_nothing(zeros, digits);
    assert forall|k: int| 0 <= k < zero_padded(n as int, width).len() implies 0x30 <= (
    #[trigger] zero_padded(n as int, width)[k]) as u32 <= 0x39 by {
        if k >= zeros.len() {
            assert(zero_padded(n as int, width)[k] == digits[k - zeros.len()]);
        }
    }
}

proof fn zeros_are_worth_nothing(zeros: Seq<char>, digits: Seq<char>)
    requires
        forall|k: int| 0 <= k < zeros.len() ==> #[trigger] zeros[k] == '0',
    ensures
        worth(zeros + digits) == worth(digits),
    decreases zeros.len() + digits.len(),
{
    if digits.len() > 0 {
        zeros_are_worth_nothing(zeros, digits.drop_last());
        assert((zeros + digits).drop_last() =~= zeros + digits.drop_last());
        assert((zeros + digits).last() == digits.last());
    } else {
        assert(zeros + digits =~= zeros);
        if zeros.len() > 0 {
            let rest = zeros.drop_last();
            assert forall|k: int| 0 <= k < rest.len() implies #[trigger] rest[k] == '0' by {
                assert(rest[k] == zeros[k]);
            }
            zeros_are_worth_nothing(rest, digits);
            assert(rest + digits =~= rest);
            assert(zeros[zeros.len() - 1] == '0');
        }
    }
}

/// A time is the seconds, a point, and the microseconds in six digits or more: the same number
/// of microseconds always stands for the same fraction.
pub proof fn a_time_has_six_decimals(sec: i64, usec: i64)
    requires
        0 <= usec < 1_000_000,
    ensures
        ({
            let whole = signed_decimal(sec as int);
            let text = timestamp(sec, usec);
            &&& text.len() == whole.len() + 7
            &&& text.take(whole.len() as int) == whole
            &&& text[whole.len() as int] == '.'
            &&& are_digits(text.skip(1 + whole.len() as int))
            &&& worth(text.skip(1 + whole.len() as int)) == usec
        }),
{
    let whole = signed_decimal(sec as int);
    let text = timestamp(sec, usec);
    zeros_fill_up(usec as nat, 6);
    decimal_len(usec as nat);
    assert(text.take(whole.len() as int) =~= whole);
    assert(text.skip(1 + whole.len() as int) =~= zero_padded(usec as int, 6));
}

proof fn decimal_len(n: nat)
    requires
        n < 1_000_000,
    ensures
        decimal(n).len() <= 6,
{
    reveal_with_fuel(decimal, 7);
}

/// A text in a column is the text and spaces behind it, as many as the width leaves.
pub proof fn a_column_is_filled_up(s: Seq<char>, width: int)
    ensures
        left_aligned(s, width).take(s.len() as int) == s,
        left_aligned(s, width).len() == if s.len() < width {
            width
        } else {
            s.len() as int
        },
        forall|k: int|
            s.len() <= k < left_aligned(s, width).len() ==> #[trigger] left_aligned(s, width)[k]
                == ' ',
        right_aligned(s, width).len() == left_aligned(s, width).len(),
        right_aligned(s, width).skip(right_aligned(s, width).len() - s.len()) == s,
        forall|k: int|
            0 <= k < right_aligned(s, width).len() - s.len() ==> #[trigger] right_aligned(
                s,
                width,
            )[k] == ' ',
{
    assert(left_aligned(s, width).take(s.len() as int) =~= s);
    let r = right_aligned(s, width);
    assert(r.skip(r.len() - s.len()) =~= s);
}

/// Whether all characters are white space.
pub open spec fn is_blank(s: Seq<char>) -> bool {
    forall|k: int| 0 <= k < s.len() ==> is_space(#[trigger] s[k])
}

/// Trimming takes the white space off both ends of a text and nothing else: what is left
/// starts and ends with something else, unless nothing is left.
pub proof fn trimming_takes_the_space_off_the_ends(s: Seq<char>, i: int, k: int)
    requires
        0 <= i <= k <= s.len(),
        is_blank(s.take(i)),
        is_blank(s.skip(k)),
        i < k ==> !is_space(s[i]) && !is_space(s[k - 1]),
    ensures
        trimmed(s) == s.subrange(i, k),
{
    let p = is_ink(s);
    let n = s.len() as int;
    first_from_is_least(p, 0, n);
    last_below_is_greatest(p, n);
    assert forall|j: int| 0 <= j < i implies !#[trigger] p(j) by {
        assert(is_space(s.take(i)[j]));
    }
    assert forall|j: int| k <= j < n implies !#[trigger] p(j) by {
        assert(is_space(s.skip(k)[j - k]));
    }
    if i < k {
        assert(p(i));
        assert(p(k - 1));
        let a = first_from(p, 0, n)->0;
        let b = last_below(p, n)->0;
        assert(a == i);
        assert(b == k - 1);
    } else {
        if first_from(p, 0, n) is Some {
            assert(!p(first_from(p, 0, n)->0));
        }
        assert(s.subrange(i, k) =~= Seq::<char>::empty());
    }
}

/// In lower case, a text of ASCII characters has small letters in place of the capitals, and is
/// otherwise the same.
pub proof fn capitals_become_small(s: Seq<char>, k: int)
    requires
        forall|j: int| 0 <= j < s.len() ==> ((#[trigger] s[j]) as u32) < 0x80,
        0 <= k < s.len(),
    ensures
        lowered(s).len() == s.len(),
        0x41 <= s[k] as u32 <= 0x5A ==> lowered(s)[k] as u32 == s[k] as u32 + 0x20,
        !(0x41 <= s[k] as u32 <= 0x5A) ==> lowered(s)[k] == s[k],
{
    lowered_char(s, k, s[k]);
}

proof fn lowered_char(s: Seq<char>, k: int, c: char)
    requires
        forall|j: int| 0 <= j < s.len() ==> ((#[trigger] s[j]) as u32) < 0x80,
        0 <= k < s.len(),
        c == s[k],
    ensures
        lowered(s).len() == s.len(),
        0x41 <= c as u32 <= 0x5A ==> lowered(s)[k] as u32 == c as u32 + 0x20,
        !(0x41 <= c as u32 <= 0x5A) ==> lowered(s)[k] == c,
{
}

/// The value of a hexadecimal digit in lower case.
pub open spec fn hex_worth(c: char) -> int {
    if c as u32 <= 0x39 {
        c as u32 - 0x30
    } else {
        c as u32 - 0x61 + 10
    }
}

/// Whether a character is a hexadecimal digit in lower case.
pub open spec fn is_hex(c: char) -> bool {
    0x30 <= c as u32 <= 0x39 || 0x61 <= c as u32 <= 0x66
}

/// A byte is two hexadecimal digits in lower case, the higher one first.
pub proof fn a_byte_is_two_digits(b: u8)
    ensures
        hex_byte(b).len() == 2,
        is_hex(hex_byte(b)[0]),
        is_hex(hex_byte(b)[1]),
        16 * hex_worth(hex_byte(b)[0]) + hex_worth(hex_byte(b)[1]) == b,
{
}

/// A number in hexadecimal is its digits, the last one for the sixteen that are left over.
pub proof fn a_number_in_hexadecimal(n: nat)
    ensures
        hex_number(n).len() >= 1,
        is_hex(hex_number(n).last()),
        hex_worth(hex_number(n).last()) == n % 16,
        n < 16 ==> hex_number(n).len() == 1,
        n >= 16 ==> hex_number(n).drop_last() == hex_number(n / 16),
{
    if n >= 16 {
        assert(hex_number(n).drop_last() =~= hex_number(n / 16));
    }
}

/// A number is read from digits exactly where there is one and all are digits, and it is what
/// they stand for.
pub proof fn digits_are_read_as_their_number(s: Seq<char>)
    ensures
        number_of(s, 10) is Some <==> s.len() > 0 && are_digits(s),
        number_of(s, 10) matches Some(n) ==> n == worth(s),
    decreases s.len(),
{
    if s.len() == 1 {
        digit_is_read(s[0]);
        assert(s.drop_last().len() == 0);
        assert(worth(s.drop_last()) == 0);
    } else if s.len() > 1 {
        let rest = s.drop_last();
        digits_are_read_as_their_number(rest);
        digit_is_read(s.last());
        if are_digits(s) {
            assert forall|k: int| 0 <= k < rest.len() implies 0x30 <= (#[trigger] rest[k]) as u32
                <= 0x39 by {
                assert(0x30 <= s[k] as u32 <= 0x39);
            }
            assert(0x30 <= s[s.len() - 1] as u32 <= 0x39);
        }
        if are_digits(rest) && 0x30 <= s.last() as u32 <= 0x39 {
            assert forall|k: int| 0 <= k < s.len() implies 0x30 <= (#[trigger] s[k]) as u32
                <= 0x39 by {
                if k < rest.len() {
                    assert(0x30 <= rest[k] as u32 <= 0x39);
                }
            }
        }
    }
}

proof fn digit_is_read(c: char)
    ensures
        digit_value(c, 10) is Some <==> 0x30 <= c as u32 <= 0x39,
        digit_value(c, 10) matches Some(d) ==> d == c as u32 - 0x30,
{
}

/// What is written in decimal is read back, with a plus sign before it or without.
pub proof fn a_written_number_is_read_back(n: nat)
    ensures
        decimal_number(decimal(n)) == Some(n as int),
        decimal_number(seq!['+'] + decimal(n)) == Some(n as int),
{
    a_decimal_stands_for_its_number(n);
    digits_are_read_as_their_number(decimal(n));
    assert(0x30 <= decimal(n)[0] as u32 <= 0x39);
    assert((seq!['+'] + decimal(n)).skip(1) =~= decimal(n));
}

/// Hexadecimal digits in either case are read as the number that they stand for, digit by
/// digit; any other character is not read.
pub proof fn hexadecimal_digits_are_read(s: Seq<char>, c: char)
    requires
        s.len() > 0,
    ensures
        ({
            let d = if 0x30 <= c as u32 <= 0x39 {
                c as u32 - 0x30
            } else if 0x61 <= c as u32 <= 0x66 {
                c as u32 - 0x57
            } else if 0x41 <= c as u32 <= 0x46 {
                c as u32 - 0x37
            } else {
                -1
            };
            &&& d >= 0 && number_of(s, 16) is Some ==> number_of(s.push(c), 16) == Some(
                16 * number_of(s, 16)->0 + d,
            )
            &&& d < 0 || number_of(s, 16) is None ==> number_of(s.push(c), 16) is None
            &&& d >= 0 ==> number_of(seq![c], 16) == Some(d as int)
            &&& d < 0 ==> number_of(seq![c], 16) is None
        }),
{
    assert(s.push(c).drop_last() =~= s);
}

/// An opcode is read from a number up to 0xFFFF, in decimal or behind 0x in hexadecimal.
pub proof fn opcodes_are_numbers_of_two_bytes(s: Seq<char>)
    ensures
        opcode_of_text(s) matches Some(n) ==> 0 <= n <= 0xFFFF,
        s.len() >= 2 && s[0] == '0' && (s[1] == 'x' || s[1] == 'X') ==> {
            let n = number_of(s.skip(2), 16);
            &&& n is Some && n->0 <= 0xFFFF ==> opcode_of_text(s) == n
            &&& n is None || n->0 > 0xFFFF ==> opcode_of_text(s) is None
        },
        s.len() > 0 && are_digits(s) ==> {
            &&& worth(s) <= 0xFFFF ==> opcode_of_text(s) == Some(worth(s))
            &&& worth(s) > 0xFFFF ==> opcode_of_text(s) is None
        },
        s.len() > 1 && s[0] == '+' && are_digits(s.skip(1)) ==> {
            &&& worth(s.skip(1)) <= 0xFFFF ==> opcode_of_text(s) == Some(worth(s.skip(1)))
            &&& worth(s.skip(1)) > 0xFFFF ==> opcode_of_text(s) is None
        },
{
    digits_are_read_as_their_number(s);
    digits_are_read_as_their_number(s.skip(1));
    numbers_are_not_negative(s.skip(2), 16);
    numbers_are_not_negative(s.skip(1), 10);
    numbers_are_not_negative(s, 10);
    if s.len() > 1 && are_digits(s) {
        assert(0x30 <= s[1] as u32 <= 0x39);
    }
    if s.len() > 0 && are_digits(s) {
        assert(0x30 <= s[0] as u32 <= 0x39);
    }
}

proof fn numbers_are_not_negative(s: Seq<char>, radix: int)
    requires
        radix == 10 || radix == 16,
    ensures
        number_of(s, radix) matches Some(n) ==> n >= 0,
    decreases s.len(),
{
    if s.len() > 1 {
        numbers_are_not_negative(s.drop_last(), radix);
        match number_of(s.drop_last(), radix) {
            Some(n) => {
                assert(n * radix >= 0) by (nonlinear_arith)
                    requires
                        n >= 0,
                        radix > 0,
                ;
            },
            None => {},
        }
    }
}

/// Where a number from 1 up to a limit is asked for, just those are taken, whatever space is
/// around them; a q in either case quits, and all else is unclear.
pub proof fn only_numbers_in_range_are_taken(input: Seq<char>, max: int)
    requires
        0 <= max <= usize::MAX,
    ensures
        ({
            let typed = trimmed(input);
            let choice = choice_of(input, max);
            &&& choice is Quit <==> typed == seq!['q'] || typed == seq!['Q']
            &&& choice matches Choice::Number(n) ==> 1 <= n <= max && decimal_number(typed) == Some(
                n as int,
            )
            &&& typed.len() > 0 && are_digits(typed) && 1 <= worth(typed) <= max ==> choice
                == Choice::Number(worth(typed) as usize)
            &&& typed.len() > 0 && are_digits(typed) && !(1 <= worth(typed) <= max) ==> choice
                == Choice::Unclear
        }),
{
    let typed = trimmed(input);
    reveal_strlit("q");
    reveal_strlit("Q");
    assert("q"@ =~= seq!['q']);
    assert("Q"@ =~= seq!['Q']);
    digits_are_read_as_their_number(typed);
    if typed.len() > 0 && are_digits(typed) {
        assert(0x30 <= typed[0] as u32 <= 0x39);
        assert(typed != seq!['q'] && typed != seq!['Q']) by {
            assert(seq!['q'][0] as u32 == 0x71);
            assert(seq!['Q'][0] as u32 == 0x51);
        }
    }
}

} // verus!
