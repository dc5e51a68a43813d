//! What is typed at a prompt or given as an argument.

use vstd::prelude::*;
use crate::text::{chars_of, lower, lowered, same_text, trim, trimmed};

verus! {

/// The value of a digit.
pub open spec fn digit_value(c: char, radix: int) -> Option<int> {
    let d = if '0' <= c <= '9' {
        c as u32 - 48
    } else if 'a' <= c <= 'f' {
        c as u32 - 87
    } else if 'A' <= c <= 'F' {
        c as u32 - 55
    } else {
        99
    };
    if d < radix {
        Some(d)
    } else {
        None
    }
}

/// The number that digits make, if all characters are digits and there is one.
pub open spec fn number_of(s: Seq<char>, radix: int) -> Option<int>
    decreases s.len(),
{
    if s.len() == 0 {
        None
    } else if s.len() == 1 {
        digit_value(s[0], radix)
    } else {
        match (number_of(s.drop_last(), radix), digit_value(s.last(), radix)) {
            (Some(n), Some(d)) => Some(n * radix + d),
            _ => None,
        }
    }
}

/// The number that a text stands for, in decimal; a plus sign may stand before it.
pub open spec fn decimal_number(s: Seq<char>) -> Option<int> {
    if s.len() > 0 && s[0] == '+' {
        number_of(s.skip(1), 10)
    } else {
        number_of(s, 10)
    }
}

/// The value of a digit.
fn read_digit(c: char, radix: u32) -> (r: Option<u32>)
    requires
        radix == 10 || radix == 16,
    ensures
        match r {
            Some(d) => digit_value(c, radix as int) == Some(d as int) && d < radix,
            None => digit_value(c, radix as int) is None,
        },
{
    let code: u32 = c as u32;
    let d: u32 = if '0' <= c && c <= '9' {
        code - 48
    } else if 'a' <= c && c <= 'f' {
        code - 87
    } else if 'A' <= c && c <= 'F' {
        code - 55
    } else {
        99
    };
    if d < radix {
        Some(d)
    } else {
        None
    }
}

/// Numbers do not shrink as digits are added, and are not negative.
proof fn number_grows(s: Seq<char>, radix: int, i: int)
    requires
        radix == 10 || radix == 16,
        0 < i <= s.len(),
    ensures
        number_of(s.take(i), radix) is None ==> number_of(s, radix) is None,
        number_of(s.take(i), radix) is Some && number_of(s, radix) is Some ==> 0 <= number_of(
            s.take(i),
            radix,
        )->0 <= number_of(s, radix)->0,
    decreases s.len(),
{
    if i < s.len() {
        number_grows(s.drop_last(), radix, i);
        assert(s.drop_last().take(i) =~= s.take(i));
    } else {
        assert(s.take(i) =~= s);
        if i > 1 {
            number_grows(s.drop_last(), radix, i - 1);
            assert(s.drop_last().take(i - 1) =~= s.drop_last());
        }
    }
}

/// Reads a number of digits, if it is no greater than `max`.
fn read_number(chars: &[char], radix: u32, max: u64) -> (r: Option<u64>)
    requires
        radix == 10 || radix == 16,
    ensures
        match (r, number_of(chars@, radix as int)) {
            (Some(n), Some(k)) => n == k && k <= max,
            (None, Some(k)) => k > max,
            (None, None) => true,
            _ => false,
        },
{
    if chars.len() == 0 {
        return None;
    }
    let mut n: u64 = 0;
    let mut i: usize = 0;
    while i < chars.len()
        invariant
            i <= chars.len(),
            radix == 10 || radix == 16,
            n <= max,
            i == 0 ==> n == 0,
            i > 0 ==> number_of(chars@.take(i as int), radix as int) == Some(n as int),
        decreases chars.len() - i,
    {
        let ghost now = chars@.take(i + 1);
        proof {
            assert(now.drop_last() =~= chars@.take(i as int));
            assert(now.last() == chars@[i as int]);
            number_grows(chars@, radix as int, i + 1);
        }
        match read_digit(chars[i], radix) {
            Some(d) => {
                assert(number_of(now, radix as int) == Some(n * radix + d));
                let next: u128 = n as u128 * radix as u128 + d as u128;
                if next > max as u128 {
                    return None;
                }
                n = next as u64;
            },
            None => {
                assert(number_of(now, radix as int) is None);
                return None;
            },
        }
        i = i + 1;
    }
    assert(chars@.take(i as int) =~= chars@);
    Some(n)
}

/// What was typed where a number was asked for.
#[derive(Debug, Clone, Copy, PartialEq, Eq, Structural)]
pub enum Choice {
    Quit,
    Number(usize),
    Unclear,
}

/// What an input means where a number from 1 to `max` is asked for: `q` quits.
pub open spec fn choice_of(input: Seq<char>, max: int) -> Choice {
    let typed = trimmed(input);
    if typed == "q"@ || typed == "Q"@ {
        Choice::Quit
    } else {
        match decimal_number(typed) {
            Some(n) if 1 <= n <= max => Choice::Number(n as usize),
            _ => Choice::Unclear,
        }
    }
}

/// Reads what was typed where a number from 1 to `max` was asked for.
pub fn prompt_usize(input: &str, max: usize) -> (r: Choice)
    ensures
        r == choice_of(input@, max as int),
{
    let typed = trim(input);
    if same_text(typed.as_str(), "q") || same_text(typed.as_str(), "Q") {
        return Choice::Quit;
    }
    let chars = chars_of(typed.as_str());
    let number = if chars.len() > 0 && chars[0] == '+' {
        assert(chars@.subrange(1, chars@.len() as int) =~= chars@.skip(1));
        read_number(
            vstd::slice::slice_subrange(chars.as_slice(), 1, chars.len()),
            10,
            max as u64,
        )
    } else {
        read_number(chars.as_slice(), 10, max as u64)
    };
    match number {
        Some(n) => {
            if n >= 1 {
                Choice::Number(n as usize)
            } else {
                Choice::Unclear
            }
        },
        None => Choice::Unclear,
    }
}

/// What was typed where an event was asked for.
pub enum EventChoice {
    Quit,
    Event(String),
    Unclear,
}

/// Reads what was typed where an event was asked for: `kill` or `death`, in any case, or
/// `q` to quit.
pub fn prompt_event(input: &str) -> (r: EventChoice)
    ensures
        ({
            let typed = trimmed(input@);
            if typed == "q"@ || typed == "Q"@ {
                r is Quit
            } else if lowered(typed) == "kill"@ || lowered(typed) == "death"@ {
                r matches EventChoice::Event(event) && event@ == lowered(typed)
            } else {
                r is Unclear
            }
        }),
{
    let typed = trim(input);
    if same_text(typed.as_str(), "q") || same_text(typed.as_str(), "Q") {
        return EventChoice::Quit;
    }
    let event = lower(typed.as_str());
    if same_text(event.as_str(), "kill") || same_text(event.as_str(), "death") {
        EventChoice::Event(event)
    } else {
        EventChoice::Unclear
    }
}

/// Whether no number occurs twice.
pub fn all_different(numbers: &[usize]) -> (r: bool)
    ensures
        r == numbers@.no_duplicates(),
{
    let mut i: usize = 0;
    while i < numbers.len()
        invariant
            i <= numbers.len(),
            forall|a: int, b: int| 0 <= a < b < i ==> numbers@[a] != numbers@[b],
        decreases numbers.len() - i,
    {
        let mut k: usize = 0;
        while k < i
            invariant
                k <= i < numbers.len(),
                forall|a: int| 0 <= a < k ==> numbers@[a] != numbers@[i as int],
            decreases i - k,
        {
            if numbers[k] == numbers[i] {
                return false;
            }
            k = k + 1;
        }
        i = i + 1;
    }
    true
}

/// The opcode that a text stands for, in decimal, or in hexadecimal behind `0x`.
pub open spec fn opcode_of_text(s: Seq<char>) -> Option<int> {
    let n = if s.len() >= 2 && s[0] == '0' && (s[1] == 'x' || s[1] == 'X') {
        number_of(s.skip(2), 16)
    } else {
        decimal_number(s)
    };
    match n {
        Some(k) if k <= 0xFFFF => Some(k),
        _ => None,
    }
}

/// Reads an opcode, in decimal, or in hexadecimal behind `0x`.
pub fn parse_opcode(s: &str) -> (r: Option<u16>)
    ensures
        match r {
            Some(opcode) => opcode_of_text(s@) == Some(opcode as int),
            None => opcode_of_text(s@) is None,
        },
{
    let chars = chars_of(s);
    let n: usize = chars.len();
    let number = if n >= 2 && chars[0] == '0' && (chars[1] == 'x' || chars[1] == 'X') {
        assert(chars@.subrange(2, n as int) =~= chars@.skip(2));
        read_number(vstd::slice::slice_subrange(chars.as_slice(), 2, n), 16, 0xFFFF)
    } else if n >= 1 && chars[0] == '+' {
        assert(chars@.subrange(1, n as int) =~= chars@.skip(1));
        read_number(vstd::slice::slice_subrange(chars.as_slice(), 1, n), 10, 0xFFFF)
    } else {
        read_number(chars.as_slice(), 10, 0xFFFF)
    };
    match number {
        Some(k) => Some(k as u16),
        None => None,
    }
}

} // verus!
