//! What is typed or given as an argument.

use rodent_logger::prompt::{
    all_different, parse_opcode, prompt_event, prompt_usize, Choice, EventChoice,
};

#[test]
fn a_number_in_range_is_chosen() {
    assert_eq!(prompt_usize(" 3\n", 5), Choice::Number(3));
    assert_eq!(prompt_usize("+5", 5), Choice::Number(5));
    assert_eq!(prompt_usize("005", 5), Choice::Number(5));
    assert_eq!(prompt_usize("1", 1), Choice::Number(1));
}

#[test]
fn anything_else_is_unclear() {
    for input in ["", "0", "6", "-1", "3x", "++3", "+", "1 2", "99999999999999999999999999"] {
        assert_eq!(prompt_usize(input, 5), Choice::Unclear, "{}", input);
    }
    assert_eq!(prompt_usize("1", 0), Choice::Unclear);
}

#[test]
fn q_quits() {
    assert_eq!(prompt_usize("q\r\n", 5), Choice::Quit);
    assert_eq!(prompt_usize("  Q", 5), Choice::Quit);
    assert!(matches!(prompt_event("q\n"), EventChoice::Quit));
    assert!(matches!(prompt_event(" Q "), EventChoice::Quit));
}

#[test]
fn events_are_named_in_any_case() {
    for (input, event) in [("kill\n", "kill"), (" DEATH ", "death"), ("Kill", "kill")] {
        match prompt_event(input) {
            EventChoice::Event(e) => assert_eq!(e, event),
            _ => panic!("{}", input),
        }
    }
    for input in ["", "kills", "dead", "k"] {
        assert!(matches!(prompt_event(input), EventChoice::Unclear));
    }
}

#[test]
fn selected_numbers_differ() {
    assert!(all_different(&[]));
    assert!(all_different(&[3, 1, 2, 5, 4]));
    assert!(!all_different(&[3, 1, 2, 3, 4]));
    assert!(!all_different(&[1, 2, 3, 4, 4]));
}

#[test]
fn opcodes_are_decimal_or_hexadecimal() {
    assert_eq!(parse_opcode("0x1CD6"), Some(0x1CD6));
    assert_eq!(parse_opcode("0X1cd6"), Some(0x1CD6));
    assert_eq!(parse_opcode("7382"), Some(7382));
    assert_eq!(parse_opcode("+7"), Some(7));
    assert_eq!(parse_opcode("65535"), Some(0xFFFF));
    assert_eq!(parse_opcode("0x0000ffff"), Some(0xFFFF));
    for s in ["", "0x", "65536", "0x10000", "1CD6", "-1", "0x1CG6", "0x-1", " 7"] {
        assert_eq!(parse_opcode(s), None, "{}", s);
    }
}
