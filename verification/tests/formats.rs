//! Lists of packet formats.

use rodent_logger::format::{
    find_format, find_last_format, load_known_formats, load_packet_format, load_packet_formats,
    packet_format_path, replace_known_format, same_packet_layout, save_packet_format, PacketFormat,
};
use rodent_logger::detect::swap_sides;
use rodent_logger::refresh::{apply_detection, update_format, RefreshOutcome};

fn format(opcode: u16, packet_len: usize, enemy_char_offset: usize) -> PacketFormat {
    PacketFormat {
        opcode,
        packet_len,
        enemy_char_offset,
        enemy_family_offset: 310,
        friendly_char_offset: 90,
        friendly_family_offset: 160,
        guild_marker_offset: 230,
        guild_flag_offset_from_marker: 5,
        guild_string_offset_from_marker: 10,
        guild_string_offset: 240,
        is_death_value: 1,
        old_format: false,
    }
}

#[test]
fn the_format_file_lies_in_the_working_directory() {
    assert_eq!(packet_format_path(), "packet_format.json");
}

#[test]
fn a_saved_format_replaces_the_first_for_the_same_packets() {
    let mut formats = vec![];
    save_packet_format(&mut formats, &format(1, 300, 10));
    save_packet_format(&mut formats, &format(2, 300, 20));
    save_packet_format(&mut formats, &format(1, 301, 30));
    save_packet_format(&mut formats, &format(1, 300, 40));
    assert_eq!(formats, vec![format(1, 300, 40), format(2, 300, 20), format(1, 301, 30)]);
    assert_eq!(find_format(&formats, 1, 300), Some(format(1, 300, 40)));
    assert_eq!(find_format(&formats, 2, 301), None);
    assert_eq!(load_packet_format(&formats), Some(format(1, 301, 30)));
    assert_eq!(load_packet_format(&[]), None);
    let before = formats.clone();
    save_packet_format(&mut formats, &format(1, 300, 40));
    assert_eq!(formats, before);
}

#[test]
fn the_first_or_the_last_of_two_formats_is_found() {
    let formats = [format(1, 300, 10), format(1, 300, 20)];
    assert_eq!(find_format(&formats, 1, 300), Some(format(1, 300, 10)));
    assert_eq!(find_last_format(&formats, 1, 300), Some(format(1, 300, 20)));
}

#[test]
fn a_format_file_holds_a_list_or_one_format() {
    let (a, b) = (format(1, 300, 10), format(2, 300, 20));
    assert_eq!(load_packet_formats(Some(vec![a, b]), None), vec![a, b]);
    assert_eq!(load_packet_formats(Some(vec![]), Some(a)), vec![]);
    assert_eq!(load_packet_formats(None, Some(a)), vec![a]);
    assert_eq!(load_packet_formats(None, None), vec![]);
}

#[test]
fn known_formats_come_from_the_first_place_that_has_them() {
    let (a, b, c) = (format(1, 300, 10), format(2, 300, 20), format(3, 300, 30));
    assert_eq!(load_known_formats(vec![None, Some(vec![b])], vec![c]), vec![b]);
    assert_eq!(load_known_formats(vec![Some(vec![a]), Some(vec![b])], vec![c]), vec![a]);
    assert_eq!(load_known_formats(vec![None, None], vec![c]), vec![c]);
    assert_eq!(load_known_formats(vec![Some(vec![]), Some(vec![b])], vec![c]), vec![]);
}

#[test]
fn a_calibrated_format_comes_last_and_alone() {
    let formats = [format(1, 300, 10), format(2, 300, 20), format(1, 300, 30)];
    assert_eq!(
        replace_known_format(&formats, &format(1, 300, 40)),
        vec![format(2, 300, 20), format(1, 300, 40)]
    );
}

#[test]
fn layouts_are_compared_without_the_meaning_of_the_flag() {
    let a = format(1, 300, 10);
    assert!(same_packet_layout(&a, &PacketFormat { is_death_value: 0, ..a }));
    assert!(!same_packet_layout(&a, &PacketFormat { old_format: true, ..a }));
    assert!(!same_packet_layout(&a, &PacketFormat { guild_string_offset: 1, ..a }));
    assert!(!same_packet_layout(&a, &PacketFormat { opcode: 2, ..a }));
}

#[test]
fn a_detected_format_is_added() {
    let mut formats = vec![];
    let d = format(1, 300, 10);
    assert_eq!(apply_detection(Ok(d), &mut formats), Ok(RefreshOutcome::Added(d)));
    assert_eq!(formats, vec![d]);
}

#[test]
fn a_moved_layout_keeps_the_meaning_of_the_flag() {
    let saved = PacketFormat { is_death_value: 1, ..format(1, 300, 10) };
    let d = PacketFormat { is_death_value: 0, ..format(1, 300, 44) };
    let mut formats = vec![format(9, 300, 1), saved];
    let now = PacketFormat { is_death_value: 1, ..d };
    assert_eq!(apply_detection(Ok(d), &mut formats), Ok(RefreshOutcome::Updated(now)));
    assert_eq!(formats, vec![format(9, 300, 1), now]);
    assert_eq!(apply_detection(Ok(d), &mut formats), Ok(RefreshOutcome::Kept));
    assert_eq!(formats, vec![format(9, 300, 1), now]);
}

#[test]
fn a_turned_format_stays_turned() {
    let d = PacketFormat { is_death_value: 0, ..format(1, 300, 10) };
    let turned = PacketFormat { is_death_value: 1, ..swap_sides(&d) };
    let mut formats = vec![turned];
    assert_eq!(apply_detection(Ok(d), &mut formats), Ok(RefreshOutcome::Kept));
    assert_eq!(formats, vec![turned]);
    let moved = PacketFormat { guild_string_offset: 250, enemy_char_offset: 44, ..d };
    let now = PacketFormat { is_death_value: 1, ..swap_sides(&moved) };
    assert_eq!(apply_detection(Ok(moved), &mut formats), Ok(RefreshOutcome::Updated(now)));
    assert_eq!(formats, vec![now]);
    assert_eq!(apply_detection(Ok(moved), &mut formats), Ok(RefreshOutcome::Kept));
}

#[test]
fn sides_that_cannot_be_told_are_as_detected() {
    let d = format(1, 300, 10);
    let odd = PacketFormat { friendly_char_offset: 5, friendly_family_offset: 6, ..d };
    assert_eq!(update_format(&d, &odd), d);
    assert_eq!(update_format(&d, &swap_sides(&d)), swap_sides(&d));
    let odd_turned = swap_sides(&odd);
    assert_eq!(update_format(&odd, &odd_turned), odd_turned);
    assert_eq!(update_format(&odd, &d), odd);
}

#[test]
fn an_old_format_stays_old() {
    let saved = PacketFormat { old_format: true, ..format(1, 300, 10) };
    let d = format(1, 300, 10);
    let mut formats = vec![saved];
    assert_eq!(apply_detection(Ok(d), &mut formats), Ok(RefreshOutcome::Kept));
    assert_eq!(formats, vec![saved]);
}

#[test]
fn without_a_detected_format_saved_ones_are_used() {
    let mut none = vec![];
    assert_eq!(apply_detection(Err("why".to_string()), &mut none), Err("why".to_string()));
    let mut formats = vec![format(1, 300, 10)];
    assert_eq!(apply_detection(Err("why".to_string()), &mut formats), Ok(RefreshOutcome::Kept));
    assert_eq!(formats, vec![format(1, 300, 10)]);
}
