//! Formats and events in packets.

use etherparse::PacketBuilder;
use rodent_logger::calibrate::{
    calibrate_format, calibrate_packet_format, check_event, find_calibration_candidates,
    find_packet_candidates,
};
use rodent_logger::detect::{detect_format, detect_packet_format, has_matchups};
use rodent_logger::dump::{dump_packets, dump_strings, dump_target};
use rodent_logger::export::{export_csv, read_event, read_events, write_events, CsvLayout};
use rodent_logger::format::PacketFormat;
use rodent_logger::frame::CapturedFrame;
use rodent_logger::kinds::{count_kinds, find_most_common, KindCount, PacketKind};
use rodent_logger::marker::{find_guild_marker, find_marker};
use rodent_logger::names::{find_all_bdo_strings, utf16le_bytes_with_null};
use rodent_logger::opcode::{find_opcode, find_packet_opcodes, has_broadcasts};
use rodent_logger::refresh::RefreshOutcome;
use rodent_logger::stream::BdoPacket;

const OPCODE: u16 = 0x1CD6;

const LAYOUT: PacketFormat = PacketFormat {
    opcode: OPCODE,
    packet_len: 392,
    enemy_char_offset: 20,
    enemy_family_offset: 310,
    friendly_char_offset: 90,
    friendly_family_offset: 160,
    guild_marker_offset: 230,
    guild_flag_offset_from_marker: 5,
    guild_string_offset_from_marker: 10,
    guild_string_offset: 240,
    is_death_value: 0,
    old_format: false,
};

fn blank(opcode: u16, len: usize) -> Vec<u8> {
    let mut data = vec![0xFF; len];
    data[..2].copy_from_slice(&(len as u16).to_le_bytes());
    data[2] = 0;
    data[3..5].copy_from_slice(&opcode.to_le_bytes());
    data
}

fn put_name(data: &mut [u8], offset: usize, name: &str) {
    let bytes = utf16le_bytes_with_null(name);
    data[offset..offset + bytes.len()].copy_from_slice(&bytes);
}

struct Players<'a> {
    friendly_char: &'a str,
    friendly_family: &'a str,
    enemy_char: &'a str,
    enemy_family: &'a str,
    guild: &'a str,
}

const PLAYERS: Players<'static> = Players {
    friendly_char: "Guardian",
    friendly_family: "Smith",
    enemy_char: "Wizard",
    enemy_family: "Jones",
    guild: "ENEMYGUILD",
};

fn event_data(opcode: u16, players: &Players, flag: u8) -> Vec<u8> {
    let mut data = blank(opcode, 392);
    put_name(&mut data, 20, players.enemy_char);
    put_name(&mut data, 90, players.friendly_char);
    put_name(&mut data, 160, players.friendly_family);
    data[230..234].copy_from_slice(&[6, 0, 0, 0]);
    data[235] = flag;
    put_name(&mut data, 240, players.guild);
    put_name(&mut data, 310, players.enemy_family);
    data
}

fn stamped(ts: &str, data: Vec<u8>) -> BdoPacket {
    BdoPacket { ts: ts.to_string(), data }
}

fn event(flag: u8) -> BdoPacket {
    stamped("1720456789.123456", event_data(OPCODE, &PLAYERS, flag))
}

fn frames(packets: &[Vec<u8>]) -> Vec<CapturedFrame> {
    let mut seq = 1000;
    let mut out = Vec::new();
    for (i, data) in packets.iter().enumerate() {
        let builder = PacketBuilder::ethernet2([0; 6], [1; 6])
            .ipv4([1, 2, 3, 4], [5, 6, 7, 8], 64)
            .tcp(8889, 40000, seq, 1000);
        let mut frame = Vec::new();
        builder.write(&mut frame, data).unwrap();
        out.push(CapturedFrame { sec: 1720456789 + i as i64, usec: 123456, data: frame });
        seq += data.len() as u32;
    }
    out
}

#[test]
fn the_marker_has_four_bytes_behind_it() {
    assert_eq!(find_marker(&[9, 6, 0, 0, 0, 1, 2, 3, 4]), Some(1));
    assert_eq!(find_marker(&[9, 6, 0, 0, 0, 1, 2, 3]), None);
    assert_eq!(find_marker(&[6, 0, 0, 1, 0, 0, 0, 0, 0]), None);
    assert_eq!(find_marker(&[]), None);
}

#[test]
fn the_guild_has_the_greater_share_of_capitals() {
    let data = event_data(OPCODE, &PLAYERS, 1);
    let names = find_all_bdo_strings(&data);
    assert_eq!(find_guild_marker(&data, &names, OPCODE, 392, &[]), Some((230, 5, 240)));
    let before = vec![("ALPHA".to_string(), 200), ("Beta".to_string(), 231)];
    assert_eq!(find_guild_marker(&data, &before, OPCODE, 392, &[]), Some((230, 5, 200)));
    let accents = vec![("áé".to_string(), 200), ("ÁÉ".to_string(), 250)];
    assert_eq!(find_guild_marker(&data, &accents, OPCODE, 392, &[]), Some((230, 5, 250)));
    let digits = vec![("123".to_string(), 200), ("beTa".to_string(), 250)];
    assert_eq!(find_guild_marker(&data, &digits, OPCODE, 392, &[]), Some((230, 5, 250)));
}

#[test]
fn of_equal_shares_the_nearer_is_the_guild() {
    let data = event_data(OPCODE, &PLAYERS, 1);
    let near = |b: usize, a: usize| vec![("One".to_string(), b), ("Two".to_string(), a)];
    assert_eq!(find_guild_marker(&data, &near(220, 240), OPCODE, 392, &[]), Some((230, 5, 220)));
    assert_eq!(find_guild_marker(&data, &near(219, 240), OPCODE, 392, &[]), Some((230, 5, 240)));
    assert_eq!(
        find_guild_marker(&data, &near(100, 200)[..], OPCODE, 392, &[]),
        Some((230, 5, 200))
    );
}

#[test]
fn a_marker_without_names_is_passed_over() {
    let mut data = vec![0xFF; 100];
    data[10..14].copy_from_slice(&[6, 0, 0, 0]);
    data[50..54].copy_from_slice(&[6, 0, 0, 0]);
    assert_eq!(find_guild_marker(&data, &[], 1, 100, &[]), None);
    let at = vec![("One".to_string(), 10)];
    assert_eq!(find_guild_marker(&data, &at, 1, 100, &[]), Some((50, -1, 10)));
    let known = PacketFormat { opcode: 1, packet_len: 100, ..LAYOUT };
    assert_eq!(find_guild_marker(&data, &at, 1, 100, &[known]), None);
}

#[test]
fn a_known_format_names_the_side_of_the_guild() {
    let mut data = event_data(OPCODE, &PLAYERS, 1);
    data[234] = 0;
    let names = find_all_bdo_strings(&data);
    assert_eq!(find_guild_marker(&data, &names, OPCODE, 392, &[]), Some((230, 4, 240)));
    let left = PacketFormat {
        guild_string_offset_from_marker: -70,
        guild_flag_offset_from_marker: -3,
        ..LAYOUT
    };
    assert_eq!(find_guild_marker(&data, &names, OPCODE, 392, &[left]), Some((230, -3, 160)));
    assert_eq!(find_guild_marker(&data, &names, OPCODE, 391, &[left]), Some((230, 4, 240)));
    assert_eq!(find_guild_marker(&data, &names[4..], OPCODE, 392, &[left]), Some((230, -3, 310)));
    assert_eq!(find_guild_marker(&data, &names[..1], OPCODE, 392, &[LAYOUT]), Some((230, 5, 20)));
}

#[test]
fn the_most_common_kind_is_the_one_seen_first() {
    let kind = |opcode| PacketKind { opcode, packet_len: 300 };
    let kinds = [kind(3), kind(1), kind(2), kind(1), kind(2), kind(3), kind(4)];
    assert_eq!(find_most_common(&kinds), Some(0));
    assert_eq!(find_most_common(&kinds[1..]), Some(0));
    assert_eq!(find_most_common(&kinds[..5]), Some(1));
    assert_eq!(find_most_common(&[]), None);
    assert_eq!(
        count_kinds(&kinds[..4]),
        vec![
            KindCount { kind: kind(3), count: 1, first: 0 },
            KindCount { kind: kind(1), count: 2, first: 1 },
            KindCount { kind: kind(2), count: 1, first: 2 },
        ]
    );
}

#[test]
fn a_format_is_detected() {
    assert_eq!(detect_packet_format(&[event(1)], None, &[]), Ok(LAYOUT));
    assert_eq!(detect_format(&frames(&[event(1).data]), None, &[]), Ok(LAYOUT));
}

#[test]
fn the_most_common_format_is_detected() {
    let other = stamped("1.0", event_data(0x1111, &PLAYERS, 1));
    let packets = [other, event(1), event(0)];
    assert_eq!(detect_packet_format(&packets, None, &[]), Ok(LAYOUT));
    assert_eq!(
        detect_packet_format(&packets[..2], None, &[]),
        Ok(PacketFormat { opcode: 0x1111, ..LAYOUT })
    );
}

#[test]
fn the_meaning_of_the_flag_is_taken_from_a_known_format() {
    let known = PacketFormat { is_death_value: 1, enemy_char_offset: 7, ..LAYOUT };
    assert_eq!(
        detect_packet_format(&[event(1)], None, &[known]),
        Ok(PacketFormat { is_death_value: 1, ..LAYOUT })
    );
}

#[test]
fn an_old_format_is_taken_over() {
    let old = PacketFormat {
        old_format: true,
        enemy_char_offset: 7,
        guild_marker_offset: 1,
        guild_string_offset: 2,
        ..LAYOUT
    };
    assert_eq!(
        detect_packet_format(&[event(1)], None, &[old]),
        Ok(PacketFormat { guild_marker_offset: 230, ..old })
    );
}

#[test]
fn a_player_name_tells_the_sides_apart() {
    let turned = PacketFormat {
        enemy_char_offset: 90,
        enemy_family_offset: 160,
        friendly_char_offset: 20,
        friendly_family_offset: 310,
        ..LAYOUT
    };
    let packets = [event(1)];
    assert_eq!(detect_packet_format(&packets, Some("Guardian"), &[]), Ok(LAYOUT));
    assert_eq!(detect_packet_format(&packets, Some("Smith"), &[]), Ok(LAYOUT));
    assert_eq!(detect_packet_format(&packets, Some("Wizard"), &[]), Ok(turned));
    assert_eq!(detect_packet_format(&packets, Some("Jones"), &[]), Ok(turned));
    assert_eq!(detect_format(&frames(&[event(1).data]), Some("Jones"), &[]), Ok(turned));
}

#[test]
fn a_player_is_looked_up_in_packets_of_the_detected_kind() {
    let doe = Players { friendly_family: "Doe", friendly_char: "Lahn", ..PLAYERS };
    let other = stamped("1.0", event_data(0x1111, &doe, 1));
    let packets = [other, event(1), stamped("2.0", event_data(OPCODE, &doe, 1))];
    assert_eq!(detect_packet_format(&packets, Some("Doe"), &[]), Ok(LAYOUT));
    let packets = [stamped("1.0", event_data(0x1111, &doe, 1)), event(1), event(1)];
    assert_eq!(
        detect_packet_format(&packets, Some("Doe"), &[]),
        Err("Player name not found in any event packet".to_string())
    );
}

#[test]
fn detection_says_what_is_missing() {
    assert_eq!(
        detect_packet_format(&[], None, &[]),
        Err("No matchup event packets found in pcap".to_string())
    );
    let mut encrypted = event(1);
    encrypted.data[2] = 1;
    assert_eq!(
        detect_packet_format(&[encrypted], None, &[]),
        Err("No matchup event packets found in pcap".to_string())
    );
    assert_eq!(
        detect_packet_format(&[event(1)], Some("Nobody"), &[]),
        Err("Player name not found in any event packet".to_string())
    );
    assert_eq!(
        detect_packet_format(&[event(1)], Some("ENEMYGUILD"), &[]),
        Err("Name 'ENEMYGUILD' not at a character offset (expected 90 or 20)".to_string())
    );
    let mut four = event(1);
    four.data[310..322].fill(0xFF);
    assert_eq!(
        detect_packet_format(&[four], None, &[]),
        Err("Representative packet has fewer than 5 strings (found 4)".to_string())
    );
}

#[test]
fn calibration_candidates_hold_five_names() {
    let (opcode, len, ts, names) = find_packet_candidates(&[event(1), event(0)]).unwrap();
    assert_eq!((opcode, len, ts.as_str()), (OPCODE, 392, "1720456789.123456"));
    assert_eq!(
        names,
        vec![
            ("Wizard".to_string(), 20),
            ("Guardian".to_string(), 90),
            ("Smith".to_string(), 160),
            ("ENEMYGUILD".to_string(), 240),
            ("Jones".to_string(), 310),
        ]
    );
    let found = find_calibration_candidates(&frames(&[event(1).data])).unwrap();
    assert_eq!((found.0, found.1, found.2.as_str()), (OPCODE, 392, "1720456789.123456"));
    assert_eq!(
        find_packet_candidates(&[stamped("1", blank(1, 300))]),
        Err("No event packets found in pcap".to_string())
    );
}

#[test]
fn events_are_called_kills_or_deaths() {
    assert_eq!(check_event("Death"), Ok(true));
    assert_eq!(check_event("kIll"), Ok(false));
    assert_eq!(check_event(" kill"), Err("event must be 'kill' or 'death'".to_string()));
}

#[test]
fn captures_with_and_without_events_are_told_apart() {
    let capture = frames(&[event(1).data]);
    assert!(has_matchups(&capture, &[]));
    assert!(has_broadcasts(&capture));
    let plain = frames(&[blank(7, 350), blank(7, 401)]);
    assert!(!has_matchups(&plain, &[]));
    assert!(has_broadcasts(&plain));
    assert!(!has_broadcasts(&frames(&[blank(7, 401)])));
    assert!(!has_matchups(&[], &[]));
    assert!(!has_broadcasts(&[]));
}

fn calibrated(packets: &[BdoPacket], event: &str) -> Result<PacketFormat, String> {
    let p = &PLAYERS;
    calibrate_packet_format(
        packets,
        p.friendly_char,
        p.friendly_family,
        p.enemy_char,
        p.enemy_family,
        p.guild,
        event,
    )
}

#[test]
fn a_known_event_calibrates_a_format() {
    let death = |is_death_value| PacketFormat { is_death_value, ..LAYOUT };
    assert_eq!(calibrated(&[event(1)], "death"), Ok(death(1)));
    assert_eq!(calibrated(&[event(1)], "KILL"), Ok(death(0)));
    assert_eq!(calibrated(&[event(0)], "Death"), Ok(death(0)));
    assert_eq!(calibrated(&[event(0)], "kill"), Ok(death(1)));
    let p = &PLAYERS;
    assert_eq!(
        calibrate_format(
            &frames(&[event(0).data]),
            p.friendly_char,
            p.friendly_family,
            p.enemy_char,
            p.enemy_family,
            p.guild,
            "kill"
        ),
        Ok(death(1))
    );
}

#[test]
fn a_calibrated_format_reads_its_own_event() {
    for (flag, name) in [(0, "kill"), (1, "kill"), (0, "death"), (1, "death")] {
        let format = calibrated(&[event(flag)], name).unwrap();
        let read = read_event(&event(flag), &format);
        assert_eq!(read.is_death, name == "death");
        assert_eq!(read.friendly_family, "Smith");
        assert_eq!(read.friendly_char, "Guardian");
        assert_eq!(read.enemy_guild, "ENEMYGUILD");
        assert_eq!(read.enemy_name, "Jones (Wizard)");
    }
}

#[test]
fn calibration_says_what_is_missing() {
    assert_eq!(
        calibrated(&[event(1)], "draw"),
        Err("event must be 'kill' or 'death'".to_string())
    );
    let doe = Players { friendly_family: "Doe", ..PLAYERS };
    assert_eq!(
        calibrated(&[stamped("1", event_data(OPCODE, &doe, 1))], "kill"),
        Err("No packet containing all provided names was found".to_string())
    );
    let mut unmarked = event(1);
    unmarked.data[230] = 7;
    assert_eq!(
        calibrated(&[unmarked], "kill"),
        Err("Guild marker (0x06 00 00 00) not found in packet".to_string())
    );
    let mut unflagged = event(1);
    unflagged.data[235] = 2;
    assert_eq!(
        calibrated(&[unflagged], "kill"),
        Err("Could not determine kill/death flag offset from marker".to_string())
    );
    let mut older = event(7);
    older.data[234] = 1;
    assert_eq!(
        calibrated(&[older], "kill"),
        Ok(PacketFormat { guild_flag_offset_from_marker: 4, ..LAYOUT })
    );
}

#[test]
fn opcodes_are_found_by_a_name() {
    let other = stamped("1", event_data(0x1111, &PLAYERS, 1));
    let long = stamped("1", {
        let mut data = blank(OPCODE, 401);
        put_name(&mut data, 50, "Smith");
        data
    });
    let mut encrypted = event(1);
    encrypted.data[2] = 1;
    let packets = [other, event(1), long, encrypted, event(0)];
    let kind = |opcode| PacketKind { opcode, packet_len: 392 };
    assert_eq!(
        find_packet_opcodes(&packets, "Smith"),
        vec![
            KindCount { kind: kind(0x1111), count: 1, first: 0 },
            KindCount { kind: kind(OPCODE), count: 2, first: 1 },
        ]
    );
    assert_eq!(find_packet_opcodes(&packets, "Nobody"), vec![]);
    assert_eq!(
        find_opcode(&frames(&[event(1).data]), "Jones"),
        vec![KindCount { kind: kind(OPCODE), count: 1, first: 0 }]
    );
}

#[test]
fn events_are_read_in_the_last_format_for_their_packets() {
    let turned = PacketFormat { is_death_value: 1, ..LAYOUT };
    let mut encrypted = event(1);
    encrypted.data[2] = 1;
    let packets = [event(1), encrypted, stamped("1", blank(9, 300)), event(0)];
    let read = read_events(&packets, &[LAYOUT, turned]);
    assert_eq!(read.iter().map(|e| e.is_death).collect::<Vec<_>>(), vec![true, false]);
    assert_eq!(read_events(&packets, &[LAYOUT])[0].is_death, false);
    assert_eq!(read_events(&packets, &[]).len(), 0);
}

#[test]
fn an_old_format_has_no_enemy_character() {
    let old = PacketFormat { old_format: true, ..LAYOUT };
    assert_eq!(read_event(&event(1), &old).enemy_name, "Jones");
}

#[test]
fn the_guild_is_found_from_the_marker_where_it_has_no_offset() {
    let by_marker = PacketFormat { guild_string_offset: 0, ..LAYOUT };
    assert_eq!(read_event(&event(1), &by_marker).enemy_guild, "ENEMYGUILD");
    let before = PacketFormat { guild_string_offset_from_marker: -70, ..by_marker };
    assert_eq!(read_event(&event(1), &before).enemy_guild, "Smith");
    let outside = PacketFormat { guild_string_offset_from_marker: 200, ..by_marker };
    assert_eq!(read_event(&event(1), &outside).enemy_guild, "");
    let far = PacketFormat { guild_string_offset: 400, ..LAYOUT };
    assert_eq!(read_event(&event(1), &far).enemy_guild, "");
}

#[test]
fn a_flag_outside_the_packet_is_a_kill() {
    let far = PacketFormat { guild_flag_offset_from_marker: isize::MAX, ..LAYOUT };
    assert!(!read_event(&event(0), &far).is_death);
    let low = PacketFormat { guild_flag_offset_from_marker: isize::MIN, is_death_value: 0x88, ..LAYOUT };
    assert!(read_event(&event(0), &low).is_death);
    let mut unmarked = event(0);
    unmarked.data[230] = 7;
    assert!(!read_event(&unmarked, &LAYOUT).is_death);
    assert!(read_event(&event(0), &LAYOUT).is_death);
}

#[test]
fn events_are_exported_as_matchups() {
    let mut formats = vec![];
    let export = export_csv(
        &frames(&[event(1).data, event(0).data]),
        CsvLayout::Matchups,
        &[],
        &mut formats,
    )
    .unwrap();
    assert_eq!(
        export.csv,
        "Timestamp,Event,Guild,Player 1,Player 2\n\
         1720456789.123456,Kill,ENEMYGUILD,Smith (Guardian),Jones (Wizard)\n\
         1720456790.123456,Death,ENEMYGUILD,Smith (Guardian),Jones (Wizard)\n"
    );
    assert_eq!(export.count, 2);
    assert_eq!(export.refresh, RefreshOutcome::Added(LAYOUT));
    assert_eq!(formats, vec![LAYOUT]);
}

#[test]
fn events_are_exported_in_detail() {
    let mut formats = vec![PacketFormat { is_death_value: 1, enemy_char_offset: 7, ..LAYOUT }];
    let export =
        export_csv(&frames(&[event(1).data]), CsvLayout::Detailed, &[], &mut formats).unwrap();
    assert_eq!(
        export.csv,
        "Timestamp,Event,Friendly Family,Friendly Player,Enemy Guild,Enemy Player\n\
         1720456789.123456,Death,Smith,Guardian,ENEMYGUILD,Jones (Wizard)\n"
    );
    let now = PacketFormat { is_death_value: 1, ..LAYOUT };
    assert_eq!(export.refresh, RefreshOutcome::Updated(now));
    assert_eq!(formats, vec![now]);
}

#[test]
fn an_export_keeps_the_sides_that_were_detected_by_name() {
    let capture = frames(&[event(1).data]);
    let saved = detect_format(&capture, Some("Jones"), &[]).unwrap();
    assert_eq!(saved.friendly_family_offset, 310);
    let mut formats = vec![saved];
    let export = export_csv(&capture, CsvLayout::Detailed, &[], &mut formats).unwrap();
    assert_eq!(export.refresh, RefreshOutcome::Kept);
    assert_eq!(formats, vec![saved]);
    assert_eq!(
        export.csv.lines().last().unwrap(),
        "1720456789.123456,Kill,Jones,Wizard,ENEMYGUILD,Smith (Guardian)"
    );
}

#[test]
fn a_capture_without_events_uses_saved_formats() {
    let mut formats = vec![LAYOUT];
    let export = export_csv(&[], CsvLayout::Matchups, &[], &mut formats).unwrap();
    assert_eq!(export.csv, "Timestamp,Event,Guild,Player 1,Player 2\n");
    assert_eq!((export.count, export.refresh), (0, RefreshOutcome::Kept));
    let mut none = vec![];
    match export_csv(&[], CsvLayout::Matchups, &[], &mut none) {
        Err(e) => assert_eq!(
            e,
            "Could not detect packet format from pcap and no saved config found: \
             No matchup event packets found in pcap"
        ),
        Ok(_) => panic!(),
    }
    assert_eq!(none, vec![]);
}

#[test]
fn fields_with_marks_stand_in_quotes() {
    let odd = Players { guild: "A,\"B\"", friendly_family: " Smith ", enemy_char: "W\u{2028}z", ..PLAYERS };
    let read = vec![read_event(&stamped("7", event_data(OPCODE, &odd, 1)), &LAYOUT)];
    assert_eq!(
        write_events(CsvLayout::Matchups, &read),
        "Timestamp,Event,Guild,Player 1,Player 2\n\
         7,Kill,\"A,\"\"B\"\"\",Smith (Guardian),Jones (W\u{2028}z)\n"
    );
    assert_eq!(
        write_events(CsvLayout::Detailed, &read).lines().last().unwrap(),
        "7,Kill, Smith ,Guardian,\"A,\"\"B\"\"\",Jones (W\u{2028}z)"
    );
}

#[test]
fn a_dump_is_of_what_is_asked_for_or_saved_last() {
    let other = PacketFormat { opcode: 3, packet_len: 301, ..LAYOUT };
    let kind = |opcode, packet_len| Some(PacketKind { opcode, packet_len });
    assert_eq!(dump_target(Some(1), Some(2), &[LAYOUT]), kind(1, 2));
    assert_eq!(dump_target(Some(1), None, &[LAYOUT, other]), kind(3, 301));
    assert_eq!(dump_target(None, Some(2), &[LAYOUT]), kind(OPCODE, 392));
    assert_eq!(dump_target(None, None, &[]), None);
}

#[test]
fn a_packet_is_dumped() {
    let target = PacketKind { opcode: OPCODE, packet_len: 392 };
    let data = event_data(OPCODE, &PLAYERS, 1);
    let mut raw = String::new();
    for (i, b) in data[222..250].iter().enumerate() {
        raw.push_str(&format!("{:02x} ", b));
        if (i + 1) % 16 == 0 {
            raw.push('\n');
        }
    }
    let expected = format!(
        "Found matching packet (392 bytes):\n\n\
         --- All BDO strings by offset ---\n\
         \x20   20: \"Wizard\"\n\
         \x20   90: \"Guardian\"\n\
         \x20  160: \"Smith\"\n\
         \x20  240: \"ENEMYGUILD\"\n\
         \x20  310: \"Jones\"\n\
         \n--- Guild marker ---\n\
         \x20 Marker at offset: 230\n\
         \x20 Flag rel: +5 -> byte 235\n\
         \x20 Guild string rel: +240 -> byte 470 -> \"\"\n\
         \n--- Raw bytes around marker (offset 230) ---\n\
         {}\n\n",
        raw
    );
    assert_eq!(dump_packets(&[event(1)], target, &[], Some(5)), vec![expected.clone()]);
    assert_eq!(dump_strings(&frames(&[data]), target, &[], None), vec![expected]);
}

#[test]
fn packets_are_dumped_up_to_a_limit() {
    let target = PacketKind { opcode: OPCODE, packet_len: 392 };
    let packets: Vec<BdoPacket> = (0..7).map(|_| event(1)).collect();
    assert_eq!(dump_packets(&packets, target, &[], Some(5)).len(), 5);
    assert_eq!(dump_packets(&packets[..3], target, &[], Some(5)).len(), 3);
    assert_eq!(dump_packets(&packets, target, &[], None).len(), 7);
    assert_eq!(dump_packets(&packets, target, &[], Some(0)).len(), 0);
    let other = PacketKind { opcode: 1, packet_len: 392 };
    assert_eq!(dump_packets(&packets, other, &[], None).len(), 0);
}

#[test]
fn a_packet_without_marker_is_dumped_without_it() {
    let target = PacketKind { opcode: 4, packet_len: 300 };
    let dumps = dump_packets(&[stamped("1", blank(4, 300))], target, &[], None);
    assert_eq!(
        dumps,
        vec!["Found matching packet (300 bytes):\n\n--- All BDO strings by offset ---\n\
              \nNo guild marker found\n\n"
            .to_string()]
    );
}
