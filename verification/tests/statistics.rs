//! Kill and death statistics.

use rodent_logger::export::{write_events, CsvLayout, Event};
use rodent_logger::report::{generate_stats, lay_out, summarize, ReportPart};
use rodent_logger::stats::{
    rank_by_kills, read_matchup, sort_by_name, tally_allies, tally_enemies, tally_guilds,
    GuildStats, Matchup, PlayerStats,
};

fn rendered(parts: &[ReportPart]) -> String {
    let mut out = String::new();
    for part in parts {
        match part {
            ReportPart::Text(s) => out.push_str(s),
            ReportPart::Ratio { kills, per, width } => {
                out.push_str(&format!("{:<1$.2}", *kills as f32 / *per as f32, *width))
            }
        }
    }
    out
}

fn fields(list: &[&str]) -> Vec<String> {
    list.iter().map(|s| s.to_string()).collect()
}

fn row(is_death: bool, guild: &str, ally: &str, enemy: &str) -> Matchup {
    Matchup {
        is_death,
        guild: guild.to_string(),
        ally: ally.to_string(),
        enemy: enemy.to_string(),
    }
}

fn stats(kills: u32, deaths: u32) -> PlayerStats {
    PlayerStats { kills, deaths }
}

const CSV: &str = "Timestamp,Event,Guild,Player 1,Player 2\n\
1720456789.123456,Kill,EnemyGuild,Smith (Guardian),Jones (Wizard)\n\
1720456790.234567,Death,EnemyGuild,Smith (Guardian),Jones (Wizard)\n\
1720456791.345678,Kill,AnotherGuild,Doe (Lahn),Brown (Warrior)\n\
1720456792.456789,Kill,EnemyGuild,Smith (Guardian),Davis (Ranger)\n";

const REPORT: &str = "\n================ Allied K/D Summary (Players: 2) ================\n\
Family (Character)                  | Kills  | Deaths | K/D  \n\
----------------------------------------------------\n\
Smith (Guardian)                    | 2      | 1      | 2.00 \n\
Doe (Lahn)                          | 1      | 0      | 1.00 \n\
====================================================\n\n\
================ Enemy Player K/D Per Guild ================\n\
--- AnotherGuild (Players: 1, K: 0 D: 1 K/D: 0.00) ---\n  \
Family (Character)                  | Kills  | Deaths | K/D  \n  \
Brown (Warrior)                     | 0      | 1      | 0.00 \n\n\
--- EnemyGuild (Players: 2, K: 1 D: 2 K/D: 0.50) ---\n  \
Family (Character)                  | Kills  | Deaths | K/D  \n  \
Jones (Wizard)                      | 1      | 1      | 1.00 \n  \
Davis (Ranger)                      | 0      | 1      | 0.00 \n\n\
==========================================================\n\n\
================ Enemy Guild K/D Summary ================\n\
Guild Name                          | Players | Kills  | Deaths | K/D  \n\
-----------------------------------------------------------------\n\
EnemyGuild                          | 2       | 1      | 2      | 0.50 \n\
AnotherGuild                        | 1       | 0      | 1      | 0.00 \n\
=========================================================\n\n\
================ Overall Team Stats ================\n\
Team                | Kills  | Deaths | K/D  \n\
----------------------------------------------------\n\
Allies (Alliance)   | 3      | 1      | 3.00 \n\
Enemies             | 1      | 3      | 0.33 \n\
====================================================\n";

#[test]
fn a_table_is_reported() {
    assert_eq!(rendered(&generate_stats(CSV.as_bytes()).unwrap()), REPORT);
}

#[test]
fn records_that_cannot_be_read_are_passed_over() {
    let mut content = CSV.as_bytes().to_vec();
    content.extend_from_slice(b"1,Kill,too short\n");
    content.extend_from_slice(b"1,Kill,Guild,\xFF\xFE,Enemy\n");
    content.extend_from_slice(b"1,Kill,too,long,by,one\n");
    assert_eq!(rendered(&generate_stats(&content).unwrap()), REPORT);
    let narrow = generate_stats(b"a,b\n1,Kill\n").unwrap();
    assert_eq!(narrow, generate_stats(b"").unwrap());
    assert!(rendered(&narrow).contains("(Players: 0)"));
}

#[test]
fn exported_events_are_counted_in_either_layout() {
    let event = |is_death, family: &str, guild: &str| Event {
        ts: "1.000000".to_string(),
        is_death,
        friendly_family: family.to_string(),
        friendly_char: "Char, \"Jr\"".to_string(),
        enemy_guild: guild.to_string(),
        enemy_name: "Line\nbreak".to_string(),
    };
    let events = vec![event(true, " Smith", "G"), event(false, "Smith ", " "), event(true, "", "G")];
    let short = write_events(CsvLayout::Matchups, &events);
    let long = write_events(CsvLayout::Detailed, &events);
    let report = generate_stats(short.as_bytes()).unwrap();
    assert_eq!(report, generate_stats(long.as_bytes()).unwrap());
    let matchups = vec![
        row(true, "G", "Smith (Char, \"Jr\")", "Line\nbreak"),
        row(false, "No Guild", "Smith (Char, \"Jr\")", "Line\nbreak"),
        row(true, "G", " (Char, \"Jr\")", "Line\nbreak"),
    ];
    assert_eq!(report, lay_out(&summarize(&matchups)));
}

#[test]
fn a_record_of_five_fields_holds_players() {
    let m = read_matchup(&fields(&["1", "DEATH", "Guild", " Ally ", "Enemy"])).unwrap();
    assert!(m.is_death);
    assert_eq!((m.guild.as_str(), m.ally.as_str(), m.enemy.as_str()), ("Guild", " Ally ", "Enemy"));
}

#[test]
fn a_record_of_six_fields_holds_family_and_character() {
    let m = read_matchup(&fields(&["1", "kill", " Smith ", " Guard ", " G ", "Enemy", "more"]))
        .unwrap();
    assert!(!m.is_death);
    assert_eq!((m.guild.as_str(), m.ally.as_str(), m.enemy.as_str()), (" G ", "Smith (Guard)", "Enemy"));
}

#[test]
fn a_short_record_holds_nothing() {
    assert!(read_matchup(&fields(&["1", "kill", "G", "Ally"])).is_none());
    assert!(read_matchup(&vec![]).is_none());
}

#[test]
fn anything_but_a_death_is_a_kill() {
    let m = |event: &str| read_matchup(&fields(&["1", event, "", "A", "E"])).unwrap();
    assert!(m("Death").is_death);
    assert!(!m("Deaths").is_death);
    assert!(!m("").is_death);
    assert_eq!(m("").guild, "No Guild");
}

#[test]
fn scores_are_counted_for_both_sides() {
    let rows = [
        row(false, "G", "a", "x"),
        row(true, "H", "b", "y"),
        row(true, "G", "a", "z"),
        row(true, "G", "b", "x"),
    ];
    let name = |s: &str| s.to_string();
    assert_eq!(tally_allies(&rows), vec![(name("a"), stats(1, 1)), (name("b"), stats(0, 2))]);
    assert_eq!(tally_guilds(&rows), vec![(name("G"), stats(2, 1)), (name("H"), stats(1, 0))]);
    assert_eq!(
        tally_enemies(&rows, &name("G")),
        vec![(name("x"), stats(1, 1)), (name("z"), stats(1, 0))]
    );
    assert_eq!(tally_enemies(&rows, &name("I")), vec![]);
}

#[test]
fn ranks_go_by_kills_and_names_by_letters() {
    let list: Vec<(String, PlayerStats)> = [("d", 1), ("b", 3), ("c", 1), ("a", 2)]
        .iter()
        .map(|(s, k)| (s.to_string(), stats(*k, 0)))
        .collect();
    let names = |v: Vec<(String, PlayerStats)>| v.into_iter().map(|s| s.0).collect::<Vec<_>>();
    assert_eq!(names(rank_by_kills(&list)), ["b", "a", "d", "c"]);
    assert_eq!(names(sort_by_name(&list)), ["a", "b", "c", "d"]);
}

#[test]
fn the_sides_mirror_each_other() {
    let rows = [
        row(false, "G", "a", "x"),
        row(true, "H", "b", "y"),
        row(true, "G", "a", "z"),
        row(false, "G", "b", "x"),
        row(false, "H", "c", "y"),
    ];
    let report = summarize(&rows);
    assert_eq!((report.kills, report.deaths), (3, 2));
    assert_eq!(report.guilds.iter().map(|g| g.stats.deaths).sum::<u32>(), report.kills);
    assert_eq!(report.guilds.iter().map(|g| g.stats.kills).sum::<u32>(), report.deaths);
    for section in &report.sections {
        let kills = section.players.iter().map(|p| p.1.kills).sum::<u32>();
        let deaths = section.players.iter().map(|p| p.1.deaths).sum::<u32>();
        assert_eq!(section.stats, GuildStats { kills, deaths });
    }
    assert_eq!(report.sections.iter().map(|s| s.name.as_str()).collect::<Vec<_>>(), ["G", "H"]);
    assert_eq!(report.guilds[0].players, 2);
}

#[test]
fn who_never_died_has_a_ratio_of_their_kills() {
    let rows: Vec<Matchup> = (0..7).map(|_| row(false, "G", "a", "x")).collect();
    let parts = lay_out(&summarize(&rows));
    assert!(parts.contains(&ReportPart::Ratio { kills: 7, per: 1, width: 5 }));
    assert!(parts.contains(&ReportPart::Ratio { kills: 0, per: 7, width: 0 }));
}

#[test]
fn the_order_of_rows_and_the_layout_do_not_matter() {
    let long = "Timestamp,Event,Friendly Family,Friendly Player,Enemy Guild,Enemy Player\n\
                1,Kill, Smith,Guard ,G,x\n\
                2,Death,Smith,Guard,H,y\n\
                3,Kill,Doe,Lahn,G,z\n\
                4,Kill,Doe,Lahn,,z\n\
                5,Kill,Smith,Guard,G,x\n";
    let short = "Timestamp,Event,Guild,Player 1,Player 2\n\
                 5,Kill,G,Smith (Guard),x\n\
                 4,Kill,,Doe (Lahn),z\n\
                 2,Death,H,Smith (Guard),y\n\
                 3,Kill,G,Doe (Lahn),z\n\
                 1,Kill,G,Smith (Guard),x\n";
    let lines = |content: &str| {
        let text = rendered(&generate_stats(content.as_bytes()).unwrap());
        let mut lines: Vec<String> = text.lines().map(|l| l.to_string()).collect();
        lines.sort();
        lines
    };
    assert_eq!(lines(long), lines(short));
}

#[test]
fn no_counts_are_the_default() {
    assert_eq!(PlayerStats::default(), stats(0, 0));
    assert_eq!(GuildStats::default(), GuildStats { kills: 0, deaths: 0 });
}
