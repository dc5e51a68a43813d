//! The statistics of a table of events, and how they are laid out.

use vstd::prelude::*;
use vstd::utf8::encode_utf8;
use crate::export::{event_table, events_make_a_table, CsvLayout, EventView};
use crate::rank::sorted_by;
use crate::records::{csv_records, csv_text, read_records};
use crate::search::{first_from, first_from_is_least};
use crate::stats::{
    ally_scores, by_kills, by_name, can_be_counted, enemies_can_be_counted, enemy_scores,
    enemy_scores_are_of_the_guild, exported_events_are_counted, guild_scores, is_countable, is_of,
    kind_count, matchups_of, matchups_of_events, matchups_view, rank_by_kills, read_matchups,
    score_count_is_bounded, scored, scores_mirror_each_other, sort_by_name, standings_view, tally,
    tally_allies, tally_counts_the_rows, tally_enemies, tally_guilds, GuildStats, Matchup,
    MatchupView, PlayerStats, Score, Standing,
};
use crate::text::{decimal, left_aligned, push_decimal, push_left_aligned};

verus! {

/// A guild of the enemy with its players, ranked.
pub struct GuildSection {
    pub name: String,
    pub players: Vec<(String, PlayerStats)>,
    pub stats: GuildStats,
}

/// A guild of the enemy with its players, by value.
pub struct SectionView {
    pub name: Seq<char>,
    pub players: Seq<Standing>,
    pub stats: GuildStats,
}

/// A guild in the ranking of guilds.
pub struct GuildLine {
    pub name: String,
    pub players: usize,
    pub stats: GuildStats,
}

/// A guild in the ranking of guilds, by value.
pub struct LineView {
    pub name: Seq<char>,
    pub players: int,
    pub stats: GuildStats,
}

/// The statistics of a table of events: the allies, ranked; the enemies, ranked within
/// their guilds, which are in the order of their names; the enemy guilds, ranked; and how
/// often the allies killed and died.
pub struct StatsReport {
    pub allies: Vec<(String, PlayerStats)>,
    pub sections: Vec<GuildSection>,
    pub guilds: Vec<GuildLine>,
    pub kills: u32,
    pub deaths: u32,
}

/// The statistics of a table of events, by value.
pub struct ReportView {
    pub allies: Seq<Standing>,
    pub sections: Seq<SectionView>,
    pub guilds: Seq<LineView>,
    pub kills: int,
    pub deaths: int,
}

/// Guilds with their players, by value.
pub open spec fn sections_view(sections: Seq<GuildSection>) -> Seq<SectionView> {
    Seq::new(
        sections.len(),
        |i: int|
            SectionView {
                name: sections[i].name@,
                players: standings_view(sections[i].players@),
                stats: sections[i].stats,
            },
    )
}

/// A ranking of guilds, by value.
pub open spec fn lines_view(lines: Seq<GuildLine>) -> Seq<LineView> {
    Seq::new(
        lines.len(),
        |i: int|
            LineView {
                name: lines[i].name@,
                players: lines[i].players as int,
                stats: lines[i].stats,
            },
    )
}

impl View for StatsReport {
    type V = ReportView;

    open spec fn view(&self) -> ReportView {
        ReportView {
            allies: standings_view(self.allies@),
            sections: sections_view(self.sections@),
            guilds: lines_view(self.guilds@),
            kills: self.kills as int,
            deaths: self.deaths as int,
        }
    }
}

/// The counts of a guild.
pub open spec fn guild_stats(stats: PlayerStats) -> GuildStats {
    GuildStats { kills: stats.kills, deaths: stats.deaths }
}

/// The players of guilds, ranked within each.
pub open spec fn sections_of(matchups: Seq<MatchupView>, guilds: Seq<Standing>) -> Seq<
    SectionView,
> {
    Seq::new(
        guilds.len(),
        |i: int|
            SectionView {
                name: guilds[i].0,
                players: sorted_by(tally(enemy_scores(matchups, guilds[i].0)), by_kills()),
                stats: guild_stats(guilds[i].1),
            },
    )
}

/// Guilds, with how many of their players come up.
pub open spec fn lines_of(matchups: Seq<MatchupView>, guilds: Seq<Standing>) -> Seq<LineView> {
    Seq::new(
        guilds.len(),
        |i: int|
            LineView {
                name: guilds[i].0,
                players: tally(enemy_scores(matchups, guilds[i].0)).len() as int,
                stats: guild_stats(guilds[i].1),
            },
    )
}

/// The kills of all entries.
pub open spec fn sum_kills(standings: Seq<Standing>) -> nat
    decreases standings.len(),
{
    if standings.len() == 0 {
        0
    } else {
        sum_kills(standings.drop_last()) + standings.last().1.kills as nat
    }
}

/// The deaths of all entries.
pub open spec fn sum_deaths(standings: Seq<Standing>) -> nat
    decreases standings.len(),
{
    if standings.len() == 0 {
        0
    } else {
        sum_deaths(standings.drop_last()) + standings.last().1.deaths as nat
    }
}

/// The statistics of a table of events.
pub open spec fn report_of(matchups: Seq<MatchupView>) -> ReportView {
    let allies = tally(ally_scores(matchups));
    let guilds = tally(guild_scores(matchups));
    ReportView {
        allies: sorted_by(allies, by_kills()),
        sections: sections_of(matchups, sorted_by(guilds, by_name())),
        guilds: lines_of(matchups, sorted_by(guilds, by_kills())),
        kills: sum_kills(allies) as int,
        deaths: sum_deaths(allies) as int,
    }
}

/// The kills and deaths of all entries where one entry is replaced.
proof fn sums_of_update(standings: Seq<Standing>, i: int, x: Standing)
    requires
        0 <= i < standings.len(),
    ensures
        sum_kills(standings.update(i, x)) + standings[i].1.kills == sum_kills(standings)
            + x.1.kills,
        sum_deaths(standings.update(i, x)) + standings[i].1.deaths == sum_deaths(standings)
            + x.1.deaths,
    decreases standings.len(),
{
    let after = standings.update(i, x);
    if i < standings.len() - 1 {
        sums_of_update(standings.drop_last(), i, x);
        assert(after.drop_last() =~= standings.drop_last().update(i, x));
    } else {
        assert(after.drop_last() =~= standings.drop_last());
    }
}

/// The kills and deaths of the first entries are no more than those of all.
proof fn sums_grow(standings: Seq<Standing>, i: int)
    requires
        0 <= i <= standings.len(),
    ensures
        sum_kills(standings.take(i)) <= sum_kills(standings),
        sum_deaths(standings.take(i)) <= sum_deaths(standings),
    decreases standings.len(),
{
    if i < standings.len() {
        sums_grow(standings.drop_last(), i);
        assert(standings.drop_last().take(i) =~= standings.take(i));
    } else {
        assert(standings.take(i) =~= standings);
    }
}

/// All kills of a tally are the kills among its scores, and so with deaths.
pub proof fn tally_loses_no_score(scores: Seq<Score>)
    requires
        can_be_counted(scores),
    ensures
        sum_kills(tally(scores)) == kind_count(scores, true),
        sum_deaths(tally(scores)) == kind_count(scores, false),
        kind_count(scores, true) + kind_count(scores, false) == scores.len(),
    decreases scores.len(),
{
    if scores.len() > 0 {
        let rest = scores.drop_last();
        let score = scores.last();
        let before = tally(rest);
        tally_loses_no_score(rest);
        tally_counts_the_rows(rest);
        let p = is_of(before, score.name);
        first_from_is_least(p, 0, before.len() as int);
        match first_from(p, 0, before.len() as int) {
            Some(i) => {
                score_count_is_bounded(rest, before[i].0, true);
                score_count_is_bounded(rest, before[i].0, false);
                sums_of_update(before, i, (score.name, scored(before[i].1, score.is_kill)));
            },
            None => {
                let x = (score.name, scored(PlayerStats { kills: 0, deaths: 0 }, score.is_kill));
                assert(before.push(x).drop_last() =~= before);
            },
        }
    }
}

/// Every kill of an ally is a death in an enemy guild, and every death of an ally is a
/// kill of one: the totals of the two sides mirror each other.
pub proof fn sides_mirror_each_other(matchups: Seq<MatchupView>)
    requires
        is_countable(matchups),
    ensures
        report_of(matchups).kills == sum_deaths(tally(guild_scores(matchups))),
        report_of(matchups).deaths == sum_kills(tally(guild_scores(matchups))),
        report_of(matchups).kills + report_of(matchups).deaths == matchups.len(),
{
    scores_mirror_each_other(matchups);
    tally_loses_no_score(ally_scores(matchups));
    tally_loses_no_score(guild_scores(matchups));
}

/// Adds up the kills and deaths of allies.
fn add_up(standings: &Vec<(String, PlayerStats)>) -> (r: (u32, u32))
    requires
        sum_kills(standings_view(standings@)) <= u32::MAX,
        sum_deaths(standings_view(standings@)) <= u32::MAX,
    ensures
        r.0 == sum_kills(standings_view(standings@)),
        r.1 == sum_deaths(standings_view(standings@)),
{
    let ghost all = standings_view(standings@);
    let mut kills: u32 = 0;
    let mut deaths: u32 = 0;
    let mut i: usize = 0;
    while i < standings.len()
        invariant
            i <= standings.len(),
            all == standings_view(standings@),
            sum_kills(all) <= u32::MAX,
            sum_deaths(all) <= u32::MAX,
            kills == sum_kills(all.take(i as int)),
            deaths == sum_deaths(all.take(i as int)),
        decreases standings.len() - i,
    {
        proof {
            sums_grow(all, i + 1);
            assert(all.take(i + 1).drop_last() =~= all.take(i as int));
            assert(all.take(i + 1).last() == all[i as int]);
        }
        kills = kills + standings[i].1.kills;
        deaths = deaths + standings[i].1.deaths;
        i = i + 1;
    }
    assert(all.take(i as int) =~= all);
    (kills, deaths)
}

/// Ranks the players of each guild.
fn make_sections(matchups: &[Matchup], guilds: &Vec<(String, PlayerStats)>) -> (r: Vec<
    GuildSection,
>)
    requires
        is_countable(matchups_view(matchups@)),
    ensures
        sections_view(r@) == sections_of(matchups_view(matchups@), standings_view(guilds@)),
{
    let ghost goal = sections_of(matchups_view(matchups@), standings_view(guilds@));
    let mut out: Vec<GuildSection> = Vec::new();
    let mut i: usize = 0;
    while i < guilds.len()
        invariant
            i <= guilds.len(),
            is_countable(matchups_view(matchups@)),
            goal == sections_of(matchups_view(matchups@), standings_view(guilds@)),
            sections_view(out@) == goal.take(i as int),
        decreases guilds.len() - i,
    {
        let ghost before = out@;
        let enemies = tally_enemies(matchups, &guilds[i].0);
        let players = rank_by_kills(&enemies);
        let stats = GuildStats { kills: guilds[i].1.kills, deaths: guilds[i].1.deaths };
        out.push(GuildSection { name: guilds[i].0.as_str().to_owned(), players, stats });
        assert(sections_view(out@) =~= sections_view(before).push(goal[i as int]));
        assert(goal.take(i + 1) =~= goal.take(i as int).push(goal[i as int]));
        i = i + 1;
    }
    assert(goal.take(i as int) =~= goal);
    out
}

/// Counts the players of each guild.
fn make_lines(matchups: &[Matchup], guilds: &Vec<(String, PlayerStats)>) -> (r: Vec<GuildLine>)
    requires
        is_countable(matchups_view(matchups@)),
    ensures
        lines_view(r@) == lines_of(matchups_view(matchups@), standings_view(guilds@)),
{
    let ghost goal = lines_of(matchups_view(matchups@), standings_view(guilds@));
    let mut out: Vec<GuildLine> = Vec::new();
    let mut i: usize = 0;
    while i < guilds.len()
        invariant
            i <= guilds.len(),
            is_countable(matchups_view(matchups@)),
            goal == lines_of(matchups_view(matchups@), standings_view(guilds@)),
            lines_view(out@) == goal.take(i as int),
        decreases guilds.len() - i,
    {
        let ghost before = out@;
        let enemies = tally_enemies(matchups, &guilds[i].0);
        assert(standings_view(enemies@).len() == enemies@.len());
        let stats = GuildStats { kills: guilds[i].1.kills, deaths: guilds[i].1.deaths };
        out.push(
            GuildLine { name: guilds[i].0.as_str().to_owned(), players: enemies.len(), stats },
        );
        assert(lines_view(out@) =~= lines_view(before).push(goal[i as int]));
        assert(goal.take(i + 1) =~= goal.take(i as int).push(goal[i as int]));
        i = i + 1;
    }
    assert(goal.take(i as int) =~= goal);
    out
}

/// Makes the statistics of the rows of a table of events.
pub fn summarize(matchups: &[Matchup]) -> (r: StatsReport)
    requires
        is_countable(matchups_view(matchups@)),
    ensures
        r@ == report_of(matchups_view(matchups@)),
{
    let ghost all = matchups_view(matchups@);
    let allies = tally_allies(matchups);
    let guilds = tally_guilds(matchups);
    proof {
        tally_loses_no_score(ally_scores(all));
    }
    let (kills, deaths) = add_up(&allies);
    let named = sort_by_name(&guilds);
    let ranked = rank_by_kills(&guilds);
    StatsReport {
        allies: rank_by_kills(&allies),
        sections: make_sections(matchups, &named),
        guilds: make_lines(matchups, &ranked),
        kills,
        deaths,
    }
}

/// The kills and deaths of a guild are those of its players together.
pub proof fn guild_counts_are_sums(matchups: Seq<MatchupView>, i: int)
    requires
        is_countable(matchups),
        0 <= i < tally(guild_scores(matchups)).len(),
    ensures
        ({
            let guild = tally(guild_scores(matchups))[i];
            let players = tally(enemy_scores(matchups, guild.0));
            &&& guild.1.kills == sum_kills(players)
            &&& guild.1.deaths == sum_deaths(players)
        }),
{
    let guild = tally(guild_scores(matchups))[i];
    enemies_can_be_counted(matchups, guild.0);
    tally_counts_the_rows(guild_scores(matchups));
    enemy_scores_are_of_the_guild(matchups, guild.0);
    tally_loses_no_score(enemy_scores(matchups, guild.0));
}

/// A piece of a report: text, or the ratio of two counts, which is written with two
/// decimals and spaces behind it to fill up a width.
#[derive(Debug, PartialEq, Eq)]
pub enum ReportPart {
    Text(String),
    Ratio { kills: u32, per: u32, width: usize },
}

/// A piece of a report, by value.
pub enum PartView {
    Text(Seq<char>),
    Ratio { kills: u32, per: u32, width: usize },
}

impl View for ReportPart {
    type V = PartView;

    open spec fn view(&self) -> PartView {
        match self {
            ReportPart::Text(s) => PartView::Text(s@),
            ReportPart::Ratio { kills, per, width } => PartView::Ratio {
                kills: *kills,
                per: *per,
                width: *width,
            },
        }
    }
}

/// Pieces of a report, by value.
pub open spec fn parts_view(parts: Seq<ReportPart>) -> Seq<PartView> {
    Seq::new(parts.len(), |i: int| parts[i]@)
}

/// The ratio of kills to deaths. Who never died has as many as they have kills.
pub open spec fn kd_part(kills: u32, deaths: u32, width: usize) -> PartView {
    PartView::Ratio {
        kills,
        per: if deaths == 0 {
            1
        } else {
            deaths
        },
        width,
    }
}

/// The cells of a table's row, each filled up to its column's width and with a bar behind
/// it.
pub open spec fn cell(text: Seq<char>, width: int) -> Seq<char> {
    left_aligned(text, width) + " | "@
}

/// The heads of the columns for players.
pub open spec fn player_heads(indent: Seq<char>) -> Seq<char> {
    indent + cell("Family (Character)"@, 35) + cell("Kills"@, 6) + cell("Deaths"@, 6)
        + left_aligned("K/D"@, 5) + "\n"@
}

/// The row of a player.
pub open spec fn player_row(indent: Seq<char>, player: Standing) -> Seq<PartView> {
    let stats = player.1;
    seq![
        PartView::Text(
            indent + cell(player.0, 35) + cell(decimal(stats.kills as nat), 6) + cell(
                decimal(stats.deaths as nat),
                6,
            ),
        ),
        kd_part(stats.kills, stats.deaths, 5),
        PartView::Text("\n"@),
    ]
}

/// The rows of players.
pub open spec fn player_rows(indent: Seq<char>, players: Seq<Standing>) -> Seq<PartView>
    decreases players.len(),
{
    if players.len() == 0 {
        seq![]
    } else {
        player_rows(indent, players.drop_last()) + player_row(indent, players.last())
    }
}

/// The part of the report on the allies.
pub open spec fn ally_part(allies: Seq<Standing>) -> Seq<PartView> {
    seq![
        PartView::Text(
            "\n================ Allied K/D Summary (Players: "@ + decimal(allies.len())
                + ") ================\n"@,
        ),
        PartView::Text(player_heads(""@)),
        PartView::Text("----------------------------------------------------\n"@),
    ] + player_rows(""@, allies) + seq![
        PartView::Text("====================================================\n\n"@),
    ]
}

/// The section of a guild.
pub open spec fn section_part(section: SectionView) -> Seq<PartView> {
    let stats = section.stats;
    seq![
        PartView::Text(
            "--- "@ + section.name + " (Players: "@ + decimal(section.players.len()) + ", K: "@
                + decimal(stats.kills as nat) + " D: "@ + decimal(stats.deaths as nat)
                + " K/D: "@,
        ),
        kd_part(stats.kills, stats.deaths, 0),
        PartView::Text(") ---\n"@),
        PartView::Text(player_heads("  "@)),
    ] + player_rows("  "@, section.players) + seq![PartView::Text("\n"@)]
}

/// The sections of guilds.
pub open spec fn section_parts(sections: Seq<SectionView>) -> Seq<PartView>
    decreases sections.len(),
{
    if sections.len() == 0 {
        seq![]
    } else {
        section_parts(sections.drop_last()) + section_part(sections.last())
    }
}

/// The part of the report on the enemies.
pub open spec fn enemy_part(sections: Seq<SectionView>) -> Seq<PartView> {
    seq![PartView::Text("================ Enemy Player K/D Per Guild ================\n"@)]
        + section_parts(sections) + seq![
        PartView::Text("==========================================================\n\n"@),
    ]
}

/// The row of a guild.
pub open spec fn guild_row(line: LineView) -> Seq<PartView> {
    let stats = line.stats;
    seq![
        PartView::Text(
            cell(line.name, 35) + cell(decimal(line.players as nat), 7) + cell(
                decimal(stats.kills as nat),
                6,
            ) + cell(decimal(stats.deaths as nat), 6),
        ),
        kd_part(stats.kills, stats.deaths, 5),
        PartView::Text("\n"@),
    ]
}

/// The rows of guilds.
pub open spec fn guild_rows(lines: Seq<LineView>) -> Seq<PartView>
    decreases lines.len(),
{
    if lines.len() == 0 {
        seq![]
    } else {
        guild_rows(lines.drop_last()) + guild_row(lines.last())
    }
}

/// The part of the report on the guilds.
pub open spec fn guild_part(lines: Seq<LineView>) -> Seq<PartView> {
    seq![
        PartView::Text("================ Enemy Guild K/D Summary ================\n"@),
        PartView::Text(
            cell("Guild Name"@, 35) + cell("Players"@, 7) + cell("Kills"@, 6) + cell(
                "Deaths"@,
                6,
            ) + left_aligned("K/D"@, 5) + "\n"@,
        ),
        PartView::Text("-----------------------------------------------------------------\n"@),
    ] + guild_rows(lines) + seq![
        PartView::Text("=========================================================\n\n"@),
    ]
}

/// The row of a side.
pub open spec fn team_row(team: Seq<char>, kills: u32, deaths: u32) -> Seq<PartView> {
    seq![
        PartView::Text(
            cell(team, 19) + cell(decimal(kills as nat), 6) + cell(decimal(deaths as nat), 6),
        ),
        kd_part(kills, deaths, 5),
        PartView::Text("\n"@),
    ]
}

/// The part of the report on the two sides. The enemies' kills are the allies' deaths.
pub open spec fn team_part(kills: u32, deaths: u32) -> Seq<PartView> {
    seq![
        PartView::Text("================ Overall Team Stats ================\n"@),
        PartView::Text(
            cell("Team"@, 19) + cell("Kills"@, 6) + cell("Deaths"@, 6) + left_aligned(
                "K/D"@,
                5,
            ) + "\n"@,
        ),
        PartView::Text("----------------------------------------------------\n"@),
    ] + team_row("Allies (Alliance)"@, kills, deaths) + team_row("Enemies"@, deaths, kills)
        + seq![PartView::Text("====================================================\n"@)]
}

/// The report of statistics.
pub open spec fn report_parts(report: ReportView) -> Seq<PartView> {
    ally_part(report.allies) + enemy_part(report.sections) + guild_part(report.guilds)
        + team_part(report.kills as u32, report.deaths as u32)
}

/// Adds text to a report.
fn push_text_part(out: &mut Vec<ReportPart>, s: String)
    ensures
        parts_view(final(out)@) == parts_view(old(out)@).push(PartView::Text(s@)),
{
    let part = ReportPart::Text(s);
    let ghost view = part@;
    out.push(part);
    assert(parts_view(out@) =~= parts_view(old(out)@).push(view));
}

/// Adds the ratio of kills to deaths to a report.
fn push_kd(out: &mut Vec<ReportPart>, kills: u32, deaths: u32, width: usize)
    ensures
        parts_view(final(out)@) == parts_view(old(out)@).push(kd_part(kills, deaths, width)),
{
    let per: u32 = if deaths == 0 {
        1
    } else {
        deaths
    };
    let part = ReportPart::Ratio { kills, per, width };
    let ghost view = part@;
    out.push(part);
    assert(parts_view(out@) =~= parts_view(old(out)@).push(view));
}

/// Appends a cell with text.
fn push_cell(line: &mut String, text: &str, width: usize)
    ensures
        final(line)@ == old(line)@ + cell(text@, width as int),
{
    push_left_aligned(line, text, width);
    line.append(" | ");
    assert(line@ =~= old(line)@ + cell(text@, width as int));
}

/// Appends a cell with a number.
fn push_number_cell(line: &mut String, n: u64, width: usize)
    ensures
        final(line)@ == old(line)@ + cell(decimal(n as nat), width as int),
{
    let mut digits = String::new();
    push_decimal(&mut digits, n);
    assert(digits@ =~= decimal(n as nat));
    push_cell(line, digits.as_str(), width);
}

/// Writes the heads of the columns for players.
fn write_player_heads(indent: &str) -> (r: String)
    ensures
        r@ == player_heads(indent@),
{
    let mut line = indent.to_owned();
    push_cell(&mut line, "Family (Character)", 35);
    push_cell(&mut line, "Kills", 6);
    push_cell(&mut line, "Deaths", 6);
    push_left_aligned(&mut line, "K/D", 5);
    line.append("\n");
    line
}

/// Lays out the rows of players.
fn lay_out_players(out: &mut Vec<ReportPart>, indent: &str, players: &Vec<(String, PlayerStats)>)
    ensures
        parts_view(final(out)@) == parts_view(old(out)@) + player_rows(
            indent@,
            standings_view(players@),
        ),
{
    let ghost all = standings_view(players@);
    let ghost before = parts_view(out@);
    let mut i: usize = 0;
    assert(parts_view(out@) =~= before + player_rows(indent@, all.take(0)));
    while i < players.len()
        invariant
            i <= players.len(),
            all == standings_view(players@),
            before == parts_view(old(out)@),
            parts_view(out@) == before + player_rows(indent@, all.take(i as int)),
        decreases players.len() - i,
    {
        let stats = players[i].1;
        let mut line = indent.to_owned();
        push_cell(&mut line, players[i].0.as_str(), 35);
        push_number_cell(&mut line, stats.kills as u64, 6);
        push_number_cell(&mut line, stats.deaths as u64, 6);
        push_text_part(out, line);
        push_kd(out, stats.kills, stats.deaths, 5);
        push_text_part(out, "\n".to_owned());
        proof {
            assert(all.take(i + 1).drop_last() =~= all.take(i as int));
            assert(all.take(i + 1).last() == all[i as int]);
            assert(parts_view(out@) =~= before + player_rows(indent@, all.take(i + 1)));
        }
        i = i + 1;
    }
    assert(all.take(i as int) =~= all);
}

/// Lays out the part on the allies.
fn lay_out_allies(out: &mut Vec<ReportPart>, allies: &Vec<(String, PlayerStats)>)
    ensures
        parts_view(final(out)@) == parts_view(old(out)@) + ally_part(standings_view(allies@)),
{
    assert(standings_view(allies@).len() == allies@.len());
    let mut title = "\n================ Allied K/D Summary (Players: ".to_owned();
    push_decimal(&mut title, allies.len() as u64);
    title.append(") ================\n");
    push_text_part(out, title);
    push_text_part(out, write_player_heads(""));
    push_text_part(out, "----------------------------------------------------\n".to_owned());
    lay_out_players(out, "", allies);
    push_text_part(out, "====================================================\n\n".to_owned());
    assert(parts_view(out@) =~= parts_view(old(out)@) + ally_part(standings_view(allies@)));
}

/// Lays out the section of a guild.
fn lay_out_section(out: &mut Vec<ReportPart>, section: &GuildSection)
    ensures
        parts_view(final(out)@) == parts_view(old(out)@) + section_part(
            (SectionView {
                name: section.name@,
                players: standings_view(section.players@),
                stats: section.stats,
            }),
        ),
{
    assert(standings_view(section.players@).len() == section.players@.len());
    let stats = section.stats;
    let mut title = "--- ".to_owned();
    title.append(section.name.as_str());
    title.append(" (Players: ");
    push_decimal(&mut title, section.players.len() as u64);
    title.append(", K: ");
    push_decimal(&mut title, stats.kills as u64);
    title.append(" D: ");
    push_decimal(&mut title, stats.deaths as u64);
    title.append(" K/D: ");
    push_text_part(out, title);
    push_kd(out, stats.kills, stats.deaths, 0);
    push_text_part(out, ") ---\n".to_owned());
    push_text_part(out, write_player_heads("  "));
    lay_out_players(out, "  ", &section.players);
    push_text_part(out, "\n".to_owned());
    assert(parts_view(out@) =~= parts_view(old(out)@) + section_part(
        (SectionView {
            name: section.name@,
            players: standings_view(section.players@),
            stats: section.stats,
        }),
    ));
}

/// Lays out the part on the enemies.
fn lay_out_enemies(out: &mut Vec<ReportPart>, sections: &Vec<GuildSection>)
    ensures
        parts_view(final(out)@) == parts_view(old(out)@) + enemy_part(sections_view(sections@)),
{
    let ghost all = sections_view(sections@);
    push_text_part(
        out,
        "================ Enemy Player K/D Per Guild ================\n".to_owned(),
    );
    let ghost before = parts_view(out@);
    let mut i: usize = 0;
    assert(parts_view(out@) =~= before + section_parts(all.take(0)));
    while i < sections.len()
        invariant
            i <= sections.len(),
            all == sections_view(sections@),
            parts_view(out@) == before + section_parts(all.take(i as int)),
        decreases sections.len() - i,
    {
        lay_out_section(out, &sections[i]);
        proof {
            assert(all.take(i + 1).drop_last() =~= all.take(i as int));
            assert(all.take(i + 1).last() == all[i as int]);
            assert(parts_view(out@) =~= before + section_parts(all.take(i + 1)));
        }
        i = i + 1;
    }
    assert(all.take(i as int) =~= all);
    push_text_part(
        out,
        "==========================================================\n\n".to_owned(),
    );
    assert(parts_view(out@) =~= parts_view(old(out)@) + enemy_part(all));
}

/// Lays out the part on the guilds.
fn lay_out_guilds(out: &mut Vec<ReportPart>, lines: &Vec<GuildLine>)
    ensures
        parts_view(final(out)@) == parts_view(old(out)@) + guild_part(lines_view(lines@)),
{
    let ghost all = lines_view(lines@);
    push_text_part(out, "================ Enemy Guild K/D Summary ================\n".to_owned());
    let mut heads = String::new();
    push_cell(&mut heads, "Guild Name", 35);
    push_cell(&mut heads, "Players", 7);
    push_cell(&mut heads, "Kills", 6);
    push_cell(&mut heads, "Deaths", 6);
    push_left_aligned(&mut heads, "K/D", 5);
    heads.append("\n");
    assert(heads@ =~= cell("Guild Name"@, 35) + cell("Players"@, 7) + cell("Kills"@, 6) + cell(
        "Deaths"@,
        6,
    ) + left_aligned("K/D"@, 5) + "\n"@);
    push_text_part(out, heads);
    push_text_part(
        out,
        "-----------------------------------------------------------------\n".to_owned(),
    );
    let ghost before = parts_view(out@);
    let mut i: usize = 0;
    assert(parts_view(out@) =~= before + guild_rows(all.take(0)));
    while i < lines.len()
        invariant
            i <= lines.len(),
            all == lines_view(lines@),
            parts_view(out@) == before + guild_rows(all.take(i as int)),
        decreases lines.len() - i,
    {
        let stats = lines[i].stats;
        let mut line = String::new();
        push_cell(&mut line, lines[i].name.as_str(), 35);
        push_number_cell(&mut line, lines[i].players as u64, 7);
        push_number_cell(&mut line, stats.kills as u64, 6);
        push_number_cell(&mut line, stats.deaths as u64, 6);
        let ghost row = guild_row(all[i as int]);
        assert(row[0] == PartView::Text(line@)) by {
            assert(line@ =~= cell(all[i as int].name, 35) + cell(
                decimal(all[i as int].players as nat),
                7,
            ) + cell(decimal(stats.kills as nat), 6) + cell(decimal(stats.deaths as nat), 6));
        }
        push_text_part(out, line);
        push_kd(out, stats.kills, stats.deaths, 5);
        push_text_part(out, "\n".to_owned());
        proof {
            assert(all.take(i + 1).drop_last() =~= all.take(i as int));
            assert(all.take(i + 1).last() == all[i as int]);
            assert(parts_view(out@) =~= before + guild_rows(all.take(i + 1)));
        }
        i = i + 1;
    }
    assert(all.take(i as int) =~= all);
    push_text_part(out, "=========================================================\n\n".to_owned());
    assert(parts_view(out@) =~= parts_view(old(out)@) + guild_part(all));
}

/// Lays out the row of a side.
fn lay_out_team(out: &mut Vec<ReportPart>, team: &str, kills: u32, deaths: u32)
    ensures
        parts_view(final(out)@) == parts_view(old(out)@) + team_row(team@, kills, deaths),
{
    let mut line = String::new();
    push_cell(&mut line, team, 19);
    push_number_cell(&mut line, kills as u64, 6);
    push_number_cell(&mut line, deaths as u64, 6);
    assert(line@ =~= cell(team@, 19) + cell(decimal(kills as nat), 6) + cell(
        decimal(deaths as nat),
        6,
    ));
    push_text_part(out, line);
    push_kd(out, kills, deaths, 5);
    push_text_part(out, "\n".to_owned());
    assert(parts_view(out@) =~= parts_view(old(out)@) + team_row(team@, kills, deaths));
}

/// Lays out the part on the two sides.
fn lay_out_teams(out: &mut Vec<ReportPart>, kills: u32, deaths: u32)
    ensures
        parts_view(final(out)@) == parts_view(old(out)@) + team_part(kills, deaths),
{
    push_text_part(out, "================ Overall Team Stats ================\n".to_owned());
    let mut heads = String::new();
    push_cell(&mut heads, "Team", 19);
    push_cell(&mut heads, "Kills", 6);
    push_cell(&mut heads, "Deaths", 6);
    push_left_aligned(&mut heads, "K/D", 5);
    heads.append("\n");
    assert(heads@ =~= cell("Team"@, 19) + cell("Kills"@, 6) + cell("Deaths"@, 6) + left_aligned(
        "K/D"@,
        5,
    ) + "\n"@);
    push_text_part(out, heads);
    push_text_part(out, "----------------------------------------------------\n".to_owned());
    lay_out_team(out, "Allies (Alliance)", kills, deaths);
    lay_out_team(out, "Enemies", deaths, kills);
    push_text_part(out, "====================================================\n".to_owned());
    assert(parts_view(out@) =~= parts_view(old(out)@) + team_part(kills, deaths));
}

/// Lays out the report of statistics.
pub fn lay_out(report: &StatsReport) -> (r: Vec<ReportPart>)
    ensures
        parts_view(r@) == report_parts(report@),
{
    let mut out: Vec<ReportPart> = Vec::new();
    lay_out_allies(&mut out, &report.allies);
    lay_out_enemies(&mut out, &report.sections);
    lay_out_guilds(&mut out, &report.guilds);
    lay_out_teams(&mut out, report.kills, report.deaths);
    assert(parts_view(out@) =~= report_parts(report@));
    out
}

/// Counts the rows that say a kill, and those that say a death.
fn count_rows(matchups: &[Matchup]) -> (r: (usize, usize))
    ensures
        r.0 == kind_count(ally_scores(matchups_view(matchups@)), true),
        r.1 == kind_count(ally_scores(matchups_view(matchups@)), false),
{
    let ghost scores = ally_scores(matchups_view(matchups@));
    let mut kills: usize = 0;
    let mut deaths: usize = 0;
    let mut i: usize = 0;
    while i < matchups.len()
        invariant
            i <= matchups.len(),
            kills + deaths == i,
            scores == ally_scores(matchups_view(matchups@)),
            kills == kind_count(scores.take(i as int), true),
            deaths == kind_count(scores.take(i as int), false),
        decreases matchups.len() - i,
    {
        proof {
            assert(scores.take(i + 1).drop_last() =~= scores.take(i as int));
            assert(scores.take(i + 1).last() == scores[i as int]);
        }
        if matchups[i].is_death {
            deaths = deaths + 1;
        } else {
            kills = kills + 1;
        }
        i = i + 1;
    }
    assert(scores.take(i as int) =~= scores);
    (kills, deaths)
}

/// Makes the report of a table of events from the content of its file. The report of an
/// exported table is that of the events that were exported, in either layout. There is no
/// report of more kills, or more deaths, than can be counted.
pub fn generate_stats(content: &[u8]) -> (r: Option<Vec<ReportPart>>)
    ensures
        match r {
            Some(parts) => {
                &&& is_countable(matchups_of(csv_records(content@)))
                &&& parts_view(parts@) == report_parts(
                    report_of(matchups_of(csv_records(content@))),
                )
            },
            None => !is_countable(matchups_of(csv_records(content@))),
        },
        forall|layout: CsvLayout, events: Seq<EventView>|
            content@ == encode_utf8(csv_text(#[trigger] event_table(layout, events)))
                && is_countable(matchups_of_events(events)) ==> {
                &&& r is Some
                &&& parts_view(r->0@) == report_parts(report_of(matchups_of_events(events)))
            },
{
    let records = read_records(content);
    let matchups = read_matchups(&records);
    assert(matchups_view(matchups@).len() == matchups@.len());
    proof {
        assert forall|layout: CsvLayout, events: Seq<EventView>|
            content@ == encode_utf8(
                csv_text(#[trigger] event_table(layout, events)),
            ) implies matchups_of(csv_records(content@)) == matchups_of_events(events) by {
            events_make_a_table(layout, events);
            exported_events_are_counted(layout, events);
        }
    }
    let (kills, deaths) = count_rows(matchups.as_slice());
    if kills as u64 > u32::MAX as u64 || deaths as u64 > u32::MAX as u64 {
        return None;
    }
    let report = summarize(matchups.as_slice());
    Some(lay_out(&report))
}

} // verus!
