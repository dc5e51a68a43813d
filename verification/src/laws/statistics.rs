//! Statistics: what a row says, what is counted of the rows, and how it is laid out.

use vstd::prelude::*;
use crate::export::player_label;
use crate::rank::{sorted_by, text_before};
use crate::report::{
    ally_part, cell, enemy_part, guild_part, guild_row, guild_rows, kd_part, player_row,
    player_rows, report_of, report_parts, section_part, section_parts, tally_loses_no_score,
    team_part, team_row, LineView, PartView, ReportView, SectionView,
};
use crate::stats::{
    ally_scores, by_kills, by_name, enemies_can_be_counted, enemy_scores, guild_scores, is_listed,
    kind_count, matchup_of, matchups_of, names_are_sorted, ranking_counts_the_rows,
    ranking_is_ordered, score_count, scores_mirror_each_other, tally, MatchupView, Standing,
};
use crate::text::{decimal, left_aligned, lowered, trimmed};

verus! {

/// Whether a piece of a report has the value of kills by deaths: with deaths it is the fraction
/// of the two, and without it is the kills.
pub open spec fn has_value_of(part: PartView, kills: int, deaths: int) -> bool {
    part matches PartView::Ratio { kills: numerator, per: denominator, .. } && {
        &&& denominator > 0
        &&& deaths > 0 ==> numerator * deaths == kills * denominator
        &&& deaths == 0 ==> numerator == kills * denominator
    }
}

/// Whether a row of a report has a text, the ratio of two counts behind it, filled up to five
/// characters, and the end of the line.
pub open spec fn is_row(
    row: Seq<PartView>,
    text: Seq<char>,
    kills: int,
    deaths: int,
) -> bool {
    &&& row.len() == 3
    &&& row[0] == PartView::Text(text)
    &&& has_value_of(row[1], kills, deaths)
    &&& row[1]->width == 5
    &&& row[2] == PartView::Text(seq!['\n'])
}

/// A cell of a table: a text, spaces to fill up a width, and a bar.
pub open spec fn column(text: Seq<char>, width: int) -> Seq<char> {
    left_aligned(text, width) + seq![' ', '|', ' ']
}

proof fn kd_has_its_value(kills: u32, deaths: u32, width: usize)
    ensures
        has_value_of(kd_part(kills, deaths, width), kills as int, deaths as int),
        kd_part(kills, deaths, width)->width == width,
{
    let k = kills as int;
    let d = deaths as int;
    assert(k * 1 == k);
    assert(k * d == k * d);
}

proof fn cells_are_columns(text: Seq<char>, width: int)
    ensures
        cell(text, width) == column(text, width),
{
    reveal_strlit(" | ");
    assert(" | "@ =~= seq![' ', '|', ' ']);
}

proof fn a_line_ends()
    ensures
        "\n"@ == seq!['\n'],
{
    reveal_strlit("\n");
    assert("\n"@ =~= seq!['\n']);
}

/// The row of a player says how often they killed and died, and beside it the ratio, whose
/// value is kills by deaths.
pub proof fn the_ratio_of_a_player(indent: Seq<char>, player: Standing)
    ensures
        is_row(
            player_row(indent, player),
            indent + column(player.0, 35) + column(decimal(player.1.kills as nat), 6) + column(
                decimal(player.1.deaths as nat),
                6,
            ),
            player.1.kills as int,
            player.1.deaths as int,
        ),
{
    kd_has_its_value(player.1.kills, player.1.deaths, 5);
    cells_are_columns(player.0, 35);
    cells_are_columns(decimal(player.1.kills as nat), 6);
    cells_are_columns(decimal(player.1.deaths as nat), 6);
    a_line_ends();
}

/// The row of a guild says how many of its players come up and how often they killed and died,
/// and beside it the ratio, whose value is kills by deaths.
pub proof fn the_ratio_of_a_guild(line: LineView)
    ensures
        is_row(
            guild_row(line),
            column(line.name, 35) + column(decimal(line.players as nat), 7) + column(
                decimal(line.stats.kills as nat),
                6,
            ) + column(decimal(line.stats.deaths as nat), 6),
            line.stats.kills as int,
            line.stats.deaths as int,
        ),
{
    kd_has_its_value(line.stats.kills, line.stats.deaths, 5);
    cells_are_columns(line.name, 35);
    cells_are_columns(decimal(line.players as nat), 7);
    cells_are_columns(decimal(line.stats.kills as nat), 6);
    cells_are_columns(decimal(line.stats.deaths as nat), 6);
    a_line_ends();
}

/// The row of a team says how often it killed and died, and beside it the ratio, whose value
/// is kills by deaths.
pub proof fn the_ratio_of_a_team(team: Seq<char>, kills: u32, deaths: u32)
    ensures
        is_row(
            team_row(team, kills, deaths),
            column(team, 19) + column(decimal(kills as nat), 6) + column(
                decimal(deaths as nat),
                6,
            ),
            kills as int,
            deaths as int,
        ),
{
    kd_has_its_value(kills, deaths, 5);
    cells_are_columns(team, 19);
    cells_are_columns(decimal(kills as nat), 6);
    cells_are_columns(decimal(deaths as nat), 6);
    a_line_ends();
}

/// The title of the allies tells how many there are, and that of a guild's section its name,
/// how many of its players come up, and how often they killed and died.
pub proof fn titles_tell_the_counts(allies: Seq<Standing>, section: SectionView)
    ensures
        ally_part(allies)[0] == PartView::Text(
            "\n================ Allied K/D Summary (Players: "@ + decimal(allies.len())
                + ") ================\n"@,
        ),
        section_part(section)[0] == PartView::Text(
            "--- "@ + section.name + " (Players: "@ + decimal(section.players.len()) + ", K: "@
                + decimal(section.stats.kills as nat) + " D: "@ + decimal(
                section.stats.deaths as nat,
            ) + " K/D: "@,
        ),
{
}

/// Players have a row each, in their order.
pub proof fn each_player_has_a_row(indent: Seq<char>, players: Seq<Standing>, i: int)
    requires
        0 <= i < players.len(),
    ensures
        player_rows(indent, players).len() == 3 * players.len(),
        player_rows(indent, players).subrange(3 * i, 3 * i + 3) == player_row(indent, players[i]),
    decreases players.len(),
{
    let rest = players.drop_last();
    let rows = player_rows(indent, rest);
    player_rows_len(indent, rest);
    if i < rest.len() {
        each_player_has_a_row(indent, rest, i);
        assert(player_rows(indent, players).subrange(3 * i, 3 * i + 3) =~= rows.subrange(
            3 * i,
            3 * i + 3,
        ));
    } else {
        assert(player_rows(indent, players).subrange(3 * i, 3 * i + 3) =~= player_row(
            indent,
            players[i],
        ));
    }
}

proof fn player_rows_len(indent: Seq<char>, players: Seq<Standing>)
    ensures
        player_rows(indent, players).len() == 3 * players.len(),
    decreases players.len(),
{
    if players.len() > 0 {
        player_rows_len(indent, players.drop_last());
    }
}

/// Guilds have a row each, in their order.
pub proof fn each_guild_has_a_row(lines: Seq<LineView>, i: int)
    requires
        0 <= i < lines.len(),
    ensures
        guild_rows(lines).len() == 3 * lines.len(),
        guild_rows(lines).subrange(3 * i, 3 * i + 3) == guild_row(lines[i]),
    decreases lines.len(),
{
    let rest = lines.drop_last();
    guild_rows_len(rest);
    if i < rest.len() {
        each_guild_has_a_row(rest, i);
        assert(guild_rows(lines).subrange(3 * i, 3 * i + 3) =~= guild_rows(rest).subrange(
            3 * i,
            3 * i + 3,
        ));
    } else {
        assert(guild_rows(lines).subrange(3 * i, 3 * i + 3) =~= guild_row(lines[i]));
    }
}

proof fn guild_rows_len(lines: Seq<LineView>)
    ensures
        guild_rows(lines).len() == 3 * lines.len(),
    decreases lines.len(),
{
    if lines.len() > 0 {
        guild_rows_len(lines.drop_last());
    }
}

/// Behind a title of three lines, the report starts with the allies, one row each with the
/// ratio of the ally's counts.
pub proof fn the_report_starts_with_the_allies(report: ReportView, i: int)
    requires
        0 <= i < report.allies.len(),
    ensures
        ({
            let ally = report.allies[i];
            is_row(
                report_parts(report).subrange(3 + 3 * i, 3 + 3 * i + 3),
                column(ally.0, 35) + column(decimal(ally.1.kills as nat), 6) + column(
                    decimal(ally.1.deaths as nat),
                    6,
                ),
                ally.1.kills as int,
                ally.1.deaths as int,
            )
        }),
{
    let ally = report.allies[i];
    let rows = player_rows(""@, report.allies);
    reveal_strlit("");
    each_player_has_a_row(""@, report.allies, i);
    the_ratio_of_a_player(""@, ally);
    assert(""@ + column(ally.0, 35) =~= column(ally.0, 35));
    assert(report_parts(report).subrange(3 + 3 * i, 3 + 3 * i + 3) =~= rows.subrange(
        3 * i,
        3 * i + 3,
    ));
}

/// The section of a guild starts with the ratio of the guild's counts behind its title, and
/// has one row, indented by two, for each of its players.
pub proof fn a_section_has_the_ratios_of_its_guild(section: SectionView, i: int)
    ensures
        section_part(section)[0] is Text,
        has_value_of(
            section_part(section)[1],
            section.stats.kills as int,
            section.stats.deaths as int,
        ),
        0 <= i < section.players.len() ==> {
            let player = section.players[i];
            is_row(
                section_part(section).subrange(4 + 3 * i, 4 + 3 * i + 3),
                seq![' ', ' '] + column(player.0, 35) + column(
                    decimal(player.1.kills as nat),
                    6,
                ) + column(decimal(player.1.deaths as nat), 6),
                player.1.kills as int,
                player.1.deaths as int,
            )
        },
{
    kd_has_its_value(section.stats.kills, section.stats.deaths, 0);
    if 0 <= i < section.players.len() {
        let player = section.players[i];
        let rows = player_rows("  "@, section.players);
        reveal_strlit("  ");
        assert("  "@ =~= seq![' ', ' ']);
        each_player_has_a_row("  "@, section.players, i);
        the_ratio_of_a_player("  "@, player);
        assert(section_part(section).subrange(4 + 3 * i, 4 + 3 * i + 3) =~= rows.subrange(
            3 * i,
            3 * i + 3,
        ));
    }
}

/// The ranking of guilds has one row for each, behind a title of three lines, with the ratio
/// of the guild's counts.
pub proof fn the_ranking_has_the_ratios_of_guilds(lines: Seq<LineView>, i: int)
    requires
        0 <= i < lines.len(),
    ensures
        ({
            let line = lines[i];
            is_row(
                guild_part(lines).subrange(3 + 3 * i, 3 + 3 * i + 3),
                column(line.name, 35) + column(decimal(line.players as nat), 7) + column(
                    decimal(line.stats.kills as nat),
                    6,
                ) + column(decimal(line.stats.deaths as nat), 6),
                line.stats.kills as int,
                line.stats.deaths as int,
            )
        }),
{
    each_guild_has_a_row(lines, i);
    the_ratio_of_a_guild(lines[i]);
    assert(guild_part(lines).subrange(3 + 3 * i, 3 + 3 * i + 3) =~= guild_rows(lines).subrange(
        3 * i,
        3 * i + 3,
    ));
}

/// The report ends with the two teams, allies first. What one team killed is what the other
/// died, so their ratios are each other's inverse.
pub proof fn the_report_ends_with_the_teams(report: ReportView)
    requires
        0 <= report.kills <= u32::MAX,
        0 <= report.deaths <= u32::MAX,
    ensures
        ({
            let parts = report_parts(report);
            let n = parts.len() as int;
            &&& n >= 7
            &&& has_value_of(parts[n - 6], report.kills, report.deaths)
            &&& has_value_of(parts[n - 3], report.deaths, report.kills)
            &&& parts[n - 6]->width == 5
            &&& parts[n - 3]->width == 5
        }),
{
    let (kills, deaths) = (report.kills as u32, report.deaths as u32);
    kd_has_its_value(kills, deaths, 5);
    kd_has_its_value(deaths, kills, 5);
    let parts = report_parts(report);
    let n = parts.len() as int;
    let team = team_part(kills, deaths);
    assert(team.len() == 10);
    assert(parts[n - 6] == team[4]);
    assert(parts[n - 3] == team[7]);
}

/// The report is made of the allies, the enemies guild by guild, the guilds and the teams.
pub proof fn the_report_has_four_parts(report: ReportView)
    ensures
        report_parts(report) == ally_part(report.allies) + enemy_part(report.sections)
            + guild_part(report.guilds) + team_part(report.kills as u32, report.deaths as u32),
{
}

/// Whether one list of pieces stands in another, from some place on.
pub open spec fn stands_in(part: Seq<PartView>, parts: Seq<PartView>) -> bool {
    exists|at: int|
        0 <= at && at + part.len() <= parts.len() && #[trigger] parts.subrange(
            at,
            at + part.len(),
        ) == part
}

/// Every guild has its section in the report.
pub proof fn each_guild_has_a_section(sections: Seq<SectionView>, i: int)
    requires
        0 <= i < sections.len(),
    ensures
        stands_in(section_part(sections[i]), section_parts(sections)),
        stands_in(section_part(sections[i]), enemy_part(sections)),
{
    section_stands(sections, i);
    let part = section_part(sections[i]);
    let parts = section_parts(sections);
    let at = choose|at: int|
        0 <= at && at + part.len() <= parts.len() && #[trigger] parts.subrange(
            at,
            at + part.len(),
        ) == part;
    assert(enemy_part(sections).subrange(at + 1, at + 1 + part.len()) =~= parts.subrange(
        at,
        at + part.len(),
    ));
}

proof fn section_stands(sections: Seq<SectionView>, i: int)
    requires
        0 <= i < sections.len(),
    ensures
        stands_in(section_part(sections[i]), section_parts(sections)),
    decreases sections.len(),
{
    let rest = sections.drop_last();
    let part = section_part(sections[i]);
    let parts = section_parts(sections);
    let before = section_parts(rest);
    if i < rest.len() {
        section_stands(rest, i);
        let at = choose|at: int|
            0 <= at && at + part.len() <= before.len() && #[trigger] before.subrange(
                at,
                at + part.len(),
            ) == part;
        assert(parts.subrange(at, at + part.len()) =~= before.subrange(at, at + part.len()));
    } else {
        let at = before.len() as int;
        assert(parts.subrange(at, at + part.len()) =~= part);
    }
}

/// How many rows say that an ally killed, or died.
pub open spec fn ally_rows(rows: Seq<MatchupView>, name: Seq<char>, is_death: bool) -> nat {
    rows.filter(|m: MatchupView| m.ally == name && m.is_death == is_death).len()
}

/// How many rows say that someone of a guild was killed, or killed.
pub open spec fn rows_of_guild(rows: Seq<MatchupView>, name: Seq<char>, is_death: bool) -> nat {
    rows.filter(|m: MatchupView| m.guild == name && m.is_death == is_death).len()
}

/// How many rows say that an enemy of a guild was killed, or killed.
pub open spec fn enemy_rows(
    rows: Seq<MatchupView>,
    guild: Seq<char>,
    name: Seq<char>,
    is_death: bool,
) -> nat {
    rows.filter(
        |m: MatchupView| m.guild == guild && m.enemy == name && m.is_death == is_death,
    ).len()
}

proof fn ally_scores_are_rows(rows: Seq<MatchupView>, name: Seq<char>)
    ensures
        score_count(ally_scores(rows), name, true) == ally_rows(rows, name, false),
        score_count(ally_scores(rows), name, false) == ally_rows(rows, name, true),
    decreases rows.len(),
{
    reveal(Seq::filter);
    if rows.len() > 0 {
        ally_scores_are_rows(rows.drop_last(), name);
        assert(ally_scores(rows).drop_last() =~= ally_scores(rows.drop_last()));
    }
}

proof fn guild_scores_are_rows(rows: Seq<MatchupView>, name: Seq<char>)
    ensures
        score_count(guild_scores(rows), name, true) == rows_of_guild(rows, name, true),
        score_count(guild_scores(rows), name, false) == rows_of_guild(rows, name, false),
    decreases rows.len(),
{
    reveal(Seq::filter);
    if rows.len() > 0 {
        guild_scores_are_rows(rows.drop_last(), name);
        assert(guild_scores(rows).drop_last() =~= guild_scores(rows.drop_last()));
    }
}

proof fn enemy_scores_are_rows(rows: Seq<MatchupView>, guild: Seq<char>, name: Seq<char>)
    ensures
        score_count(enemy_scores(rows, guild), name, true) == enemy_rows(rows, guild, name, true),
        score_count(enemy_scores(rows, guild), name, false) == enemy_rows(
            rows,
            guild,
            name,
            false,
        ),
    decreases rows.len(),
{
    reveal(Seq::filter);
    if rows.len() > 0 {
        let rest = rows.drop_last();
        let m = rows.last();
        enemy_scores_are_rows(rest, guild, name);
        if m.guild == guild {
            assert(enemy_scores(rows, guild).drop_last() =~= enemy_scores(rest, guild));
        }
    }
}

proof fn enemy_of_a_row_scores(rows: Seq<MatchupView>, k: int)
    requires
        0 <= k < rows.len(),
    ensures
        exists|j: int|
            0 <= j < enemy_scores(rows, rows[k].guild).len() && (#[trigger] enemy_scores(
                rows,
                rows[k].guild,
            )[j]).name == rows[k].enemy,
    decreases rows.len(),
{
    let rest = rows.drop_last();
    let guild = rows[k].guild;
    let scores = enemy_scores(rows, guild);
    if k < rest.len() {
        enemy_of_a_row_scores(rest, k);
        let before = enemy_scores(rest, guild);
        let j = choose|j: int|
            0 <= j < before.len() && (#[trigger] before[j]).name == rows[k].enemy;
        assert(scores[j] == before[j]);
    } else {
        assert(scores[scores.len() - 1].name == rows[k].enemy);
    }
}

/// How many rows are kills of the allies, or deaths.
pub open spec fn rows_that_tell(rows: Seq<MatchupView>, is_death: bool) -> nat {
    rows.filter(|m: MatchupView| m.is_death == is_death).len()
}

proof fn kinds_are_rows(rows: Seq<MatchupView>)
    ensures
        kind_count(ally_scores(rows), true) == rows_that_tell(rows, false),
        kind_count(ally_scores(rows), false) == rows_that_tell(rows, true),
    decreases rows.len(),
{
    reveal(Seq::filter);
    if rows.len() > 0 {
        kinds_are_rows(rows.drop_last());
        assert(ally_scores(rows).drop_last() =~= ally_scores(rows.drop_last()));
    }
}

/// Whether the rows of a table fit into the counts.
pub open spec fn fit_the_counts(rows: Seq<MatchupView>) -> bool {
    rows_that_tell(rows, false) <= u32::MAX && rows_that_tell(rows, true) <= u32::MAX
}

/// The report's ally has as many kills as rows say that they killed, and as many deaths as rows
/// say that they died; no ally is there twice, and those with more kills come first.
pub proof fn allies_have_their_rows_counted(rows: Seq<MatchupView>, i: int, j: int)
    requires
        fit_the_counts(rows),
        0 <= i < j < report_of(rows).allies.len() || (0 <= i == j < report_of(rows).allies.len()),
    ensures
        ({
            let allies = report_of(rows).allies;
            &&& allies[i].1.kills == ally_rows(rows, allies[i].0, false)
            &&& allies[i].1.deaths == ally_rows(rows, allies[i].0, true)
            &&& i < j ==> allies[i].0 != allies[j].0
            &&& allies[i].1.kills >= allies[j].1.kills
        }),
{
    kinds_are_rows(rows);
    let scores = ally_scores(rows);
    ranking_counts_the_rows(scores);
    ranking_is_ordered(tally(scores));
    ally_scores_are_rows(rows, report_of(rows).allies[i].0);
}

/// The ally of every row is in the report.
pub proof fn every_ally_is_in_the_report(rows: Seq<MatchupView>, k: int)
    requires
        fit_the_counts(rows),
        0 <= k < rows.len(),
    ensures
        is_listed(report_of(rows).allies, rows[k].ally),
{
    kinds_are_rows(rows);
    ranking_counts_the_rows(ally_scores(rows));
    assert(ally_scores(rows)[k].name == rows[k].ally);
}

/// The totals are how many rows are kills of the allies, and how many are deaths.
pub proof fn the_totals_count_the_rows(rows: Seq<MatchupView>)
    requires
        fit_the_counts(rows),
    ensures
        report_of(rows).kills == rows_that_tell(rows, false),
        report_of(rows).deaths == rows_that_tell(rows, true),
{
    kinds_are_rows(rows);
    tally_loses_no_score(ally_scores(rows));
}

/// A guild of the report has as many kills as rows say that an ally died of it, and as many
/// deaths as rows say that an ally killed one of it. In the sections guilds are in the order of
/// their names, and in the ranking those with more kills come first.
pub proof fn guilds_have_their_rows_counted(rows: Seq<MatchupView>, i: int)
    requires
        fit_the_counts(rows),
        0 <= i < report_of(rows).sections.len(),
    ensures
        ({
            let sections = report_of(rows).sections;
            let guilds = report_of(rows).guilds;
            &&& guilds.len() == sections.len()
            &&& sections[i].stats.kills == rows_of_guild(rows, sections[i].name, true)
            &&& sections[i].stats.deaths == rows_of_guild(rows, sections[i].name, false)
            &&& guilds[i].stats.kills == rows_of_guild(rows, guilds[i].name, true)
            &&& guilds[i].stats.deaths == rows_of_guild(rows, guilds[i].name, false)
            &&& forall|j: int|
                i < j < sections.len() ==> sections[i].name != (#[trigger] sections[j]).name
                    && !text_before(sections[j].name, sections[i].name)
            &&& forall|j: int|
                i < j < guilds.len() ==> guilds[i].name != (#[trigger] guilds[j]).name
                    && guilds[i].stats.kills >= guilds[j].stats.kills
        }),
{
    kinds_are_rows(rows);
    scores_mirror_each_other(rows);
    let scores = guild_scores(rows);
    let named = sorted_by(tally(scores), by_name());
    let ranked = sorted_by(tally(scores), by_kills());
    ranking_counts_the_rows(scores);
    ranking_is_ordered(tally(scores));
    names_are_sorted(tally(scores));
    guild_scores_are_rows(rows, named[i].0);
    guild_scores_are_rows(rows, ranked[i].0);
    let sections = report_of(rows).sections;
    let guilds = report_of(rows).guilds;
    assert forall|j: int| i < j < sections.len() implies sections[i].name != (
    #[trigger] sections[j]).name && !text_before(sections[j].name, sections[i].name) by {
        assert(named[i].0 != named[j].0);
        assert(!text_before(named[j].0, named[i].0));
    }
    assert forall|j: int| i < j < guilds.len() implies guilds[i].name != (#[trigger] guilds[j]).name
        && guilds[i].stats.kills >= guilds[j].stats.kills by {
        assert(ranked[i].0 != ranked[j].0);
        assert(ranked[i].1.kills >= ranked[j].1.kills);
    }
}

/// Whether a guild has a section.
pub open spec fn has_section(sections: Seq<SectionView>, name: Seq<char>) -> bool {
    exists|i: int| 0 <= i < sections.len() && (#[trigger] sections[i]).name == name
}

/// Whether a guild is in the ranking.
pub open spec fn has_line(lines: Seq<LineView>, name: Seq<char>) -> bool {
    exists|i: int| 0 <= i < lines.len() && (#[trigger] lines[i]).name == name
}

/// The guild of every row is in the report.
pub proof fn every_guild_is_in_the_report(rows: Seq<MatchupView>, k: int)
    requires
        fit_the_counts(rows),
        0 <= k < rows.len(),
    ensures
        has_section(report_of(rows).sections, rows[k].guild),
        has_line(report_of(rows).guilds, rows[k].guild),
{
    kinds_are_rows(rows);
    scores_mirror_each_other(rows);
    let scores = guild_scores(rows);
    let name = rows[k].guild;
    ranking_counts_the_rows(scores);
    assert(scores[k].name == name);
    let named = sorted_by(tally(scores), by_name());
    let ranked = sorted_by(tally(scores), by_kills());
    assert(is_listed(named, name));
    assert(is_listed(ranked, name));
    let i = choose|i: int| 0 <= i < named.len() && (#[trigger] named[i]).0 == name;
    assert(report_of(rows).sections[i].name == name);
    let j = choose|j: int| 0 <= j < ranked.len() && (#[trigger] ranked[j]).0 == name;
    assert(report_of(rows).guilds[j].name == name);
}

/// An enemy of a section has as many kills as rows say that an ally died of them, and as many
/// deaths as rows say that an ally killed them, in that guild. None is there twice, and those
/// with more kills come first.
pub proof fn enemies_have_their_rows_counted(rows: Seq<MatchupView>, i: int, p: int, q: int)
    requires
        fit_the_counts(rows),
        0 <= i < report_of(rows).sections.len(),
        0 <= p <= q < report_of(rows).sections[i].players.len(),
    ensures
        ({
            let section = report_of(rows).sections[i];
            let player = section.players[p];
            &&& player.1.kills == enemy_rows(rows, section.name, player.0, true)
            &&& player.1.deaths == enemy_rows(rows, section.name, player.0, false)
            &&& p < q ==> player.0 != section.players[q].0
            &&& player.1.kills >= section.players[q].1.kills
        }),
{
    kinds_are_rows(rows);
    let section = report_of(rows).sections[i];
    enemies_can_be_counted(rows, section.name);
    let scores = enemy_scores(rows, section.name);
    ranking_counts_the_rows(scores);
    ranking_is_ordered(tally(scores));
    enemy_scores_are_rows(rows, section.name, section.players[p].0);
}

/// The enemy of every row is in the section of their guild.
pub proof fn every_enemy_is_in_their_section(rows: Seq<MatchupView>, k: int, i: int)
    requires
        fit_the_counts(rows),
        0 <= k < rows.len(),
        0 <= i < report_of(rows).sections.len(),
        report_of(rows).sections[i].name == rows[k].guild,
    ensures
        is_listed(report_of(rows).sections[i].players, rows[k].enemy),
{
    kinds_are_rows(rows);
    let guild = rows[k].guild;
    enemies_can_be_counted(rows, guild);
    ranking_counts_the_rows(enemy_scores(rows, guild));
    enemy_of_a_row_scores(rows, k);
}

/// The ranking says of a guild how many players its section has.
pub proof fn the_ranking_counts_the_players(rows: Seq<MatchupView>, i: int, j: int)
    requires
        0 <= i < report_of(rows).sections.len(),
        0 <= j < report_of(rows).guilds.len(),
        report_of(rows).sections[i].name == report_of(rows).guilds[j].name,
    ensures
        report_of(rows).guilds[j].players == report_of(rows).sections[i].players.len(),
{
    ranking_is_ordered(tally(enemy_scores(rows, report_of(rows).sections[i].name)));
}

/// A record of five fields says what stands in them: the event, the guild, the ally and the
/// enemy. One of more fields says it with the ally's family and character apart.
pub proof fn a_record_says_what_stands_in_it(record: Seq<Seq<char>>)
    ensures
        matchup_of(record) is Some <==> record.len() >= 5,
        matchup_of(record) matches Some(m) ==> {
            let guild = if record.len() == 5 {
                record[2]
            } else {
                record[4]
            };
            &&& m.is_death <==> lowered(record[1]) == seq!['d', 'e', 'a', 't', 'h']
            &&& trimmed(guild).len() > 0 ==> m.guild == guild
            &&& trimmed(guild).len() == 0 ==> m.guild == seq![
                'N',
                'o',
                ' ',
                'G',
                'u',
                'i',
                'l',
                'd',
            ]
            &&& record.len() == 5 ==> m.ally == record[3] && m.enemy == record[4]
            &&& record.len() > 5 ==> m.ally == trimmed(record[2]) + seq![' ', '('] + trimmed(
                record[3],
            ) + seq![')'] && m.enemy == record[5]
        },
{
    reveal_strlit("death");
    reveal_strlit("No Guild");
    reveal_strlit(" (");
    reveal_strlit(")");
    assert("death"@ =~= seq!['d', 'e', 'a', 't', 'h']);
    assert("No Guild"@ =~= seq!['N', 'o', ' ', 'G', 'u', 'i', 'l', 'd']);
    if record.len() > 5 {
        let (family, character) = (trimmed(record[2]), trimmed(record[3]));
        assert(player_label(family, character) =~= family + seq![' ', '(']
            + character + seq![')']);
    }
}

/// Every record that says something adds a row, behind those before it; a record that cannot be
/// read, or is too short, adds none.
pub proof fn each_record_adds_its_row(
    records: Seq<Option<Seq<Seq<char>>>>,
    record: Option<Seq<Seq<char>>>,
)
    ensures
        record is None || record->0.len() < 5 ==> matchups_of(records.push(record)) == matchups_of(
            records,
        ),
        record is Some && record->0.len() >= 5 ==> matchups_of(records.push(record))
            == matchups_of(records).push(matchup_of(record->0)->0),
        matchups_of(seq![]).len() == 0,
{
    assert(records.push(record).drop_last() =~= records);
}

/// Whether texts are the same up to a place, where one ends or has the smaller character.
pub open spec fn parts_at(a: Seq<char>, b: Seq<char>, k: int) -> bool {
    &&& 0 <= k <= a.len()
    &&& k < b.len()
    &&& a.take(k) == b.take(k)
    &&& k == a.len() || (a[k] as u32) < (b[k] as u32)
}

/// A text comes before another exactly where the two are the same up to some place, and there
/// it ends or has the smaller character.
pub proof fn texts_are_ordered_by_their_first_difference(a: Seq<char>, b: Seq<char>)
    ensures
        text_before(a, b) <==> exists|k: int| #[trigger] parts_at(a, b, k),
    decreases b.len(),
{
    if b.len() == 0 {
    } else if a.len() == 0 {
        assert(a.take(0) =~= b.take(0));
        assert(parts_at(a, b, 0));
    } else if a[0] != b[0] {
        if text_before(a, b) {
            assert(a.take(0) =~= b.take(0));
            assert(parts_at(a, b, 0));
        }
        if exists|k: int| #[trigger] parts_at(a, b, k) {
            let k = choose|k: int| #[trigger] parts_at(a, b, k);
            if k > 0 {
                assert(a.take(k)[0] == b.take(k)[0]);
            }
        }
    } else {
        let (c, d) = (a.skip(1), b.skip(1));
        texts_are_ordered_by_their_first_difference(c, d);
        if text_before(a, b) {
            let k = choose|k: int| #[trigger] parts_at(c, d, k);
            assert(a.take(k + 1) =~= seq![a[0]] + c.take(k));
            assert(b.take(k + 1) =~= seq![b[0]] + d.take(k));
            assert(parts_at(a, b, k + 1));
        }
        if exists|k: int| #[trigger] parts_at(a, b, k) {
            let k = choose|k: int| #[trigger] parts_at(a, b, k);
            if k == 0 {
                assert(a[0] == b[0]);
            } else {
                assert(c.take(k - 1) =~= a.take(k).skip(1));
                assert(d.take(k - 1) =~= b.take(k).skip(1));
                assert(parts_at(c, d, k - 1));
            }
        }
    }
}

} // verus!
