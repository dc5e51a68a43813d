//! Kill and death statistics: the rows of an exported table are counted by player and by
//! guild, and the counts are ranked.

use vstd::prelude::*;
use crate::export::{
    event_name, event_row, event_table, player_label, write_player_label, CsvLayout, EventView,
};
use crate::rank::{
    comes_before, is_not_behind, is_order, place_for, sorted_by, sorting_orders, text_before,
    texts_are_ordered,
};
use crate::records::{fields_view, records_view, rows_read};
use crate::search::{first_from, first_from_is_least, last_below};
use crate::text::{ascii_lowercase, is_ascii_text, lower, lowered, same_text, trim, trimmed};

verus! {

/// How often a player killed and died.
#[derive(Debug, Clone, Copy, PartialEq, Eq, Structural, Default)]
pub struct PlayerStats {
    pub kills: u32,
    pub deaths: u32,
}

/// How often the players of a guild killed and died.
#[derive(Debug, Clone, Copy, PartialEq, Eq, Structural, Default)]
pub struct GuildStats {
    pub kills: u32,
    pub deaths: u32,
}

/// One row of a table of events: whether an ally died of an enemy or killed them.
pub struct Matchup {
    pub is_death: bool,
    pub guild: String,
    pub ally: String,
    pub enemy: String,
}

/// One row of a table of events, by value.
pub struct MatchupView {
    pub is_death: bool,
    pub guild: Seq<char>,
    pub ally: Seq<char>,
    pub enemy: Seq<char>,
}

impl View for Matchup {
    type V = MatchupView;

    open spec fn view(&self) -> MatchupView {
        MatchupView {
            is_death: self.is_death,
            guild: self.guild@,
            ally: self.ally@,
            enemy: self.enemy@,
        }
    }
}

/// Rows of a table of events, by value.
pub open spec fn matchups_view(matchups: Seq<Matchup>) -> Seq<MatchupView> {
    Seq::new(matchups.len(), |i: int| matchups[i]@)
}

/// A guild's name, and a stand-in for none.
pub open spec fn guild_key(guild: Seq<char>) -> Seq<char> {
    if trimmed(guild).len() == 0 {
        "No Guild"@
    } else {
        guild
    }
}

/// What a record says. One of five fields holds the guild and the two players behind the
/// time and the event; one of six or more holds the friendly family and character, the
/// guild and the enemy. A shorter one says nothing.
pub open spec fn matchup_of(record: Seq<Seq<char>>) -> Option<MatchupView> {
    if record.len() < 5 {
        None
    } else if record.len() == 5 {
        Some(
            MatchupView {
                is_death: lowered(record[1]) == "death"@,
                guild: guild_key(record[2]),
                ally: record[3],
                enemy: record[4],
            },
        )
    } else {
        Some(
            MatchupView {
                is_death: lowered(record[1]) == "death"@,
                guild: guild_key(record[4]),
                ally: player_label(trimmed(record[2]), trimmed(record[3])),
                enemy: record[5],
            },
        )
    }
}

/// What records say, in their order.
pub open spec fn matchups_of(records: Seq<Option<Seq<Seq<char>>>>) -> Seq<MatchupView>
    decreases records.len(),
{
    if records.len() == 0 {
        seq![]
    } else {
        let rest = matchups_of(records.drop_last());
        match records.last() {
            Some(record) => match matchup_of(record) {
                Some(m) => rest.push(m),
                None => rest,
            },
            None => rest,
        }
    }
}

/// A guild's name, and a stand-in for none.
fn key_of_guild(guild: &str) -> (r: String)
    ensures
        r@ == guild_key(guild@),
{
    let inner = trim(guild);
    if inner.as_str().unicode_len() == 0 {
        "No Guild".to_owned()
    } else {
        guild.to_owned()
    }
}

/// Reads what a record says.
pub fn read_matchup(record: &Vec<String>) -> (r: Option<Matchup>)
    ensures
        match r {
            Some(m) => matchup_of(fields_view(record@)) == Some(m@),
            None => matchup_of(fields_view(record@)) is None,
        },
{
    assert(fields_view(record@).len() == record@.len());
    if record.len() < 5 {
        return None;
    }
    let called = lower(record[1].as_str());
    let is_death = same_text(called.as_str(), "death");
    if record.len() == 5 {
        Some(
            Matchup {
                is_death,
                guild: key_of_guild(record[2].as_str()),
                ally: record[3].as_str().to_owned(),
                enemy: record[4].as_str().to_owned(),
            },
        )
    } else {
        let family = trim(record[2].as_str());
        let character = trim(record[3].as_str());
        Some(
            Matchup {
                is_death,
                guild: key_of_guild(record[4].as_str()),
                ally: write_player_label(family.as_str(), character.as_str()),
                enemy: record[5].as_str().to_owned(),
            },
        )
    }
}

/// Reads what records say. Those that could not be read are passed over.
pub fn read_matchups(records: &Vec<Option<Vec<String>>>) -> (r: Vec<Matchup>)
    ensures
        matchups_view(r@) == matchups_of(records_view(records@)),
        r@.len() <= records@.len(),
{
    let ghost all = records_view(records@);
    let mut out: Vec<Matchup> = Vec::new();
    let mut i: usize = 0;
    assert(matchups_view(out@) =~= matchups_of(all.take(0)));
    while i < records.len()
        invariant
            i <= records.len(),
            out@.len() <= i,
            all == records_view(records@),
            matchups_view(out@) == matchups_of(all.take(i as int)),
        decreases records.len() - i,
    {
        let ghost before = out@;
        proof {
            assert(all.take(i + 1).drop_last() =~= all.take(i as int));
            assert(all.take(i + 1).last() == all[i as int]);
        }
        match &records[i] {
            Some(record) => {
                match read_matchup(record) {
                    Some(m) => {
                        out.push(m);
                        assert(matchups_view(out@) =~= matchups_view(before).push(m@));
                    },
                    None => {},
                }
            },
            None => {},
        }
        i = i + 1;
    }
    assert(all.take(i as int) =~= all);
    out
}

/// A kill or a death that counts for someone, by value.
pub struct Score {
    pub name: Seq<char>,
    pub is_kill: bool,
}

/// What counts for the allies: a row is a kill or a death of its ally.
pub open spec fn ally_scores(matchups: Seq<MatchupView>) -> Seq<Score> {
    Seq::new(
        matchups.len(),
        |i: int| Score { name: matchups[i].ally, is_kill: !matchups[i].is_death },
    )
}

/// What counts for the enemy guilds: an ally's death is a kill of the guild.
pub open spec fn guild_scores(matchups: Seq<MatchupView>) -> Seq<Score> {
    Seq::new(
        matchups.len(),
        |i: int| Score { name: matchups[i].guild, is_kill: matchups[i].is_death },
    )
}

/// What counts for the enemies of one guild.
pub open spec fn enemy_scores(matchups: Seq<MatchupView>, guild: Seq<char>) -> Seq<Score>
    decreases matchups.len(),
{
    if matchups.len() == 0 {
        seq![]
    } else {
        let rest = enemy_scores(matchups.drop_last(), guild);
        let m = matchups.last();
        if m.guild == guild {
            rest.push(Score { name: m.enemy, is_kill: m.is_death })
        } else {
            rest
        }
    }
}

/// A name with its counts, by value.
pub type Standing = (Seq<char>, PlayerStats);

/// Whether the entry at an index is for a name.
pub open spec fn is_of(standings: Seq<Standing>, name: Seq<char>) -> spec_fn(int) -> bool {
    |i: int| standings[i].0 == name
}

/// Counts with one more kill or death.
pub open spec fn scored(stats: PlayerStats, is_kill: bool) -> PlayerStats {
    if is_kill {
        PlayerStats { kills: (stats.kills + 1) as u32, deaths: stats.deaths }
    } else {
        PlayerStats { kills: stats.kills, deaths: (stats.deaths + 1) as u32 }
    }
}

/// The counts with one more score: in the entry for its name, or in a new last entry.
pub open spec fn with_score(standings: Seq<Standing>, score: Score) -> Seq<Standing> {
    match first_from(is_of(standings, score.name), 0, standings.len() as int) {
        Some(i) => standings.update(i, (score.name, scored(standings[i].1, score.is_kill))),
        None => standings.push(
            (score.name, scored(PlayerStats { kills: 0, deaths: 0 }, score.is_kill)),
        ),
    }
}

/// The counts of all names, in the order in which the names come up.
pub open spec fn tally(scores: Seq<Score>) -> Seq<Standing>
    decreases scores.len(),
{
    if scores.len() == 0 {
        seq![]
    } else {
        with_score(tally(scores.drop_last()), scores.last())
    }
}

/// How many scores are kills, or deaths, of a name.
pub open spec fn score_count(scores: Seq<Score>, name: Seq<char>, is_kill: bool) -> nat
    decreases scores.len(),
{
    if scores.len() == 0 {
        0
    } else {
        score_count(scores.drop_last(), name, is_kill) + if scores.last() == (Score {
            name,
            is_kill,
        }) {
            1nat
        } else {
            0
        }
    }
}

/// How many of the scores are kills, or deaths.
pub open spec fn kind_count(scores: Seq<Score>, is_kill: bool) -> nat
    decreases scores.len(),
{
    if scores.len() == 0 {
        0
    } else {
        kind_count(scores.drop_last(), is_kill) + if scores.last().is_kill == is_kill {
            1nat
        } else {
            0
        }
    }
}

/// Whether there are no more kills, and no more deaths, than a count can hold.
pub open spec fn can_be_counted(scores: Seq<Score>) -> bool {
    kind_count(scores, true) <= u32::MAX && kind_count(scores, false) <= u32::MAX
}

/// Whether the counts are those of the scores: each name that comes up has one entry, which
/// says how often it killed and died, and no other name has one.
pub open spec fn counts_scores(scores: Seq<Score>, standings: Seq<Standing>) -> bool {
    &&& forall|i: int|
        0 <= i < standings.len() ==> {
            &&& (#[trigger] standings[i]).1.kills == score_count(scores, standings[i].0, true)
            &&& standings[i].1.deaths == score_count(scores, standings[i].0, false)
            &&& standings[i].1.kills > 0 || standings[i].1.deaths > 0
        }
    &&& forall|i: int, j: int|
        0 <= i < j < standings.len() ==> (#[trigger] standings[i]).0 != (
        #[trigger] standings[j]).0
    &&& forall|k: int|
        0 <= k < scores.len() ==> is_listed(standings, (#[trigger] scores[k]).name)
}

/// Whether a name has an entry.
pub open spec fn is_listed(standings: Seq<Standing>, name: Seq<char>) -> bool {
    exists|i: int| 0 <= i < standings.len() && (#[trigger] standings[i]).0 == name
}

/// A name kills, or dies, at most as often as all do.
pub proof fn score_count_is_bounded(scores: Seq<Score>, name: Seq<char>, is_kill: bool)
    ensures
        score_count(scores, name, is_kill) <= kind_count(scores, is_kill),
    decreases scores.len(),
{
    if scores.len() > 0 {
        score_count_is_bounded(scores.drop_last(), name, is_kill);
    }
}

/// A name that does not come up is counted zero times.
proof fn absent_name_is_not_counted(scores: Seq<Score>, name: Seq<char>, is_kill: bool)
    requires
        forall|k: int| 0 <= k < scores.len() ==> (#[trigger] scores[k]).name != name,
    ensures
        score_count(scores, name, is_kill) == 0,
    decreases scores.len(),
{
    if scores.len() > 0 {
        let rest = scores.drop_last();
        assert forall|k: int| 0 <= k < rest.len() implies (#[trigger] rest[k]).name != name by {
            assert(rest[k] == scores[k]);
        }
        absent_name_is_not_counted(rest, name, is_kill);
        assert(scores[scores.len() - 1].name != name);
    }
}

/// The counts are those of the rows: each name is listed once, with as many kills and
/// deaths as there are rows that say so.
pub proof fn tally_counts_the_rows(scores: Seq<Score>)
    requires
        can_be_counted(scores),
    ensures
        counts_scores(scores, tally(scores)),
        tally(scores).len() <= scores.len(),
    decreases scores.len(),
{
    if scores.len() > 0 {
        let rest = scores.drop_last();
        let score = scores.last();
        let before = tally(rest);
        let after = tally(scores);
        tally_counts_the_rows(rest);
        let p = is_of(before, score.name);
        let n = before.len() as int;
        first_from_is_least(p, 0, n);
        score_count_is_bounded(rest, score.name, true);
        score_count_is_bounded(rest, score.name, false);
        match first_from(p, 0, n) {
            Some(at) => {
                assert(p(at));
                assert forall|i: int| 0 <= i < after.len() implies (#[trigger] after[i]).1.kills
                    == score_count(scores, after[i].0, true) && after[i].1.deaths == score_count(
                    scores,
                    after[i].0,
                    false,
                ) && (after[i].1.kills > 0 || after[i].1.deaths > 0) by {
                    assert(before[i].1.kills == score_count(rest, before[i].0, true));
                    if i != at {
                        if i < at {
                            assert(before[i].0 != before[at].0);
                        } else {
                            assert(before[at].0 != before[i].0);
                        }
                    }
                }
                assert forall|i: int, j: int| 0 <= i < j < after.len() implies (
                #[trigger] after[i]).0 != (#[trigger] after[j]).0 by {
                    assert(before[i].0 != before[j].0);
                }
                assert forall|k: int| 0 <= k < scores.len() implies is_listed(
                    after,
                    (#[trigger] scores[k]).name,
                ) by {
                    if k < rest.len() {
                        assert(rest[k] == scores[k]);
                        assert(is_listed(before, rest[k].name));
                        let i = choose|i: int|
                            0 <= i < before.len() && (#[trigger] before[i]).0 == rest[k].name;
                        assert(after[i].0 == scores[k].name);
                    } else {
                        assert(after[at].0 == score.name);
                    }
                }
            },
            None => {
                assert forall|k: int| 0 <= k < rest.len() implies (#[trigger] rest[k]).name
                    != score.name by {
                    assert(is_listed(before, rest[k].name));
                    let i = choose|i: int|
                        0 <= i < before.len() && (#[trigger] before[i]).0 == rest[k].name;
                    assert(!p(i));
                }
                absent_name_is_not_counted(rest, score.name, true);
                absent_name_is_not_counted(rest, score.name, false);
                assert forall|i: int| 0 <= i < after.len() implies (#[trigger] after[i]).1.kills
                    == score_count(scores, after[i].0, true) && after[i].1.deaths == score_count(
                    scores,
                    after[i].0,
                    false,
                ) && (after[i].1.kills > 0 || after[i].1.deaths > 0) by {
                    if i < n {
                        assert(after[i] == before[i]);
                        assert(!p(i));
                    }
                }
                assert forall|i: int, j: int| 0 <= i < j < after.len() implies (
                #[trigger] after[i]).0 != (#[trigger] after[j]).0 by {
                    assert(after[i] == before[i]);
                    assert(!p(i));
                    if j < n {
                        assert(after[j] == before[j]);
                    }
                }
                assert forall|k: int| 0 <= k < scores.len() implies is_listed(
                    after,
                    (#[trigger] scores[k]).name,
                ) by {
                    if k < rest.len() {
                        assert(rest[k] == scores[k]);
                        assert(is_listed(before, rest[k].name));
                        let i = choose|i: int|
                            0 <= i < before.len() && (#[trigger] before[i]).0 == rest[k].name;
                        assert(after[i].0 == scores[k].name);
                    } else {
                        assert(after[n].0 == score.name);
                    }
                }
            },
        }
    }
}

/// No count is greater than that of all kills, or of all deaths.
proof fn tally_is_bounded(scores: Seq<Score>)
    requires
        can_be_counted(scores),
    ensures
        forall|i: int|
            0 <= i < tally(scores).len() ==> (#[trigger] tally(scores)[i]).1.kills <= kind_count(
                scores,
                true,
            ) && tally(scores)[i].1.deaths <= kind_count(scores, false),
{
    tally_counts_the_rows(scores);
    assert forall|i: int| 0 <= i < tally(scores).len() implies (
    #[trigger] tally(scores)[i]).1.kills <= kind_count(scores, true) && tally(scores)[i].1.deaths
        <= kind_count(scores, false) by {
        score_count_is_bounded(scores, tally(scores)[i].0, true);
        score_count_is_bounded(scores, tally(scores)[i].0, false);
    }
}

/// The first scores hold no more kills, and no more deaths, than all do.
proof fn kind_count_grows(scores: Seq<Score>, i: int)
    requires
        0 <= i <= scores.len(),
    ensures
        kind_count(scores.take(i), true) <= kind_count(scores, true),
        kind_count(scores.take(i), false) <= kind_count(scores, false),
    decreases scores.len(),
{
    if i < scores.len() {
        kind_count_grows(scores.drop_last(), i);
        assert(scores.drop_last().take(i) =~= scores.take(i));
    } else {
        assert(scores.take(i) =~= scores);
    }
}

/// Every kill of an ally is a death in an enemy guild, and every death a kill.
pub proof fn scores_mirror_each_other(matchups: Seq<MatchupView>)
    ensures
        kind_count(ally_scores(matchups), true) == kind_count(guild_scores(matchups), false),
        kind_count(ally_scores(matchups), false) == kind_count(guild_scores(matchups), true),
    decreases matchups.len(),
{
    if matchups.len() > 0 {
        scores_mirror_each_other(matchups.drop_last());
        assert(ally_scores(matchups).drop_last() =~= ally_scores(matchups.drop_last()));
        assert(guild_scores(matchups).drop_last() =~= guild_scores(matchups.drop_last()));
    }
}

/// The kills and deaths in one guild are those that count for the guild.
pub proof fn enemy_scores_are_of_the_guild(matchups: Seq<MatchupView>, guild: Seq<char>)
    ensures
        kind_count(enemy_scores(matchups, guild), true) == score_count(
            guild_scores(matchups),
            guild,
            true,
        ),
        kind_count(enemy_scores(matchups, guild), false) == score_count(
            guild_scores(matchups),
            guild,
            false,
        ),
    decreases matchups.len(),
{
    if matchups.len() > 0 {
        let rest = matchups.drop_last();
        let m = matchups.last();
        enemy_scores_are_of_the_guild(rest, guild);
        assert(guild_scores(matchups).drop_last() =~= guild_scores(rest));
        assert(guild_scores(matchups).last() == (Score { name: m.guild, is_kill: m.is_death }));
        if m.guild == guild {
            assert(enemy_scores(matchups, guild).drop_last() =~= enemy_scores(rest, guild));
        }
    }
}

/// Whether the kills and the deaths in a table of events can each be counted.
pub open spec fn is_countable(matchups: Seq<MatchupView>) -> bool {
    can_be_counted(ally_scores(matchups))
}

/// What can be counted for the allies can be counted for the guilds, and for the enemies of
/// each.
pub proof fn enemies_can_be_counted(matchups: Seq<MatchupView>, guild: Seq<char>)
    requires
        is_countable(matchups),
    ensures
        can_be_counted(guild_scores(matchups)),
        can_be_counted(enemy_scores(matchups, guild)),
{
    scores_mirror_each_other(matchups);
    enemy_scores_are_of_the_guild(matchups, guild);
    score_count_is_bounded(guild_scores(matchups), guild, true);
    score_count_is_bounded(guild_scores(matchups), guild, false);
}

/// The first rows of a table that can be counted can be counted.
proof fn first_rows_can_be_counted(matchups: Seq<MatchupView>, i: int)
    requires
        is_countable(matchups),
        0 <= i <= matchups.len(),
    ensures
        is_countable(matchups.take(i)),
{
    kind_count_grows(ally_scores(matchups), i);
    assert(ally_scores(matchups).take(i) =~= ally_scores(matchups.take(i)));
}

/// Names with their counts, by value.
pub open spec fn standings_view(standings: Seq<(String, PlayerStats)>) -> Seq<Standing> {
    Seq::new(standings.len(), |i: int| (standings[i].0@, standings[i].1))
}

/// Whether the count of kills, or of deaths, can grow in every entry.
spec fn can_grow(standings: Seq<(String, PlayerStats)>, is_kill: bool) -> bool {
    forall|i: int|
        0 <= i < standings.len() ==> if is_kill {
            (#[trigger] standings[i]).1.kills < u32::MAX
        } else {
            standings[i].1.deaths < u32::MAX
        }
}

/// Adds a kill or a death to the counts.
fn add_score(standings: &mut Vec<(String, PlayerStats)>, name: &String, is_kill: bool)
    requires
        can_grow(old(standings)@, is_kill),
    ensures
        standings_view(final(standings)@) == with_score(
            standings_view(old(standings)@),
            (Score { name: name@, is_kill }),
        ),
{
    let ghost before = standings_view(standings@);
    let ghost p = is_of(before, name@);
    let ghost n = before.len() as int;
    let mut i: usize = 0;
    while i < standings.len()
        invariant
            i <= standings.len(),
            standings@ == old(standings)@,
            before == standings_view(standings@),
            n == before.len(),
            p == is_of(before, name@),
            first_from(p, 0, n) == first_from(p, i as int, n),
            can_grow(standings@, is_kill),
        decreases standings.len() - i,
    {
        if standings[i].0 == *name {
            assert(p(i as int));
            let stats = standings[i].1;
            let now = if is_kill {
                PlayerStats { kills: stats.kills + 1, deaths: stats.deaths }
            } else {
                PlayerStats { kills: stats.kills, deaths: stats.deaths + 1 }
            };
            standings.set(i, (name.as_str().to_owned(), now));
            assert(standings_view(standings@) =~= before.update(i as int, (name@, now)));
            return ;
        }
        assert(!p(i as int));
        i = i + 1;
    }
    let first = if is_kill {
        PlayerStats { kills: 1, deaths: 0 }
    } else {
        PlayerStats { kills: 0, deaths: 1 }
    };
    standings.push((name.as_str().to_owned(), first));
    assert(standings_view(standings@) =~= before.push((name@, first)));
}

/// Counts the kills and deaths of the allies.
pub fn tally_allies(matchups: &[Matchup]) -> (r: Vec<(String, PlayerStats)>)
    requires
        is_countable(matchups_view(matchups@)),
    ensures
        standings_view(r@) == tally(ally_scores(matchups_view(matchups@))),
{
    let ghost all = matchups_view(matchups@);
    let mut out: Vec<(String, PlayerStats)> = Vec::new();
    let mut i: usize = 0;
    assert(standings_view(out@) =~= tally(ally_scores(all.take(0))));
    while i < matchups.len()
        invariant
            i <= matchups.len(),
            all == matchups_view(matchups@),
            is_countable(all),
            standings_view(out@) == tally(ally_scores(all.take(i as int))),
        decreases matchups.len() - i,
    {
        let m = &matchups[i];
        proof {
            let now = ally_scores(all.take(i + 1));
            assert(now.drop_last() =~= ally_scores(all.take(i as int)));
            assert(now.last() == (Score { name: m.ally@, is_kill: !m.is_death }));
            first_rows_can_be_counted(all, i + 1);
            counts_can_grow(out@, now);
        }
        add_score(&mut out, &m.ally, !m.is_death);
        i = i + 1;
    }
    assert(all.take(i as int) =~= all);
    out
}

/// Counts the kills and deaths of the enemy guilds.
pub fn tally_guilds(matchups: &[Matchup]) -> (r: Vec<(String, PlayerStats)>)
    requires
        is_countable(matchups_view(matchups@)),
    ensures
        standings_view(r@) == tally(guild_scores(matchups_view(matchups@))),
{
    let ghost all = matchups_view(matchups@);
    let mut out: Vec<(String, PlayerStats)> = Vec::new();
    let mut i: usize = 0;
    assert(standings_view(out@) =~= tally(guild_scores(all.take(0))));
    while i < matchups.len()
        invariant
            i <= matchups.len(),
            all == matchups_view(matchups@),
            is_countable(all),
            standings_view(out@) == tally(guild_scores(all.take(i as int))),
        decreases matchups.len() - i,
    {
        let m = &matchups[i];
        proof {
            let now = guild_scores(all.take(i + 1));
            assert(now.drop_last() =~= guild_scores(all.take(i as int)));
            assert(now.last() == (Score { name: m.guild@, is_kill: m.is_death }));
            first_rows_can_be_counted(all, i + 1);
            enemies_can_be_counted(all.take(i + 1), m.guild@);
            counts_can_grow(out@, now);
        }
        add_score(&mut out, &m.guild, m.is_death);
        i = i + 1;
    }
    assert(all.take(i as int) =~= all);
    out
}

/// Counts the kills and deaths of the enemies of one guild.
pub fn tally_enemies(matchups: &[Matchup], guild: &String) -> (r: Vec<(String, PlayerStats)>)
    requires
        is_countable(matchups_view(matchups@)),
    ensures
        standings_view(r@) == tally(enemy_scores(matchups_view(matchups@), guild@)),
{
    let ghost all = matchups_view(matchups@);
    let mut out: Vec<(String, PlayerStats)> = Vec::new();
    let mut i: usize = 0;
    assert(standings_view(out@) =~= tally(enemy_scores(all.take(0), guild@)));
    while i < matchups.len()
        invariant
            i <= matchups.len(),
            all == matchups_view(matchups@),
            is_countable(all),
            standings_view(out@) == tally(enemy_scores(all.take(i as int), guild@)),
        decreases matchups.len() - i,
    {
        let m = &matchups[i];
        proof {
            assert(all.take(i + 1).drop_last() =~= all.take(i as int));
            assert(all.take(i + 1).last() == m@);
        }
        if m.guild == *guild {
            proof {
                let before = enemy_scores(all.take(i as int), guild@);
                let now = enemy_scores(all.take(i + 1), guild@);
                assert(now.drop_last() =~= before);
                first_rows_can_be_counted(all, i + 1);
                enemies_can_be_counted(all.take(i + 1), guild@);
                counts_can_grow(out@, now);
            }
            add_score(&mut out, &m.enemy, m.is_death);
        }
        i = i + 1;
    }
    assert(all.take(i as int) =~= all);
    out
}

/// Where all scores can be counted, the count for the last of them can grow before it.
proof fn counts_can_grow(standings: Seq<(String, PlayerStats)>, scores: Seq<Score>)
    requires
        scores.len() > 0,
        standings_view(standings) == tally(scores.drop_last()),
        can_be_counted(scores),
    ensures
        can_grow(standings, scores.last().is_kill),
{
    let rest = scores.drop_last();
    tally_is_bounded(rest);
    assert forall|i: int| 0 <= i < standings.len() implies if scores.last().is_kill {
        (#[trigger] standings[i]).1.kills < u32::MAX
    } else {
        standings[i].1.deaths < u32::MAX
    } by {
        assert(standings_view(standings)[i] == tally(rest)[i]);
    }
}

/// The order of a ranking: more kills come first.
pub open spec fn by_kills() -> spec_fn(Standing, Standing) -> bool {
    |x: Standing, y: Standing| x.1.kills > y.1.kills
}

/// The order of names.
pub open spec fn by_name() -> spec_fn(Standing, Standing) -> bool {
    |x: Standing, y: Standing| text_before(x.0, y.0)
}

/// A copy of an entry.
fn copy_standing(s: &(String, PlayerStats)) -> (r: (String, PlayerStats))
    ensures
        r.0@ == s.0@,
        r.1 == s.1,
{
    (s.0.as_str().to_owned(), s.1)
}

/// Ranks names by their kills. Those with as many keep their order.
pub fn rank_by_kills(standings: &Vec<(String, PlayerStats)>) -> (r: Vec<(String, PlayerStats)>)
    ensures
        standings_view(r@) == sorted_by(standings_view(standings@), by_kills()),
        r@.len() == standings@.len(),
{
    let ghost all = standings_view(standings@);
    let mut out: Vec<(String, PlayerStats)> = Vec::new();
    let mut i: usize = 0;
    assert(standings_view(out@) =~= sorted_by(all.take(0), by_kills()));
    while i < standings.len()
        invariant
            i <= standings.len(),
            all == standings_view(standings@),
            out@.len() == i,
            standings_view(out@) == sorted_by(all.take(i as int), by_kills()),
        decreases standings.len() - i,
    {
        let ghost rest = standings_view(out@);
        let ghost x = all[i as int];
        let ghost q = is_not_behind(rest, by_kills(), x);
        let kills: u32 = standings[i].1.kills;
        let mut k: usize = out.len();
        while k > 0 && out[k - 1].1.kills < kills
            invariant
                k <= out.len(),
                rest == standings_view(out@),
                kills == x.1.kills,
                q == is_not_behind(rest, by_kills(), x),
                last_below(q, rest.len() as int) == last_below(q, k as int),
            decreases k,
        {
            assert(rest[k - 1] == (out@[k - 1].0@, out@[k - 1].1));
            assert(!q(k - 1));
            k = k - 1;
        }
        proof {
            if k > 0 {
                assert(rest[k - 1] == (out@[k - 1].0@, out@[k - 1].1));
                assert(q(k - 1));
            }
            assert(place_for(rest, by_kills(), x) == k);
            assert(all.take(i + 1).drop_last() =~= all.take(i as int));
            assert(all.take(i + 1).last() == x);
        }
        out.insert(k, copy_standing(&standings[i]));
        assert(standings_view(out@) =~= rest.insert(k as int, x));
        i = i + 1;
    }
    assert(all.take(i as int) =~= all);
    out
}

/// Sorts names with their counts by name.
pub fn sort_by_name(standings: &Vec<(String, PlayerStats)>) -> (r: Vec<(String, PlayerStats)>)
    ensures
        standings_view(r@) == sorted_by(standings_view(standings@), by_name()),
        r@.len() == standings@.len(),
{
    let ghost all = standings_view(standings@);
    let mut out: Vec<(String, PlayerStats)> = Vec::new();
    let mut i: usize = 0;
    assert(standings_view(out@) =~= sorted_by(all.take(0), by_name()));
    while i < standings.len()
        invariant
            i <= standings.len(),
            all == standings_view(standings@),
            out@.len() == i,
            standings_view(out@) == sorted_by(all.take(i as int), by_name()),
        decreases standings.len() - i,
    {
        let ghost rest = standings_view(out@);
        let ghost x = all[i as int];
        let ghost q = is_not_behind(rest, by_name(), x);
        let name = standings[i].0.as_str();
        let mut k: usize = out.len();
        while k > 0 && comes_before(name, out[k - 1].0.as_str())
            invariant
                k <= out.len(),
                rest == standings_view(out@),
                name@ == x.0,
                q == is_not_behind(rest, by_name(), x),
                last_below(q, rest.len() as int) == last_below(q, k as int),
            decreases k,
        {
            assert(rest[k - 1] == (out@[k - 1].0@, out@[k - 1].1));
            assert(!q(k - 1));
            k = k - 1;
        }
        proof {
            if k > 0 {
                assert(rest[k - 1] == (out@[k - 1].0@, out@[k - 1].1));
                assert(q(k - 1));
            }
            assert(place_for(rest, by_name(), x) == k);
            assert(all.take(i + 1).drop_last() =~= all.take(i as int));
            assert(all.take(i + 1).last() == x);
        }
        out.insert(k, copy_standing(&standings[i]));
        assert(standings_view(out@) =~= rest.insert(k as int, x));
        i = i + 1;
    }
    assert(all.take(i as int) =~= all);
    out
}

/// A ranking is in order, and holds what was ranked.
pub proof fn ranking_is_ordered(standings: Seq<Standing>)
    ensures
        forall|i: int, j: int|
            0 <= i < j < sorted_by(standings, by_kills()).len() ==> (
            #[trigger] sorted_by(standings, by_kills())[i]).1.kills >= (
            #[trigger] sorted_by(standings, by_kills())[j]).1.kills,
        sorted_by(standings, by_kills()).to_multiset() == standings.to_multiset(),
        sorted_by(standings, by_kills()).len() == standings.len(),
{
    let precedes = by_kills();
    assert(is_order(precedes));
    sorting_orders(standings, precedes);
    let r = sorted_by(standings, precedes);
    assert forall|i: int, j: int| 0 <= i < j < r.len() implies (#[trigger] r[i]).1.kills >= (
    #[trigger] r[j]).1.kills by {
        assert(!precedes(r[j], r[i]));
    }
}

/// What is sorted by name is in order, and holds what was sorted.
pub proof fn names_are_sorted(standings: Seq<Standing>)
    ensures
        forall|i: int, j: int|
            0 <= i < j < sorted_by(standings, by_name()).len() ==> !text_before(
                (#[trigger] sorted_by(standings, by_name())[j]).0,
                (#[trigger] sorted_by(standings, by_name())[i]).0,
            ),
        sorted_by(standings, by_name()).to_multiset() == standings.to_multiset(),
        sorted_by(standings, by_name()).len() == standings.len(),
{
    let precedes = by_name();
    texts_are_ordered();
    let texts = |a: Seq<char>, b: Seq<char>| text_before(a, b);
    assert forall|x: Standing, y: Standing| #[trigger] precedes(x, y) implies !precedes(y, x) by {
        assert(texts(x.0, y.0));
    }
    assert forall|x: Standing, y: Standing, z: Standing| #[trigger]
        precedes(x, z) implies #[trigger] precedes(x, y) || precedes(y, z) by {
        assert(texts(x.0, z.0));
        assert(texts(x.0, y.0) || texts(y.0, z.0));
    }
    sorting_orders(standings, precedes);
    let r = sorted_by(standings, precedes);
    assert forall|i: int, j: int| 0 <= i < j < r.len() implies !text_before(
        (#[trigger] r[j]).0,
        (#[trigger] r[i]).0,
    ) by {
        assert(!precedes(r[j], r[i]));
    }
}

/// What an event counts as.
pub open spec fn matchup_of_event(e: EventView) -> MatchupView {
    MatchupView {
        is_death: e.is_death,
        guild: guild_key(e.enemy_guild),
        ally: player_label(trimmed(e.friendly_family), trimmed(e.friendly_char)),
        enemy: e.enemy_name,
    }
}

/// What events count as.
pub open spec fn matchups_of_events(events: Seq<EventView>) -> Seq<MatchupView> {
    Seq::new(events.len(), |i: int| matchup_of_event(events[i]))
}

/// What an event is called tells a death from a kill.
proof fn event_name_is_understood(is_death: bool)
    ensures
        (lowered(event_name(is_death)) == "death"@) == is_death,
{
    reveal_strlit("Death");
    reveal_strlit("Kill");
    reveal_strlit("death");
    let name = event_name(is_death);
    assert(is_ascii_text(name));
    if is_death {
        assert(ascii_lowercase(name) =~= "death"@);
    } else {
        assert(ascii_lowercase(name).len() != "death"@.len());
    }
}

/// Each exported event counts as what it is, in either layout: the rows of the table say
/// of every event, once and in order, who killed whom.
pub proof fn exported_events_are_counted(layout: CsvLayout, events: Seq<EventView>)
    ensures
        matchups_of(rows_read(event_table(layout, events))) == matchups_of_events(events),
    decreases events.len(),
{
    let rows = rows_read(event_table(layout, events));
    if events.len() == 0 {
        assert(matchups_of(rows) =~= matchups_of_events(events));
    } else {
        let rest = events.drop_last();
        let e = events.last();
        exported_events_are_counted(layout, rest);
        assert(rows.drop_last() =~= rows_read(event_table(layout, rest)));
        assert(rows.last() == Some(event_row(layout, e)));
        event_name_is_understood(e.is_death);
        assert(matchup_of(event_row(layout, e)) == Some(matchup_of_event(e)));
        assert(matchups_of(rows) =~= matchups_of_events(events));
    }
}

/// Counts in another order are still the counts of the scores.
proof fn reordered_counts(scores: Seq<Score>, before: Seq<Standing>, after: Seq<Standing>)
    requires
        counts_scores(scores, before),
        after.to_multiset() == before.to_multiset(),
    ensures
        counts_scores(scores, after),
{
    before.to_multiset_ensures();
    after.to_multiset_ensures();
    assert forall|i: int, j: int|
        0 <= i < before.len() && 0 <= j < before.len() && i != j implies before[i] != before[j] by {
        if i < j {
            assert(before[i].0 != before[j].0);
        } else {
            assert(before[j].0 != before[i].0);
        }
    }
    before.lemma_multiset_has_no_duplicates();
    after.lemma_multiset_has_no_duplicates_conv();
    assert forall|i: int| 0 <= i < after.len() implies before.contains(#[trigger] after[i]) by {
        assert(after.contains(after[i]));
        assert(before.to_multiset().count(after[i]) > 0);
    }
    assert forall|i: int| 0 <= i < after.len() implies {
        &&& (#[trigger] after[i]).1.kills == score_count(scores, after[i].0, true)
        &&& after[i].1.deaths == score_count(scores, after[i].0, false)
        &&& after[i].1.kills > 0 || after[i].1.deaths > 0
    } by {
        assert(before.contains(after[i]));
        let a = choose|a: int| 0 <= a < before.len() && before[a] == after[i];
        assert(before[a].1.kills == score_count(scores, before[a].0, true));
    }
    assert forall|i: int, j: int| 0 <= i < j < after.len() implies (#[trigger] after[i]).0 != (
    #[trigger] after[j]).0 by {
        assert(after[i] != after[j]);
        assert(before.contains(after[i]) && before.contains(after[j]));
        let a = choose|a: int| 0 <= a < before.len() && before[a] == after[i];
        let b = choose|b: int| 0 <= b < before.len() && before[b] == after[j];
        if a < b {
            assert(before[a].0 != before[b].0);
        } else {
            assert(before[b].0 != before[a].0);
        }
    }
    assert forall|k: int| 0 <= k < scores.len() implies is_listed(
        after,
        (#[trigger] scores[k]).name,
    ) by {
        assert(is_listed(before, scores[k].name));
        let i = choose|i: int| 0 <= i < before.len() && (#[trigger] before[i]).0 == scores[k].name;
        assert(before.contains(before[i]));
        assert(after.to_multiset().count(before[i]) > 0);
        assert(after.contains(before[i]));
        let m = choose|m: int| 0 <= m < after.len() && after[m] == before[i];
        assert(after[m].0 == scores[k].name);
    }
}

/// A ranking lists everyone once, with as many kills and deaths as there are rows that say
/// so.
pub proof fn ranking_counts_the_rows(scores: Seq<Score>)
    requires
        can_be_counted(scores),
    ensures
        counts_scores(scores, sorted_by(tally(scores), by_kills())),
        counts_scores(scores, sorted_by(tally(scores), by_name())),
{
    tally_counts_the_rows(scores);
    ranking_is_ordered(tally(scores));
    names_are_sorted(tally(scores));
    reordered_counts(scores, tally(scores), sorted_by(tally(scores), by_kills()));
    reordered_counts(scores, tally(scores), sorted_by(tally(scores), by_name()));
}

} // verus!
