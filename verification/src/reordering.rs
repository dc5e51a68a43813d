//! What the order of rows leaves unchanged: the same rows in another order give the same
//! tables and the same totals.

use vstd::prelude::*;
use vstd::multiset::Multiset;
use crate::export::player_label;
use crate::rank::{sorted_by, text_before, text_before_is_one_way, texts_differ_in_order};
use crate::report::{
    guild_stats, lines_of, report_of, tally_loses_no_score, LineView, ReportView,
};
use crate::stats::{
    ally_scores, by_kills, by_name, can_be_counted, enemies_can_be_counted,
    enemy_scores, guild_scores, is_countable, is_listed, kind_count, matchup_of, matchups_of,
    names_are_sorted, ranking_counts_the_rows, ranking_is_ordered, score_count, tally,
    tally_counts_the_rows, MatchupView, Score, Standing,
};
use crate::text::trimmed;

verus! {

/// Whether two lists hold the same things, each as often, in any order.
pub open spec fn same_items<T>(a: Seq<T>, b: Seq<T>) -> bool {
    a.to_multiset() == b.to_multiset()
}

/// Of two lists that hold the same, the second holds the last item of the first, and
/// without it they still hold the same.
proof fn last_item_is_found<T>(a: Seq<T>, b: Seq<T>) -> (i: int)
    requires
        same_items(a, b),
        a.len() > 0,
    ensures
        0 <= i < b.len(),
        b[i] == a.last(),
        same_items(a.drop_last(), b.remove(i)),
{
    a.to_multiset_ensures();
    b.to_multiset_ensures();
    assert(a.contains(a.last()));
    assert(b.to_multiset().count(a.last()) > 0);
    assert(b.contains(a.last()));
    let i = choose|i: int| 0 <= i < b.len() && b[i] == a.last();
    vstd::seq_lib::to_multiset_remove(b, i);
    vstd::seq_lib::to_multiset_remove(a, a.len() - 1);
    assert(a.remove(a.len() - 1) =~= a.drop_last());
    i
}

/// An empty list holds the same as empty lists only.
proof fn empty_lists_match<T>(a: Seq<T>, b: Seq<T>)
    requires
        same_items(a, b),
        a.len() == 0,
    ensures
        b =~= a,
{
    a.to_multiset_ensures();
    b.to_multiset_ensures();
}

/// What is made of each item of two lists that hold the same is the same.
proof fn mapped_items_match<A, B>(a: Seq<A>, b: Seq<A>, f: spec_fn(A) -> B)
    requires
        same_items(a, b),
    ensures
        same_items(a.map_values(f), b.map_values(f)),
    decreases a.len(),
{
    if a.len() == 0 {
        empty_lists_match(a, b);
    } else {
        let i = last_item_is_found(a, b);
        mapped_items_match(a.drop_last(), b.remove(i), f);
        let fa = a.map_values(f);
        let fb = b.map_values(f);
        assert(fa.drop_last() =~= a.drop_last().map_values(f));
        assert(fb.remove(i) =~= b.remove(i).map_values(f));
        an_item_more(fa, fb, i);
    }
}

/// Lists hold the same that do so without an item that both have.
proof fn an_item_more<T>(a: Seq<T>, b: Seq<T>, i: int)
    requires
        a.len() > 0,
        0 <= i < b.len(),
        b[i] == a.last(),
        same_items(a.drop_last(), b.remove(i)),
    ensures
        same_items(a, b),
{
    a.to_multiset_ensures();
    b.to_multiset_ensures();
    vstd::seq_lib::to_multiset_remove(b, i);
    vstd::seq_lib::to_multiset_remove(a, a.len() - 1);
    assert(a.remove(a.len() - 1) =~= a.drop_last());
    assert(a.contains(a[a.len() - 1]) && b.contains(b[i]));
    assert(a.to_multiset().remove(a.last()).insert(a.last()) =~= a.to_multiset());
    assert(b.to_multiset().remove(a.last()).insert(a.last()) =~= b.to_multiset());
}

/// How often a name kills, or dies, is how often that score is there.
proof fn score_count_is_multiplicity(scores: Seq<Score>, name: Seq<char>, is_kill: bool)
    ensures
        score_count(scores, name, is_kill) == scores.to_multiset().count(Score { name, is_kill }),
    decreases scores.len(),
{
    scores.to_multiset_ensures();
    if scores.len() > 0 {
        let rest = scores.drop_last();
        score_count_is_multiplicity(rest, name, is_kill);
        vstd::seq_lib::to_multiset_build(rest, scores.last());
        assert(rest.push(scores.last()) =~= scores);
    }
}

/// The kills and deaths among scores do not depend on their order.
proof fn kind_counts_match(a: Seq<Score>, b: Seq<Score>)
    requires
        same_items(a, b),
    ensures
        kind_count(a, true) == kind_count(b, true),
        kind_count(a, false) == kind_count(b, false),
    decreases a.len(),
{
    if a.len() == 0 {
        empty_lists_match(a, b);
    } else {
        let i = last_item_is_found(a, b);
        kind_counts_match(a.drop_last(), b.remove(i));
        kind_count_without(b, i);
    }
}

proof fn kind_count_without(scores: Seq<Score>, i: int)
    requires
        0 <= i < scores.len(),
    ensures
        kind_count(scores, true) == kind_count(scores.remove(i), true) + if scores[i].is_kill {
            1nat
        } else {
            0
        },
        kind_count(scores, false) == kind_count(scores.remove(i), false) + if scores[i].is_kill {
            0nat
        } else {
            1
        },
    decreases scores.len(),
{
    let left = scores.remove(i);
    if i < scores.len() - 1 {
        kind_count_without(scores.drop_last(), i);
        assert(left.drop_last() =~= scores.drop_last().remove(i));
    } else {
        assert(left =~= scores.drop_last());
    }
}

/// Scores in another order give the same entries: everyone has as many kills and deaths.
pub proof fn tallies_match(a: Seq<Score>, b: Seq<Score>)
    requires
        same_items(a, b),
        can_be_counted(a),
    ensures
        can_be_counted(b),
        same_items(tally(a), tally(b)),
        tally(a).len() == tally(b).len(),
{
    kind_counts_match(a, b);
    tally_counts_the_rows(a);
    tally_counts_the_rows(b);
    entries_are_single(a);
    entries_are_single(b);
    let (ta, tb) = (tally(a), tally(b));
    ta.to_multiset_ensures();
    tb.to_multiset_ensures();
    assert forall|x: Standing| #[trigger] ta.to_multiset().count(x) == tb.to_multiset().count(
        x,
    ) by {
        if ta.contains(x) {
            entry_is_shared(a, b, x);
        }
        if tb.contains(x) {
            entry_is_shared(b, a, x);
        }
    }
    assert(ta.to_multiset() =~= tb.to_multiset());
}

/// No entry is listed twice.
proof fn entries_are_single(scores: Seq<Score>)
    requires
        can_be_counted(scores),
    ensures
        forall|x: Standing| #[trigger]
            tally(scores).to_multiset().count(x) == (if tally(scores).contains(x) {
                1nat
            } else {
                0
            }),
{
    let t = tally(scores);
    tally_counts_the_rows(scores);
    assert forall|i: int, j: int|
        0 <= i < t.len() && 0 <= j < t.len() && i != j implies t[i] != t[j] by {
        if i < j {
            assert(t[i].0 != t[j].0);
        } else {
            assert(t[j].0 != t[i].0);
        }
    }
    t.lemma_multiset_has_no_duplicates();
    t.to_multiset_ensures();
    assert forall|x: Standing| #[trigger] t.to_multiset().count(x) == (if t.contains(x) {
        1nat
    } else {
        0
    }) by {
        if t.contains(x) {
            assert(t.to_multiset().count(x) > 0);
            assert(t.to_multiset().contains(x));
        }
    }
}

/// An entry for some scores is one for the same scores in another order.
proof fn entry_is_shared(a: Seq<Score>, b: Seq<Score>, x: Standing)
    requires
        a.to_multiset() == b.to_multiset(),
        can_be_counted(a),
        can_be_counted(b),
        tally(a).contains(x),
    ensures
        tally(b).contains(x),
{
    tally_counts_the_rows(a);
    tally_counts_the_rows(b);
    let i = choose|i: int| 0 <= i < tally(a).len() && tally(a)[i] == x;
    assert(tally(a)[i].1.kills == score_count(a, x.0, true));
    score_count_is_multiplicity(a, x.0, true);
    score_count_is_multiplicity(a, x.0, false);
    score_count_is_multiplicity(b, x.0, true);
    score_count_is_multiplicity(b, x.0, false);
    b.to_multiset_ensures();
    let score = Score { name: x.0, is_kill: x.1.kills > 0 };
    assert(b.to_multiset().count(score) > 0);
    assert(b.contains(score));
    let k = choose|k: int| 0 <= k < b.len() && b[k] == score;
    assert(is_listed(tally(b), b[k].name));
    let j = choose|j: int| 0 <= j < tally(b).len() && (#[trigger] tally(b)[j]).0 == x.0;
    assert(tally(b)[j].1.kills == score_count(b, x.0, true));
    assert(tally(b)[j] == x);
}

/// The scores of rows in another order are the same.
proof fn scores_match(a: Seq<MatchupView>, b: Seq<MatchupView>)
    requires
        same_items(a, b),
    ensures
        same_items(ally_scores(a), ally_scores(b)),
        same_items(guild_scores(a), guild_scores(b)),
{
    let ally = |m: MatchupView| Score { name: m.ally, is_kill: !m.is_death };
    let guild = |m: MatchupView| Score { name: m.guild, is_kill: m.is_death };
    mapped_items_match(a, b, ally);
    mapped_items_match(a, b, guild);
    assert(ally_scores(a) =~= a.map_values(ally));
    assert(ally_scores(b) =~= b.map_values(ally));
    assert(guild_scores(a) =~= a.map_values(guild));
    assert(guild_scores(b) =~= b.map_values(guild));
}

/// The scores of one guild's enemies are the same for rows in another order.
proof fn enemy_scores_match(a: Seq<MatchupView>, b: Seq<MatchupView>, guild: Seq<char>)
    requires
        same_items(a, b),
    ensures
        same_items(enemy_scores(a, guild), enemy_scores(b, guild)),
    decreases a.len(),
{
    if a.len() == 0 {
        empty_lists_match(a, b);
    } else {
        let i = last_item_is_found(a, b);
        enemy_scores_match(a.drop_last(), b.remove(i), guild);
        enemy_scores_without(b, i, guild);
        enemy_scores_without(a, a.len() - 1, guild);
        assert(a.remove(a.len() - 1) =~= a.drop_last());
    }
}

/// What a row adds to the scores of one guild's enemies.
spec fn row_scores(m: MatchupView, guild: Seq<char>) -> Multiset<Score> {
    if m.guild == guild {
        Multiset::empty().insert(Score { name: m.enemy, is_kill: m.is_death })
    } else {
        Multiset::empty()
    }
}

proof fn enemy_scores_without(m: Seq<MatchupView>, i: int, guild: Seq<char>)
    requires
        0 <= i < m.len(),
    ensures
        enemy_scores(m, guild).to_multiset() == enemy_scores(m.remove(i), guild).to_multiset().add(
            row_scores(m[i], guild),
        ),
    decreases m.len(),
{
    let left = m.remove(i);
    let rest = m.drop_last();
    let last = m.last();
    let score = Score { name: last.enemy, is_kill: last.is_death };
    vstd::seq_lib::to_multiset_build(enemy_scores(rest, guild), score);
    if i < m.len() - 1 {
        enemy_scores_without(rest, i, guild);
        assert(left.drop_last() =~= rest.remove(i));
        assert(left.last() == last);
        vstd::seq_lib::to_multiset_build(enemy_scores(rest.remove(i), guild), score);
    } else {
        assert(left =~= rest);
    }
    assert(enemy_scores(m, guild).to_multiset() =~= enemy_scores(left, guild).to_multiset().add(
        row_scores(m[i], guild),
    ));
}

/// Whether names increase.
spec fn names_increase(s: Seq<Standing>) -> bool {
    forall|i: int, j: int|
        0 <= i < j < s.len() ==> text_before((#[trigger] s[i]).0, (#[trigger] s[j]).0)
}

/// Lists with increasing names that hold the same are the same.
proof fn increasing_names_match(a: Seq<Standing>, b: Seq<Standing>)
    requires
        same_items(a, b),
        names_increase(a),
        names_increase(b),
    ensures
        a == b,
    decreases a.len(),
{
    a.to_multiset_ensures();
    b.to_multiset_ensures();
    assert(a.len() == b.len());
    if a.len() == 0 {
        assert(a =~= b);
    } else {
        let i = last_item_is_found(a, b);
        let n = b.len() - 1;
        if i < n {
            assert(text_before(b[i].0, b[n].0));
            assert(b.contains(b[n]));
            assert(a.to_multiset().count(b[n]) > 0);
            assert(a.contains(b[n]));
            let k = choose|k: int| 0 <= k < a.len() && a[k] == b[n];
            text_before_is_one_way(b[i].0, b[n].0);
            if k < n {
                assert(text_before(a[k].0, a[n].0));
            }
        }
        assert(b.remove(n) =~= b.drop_last());
        assert forall|x: int, y: int| 0 <= x < y < n implies text_before(
            (#[trigger] a.drop_last()[x]).0,
            (#[trigger] a.drop_last()[y]).0,
        ) by {
            assert(text_before(a[x].0, a[y].0));
        }
        assert forall|x: int, y: int| 0 <= x < y < n implies text_before(
            (#[trigger] b.drop_last()[x]).0,
            (#[trigger] b.drop_last()[y]).0,
        ) by {
            assert(text_before(b[x].0, b[y].0));
        }
        increasing_names_match(a.drop_last(), b.drop_last());
        assert(a.drop_last().push(a.last()) =~= a);
        assert(b.drop_last().push(b.last()) =~= b);
    }
}

/// Guilds that are sorted by name stand in strict order.
pub proof fn sorted_names_increase(scores: Seq<Score>)
    requires
        can_be_counted(scores),
    ensures
        forall|i: int, j: int|
            0 <= i < j < sorted_by(tally(scores), by_name()).len() ==> text_before(
                (#[trigger] sorted_by(tally(scores), by_name())[i]).0,
                (#[trigger] sorted_by(tally(scores), by_name())[j]).0,
            ),
{
    let r = sorted_by(tally(scores), by_name());
    names_are_sorted(tally(scores));
    ranking_counts_the_rows(scores);
    assert forall|i: int, j: int| 0 <= i < j < r.len() implies text_before(
        (#[trigger] r[i]).0,
        (#[trigger] r[j]).0,
    ) by {
        assert(r[i].0 != r[j].0);
        texts_differ_in_order(r[i].0, r[j].0);
    }
}

/// Whether two rankings are the same but for the order of those with as many kills.
pub open spec fn same_ranking(a: Seq<Standing>, b: Seq<Standing>) -> bool {
    &&& same_items(a, b)
    &&& a.len() == b.len()
    &&& forall|i: int| 0 <= i < a.len() ==> (#[trigger] a[i]).1.kills == b[i].1.kills
}

/// Rankings of the same entries are the same but for the order of those with as many kills.
proof fn rankings_match(a: Seq<Standing>, b: Seq<Standing>)
    requires
        same_items(a, b),
    ensures
        same_ranking(sorted_by(a, by_kills()), sorted_by(b, by_kills())),
{
    let (x, y) = (sorted_by(a, by_kills()), sorted_by(b, by_kills()));
    ranking_is_ordered(a);
    ranking_is_ordered(b);
    x.to_multiset_ensures();
    y.to_multiset_ensures();
    let kills = |s: Standing| s.1.kills;
    let (kx, ky) = (x.map_values(kills), y.map_values(kills));
    let more = |m: u32, n: u32| m >= n;
    mapped_items_match(x, y, kills);
    assert forall|i: int, j: int| 0 <= i < j < kx.len() implies #[trigger] more(kx[i], kx[j]) by {
        assert(x[i].1.kills >= x[j].1.kills);
    }
    assert forall|i: int, j: int| 0 <= i < j < ky.len() implies #[trigger] more(ky[i], ky[j]) by {
        assert(y[i].1.kills >= y[j].1.kills);
    }
    vstd::seq_lib::lemma_sorted_unique(kx, ky, more);
    assert forall|i: int| 0 <= i < x.len() implies (#[trigger] x[i]).1.kills == y[i].1.kills by {
        assert(kx[i] == ky[i]);
    }
}

/// Whether two reports show the same, but for the order of those with as many kills: the
/// same allies, the same sections of guilds with the same players, the same guilds, and the
/// same totals.
pub open spec fn shows_the_same(a: ReportView, b: ReportView) -> bool {
    &&& same_ranking(a.allies, b.allies)
    &&& a.sections.len() == b.sections.len()
    &&& forall|i: int|
        0 <= i < a.sections.len() ==> {
            &&& (#[trigger] a.sections[i]).name == b.sections[i].name
            &&& same_ranking(a.sections[i].players, b.sections[i].players)
            &&& a.sections[i].stats == b.sections[i].stats
        }
    &&& same_items(a.guilds, b.guilds)
    &&& a.guilds.len() == b.guilds.len()
    &&& forall|i: int|
        0 <= i < a.guilds.len() ==> (#[trigger] a.guilds[i]).stats.kills
            == b.guilds[i].stats.kills
    &&& a.kills == b.kills
    &&& a.deaths == b.deaths
}

/// The same rows in another order give the same tables and the same totals.
pub proof fn row_order_does_not_matter(a: Seq<MatchupView>, b: Seq<MatchupView>)
    requires
        same_items(a, b),
        is_countable(a),
    ensures
        is_countable(b),
        shows_the_same(report_of(a), report_of(b)),
{
    scores_match(a, b);
    tallies_match(ally_scores(a), ally_scores(b));
    kind_counts_match(ally_scores(a), ally_scores(b));
    tally_loses_no_score(ally_scores(a));
    tally_loses_no_score(ally_scores(b));
    enemies_can_be_counted(a, seq![]);
    tallies_match(guild_scores(a), guild_scores(b));
    let (ga, gb) = (tally(guild_scores(a)), tally(guild_scores(b)));
    rankings_match(tally(ally_scores(a)), tally(ally_scores(b)));
    rankings_match(ga, gb);
    sections_match(a, b);
    let (ra, rb) = (sorted_by(ga, by_kills()), sorted_by(gb, by_kills()));
    lines_match(a, b, ra, rb);
    let (x, y) = (report_of(a).guilds, report_of(b).guilds);
    assert forall|i: int| 0 <= i < x.len() implies (#[trigger] x[i]).stats.kills
        == y[i].stats.kills by {
        assert(ra[i].1.kills == rb[i].1.kills);
    }
}

/// A record of six fields in the layout of five.
pub open spec fn in_five_fields(record: Seq<Seq<char>>) -> Seq<Seq<char>> {
    seq![
        record[0],
        record[1],
        record[4],
        player_label(trimmed(record[2]), trimmed(record[3])),
        record[5],
    ]
}

/// Records that could all be read.
pub open spec fn all_read(records: Seq<Seq<Seq<char>>>) -> Seq<Option<Seq<Seq<char>>>> {
    records.map_values(|r: Seq<Seq<char>>| Some(r))
}

/// A record says the same in either layout.
pub proof fn layouts_say_the_same(record: Seq<Seq<char>>)
    requires
        record.len() == 6,
    ensures
        matchup_of(record) is Some,
        matchup_of(in_five_fields(record)) == matchup_of(record),
{
}

/// What a record says that says something.
spec fn said_by() -> spec_fn(Seq<Seq<char>>) -> MatchupView {
    |r: Seq<Seq<char>>| matchup_of(r)->0
}

proof fn each_record_says_something(records: Seq<Seq<Seq<char>>>)
    requires
        forall|i: int| 0 <= i < records.len() ==> matchup_of(#[trigger] records[i]) is Some,
    ensures
        matchups_of(all_read(records)) == records.map_values(said_by()),
    decreases records.len(),
{
    if records.len() > 0 {
        let rest = records.drop_last();
        assert forall|i: int| 0 <= i < rest.len() implies matchup_of(
            #[trigger] rest[i],
        ) is Some by {
            assert(matchup_of(records[i]) is Some);
        }
        each_record_says_something(rest);
        assert(all_read(records).drop_last() =~= all_read(rest));
        assert(all_read(records).last() == Some(records.last()));
        assert(matchup_of(records[records.len() - 1]) is Some);
    }
    assert(matchups_of(all_read(records)) =~= records.map_values(said_by()));
}

/// Records of six fields, and the same records in the layout of five and in any order, give
/// reports that show the same.
pub proof fn layout_and_order_do_not_matter(a: Seq<Seq<Seq<char>>>, b: Seq<Seq<Seq<char>>>)
    requires
        forall|i: int| 0 <= i < a.len() ==> (#[trigger] a[i]).len() == 6,
        same_items(a.map_values(|r: Seq<Seq<char>>| in_five_fields(r)), b),
        is_countable(matchups_of(all_read(a))),
    ensures
        is_countable(matchups_of(all_read(b))),
        shows_the_same(
            report_of(matchups_of(all_read(a))),
            report_of(matchups_of(all_read(b))),
        ),
{
    let five = a.map_values(|r: Seq<Seq<char>>| in_five_fields(r));
    assert forall|i: int| 0 <= i < a.len() implies matchup_of(#[trigger] a[i]) is Some by {
        layouts_say_the_same(a[i]);
    }
    each_record_says_something(a);
    assert(a.map_values(said_by()) =~= five.map_values(said_by())) by {
        assert forall|i: int| 0 <= i < a.len() implies said_by()(a[i]) == said_by()(
            #[trigger] five[i],
        ) by {
            layouts_say_the_same(a[i]);
        }
    }
    five.to_multiset_ensures();
    b.to_multiset_ensures();
    assert forall|i: int| 0 <= i < b.len() implies matchup_of(#[trigger] b[i]) is Some by {
        assert(b.contains(b[i]));
        assert(five.to_multiset().count(b[i]) > 0);
        assert(five.contains(b[i]));
        let k = choose|k: int| 0 <= k < five.len() && five[k] == b[i];
        layouts_say_the_same(a[k]);
    }
    each_record_says_something(b);
    mapped_items_match(five, b, said_by());
    row_order_does_not_matter(matchups_of(all_read(a)), matchups_of(all_read(b)));
}

/// The players of a guild are the same for rows in another order.
proof fn players_match(a: Seq<MatchupView>, b: Seq<MatchupView>, guild: Seq<char>)
    requires
        same_items(a, b),
        is_countable(a),
    ensures
        same_items(tally(enemy_scores(a, guild)), tally(enemy_scores(b, guild))),
        tally(enemy_scores(a, guild)).len() == tally(enemy_scores(b, guild)).len(),
{
    enemies_can_be_counted(a, guild);
    enemy_scores_match(a, b, guild);
    tallies_match(enemy_scores(a, guild), enemy_scores(b, guild));
}

/// The sections of guilds are the same for rows in another order.
proof fn sections_match(a: Seq<MatchupView>, b: Seq<MatchupView>)
    requires
        same_items(a, b),
        is_countable(a),
    ensures
        ({
            let (x, y) = (report_of(a).sections, report_of(b).sections);
            &&& x.len() == y.len()
            &&& forall|i: int|
                0 <= i < x.len() ==> {
                    &&& (#[trigger] x[i]).name == y[i].name
                    &&& same_ranking(x[i].players, y[i].players)
                    &&& x[i].stats == y[i].stats
                }
        }),
{
    scores_match(a, b);
    enemies_can_be_counted(a, seq![]);
    tallies_match(guild_scores(a), guild_scores(b));
    let (ga, gb) = (tally(guild_scores(a)), tally(guild_scores(b)));
    let (na, nb) = (sorted_by(ga, by_name()), sorted_by(gb, by_name()));
    names_are_sorted(ga);
    names_are_sorted(gb);
    sorted_names_increase(guild_scores(a));
    sorted_names_increase(guild_scores(b));
    increasing_names_match(na, nb);
    let (x, y) = (report_of(a).sections, report_of(b).sections);
    assert forall|i: int| 0 <= i < x.len() implies {
        &&& (#[trigger] x[i]).name == y[i].name
        &&& same_ranking(x[i].players, y[i].players)
        &&& x[i].stats == y[i].stats
    } by {
        let guild = na[i].0;
        players_match(a, b, guild);
        rankings_match(tally(enemy_scores(a, guild)), tally(enemy_scores(b, guild)));
    }
}

/// The lines of guilds are the same for rows in another order.
proof fn lines_match(
    a: Seq<MatchupView>,
    b: Seq<MatchupView>,
    ga: Seq<Standing>,
    gb: Seq<Standing>,
)
    requires
        same_items(a, b),
        is_countable(a),
        same_items(ga, gb),
    ensures
        same_items(lines_of(a, ga), lines_of(b, gb)),
{
    let line = |g: Standing|
        LineView {
            name: g.0,
            players: tally(enemy_scores(a, g.0)).len() as int,
            stats: guild_stats(g.1),
        };
    mapped_items_match(ga, gb, line);
    assert(lines_of(a, ga) =~= ga.map_values(line));
    assert forall|i: int| 0 <= i < gb.len() implies lines_of(b, gb)[i] == #[trigger] gb.map_values(
        line,
    )[i] by {
        players_match(a, b, gb[i].0);
    }
    assert(lines_of(b, gb) =~= gb.map_values(line));
}

} // verus!
