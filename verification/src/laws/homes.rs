//! Home directories: how texts are split, and whose directory is taken.

use vstd::prelude::*;
use crate::home::{home_dir, home_of, is_char, is_entry_of, lines_of, pieces, pieces_from};
use crate::search::{first_from, first_from_at, first_from_is_least};

verus! {

/// Texts with a separator between each two.
pub open spec fn put_together(texts: Seq<Seq<char>>, separator: char) -> Seq<char>
    decreases texts.len(),
{
    if texts.len() == 0 {
        seq![]
    } else if texts.len() == 1 {
        texts[0]
    } else {
        texts[0].push(separator) + put_together(texts.skip(1), separator)
    }
}

/// The pieces of a text hold no separator, and put together with separators they are the text.
pub proof fn pieces_make_up_the_text(s: Seq<char>, separator: char)
    ensures
        pieces(s, separator).len() > 0,
        put_together(pieces(s, separator), separator) == s,
        forall|k: int|
            0 <= k < pieces(s, separator).len() ==> !(#[trigger] pieces(s, separator)[k]).contains(
                separator,
            ),
{
    pieces_make_up_the_rest(s, separator, 0);
    assert(s.skip(0) =~= s);
}

proof fn pieces_make_up_the_rest(s: Seq<char>, separator: char, i: int)
    requires
        0 <= i <= s.len(),
    ensures
        pieces_from(s, separator, i).len() > 0,
        put_together(pieces_from(s, separator, i), separator) == s.skip(i),
        forall|k: int|
            0 <= k < pieces_from(s, separator, i).len() ==> !(#[trigger] pieces_from(
                s,
                separator,
                i,
            )[k]).contains(separator),
    decreases s.len() - i,
{
    let p = is_char(s, separator);
    first_from_is_least(p, i, s.len() as int);
    let all = pieces_from(s, separator, i);
    match first_from(p, i, s.len() as int) {
        Some(k) => {
            pieces_make_up_the_rest(s, separator, k + 1);
            let rest = pieces_from(s, separator, k + 1);
            let head = s.subrange(i, k);
            assert(all.skip(1) =~= rest);
            assert(p(k));
            assert(s.skip(i) =~= head.push(separator) + s.skip(k + 1));
            assert forall|j: int| 0 <= j < all.len() implies !(#[trigger] all[j]).contains(
                separator,
            ) by {
                if j == 0 {
                    if head.contains(separator) {
                        let c = choose|c: int| 0 <= c < head.len() && head[c] == separator;
                        assert(!p(i + c));
                    }
                } else {
                    assert(all[j] == rest[j - 1]);
                }
            }
        },
        None => {
            let last = s.skip(i);
            if last.contains(separator) {
                let c = choose|c: int| 0 <= c < last.len() && last[c] == separator;
                assert(!p(i + c));
            }
        },
    }
}

/// Every line feed ends a line, which loses a carriage return before it; what is behind the
/// last line feed is a line too, if it is not empty.
pub proof fn line_feeds_end_lines(content: Seq<char>, k: int)
    requires
        0 <= k < pieces(content, '\n').len(),
    ensures
        ({
            let all = pieces(content, '\n');
            let n = all.len();
            let lines = lines_of(content);
            &&& all[n - 1].len() == 0 ==> lines.len() == n - 1
            &&& all[n - 1].len() > 0 ==> lines.len() == n && lines[n - 1] == all[n - 1]
            &&& k < n - 1 && (all[k].len() == 0 || all[k].last() != '\r') ==> lines[k] == all[k]
            &&& k < n - 1 && all[k].len() > 0 && all[k].last() == '\r' ==> lines[k].push('\r')
                == all[k]
        }),
{
    let all = pieces(content, '\n');
    if all[k].len() > 0 && all[k].last() == '\r' {
        assert(all[k].drop_last().push('\r') =~= all[k]);
    }
}

/// Whether a line is the entry of a user: six fields or more between colons, with the user's
/// name in the first.
pub open spec fn is_for_user(line: Seq<char>, username: Seq<char>) -> bool {
    pieces(line, ':').len() >= 6 && pieces(line, ':')[0] == username
}

/// A user's home directory is the sixth field of their first entry.
pub proof fn the_first_entry_gives_the_home(content: Seq<char>, username: Seq<char>, i: int)
    requires
        0 <= i < lines_of(content).len(),
        is_for_user(lines_of(content)[i], username),
        forall|k: int|
            0 <= k < i ==> !is_for_user(#[trigger] lines_of(content)[k], username),
    ensures
        home_of(content, username) == Some(pieces(lines_of(content)[i], ':')[5]),
{
    let lines = lines_of(content);
    let p = is_entry_of(lines, username);
    assert(p(i));
    assert forall|k: int| 0 <= k < i implies !#[trigger] p(k) by {
        assert(!is_for_user(lines[k], username));
    }
    first_from_at(p, 0, i, lines.len() as int);
}

/// A user without an entry has no home directory there.
pub proof fn without_an_entry_there_is_no_home(content: Seq<char>, username: Seq<char>)
    requires
        forall|k: int|
            0 <= k < lines_of(content).len() ==> !is_for_user(
                #[trigger] lines_of(content)[k],
                username,
            ),
    ensures
        home_of(content, username) is None,
{
    let lines = lines_of(content);
    let p = is_entry_of(lines, username);
    first_from_is_least(p, 0, lines.len() as int);
    match first_from(p, 0, lines.len() as int) {
        Some(k) => {
            assert(p(k));
            assert(is_for_user(lines[k], username));
        },
        None => {},
    }
}

/// Without a calling user the home directory is that of the environment; with one it is that
/// of their entry, and where they have none that of the environment, and without it the one
/// below `/home` with their name.
pub proof fn the_calling_user_comes_first(
    user: Seq<char>,
    content: Seq<char>,
    home: Option<Seq<char>>,
)
    ensures
        home is Some ==> home_dir(None, Some(content), home) == home->0 && home_dir(
            None,
            None,
            home,
        ) == home->0,
        home is None ==> home_dir(None, Some(content), home) == seq!['.'],
        home_of(content, user) is Some ==> home_dir(Some(user), Some(content), home) == home_of(
            content,
            user,
        )->0,
        home_of(content, user) is None && home is Some ==> home_dir(
            Some(user),
            Some(content),
            home,
        ) == home->0,
        home_of(content, user) is None && home is None ==> home_dir(
            Some(user),
            Some(content),
            home,
        ) == seq!['/', 'h', 'o', 'm', 'e', '/'] + user,
        home is Some ==> home_dir(Some(user), None, home) == home->0,
        home is None ==> home_dir(Some(user), None, home) == seq!['/', 'h', 'o', 'm', 'e', '/']
            + user,
{
    reveal_strlit("/home/");
    reveal_strlit(".");
    assert("/home/"@ =~= seq!['/', 'h', 'o', 'm', 'e', '/']);
    assert("."@ =~= seq!['.']);
}

} // verus!
