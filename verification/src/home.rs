//! Where files are kept: below the home directory of whoever started the program, also
//! under `sudo`.

use vstd::prelude::*;
use crate::search::first_from;
use crate::text::{chars_of, same_text, string_of};

verus! {

/// Whether the character at an index is a separator.
pub open spec fn is_char(s: Seq<char>, c: char) -> spec_fn(int) -> bool {
    |i: int| s[i] == c
}

/// The pieces of a text between separators, from `i` on.
pub open spec fn pieces_from(s: Seq<char>, separator: char, i: int) -> Seq<Seq<char>>
    decreases s.len() - i,
{
    match first_from(is_char(s, separator), i, s.len() as int) {
        Some(k) if i <= k < s.len() => seq![s.subrange(i, k)] + pieces_from(s, separator, k + 1),
        _ => seq![s.skip(i)],
    }
}

/// The pieces of a text between separators.
pub open spec fn pieces(s: Seq<char>, separator: char) -> Seq<Seq<char>> {
    pieces_from(s, separator, 0)
}

/// Texts, by value.
pub open spec fn texts_view(texts: Seq<String>) -> Seq<Seq<char>> {
    Seq::new(texts.len(), |i: int| texts[i]@)
}

/// Splits a text at a separator.
pub fn split_text(s: &str, separator: char) -> (r: Vec<String>)
    ensures
        texts_view(r@) == pieces(s@, separator),
{
    let chars = chars_of(s);
    let ghost all = pieces(s@, separator);
    let ghost p = is_char(s@, separator);
    let ghost n = s@.len() as int;
    let mut out: Vec<String> = Vec::new();
    let mut start: usize = 0;
    let mut i: usize = 0;
    assert(texts_view(out@) + pieces_from(s@, separator, 0) =~= all);
    while i < chars.len()
        invariant
            start <= i <= chars.len(),
            chars@ == s@,
            n == s@.len(),
            p == is_char(s@, separator),
            all == pieces(s@, separator),
            first_from(p, start as int, n) == first_from(p, i as int, n),
            texts_view(out@) + pieces_from(s@, separator, start as int) == all,
        decreases chars.len() - i,
    {
        if chars[i] == separator {
            assert(p(i as int));
            let ghost before = out@;
            let piece = string_of(vstd::slice::slice_subrange(chars.as_slice(), start, i));
            out.push(piece);
            let ghost rest = pieces_from(s@, separator, i + 1);
            assert(texts_view(out@) =~= texts_view(before).push(piece@));
            assert(pieces_from(s@, separator, start as int) == seq![piece@] + rest);
            assert(texts_view(out@) + rest =~= texts_view(before) + (seq![piece@] + rest));
            start = i + 1;
        } else {
            assert(!p(i as int));
        }
        i = i + 1;
    }
    let ghost before = out@;
    let last = string_of(vstd::slice::slice_subrange(chars.as_slice(), start, chars.len()));
    out.push(last);
    assert(last@ =~= s@.skip(start as int));
    assert(texts_view(out@) =~= texts_view(before) + seq![last@]);
    out
}

/// A line without the carriage return that goes with its line feed.
pub open spec fn without_return(line: Seq<char>) -> Seq<char> {
    if line.len() > 0 && line.last() == '\r' {
        line.drop_last()
    } else {
        line
    }
}

/// The name in front of an entry's first colon, and the home directory behind its fifth.
pub open spec fn passwd_entry(line: Seq<char>) -> Option<(Seq<char>, Seq<char>)> {
    let fields = pieces(line, ':');
    if fields.len() > 5 {
        Some((fields[0], fields[5]))
    } else {
        None
    }
}

/// The lines of a text. What is behind the last line feed is a line unless it is empty.
pub open spec fn lines_of(content: Seq<char>) -> Seq<Seq<char>> {
    let all = pieces(content, '\n');
    let n = all.len();
    let ended = Seq::new((n - 1) as nat, |i: int| without_return(all[i]));
    if all[n - 1].len() == 0 {
        ended
    } else {
        ended.push(all[n - 1])
    }
}

/// Whether the line at an index is a user's entry.
pub open spec fn is_entry_of(lines: Seq<Seq<char>>, username: Seq<char>) -> spec_fn(int) -> bool {
    |i: int|
        match passwd_entry(lines[i]) {
            Some((name, _)) => name == username,
            None => false,
        }
}

/// The home directory in the first entry of a user.
pub open spec fn home_of(content: Seq<char>, username: Seq<char>) -> Option<Seq<char>> {
    let lines = lines_of(content);
    match first_from(is_entry_of(lines, username), 0, lines.len() as int) {
        Some(i) => match passwd_entry(lines[i]) {
            Some((_, home)) => Some(home),
            None => None,
        },
        None => None,
    }
}

/// A text is split into at least one piece.
proof fn pieces_are_there(s: Seq<char>, separator: char)
    ensures
        pieces(s, separator).len() > 0,
{
}

/// Splits a text into lines.
pub fn split_lines(content: &str) -> (r: Vec<String>)
    ensures
        texts_view(r@) == lines_of(content@),
{
    let all = split_text(content, '\n');
    let ghost view = pieces(content@, '\n');
    let ghost goal = lines_of(content@);
    proof {
        pieces_are_there(content@, '\n');
        assert(texts_view(all@).len() == all@.len());
    }
    let mut out: Vec<String> = Vec::new();
    let mut i: usize = 0;
    while i < all.len() - 1
        invariant
            all@.len() > 0,
            i <= all@.len() - 1,
            view == texts_view(all@),
            texts_view(out@) == Seq::new(i as nat, |k: int| without_return(view[k])),
        decreases all.len() - i,
    {
        let ghost before = out@;
        let chars = chars_of(all[i].as_str());
        assert(chars@ == view[i as int]);
        let n: usize = chars.len();
        let line = if n > 0 && chars[n - 1] == '\r' {
            assert(chars@.subrange(0, n - 1) =~= view[i as int].drop_last());
            string_of(vstd::slice::slice_subrange(chars.as_slice(), 0, n - 1))
        } else {
            all[i].as_str().to_owned()
        };
        assert(line@ == without_return(view[i as int]));
        out.push(line);
        assert(texts_view(out@) =~= texts_view(before).push(line@));
        i = i + 1;
        assert(texts_view(out@) =~= Seq::new(i as nat, |k: int| without_return(view[k])));
    }
    let ghost before = out@;
    let last = all[all.len() - 1].as_str();
    assert(last@ == view[view.len() - 1]);
    if last.unicode_len() > 0 {
        out.push(last.to_owned());
        assert(texts_view(out@) =~= texts_view(before).push(last@));
    }
    assert(texts_view(out@) =~= goal);
    out
}

/// Finds the home directory of a user in the content of the password file.
pub fn home_for_user(content: &str, username: &str) -> (r: Option<String>)
    ensures
        match r {
            Some(home) => home_of(content@, username@) == Some(home@),
            None => home_of(content@, username@) is None,
        },
{
    let lines = split_lines(content);
    let ghost view = lines_of(content@);
    assert(texts_view(lines@).len() == lines@.len());
    let ghost p = is_entry_of(view, username@);
    let ghost n = view.len() as int;
    let mut i: usize = 0;
    while i < lines.len()
        invariant
            i <= lines.len(),
            texts_view(lines@) == view,
            view == lines_of(content@),
            n == view.len(),
            n == lines@.len(),
            p == is_entry_of(view, username@),
            first_from(p, 0, n) == first_from(p, i as int, n),
        decreases lines.len() - i,
    {
        let parts = split_text(lines[i].as_str(), ':');
        proof {
            assert(lines@[i as int]@ == view[i as int]);
            assert(texts_view(parts@).len() == parts@.len());
            if parts@.len() > 5 {
                assert(texts_view(parts@)[0] == parts@[0]@);
                assert(texts_view(parts@)[5] == parts@[5]@);
            }
        }
        if parts.len() > 5 && same_text(parts[0].as_str(), username) {
            assert(p(i as int));
            return Some(parts[5].as_str().to_owned());
        }
        assert(!p(i as int));
        i = i + 1;
    }
    None
}

/// The home directory that files are kept below. Under `sudo` it is that of the user who
/// called it: from the password file, else from the environment, else below `/home`.
/// Otherwise it is that of the environment, else the working directory.
pub open spec fn home_dir(
    sudo_user: Option<Seq<char>>,
    passwd: Option<Seq<char>>,
    home: Option<Seq<char>>,
) -> Seq<char> {
    match sudo_user {
        Some(user) => {
            let listed = match passwd {
                Some(content) => home_of(content, user),
                None => None,
            };
            match (listed, home) {
                (Some(dir), _) => dir,
                (None, Some(dir)) => dir,
                (None, None) => "/home/"@ + user,
            }
        },
        None => match home {
            Some(dir) => dir,
            None => "."@,
        },
    }
}

/// A text that may be missing, by value.
pub open spec fn text_view(s: Option<&str>) -> Option<Seq<char>> {
    match s {
        Some(t) => Some(t@),
        None => None,
    }
}

/// The components of the directory that files of one sort are kept in, from the user
/// that called `sudo`, the content of the password file, and the home directory of the
/// environment.
pub fn rodent_logger_dir(
    sudo_user: Option<&str>,
    passwd: Option<&str>,
    home: Option<&str>,
    subdir: &str,
) -> (r: Vec<String>)
    ensures
        texts_view(r@) == seq![
            home_dir(text_view(sudo_user), text_view(passwd), text_view(home)),
            "Documents"@,
            "rodent_logger"@,
            subdir@,
        ],
{
    let dir: String = match sudo_user {
        Some(user) => {
            let listed = match passwd {
                Some(content) => home_for_user(content, user),
                None => None,
            };
            match (listed, home) {
                (Some(dir), _) => dir,
                (None, Some(dir)) => dir.to_owned(),
                (None, None) => {
                    let mut dir = "/home/".to_owned();
                    dir.append(user);
                    dir
                },
            }
        },
        None => match home {
            Some(dir) => dir.to_owned(),
            None => ".".to_owned(),
        },
    };
    assert(dir@ == home_dir(text_view(sudo_user), text_view(passwd), text_view(home)));
    let mut parts: Vec<String> = Vec::new();
    let ghost first = dir@;
    parts.push(dir);
    parts.push("Documents".to_owned());
    parts.push("rodent_logger".to_owned());
    parts.push(subdir.to_owned());
    assert(texts_view(parts@) =~= seq![first, "Documents"@, "rodent_logger"@, subdir@]);
    parts
}

} // verus!
