//! The track store's record type and the SQLite URL handling of database setup.

use crate::text::{
    chars_eq, chars_of, copy_range, find_char, find_char_index, lemma_find_char, starts_with_chars,
    string_of,
};
use vstd::prelude::*;

verus! {

/// A stored track: an audio file that a Telegram user sent to the bot.
pub struct Track {
    pub id: String,
    pub telegram_user_id: i64,
    pub telegram_file_id: String,
    pub title: Option<String>,
    pub created_at: String,
}

pub open spec fn is_ascii_alpha(c: char) -> bool {
    ('a' <= c <= 'z') || ('A' <= c <= 'Z')
}

/// The text of a SQLite URL between `sqlite://` and the first `?`.
pub open spec fn sqlite_location(url: Seq<char>) -> Seq<char> {
    let rest = url.skip("sqlite://"@.len() as int);
    match find_char(rest, '?') {
        Some(i) => rest.take(i),
        None => rest,
    }
}

/// The file that a SQLite URL names: `None` for URLs without the `sqlite://` prefix and
/// for in-memory databases; a leading `/` before a Windows drive (`/C:`) is dropped.
pub open spec fn sqlite_file_path_spec(url: Seq<char>) -> Option<Seq<char>> {
    if !(url.len() >= "sqlite://"@.len() && url.take("sqlite://"@.len() as int) == "sqlite://"@) {
        None
    } else {
        let raw = sqlite_location(url);
        if raw == ":memory:"@ || raw == "/:memory:"@ || raw == "file::memory:"@ {
            None
        } else if raw.len() >= 3 && raw[0] == '/' && is_ascii_alpha(raw[1]) && raw[2] == ':' {
            Some(raw.skip(1))
        } else {
            Some(raw)
        }
    }
}

/// The location of `sqlite://` followed by `loc` and a query (empty or starting with `?`)
/// is `loc`, when `loc` holds no `?`.
proof fn lemma_location_of(loc: Seq<char>, query: Seq<char>)
    requires
        forall|i: int| 0 <= i < loc.len() ==> loc[i] != '?',
        query.len() == 0 || query[0] == '?',
    ensures
        ("sqlite://"@ + loc + query).take("sqlite://"@.len() as int) == "sqlite://"@,
        sqlite_location("sqlite://"@ + loc + query) == loc,
{
    reveal_strlit("sqlite://");
    let url = "sqlite://"@ + loc + query;
    assert(url.take(9) =~= "sqlite://"@);
    let rest = url.skip(9);
    assert(rest =~= loc + query);
    lemma_find_char(rest, '?', loc.len() as int);
    assert(rest.take(loc.len() as int) =~= loc);
}

/// A SQLite URL for an in-memory database (`:memory:`, `/:memory:` or `file::memory:`,
/// with or without a query) names no file.
pub proof fn lemma_in_memory_url_names_no_file(loc: Seq<char>, query: Seq<char>)
    requires
        loc == ":memory:"@ || loc == "/:memory:"@ || loc == "file::memory:"@,
        query.len() == 0 || query[0] == '?',
    ensures
        sqlite_file_path_spec("sqlite://"@ + loc + query) is None,
{
    reveal_strlit(":memory:");
    reveal_strlit("/:memory:");
    reveal_strlit("file::memory:");
    reveal_strlit("sqlite://");
    assert forall|i: int| 0 <= i < loc.len() implies loc[i] != '?' by {
        if loc == ":memory:"@ {
            assert(loc[i] == ":memory:"@[i]);
        } else if loc == "/:memory:"@ {
            assert(loc[i] == "/:memory:"@[i]);
        } else {
            assert(loc[i] == "file::memory:"@[i]);
        }
    }
    lemma_location_of(loc, query);
}

/// Any other location names a file: the location itself, or, for `/` followed by a drive
/// letter and `:`, the location without that `/`.
pub proof fn lemma_file_url_names_location(loc: Seq<char>, query: Seq<char>)
    requires
        forall|i: int| 0 <= i < loc.len() ==> loc[i] != '?',
        query.len() == 0 || query[0] == '?',
        loc != ":memory:"@ && loc != "/:memory:"@ && loc != "file::memory:"@,
    ensures
        sqlite_file_path_spec("sqlite://"@ + loc + query) == Some(
            if loc.len() >= 3 && loc[0] == '/' && (('a' <= loc[1] <= 'z') || ('A' <= loc[1]
                <= 'Z')) && loc[2] == ':' {
                loc.skip(1)
            } else {
                loc
            },
        ),
{
    reveal_strlit("sqlite://");
    lemma_location_of(loc, query);
}

/// The path of the database file that `database_url` names, if it names one.
pub fn sqlite_file_path(database_url: &str) -> (res: Option<String>)
    ensures
        match res {
            Some(p) => sqlite_file_path_spec(database_url@) == Some(p@),
            None => sqlite_file_path_spec(database_url@) is None,
        },
{
    let url = chars_of(database_url);
    let prefix = chars_of("sqlite://");
    if !starts_with_chars(&url, &prefix) {
        return None;
    }
    let rest = copy_range(&url, prefix.len(), url.len());
    assert(rest@ =~= url@.skip("sqlite://"@.len() as int));
    let raw = match find_char_index(&rest, '?') {
        Some(i) => {
            proof {
                crate::text::lemma_find_char_bounds(rest@, '?');
            }
            let r = copy_range(&rest, 0, i);
            assert(r@ =~= rest@.take(i as int));
            r
        },
        None => rest,
    };
    assert(raw@ == sqlite_location(url@));
    if chars_eq(&raw, &chars_of(":memory:")) || chars_eq(&raw, &chars_of("/:memory:")) || chars_eq(
        &raw,
        &chars_of("file::memory:"),
    ) {
        return None;
    }
    if raw.len() >= 3 && raw[0] == '/' && (('a' <= raw[1] && raw[1] <= 'z') || ('A' <= raw[1]
        && raw[1] <= 'Z')) && raw[2] == ':' {
        let path = copy_range(&raw, 1, raw.len());
        assert(path@ =~= raw@.skip(1));
        Some(string_of(&path))
    } else {
        Some(string_of(&raw))
    }
}

} // verus!
