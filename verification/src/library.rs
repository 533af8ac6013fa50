//! The desktop player's music library: which files are tracks, how a file name becomes
//! a track's id, title and artist, and the order in which tracks are listed.

use crate::number::is_digit;
use crate::order::{ lemma_lex_total, lemma_lex_transitive, lex_compare, lex_lt, Placement};
use crate::outside::{url_encode, url_encoded};
use crate::text::{
    ascii_lower, is_white, lemma_find_seq, occurs_at, trim_end, trim_start, ascii_lowercase, ascii_lowercase_chars, chars_eq, chars_of, copy_range, find_seq,
    find_seq_index, lemma_find_seq_bounds, push_all, string_of, trim, trim_chars,
};
use vstd::prelude::*;

verus! {

/// A track of the desktop library.
pub struct DesktopTrack {
    pub id: String,
    pub title: String,
    pub artist: Option<String>,
}

/// The file name of a directory entry as `Path::file_name` gives it: none for the empty
/// name and for `.` and `..`. (Entry names hold no path separator.)
pub open spec fn entry_file_name(name: Seq<char>) -> Option<Seq<char>> {
    if name.len() == 0 || name == "."@ || name == ".."@ {
        None
    } else {
        Some(name)
    }
}

/// Index of the last `c` in `s`.
pub open spec fn find_last_char(s: Seq<char>, c: char) -> Option<int>
    decreases s.len(),
{
    if s.len() == 0 {
        None
    } else if s.last() == c {
        Some(s.len() - 1)
    } else {
        find_last_char(s.drop_last(), c)
    }
}

/// The extension of a file name, as `Path::extension` documents it: the part after the
/// last `.`, unless there is no `.` or the only one starts the name.
pub open spec fn extension_of(file_name: Seq<char>) -> Option<Seq<char>> {
    match find_last_char(file_name, '.') {
        Some(i) => if i == 0 {
            None
        } else {
            Some(file_name.skip(i + 1))
        },
        None => None,
    }
}

/// The stem of a file name, as `Path::file_stem` documents it: the part before the last
/// `.`, or the whole name when there is no `.` or the only one starts the name.
pub open spec fn stem_of(file_name: Seq<char>) -> Seq<char> {
    match find_last_char(file_name, '.') {
        Some(i) => if i == 0 {
            file_name
        } else {
            file_name.take(i)
        },
        None => file_name,
    }
}

/// Extensions of playable files.
pub open spec fn is_audio_extension(e: Seq<char>) -> bool {
    let l = ascii_lowercase(e);
    l == "mp3"@ || l == "wav"@ || l == "ogg"@ || l == "m4a"@ || l == "flac"@
}

/// Whether a directory entry is a playable file: its extension, in any ASCII case, is
/// mp3, wav, ogg, m4a or flac.
pub open spec fn is_supported_audio(name: Seq<char>) -> bool {
    match entry_file_name(name) {
        Some(f) => match extension_of(f) {
            Some(e) => is_audio_extension(e),
            None => false,
        },
        None => false,
    }
}

proof fn lemma_find_last_char(s: Seq<char>, c: char, i: int)
    requires
        -1 <= i < s.len(),
        forall|j: int| i < j < s.len() ==> s[j] != c,
    ensures
        i >= 0 && s[i] == c ==> find_last_char(s, c) == Some(i),
        i == -1 ==> find_last_char(s, c) is None,
    decreases s.len(),
{
    if s.len() > 0 && i < s.len() - 1 {
        lemma_find_last_char(s.drop_last(), c, i);
    }
}

proof fn lemma_find_last_char_bounds(s: Seq<char>, c: char)
    ensures
        find_last_char(s, c) matches Some(i) ==> 0 <= i < s.len() && s[i] == c,
    decreases s.len(),
{
    if s.len() > 0 && s.last() != c {
        lemma_find_last_char_bounds(s.drop_last(), c);
    }
}

/// Returns `find_last_char(s, c)`.
fn find_last_char_index(s: &Vec<char>, c: char) -> (res: Option<usize>)
    ensures
        match res {
            Some(i) => find_last_char(s@, c) == Some(i as int) && i < s.len(),
            None => find_last_char(s@, c) is None,
        },
{
    let mut j = s.len();
    while j > 0
        invariant
            j <= s.len(),
            forall|k: int| j <= k < s.len() ==> s@[k] != c,
        decreases j,
    {
        if s[j - 1] == c {
            proof {
                lemma_find_last_char(s@, c, j - 1);
            }
            return Some(j - 1);
        }
        j = j - 1;
    }
    proof {
        lemma_find_last_char(s@, c, -1);
    }
    None
}

/// The file name of an entry, or `None`.
fn entry_file_name_chars(name: &Vec<char>) -> (res: Option<Vec<char>>)
    ensures
        match res {
            Some(f) => entry_file_name(name@) == Some(f@),
            None => entry_file_name(name@) is None,
        },
{
    if name.len() == 0 || chars_eq(name, &chars_of(".")) || chars_eq(name, &chars_of("..")) {
        None
    } else {
        Some(name.clone())
    }
}

/// Whether a directory entry's name marks a playable file.
pub fn is_supported_audio_file(file_name: &str) -> (res: bool)
    ensures
        res == is_supported_audio(file_name@),
{
    let name = chars_of(file_name);
    let f = match entry_file_name_chars(&name) {
        Some(f) => f,
        None => return false,
    };
    match find_last_char_index(&f, '.') {
        Some(i) => {
            if i == 0 {
                return false;
            }
            let ext = copy_range(&f, i + 1, f.len());
            assert(ext@ =~= f@.skip(i + 1));
            let l = ascii_lowercase_chars(&ext);
            chars_eq(&l, &chars_of("mp3")) || chars_eq(&l, &chars_of("wav")) || chars_eq(
                &l,
                &chars_of("ogg"),
            ) || chars_eq(&l, &chars_of("m4a")) || chars_eq(&l, &chars_of("flac"))
        },
        None => false,
    }
}

/// Characters stripped from the front of a track name: digits, space, `-`, `_`, `.`.
pub open spec fn is_track_number_char(c: char) -> bool {
    is_digit(c) || c == ' ' || c == '-' || c == '_' || c == '.'
}

/// `s` without its leading track-number characters.
pub open spec fn strip_track_number(s: Seq<char>) -> Seq<char>
    decreases s.len(),
{
    if s.len() > 0 && is_track_number_char(s[0]) {
        strip_track_number(s.drop_first())
    } else {
        s
    }
}

/// A track name without surrounding white space and leading track numbering.
pub open spec fn normalized_track_name(s: Seq<char>) -> Seq<char> {
    trim(strip_track_number(trim(s)))
}

/// Removes white space around a track name and the numbering in front of it.
pub fn normalize_track_name(value: &str) -> (res: String)
    ensures
        res@ == normalized_track_name(value@),
{
    let t = trim_chars(&chars_of(value));
    let mut i: usize = 0;
    assert(t@.skip(0) =~= t@);
    while i < t.len() && ('0' <= t[i] && t[i] <= '9' || t[i] == ' ' || t[i] == '-' || t[i] == '_'
        || t[i] == '.')
        invariant
            i <= t.len(),
            strip_track_number(t@) == strip_track_number(t@.skip(i as int)),
        decreases t.len() - i,
    {
        assert(t@.skip(i as int).drop_first() =~= t@.skip(i + 1));
        i = i + 1;
    }
    let rest = copy_range(&t, i, t.len());
    assert(rest@ =~= t@.skip(i as int));
    string_of(&trim_chars(&rest))
}

/// The artist and title that a track name spells as `artist - title`: both sides of the
/// first ` - `, trimmed, when neither is empty; otherwise no artist and the whole name.
pub open spec fn artist_and_title(value: Seq<char>) -> (Option<Seq<char>>, Seq<char>) {
    match find_seq(value, " - "@) {
        Some(i) => {
            let artist = trim(value.take(i));
            let title = trim(value.skip(i + 3));
            if artist.len() > 0 && title.len() > 0 {
                (Some(artist), title)
            } else {
                (None, value)
            }
        },
        None => (None, value),
    }
}

/// Splits a track name at its first ` - ` into artist and title.
pub fn split_artist_and_title(value: &str) -> (res: (Option<String>, String))
    ensures
        res.0 matches Some(a) ==> artist_and_title(value@).0 == Some(a@),
        res.0 is None ==> artist_and_title(value@).0 is None,
        res.1@ == artist_and_title(value@).1,
{
    proof {
        reveal_strlit(" - ");
    }
    let v = chars_of(value);
    let sep = chars_of(" - ");
    proof {
        lemma_find_seq_bounds(v@, sep@);
    }
    match find_seq_index(&v, &sep) {
        Some(i) => {
            let a = copy_range(&v, 0, i);
            let t = copy_range(&v, i + 3, v.len());
            assert(a@ =~= v@.take(i as int));
            assert(t@ =~= v@.skip(i + 3));
            let artist = trim_chars(&a);
            let title = trim_chars(&t);
            if artist.len() > 0 && title.len() > 0 {
                return (Some(string_of(&artist)), string_of(&title));
            }
            (None, value.to_owned())
        },
        None => (None, value.to_owned()),
    }
}

/// Whether the spaced separator ` - ` stands in `s` at index `j`.
pub open spec fn spaced_dash_at(s: Seq<char>, j: int) -> bool {
    &&& 0 <= j
    &&& j + 3 <= s.len()
    &&& s[j] == ' '
    &&& s[j + 1] == '-'
    &&& s[j + 2] == ' '
}

proof fn lemma_spaced_dash_occurs(s: Seq<char>, j: int)
    requires
        0 <= j,
        j + 3 <= s.len(),
    ensures
        occurs_at(s, " - "@, j) ==> spaced_dash_at(s, j),
        spaced_dash_at(s, j) ==> occurs_at(s, " - "@, j),
{
    reveal_strlit(" - ");
    if occurs_at(s, " - "@, j) {
        assert(s.subrange(j, j + 3)[0] == s[j]);
        assert(s.subrange(j, j + 3)[1] == s[j + 1]);
        assert(s.subrange(j, j + 3)[2] == s[j + 2]);
    }
    if spaced_dash_at(s, j) {
        assert(s.subrange(j, j + 3) =~= " - "@);
    }
}

/// A track name without the spaced separator ` - ` has no artist, and all of it is the
/// title; a hyphen without spaces around it splits nothing.
pub proof fn lemma_no_separator_no_artist(s: Seq<char>)
    requires
        forall|j: int| !#[trigger] spaced_dash_at(s, j),
    ensures
        artist_and_title(s) == (None::<Seq<char>>, s),
{
    reveal_strlit(" - ");
    if s.len() + 1 >= 3 {
        assert forall|j: int| 0 <= j < s.len() + 1 - 3 implies !#[trigger] occurs_at(s, " - "@, j) by {
            lemma_spaced_dash_occurs(s, j);
        }
        lemma_find_seq(s, " - "@, s.len() + 1 - 3);
    } else {
        lemma_find_seq_bounds(s, " - "@);
    }
}

/// A track name is split at its first spaced separator ` - `: the artist is the trimmed
/// text before it and the title the trimmed text after its three characters, when both
/// are non-empty; otherwise there is no artist and all of the name is the title.
pub proof fn lemma_split_at_first_separator(s: Seq<char>, i: int)
    requires
        spaced_dash_at(s, i),
        forall|j: int| j < i ==> !#[trigger] spaced_dash_at(s, j),
    ensures
        artist_and_title(s) == (if trim(s.take(i)).len() > 0 && trim(s.skip(i + 3)).len() > 0 {
            (Some(trim(s.take(i))), trim(s.skip(i + 3)))
        } else {
            (None::<Seq<char>>, s)
        }),
{
    reveal_strlit(" - ");
    assert forall|j: int| 0 <= j < i implies !#[trigger] occurs_at(s, " - "@, j) by {
        lemma_spaced_dash_occurs(s, j);
    }
    lemma_spaced_dash_occurs(s, i);
    lemma_find_seq(s, " - "@, i);
}

/// Characters of the numbering in front of a track name: digits, space, `-`, `_`, `.`.
pub open spec fn is_numbering_char(c: char) -> bool {
    ('0' <= c <= '9') || c == ' ' || c == '-' || c == '_' || c == '.'
}

proof fn lemma_strip_prefix(t: Seq<char>, k: int)
    requires
        0 <= k <= t.len(),
        forall|j: int| 0 <= j < k ==> is_numbering_char(#[trigger] t[j]),
        k < t.len() ==> !is_numbering_char(t[k]),
    ensures
        strip_track_number(t) == t.skip(k),
    decreases k,
{
    if k > 0 {
        assert(is_numbering_char(t[0]));
        let u = t.drop_first();
        assert forall|j: int| 0 <= j < k - 1 implies is_numbering_char(#[trigger] u[j]) by {
            assert(u[j] == t[j + 1]);
            assert(is_numbering_char(t[j + 1]));
        }
        if k < t.len() {
            assert(u[k - 1] == t[k]);
        }
        lemma_strip_prefix(u, k - 1);
        assert(u.skip(k - 1) =~= t.skip(k));
    } else {
        assert(t.skip(0) =~= t);
        if t.len() > 0 {
            assert(!is_numbering_char(t[0]));
        }
    }
}

/// Normalizing a track name trims it, drops the run of digits, spaces, `-`, `_` and `.`
/// at its start (up to the first other character, at index `k`), and trims what is
/// left: the rest of the name, its end included, is kept.
pub proof fn lemma_normalized_track_name(s: Seq<char>, k: int)
    requires
        0 <= k <= trim(s).len(),
        forall|j: int| 0 <= j < k ==> is_numbering_char(#[trigger] trim(s)[j]),
        k < trim(s).len() ==> !is_numbering_char(trim(s)[k]),
    ensures
        normalized_track_name(s) == trim(trim(s).skip(k)),
{
    lemma_strip_prefix(trim(s), k);
}

proof fn lemma_trim_start_shape(s: Seq<char>)
    ensures
        trim_start(s).len() == 0 || !is_white(trim_start(s)[0]),
        exists|k: int| 0 <= k <= s.len() && trim_start(s) == #[trigger] s.skip(k),
    decreases s.len(),
{
    if s.len() > 0 && is_white(s[0]) {
        lemma_trim_start_shape(s.drop_first());
        let k = choose|k: int| 0 <= k <= s.drop_first().len() && trim_start(s.drop_first()) == #[trigger] s.drop_first().skip(k);
        assert(s.drop_first().skip(k) =~= s.skip(k + 1));
    } else {
        assert(s.skip(0) =~= s);
    }
}

proof fn lemma_trim_end_shape(s: Seq<char>)
    ensures
        trim_end(s).len() == 0 || !is_white(trim_end(s).last()),
        trim_end(s).len() <= s.len(),
        trim_end(s) == s.take(trim_end(s).len() as int),
    decreases s.len(),
{
    if s.len() > 0 && is_white(s.last()) {
        lemma_trim_end_shape(s.drop_last());
        let t = trim_end(s.drop_last());
        assert(s.drop_last().take(t.len() as int) =~= s.take(t.len() as int));
    } else {
        assert(s.take(s.len() as int) =~= s);
    }
}

/// Trimming twice is trimming once.
pub proof fn lemma_trim_idempotent(s: Seq<char>)
    ensures
        trim(trim(s)) == trim(s),
{
    lemma_trim_start_shape(s);
    let u = trim_start(s);
    lemma_trim_end_shape(u);
    let v = trim_end(u);
    if v.len() > 0 {
        assert(v[0] == u[0]);
        assert(trim_start(v) == v);
    } else {
        assert(trim_start(v) == v);
    }
    assert(trim_end(v) == v);
}

/// A track name that starts, once trimmed, with a character other than a digit, space,
/// `-`, `_` or `.` is only trimmed: digits at its end are kept.
pub proof fn lemma_plain_track_name_kept(s: Seq<char>)
    requires
        trim(s).len() > 0,
        !is_numbering_char(trim(s)[0]),
    ensures
        normalized_track_name(s) == trim(s),
{
    lemma_normalized_track_name(s, 0);
    assert(trim(s).skip(0) =~= trim(s));
    lemma_trim_idempotent(s);
}

proof fn lemma_lower_dot(c: char)
    ensures
        (ascii_lower(c) == '.') == (c == '.'),
{
}

proof fn lemma_find_last_dot_lower(s: Seq<char>)
    ensures
        find_last_char(ascii_lowercase(s), '.') == find_last_char(s, '.'),
    decreases s.len(),
{
    if s.len() > 0 {
        assert(ascii_lowercase(s).drop_last() =~= ascii_lowercase(s.drop_last()));
        lemma_lower_dot(s.last());
        lemma_find_last_dot_lower(s.drop_last());
    }
}

proof fn lemma_lowercase_idempotent(e: Seq<char>)
    ensures
        ascii_lowercase(ascii_lowercase(e)) == ascii_lowercase(e),
{
    assert(ascii_lowercase(ascii_lowercase(e)) =~= ascii_lowercase(e));
}

/// Whether a file is playable does not depend on the ASCII case of its name.
pub proof fn lemma_supported_ignores_case(name: Seq<char>)
    ensures
        is_supported_audio(ascii_lowercase(name)) == is_supported_audio(name),
{
    reveal_strlit(".");
    reveal_strlit("..");
    let l = ascii_lowercase(name);
    assert(l.len() == name.len());
    if name.len() == 1 {
        lemma_lower_dot(name[0]);
        if l == "."@ {
            assert(l[0] == '.');
            assert(name =~= "."@);
        }
        if name == "."@ {
            assert(l =~= "."@);
        }
    }
    if name.len() == 2 {
        lemma_lower_dot(name[0]);
        lemma_lower_dot(name[1]);
        if l == ".."@ {
            assert(l[0] == '.' && l[1] == '.');
            assert(name =~= ".."@);
        }
        if name == ".."@ {
            assert(l =~= ".."@);
        }
    }
    lemma_find_last_dot_lower(name);
    if let Some(i) = find_last_char(name, '.') {
        if i != 0 {
            lemma_find_last_char_bounds(name, '.');
            assert(l.skip(i + 1) =~= ascii_lowercase(name.skip(i + 1)));
            lemma_lowercase_idempotent(name.skip(i + 1));
        }
    }
}

/// A file named `x.e` with `x` not empty and `e` one of mp3, wav, ogg, m4a and flac, in
/// any ASCII case, is playable.
pub proof fn lemma_audio_file_supported(x: Seq<char>, e: Seq<char>)
    requires
        x.len() > 0,
        ascii_lowercase(e) == "mp3"@ || ascii_lowercase(e) == "wav"@ || ascii_lowercase(e)
            == "ogg"@ || ascii_lowercase(e) == "m4a"@ || ascii_lowercase(e) == "flac"@,
    ensures
        is_supported_audio(x + seq!['.'] + e),
{
    reveal_strlit("mp3");
    reveal_strlit("wav");
    reveal_strlit("ogg");
    reveal_strlit("m4a");
    reveal_strlit("flac");
    reveal_strlit(".");
    reveal_strlit("..");
    let n = x + seq!['.'] + e;
    let l = ascii_lowercase(e);
    assert(l.len() == e.len());
    assert(e.len() >= 3);
    assert forall|j: int| 0 <= j < e.len() implies e[j] != '.' by {
        lemma_lower_dot(e[j]);
        assert(l[j] == ascii_lower(e[j]));
        if l == "mp3"@ {
            assert(l[j] == "mp3"@[j]);
        } else if l == "wav"@ {
            assert(l[j] == "wav"@[j]);
        } else if l == "ogg"@ {
            assert(l[j] == "ogg"@[j]);
        } else if l == "m4a"@ {
            assert(l[j] == "m4a"@[j]);
        } else {
            assert(l[j] == "flac"@[j]);
        }
    }
    assert forall|j: int| x.len() < j < n.len() implies n[j] != '.' by {
        assert(n[j] == e[j - x.len() - 1]);
    }
    lemma_find_last_char(n, '.', x.len() as int);
    assert(n.skip(x.len() as int + 1) =~= e);
    assert(n != "."@ && n != ".."@) by {
        assert(n.len() >= 5);
    }
}

/// For a file named `x.e`, with `x` not empty and no `.` in `e`, playability is decided
/// by `e` alone: the file is playable exactly when `e` is mp3, wav, ogg, m4a or flac in
/// some ASCII case.
pub proof fn lemma_playable_by_extension(x: Seq<char>, e: Seq<char>)
    requires
        x.len() > 0,
        forall|j: int| 0 <= j < e.len() ==> e[j] != '.',
    ensures
        is_supported_audio(x + seq!['.'] + e) == (ascii_lowercase(e) == "mp3"@ || ascii_lowercase(
            e,
        ) == "wav"@ || ascii_lowercase(e) == "ogg"@ || ascii_lowercase(e) == "m4a"@
            || ascii_lowercase(e) == "flac"@),
{
    reveal_strlit(".");
    reveal_strlit("..");
    let n = x + seq!['.'] + e;
    assert forall|j: int| x.len() < j < n.len() implies n[j] != '.' by {
        assert(n[j] == e[j - x.len() - 1]);
    }
    lemma_find_last_char(n, '.', x.len() as int);
    assert(n.skip(x.len() as int + 1) =~= e);
    if n == "."@ {
        assert(n.len() == 1);
    }
    if n == ".."@ {
        assert(n[x.len() as int] == '.');
        assert(x.len() == 1 && e.len() == 0);
        assert(n[0] == '.');
        assert(x[0] == '.');
    }
    if ascii_lowercase(e) == "mp3"@ || ascii_lowercase(e) == "wav"@ || ascii_lowercase(e)
        == "ogg"@ || ascii_lowercase(e) == "m4a"@ || ascii_lowercase(e) == "flac"@ {
        lemma_audio_file_supported(x, e);
    }
}

/// A name without a `.`, or whose only `.` starts it, has no extension and is not
/// playable.
pub proof fn lemma_no_extension_not_playable(name: Seq<char>)
    requires
        forall|j: int| 0 < j < name.len() ==> name[j] != '.',
    ensures
        !is_supported_audio(name),
{
    if name.len() > 0 {
        lemma_find_last_char(name, '.', if name[0] == '.' { 0 } else { -1 });
    } else {
        lemma_find_last_char(name, '.', -1);
    }
}

/// A track named `x.e` (with `x` not empty and no `.` in `e`) has the whole name in ASCII
/// lower case as its id, and takes its artist and title from `x`, the part before the
/// last `.`, normalized.
pub proof fn lemma_track_from_stem(x: Seq<char>, e: Seq<char>)
    requires
        x.len() > 0,
        forall|j: int| 0 <= j < e.len() ==> e[j] != '.',
        !(x == "."@ && e.len() == 0),
    ensures
        track_from_name(x + seq!['.'] + e) == (
            ascii_lowercase(x + seq!['.'] + e),
            artist_and_title(normalized_track_name(x)).0,
            artist_and_title(normalized_track_name(x)).1,
        ),
{
    reveal_strlit(".");
    reveal_strlit("..");
    let n = x + seq!['.'] + e;
    assert forall|j: int| x.len() < j < n.len() implies n[j] != '.' by {
        assert(n[j] == e[j - x.len() - 1]);
    }
    lemma_find_last_char(n, '.', x.len() as int);
    assert(n.take(x.len() as int) =~= x);
    if n == "."@ {
        assert(n.len() == 1);
    }
    if n == ".."@ {
        assert(x.len() == 1 && e.len() == 0);
        assert(x[0] == n[0]);
        assert(x =~= "."@);
    }
}

/// The id of a track does not depend on the ASCII case of the entry's name, and is in
/// ASCII lower case.
pub proof fn lemma_track_id_case(name: Seq<char>)
    ensures
        track_from_name(ascii_lowercase(name)).0 == track_from_name(name).0,
        ascii_lowercase(track_from_name(name).0) == track_from_name(name).0,
{
    reveal_strlit(".");
    reveal_strlit("..");
    let l = ascii_lowercase(name);
    if name.len() == 1 {
        lemma_lower_dot(name[0]);
        if l == "."@ {
            assert(l[0] == '.');
            assert(name =~= "."@);
        }
        if name == "."@ {
            assert(l =~= "."@);
        }
    }
    if name.len() == 2 {
        lemma_lower_dot(name[0]);
        lemma_lower_dot(name[1]);
        if l == ".."@ {
            assert(l[0] == '.' && l[1] == '.');
            assert(name =~= ".."@);
        }
        if name == ".."@ {
            assert(l =~= ".."@);
        }
    }
    lemma_lowercase_idempotent(name);
    assert(ascii_lowercase(Seq::<char>::empty()) =~= Seq::<char>::empty());
}

/// The track that a directory entry holds: its id is the file name in ASCII lower case,
/// and its stem, normalized, is split into artist and title.
pub open spec fn track_from_name(name: Seq<char>) -> (Seq<char>, Option<Seq<char>>, Seq<char>) {
    let f = match entry_file_name(name) {
        Some(f) => f,
        None => Seq::<char>::empty(),
    };
    let stem = match entry_file_name(name) {
        Some(f) => stem_of(f),
        None => Seq::<char>::empty(),
    };
    let (artist, title) = artist_and_title(normalized_track_name(stem));
    (ascii_lowercase(f), artist, title)
}

/// The view of a desktop track: id, artist, title.
pub open spec fn track_view(t: DesktopTrack) -> (Seq<char>, Option<Seq<char>>, Seq<char>) {
    (
        t.id@,
        match t.artist {
            Some(a) => Some(a@),
            None => None,
        },
        t.title@,
    )
}

/// Builds the track of a directory entry.
pub fn track_from_path(file_name: &str) -> (res: DesktopTrack)
    ensures
        track_view(res) == track_from_name(file_name@),
{
    let name = chars_of(file_name);
    let (f, stem) = match entry_file_name_chars(&name) {
        Some(f) => {
            let stem = match find_last_char_index(&f, '.') {
                Some(i) => if i == 0 {
                    f.clone()
                } else {
                    let s = copy_range(&f, 0, i);
                    assert(s@ =~= f@.take(i as int));
                    s
                },
                None => f.clone(),
            };
            (f, stem)
        },
        None => (Vec::new(), Vec::new()),
    };
    let normalized = normalize_track_name(string_of(&stem).as_str());
    let (artist, title) = split_artist_and_title(normalized.as_str());
    let id = string_of(&ascii_lowercase_chars(&f));
    DesktopTrack { id, title, artist }
}

/// `s` with `t` placed after every track whose id does not come after `t`'s.
pub open spec fn insert_by_id(s: Seq<DesktopTrack>, t: DesktopTrack) -> Seq<DesktopTrack>
    decreases s.len(),
{
    if s.len() == 0 {
        seq![t]
    } else if lex_lt(t.id@, s.last().id@) {
        insert_by_id(s.drop_last(), t).push(s.last())
    } else {
        s.push(t)
    }
}

/// `s` stably sorted by id (what `sort_by` on the ids gives).
pub open spec fn sorted_by_id(s: Seq<DesktopTrack>) -> Seq<DesktopTrack>
    decreases s.len(),
{
    if s.len() == 0 {
        seq![]
    } else {
        insert_by_id(sorted_by_id(s.drop_last()), s.last())
    }
}

/// No track comes before one with a smaller id.
pub open spec fn ids_ordered(s: Seq<DesktopTrack>) -> bool {
    forall|i: int, j: int| 0 <= i < j < s.len() ==> !lex_lt(#[trigger] s[j].id@, #[trigger] s[i].id@)
}

proof fn lemma_insert_by_id_at(s: Seq<DesktopTrack>, t: DesktopTrack, j: int)
    requires
        0 <= j <= s.len(),
        forall|k: int| j <= k < s.len() ==> lex_lt(t.id@, #[trigger] s[k].id@),
        j == 0 || !lex_lt(t.id@, s[j - 1].id@),
    ensures
        insert_by_id(s, t) == s.take(j) + seq![t] + s.skip(j),
    decreases s.len(),
{
    if s.len() == 0 {
        assert(s.take(j) + seq![t] + s.skip(j) =~= seq![t]);
    } else if j == s.len() {
        assert(s.take(j) + seq![t] + s.skip(j) =~= s.push(t));
    } else {
        lemma_insert_by_id_at(s.drop_last(), t, j);
        assert(s.take(j) + seq![t] + s.skip(j) =~= (s.drop_last().take(j) + seq![t]
            + s.drop_last().skip(j)).push(s.last()));
    }
}

/// Inserting into an ordered list keeps it ordered.
pub proof fn lemma_insert_by_id_ordered(s: Seq<DesktopTrack>, t: DesktopTrack)
    requires
        ids_ordered(s),
    ensures
        ids_ordered(insert_by_id(s, t)),
        insert_by_id(s, t).len() == s.len() + 1,
    decreases s.len(),
{
    if s.len() > 0 {
        let r = insert_by_id(s, t);
        if lex_lt(t.id@, s.last().id@) {
            let p = s.drop_last();
            assert(ids_ordered(p));
            lemma_insert_by_id_ordered(p, t);
            let q = insert_by_id(p, t);
            // every element of q is t or an element of p, none after s.last()
            assert forall|i: int| 0 <= i < q.len() implies !lex_lt(s.last().id@, #[trigger] q[i].id@) by {
                lemma_insert_by_id_members(p, t, i);
                if q[i] == t {
                    lemma_lex_total(t.id@, s.last().id@);
                } else {
                    let k = choose|k: int| 0 <= k < p.len() && p[k] == q[i];
                    assert(!lex_lt(s[s.len() - 1].id@, s[k].id@));
                }
            }
            assert forall|i: int, j: int| 0 <= i < j < r.len() implies !lex_lt(
                #[trigger] r[j].id@,
                #[trigger] r[i].id@,
            ) by {
                if j < r.len() - 1 {
                    assert(r[i] == q[i] && r[j] == q[j]);
                } else {
                    assert(r[i] == q[i]);
                    assert(r[j] == s.last());
                }
            }
        } else {
            assert forall|i: int, j: int| 0 <= i < j < r.len() implies !lex_lt(
                #[trigger] r[j].id@,
                #[trigger] r[i].id@,
            ) by {
                if j == r.len() - 1 {
                    assert(r[j] == t);
                    assert(r[i] == s[i]);
                    if i < s.len() - 1 {
                        assert(!lex_lt(s[s.len() - 1].id@, s[i].id@));
                        lemma_lex_total(s[i].id@, s[s.len() - 1].id@);
                        if lex_lt(t.id@, s[i].id@) {
                            if s[i].id@ == s.last().id@ {
                            } else {
                                lemma_lex_transitive(t.id@, s[i].id@, s.last().id@);
                            }
                        }
                    }
                } else {
                    assert(r[i] == s[i] && r[j] == s[j]);
                }
            }
        }
    }
}

/// Every element of `insert_by_id(s, t)` is `t` or an element of `s`.
proof fn lemma_insert_by_id_members(s: Seq<DesktopTrack>, t: DesktopTrack, i: int)
    requires
        0 <= i < s.len() + 1,
    ensures
        insert_by_id(s, t).len() == s.len() + 1,
        insert_by_id(s, t)[i] == t || exists|k: int| 0 <= k < s.len() && s[k] == insert_by_id(s, t)[i],
    decreases s.len(),
{
    if s.len() > 0 {
        let r = insert_by_id(s, t);
        if lex_lt(t.id@, s.last().id@) {
            if i < s.len() {
                lemma_insert_by_id_members(s.drop_last(), t, i);
                let q = insert_by_id(s.drop_last(), t);
                assert(r[i] == q[i]);
                if q[i] != t {
                    let k = choose|k: int| 0 <= k < s.drop_last().len() && s.drop_last()[k] == q[i];
                    assert(s[k] == r[i]);
                }
            } else {
                lemma_insert_by_id_members(s.drop_last(), t, 0);
                assert(r[i] == s[s.len() - 1]);
            }
        } else if i < s.len() {
            assert(r[i] == s[i]);
        }
    }
}

/// The listed tracks are ordered by id.
pub proof fn lemma_sorted_by_id_ordered(s: Seq<DesktopTrack>)
    ensures
        ids_ordered(sorted_by_id(s)),
        sorted_by_id(s).len() == s.len(),
    decreases s.len(),
{
    if s.len() > 0 {
        lemma_sorted_by_id_ordered(s.drop_last());
        lemma_insert_by_id_ordered(sorted_by_id(s.drop_last()), s.last());
    }
}

/// The name of a directory entry: its text, with U+FFFD in place of bytes that are not
/// UTF-8, and whether it was valid UTF-8.
pub struct EntryName {
    pub text: String,
    pub is_unicode: bool,
}

/// The view of an entry name: its text and whether it was valid UTF-8.
pub open spec fn entry_name_view(e: EntryName) -> (Seq<char>, bool) {
    (e.text@, e.is_unicode)
}

/// The name a track is built from: the entry's name when it is valid UTF-8; a name that
/// is not reads as the empty name.
pub open spec fn track_source(entry: (Seq<char>, bool)) -> Seq<char> {
    if entry.1 {
        entry.0
    } else {
        Seq::<char>::empty()
    }
}

/// The tracks among directory entries, in entry order: the entries whose extension marks
/// a playable file, each made a track.
pub open spec fn tracks_of(entries: Seq<(Seq<char>, bool)>) -> Seq<
    (Seq<char>, Option<Seq<char>>, Seq<char>),
>
    decreases entries.len(),
{
    if entries.len() == 0 {
        seq![]
    } else if is_supported_audio(entries.last().0) {
        tracks_of(entries.drop_last()).push(track_from_name(track_source(entries.last())))
    } else {
        tracks_of(entries.drop_last())
    }
}

/// Inserts `t` into an id-ordered vector after every track whose id does not come
/// after `t`'s.
fn insert_track_by_id(v: &mut Vec<DesktopTrack>, t: DesktopTrack)
    ensures
        final(v)@ == insert_by_id(old(v)@, t),
{
    let tid = chars_of(t.id.as_str());
    let mut j = v.len();
    while j > 0
        invariant
            j <= v.len(),
            v@ == old(v)@,
            tid@ == t.id@,
            forall|k: int| j <= k < v.len() ==> lex_lt(t.id@, #[trigger] v@[k].id@),
        ensures
            j <= v.len(),
            v@ == old(v)@,
            forall|k: int| j <= k < v.len() ==> lex_lt(t.id@, #[trigger] v@[k].id@),
            j == 0 || !lex_lt(t.id@, v@[j - 1].id@),
        decreases j,
    {
        let other = chars_of(v[j - 1].id.as_str());
        match lex_compare(&tid, &other) {
            Placement::Before => {
                j = j - 1;
            },
            _ => {
                break;
            },
        }
    }
    proof {
        lemma_insert_by_id_at(v@, t, j as int);
    }
    v.insert(j, t);
    assert(v@ =~= old(v)@.take(j as int) + seq![t] + old(v)@.skip(j as int));
}

/// The tracks of a music directory, given the names of its entries: the playable files,
/// each made a track, stably sorted by id.
pub fn collect_tracks(entries: &Vec<EntryName>) -> (res: Vec<DesktopTrack>)
    ensures
        res@.map_values(|t: DesktopTrack| track_view(t)) == sorted_views(
            tracks_of(entries@.map_values(|e: EntryName| entry_name_view(e))),
        ),
        ids_ordered(res@),
{
    let ghost names = entries@.map_values(|e: EntryName| entry_name_view(e));
    let mut res: Vec<DesktopTrack> = Vec::new();
    let ghost mut plain: Seq<DesktopTrack> = seq![];
    let mut i: usize = 0;
    assert(names.take(0) =~= Seq::<(Seq<char>, bool)>::empty());
    while i < entries.len()
        invariant
            names == entries@.map_values(|e: EntryName| entry_name_view(e)),
            i <= entries.len(),
            plain.map_values(|t: DesktopTrack| track_view(t)) == tracks_of(names.take(i as int)),
            res@ == sorted_by_id(plain),
        decreases entries.len() - i,
    {
        assert(names.take(i + 1).drop_last() =~= names.take(i as int));
        assert(names.take(i + 1).last() == entry_name_view(entries@[i as int]));
        let entry = &entries[i];
        if is_supported_audio_file(entry.text.as_str()) {
            let t = if entry.is_unicode {
                track_from_path(entry.text.as_str())
            } else {
                proof {
                    reveal_strlit("");
                }
                assert(""@ =~= Seq::<char>::empty());
                track_from_path("")
            };
            proof {
                assert(plain.push(t).drop_last() =~= plain);
                assert(plain.push(t).map_values(|t: DesktopTrack| track_view(t)) =~= plain.map_values(
                    |t: DesktopTrack| track_view(t),
                ).push(track_view(t)));
                plain = plain.push(t);
            }
            insert_track_by_id(&mut res, t);
        }
        i = i + 1;
    }
    assert(names.take(i as int) =~= names);
    proof {
        lemma_sorted_by_id_ordered(plain);
        lemma_sorted_views(plain);
    }
    res
}

/// Views of a track sequence, stably sorted by id.
pub open spec fn sorted_views(s: Seq<(Seq<char>, Option<Seq<char>>, Seq<char>)>) -> Seq<
    (Seq<char>, Option<Seq<char>>, Seq<char>),
>
    decreases s.len(),
{
    if s.len() == 0 {
        seq![]
    } else {
        insert_view_by_id(sorted_views(s.drop_last()), s.last())
    }
}

/// `insert_by_id` on views.
pub open spec fn insert_view_by_id(
    s: Seq<(Seq<char>, Option<Seq<char>>, Seq<char>)>,
    t: (Seq<char>, Option<Seq<char>>, Seq<char>),
) -> Seq<(Seq<char>, Option<Seq<char>>, Seq<char>)>
    decreases s.len(),
{
    if s.len() == 0 {
        seq![t]
    } else if lex_lt(t.0, s.last().0) {
        insert_view_by_id(s.drop_last(), t).push(s.last())
    } else {
        s.push(t)
    }
}

/// The tracks of a directory are its playable entries, in entry order, each made a track.
pub proof fn lemma_tracks_are_playable_entries(entries: Seq<(Seq<char>, bool)>)
    ensures
        tracks_of(entries) == entries.filter(|e: (Seq<char>, bool)| is_supported_audio(e.0)).map_values(
            |e: (Seq<char>, bool)| track_from_name(track_source(e)),
        ),
    decreases entries.len(),
{
    reveal(Seq::filter);
    let pred = |e: (Seq<char>, bool)| is_supported_audio(e.0);
    let f = |e: (Seq<char>, bool)| track_from_name(track_source(e));
    if entries.len() > 0 {
        lemma_tracks_are_playable_entries(entries.drop_last());
        let sub = entries.drop_last().filter(pred);
        assert(entries.filter(pred) == (if pred(entries.last()) {
            sub.push(entries.last())
        } else {
            sub
        }));
        if pred(entries.last()) {
            assert(sub.push(entries.last()).map_values(f) =~= sub.map_values(f).push(
                f(entries.last()),
            ));
        }
    } else {
        assert(entries.filter(pred) =~= entries);
        assert(entries.filter(pred).map_values(f) =~= Seq::<
            (Seq<char>, Option<Seq<char>>, Seq<char>),
        >::empty());
    }
}

proof fn lemma_insert_view_multiset(
    s: Seq<(Seq<char>, Option<Seq<char>>, Seq<char>)>,
    t: (Seq<char>, Option<Seq<char>>, Seq<char>),
)
    ensures
        insert_view_by_id(s, t).to_multiset() == s.to_multiset().insert(t),
    decreases s.len(),
{
    broadcast use vstd::seq_lib::group_to_multiset_ensures;

    if s.len() == 0 {
        assert(seq![t] =~= s.push(t));
    } else if lex_lt(t.0, s.last().0) {
        lemma_insert_view_multiset(s.drop_last(), t);
        assert(s =~= s.drop_last().push(s.last()));
        assert(insert_view_by_id(s, t).to_multiset() =~= s.to_multiset().insert(t));
    }
}

/// Sorting the tracks by id keeps every track, as often as it came: the listing is a
/// reordering of the tracks.
pub proof fn lemma_sorted_views_permutes(s: Seq<(Seq<char>, Option<Seq<char>>, Seq<char>)>)
    ensures
        sorted_views(s).to_multiset() == s.to_multiset(),
    decreases s.len(),
{
    broadcast use vstd::seq_lib::group_to_multiset_ensures;

    if s.len() > 0 {
        lemma_sorted_views_permutes(s.drop_last());
        lemma_insert_view_multiset(sorted_views(s.drop_last()), s.last());
        assert(s =~= s.drop_last().push(s.last()));
    } else {
        assert(sorted_views(s) =~= s);
    }
}

proof fn lemma_insert_views(s: Seq<DesktopTrack>, t: DesktopTrack)
    ensures
        insert_by_id(s, t).map_values(|x: DesktopTrack| track_view(x)) == insert_view_by_id(
            s.map_values(|x: DesktopTrack| track_view(x)),
            track_view(t),
        ),
    decreases s.len(),
{
    let sv = s.map_values(|x: DesktopTrack| track_view(x));
    if s.len() == 0 {
        assert(insert_by_id(s, t).map_values(|x: DesktopTrack| track_view(x)) =~= seq![
            track_view(t),
        ]);
    } else {
        assert(sv.drop_last() =~= s.drop_last().map_values(|x: DesktopTrack| track_view(x)));
        assert(sv.last() == track_view(s.last()));
        if lex_lt(t.id@, s.last().id@) {
            lemma_insert_views(s.drop_last(), t);
            assert(insert_by_id(s, t).map_values(|x: DesktopTrack| track_view(x)) =~= insert_by_id(
                s.drop_last(),
                t,
            ).map_values(|x: DesktopTrack| track_view(x)).push(track_view(s.last())));
        } else {
            assert(insert_by_id(s, t).map_values(|x: DesktopTrack| track_view(x)) =~= sv.push(
                track_view(t),
            ));
        }
    }
}

proof fn lemma_sorted_views(s: Seq<DesktopTrack>)
    ensures
        sorted_by_id(s).map_values(|x: DesktopTrack| track_view(x)) == sorted_views(
            s.map_values(|x: DesktopTrack| track_view(x)),
        ),
    decreases s.len(),
{
    let sv = s.map_values(|x: DesktopTrack| track_view(x));
    if s.len() == 0 {
        assert(sorted_by_id(s).map_values(|x: DesktopTrack| track_view(x)) =~= Seq::<
            (Seq<char>, Option<Seq<char>>, Seq<char>),
        >::empty());
    } else {
        lemma_sorted_views(s.drop_last());
        lemma_insert_views(sorted_by_id(s.drop_last()), s.last());
        assert(sv.drop_last() =~= s.drop_last().map_values(|x: DesktopTrack| track_view(x)));
    }
}

/// The URL under which the player serves a file: `/` and the percent-encoded file name.
pub fn public_asset_url(file_name: &str) -> (res: String)
    ensures
        res@ == seq!['/'] + url_encoded(file_name@),
{
    let encoded = url_encode(file_name);
    let mut out: Vec<char> = vec!['/'];
    push_all(&mut out, &chars_of(encoded.as_str()));
    string_of(&out)
}

/// Index of the first track with id `track_id`.
pub fn find_track(tracks: &Vec<DesktopTrack>, track_id: &str) -> (res: Option<usize>)
    ensures
        match res {
            Some(i) => i < tracks.len() && tracks@[i as int].id@ == track_id@ && forall|k: int|
                0 <= k < i ==> #[trigger] tracks@[k].id@ != track_id@,
            None => forall|k: int| 0 <= k < tracks.len() ==> #[trigger] tracks@[k].id@ != track_id@,
        },
{
    let wanted = chars_of(track_id);
    let mut i: usize = 0;
    while i < tracks.len()
        invariant
            i <= tracks.len(),
            wanted@ == track_id@,
            forall|k: int| 0 <= k < i ==> #[trigger] tracks@[k].id@ != track_id@,
        decreases tracks.len() - i,
    {
        if chars_eq(&chars_of(tracks[i].id.as_str()), &wanted) {
            return Some(i);
        }
        i = i + 1;
    }
    None
}

/// The error text for an unknown track id.
pub fn track_not_found(track_id: &str) -> (res: String)
    ensures
        res@ == "track not found: "@ + track_id@,
{
    let mut out = chars_of("track not found: ");
    push_all(&mut out, &chars_of(track_id));
    string_of(&out)
}

/// A playable source for a track.
pub struct PlayableResponse {
    pub url: String,
    pub kind: String,
}

/// The player state that the widget reports.
pub struct WidgetStatePayload {
    pub user_id: Option<String>,
    pub index: usize,
    pub tracks: Vec<WidgetTrackPayload>,
}

/// A track of the widget's state.
pub struct WidgetTrackPayload {
    pub id: String,
}

/// Diagnostics of the desktop player.
pub struct DebugInfo {
    pub mode: String,
    pub cwd: String,
    pub library_path: String,
    pub track_count: usize,
    pub current_track_id: Option<String>,
    pub user_id: Option<String>,
}

impl DebugInfo {
    /// Diagnostics for a widget state: mode `tauri`, the number of tracks it holds, the
    /// id of the track at its index (if any) and its user.
    pub fn from_state(cwd: String, library_path: String, state: WidgetStatePayload) -> (res:
        DebugInfo)
        ensures
            res.mode@ == "tauri"@,
            res.cwd == cwd,
            res.library_path == library_path,
            res.track_count == state.tracks.len(),
            res.current_track_id == (if state.index < state.tracks.len() {
                Some(state.tracks@[state.index as int].id)
            } else {
                None::<String>
            }),
            res.user_id == state.user_id,
    {
        let current_track_id = if state.index < state.tracks.len() {
            Some(state.tracks[state.index].id.clone())
        } else {
            None
        };
        DebugInfo {
            mode: "tauri".to_owned(),
            cwd,
            library_path,
            track_count: state.tracks.len(),
            current_track_id,
            user_id: state.user_id,
        }
    }
}

} // verus!
