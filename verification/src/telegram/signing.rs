//! How Telegram signs Mini App init data, and the proof that init data signed that way
//! with the bot's token passes validation.

use crate::outside::{
    hex_digit_lower, hex_digit_upper, hex_lower, hex_value, is_unreserved, percent_decode_bytes,
    percent_encode_byte, percent_encode_bytes, url_encoded,
};
use crate::telegram::fields::{
    check_lines, data_check_string, decoded_component, decoded_pairs, entries_of, hash_key,
    insert_entry, is_unsigned_key, join_lines, keys_sorted, lemma_lookup_insert, lookup,
    pairs_of_pieces, parse_fields, plus_as_space, signature_key, FieldPair,
};
use crate::telegram::webapp::{
    auth_date_key, auth_date_of, init_data_outcome, secret_key, user_key, web_app_data,
};
use crate::order::{lemma_lex_irreflexive, lemma_lex_total, lex_lt};
use crate::outside::hmac_sha256_tag;
use crate::text::{
    ascii_lowercase, eq_ignore_ascii_case, is_white, lemma_find_char, split_on, split_once, trim, trim_end,
    trim_start,
};
use vstd::prelude::*;
use vstd::utf8::{
    encode_utf8, encode_utf8_decode_utf8, encode_utf8_valid_utf8, is_ascii_chars,
    is_ascii_chars_encode_utf8,
};

verus! {

/// Characters that percent-encoded text consists of: unreserved ASCII and `%`.
pub open spec fn is_encoded_char(c: char) -> bool {
    ||| '0' <= c <= '9'
    ||| 'A' <= c <= 'Z'
    ||| 'a' <= c <= 'z'
    ||| c == '-'
    ||| c == '.'
    ||| c == '_'
    ||| c == '~'
    ||| c == '%'
}

/// Characters that percent-encoding keeps as they are.
pub open spec fn is_unreserved_char(c: char) -> bool {
    is_encoded_char(c) && c != '%'
}

pub open spec fn all_encoded(s: Seq<char>) -> bool {
    forall|i: int| 0 <= i < s.len() ==> #[trigger] is_encoded_char(s[i])
}

pub open spec fn all_unreserved(s: Seq<char>) -> bool {
    forall|i: int| 0 <= i < s.len() ==> #[trigger] is_unreserved_char(s[i])
}

proof fn lemma_upper_digit(n: u8)
    requires
        n < 16,
    ensures
        is_encoded_char(hex_digit_upper(n)),
        hex_digit_upper(n) != '%',
        hex_value(hex_digit_upper(n) as u8) == Some(n),
{
}

proof fn lemma_encode_byte_chars(b: u8)
    ensures
        all_encoded(percent_encode_byte(b)),
{
    if !is_unreserved(b) {
        lemma_upper_digit(b / 16);
        lemma_upper_digit(b % 16);
    }
}

/// Percent-encoded text is made of encoded characters only.
pub proof fn lemma_encoded_chars(b: Seq<u8>)
    ensures
        all_encoded(percent_encode_bytes(b)),
    decreases b.len(),
{
    if b.len() > 0 {
        lemma_encoded_chars(b.skip(1));
        lemma_encode_byte_chars(b[0]);
        let x = percent_encode_byte(b[0]);
        let y = percent_encode_bytes(b.skip(1));
        assert forall|i: int| 0 <= i < (x + y).len() implies #[trigger] is_encoded_char(
            (x + y)[i],
        ) by {
            if i < x.len() {
                assert((x + y)[i] == x[i]);
            } else {
                assert((x + y)[i] == y[i - x.len()]);
            }
        }
    }
}

/// The bytes of ASCII characters.
pub open spec fn ascii_bytes(s: Seq<char>) -> Seq<u8> {
    s.map_values(|c: char| c as u8)
}

proof fn lemma_decode_encoded_bytes(b: Seq<u8>)
    ensures
        percent_decode_bytes(ascii_bytes(percent_encode_bytes(b))) == b,
    decreases b.len(),
{
    if b.len() > 0 {
        lemma_decode_encoded_bytes(b.skip(1));
        let x = percent_encode_byte(b[0]);
        let y = percent_encode_bytes(b.skip(1));
        let bytes = ascii_bytes(x + y);
        assert(bytes =~= ascii_bytes(x) + ascii_bytes(y));
        if is_unreserved(b[0]) {
            assert(bytes[0] == b[0]);
            assert(bytes.skip(1) =~= ascii_bytes(y));
        } else {
            lemma_upper_digit(b[0] / 16);
            lemma_upper_digit(b[0] % 16);
            assert(bytes[0] == 37);
            assert(bytes[1] == hex_digit_upper(b[0] / 16) as u8);
            assert(bytes[2] == hex_digit_upper(b[0] % 16) as u8);
            assert(bytes.skip(3) =~= ascii_bytes(y));
        }
        assert(seq![b[0]] + b.skip(1) =~= b);
    } else {
        assert(ascii_bytes(percent_encode_bytes(b)) =~= Seq::<u8>::empty());
    }
}

/// Percent-decoding undoes percent-encoding: a component encoded with
/// `urlencoding::encode` decodes back to itself.
pub proof fn lemma_url_roundtrip(s: Seq<char>)
    ensures
        decoded_component(url_encoded(s)) == Some(s),
{
    let p = url_encoded(s);
    lemma_encoded_chars(encode_utf8(s));
    assert forall|i: int| 0 <= i < p.len() implies plus_as_space(p)[i] == p[i] by {
        assert(is_encoded_char(p[i]));
    }
    assert(plus_as_space(p) =~= p);
    assert forall|i: int| 0 <= i < p.len() implies '\0' <= #[trigger] p[i] <= '\u{7f}' by {
        assert(is_encoded_char(p[i]));
    }
    assert(is_ascii_chars(p));
    is_ascii_chars_encode_utf8(p);
    assert(encode_utf8(p) =~= ascii_bytes(p));
    lemma_decode_encoded_bytes(encode_utf8(s));
    encode_utf8_valid_utf8(s);
    encode_utf8_decode_utf8(s);
}

proof fn lemma_unreserved_byte(c: char)
    requires
        is_unreserved_char(c),
    ensures
        is_unreserved(c as u8),
        (c as u8) as char == c,
{
}

/// Text made of unreserved characters is its own percent-encoding.
pub proof fn lemma_plain_encoded(s: Seq<char>)
    requires
        all_unreserved(s),
    ensures
        url_encoded(s) == s,
{
    assert(is_ascii_chars(s)) by {
        assert forall|i: int| 0 <= i < s.len() implies '\0' <= #[trigger] s[i] <= '\u{7f}' by {
            assert(is_unreserved_char(s[i]));
        }
    }
    is_ascii_chars_encode_utf8(s);
    assert(encode_utf8(s) =~= ascii_bytes(s));
    lemma_plain_bytes_encoded(s);
}

proof fn lemma_plain_bytes_encoded(s: Seq<char>)
    requires
        all_unreserved(s),
    ensures
        percent_encode_bytes(ascii_bytes(s)) == s,
    decreases s.len(),
{
    if s.len() > 0 {
        let t = s.drop_first();
        assert(all_unreserved(t)) by {
            assert forall|i: int| 0 <= i < t.len() implies #[trigger] is_unreserved_char(t[i]) by {
                assert(is_unreserved_char(s[i + 1]));
            }
        }
        lemma_plain_bytes_encoded(t);
        assert(is_unreserved_char(s[0]));
        lemma_unreserved_byte(s[0]);
        assert(ascii_bytes(s).skip(1) =~= ascii_bytes(t));
        assert(seq![s[0]] + t =~= s);
    } else {
        assert(ascii_bytes(s) =~= Seq::<u8>::empty());
        assert(s =~= Seq::<char>::empty());
    }
}

proof fn lemma_hex_lower_unreserved(b: Seq<u8>)
    ensures
        all_unreserved(hex_lower(b)),
    decreases b.len(),
{
    if b.len() > 0 {
        lemma_hex_lower_unreserved(b.drop_last());
        let x = hex_lower(b.drop_last());
        let y = seq![hex_digit_lower(b.last() / 16), hex_digit_lower(b.last() % 16)];
        assert forall|i: int| 0 <= i < (x + y).len() implies #[trigger] is_unreserved_char(
            (x + y)[i],
        ) by {
            if i < x.len() {
                assert((x + y)[i] == x[i]);
            } else {
                assert((x + y)[i] == y[i - x.len()]);
            }
        }
    }
}

/// The `key=value` piece that Telegram puts into init data for a field.
pub open spec fn encoded_piece(p: FieldPair) -> Seq<char> {
    url_encoded(p.0) + seq!['='] + url_encoded(p.1)
}

/// `pieces` joined by `&`.
pub open spec fn join_amp(pieces: Seq<Seq<char>>) -> Seq<char>
    decreases pieces.len(),
{
    if pieces.len() == 0 {
        seq![]
    } else if pieces.len() == 1 {
        pieces[0]
    } else {
        join_amp(pieces.drop_last()) + seq!['&'] + pieces.last()
    }
}

/// The hex signature of `fields` under a bot token: HMAC-SHA256, keyed with the bot's
/// secret key, of the data-check string of the fields.
pub open spec fn signature_for(fields: Seq<FieldPair>, bot_token: Seq<char>) -> Seq<char> {
    hex_lower(
        hmac_sha256_tag(secret_key(bot_token), encode_utf8(join_lines(check_lines(fields)))),
    )
}

/// Init data laid out as Telegram lays it out: each field percent-encoded as
/// `key=value`, followed by `hash=` and `sig`, joined by `&`.
pub open spec fn init_data_with_hash(fields: Seq<FieldPair>, sig: Seq<char>) -> Seq<char> {
    join_amp(fields.map_values(|p: FieldPair| encoded_piece(p)).push(hash_key() + seq!['='] + sig))
}

/// Init data as Telegram builds it for `fields` with the bot's token.
pub open spec fn signed_init_data(fields: Seq<FieldPair>, bot_token: Seq<char>) -> Seq<char> {
    init_data_with_hash(fields, signature_for(fields, bot_token))
}

proof fn lemma_split_plain(x: Seq<char>, b: Seq<char>, sep: char)
    requires
        forall|i: int| 0 <= i < b.len() ==> b[i] != sep,
    ensures
        split_on(x + b, sep) == split_on(x, sep).update(
            split_on(x, sep).len() - 1,
            split_on(x, sep).last() + b,
        ),
    decreases b.len(),
{
    crate::text::lemma_split_on_nonempty(x, sep);
    if b.len() == 0 {
        assert(x + b =~= x);
        assert(split_on(x, sep).last() + b =~= split_on(x, sep).last());
        assert(split_on(x, sep).update(split_on(x, sep).len() - 1, split_on(x, sep).last())
            =~= split_on(x, sep));
    } else {
        lemma_split_plain(x, b.drop_last(), sep);
        assert((x + b).drop_last() =~= x + b.drop_last());
        assert((x + b).last() == b.last());
        let r = split_on(x + b.drop_last(), sep);
        assert(r.last() =~= split_on(x, sep).last() + b.drop_last());
        assert(r.last().push(b.last()) =~= split_on(x, sep).last() + b);
        assert(split_on(x + b, sep) =~= split_on(x, sep).update(
            split_on(x, sep).len() - 1,
            split_on(x, sep).last() + b,
        ));
    }
}

proof fn lemma_split_join(pieces: Seq<Seq<char>>)
    requires
        pieces.len() >= 1,
        forall|i: int, j: int| 0 <= i < pieces.len() && 0 <= j < pieces[i].len() ==> #[trigger] pieces[i][j] != '&',
    ensures
        split_on(join_amp(pieces), '&') == pieces,
    decreases pieces.len(),
{
    let last = pieces.last();
    assert forall|j: int| 0 <= j < last.len() implies last[j] != '&' by {
        assert(pieces[pieces.len() - 1][j] != '&');
    }
    if pieces.len() == 1 {
        lemma_split_plain(Seq::<char>::empty(), last, '&');
        assert(Seq::<char>::empty() + last =~= last);
        assert(split_on(Seq::<char>::empty(), '&') =~= seq![Seq::<char>::empty()]);
        assert(Seq::<char>::empty() + last =~= last);
        assert(split_on(join_amp(pieces), '&') =~= pieces);
    } else {
        let front = pieces.drop_last();
        assert forall|i: int, j: int| 0 <= i < front.len() && 0 <= j < front[i].len() implies #[trigger] front[i][j] != '&' by {
            assert(front[i] == pieces[i]);
            assert(pieces[i][j] != '&');
        }
        lemma_split_join(front);
        let a = join_amp(front) + seq!['&'];
        assert(a.drop_last() =~= join_amp(front));
        assert(split_on(a, '&') == front.push(Seq::<char>::empty()));
        lemma_split_plain(a, last, '&');
        assert(Seq::<char>::empty() + last =~= last);
        assert(join_amp(pieces) =~= a + last);
        assert(split_on(join_amp(pieces), '&') =~= pieces);
    }
}

pub proof fn lemma_split_once_at(a: Seq<char>, b: Seq<char>)
    requires
        forall|i: int| 0 <= i < a.len() ==> a[i] != '=',
    ensures
        split_once(a + seq!['='] + b, '=') == Some((a, b)),
{
    let s = a + seq!['='] + b;
    assert forall|j: int| 0 <= j < a.len() implies s[j] != '=' by {
        assert(s[j] == a[j]);
    }
    lemma_find_char(s, '=', a.len() as int);
    assert(s.take(a.len() as int) =~= a);
    assert(s.skip(a.len() as int + 1) =~= b);
}

proof fn lemma_pairs_of_pieces(pieces: Seq<Seq<char>>, raw: Seq<FieldPair>)
    requires
        pieces.len() == raw.len(),
        forall|i: int| 0 <= i < pieces.len() ==> split_once(#[trigger] pieces[i], '=') == Some(raw[i]),
    ensures
        pairs_of_pieces(pieces) == Some(raw),
    decreases pieces.len(),
{
    if pieces.len() > 0 {
        assert forall|i: int| 0 <= i < pieces.drop_last().len() implies split_once(
            #[trigger] pieces.drop_last()[i],
            '=',
        ) == Some(raw.drop_last()[i]) by {
            assert(pieces.drop_last()[i] == pieces[i]);
        }
        lemma_pairs_of_pieces(pieces.drop_last(), raw.drop_last());
        assert(split_once(pieces[pieces.len() - 1], '=') == Some(raw[raw.len() - 1]));
        assert(raw.drop_last().push(raw.last()) =~= raw);
    } else {
        assert(raw =~= Seq::<FieldPair>::empty());
    }
}

proof fn lemma_decoded_pairs(raw: Seq<FieldPair>, d: Seq<FieldPair>)
    requires
        raw.len() == d.len(),
        forall|i: int| 0 <= i < raw.len() ==> decoded_component(#[trigger] raw[i].0) == Some(d[i].0)
            && decoded_component(raw[i].1) == Some(d[i].1),
    ensures
        decoded_pairs(raw) == Some(d),
    decreases raw.len(),
{
    if raw.len() > 0 {
        assert forall|i: int| 0 <= i < raw.drop_last().len() implies decoded_component(
            #[trigger] raw.drop_last()[i].0,
        ) == Some(d.drop_last()[i].0) && decoded_component(raw.drop_last()[i].1) == Some(
            d.drop_last()[i].1,
        ) by {
            assert(raw.drop_last()[i] == raw[i]);
        }
        lemma_decoded_pairs(raw.drop_last(), d.drop_last());
        let k = raw.len() - 1;
        assert(decoded_component(raw[k].0) == Some(d[k].0));
        assert(decoded_component(raw[k].1) == Some(d[k].1));
        assert(d.drop_last().push((d.last().0, d.last().1)) =~= d);
    } else {
        assert(d =~= Seq::<FieldPair>::empty());
    }
}

proof fn lemma_insert_after_all(e: Seq<FieldPair>, k: Seq<char>, v: Seq<char>)
    requires
        forall|i: int| 0 <= i < e.len() ==> lex_lt(#[trigger] e[i].0, k),
    ensures
        insert_entry(e, k, v) == e.push((k, v)),
    decreases e.len(),
{
    if e.len() > 0 {
        lemma_lex_irreflexive(k);
        lemma_lex_total(k, e[0].0);
        assert forall|i: int| 0 <= i < e.drop_first().len() implies lex_lt(
            #[trigger] e.drop_first()[i].0,
            k,
        ) by {
            assert(e.drop_first()[i] == e[i + 1]);
        }
        lemma_insert_after_all(e.drop_first(), k, v);
        assert(seq![e[0]] + e.drop_first().push((k, v)) =~= e.push((k, v)));
    }
}

/// Entries that are already ordered by key are their own map.
proof fn lemma_entries_of_sorted(e: Seq<FieldPair>)
    requires
        keys_sorted(e),
    ensures
        entries_of(e) == e,
    decreases e.len(),
{
    if e.len() > 0 {
        let f = e.drop_last();
        assert(keys_sorted(f)) by {
            assert forall|i: int, j: int| 0 <= i < j < f.len() implies lex_lt(
                #[trigger] f[i].0,
                #[trigger] f[j].0,
            ) by {
                assert(f[i] == e[i] && f[j] == e[j]);
            }
        }
        lemma_entries_of_sorted(f);
        assert forall|i: int| 0 <= i < f.len() implies lex_lt(#[trigger] f[i].0, e.last().0) by {
            assert(f[i] == e[i]);
            assert(lex_lt(e[i].0, e[e.len() - 1].0));
        }
        lemma_insert_after_all(f, e.last().0, e.last().1);
        assert(f.push((e.last().0, e.last().1)) =~= e);
    } else {
        assert(e =~= Seq::<FieldPair>::empty());
    }
}

/// Storing a `hash` or `signature` entry leaves the signed lines unchanged.
proof fn lemma_check_lines_insert_unsigned(e: Seq<FieldPair>, k: Seq<char>, v: Seq<char>)
    requires
        is_unsigned_key(k),
    ensures
        check_lines(insert_entry(e, k, v)) == check_lines(e),
    decreases e.len(),
{
    let r = insert_entry(e, k, v);
    if e.len() == 0 {
        assert(r[0] == (k, v));
        assert(r.drop_first() =~= Seq::<FieldPair>::empty());
        assert(check_lines(r) == check_lines(r.drop_first()));
        assert(check_lines(r.drop_first()) =~= Seq::<Seq<char>>::empty());
        assert(check_lines(e) =~= Seq::<Seq<char>>::empty());
    } else if e[0].0 == k {
        assert(r[0] == (k, v));
        assert(r.drop_first() =~= e.drop_first());
        assert(check_lines(r) == check_lines(r.drop_first()));
        assert(check_lines(e) == check_lines(e.drop_first()));
    } else if lex_lt(k, e[0].0) {
        assert(r[0] == (k, v));
        assert(r.drop_first() =~= e);
        assert(check_lines(r) == check_lines(r.drop_first()));
    } else {
        lemma_check_lines_insert_unsigned(e.drop_first(), k, v);
        assert(r[0] == e[0]);
        assert(r.drop_first() =~= insert_entry(e.drop_first(), k, v));
    }
}

proof fn lemma_check_lines_nonempty(e: Seq<FieldPair>, x: Seq<char>)
    requires
        lookup(e, x) is Some,
        !is_unsigned_key(x),
    ensures
        check_lines(e).len() > 0,
    decreases e.len(),
{
    if e.len() > 0 && e[0].0 != x {
        lemma_check_lines_nonempty(e.drop_first(), x);
    }
}

proof fn lemma_join_amp_len(pieces: Seq<Seq<char>>)
    requires
        pieces.len() >= 1,
    ensures
        join_amp(pieces).len() >= pieces.last().len(),
{
}

/// Text whose characters are all printable and not white space is unchanged by trimming.
proof fn lemma_trim_plain(s: Seq<char>)
    requires
        forall|i: int| 0 <= i < s.len() ==> !is_white(#[trigger] s[i]),
    ensures
        trim(s) == s,
{
    if s.len() > 0 {
        assert(!is_white(s[0]));
        assert(trim_start(s) == s);
        assert(!is_white(s[s.len() - 1]));
        assert(trim_end(s) == s);
    }
}

proof fn lemma_join_amp_chars(pieces: Seq<Seq<char>>, ok: spec_fn(char) -> bool)
    requires
        forall|i: int, j: int| 0 <= i < pieces.len() && 0 <= j < pieces[i].len() ==> ok(#[trigger] pieces[i][j]),
        ok('&'),
    ensures
        forall|j: int| 0 <= j < join_amp(pieces).len() ==> ok(#[trigger] join_amp(pieces)[j]),
    decreases pieces.len(),
{
    if pieces.len() == 1 {
        assert forall|j: int| 0 <= j < join_amp(pieces).len() implies ok(#[trigger] join_amp(pieces)[j]) by {
            assert(ok(pieces[0][j]));
        }
    } else if pieces.len() > 1 {
        let front = pieces.drop_last();
        assert forall|i: int, j: int| 0 <= i < front.len() && 0 <= j < front[i].len() implies ok(#[trigger] front[i][j]) by {
            assert(front[i] == pieces[i]);
            assert(ok(pieces[i][j]));
        }
        lemma_join_amp_chars(front, ok);
        let a = join_amp(front);
        let last = pieces.last();
        assert forall|j: int| 0 <= j < join_amp(pieces).len() implies ok(#[trigger] join_amp(pieces)[j]) by {
            if j < a.len() {
                assert(join_amp(pieces)[j] == a[j]);
            } else if j == a.len() {
                assert(join_amp(pieces)[j] == '&');
            } else {
                assert(join_amp(pieces)[j] == last[j - a.len() - 1]);
                assert(ok(pieces[pieces.len() - 1][j - a.len() - 1]));
            }
        }
    }
}

/// Characters of the pieces of signed init data.
pub open spec fn is_piece_char(c: char) -> bool {
    is_encoded_char(c) || c == '='
}

proof fn lemma_piece_chars(p: FieldPair)
    ensures
        forall|j: int| 0 <= j < encoded_piece(p).len() ==> is_piece_char(#[trigger] encoded_piece(p)[j]),
        forall|j: int| 0 <= j < url_encoded(p.0).len() ==> #[trigger] url_encoded(p.0)[j] != '=',
{
    lemma_encoded_chars(encode_utf8(p.0));
    lemma_encoded_chars(encode_utf8(p.1));
    let k = url_encoded(p.0);
    let v = url_encoded(p.1);
    assert forall|j: int| 0 <= j < encoded_piece(p).len() implies is_piece_char(#[trigger] encoded_piece(p)[j]) by {
        if j < k.len() {
            assert(encoded_piece(p)[j] == k[j]);
            assert(is_encoded_char(k[j]));
        } else if j > k.len() {
            assert(encoded_piece(p)[j] == v[j - k.len() - 1]);
            assert(is_encoded_char(v[j - k.len() - 1]));
        }
    }
    assert forall|j: int| 0 <= j < k.len() implies #[trigger] k[j] != '=' by {
        assert(is_encoded_char(k[j]));
    }
}

/// Init data is accepted only when its `hash` equals, up to ASCII case, the hex
/// HMAC-SHA256 of its data-check string under the bot's secret key.
pub proof fn lemma_accepted_only_if_signed(init_data: Seq<char>, bot_token: Seq<char>)
    ensures
        init_data_outcome(init_data, bot_token) is Ok ==> {
            &&& parse_fields(init_data) is Ok
            &&& lookup(parse_fields(init_data)->Ok_0, hash_key()) is Some
            &&& data_check_string(parse_fields(init_data)->Ok_0) is Ok
            &&& eq_ignore_ascii_case(
                hex_lower(
                    hmac_sha256_tag(
                        secret_key(bot_token),
                        encode_utf8(data_check_string(parse_fields(init_data)->Ok_0)->Ok_0),
                    ),
                ),
                lookup(parse_fields(init_data)->Ok_0, hash_key())->0,
            )
        },
{
}

/// Parsing init data laid out as Telegram lays it out gives the fields with `sig` stored
/// under `hash`.
proof fn lemma_parse_with_hash(fields: Seq<FieldPair>, sig: Seq<char>)
    requires
        keys_sorted(fields),
        forall|i: int| 0 <= i < fields.len() ==> !is_unsigned_key(#[trigger] fields[i].0),
        all_unreserved(sig),
    ensures
        parse_fields(init_data_with_hash(fields, sig)) == Ok::<
            Seq<FieldPair>,
            crate::telegram::webapp::TelegramWebAppError,
        >(insert_entry(fields, hash_key(), sig)),
{
    let n = fields.len();
    let hp = hash_key() + seq!['='] + sig;
    let enc = fields.map_values(|p: FieldPair| encoded_piece(p));
    let pieces = enc.push(hp);
    let text = join_amp(pieces);
    // Every character of every piece is a piece character.
    assert forall|i: int, j: int| 0 <= i < pieces.len() && 0 <= j < pieces[i].len() implies is_piece_char(#[trigger] pieces[i][j]) by {
        if i < n {
            assert(pieces[i] == encoded_piece(fields[i]));
            lemma_piece_chars(fields[i]);
        } else {
            assert(pieces[i] == hp);
            if j > 4 {
                assert(hp[j] == sig[j - 5]);
                assert(is_unreserved_char(sig[j - 5]));
            }
        }
    }
    // Trimming leaves the text alone.
    let not_white = |c: char| !is_white(c);
    assert forall|i: int, j: int| 0 <= i < pieces.len() && 0 <= j < pieces[i].len() implies not_white(#[trigger] pieces[i][j]) by {
        assert(is_piece_char(pieces[i][j]));
    }
    lemma_join_amp_chars(pieces, not_white);
    assert forall|j: int| 0 <= j < text.len() implies !is_white(#[trigger] text[j]) by {
        assert(not_white(text[j]));
    }
    lemma_trim_plain(text);
    lemma_join_amp_len(pieces);
    assert(text.len() > 0);
    // Splitting at `&` gives the pieces back.
    assert forall|i: int, j: int| 0 <= i < pieces.len() && 0 <= j < pieces[i].len() implies #[trigger] pieces[i][j] != '&' by {
        assert(is_piece_char(pieces[i][j]));
    }
    lemma_split_join(pieces);
    // Splitting each piece at `=` gives the encoded pairs.
    let raw = fields.map_values(|p: FieldPair| (url_encoded(p.0), url_encoded(p.1))).push(
        (hash_key(), sig),
    );
    assert forall|i: int| 0 <= i < pieces.len() implies split_once(#[trigger] pieces[i], '=') == Some(raw[i]) by {
        if i < n {
            lemma_piece_chars(fields[i]);
            lemma_split_once_at(url_encoded(fields[i].0), url_encoded(fields[i].1));
            assert(pieces[i] == url_encoded(fields[i].0) + seq!['='] + url_encoded(fields[i].1));
        } else {
            lemma_split_once_at(hash_key(), sig);
        }
    }
    lemma_pairs_of_pieces(pieces, raw);
    // Decoding gives the fields back.
    let d = fields.push((hash_key(), sig));
    assert forall|i: int| 0 <= i < raw.len() implies decoded_component(#[trigger] raw[i].0) == Some(d[i].0)
        && decoded_component(raw[i].1) == Some(d[i].1) by {
        if i < n {
            lemma_url_roundtrip(fields[i].0);
            lemma_url_roundtrip(fields[i].1);
        } else {
            assert(all_unreserved(hash_key())) by {
                assert forall|j: int| 0 <= j < hash_key().len() implies #[trigger] is_unreserved_char(hash_key()[j]) by {
                }
            }
            lemma_plain_encoded(hash_key());
            lemma_url_roundtrip(hash_key());
            lemma_plain_encoded(sig);
            lemma_url_roundtrip(sig);
        }
    }
    lemma_decoded_pairs(raw, d);
    // The map of the fields with the hash stored in it.
    lemma_entries_of_sorted(fields);
    assert(d.drop_last() =~= fields);
    let e = insert_entry(fields, hash_key(), sig);
    assert(entries_of(d) == e);
    assert(parse_fields(text) == Ok::<Seq<FieldPair>, crate::telegram::webapp::TelegramWebAppError>(e));
}

/// Fields such as Telegram signs: ordered by key, none named `hash` or `signature`, one
/// named `user`.
pub open spec fn signable_fields(fields: Seq<FieldPair>) -> bool {
    &&& keys_sorted(fields)
    &&& forall|i: int| 0 <= i < fields.len() ==> !is_unsigned_key(#[trigger] fields[i].0)
    &&& lookup(fields, user_key()) is Some
}

/// The bytes that the signature of `fields` covers: their data-check string.
pub open spec fn signed_message(fields: Seq<FieldPair>) -> Seq<u8> {
    encode_utf8(join_lines(check_lines(fields)))
}

/// Init data laid out as Telegram lays it out, carrying `fields` and a hex `sig` as its
/// hash, is accepted under `bot_token` exactly when `sig` is, up to ASCII case, the hex
/// tag of the data-check string of `fields` under the bot's secret key; otherwise it is
/// refused with `InvalidSignature`.
pub proof fn lemma_outcome_with_hash(fields: Seq<FieldPair>, sig: Seq<char>, bot_token: Seq<char>)
    requires
        signable_fields(fields),
        all_unreserved(sig),
    ensures
        init_data_outcome(init_data_with_hash(fields, sig), bot_token) == (if eq_ignore_ascii_case(
            hex_lower(hmac_sha256_tag(secret_key(bot_token), signed_message(fields))),
            sig,
        ) {
            Ok::<(Seq<char>, Option<i64>), crate::telegram::webapp::TelegramWebAppError>(
                (lookup(fields, user_key())->0, auth_date_of(fields)),
            )
        } else {
            Err(crate::telegram::webapp::TelegramWebAppError::InvalidSignature)
        }),
{
    let e = insert_entry(fields, hash_key(), sig);
    lemma_parse_with_hash(fields, sig);
    // The hash is found, and the signed lines are those of the fields.
    lemma_lookup_insert(fields, hash_key(), sig, hash_key());
    assert(is_unsigned_key(hash_key()));
    lemma_check_lines_insert_unsigned(fields, hash_key(), sig);
    assert(!is_unsigned_key(user_key())) by {
        assert(user_key()[0] != hash_key()[0]);
        assert(user_key().len() != signature_key().len());
    }
    lemma_check_lines_nonempty(fields, user_key());
    // `user` and `auth_date` are those of the fields.
    lemma_lookup_insert(fields, hash_key(), sig, user_key());
    lemma_lookup_insert(fields, hash_key(), sig, auth_date_key());
    assert(user_key() != hash_key()) by {
        assert(user_key()[0] != hash_key()[0]);
    }
    assert(auth_date_key() != hash_key()) by {
        assert(auth_date_key().len() != hash_key().len());
    }
    assert(auth_date_of(e) == auth_date_of(fields));
}

/// Init data that Telegram signed with the bot's token passes validation: whatever the
/// fields (ordered by key, none named `hash` or `signature`, one named `user`), the
/// `user` field and the `auth_date` are read back from it.
pub proof fn lemma_signed_init_data_accepted(fields: Seq<FieldPair>, bot_token: Seq<char>)
    requires
        signable_fields(fields),
    ensures
        init_data_outcome(signed_init_data(fields, bot_token), bot_token) == Ok::<
            (Seq<char>, Option<i64>),
            crate::telegram::webapp::TelegramWebAppError,
        >((lookup(fields, user_key())->0, auth_date_of(fields))),
{
    let tag = hmac_sha256_tag(secret_key(bot_token), signed_message(fields));
    lemma_hex_lower_unreserved(tag);
    lemma_outcome_with_hash(fields, signature_for(fields, bot_token), bot_token);
}

/// Whether `c` is a lower-case hex digit.
pub open spec fn is_lower_hex_digit(c: char) -> bool {
    ('0' <= c <= '9') || ('a' <= c <= 'f')
}

proof fn lemma_hex_digit_lower(n: u8, m: u8)
    requires
        n < 16,
        m < 16,
    ensures
        is_lower_hex_digit(hex_digit_lower(n)),
        hex_digit_lower(n) == hex_digit_lower(m) ==> n == m,
{
}

proof fn lemma_hex_lower_shape(b: Seq<u8>)
    ensures
        hex_lower(b).len() == 2 * b.len(),
        forall|i: int| 0 <= i < hex_lower(b).len() ==> #[trigger] is_lower_hex_digit(hex_lower(b)[i]),
    decreases b.len(),
{
    if b.len() > 0 {
        lemma_hex_lower_shape(b.drop_last());
        lemma_hex_digit_lower(b.last() / 16, 0);
        lemma_hex_digit_lower(b.last() % 16, 0);
        let x = hex_lower(b.drop_last());
        let y = seq![hex_digit_lower(b.last() / 16), hex_digit_lower(b.last() % 16)];
        assert forall|i: int| 0 <= i < (x + y).len() implies #[trigger] is_lower_hex_digit((x + y)[i]) by {
            if i < x.len() {
                assert((x + y)[i] == x[i]);
            } else {
                assert((x + y)[i] == y[i - x.len()]);
            }
        }
    }
}

/// Hex text in lower case is unchanged by ASCII lower-casing.
proof fn lemma_hex_lower_lowercase(b: Seq<u8>)
    ensures
        ascii_lowercase(hex_lower(b)) == hex_lower(b),
{
    lemma_hex_lower_shape(b);
    let h = hex_lower(b);
    assert forall|i: int| 0 <= i < h.len() implies ascii_lowercase(h)[i] == h[i] by {
        assert(is_lower_hex_digit(h[i]));
    }
    assert(ascii_lowercase(h) =~= h);
}

/// Distinct byte strings have distinct hex texts.
proof fn lemma_hex_lower_injective(a: Seq<u8>, b: Seq<u8>)
    requires
        hex_lower(a) == hex_lower(b),
    ensures
        a == b,
    decreases a.len(),
{
    lemma_hex_lower_shape(a);
    lemma_hex_lower_shape(b);
    if a.len() > 0 {
        let ha = hex_lower(a.drop_last());
        let hb = hex_lower(b.drop_last());
        lemma_hex_lower_shape(a.drop_last());
        lemma_hex_lower_shape(b.drop_last());
        let n = ha.len();
        assert(hex_lower(a).subrange(0, n as int) =~= ha);
        assert(hex_lower(b).subrange(0, n as int) =~= hb);
        lemma_hex_lower_injective(a.drop_last(), b.drop_last());
        let x = a.last();
        let y = b.last();
        assert(hex_lower(a)[n as int] == hex_digit_lower(x / 16));
        assert(hex_lower(b)[n as int] == hex_digit_lower(y / 16));
        assert(hex_lower(a)[n as int + 1] == hex_digit_lower(x % 16));
        assert(hex_lower(b)[n as int + 1] == hex_digit_lower(y % 16));
        lemma_hex_digit_lower(x / 16, y / 16);
        lemma_hex_digit_lower(x % 16, y % 16);
        assert(x == y) by (bit_vector)
            requires
                x / 16 == y / 16,
                x % 16 == y % 16,
        ;
        assert(a =~= a.drop_last().push(x));
        assert(b =~= b.drop_last().push(y));
    }
}

/// Two tags whose hex texts agree up to ASCII case are the same tag.
pub proof fn lemma_hex_case_determines_tag(a: Seq<u8>, b: Seq<u8>)
    requires
        eq_ignore_ascii_case(hex_lower(a), hex_lower(b)),
    ensures
        a == b,
{
    lemma_hex_lower_lowercase(a);
    lemma_hex_lower_lowercase(b);
    lemma_hex_lower_injective(a, b);
}

/// HMAC-SHA256 gives the same tag for two different (key, message) pairs.
pub open spec fn is_hmac_collision(k1: Seq<u8>, m1: Seq<u8>, k2: Seq<u8>, m2: Seq<u8>) -> bool {
    &&& (k1, m1) != (k2, m2)
    &&& hmac_sha256_tag(k1, m1) == hmac_sha256_tag(k2, m2)
}

/// Init data that carries the fields `other` and, as its hash, the signature of `fields`
/// made with `signer` is accepted under `bot_token` only if HMAC-SHA256 gives the same tag
/// for the secret key of `signer` with the data-check string of `fields` as for the secret
/// key of `bot_token` with the data-check string of `other`.
pub proof fn lemma_accepted_signature_matches(
    fields: Seq<FieldPair>,
    signer: Seq<char>,
    other: Seq<FieldPair>,
    bot_token: Seq<char>,
)
    requires
        signable_fields(other),
    ensures
        init_data_outcome(init_data_with_hash(other, signature_for(fields, signer)), bot_token)
            is Ok ==> hmac_sha256_tag(secret_key(signer), signed_message(fields))
            == hmac_sha256_tag(secret_key(bot_token), signed_message(other)),
        init_data_outcome(init_data_with_hash(other, signature_for(fields, signer)), bot_token)
            is Err ==> init_data_outcome(
            init_data_with_hash(other, signature_for(fields, signer)),
            bot_token,
        ) == Err::<(Seq<char>, Option<i64>), crate::telegram::webapp::TelegramWebAppError>(
            crate::telegram::webapp::TelegramWebAppError::InvalidSignature,
        ),
{
    let t1 = hmac_sha256_tag(secret_key(signer), signed_message(fields));
    let t2 = hmac_sha256_tag(secret_key(bot_token), signed_message(other));
    lemma_hex_lower_unreserved(t1);
    lemma_outcome_with_hash(other, hex_lower(t1), bot_token);
    if eq_ignore_ascii_case(hex_lower(t2), hex_lower(t1)) {
        lemma_hex_case_determines_tag(t2, t1);
    }
}

/// Init data signed with one bot token is refused under another token with
/// `InvalidSignature`, unless HMAC-SHA256 collides: either on the two tokens under
/// `WebAppData`, or on the signed data under the two secret keys.
pub proof fn lemma_other_token_refused(fields: Seq<FieldPair>, signer: Seq<char>, bot_token: Seq<char>)
    requires
        signable_fields(fields),
        signer != bot_token,
    ensures
        init_data_outcome(signed_init_data(fields, signer), bot_token) == Err::<
            (Seq<char>, Option<i64>),
            crate::telegram::webapp::TelegramWebAppError,
        >(crate::telegram::webapp::TelegramWebAppError::InvalidSignature) || {
            ||| is_hmac_collision(
                web_app_data(),
                encode_utf8(signer),
                web_app_data(),
                encode_utf8(bot_token),
            )
            ||| is_hmac_collision(
                secret_key(signer),
                signed_message(fields),
                secret_key(bot_token),
                signed_message(fields),
            )
        },
{
    lemma_accepted_signature_matches(fields, signer, fields, bot_token);
    if encode_utf8(signer) == encode_utf8(bot_token) {
        encode_utf8_decode_utf8(signer);
        encode_utf8_decode_utf8(bot_token);
    }
}

/// Init data whose fields were altered after Telegram signed them is refused with
/// `InvalidSignature`, unless HMAC-SHA256 collides on the two data-check strings under the
/// bot's secret key.
pub proof fn lemma_altered_fields_refused(
    fields: Seq<FieldPair>,
    altered: Seq<FieldPair>,
    bot_token: Seq<char>,
)
    requires
        signable_fields(altered),
        join_lines(check_lines(altered)) != join_lines(check_lines(fields)),
    ensures
        init_data_outcome(init_data_with_hash(altered, signature_for(fields, bot_token)), bot_token)
            == Err::<(Seq<char>, Option<i64>), crate::telegram::webapp::TelegramWebAppError>(
            crate::telegram::webapp::TelegramWebAppError::InvalidSignature,
        ) || is_hmac_collision(
            secret_key(bot_token),
            signed_message(fields),
            secret_key(bot_token),
            signed_message(altered),
        ),
{
    lemma_accepted_signature_matches(fields, bot_token, altered, bot_token);
    if signed_message(fields) == signed_message(altered) {
        encode_utf8_decode_utf8(join_lines(check_lines(fields)));
        encode_utf8_decode_utf8(join_lines(check_lines(altered)));
    }
}

} // verus!
