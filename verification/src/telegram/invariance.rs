//! What validation of init data does not depend on: the order of its pairs, and the
//! ASCII case of its hash.

use crate::order::{lemma_lex_irreflexive, lemma_lex_total, lex_lt};
use crate::telegram::fields::{
    check_lines, decoded_component, decoded_pairs, entries_of, hash_key, is_unsigned_key,
    keys_after, keys_sorted, last_value, lemma_entries_of, lookup, pairs_of_pieces, parse_fields,
    plus_as_space, FieldPair,
};
use crate::ascii_case::{
    lemma_chars_case_at, lemma_encode_case, lemma_percent_decode_case, lemma_utf8_case,
};
use crate::outside::percent_decode_bytes;
use crate::telegram::signing::{
    all_unreserved, is_unreserved_char, lemma_plain_encoded, lemma_split_once_at,
    lemma_url_roundtrip,
};
use crate::telegram::webapp::{
    auth_date_key, auth_date_of, fields_outcome, init_data_outcome, user_key, TelegramWebAppError,
};
use crate::text::{ascii_lowercase, eq_ignore_ascii_case, split_on, split_once, trim};
use vstd::prelude::*;
use vstd::utf8::encode_utf8;

verus! {

/// The pieces of init data: its trimmed text split at `&`.
pub open spec fn init_data_pieces(s: Seq<char>) -> Seq<Seq<char>> {
    split_on(trim(s), '&')
}

/// The decoded key and value of a piece: the piece split at its first `=`, both sides
/// percent-decoded; `None` when it has no `=` or a side does not decode.
pub open spec fn decoded_piece(p: Seq<char>) -> Option<FieldPair> {
    match split_once(p, '=') {
        Some(kv) => match (decoded_component(kv.0), decoded_component(kv.1)) {
            (Some(k), Some(v)) => Some((k, v)),
            _ => None,
        },
        None => None,
    }
}

/// The decoded pairs of all pieces, in order; `None` when a piece does not decode.
pub open spec fn decode_pieces(ps: Seq<Seq<char>>) -> Option<Seq<FieldPair>>
    decreases ps.len(),
{
    if ps.len() == 0 {
        Some(seq![])
    } else {
        match (decode_pieces(ps.drop_last()), decoded_piece(ps.last())) {
            (Some(d), Some(x)) => Some(d.push(x)),
            _ => None,
        }
    }
}

/// The fields that the pieces of init data give, or the error that refuses them.
pub open spec fn pieces_fields(ps: Seq<Seq<char>>) -> Result<Seq<FieldPair>, TelegramWebAppError> {
    match decode_pieces(ps) {
        None => Err(TelegramWebAppError::InvalidInitData),
        Some(d) => Ok(entries_of(d)),
    }
}

/// The decoded keys of the pieces are pairwise distinct.
pub open spec fn distinct_piece_keys(ps: Seq<Seq<char>>) -> bool {
    forall|a: int, b: int|
        0 <= a < b < ps.len() && (#[trigger] decoded_piece(ps[a])) is Some && (
        #[trigger] decoded_piece(ps[b])) is Some ==> (decoded_piece(ps[a])->0).0 != (
        decoded_piece(ps[b])->0).0
}

/// The piece `q` is the piece `p`, or both are `hash=` pieces whose values differ only
/// in the ASCII case of letters.
pub open spec fn same_but_hash_case(p: Seq<char>, q: Seq<char>) -> bool {
    ||| p == q
    ||| {
        &&& p.len() >= 5
        &&& q.len() >= 5
        &&& p.take(5) == hash_key().push('=')
        &&& q.take(5) == hash_key().push('=')
        &&& eq_ignore_ascii_case(p.skip(5), q.skip(5))
    }
}

/// Two field maps, ordered by key, that agree on every key but `hash`, and whose `hash`
/// values are both absent or agree up to ASCII case.
pub open spec fn same_but_hash_case_fields(e1: Seq<FieldPair>, e2: Seq<FieldPair>) -> bool {
    &&& keys_sorted(e1)
    &&& keys_sorted(e2)
    &&& forall|x: Seq<char>| x != hash_key() ==> #[trigger] lookup(e1, x) == lookup(e2, x)
    &&& match (lookup(e1, hash_key()), lookup(e2, hash_key())) {
        (None, None) => true,
        (Some(a), Some(b)) => eq_ignore_ascii_case(a, b),
        _ => false,
    }
}

/// The entries of `e` that the signature covers: all but `hash` and `signature`.
pub open spec fn signed_entries(e: Seq<FieldPair>) -> Seq<FieldPair>
    decreases e.len(),
{
    if e.len() == 0 {
        seq![]
    } else if is_unsigned_key(e[0].0) {
        signed_entries(e.drop_first())
    } else {
        seq![e[0]] + signed_entries(e.drop_first())
    }
}

proof fn lemma_sorted_tail(e: Seq<FieldPair>)
    requires
        keys_sorted(e),
        e.len() > 0,
    ensures
        keys_sorted(e.drop_first()),
        keys_after(e.drop_first(), e[0].0),
{
    let t = e.drop_first();
    assert forall|i: int, j: int| 0 <= i < j < t.len() implies lex_lt(
        #[trigger] t[i].0,
        #[trigger] t[j].0,
    ) by {
        assert(t[i] == e[i + 1] && t[j] == e[j + 1]);
    }
    assert forall|i: int| 0 <= i < t.len() implies lex_lt(e[0].0, #[trigger] t[i].0) by {
        assert(t[i] == e[i + 1]);
    }
}

proof fn lemma_lookup_cons(a: FieldPair, s: Seq<FieldPair>, x: Seq<char>)
    ensures
        lookup(seq![a] + s, x) == (if a.0 == x {
            Some(a.1)
        } else {
            lookup(s, x)
        }),
{
    assert((seq![a] + s)[0] == a);
    assert((seq![a] + s).drop_first() =~= s);
}

/// In an ordered map, the entry at `i` is what its key looks up.
proof fn lemma_lookup_sorted(e: Seq<FieldPair>, i: int)
    requires
        keys_sorted(e),
        0 <= i < e.len(),
    ensures
        lookup(e, e[i].0) == Some(e[i].1),
    decreases e.len(),
{
    if i > 0 {
        lemma_lex_irreflexive(e[i].0);
        assert(lex_lt(e[0].0, e[i].0));
        lemma_sorted_tail(e);
        lemma_lookup_sorted(e.drop_first(), i - 1);
        assert(e.drop_first()[i - 1] == e[i]);
    }
}

/// A key found in a map stands at some index of it.
proof fn lemma_lookup_index(e: Seq<FieldPair>, x: Seq<char>)
    requires
        lookup(e, x) is Some,
    ensures
        exists|i: int| 0 <= i < e.len() && e[i].0 == x && lookup(e, x) == Some(e[i].1),
    decreases e.len(),
{
    if e[0].0 != x {
        lemma_lookup_index(e.drop_first(), x);
        let i = choose|i: int|
            0 <= i < e.drop_first().len() && e.drop_first()[i].0 == x && lookup(e.drop_first(), x)
                == Some(e.drop_first()[i].1);
        assert(e.drop_first()[i] == e[i + 1]);
    } else {
        assert(e[0].0 == x && lookup(e, x) == Some(e[0].1));
    }
}

/// Two maps ordered by key that look every key up alike are the same map.
proof fn lemma_sorted_unique(e1: Seq<FieldPair>, e2: Seq<FieldPair>)
    requires
        keys_sorted(e1),
        keys_sorted(e2),
        forall|x: Seq<char>| #[trigger] lookup(e1, x) == lookup(e2, x),
    ensures
        e1 == e2,
    decreases e1.len() + e2.len(),
{
    if e1.len() == 0 && e2.len() == 0 {
        assert(e1 =~= e2);
    } else if e1.len() == 0 {
        lemma_lookup_sorted(e2, 0);
        assert(lookup(e1, e2[0].0) == lookup(e2, e2[0].0));
    } else if e2.len() == 0 {
        lemma_lookup_sorted(e1, 0);
        assert(lookup(e1, e1[0].0) == lookup(e2, e1[0].0));
    } else {
        let k1 = e1[0].0;
        let k2 = e2[0].0;
        lemma_lookup_sorted(e1, 0);
        lemma_lookup_sorted(e2, 0);
        assert(lookup(e1, k1) == lookup(e2, k1));
        assert(lookup(e1, k2) == lookup(e2, k2));
        if k1 != k2 {
            lemma_lookup_index(e2, k1);
            lemma_lookup_index(e1, k2);
            let j = choose|j: int| 0 <= j < e2.len() && e2[j].0 == k1 && lookup(e2, k1) == Some(e2[j].1);
            let i = choose|i: int| 0 <= i < e1.len() && e1[i].0 == k2 && lookup(e1, k2) == Some(e1[i].1);
            assert(j > 0 && i > 0);
            assert(lex_lt(k2, k1));
            assert(lex_lt(k1, k2));
            lemma_lex_total(k1, k2);
        }
        assert(e1[0] == e2[0]);
        lemma_sorted_tail(e1);
        lemma_sorted_tail(e2);
        let t1 = e1.drop_first();
        let t2 = e2.drop_first();
        assert forall|x: Seq<char>| #[trigger] lookup(t1, x) == lookup(t2, x) by {
            if x == k1 {
                lemma_lex_irreflexive(k1);
                if lookup(t1, x) is Some {
                    lemma_lookup_index(t1, x);
                    let i = choose|i: int| 0 <= i < t1.len() && t1[i].0 == x && lookup(t1, x) == Some(t1[i].1);
                    assert(lex_lt(k1, t1[i].0));
                }
                if lookup(t2, x) is Some {
                    lemma_lookup_index(t2, x);
                    let i = choose|i: int| 0 <= i < t2.len() && t2[i].0 == x && lookup(t2, x) == Some(t2[i].1);
                    assert(lex_lt(k1, t2[i].0));
                }
            } else {
                assert(lookup(e1, x) == lookup(e2, x));
            }
        }
        lemma_sorted_unique(t1, t2);
        assert(e1 =~= seq![e1[0]] + t1);
        assert(e2 =~= seq![e2[0]] + t2);
    }
}

proof fn lemma_signed_entries(e: Seq<FieldPair>)
    requires
        keys_sorted(e),
    ensures
        keys_sorted(signed_entries(e)),
        forall|b: Seq<char>| keys_after(e, b) ==> #[trigger] keys_after(signed_entries(e), b),
        check_lines(signed_entries(e)) == check_lines(e),
        forall|x: Seq<char>| #[trigger] lookup(signed_entries(e), x) == (if is_unsigned_key(x) {
            None
        } else {
            lookup(e, x)
        }),
    decreases e.len(),
{
    if e.len() == 0 {
        assert forall|b: Seq<char>| keys_after(e, b) implies #[trigger] keys_after(signed_entries(e), b) by {
        }
    } else {
        let t = e.drop_first();
        let st = signed_entries(t);
        lemma_sorted_tail(e);
        lemma_signed_entries(t);
        assert(keys_after(st, e[0].0));
        if is_unsigned_key(e[0].0) {
            assert forall|b: Seq<char>| keys_after(e, b) implies #[trigger] keys_after(signed_entries(e), b) by {
                assert forall|i: int| 0 <= i < t.len() implies lex_lt(b, #[trigger] t[i].0) by {
                    assert(t[i] == e[i + 1]);
                }
                assert(keys_after(t, b));
            }
            assert forall|x: Seq<char>| #[trigger] lookup(signed_entries(e), x) == (if is_unsigned_key(x) {
                None
            } else {
                lookup(e, x)
            }) by {
                assert(lookup(st, x) == (if is_unsigned_key(x) { None } else { lookup(t, x) }));
            }
        } else {
            let r = seq![e[0]] + st;
            assert(r[0] == e[0]);
            assert(r.drop_first() =~= st);
            assert forall|i: int, j: int| 0 <= i < j < r.len() implies lex_lt(
                #[trigger] r[i].0,
                #[trigger] r[j].0,
            ) by {
                assert(r[j] == st[j - 1]);
                if i > 0 {
                    assert(r[i] == st[i - 1]);
                }
            }
            assert forall|b: Seq<char>| keys_after(e, b) implies #[trigger] keys_after(signed_entries(e), b) by {
                assert forall|i: int| 0 <= i < t.len() implies lex_lt(b, #[trigger] t[i].0) by {
                    assert(t[i] == e[i + 1]);
                }
                assert(keys_after(t, b));
                assert(keys_after(st, b));
                assert forall|i: int| 0 <= i < r.len() implies lex_lt(b, #[trigger] r[i].0) by {
                    if i > 0 {
                        assert(r[i] == st[i - 1]);
                    }
                }
            }
            assert forall|x: Seq<char>| #[trigger] lookup(signed_entries(e), x) == (if is_unsigned_key(x) {
                None
            } else {
                lookup(e, x)
            }) by {
                lemma_lookup_cons(e[0], st, x);
                assert(lookup(st, x) == (if is_unsigned_key(x) { None } else { lookup(t, x) }));
            }
        }
    }
}

/// Maps that agree on every signed key have the same signed lines.
proof fn lemma_same_check_lines(e1: Seq<FieldPair>, e2: Seq<FieldPair>)
    requires
        same_but_hash_case_fields(e1, e2),
    ensures
        check_lines(e1) == check_lines(e2),
{
    lemma_signed_entries(e1);
    lemma_signed_entries(e2);
    assert forall|x: Seq<char>| #[trigger] lookup(signed_entries(e1), x) == lookup(signed_entries(e2), x) by {
        if !is_unsigned_key(x) {
            assert(lookup(e1, x) == lookup(e2, x));
        }
    }
    lemma_sorted_unique(signed_entries(e1), signed_entries(e2));
}

/// Field maps that agree on every key but `hash`, and on `hash` up to ASCII case, have
/// the same outcome under any bot token.
pub proof fn lemma_same_outcome(e1: Seq<FieldPair>, e2: Seq<FieldPair>, bot_token: Seq<char>)
    requires
        same_but_hash_case_fields(e1, e2),
    ensures
        fields_outcome(e1, bot_token) == fields_outcome(e2, bot_token),
{
    lemma_same_check_lines(e1, e2);
    assert(user_key() != hash_key()) by {
        assert(user_key()[0] != hash_key()[0]);
    }
    assert(auth_date_key() != hash_key()) by {
        assert(auth_date_key().len() != hash_key().len());
    }
    assert(lookup(e1, user_key()) == lookup(e2, user_key()));
    assert(lookup(e1, auth_date_key()) == lookup(e2, auth_date_key()));
    assert(auth_date_of(e1) == auth_date_of(e2));
}

proof fn lemma_decode_pieces_split(ps: Seq<Seq<char>>)
    ensures
        decode_pieces(ps) == match pairs_of_pieces(ps) {
            None => None,
            Some(raw) => decoded_pairs(raw),
        },
    decreases ps.len(),
{
    if ps.len() > 0 {
        lemma_decode_pieces_split(ps.drop_last());
        match (pairs_of_pieces(ps.drop_last()), split_once(ps.last(), '=')) {
            (Some(p), Some(kv)) => {
                assert(p.push(kv).drop_last() =~= p);
                assert(p.push(kv).last() == kv);
            },
            _ => {},
        }
    }
}

/// Parsing init data is decoding its pieces.
proof fn lemma_parse_by_pieces(s: Seq<char>)
    ensures
        parse_fields(s) == (if trim(s).len() == 0 {
            Err(TelegramWebAppError::MissingInitData)
        } else {
            pieces_fields(init_data_pieces(s))
        }),
{
    lemma_decode_pieces_split(init_data_pieces(s));
}

proof fn lemma_decode_pieces(ps: Seq<Seq<char>>)
    ensures
        (forall|i: int| 0 <= i < ps.len() ==> (#[trigger] decoded_piece(ps[i])) is Some)
            ==> decode_pieces(ps) is Some,
        decode_pieces(ps) matches Some(d) ==> d.len() == ps.len() && forall|i: int|
            0 <= i < ps.len() ==> decoded_piece(ps[i]) == Some(#[trigger] d[i]),
    decreases ps.len(),
{
    if ps.len() > 0 {
        let f = ps.drop_last();
        lemma_decode_pieces(f);
        if forall|i: int| 0 <= i < ps.len() ==> (#[trigger] decoded_piece(ps[i])) is Some {
            assert forall|i: int| 0 <= i < f.len() implies (#[trigger] decoded_piece(f[i])) is Some by {
                assert(f[i] == ps[i]);
                assert(decoded_piece(ps[i]) is Some);
            }
            assert(decoded_piece(ps[ps.len() - 1]) is Some);
        }
        if let Some(d) = decode_pieces(ps) {
            let df = decode_pieces(f)->0;
            assert(d == df.push(decoded_piece(ps.last())->0));
            assert forall|i: int| 0 <= i < ps.len() implies decoded_piece(ps[i]) == Some(#[trigger] d[i]) by {
                if i < f.len() {
                    assert(f[i] == ps[i]);
                    assert(decoded_piece(f[i]) == Some(df[i]));
                }
            }
        }
    }
}

/// Pairwise distinct keys.
pub open spec fn keys_distinct(d: Seq<FieldPair>) -> bool {
    forall|a: int, b: int| 0 <= a < b < d.len() ==> #[trigger] d[a].0 != #[trigger] d[b].0
}

proof fn lemma_last_value_at(d: Seq<FieldPair>, i: int)
    requires
        keys_distinct(d),
        0 <= i < d.len(),
    ensures
        last_value(d, d[i].0) == Some(d[i].1),
    decreases d.len(),
{
    if i < d.len() - 1 {
        let f = d.drop_last();
        assert(keys_distinct(f)) by {
            assert forall|a: int, b: int| 0 <= a < b < f.len() implies #[trigger] f[a].0 != #[trigger] f[b].0 by {
                assert(f[a] == d[a] && f[b] == d[b]);
            }
        }
        assert(d[i].0 != d[d.len() - 1].0);
        lemma_last_value_at(f, i);
        assert(f[i] == d[i]);
    }
}

proof fn lemma_last_value_none(d: Seq<FieldPair>, x: Seq<char>)
    ensures
        last_value(d, x) is None <==> forall|i: int| 0 <= i < d.len() ==> #[trigger] d[i].0 != x,
    decreases d.len(),
{
    if d.len() > 0 {
        let f = d.drop_last();
        lemma_last_value_none(f, x);
        if last_value(d, x) is None {
            assert forall|i: int| 0 <= i < d.len() implies #[trigger] d[i].0 != x by {
                if i < f.len() {
                    assert(f[i] == d[i]);
                }
            }
        } else if d[d.len() - 1].0 != x {
            let j = choose|j: int| 0 <= j < f.len() && #[trigger] f[j].0 == x;
            assert(f[j] == d[j]);
        }
    }
}

/// The decoded pairs of pieces with distinct keys have distinct keys.
proof fn lemma_distinct_decoded(ps: Seq<Seq<char>>, d: Seq<FieldPair>)
    requires
        distinct_piece_keys(ps),
        decode_pieces(ps) == Some(d),
    ensures
        keys_distinct(d),
{
    lemma_decode_pieces(ps);
    assert forall|a: int, b: int| 0 <= a < b < d.len() implies #[trigger] d[a].0 != #[trigger] d[b].0 by {
        assert(decoded_piece(ps[a]) == Some(d[a]));
        assert(decoded_piece(ps[b]) == Some(d[b]));
    }
}

/// Pieces with distinct keys give the same fields in any order.
proof fn lemma_pieces_reordered(p1: Seq<Seq<char>>, p2: Seq<Seq<char>>)
    requires
        p1.to_multiset() == p2.to_multiset(),
        distinct_piece_keys(p1),
        distinct_piece_keys(p2),
    ensures
        pieces_fields(p1) == pieces_fields(p2),
{
    p1.to_multiset_ensures();
    p2.to_multiset_ensures();
    assert forall|x: Seq<char>| p1.contains(x) <==> p2.contains(x) by {
        p1.to_multiset_ensures();
        p2.to_multiset_ensures();
        assert(p1.contains(x) <==> p1.to_multiset().count(x) > 0);
        assert(p2.contains(x) <==> p2.to_multiset().count(x) > 0);
        assert(p1.to_multiset().count(x) == p2.to_multiset().count(x));
    }
    lemma_decode_pieces(p1);
    lemma_decode_pieces(p2);
    if decode_pieces(p1) is None {
        let i = choose|i: int| 0 <= i < p1.len() && (#[trigger] decoded_piece(p1[i])) is None;
        assert(p1.contains(p1[i]));
        let j = choose|j: int| 0 <= j < p2.len() && p2[j] == p1[i];
        assert(decoded_piece(p2[j]) is None);
        if decode_pieces(p2) is Some {
            assert(decoded_piece(p2[j]) == Some(decode_pieces(p2)->0[j]));
        }
    } else if decode_pieces(p2) is None {
        let j = choose|j: int| 0 <= j < p2.len() && (#[trigger] decoded_piece(p2[j])) is None;
        assert(p2.contains(p2[j]));
        let i = choose|i: int| 0 <= i < p1.len() && p1[i] == p2[j];
        assert(decoded_piece(p1[i]) is None);
        assert(decoded_piece(p1[i]) == Some(decode_pieces(p1)->0[i]));
    } else {
        let d1 = decode_pieces(p1)->0;
        let d2 = decode_pieces(p2)->0;
        lemma_distinct_decoded(p1, d1);
        lemma_distinct_decoded(p2, d2);
        lemma_entries_of(d1);
        lemma_entries_of(d2);
        assert forall|x: Seq<char>| #[trigger] lookup(entries_of(d1), x) == lookup(entries_of(d2), x) by {
            lemma_last_value_none(d1, x);
            lemma_last_value_none(d2, x);
            if last_value(d1, x) is Some {
                let i = choose|i: int| 0 <= i < d1.len() && #[trigger] d1[i].0 == x;
                lemma_last_value_at(d1, i);
                assert(p1.contains(p1[i]));
                let j = choose|j: int| 0 <= j < p2.len() && p2[j] == p1[i];
                assert(decoded_piece(p1[i]) == Some(d1[i]));
                assert(decoded_piece(p2[j]) == Some(d2[j]));
                lemma_last_value_at(d2, j);
            } else if last_value(d2, x) is Some {
                let j = choose|j: int| 0 <= j < d2.len() && #[trigger] d2[j].0 == x;
                assert(p2.contains(p2[j]));
                let i = choose|i: int| 0 <= i < p1.len() && p1[i] == p2[j];
                assert(decoded_piece(p1[i]) == Some(d1[i]));
                assert(decoded_piece(p2[j]) == Some(d2[j]));
                assert(d1[i].0 == x);
            }
        }
        lemma_sorted_unique(entries_of(d1), entries_of(d2));
    }
}

/// Decoded pairs that are equal, or both `hash` pairs with values equal up to ASCII case.
pub open spec fn same_but_hash_case_pair(a: FieldPair, b: FieldPair) -> bool {
    ||| a == b
    ||| a.0 == hash_key() && b.0 == hash_key() && eq_ignore_ascii_case(a.1, b.1)
}

proof fn lemma_plus_case(a: Seq<char>, b: Seq<char>)
    requires
        eq_ignore_ascii_case(a, b),
    ensures
        eq_ignore_ascii_case(plus_as_space(a), plus_as_space(b)),
{
    assert(ascii_lowercase(a).len() == ascii_lowercase(b).len());
    assert forall|i: int| 0 <= i < a.len() implies ascii_lowercase(plus_as_space(a))[i]
        == ascii_lowercase(plus_as_space(b))[i] by {
        lemma_chars_case_at(a, b, i);
    }
    assert(ascii_lowercase(plus_as_space(a)) =~= ascii_lowercase(plus_as_space(b)));
}

/// Components that differ in the ASCII case of letters both decode or both fail, and
/// decode to text that differs in the ASCII case of letters.
pub proof fn lemma_decoded_component_case(v1: Seq<char>, v2: Seq<char>)
    requires
        eq_ignore_ascii_case(v1, v2),
    ensures
        decoded_component(v1) is Some <==> decoded_component(v2) is Some,
        decoded_component(v1) is Some ==> eq_ignore_ascii_case(
            decoded_component(v1)->0,
            decoded_component(v2)->0,
        ),
{
    lemma_plus_case(v1, v2);
    lemma_encode_case(plus_as_space(v1), plus_as_space(v2));
    lemma_percent_decode_case(
        encode_utf8(plus_as_space(v1)),
        encode_utf8(plus_as_space(v2)),
    );
    lemma_utf8_case(
        percent_decode_bytes(encode_utf8(plus_as_space(v1))),
        percent_decode_bytes(encode_utf8(plus_as_space(v2))),
    );
}

/// A `hash=` piece decodes to `hash` and its decoded value.
proof fn lemma_hash_piece(p: Seq<char>)
    requires
        p.len() >= 5,
        p.take(5) == hash_key().push('='),
    ensures
        decoded_piece(p) == match decoded_component(p.skip(5)) {
            Some(d) => Some((hash_key(), d)),
            None => None::<FieldPair>,
        },
{
    let v = p.skip(5);
    assert(p =~= p.take(5) + v);
    assert(hash_key().push('=') =~= hash_key() + seq!['=']);
    assert(p =~= hash_key() + seq!['='] + v);
    lemma_split_once_at(hash_key(), v);
    assert(all_unreserved(hash_key())) by {
        assert forall|j: int| 0 <= j < hash_key().len() implies #[trigger] is_unreserved_char(hash_key()[j]) by {
        }
    }
    lemma_plain_encoded(hash_key());
    lemma_url_roundtrip(hash_key());
}

proof fn lemma_piece_case(p: Seq<char>, q: Seq<char>)
    requires
        same_but_hash_case(p, q),
    ensures
        decoded_piece(p) is Some <==> decoded_piece(q) is Some,
        decoded_piece(p) is Some ==> same_but_hash_case_pair(decoded_piece(p)->0, decoded_piece(q)->0),
{
    if p != q {
        lemma_hash_piece(p);
        lemma_hash_piece(q);
        lemma_decoded_component_case(p.skip(5), q.skip(5));
    }
}

/// Pointwise related decoded pairs.
pub open spec fn pairs_same_but_hash_case(d1: Seq<FieldPair>, d2: Seq<FieldPair>) -> bool {
    &&& d1.len() == d2.len()
    &&& forall|i: int| 0 <= i < d1.len() ==> same_but_hash_case_pair(#[trigger] d1[i], d2[i])
}

proof fn lemma_decode_case(p1: Seq<Seq<char>>, p2: Seq<Seq<char>>)
    requires
        p1.len() == p2.len(),
        forall|i: int| 0 <= i < p1.len() ==> same_but_hash_case(#[trigger] p1[i], p2[i]),
    ensures
        decode_pieces(p1) is Some <==> decode_pieces(p2) is Some,
        decode_pieces(p1) is Some ==> pairs_same_but_hash_case(
            decode_pieces(p1)->0,
            decode_pieces(p2)->0,
        ),
    decreases p1.len(),
{
    if p1.len() > 0 {
        let f1 = p1.drop_last();
        let f2 = p2.drop_last();
        assert forall|i: int| 0 <= i < f1.len() implies same_but_hash_case(#[trigger] f1[i], f2[i]) by {
            assert(f1[i] == p1[i] && f2[i] == p2[i]);
        }
        lemma_decode_case(f1, f2);
        let n = p1.len() - 1;
        assert(same_but_hash_case(p1[n], p2[n]));
        lemma_piece_case(p1.last(), p2.last());
        if decode_pieces(p1) is Some {
            let d1 = decode_pieces(p1)->0;
            let d2 = decode_pieces(p2)->0;
            let g1 = decode_pieces(f1)->0;
            let g2 = decode_pieces(f2)->0;
            assert(d1 == g1.push(decoded_piece(p1.last())->0));
            assert(d2 == g2.push(decoded_piece(p2.last())->0));
            assert forall|i: int| 0 <= i < d1.len() implies same_but_hash_case_pair(#[trigger] d1[i], d2[i]) by {
                if i < g1.len() {
                    assert(same_but_hash_case_pair(g1[i], g2[i]));
                }
            }
        }
    }
}

proof fn lemma_last_value_case(d1: Seq<FieldPair>, d2: Seq<FieldPair>, x: Seq<char>)
    requires
        pairs_same_but_hash_case(d1, d2),
    ensures
        x != hash_key() ==> last_value(d1, x) == last_value(d2, x),
        x == hash_key() ==> match (last_value(d1, x), last_value(d2, x)) {
            (None, None) => true,
            (Some(a), Some(b)) => eq_ignore_ascii_case(a, b),
            _ => false,
        },
    decreases d1.len(),
{
    if d1.len() > 0 {
        let f1 = d1.drop_last();
        let f2 = d2.drop_last();
        assert forall|i: int| 0 <= i < f1.len() implies same_but_hash_case_pair(#[trigger] f1[i], f2[i]) by {
            assert(f1[i] == d1[i] && f2[i] == d2[i]);
        }
        lemma_last_value_case(f1, f2, x);
        assert(same_but_hash_case_pair(d1[d1.len() - 1], d2[d2.len() - 1]));
    }
}

/// Pieces that differ only in the ASCII case of their hash give fields that differ only
/// there.
proof fn lemma_pieces_hash_case(p1: Seq<Seq<char>>, p2: Seq<Seq<char>>)
    requires
        p1.len() == p2.len(),
        forall|i: int| 0 <= i < p1.len() ==> same_but_hash_case(#[trigger] p1[i], p2[i]),
    ensures
        match (pieces_fields(p1), pieces_fields(p2)) {
            (Err(a), Err(b)) => a == b,
            (Ok(e1), Ok(e2)) => same_but_hash_case_fields(e1, e2),
            _ => false,
        },
{
    lemma_decode_case(p1, p2);
    if decode_pieces(p1) is Some {
        let d1 = decode_pieces(p1)->0;
        let d2 = decode_pieces(p2)->0;
        lemma_entries_of(d1);
        lemma_entries_of(d2);
        assert forall|x: Seq<char>| x != hash_key() implies #[trigger] lookup(entries_of(d1), x)
            == lookup(entries_of(d2), x) by {
            lemma_last_value_case(d1, d2, x);
        }
        lemma_last_value_case(d1, d2, hash_key());
    }
}

proof fn lemma_single_empty_piece(t: Seq<char>)
    requires
        split_on(t, '&') == seq![Seq::<char>::empty()],
    ensures
        t.len() == 0,
{
    if t.len() > 0 {
        let r = split_on(t.drop_last(), '&');
        crate::text::lemma_split_on_nonempty(t.drop_last(), '&');
        if t.last() == '&' {
            assert(split_on(t, '&').len() == r.len() + 1);
        } else {
            assert(split_on(t, '&').last() == r.last().push(t.last()));
        }
    }
}

/// The outcome of init data, read through its pieces.
proof fn lemma_outcome_by_pieces(s: Seq<char>, bot_token: Seq<char>)
    ensures
        init_data_outcome(s, bot_token) == (if trim(s).len() == 0 {
            Err(TelegramWebAppError::MissingInitData)
        } else {
            match pieces_fields(init_data_pieces(s)) {
                Err(e) => Err(e),
                Ok(f) => fields_outcome(f, bot_token),
            }
        }),
{
    lemma_parse_by_pieces(s);
}

/// Validation does not depend on the order of the `&`-separated pairs nor on the ASCII
/// case of the hash: when `pieces` are the pieces of `s1` with the case of letters in the
/// `hash` value changed, and the pieces of `s2` are
/// `pieces` in another order, with the decoded keys pairwise distinct, `s1` and `s2`
/// have the same outcome under every bot token.
pub proof fn lemma_order_and_hash_case_irrelevant(
    s1: Seq<char>,
    s2: Seq<char>,
    pieces: Seq<Seq<char>>,
    bot_token: Seq<char>,
)
    requires
        pieces.len() == init_data_pieces(s1).len(),
        forall|i: int|
            0 <= i < pieces.len() ==> same_but_hash_case(#[trigger] init_data_pieces(s1)[i], pieces[i]),
        init_data_pieces(s2).to_multiset() == pieces.to_multiset(),
        distinct_piece_keys(pieces),
        distinct_piece_keys(init_data_pieces(s2)),
    ensures
        init_data_outcome(s2, bot_token) == init_data_outcome(s1, bot_token),
{
    let p1 = init_data_pieces(s1);
    let p2 = init_data_pieces(s2);
    let empty = Seq::<char>::empty();
    lemma_outcome_by_pieces(s1, bot_token);
    lemma_outcome_by_pieces(s2, bot_token);
    pieces.to_multiset_ensures();
    p2.to_multiset_ensures();
    if trim(s1).len() == 0 {
        assert(p1 == seq![empty]);
        assert(same_but_hash_case(p1[0], pieces[0]));
        assert(pieces =~= seq![empty]);
        assert(pieces.contains(empty));
        assert(p2.to_multiset().count(empty) > 0);
        assert(p2.len() == 1);
        assert(p2 =~= seq![empty]);
        lemma_single_empty_piece(trim(s2));
    } else if trim(s2).len() == 0 {
        assert(p2 == seq![empty]);
        assert(p2.contains(empty));
        assert(pieces.to_multiset().count(empty) > 0);
        assert(pieces.len() == 1);
        assert(pieces[0] == empty);
        assert(same_but_hash_case(p1[0], pieces[0]));
        assert(p1 =~= seq![empty]);
        lemma_single_empty_piece(trim(s1));
    } else {
        lemma_pieces_reordered(pieces, p2);
        lemma_pieces_hash_case(p1, pieces);
        if pieces_fields(p1) is Ok {
            lemma_same_outcome(pieces_fields(p1)->Ok_0, pieces_fields(pieces)->Ok_0, bot_token);
        }
    }
}

/// Reordering the `&`-separated pairs of init data, whose decoded keys are pairwise
/// distinct, leaves the outcome of validation unchanged.
pub proof fn lemma_pair_order_irrelevant(s1: Seq<char>, s2: Seq<char>, bot_token: Seq<char>)
    requires
        init_data_pieces(s2).to_multiset() == init_data_pieces(s1).to_multiset(),
        distinct_piece_keys(init_data_pieces(s1)),
        distinct_piece_keys(init_data_pieces(s2)),
    ensures
        init_data_outcome(s2, bot_token) == init_data_outcome(s1, bot_token),
{
    lemma_order_and_hash_case_irrelevant(s1, s2, init_data_pieces(s1), bot_token);
}

/// Changing the ASCII case of letters in the `hash` value of init data leaves the outcome
/// of validation unchanged.
pub proof fn lemma_hash_case_irrelevant(s1: Seq<char>, s2: Seq<char>, bot_token: Seq<char>)
    requires
        init_data_pieces(s2).len() == init_data_pieces(s1).len(),
        forall|i: int|
            0 <= i < init_data_pieces(s1).len() ==> same_but_hash_case(
                #[trigger] init_data_pieces(s1)[i],
                init_data_pieces(s2)[i],
            ),
    ensures
        init_data_outcome(s2, bot_token) == init_data_outcome(s1, bot_token),
{
    let p1 = init_data_pieces(s1);
    let p2 = init_data_pieces(s2);
    let empty = Seq::<char>::empty();
    lemma_outcome_by_pieces(s1, bot_token);
    lemma_outcome_by_pieces(s2, bot_token);
    if trim(s1).len() == 0 {
        assert(p1 == seq![empty]);
        assert(same_but_hash_case(p1[0], p2[0]));
        assert(p2 =~= seq![empty]);
        lemma_single_empty_piece(trim(s2));
    } else if trim(s2).len() == 0 {
        assert(p2 == seq![empty]);
        assert(same_but_hash_case(p1[0], p2[0]));
        assert(p1 =~= seq![empty]);
        lemma_single_empty_piece(trim(s1));
    } else {
        lemma_pieces_hash_case(p1, p2);
        if pieces_fields(p1) is Ok {
            lemma_same_outcome(pieces_fields(p1)->Ok_0, pieces_fields(p2)->Ok_0, bot_token);
        }
    }
}

} // verus!
