//! The fields of Mini App init data: `key=value` pairs joined by `&`, percent-encoded,
//! kept as a map ordered by key in which a later pair overrides an earlier one.

use crate::order::{lemma_lex_irreflexive, lemma_lex_total, lemma_lex_transitive, lex_compare, lex_lt, Placement};
use crate::outside::{url_decode, url_decoded};
use crate::telegram::webapp::TelegramWebAppError;
use crate::text::{
    chars_eq, chars_of, push_all, split_chars, split_on, split_once, split_once_chars, string_of, trim,
    trim_str,
};
use vstd::prelude::*;

verus! {

/// A key and its value, as characters.
pub type FieldPair = (Seq<char>, Seq<char>);

/// `e` holds its keys in strictly increasing order.
pub open spec fn keys_sorted(e: Seq<FieldPair>) -> bool {
    forall|i: int, j: int| 0 <= i < j < e.len() ==> lex_lt(#[trigger] e[i].0, #[trigger] e[j].0)
}

/// Every key of `e` comes after `b`.
pub open spec fn keys_after(e: Seq<FieldPair>, b: Seq<char>) -> bool {
    forall|i: int| 0 <= i < e.len() ==> lex_lt(b, #[trigger] e[i].0)
}

/// The entries of an ordered map after storing `v` under `k` (what `BTreeMap::insert` does).
pub open spec fn insert_entry(e: Seq<FieldPair>, k: Seq<char>, v: Seq<char>) -> Seq<FieldPair>
    decreases e.len(),
{
    if e.len() == 0 {
        seq![(k, v)]
    } else if e[0].0 == k {
        seq![(k, v)] + e.drop_first()
    } else if lex_lt(k, e[0].0) {
        seq![(k, v)] + e
    } else {
        seq![e[0]] + insert_entry(e.drop_first(), k, v)
    }
}

/// The entries of the ordered map built by inserting `pairs` in turn.
pub open spec fn entries_of(pairs: Seq<FieldPair>) -> Seq<FieldPair>
    decreases pairs.len(),
{
    if pairs.len() == 0 {
        seq![]
    } else {
        insert_entry(entries_of(pairs.drop_last()), pairs.last().0, pairs.last().1)
    }
}

/// The value of the first entry of `e` with key `k`.
pub open spec fn lookup(e: Seq<FieldPair>, k: Seq<char>) -> Option<Seq<char>>
    decreases e.len(),
{
    if e.len() == 0 {
        None
    } else if e[0].0 == k {
        Some(e[0].1)
    } else {
        lookup(e.drop_first(), k)
    }
}

/// The value of the last pair of `pairs` with key `k`.
pub open spec fn last_value(pairs: Seq<FieldPair>, k: Seq<char>) -> Option<Seq<char>>
    decreases pairs.len(),
{
    if pairs.len() == 0 {
        None
    } else if pairs.last().0 == k {
        Some(pairs.last().1)
    } else {
        last_value(pairs.drop_last(), k)
    }
}

proof fn lemma_insert_keeps_bound(e: Seq<FieldPair>, k: Seq<char>, v: Seq<char>, b: Seq<char>)
    requires
        keys_after(e, b),
        lex_lt(b, k),
    ensures
        keys_after(insert_entry(e, k, v), b),
    decreases e.len(),
{
    if e.len() > 0 && e[0].0 != k && !lex_lt(k, e[0].0) {
        lemma_insert_keeps_bound(e.drop_first(), k, v, b);
        let r = insert_entry(e, k, v);
        assert forall|i: int| 0 <= i < r.len() implies lex_lt(b, #[trigger] r[i].0) by {
            if i > 0 {
                assert(r[i] == insert_entry(e.drop_first(), k, v)[i - 1]);
            }
        }
    } else if e.len() > 0 && e[0].0 == k {
        let r = insert_entry(e, k, v);
        assert forall|i: int| 0 <= i < r.len() implies lex_lt(b, #[trigger] r[i].0) by {
            if i > 0 {
                assert(r[i] == e[i]);
            }
        }
    } else if e.len() > 0 {
        let r = insert_entry(e, k, v);
        assert forall|i: int| 0 <= i < r.len() implies lex_lt(b, #[trigger] r[i].0) by {
            if i > 0 {
                assert(r[i] == e[i - 1]);
            }
        }
    }
}

/// Inserting into an ordered map keeps it ordered.
pub proof fn lemma_insert_sorted(e: Seq<FieldPair>, k: Seq<char>, v: Seq<char>)
    requires
        keys_sorted(e),
    ensures
        keys_sorted(insert_entry(e, k, v)),
    decreases e.len(),
{
    let r = insert_entry(e, k, v);
    if e.len() == 0 {
    } else if e[0].0 == k {
        assert forall|i: int, j: int| 0 <= i < j < r.len() implies lex_lt(
            #[trigger] r[i].0,
            #[trigger] r[j].0,
        ) by {
            assert(r[j] == e[j]);
            if i > 0 {
                assert(r[i] == e[i]);
            }
        }
    } else if lex_lt(k, e[0].0) {
        assert forall|i: int, j: int| 0 <= i < j < r.len() implies lex_lt(
            #[trigger] r[i].0,
            #[trigger] r[j].0,
        ) by {
            assert(r[j] == e[j - 1]);
            if i > 0 {
                assert(r[i] == e[i - 1]);
            } else if j > 1 {
                assert(lex_lt(e[0].0, e[j - 1].0));
                lemma_lex_transitive(k, e[0].0, e[j - 1].0);
            }
        }
    } else {
        let t = e.drop_first();
        assert(keys_sorted(t)) by {
            assert forall|i: int, j: int| 0 <= i < j < t.len() implies lex_lt(
                #[trigger] t[i].0,
                #[trigger] t[j].0,
            ) by {
                assert(t[i] == e[i + 1] && t[j] == e[j + 1]);
            }
        }
        lemma_insert_sorted(t, k, v);
        lemma_lex_total(k, e[0].0);
        assert(keys_after(t, e[0].0)) by {
            assert forall|i: int| 0 <= i < t.len() implies lex_lt(e[0].0, #[trigger] t[i].0) by {
                assert(t[i] == e[i + 1]);
            }
        }
        lemma_insert_keeps_bound(t, k, v, e[0].0);
        let rt = insert_entry(t, k, v);
        assert forall|i: int, j: int| 0 <= i < j < r.len() implies lex_lt(
            #[trigger] r[i].0,
            #[trigger] r[j].0,
        ) by {
            assert(r[j] == rt[j - 1]);
            if i > 0 {
                assert(r[i] == rt[i - 1]);
            }
        }
    }
}

/// Looking a key up after an insertion finds the inserted value for that key and the old
/// value for every other key.
pub proof fn lemma_lookup_insert(e: Seq<FieldPair>, k: Seq<char>, v: Seq<char>, x: Seq<char>)
    ensures
        lookup(insert_entry(e, k, v), x) == (if x == k {
            Some(v)
        } else {
            lookup(e, x)
        }),
    decreases e.len(),
{
    let r = insert_entry(e, k, v);
    if e.len() == 0 {
        assert(r.drop_first() =~= Seq::<FieldPair>::empty());
        assert(r[0] == (k, v));
        assert(lookup(r, x) == (if r[0].0 == x { Some(r[0].1) } else { lookup(r.drop_first(), x) }));
    } else if e[0].0 == k {
        assert(r[0] == (k, v));
        assert(r.drop_first() =~= e.drop_first());
        assert(lookup(r, x) == (if r[0].0 == x { Some(r[0].1) } else { lookup(r.drop_first(), x) }));
    } else if lex_lt(k, e[0].0) {
        assert(r[0] == (k, v));
        assert(r.drop_first() =~= e);
        assert(lookup(r, x) == (if r[0].0 == x { Some(r[0].1) } else { lookup(r.drop_first(), x) }));
    } else {
        lemma_lookup_insert(e.drop_first(), k, v, x);
        assert(r[0] == e[0]);
        assert(r.drop_first() =~= insert_entry(e.drop_first(), k, v));
        assert(lookup(r, x) == (if r[0].0 == x { Some(r[0].1) } else { lookup(r.drop_first(), x) }));
    }
}

/// The map built from `pairs` is ordered by key, and each key maps to the value of its
/// last pair: a later pair overrides an earlier one with the same key.
pub proof fn lemma_entries_of(pairs: Seq<FieldPair>)
    ensures
        keys_sorted(entries_of(pairs)),
        forall|x: Seq<char>| lookup(entries_of(pairs), x) == last_value(pairs, x),
    decreases pairs.len(),
{
    if pairs.len() > 0 {
        lemma_entries_of(pairs.drop_last());
        let prev = entries_of(pairs.drop_last());
        lemma_insert_sorted(prev, pairs.last().0, pairs.last().1);
        assert(entries_of(pairs) == insert_entry(prev, pairs.last().0, pairs.last().1));
        assert forall|x: Seq<char>| lookup(entries_of(pairs), x) == last_value(pairs, x) by {
            lemma_lookup_insert(prev, pairs.last().0, pairs.last().1, x);
            assert(lookup(prev, x) == last_value(pairs.drop_last(), x));
        }
    }
}

/// The pieces of init data, each split at its first `=`; `None` when a piece has no `=`.
pub open spec fn pairs_of_pieces(pieces: Seq<Seq<char>>) -> Option<Seq<FieldPair>>
    decreases pieces.len(),
{
    if pieces.len() == 0 {
        Some(seq![])
    } else {
        match (pairs_of_pieces(pieces.drop_last()), split_once(pieces.last(), '=')) {
            (Some(p), Some(kv)) => Some(p.push(kv)),
            _ => None,
        }
    }
}

/// `s` with every `+` replaced by a space.
pub open spec fn plus_as_space(s: Seq<char>) -> Seq<char> {
    s.map_values(|c: char| if c == '+' { ' ' } else { c })
}

/// A percent-decoded component of init data, where `+` stands for a space.
pub open spec fn decoded_component(s: Seq<char>) -> Option<Seq<char>> {
    url_decoded(plus_as_space(s))
}

/// Both components of every pair decoded; `None` when one of them fails to decode.
pub open spec fn decoded_pairs(p: Seq<FieldPair>) -> Option<Seq<FieldPair>>
    decreases p.len(),
{
    if p.len() == 0 {
        Some(seq![])
    } else {
        match (
            decoded_pairs(p.drop_last()),
            decoded_component(p.last().0),
            decoded_component(p.last().1),
        ) {
            (Some(d), Some(k), Some(v)) => Some(d.push((k, v))),
            _ => None,
        }
    }
}

/// The fields of `init_data`, or the error that refuses it.
pub open spec fn parse_fields(init_data: Seq<char>) -> Result<Seq<FieldPair>, TelegramWebAppError> {
    let t = trim(init_data);
    if t.len() == 0 {
        Err(TelegramWebAppError::MissingInitData)
    } else {
        match pairs_of_pieces(split_on(t, '&')) {
            None => Err(TelegramWebAppError::InvalidInitData),
            Some(raw) => match decoded_pairs(raw) {
                None => Err(TelegramWebAppError::InvalidInitData),
                Some(d) => Ok(entries_of(d)),
            },
        }
    }
}

/// The characters of the entries of a field vector.
pub open spec fn entries_view(v: Seq<(Vec<char>, Vec<char>)>) -> Seq<FieldPair> {
    v.map_values(|p: (Vec<char>, Vec<char>)| (p.0@, p.1@))
}

/// The fields of init data, ordered by key, each key once.
pub struct InitDataFields {
    entries: Vec<(Vec<char>, Vec<char>)>,
}

impl View for InitDataFields {
    type V = Seq<FieldPair>;

    closed spec fn view(&self) -> Seq<FieldPair> {
        entries_view(self.entries@)
    }
}

impl InitDataFields {
    #[verifier::type_invariant]
    spec fn ordered(self) -> bool {
        keys_sorted(entries_view(self.entries@))
    }

    /// Number of distinct keys; the keys are in strictly increasing order.
    pub fn len(&self) -> (res: usize)
        ensures
            res == self@.len(),
            keys_sorted(self@),
    {
        proof {
            use_type_invariant(self);
        }
        self.entries.len()
    }

    /// The value stored under `key`.
    pub fn get(&self, key: &str) -> (res: Option<String>)
        ensures
            match res {
                Some(v) => lookup(self@, key@) == Some(v@),
                None => lookup(self@, key@) is None,
            },
    {
        let k = chars_of(key);
        match self.find(&k) {
            Some(v) => Some(string_of(v)),
            None => None,
        }
    }

    /// The value stored under the key `k`.
    pub fn find(&self, k: &Vec<char>) -> (res: Option<&Vec<char>>)
        ensures
            match res {
                Some(v) => lookup(self@, k@) == Some(v@),
                None => lookup(self@, k@) is None,
            },
    {
        let ghost e = self@;
        let mut i: usize = 0;
        assert(e.skip(0) =~= e);
        while i < self.entries.len()
            invariant
                e == entries_view(self.entries@),
                i <= self.entries.len(),
                lookup(e, k@) == lookup(e.skip(i as int), k@),
            decreases self.entries.len() - i,
        {
            assert(e.skip(i as int)[0] == e[i as int]);
            if chars_eq(&self.entries[i].0, k) {
                return Some(&self.entries[i].1);
            }
            assert(e.skip(i as int).drop_first() =~= e.skip(i + 1));
            i = i + 1;
        }
        None
    }

    /// The entries in key order, as strings.
    pub fn to_pairs(&self) -> (res: Vec<(String, String)>)
        ensures
            res@.map_values(|p: (String, String)| (p.0@, p.1@)) == self@,
    {
        let mut res: Vec<(String, String)> = Vec::new();
        let mut i: usize = 0;
        while i < self.entries.len()
            invariant
                i <= self.entries.len(),
                res@.map_values(|p: (String, String)| (p.0@, p.1@)) == entries_view(
                    self.entries@,
                ).take(i as int),
            decreases self.entries.len() - i,
        {
            let k = string_of(&self.entries[i].0);
            let v = string_of(&self.entries[i].1);
            let ghost prev = res@;
            res.push((k, v));
            assert(res@ == prev.push((k, v)));
            assert(res@.map_values(|p: (String, String)| (p.0@, p.1@)) =~= prev.map_values(
                |p: (String, String)| (p.0@, p.1@),
            ).push((self.entries@[i as int].0@, self.entries@[i as int].1@)));
            i = i + 1;
            assert(res@.map_values(|p: (String, String)| (p.0@, p.1@)) =~= entries_view(
                self.entries@,
            ).take(i as int));
        }
        assert(entries_view(self.entries@).take(i as int) =~= self@);
        res
    }
}

/// Stores `v` under `k` in an ordered field vector.
fn insert_field(entries: &mut Vec<(Vec<char>, Vec<char>)>, k: Vec<char>, v: Vec<char>)
    requires
        keys_sorted(entries_view(old(entries)@)),
    ensures
        entries_view(final(entries)@) == insert_entry(entries_view(old(entries)@), k@, v@),
{
    let ghost e = entries_view(entries@);
    let ghost kv = k@;
    let ghost vv = v@;
    let mut i: usize = 0;
    assert(e.take(0) + e.skip(0) =~= e);
    assert(e.skip(0) =~= e);
    while i < entries.len()
        invariant
            e == entries_view(entries@),
            e == entries_view(old(entries)@),
            kv == k@,
            vv == v@,
            keys_sorted(e),
            i <= entries.len(),
            insert_entry(e, kv, vv) == e.take(i as int) + insert_entry(e.skip(i as int), kv, vv),
        decreases entries.len() - i,
    {
        let ghost rest = e.skip(i as int);
        assert(rest[0] == e[i as int]);
        assert(rest.drop_first() =~= e.skip(i + 1));
        match lex_compare(&entries[i].0, &k) {
            Placement::Before => {
                proof {
                    lemma_lex_irreflexive(kv);
                    lemma_lex_total(kv, e[i as int].0);
                    assert(e.take(i + 1) =~= e.take(i as int) + seq![e[i as int]]);
                    assert(insert_entry(rest, kv, vv) == seq![rest[0]] + insert_entry(
                        rest.drop_first(),
                        kv,
                        vv,
                    ));
                }
                i = i + 1;
            },
            Placement::Same => {
                assert(insert_entry(rest, kv, vv) == seq![(kv, vv)] + rest.drop_first());
                entries.set(i, (k, v));
                assert(entries_view(entries@) =~= e.take(i as int) + (seq![(kv, vv)] + e.skip(
                    i + 1,
                )));
                return ;
            },
            Placement::After => {
                proof {
                    lemma_lex_total(kv, e[i as int].0);
                }
                assert(insert_entry(rest, kv, vv) == seq![(kv, vv)] + rest);
                entries.insert(i, (k, v));
                assert(entries_view(entries@) =~= e.take(i as int) + (seq![(kv, vv)] + e.skip(
                    i as int,
                )));
                return ;
            },
        }
    }
    assert(e.skip(i as int) =~= Seq::<FieldPair>::empty());
    assert(e.take(i as int) =~= e);
    entries.push((k, v));
    assert(entries_view(entries@) =~= e + seq![(kv, vv)]);
}

proof fn lemma_pairs_prefix(s: Seq<Seq<char>>, n: int)
    requires
        0 <= n <= s.len(),
    ensures
        pairs_of_pieces(s) matches Some(p) ==> p.len() == s.len() && pairs_of_pieces(s.take(n))
            == Some(p.take(n)),
    decreases s.len(),
{
    if let Some(p) = pairs_of_pieces(s) {
        if s.len() > 0 {
            lemma_pairs_prefix(s.drop_last(), if n < s.len() { n } else { s.len() - 1 });
            let q = pairs_of_pieces(s.drop_last())->0;
            assert(p == q.push(split_once(s.last(), '=')->0));
            assert(q =~= p.drop_last());
            if n < s.len() {
                assert(s.drop_last().take(n) =~= s.take(n));
                assert(p.drop_last().take(n) =~= p.take(n));
            } else {
                assert(s.take(n) =~= s);
                assert(p.take(n) =~= p);
            }
        } else {
            assert(s.take(n) =~= s);
            assert(p.take(n) =~= p);
        }
    }
}

proof fn lemma_decoded_prefix(p: Seq<FieldPair>, n: int)
    requires
        0 <= n <= p.len(),
    ensures
        decoded_pairs(p) matches Some(d) ==> d.len() == p.len() && decoded_pairs(p.take(n))
            == Some(d.take(n)),
    decreases p.len(),
{
    if let Some(d) = decoded_pairs(p) {
        if p.len() > 0 {
            lemma_decoded_prefix(p.drop_last(), if n < p.len() { n } else { p.len() - 1 });
            let q = decoded_pairs(p.drop_last())->0;
            assert(q =~= d.drop_last());
            if n < p.len() {
                assert(p.drop_last().take(n) =~= p.take(n));
                assert(d.drop_last().take(n) =~= d.take(n));
            } else {
                assert(p.take(n) =~= p);
                assert(d.take(n) =~= d);
            }
        } else {
            assert(p.take(n) =~= p);
            assert(d.take(n) =~= d);
        }
    }
}

/// Percent-decodes one component of init data, reading `+` as a space.
pub fn decode_component(value: &str) -> (res: Result<String, TelegramWebAppError>)
    ensures
        match res {
            Ok(d) => decoded_component(value@) == Some(d@),
            Err(e) => e == TelegramWebAppError::InvalidInitData && decoded_component(
                value@,
            ) is None,
        },
{
    let chars = chars_of(value);
    let mut spaced: Vec<char> = Vec::new();
    let mut i: usize = 0;
    while i < chars.len()
        invariant
            i <= chars.len(),
            spaced@ == plus_as_space(chars@.take(i as int)),
        decreases chars.len() - i,
    {
        let c = chars[i];
        spaced.push(
            if c == '+' {
                ' '
            } else {
                c
            },
        );
        i = i + 1;
        assert(spaced@ =~= plus_as_space(chars@.take(i as int)));
    }
    assert(chars@.take(chars@.len() as int) =~= chars@);
    let normalized = string_of(&spaced);
    match url_decode(normalized.as_str()) {
        Ok(decoded) => Ok(decoded),
        Err(_) => Err(TelegramWebAppError::InvalidInitData),
    }
}

/// Decodes both components of a raw pair.
fn decode_pair(key: &Vec<char>, value: &Vec<char>) -> (res: Result<
    (Vec<char>, Vec<char>),
    TelegramWebAppError,
>)
    ensures
        match res {
            Ok((k, v)) => decoded_component(key@) == Some(k@) && decoded_component(value@) == Some(
                v@,
            ),
            Err(e) => e == TelegramWebAppError::InvalidInitData && (decoded_component(key@) is None
                || decoded_component(value@) is None),
        },
{
    let k = decode_component(string_of(key).as_str())?;
    let v = decode_component(string_of(value).as_str())?;
    Ok((chars_of(k.as_str()), chars_of(v.as_str())))
}

/// Splits init data into its fields: the trimmed text is split at `&`, each piece at its
/// first `=`, both sides are percent-decoded (`+` read as a space), and the pairs are
/// stored by key, a later pair overriding an earlier one.
pub fn parse_init_data_fields(init_data: &str) -> (res: Result<InitDataFields, TelegramWebAppError>)
    ensures
        match res {
            Ok(f) => parse_fields(init_data@) == Ok::<Seq<FieldPair>, TelegramWebAppError>(f@),
            Err(e) => parse_fields(init_data@) == Err::<Seq<FieldPair>, TelegramWebAppError>(e),
        },
{
    let t = trim_str(init_data);
    if t.len() == 0 {
        return Err(TelegramWebAppError::MissingInitData);
    }
    let pieces = split_chars(&t, '&');
    let ghost pv = pieces@.map_values(|p: Vec<char>| p@);
    // Split every piece at its first `=`.
    let mut raw: Vec<(Vec<char>, Vec<char>)> = Vec::new();
    let mut i: usize = 0;
    assert(pv.take(0) =~= Seq::<Seq<char>>::empty());
    while i < pieces.len()
        invariant
            pv == pieces@.map_values(|p: Vec<char>| p@),
            pv == split_on(t@, '&'),
            t@ == trim(init_data@),
            t@.len() > 0,
            i <= pieces.len(),
            pairs_of_pieces(pv.take(i as int)) == Some(entries_view(raw@)),
        decreases pieces.len() - i,
    {
        assert(pv.take(i + 1).drop_last() =~= pv.take(i as int));
        assert(pv.take(i + 1).last() == pieces@[i as int]@);
        match split_once_chars(&pieces[i], '=') {
            Some(kv) => {
                let ghost prev = raw@;
                raw.push(kv);
                assert(entries_view(raw@) =~= entries_view(prev).push((kv.0@, kv.1@)));
            },
            None => {
                proof {
                    assert(pairs_of_pieces(pv.take(i + 1)) is None);
                    lemma_pairs_prefix(pv, i + 1);
                }
                return Err(TelegramWebAppError::InvalidInitData);
            },
        }
        i = i + 1;
    }
    assert(pv.take(i as int) =~= pv);
    let ghost rv = entries_view(raw@);
    // Decode both sides of every pair.
    let mut decoded: Vec<(Vec<char>, Vec<char>)> = Vec::new();
    let mut j: usize = 0;
    assert(rv.take(0) =~= Seq::<FieldPair>::empty());
    while j < raw.len()
        invariant
            rv == entries_view(raw@),
            pairs_of_pieces(split_on(t@, '&')) == Some(rv),
            t@ == trim(init_data@),
            t@.len() > 0,
            j <= raw.len(),
            decoded_pairs(rv.take(j as int)) == Some(entries_view(decoded@)),
        decreases raw.len() - j,
    {
        assert(rv.take(j + 1).drop_last() =~= rv.take(j as int));
        assert(rv.take(j + 1).last() == (raw@[j as int].0@, raw@[j as int].1@));
        match decode_pair(&raw[j].0, &raw[j].1) {
            Ok(kv) => {
                let ghost prev = decoded@;
                decoded.push(kv);
                assert(entries_view(decoded@) =~= entries_view(prev).push((kv.0@, kv.1@)));
            },
            Err(e) => {
                proof {
                    assert(decoded_pairs(rv.take(j + 1)) is None);
                    lemma_decoded_prefix(rv, j + 1);
                }
                return Err(e);
            },
        }
        j = j + 1;
    }
    assert(rv.take(j as int) =~= rv);
    let ghost dv = entries_view(decoded@);
    // Store the pairs in key order.
    let mut entries: Vec<(Vec<char>, Vec<char>)> = Vec::new();
    let mut m: usize = 0;
    assert(dv.take(0) =~= Seq::<FieldPair>::empty());
    assert(entries_view(entries@) =~= Seq::<FieldPair>::empty());
    while m < decoded.len()
        invariant
            dv == entries_view(decoded@),
            pairs_of_pieces(split_on(t@, '&')) == Some(rv),
            decoded_pairs(rv) == Some(dv),
            t@ == trim(init_data@),
            t@.len() > 0,
            m <= decoded.len(),
            entries_view(entries@) == entries_of(dv.take(m as int)),
            keys_sorted(entries_view(entries@)),
        decreases decoded.len() - m,
    {
        assert(dv.take(m + 1).drop_last() =~= dv.take(m as int));
        let k = decoded[m].0.clone();
        let v = decoded[m].1.clone();
        proof {
            lemma_insert_sorted(entries_view(entries@), k@, v@);
        }
        insert_field(&mut entries, k, v);
        m = m + 1;
    }
    assert(dv.take(m as int) =~= dv);
    Ok(InitDataFields { entries })
}

/// The key that carries the signature of the other fields.
pub open spec fn hash_key() -> Seq<char> {
    seq!['h', 'a', 's', 'h']
}

/// The key of the third-party signature, which the bot-token check leaves out.
pub open spec fn signature_key() -> Seq<char> {
    seq!['s', 'i', 'g', 'n', 'a', 't', 'u', 'r', 'e']
}

/// Whether a key is left out of the data-check string.
pub open spec fn is_unsigned_key(k: Seq<char>) -> bool {
    k == hash_key() || k == signature_key()
}

/// The `key=value` line of an entry.
pub open spec fn field_line(p: FieldPair) -> Seq<char> {
    p.0 + seq!['='] + p.1
}

/// The `key=value` lines that the signature covers, in entry order: every entry but
/// `hash` and `signature`.
pub open spec fn check_lines(e: Seq<FieldPair>) -> Seq<Seq<char>>
    decreases e.len(),
{
    if e.len() == 0 {
        seq![]
    } else if is_unsigned_key(e[0].0) {
        check_lines(e.drop_first())
    } else {
        seq![field_line(e[0])] + check_lines(e.drop_first())
    }
}

pub proof fn lemma_check_lines_push(e: Seq<FieldPair>, x: FieldPair)
    ensures
        check_lines(e.push(x)) == check_lines(e) + (if is_unsigned_key(x.0) {
            Seq::<Seq<char>>::empty()
        } else {
            seq![field_line(x)]
        }),
    decreases e.len(),
{
    if e.len() == 0 {
        assert(e.push(x).drop_first() =~= Seq::<FieldPair>::empty());
        assert(check_lines(e.push(x).drop_first()) =~= Seq::<Seq<char>>::empty());
        assert(check_lines(e) =~= Seq::<Seq<char>>::empty());
        assert(e.push(x)[0] == x);
        assert(check_lines(e.push(x)) =~= check_lines(e) + (if is_unsigned_key(x.0) {
            Seq::<Seq<char>>::empty()
        } else {
            seq![field_line(x)]
        }));
    } else {
        lemma_check_lines_push(e.drop_first(), x);
        assert(e.push(x)[0] == e[0]);
        assert(e.push(x).drop_first() =~= e.drop_first().push(x));
        assert(check_lines(e.push(x)) =~= check_lines(e) + (if is_unsigned_key(x.0) {
            Seq::<Seq<char>>::empty()
        } else {
            seq![field_line(x)]
        }));
    }
}

/// `lines` joined by line feeds.
pub open spec fn join_lines(lines: Seq<Seq<char>>) -> Seq<char>
    decreases lines.len(),
{
    if lines.len() == 0 {
        seq![]
    } else if lines.len() == 1 {
        lines[0]
    } else {
        join_lines(lines.drop_last()) + seq!['\n'] + lines.last()
    }
}

/// The data-check string of Telegram's Mini App validation; init data without any
/// signed field is invalid.
pub open spec fn data_check_string(e: Seq<FieldPair>) -> Result<Seq<char>, TelegramWebAppError> {
    if check_lines(e).len() == 0 {
        Err(TelegramWebAppError::InvalidInitData)
    } else {
        Ok(join_lines(check_lines(e)))
    }
}

/// Builds the data-check string: the `key=value` lines of every field but `hash` and
/// `signature`, in key order, joined by `\n`.
pub fn build_data_check_string(fields: &InitDataFields) -> (res: Result<String, TelegramWebAppError>)
    ensures
        match res {
            Ok(s) => data_check_string(fields@) == Ok::<Seq<char>, TelegramWebAppError>(s@),
            Err(e) => data_check_string(fields@) == Err::<Seq<char>, TelegramWebAppError>(e),
        },
{
    let hash: Vec<char> = vec!['h', 'a', 's', 'h'];
    let signature: Vec<char> = vec!['s', 'i', 'g', 'n', 'a', 't', 'u', 'r', 'e'];
    assert(hash@ == hash_key());
    assert(signature@ == signature_key());
    let ghost e = fields@;
    let mut out: Vec<char> = Vec::new();
    let mut count: usize = 0;
    let mut i: usize = 0;
    assert(e.take(0) =~= Seq::<FieldPair>::empty());
    while i < fields.entries.len()
        invariant
            e == entries_view(fields.entries@),
            hash@ == hash_key(),
            signature@ == signature_key(),
            i <= fields.entries.len(),
            count == check_lines(e.take(i as int)).len(),
            count <= i,
            out@ == join_lines(check_lines(e.take(i as int))),
        decreases fields.entries.len() - i,
    {
        assert(e.take(i + 1) =~= e.take(i as int).push(e[i as int]));
        proof {
            lemma_check_lines_push(e.take(i as int), e[i as int]);
        }
        let key = &fields.entries[i].0;
        let value = &fields.entries[i].1;
        if !chars_eq(key, &hash) && !chars_eq(key, &signature) {
            let ghost lines = check_lines(e.take(i as int));
            let ghost line = key@ + seq!['='] + value@;
            assert(check_lines(e.take(i + 1)) =~= lines.push(line));
            if count > 0 {
                out.push('\n');
            }
            push_all(&mut out, key);
            out.push('=');
            push_all(&mut out, value);
            proof {
                if lines.len() == 0 {
                    assert(lines.push(line).len() == 1);
                    assert(out@ =~= line);
                } else {
                    assert(lines.push(line).drop_last() =~= lines);
                    assert(out@ =~= join_lines(lines) + seq!['\n'] + line);
                }
            }
            count = count + 1;
        }
        i = i + 1;
    }
    assert(e.take(i as int) =~= e);
    if count == 0 {
        Err(TelegramWebAppError::InvalidInitData)
    } else {
        Ok(string_of(&out))
    }
}

} // verus!
