//! Trusted items: the declarations and wrappers through which verified code calls
//! `std`, `hmac`/`sha2`, `hex`, `urlencoding` and `http` (through `axum`).
//! Verus believes their contracts; each states what the called code's
//! documentation or source shows.

use hmac::Mac;
use vstd::prelude::*;
use vstd::utf8::{decode_utf8, encode_utf8, valid_utf8};

verus! {

/// `hmac`'s key-length error (`digest::InvalidLength`).
#[verifier::external_type_specification]
#[verifier::external_body]
pub struct ExInvalidLength(hmac::digest::InvalidLength);

/// `std`'s error for bytes that are not UTF-8.
#[verifier::external_type_specification]
#[verifier::external_body]
pub struct ExFromUtf8Error(std::string::FromUtf8Error);

/// `http`'s header map, as `axum` re-exports it.
#[verifier::external_type_specification]
#[verifier::external_body]
#[verifier::reject_recursive_types(T)]
pub struct ExHeaderMap<T>(axum::http::HeaderMap<T>);

/// `http`'s header value.
#[verifier::external_type_specification]
#[verifier::external_body]
pub struct ExHeaderValue(axum::http::HeaderValue);

/// `http`'s error for a header value that is not visible ASCII.
#[verifier::external_type_specification]
#[verifier::external_body]
pub struct ExToStrError(axum::http::header::ToStrError);

/// Appends `c` to `s` (`String::push`).
#[verifier::external_body]
pub fn string_push(s: &mut String, c: char)
    ensures
        final(s)@ == old(s)@.push(c),
{
    s.push(c);
}

/// The HMAC-SHA256 tag of `msg` under `key`. The algorithm is pages long; this name
/// stands for what `hmac::Hmac<sha2::Sha256>` computes.
pub uninterp spec fn hmac_sha256_tag(key: Seq<u8>, msg: Seq<u8>) -> Seq<u8>;

/// HMAC-SHA256 with `hmac`'s `Mac::new_from_slice`, `Mac::update` and `Mac::finalize`.
/// The contract claims that keying never fails (the source of `HmacCore::new_from_slice`
/// returns `Ok` for every key length) and that the tag is `hmac_sha256_tag(key, msg)`,
/// 32 bytes long (SHA-256's output size).
#[verifier::external_body]
pub fn hmac_sha256(key: &[u8], msg: &[u8]) -> (res: Result<Vec<u8>, hmac::digest::InvalidLength>)
    ensures
        res is Ok,
        res matches Ok(tag) ==> tag@ == hmac_sha256_tag(key@, msg@),
        res matches Ok(tag) ==> tag@.len() == 32,
{
    match <hmac::Hmac<sha2::Sha256> as Mac>::new_from_slice(key) {
        Ok(mut mac) => {
            mac.update(msg);
            Ok(mac.finalize().into_bytes().to_vec())
        },
        Err(e) => Err(e),
    }
}

/// Lower-case hex digit for `n < 16`.
pub open spec fn hex_digit_lower(n: u8) -> char {
    if n < 10 {
        (48 + n) as char
    } else {
        (87 + n) as char
    }
}

/// Upper-case hex digit for `n < 16`.
pub open spec fn hex_digit_upper(n: u8) -> char {
    if n < 10 {
        (48 + n) as char
    } else {
        (55 + n) as char
    }
}

/// Two lower-case hex digits per byte, high nibble first.
pub open spec fn hex_lower(bytes: Seq<u8>) -> Seq<char>
    decreases bytes.len(),
{
    if bytes.len() == 0 {
        seq![]
    } else {
        hex_lower(bytes.drop_last()) + seq![
            hex_digit_lower(bytes.last() / 16),
            hex_digit_lower(bytes.last() % 16),
        ]
    }
}

/// `hex::encode`: the documented lower-case hex text of `bytes`, two digits per byte.
#[verifier::external_body]
pub fn hex_encode(bytes: &[u8]) -> (res: String)
    ensures
        res@ == hex_lower(bytes@),
{
    hex::encode(bytes)
}

/// Value of an ASCII hex digit of either case.
pub open spec fn hex_value(b: u8) -> Option<u8> {
    if 48 <= b <= 57 {
        Some((b - 48) as u8)
    } else if 65 <= b <= 70 {
        Some((b - 55) as u8)
    } else if 97 <= b <= 102 {
        Some((b - 87) as u8)
    } else {
        None
    }
}

/// `urlencoding::decode_binary`: each `%` followed by two hex digits becomes the byte
/// they spell; every other byte, a lone `%` included, is kept.
pub open spec fn percent_decode_bytes(b: Seq<u8>) -> Seq<u8>
    decreases b.len(),
{
    if b.len() == 0 {
        seq![]
    } else if b[0] == 37 && b.len() >= 3 && hex_value(b[1]) is Some && hex_value(b[2]) is Some {
        seq![((hex_value(b[1])->0 as int) * 16 + (hex_value(b[2])->0 as int)) as u8]
            + percent_decode_bytes(b.skip(3))
    } else {
        seq![b[0]] + percent_decode_bytes(b.skip(1))
    }
}

/// `urlencoding::decode`: the percent-decoded bytes of `s`'s UTF-8 encoding, read back
/// as UTF-8; `None` when they are not UTF-8.
pub open spec fn url_decoded(s: Seq<char>) -> Option<Seq<char>> {
    let bytes = percent_decode_bytes(encode_utf8(s));
    if valid_utf8(bytes) {
        Some(decode_utf8(bytes))
    } else {
        None
    }
}

/// `urlencoding::decode(s)`, made owned. Its source decodes as `url_decoded` states and
/// returns `String::from_utf8`'s error when the decoded bytes are not UTF-8.
#[verifier::external_body]
pub fn url_decode(s: &str) -> (res: Result<String, std::string::FromUtf8Error>)
    ensures
        res is Ok <==> url_decoded(s@) is Some,
        res matches Ok(d) ==> url_decoded(s@) == Some(d@),
{
    match urlencoding::decode(s) {
        Ok(d) => Ok(d.into_owned()),
        Err(e) => Err(e),
    }
}

/// Bytes that `urlencoding::encode` keeps: ASCII alphanumerics and `-` `.` `_` `~`.
pub open spec fn is_unreserved(b: u8) -> bool {
    ||| 48 <= b <= 57
    ||| 65 <= b <= 90
    ||| 97 <= b <= 122
    ||| b == 45
    ||| b == 46
    ||| b == 95
    ||| b == 126
}

/// One byte as `urlencoding::encode` writes it: itself when unreserved, else `%` and two
/// upper-case hex digits.
pub open spec fn percent_encode_byte(b: u8) -> Seq<char> {
    if is_unreserved(b) {
        seq![b as char]
    } else {
        seq!['%', hex_digit_upper(b / 16), hex_digit_upper(b % 16)]
    }
}

/// Every byte percent-encoded in turn.
pub open spec fn percent_encode_bytes(b: Seq<u8>) -> Seq<char>
    decreases b.len(),
{
    if b.len() == 0 {
        seq![]
    } else {
        percent_encode_byte(b[0]) + percent_encode_bytes(b.skip(1))
    }
}

/// What `urlencoding::encode` returns for `s`.
pub open spec fn url_encoded(s: Seq<char>) -> Seq<char> {
    percent_encode_bytes(encode_utf8(s))
}

/// `urlencoding::encode(s)`, made owned. The documentation and source percent-encode
/// every byte of `s`'s UTF-8 encoding except ASCII alphanumerics and `-` `_` `.` `~`,
/// with upper-case hex digits.
#[verifier::external_body]
pub fn url_encode(s: &str) -> (res: String)
    ensures
        res@ == url_encoded(s@),
{
    urlencoding::encode(s).into_owned()
}

/// Header names whose text is already in `http`'s canonical lower-case form.
pub open spec fn is_header_name(name: Seq<char>) -> bool {
    &&& name.len() > 0
    &&& forall|i: int|
        0 <= i < name.len() ==> ('a' <= #[trigger] name[i] <= 'z' || '0' <= name[i] <= '9'
            || name[i] == '-')
}

/// The first value stored under each (lower-case) header name of a `HeaderMap`.
pub uninterp spec fn header_first_values(headers: axum::http::HeaderMap) -> Map<
    Seq<char>,
    Seq<u8>,
>;

/// The bytes of a header value.
pub uninterp spec fn header_value_bytes(value: axum::http::HeaderValue) -> Seq<u8>;

/// `HeaderMap::get(name)`: documented to return the first value associated with the
/// name, `None` when there is none. `name` is a canonical lower-case header name.
#[verifier::external_body]
pub fn header_get<'a>(headers: &'a axum::http::HeaderMap, name: &str) -> (res: Option<
    &'a axum::http::HeaderValue,
>)
    requires
        is_header_name(name@),
    ensures
        res is Some <==> header_first_values(*headers).contains_key(name@),
        res matches Some(v) ==> header_value_bytes(*v) == header_first_values(*headers)[name@],
{
    headers.get(name)
}

/// Bytes that `HeaderValue::to_str` accepts: visible ASCII and tab.
pub open spec fn is_visible_ascii(b: u8) -> bool {
    (32 <= b < 127) || b == 9
}

/// The characters that ASCII bytes stand for.
pub open spec fn ascii_text(bytes: Seq<u8>) -> Seq<char> {
    bytes.map_values(|b: u8| b as char)
}

/// `HeaderValue::to_str`: its source returns the value as text when every byte is
/// visible ASCII or a tab, and an error otherwise.
#[verifier::external_body]
pub fn header_value_text<'a>(value: &'a axum::http::HeaderValue) -> (res: Result<
    &'a str,
    axum::http::header::ToStrError,
>)
    ensures
        res is Ok <==> forall|i: int|
            0 <= i < header_value_bytes(*value).len() ==> #[trigger] is_visible_ascii(
                header_value_bytes(*value)[i],
            ),
        res matches Ok(s) ==> s@ == ascii_text(header_value_bytes(*value)),
{
    value.to_str()
}

} // verus!
