//! Errors of Mini App init-data validation.

use crate::db::Track;
use crate::number::{parse_i64, parse_i64_chars};
use crate::outside::{
    ascii_text, header_first_values, header_get, header_value_text, hex_encode,
    hex_lower, hmac_sha256, hmac_sha256_tag, is_header_name, is_visible_ascii,
};
use crate::telegram::fields::{
    build_data_check_string, data_check_string, hash_key, lookup, parse_fields,
    parse_init_data_fields, FieldPair, InitDataFields,
};
use crate::text::{chars_of, eq_ignore_ascii_case, eq_ignore_ascii_case_chars, string_of, trim, trim_chars};
use vstd::prelude::*;
use vstd::utf8::encode_utf8;

verus! {

/// Why init data was refused.
#[derive(Debug, Clone, Copy, PartialEq, Eq, Structural)]
pub enum TelegramWebAppError {
    MissingInitData,
    MissingBotToken,
    InvalidInitData,
    MissingHash,
    MissingUser,
    InvalidUserPayload,
    InvalidSignature,
}

impl TelegramWebAppError {
    /// The HTTP status that answers the error.
    pub open spec fn status_spec(self) -> u16 {
        match self {
            TelegramWebAppError::MissingBotToken => 500,
            TelegramWebAppError::InvalidSignature => 401,
            _ => 400,
        }
    }

    /// The machine-readable code of the error.
    pub open spec fn code_spec(self) -> Seq<char> {
        match self {
            TelegramWebAppError::MissingInitData => "missing_init_data"@,
            TelegramWebAppError::MissingBotToken => "missing_bot_token"@,
            TelegramWebAppError::InvalidInitData => "invalid_init_data"@,
            TelegramWebAppError::MissingHash => "missing_hash"@,
            TelegramWebAppError::MissingUser => "missing_user"@,
            TelegramWebAppError::InvalidUserPayload => "invalid_user_payload"@,
            TelegramWebAppError::InvalidSignature => "invalid_signature"@,
        }
    }

    /// The human-readable message of the error.
    pub open spec fn message_spec(self) -> Seq<char> {
        match self {
            TelegramWebAppError::MissingInitData => "missing init_data"@,
            TelegramWebAppError::MissingBotToken => "missing bot token"@,
            TelegramWebAppError::InvalidInitData => "invalid init_data"@,
            TelegramWebAppError::MissingHash => "missing hash"@,
            TelegramWebAppError::MissingUser => "missing user"@,
            TelegramWebAppError::InvalidUserPayload => "invalid user payload"@,
            TelegramWebAppError::InvalidSignature => "invalid signature"@,
        }
    }

    /// HTTP status code: 500 for a missing bot token, 401 for a bad signature, 400 otherwise.
    pub fn status(&self) -> (res: u16)
        ensures
            res == self.status_spec(),
    {
        match self {
            TelegramWebAppError::MissingBotToken => 500,
            TelegramWebAppError::InvalidSignature => 401,
            _ => 400,
        }
    }

    pub fn code(&self) -> (res: &'static str)
        ensures
            res@ == self.code_spec(),
    {
        match self {
            TelegramWebAppError::MissingInitData => "missing_init_data",
            TelegramWebAppError::MissingBotToken => "missing_bot_token",
            TelegramWebAppError::InvalidInitData => "invalid_init_data",
            TelegramWebAppError::MissingHash => "missing_hash",
            TelegramWebAppError::MissingUser => "missing_user",
            TelegramWebAppError::InvalidUserPayload => "invalid_user_payload",
            TelegramWebAppError::InvalidSignature => "invalid_signature",
        }
    }

    pub fn message(&self) -> (res: &'static str)
        ensures
            res@ == self.message_spec(),
    {
        match self {
            TelegramWebAppError::MissingInitData => "missing init_data",
            TelegramWebAppError::MissingBotToken => "missing bot token",
            TelegramWebAppError::InvalidInitData => "invalid init_data",
            TelegramWebAppError::MissingHash => "missing hash",
            TelegramWebAppError::MissingUser => "missing user",
            TelegramWebAppError::InvalidUserPayload => "invalid user payload",
            TelegramWebAppError::InvalidSignature => "invalid signature",
        }
    }
}

/// Distinct errors have distinct codes, so a client can tell every refusal apart.
pub proof fn lemma_error_codes_distinct(a: TelegramWebAppError, b: TelegramWebAppError)
    ensures
        a != b ==> a.code_spec() != b.code_spec(),
{
    reveal_strlit("missing_init_data");
    reveal_strlit("missing_bot_token");
    reveal_strlit("invalid_init_data");
    reveal_strlit("missing_hash");
    reveal_strlit("missing_user");
    reveal_strlit("invalid_user_payload");
    reveal_strlit("invalid_signature");
    if a != b {
        assert(a.code_spec() != b.code_spec()) by {
            if a.code_spec() == b.code_spec() {
                assert(a.code_spec().len() == b.code_spec().len());
                assert(a.code_spec()[0] == b.code_spec()[0]);
                assert(a.code_spec()[8] == b.code_spec()[8]);
                assert(false);
            }
        }
    }
}

/// The JSON body of an init-data request.
pub struct TelegramBootstrapRequest {
    pub init_data: String,
}

/// The Telegram user that init data describes (its `user` field, as JSON).
#[derive(Debug)]
pub struct TelegramWebAppUser {
    pub id: i64,
    pub first_name: Option<String>,
    pub last_name: Option<String>,
    pub username: Option<String>,
    pub language_code: Option<String>,
    pub is_premium: Option<bool>,
    pub added_to_attachment_menu: Option<bool>,
    pub allows_write_to_pm: Option<bool>,
    pub photo_url: Option<String>,
}

/// What a valid signature vouches for: the raw `user` field and the parsed `auth_date`.
pub struct SignedInitData {
    pub user_payload: String,
    pub auth_date: Option<i64>,
}

/// Init data whose signature checked out and whose user parsed.
#[derive(Debug)]
pub struct ValidatedTelegramWebApp {
    pub telegram_user_id: i64,
    pub auth_date: Option<i64>,
    pub user: TelegramWebAppUser,
}

pub open spec fn user_key() -> Seq<char> {
    seq!['u', 's', 'e', 'r']
}

pub open spec fn auth_date_key() -> Seq<char> {
    seq!['a', 'u', 't', 'h', '_', 'd', 'a', 't', 'e']
}

/// The bytes of `WebAppData`, the key of the secret-key derivation.
pub open spec fn web_app_data() -> Seq<u8> {
    seq![87u8, 101u8, 98u8, 65u8, 112u8, 112u8, 68u8, 97u8, 116u8, 97u8]
}

/// The secret key of a bot: HMAC-SHA256 of the token under the key `WebAppData`.
pub open spec fn secret_key(bot_token: Seq<char>) -> Seq<u8> {
    hmac_sha256_tag(web_app_data(), encode_utf8(bot_token))
}

/// `auth_date` as an integer, when present and well formed.
pub open spec fn auth_date_of(fields: Seq<FieldPair>) -> Option<i64> {
    match lookup(fields, auth_date_key()) {
        Some(v) => parse_i64(v),
        None => None,
    }
}

/// The outcome of checking `fields` against the signature tag `tag`: the received `hash`
/// must equal the hex text of `tag` up to ASCII case, and a `user` field must be present.
pub open spec fn signed_outcome(fields: Seq<FieldPair>, tag: Seq<u8>) -> Result<
    (Seq<char>, Option<i64>),
    TelegramWebAppError,
> {
    match lookup(fields, hash_key()) {
        None => Err(TelegramWebAppError::MissingHash),
        Some(received) => if !eq_ignore_ascii_case(hex_lower(tag), received) {
            Err(TelegramWebAppError::InvalidSignature)
        } else {
            match lookup(fields, user_key()) {
                None => Err(TelegramWebAppError::MissingUser),
                Some(user) => Ok((user, auth_date_of(fields))),
            }
        },
    }
}

/// The outcome of checking parsed fields against a bot token, in the order of the checks:
/// presence of `hash`, the data-check string, the signature, presence of `user`.
pub open spec fn fields_outcome(fields: Seq<FieldPair>, bot_token: Seq<char>) -> Result<
    (Seq<char>, Option<i64>),
    TelegramWebAppError,
> {
    match lookup(fields, hash_key()) {
        None => Err(TelegramWebAppError::MissingHash),
        Some(_) => match data_check_string(fields) {
            Err(e) => Err(e),
            Ok(dcs) => signed_outcome(
                fields,
                hmac_sha256_tag(secret_key(bot_token), encode_utf8(dcs)),
            ),
        },
    }
}

/// The outcome of checking init data against a bot token: parsing, then the checks of
/// `fields_outcome`.
pub open spec fn init_data_outcome(init_data: Seq<char>, bot_token: Seq<char>) -> Result<
    (Seq<char>, Option<i64>),
    TelegramWebAppError,
> {
    match parse_fields(init_data) {
        Err(e) => Err(e),
        Ok(fields) => fields_outcome(fields, bot_token),
    }
}

/// Derives the bot's secret key: HMAC-SHA256 of the token under `WebAppData`.
pub fn compute_secret_key(bot_token: &str) -> (res: Result<Vec<u8>, TelegramWebAppError>)
    ensures
        res is Ok,
        res matches Ok(k) ==> k@ == secret_key(bot_token@),
        res matches Ok(k) ==> k@.len() == 32,
{
    let key: Vec<u8> = vec![87u8, 101u8, 98u8, 65u8, 112u8, 112u8, 68u8, 97u8, 116u8, 97u8];
    assert(key@ == web_app_data());
    match hmac_sha256(key.as_slice(), bot_token.as_bytes()) {
        Ok(tag) => Ok(tag),
        Err(_) => Err(TelegramWebAppError::MissingBotToken),
    }
}

/// Checks the fields against the signature tag computed over them: compares the
/// received `hash` with the tag's hex text, ignoring ASCII case, then reads `user` and
/// `auth_date`.
pub fn check_signature(fields: &InitDataFields, tag: &[u8]) -> (res: Result<
    SignedInitData,
    TelegramWebAppError,
>)
    ensures
        match res {
            Ok(s) => signed_outcome(fields@, tag@) == Ok::<
                (Seq<char>, Option<i64>),
                TelegramWebAppError,
            >((s.user_payload@, s.auth_date)),
            Err(e) => signed_outcome(fields@, tag@) == Err::<
                (Seq<char>, Option<i64>),
                TelegramWebAppError,
            >(e),
        },
{
    let hash: Vec<char> = vec!['h', 'a', 's', 'h'];
    let user: Vec<char> = vec!['u', 's', 'e', 'r'];
    let auth_date: Vec<char> = vec!['a', 'u', 't', 'h', '_', 'd', 'a', 't', 'e'];
    assert(hash@ == hash_key());
    assert(user@ == user_key());
    assert(auth_date@ == auth_date_key());
    let received = match fields.find(&hash) {
        Some(r) => r,
        None => return Err(TelegramWebAppError::MissingHash),
    };
    let calculated = hex_encode(tag);
    let calculated = chars_of(calculated.as_str());
    if !eq_ignore_ascii_case_chars(&calculated, received) {
        return Err(TelegramWebAppError::InvalidSignature);
    }
    let user_payload = match fields.find(&user) {
        Some(u) => crate::text::string_of(u),
        None => return Err(TelegramWebAppError::MissingUser),
    };
    let auth_date = match fields.find(&auth_date) {
        Some(v) => parse_i64_chars(v),
        None => None,
    };
    Ok(SignedInitData { user_payload, auth_date })
}

/// Checks Telegram Mini App init data against the bot token: the fields must parse,
/// carry a `hash`, and the hash must be the HMAC-SHA256, under the bot's secret key, of
/// the data-check string; a `user` field must be present.
pub fn check_init_data(init_data: &str, bot_token: &str) -> (res: Result<
    SignedInitData,
    TelegramWebAppError,
>)
    ensures
        match res {
            Ok(s) => init_data_outcome(init_data@, bot_token@) == Ok::<
                (Seq<char>, Option<i64>),
                TelegramWebAppError,
            >((s.user_payload@, s.auth_date)),
            Err(e) => init_data_outcome(init_data@, bot_token@) == Err::<
                (Seq<char>, Option<i64>),
                TelegramWebAppError,
            >(e),
        },
{
    let fields = match parse_init_data_fields(init_data) {
        Ok(f) => f,
        Err(e) => return Err(e),
    };
    let hash: Vec<char> = vec!['h', 'a', 's', 'h'];
    assert(hash@ == hash_key());
    if fields.find(&hash).is_none() {
        return Err(TelegramWebAppError::MissingHash);
    }
    let data_check_string = match build_data_check_string(&fields) {
        Ok(d) => d,
        Err(e) => return Err(e),
    };
    let secret_key = match compute_secret_key(bot_token) {
        Ok(k) => k,
        Err(e) => return Err(e),
    };
    let tag = match hmac_sha256(secret_key.as_slice(), data_check_string.as_str().as_bytes()) {
        Ok(tag) => tag,
        Err(_) => return Err(TelegramWebAppError::MissingBotToken),
    };
    check_signature(&fields, tag.as_slice())
}

/// Checks the init data of a bootstrap request: without a bot token nothing can be
/// checked; with one, the init data must check out against it.
pub fn check_bootstrap(init_data: &str, bot_token: Option<&str>) -> (res: Result<
    SignedInitData,
    TelegramWebAppError,
>)
    ensures
        match bot_token {
            None => res == Err::<SignedInitData, TelegramWebAppError>(
                TelegramWebAppError::MissingBotToken,
            ),
            Some(k) => match res {
                Ok(s) => init_data_outcome(init_data@, k@) == Ok::<
                    (Seq<char>, Option<i64>),
                    TelegramWebAppError,
                >((s.user_payload@, s.auth_date)),
                Err(e) => init_data_outcome(init_data@, k@) == Err::<
                    (Seq<char>, Option<i64>),
                    TelegramWebAppError,
                >(e),
            },
        },
{
    match bot_token {
        Some(k) => check_init_data(init_data, k),
        None => Err(TelegramWebAppError::MissingBotToken),
    }
}

impl ValidatedTelegramWebApp {
    /// Completes validation with the `user` field parsed as JSON (`None` when it did not
    /// parse): the user's id becomes the trusted Telegram user id.
    pub fn from_signed(signed: SignedInitData, user: Option<TelegramWebAppUser>) -> (res: Result<
        ValidatedTelegramWebApp,
        TelegramWebAppError,
    >)
        ensures
            match user {
                None => res == Err::<ValidatedTelegramWebApp, TelegramWebAppError>(
                    TelegramWebAppError::InvalidUserPayload,
                ),
                Some(u) => res matches Ok(v) && v.telegram_user_id == u.id && v.auth_date
                    == signed.auth_date && v.user == u,
            },
    {
        match user {
            None => Err(TelegramWebAppError::InvalidUserPayload),
            Some(u) => Ok(
                ValidatedTelegramWebApp { telegram_user_id: u.id, auth_date: signed.auth_date, user: u },
            ),
        }
    }
}

/// The first value of header `name` as text, when it is visible ASCII.
pub open spec fn header_text_spec(headers: axum::http::HeaderMap, name: Seq<char>) -> Option<
    Seq<char>,
> {
    let values = header_first_values(headers);
    if values.contains_key(name) && forall|i: int|
        0 <= i < values[name].len() ==> #[trigger] is_visible_ascii(values[name][i]) {
        Some(ascii_text(values[name]))
    } else {
        None
    }
}

/// Reads the first value of header `name` as text; `None` when the header is absent or
/// its value is not visible ASCII.
pub fn header_text(headers: &axum::http::HeaderMap, name: &str) -> (res: Option<Vec<char>>)
    requires
        is_header_name(name@),
    ensures
        match res {
            Some(t) => header_text_spec(*headers, name@) == Some(t@),
            None => header_text_spec(*headers, name@) is None,
        },
{
    match header_get(headers, name) {
        Some(value) => match header_value_text(value) {
            Ok(text) => Some(chars_of(text)),
            Err(_) => None,
        },
        None => None,
    }
}

/// The name of the header that carries Mini App init data.
pub open spec fn init_data_header_name() -> Seq<char> {
    "x-telegram-init-data"@
}

/// The trimmed init-data header, when present, visible ASCII and not blank.
pub open spec fn init_data_header(headers: axum::http::HeaderMap) -> Option<Seq<char>> {
    match header_text_spec(headers, init_data_header_name()) {
        Some(t) => if trim(t).len() == 0 {
            None
        } else {
            Some(trim(t))
        },
        None => None,
    }
}

/// Reads the `X-Telegram-Init-Data` header, trimmed; `None` when it is absent, not
/// visible ASCII, or blank.
pub fn extract_init_data_header(headers: &axum::http::HeaderMap) -> (res: Option<String>)
    ensures
        match res {
            Some(t) => init_data_header(*headers) == Some(t@),
            None => init_data_header(*headers) is None,
        },
{
    proof {
        reveal_strlit("x-telegram-init-data");
    }
    let name = "x-telegram-init-data";
    assert(is_header_name(name@));
    match header_text(headers, name) {
        Some(text) => {
            let trimmed = trim_chars(&text);
            if trimmed.len() == 0 {
                None
            } else {
                Some(string_of(&trimmed))
            }
        },
        None => None,
    }
}

/// A track as the Mini App bootstrap lists it.
pub struct BootstrapTrack {
    pub id: String,
    pub title: String,
    pub artist: Option<String>,
    pub artwork_url: Option<String>,
}

/// The bootstrap view of a stored track: its id, its title or "Без названия" when it has
/// none, and no artist or artwork.
pub fn bootstrap_track(track: Track) -> (res: BootstrapTrack)
    ensures
        res.id == track.id,
        res.title@ == match track.title {
            Some(t) => t@,
            None => "Без названия"@,
        },
        res.artist is None,
        res.artwork_url is None,
{
    let title = match track.title {
        Some(t) => t,
        None => "Без названия".to_owned(),
    };
    BootstrapTrack { id: track.id, title, artist: None, artwork_url: None }
}

/// Where the trust check of a request stands before its `user` field is read as JSON.
pub enum TrustCheck {
    /// The request carries no init data: nobody is vouched for.
    NoInitData,
    /// The request's init data is refused.
    Refused(TelegramWebAppError),
    /// The init data is signed; its `user` field remains to be read.
    Signed(SignedInitData),
}

/// Starts the trust check of a request: without an init-data header nobody is vouched
/// for; with one, a bot token is needed and the init data must check out against it.
pub fn resolve_trusted_init_data(headers: &axum::http::HeaderMap, bot_token: Option<&str>) -> (res:
    TrustCheck)
    ensures
        match init_data_header(*headers) {
            None => res is NoInitData,
            Some(init_data) => match bot_token {
                None => res == TrustCheck::Refused(TelegramWebAppError::MissingBotToken),
                Some(token) => match init_data_outcome(init_data, token@) {
                    Err(e) => res == TrustCheck::Refused(e),
                    Ok((user, auth_date)) => res matches TrustCheck::Signed(s) && s.user_payload@
                        == user && s.auth_date == auth_date,
                },
            },
        },
{
    let init_data = match extract_init_data_header(headers) {
        Some(d) => d,
        None => return TrustCheck::NoInitData,
    };
    let token = match bot_token {
        Some(t) => t,
        None => return TrustCheck::Refused(TelegramWebAppError::MissingBotToken),
    };
    match check_init_data(init_data.as_str(), token) {
        Ok(s) => TrustCheck::Signed(s),
        Err(e) => TrustCheck::Refused(e),
    }
}

} // verus!
