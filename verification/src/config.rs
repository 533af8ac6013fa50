//! Server configuration, computed from the values of its environment variables.

use crate::number::{
    all_digits, digits_value, is_digit, lemma_digits_value_nonneg, parse_u16, parse_u16_chars,
};
use crate::text::chars_of;
use vstd::prelude::*;

verus! {

/// The port the server listens on when `PORT` is unset or not a port number.
pub const DEFAULT_PORT: u16 = 3001;

/// Settings of the backend server.
#[derive(Debug)]
pub struct AppConfig {
    pub database_url: String,
    pub telegram_bot_token: Option<String>,
    pub telegram_api_base: String,
    pub port: u16,
}

pub open spec fn default_database_url_spec(windows: bool) -> Seq<char> {
    if windows {
        "sqlite:///C:/dev/eva-music-backend/tracks.db?mode=rwc"@
    } else {
        "sqlite:///var/data/tracks.db?mode=rwc"@
    }
}

/// The database used when `DATABASE_URL` is unset: a file under `C:/dev` on Windows,
/// under `/var/data` elsewhere.
pub fn default_database_url(windows: bool) -> (res: &'static str)
    ensures
        res@ == default_database_url_spec(windows),
{
    if windows {
        "sqlite:///C:/dev/eva-music-backend/tracks.db?mode=rwc"
    } else {
        "sqlite:///var/data/tracks.db?mode=rwc"
    }
}

/// The Bot API used when `TELEGRAM_API_BASE` is unset.
pub fn default_telegram_api_base() -> (res: &'static str)
    ensures
        res@ == "https://api.telegram.org"@,
{
    "https://api.telegram.org"
}

/// The port that the value of `PORT` selects.
pub open spec fn port_of(port: Option<Seq<char>>) -> u16 {
    match port {
        Some(p) => match parse_u16(p) {
            Some(v) => v,
            None => DEFAULT_PORT,
        },
        None => DEFAULT_PORT,
    }
}

/// A `PORT` value that parses as a `u16` is the port, whatever its size; an unset one or
/// one that does not parse gives the default port.
pub proof fn lemma_port_of(port: Option<Seq<char>>)
    ensures
        port_of(port) == match port {
            Some(p) => match parse_u16(p) {
                Some(v) => v,
                None => 3001u16,
            },
            None => 3001u16,
        },
{
}

/// A `PORT` of decimal digits, with or without a leading `+`, whose value fits in a `u16`
/// selects the port of that value.
pub proof fn lemma_decimal_port(d: Seq<char>)
    requires
        d.len() > 0,
        forall|i: int| 0 <= i < d.len() ==> '0' <= #[trigger] d[i] <= '9',
        digits_value(d) <= 65535,
    ensures
        port_of(Some(d)) == digits_value(d),
        port_of(Some(seq!['+'] + d)) == digits_value(d),
{
    assert(all_digits(d)) by {
        assert forall|i: int| 0 <= i < d.len() implies #[trigger] is_digit(d[i]) by {
            assert('0' <= d[i] <= '9');
        }
    }
    lemma_digits_value_nonneg(d);
    assert((seq!['+'] + d).drop_first() =~= d);
}

impl AppConfig {
    /// Builds the configuration from the values of `DATABASE_URL`, `TELEGRAM_BOT_TOKEN`,
    /// `TELEGRAM_API_BASE` and `PORT` (`None` when unset or not Unicode): unset values take
    /// their defaults, and a `PORT` that is not a `u16` gives the default port.
    pub fn from_values(
        database_url: Option<String>,
        telegram_bot_token: Option<String>,
        telegram_api_base: Option<String>,
        port: Option<String>,
        windows: bool,
    ) -> (res: AppConfig)
        ensures
            res.database_url@ == match database_url {
                Some(u) => u@,
                None => default_database_url_spec(windows),
            },
            res.telegram_bot_token == telegram_bot_token,
            res.telegram_api_base@ == match telegram_api_base {
                Some(b) => b@,
                None => "https://api.telegram.org"@,
            },
            res.port == port_of(
                match port {
                    Some(p) => Some(p@),
                    None => None,
                },
            ),
    {
        let database_url = match database_url {
            Some(u) => u,
            None => default_database_url(windows).to_owned(),
        };
        let telegram_api_base = match telegram_api_base {
            Some(b) => b,
            None => default_telegram_api_base().to_owned(),
        };
        let port = match port {
            Some(p) => match parse_u16_chars(&chars_of(p.as_str())) {
                Some(v) => v,
                None => DEFAULT_PORT,
            },
            None => DEFAULT_PORT,
        };
        AppConfig { database_url, telegram_bot_token, telegram_api_base, port }
    }
}

} // verus!
