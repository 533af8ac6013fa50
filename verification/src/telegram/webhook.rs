//! Decisions of the bot webhook and of the track endpoints: what to do with an update,
//! which user a track listing is for, and the Telegram Bot API URLs to call.

use crate::number::{parse_i64, parse_i64_chars};
use crate::outside::is_header_name;
use crate::telegram::webapp::{header_text, header_text_spec, TelegramWebAppError};
use crate::text::{chars_eq, chars_of, push_all, string_of, trim, trim_chars, trim_end_char, trim_end_matching};
use vstd::prelude::*;

verus! {

/// The sender of a message.
pub struct User {
    pub id: i64,
}

/// An audio file attached to a message.
pub struct Audio {
    pub file_id: String,
    pub file_name: Option<String>,
}

/// A document attached to a message.
pub struct Document {
    pub file_id: String,
    pub file_name: Option<String>,
}

/// The parts of a Telegram message that the bot reads.
pub struct Message {
    pub from: Option<User>,
    pub text: Option<String>,
    pub audio: Option<Audio>,
    pub document: Option<Document>,
}

/// A Telegram update delivered to the webhook.
pub struct Update {
    pub message: Option<Message>,
}

/// Query of the track listing.
pub struct TracksQuery {
    pub user_id: Option<i64>,
}

/// Query of the track audio endpoint.
pub struct TrackAudioQuery {
    pub track_id: String,
}

/// What the webhook does with an update.
pub enum WebhookAction {
    /// Store a track for a user.
    StoreTrack { telegram_user_id: i64, file_id: String, title: Option<String> },
    /// Send the user the button that opens the player.
    SendPlayerButton { chat_id: i64 },
    /// Nothing to do.
    Ignore,
}

/// Commands that open the player.
pub open spec fn is_player_command(text: Seq<char>) -> bool {
    trim(text) == "/start"@ || trim(text) == "/player"@
}

/// Whether `text` is `/start` or `/player`, ignoring surrounding white space.
pub fn player_command(text: &str) -> (res: bool)
    ensures
        res == is_player_command(text@),
{
    let t = trim_chars(&chars_of(text));
    chars_eq(&t, &chars_of("/start")) || chars_eq(&t, &chars_of("/player"))
}

/// Decides what an update asks for: an audio file, else a document, is stored for its
/// sender (nothing happens without a sender); otherwise `/start` or `/player` from a
/// sender gets the player button; anything else is ignored.
pub fn plan_update(update: Update) -> (res: WebhookAction)
    ensures
        match update.message {
            None => res == WebhookAction::Ignore,
            Some(m) => if m.audio is Some {
                match m.from {
                    Some(u) => res == (WebhookAction::StoreTrack {
                        telegram_user_id: u.id,
                        file_id: m.audio->0.file_id,
                        title: m.audio->0.file_name,
                    }),
                    None => res == WebhookAction::Ignore,
                }
            } else if m.document is Some {
                match m.from {
                    Some(u) => res == (WebhookAction::StoreTrack {
                        telegram_user_id: u.id,
                        file_id: m.document->0.file_id,
                        title: m.document->0.file_name,
                    }),
                    None => res == WebhookAction::Ignore,
                }
            } else if m.text is Some && is_player_command(m.text->0@) && m.from is Some {
                res == (WebhookAction::SendPlayerButton { chat_id: m.from->0.id })
            } else {
                res == WebhookAction::Ignore
            },
        },
{
    let msg = match update.message {
        Some(msg) => msg,
        None => return WebhookAction::Ignore,
    };
    let user_id = match &msg.from {
        Some(u) => Some(u.id),
        None => None,
    };
    if let Some(audio) = msg.audio {
        return match user_id {
            Some(uid) => WebhookAction::StoreTrack {
                telegram_user_id: uid,
                file_id: audio.file_id,
                title: audio.file_name,
            },
            None => WebhookAction::Ignore,
        };
    }
    if let Some(doc) = msg.document {
        return match user_id {
            Some(uid) => WebhookAction::StoreTrack {
                telegram_user_id: uid,
                file_id: doc.file_id,
                title: doc.file_name,
            },
            None => WebhookAction::Ignore,
        };
    }
    if let Some(text) = &msg.text {
        if player_command(text.as_str()) {
            if let Some(chat_id) = user_id {
                return WebhookAction::SendPlayerButton { chat_id };
            }
        }
    }
    WebhookAction::Ignore
}

/// `base` without trailing slashes, followed by `tail`.
fn join_base(base: &str, tail: &Vec<char>) -> (res: Vec<char>)
    ensures
        res@ == trim_end_char(base@, '/') + tail@,
{
    let mut out = trim_end_matching(&chars_of(base), '/');
    push_all(&mut out, tail);
    out
}

/// The Bot API `sendMessage` URL: `{base without trailing /}/bot{token}/sendMessage`.
pub fn send_message_url(api_base: &str, bot_token: &str) -> (res: String)
    ensures
        res@ == trim_end_char(api_base@, '/') + "/bot"@ + bot_token@ + "/sendMessage"@,
{
    let mut tail = chars_of("/bot");
    push_all(&mut tail, &chars_of(bot_token));
    push_all(&mut tail, &chars_of("/sendMessage"));
    let url = join_base(api_base, &tail);
    assert(url@ =~= trim_end_char(api_base@, '/') + "/bot"@ + bot_token@ + "/sendMessage"@);
    string_of(&url)
}

/// Where the player button is sent: the `sendMessage` URL, or `None` when no bot token is
/// configured and nothing is sent.
pub fn player_button_url(api_base: &str, bot_token: Option<&str>) -> (res: Option<String>)
    ensures
        match bot_token {
            None => res is None,
            Some(k) => res matches Some(url) && url@ == trim_end_char(api_base@, '/') + "/bot"@
                + k@ + "/sendMessage"@,
        },
{
    match bot_token {
        Some(k) => Some(send_message_url(api_base, k)),
        None => None,
    }
}

/// The Bot API `getFile` URL for a file id (the id is not escaped).
pub open spec fn get_file_url(api_base: Seq<char>, bot_token: Seq<char>, file_id: Seq<char>) -> Seq<
    char,
> {
    trim_end_char(api_base, '/') + "/bot"@ + bot_token + "/getFile?file_id="@ + file_id
}

/// The download URL of a file that `getFile` returned a path for.
pub open spec fn file_download_url(
    api_base: Seq<char>,
    bot_token: Seq<char>,
    file_path: Seq<char>,
) -> Seq<char> {
    trim_end_char(api_base, '/') + "/file/bot"@ + bot_token + "/"@ + file_path
}

/// Returns `file_download_url(api_base, bot_token, file_path)`.
pub fn telegram_file_url(api_base: &str, bot_token: &str, file_path: &str) -> (res: String)
    ensures
        res@ == file_download_url(api_base@, bot_token@, file_path@),
{
    let mut tail = chars_of("/file/bot");
    push_all(&mut tail, &chars_of(bot_token));
    push_all(&mut tail, &chars_of("/"));
    push_all(&mut tail, &chars_of(file_path));
    let url = join_base(api_base, &tail);
    assert(url@ =~= file_download_url(api_base@, bot_token@, file_path@));
    string_of(&url)
}

/// What the Bot API `getFile` call came back with.
pub enum GetFileReply {
    /// Telegram could not be reached.
    Unreachable,
    /// The reply was not the JSON of a `getFile` response.
    Malformed,
    /// The reply parsed; `file_path` is the path it named, if any.
    Parsed { file_path: Option<String> },
}

/// Why a `getFile` call gave no download URL; each is answered 502 Bad Gateway.
#[derive(Debug, Clone, Copy, PartialEq, Eq, Structural)]
pub enum GetFileFailure {
    Unreachable,
    InvalidResponse,
    MissingFilePath,
}

impl GetFileFailure {
    /// The message of the failure.
    pub open spec fn message_spec(self) -> Seq<char> {
        match self {
            GetFileFailure::Unreachable => "failed to contact telegram"@,
            GetFileFailure::InvalidResponse => "invalid telegram response"@,
            GetFileFailure::MissingFilePath => "telegram did not return file_path"@,
        }
    }

    /// HTTP status of the failure: 502 Bad Gateway.
    pub fn status(&self) -> (res: u16)
        ensures
            res == 502,
    {
        502
    }

    pub fn message(&self) -> (res: &'static str)
        ensures
            res@ == self.message_spec(),
    {
        match self {
            GetFileFailure::Unreachable => "failed to contact telegram",
            GetFileFailure::InvalidResponse => "invalid telegram response",
            GetFileFailure::MissingFilePath => "telegram did not return file_path",
        }
    }
}

/// Turns the reply of `getFile` into the download URL of the file: a failed call, a reply
/// that is not a `getFile` response, and a response without `file_path` each fail.
pub fn file_url_from_reply(reply: GetFileReply, api_base: &str, bot_token: &str) -> (res: Result<
    String,
    GetFileFailure,
>)
    ensures
        match reply {
            GetFileReply::Unreachable => res == Err::<String, GetFileFailure>(
                GetFileFailure::Unreachable,
            ),
            GetFileReply::Malformed => res == Err::<String, GetFileFailure>(
                GetFileFailure::InvalidResponse,
            ),
            GetFileReply::Parsed { file_path } => match file_path {
                None => res == Err::<String, GetFileFailure>(GetFileFailure::MissingFilePath),
                Some(p) => res matches Ok(url) && url@ == file_download_url(
                    api_base@,
                    bot_token@,
                    p@,
                ),
            },
        },
{
    match reply {
        GetFileReply::Unreachable => Err(GetFileFailure::Unreachable),
        GetFileReply::Malformed => Err(GetFileFailure::InvalidResponse),
        GetFileReply::Parsed { file_path } => match file_path {
            None => Err(GetFileFailure::MissingFilePath),
            Some(p) => Ok(telegram_file_url(api_base, bot_token, p.as_str())),
        },
    }
}

/// Why the audio of a track is not handed out.
#[derive(Debug, Clone, Copy, PartialEq, Eq, Structural)]
pub enum TrackAudioRefusal {
    /// The init data sent along did not validate.
    Untrusted(TelegramWebAppError),
    /// The validated user does not own the track.
    Forbidden,
    /// No bot token is configured.
    MissingBotToken,
}

/// Decides whether the audio of a track owned by `track_owner` may be fetched, given the
/// outcome of validating the request's init data (`Ok(None)` when it sent none): a
/// validation error refuses, a validated user other than the owner is forbidden, and
/// without a bot token nothing can be fetched. Otherwise returns the `getFile` URL.
pub fn plan_track_audio(
    track_owner: i64,
    trusted: Result<Option<i64>, TelegramWebAppError>,
    bot_token: Option<&str>,
    api_base: &str,
    file_id: &str,
) -> (res: Result<String, TrackAudioRefusal>)
    ensures
        match trusted {
            Err(e) => res == Err::<String, TrackAudioRefusal>(TrackAudioRefusal::Untrusted(e)),
            Ok(t) => if t is Some && t->0 != track_owner {
                res == Err::<String, TrackAudioRefusal>(TrackAudioRefusal::Forbidden)
            } else {
                match bot_token {
                    None => res == Err::<String, TrackAudioRefusal>(
                        TrackAudioRefusal::MissingBotToken,
                    ),
                    Some(k) => res matches Ok(url) && url@ == get_file_url(
                        api_base@,
                        k@,
                        file_id@,
                    ),
                }
            },
        },
{
    let trusted_user = match trusted {
        Ok(t) => t,
        Err(e) => return Err(TrackAudioRefusal::Untrusted(e)),
    };
    if let Some(user_id) = trusted_user {
        if user_id != track_owner {
            return Err(TrackAudioRefusal::Forbidden);
        }
    }
    let token = match bot_token {
        Some(k) => k,
        None => return Err(TrackAudioRefusal::MissingBotToken),
    };
    let mut tail = chars_of("/bot");
    push_all(&mut tail, &chars_of(token));
    push_all(&mut tail, &chars_of("/getFile?file_id="));
    push_all(&mut tail, &chars_of(file_id));
    let url = join_base(api_base, &tail);
    assert(url@ =~= get_file_url(api_base@, token@, file_id@));
    Ok(string_of(&url))
}

/// The user whose tracks are listed: the user vouched for by init data, else the
/// `user_id` query parameter, else the `X-Telegram-User-Id` header read as an integer.
pub open spec fn requested_user(
    trusted: Option<i64>,
    query_user_id: Option<i64>,
    headers: axum::http::HeaderMap,
) -> Option<i64> {
    match trusted {
        Some(t) => Some(t),
        None => match query_user_id {
            Some(q) => Some(q),
            None => match header_text_spec(headers, "x-telegram-user-id"@) {
                Some(t) => parse_i64(t),
                None => None,
            },
        },
    }
}

/// Returns `requested_user(trusted, query_user_id, headers)`.
pub fn requested_user_id(
    trusted: Option<i64>,
    query_user_id: Option<i64>,
    headers: &axum::http::HeaderMap,
) -> (res: Option<i64>)
    ensures
        res == requested_user(trusted, query_user_id, *headers),
{
    if let Some(t) = trusted {
        return Some(t);
    }
    if let Some(q) = query_user_id {
        return Some(q);
    }
    proof {
        reveal_strlit("x-telegram-user-id");
    }
    let name = "x-telegram-user-id";
    assert(is_header_name(name@));
    match header_text(headers, name) {
        Some(text) => parse_i64_chars(&text),
        None => None,
    }
}

} // verus!
