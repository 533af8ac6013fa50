use eva_music_backend::telegram::webapp::{
    resolve_trusted_init_data, TelegramWebAppError, TrustCheck, ValidatedTelegramWebApp,
    TelegramWebAppUser,
};
use hmac::{Hmac, Mac};
use sha2::Sha256;
use urlencoding::encode;
use eva_music_backend::telegram::webhook::{
    plan_track_audio, plan_update, player_command, requested_user_id, send_message_url,
    file_url_from_reply, player_button_url, telegram_file_url, Audio, Document, GetFileFailure, GetFileReply, Message,
    TrackAudioRefusal, Update, User, WebhookAction,
};

fn message(from: Option<i64>, text: Option<&str>, audio: Option<(&str, Option<&str>)>, document: Option<(&str, Option<&str>)>) -> Update {
    Update {
        message: Some(Message {
            from: from.map(|id| User { id }),
            text: text.map(str::to_string),
            audio: audio.map(|(f, n)| Audio { file_id: f.to_string(), file_name: n.map(str::to_string) }),
            document: document.map(|(f, n)| Document { file_id: f.to_string(), file_name: n.map(str::to_string) }),
        }),
    }
}

fn stored(action: WebhookAction) -> Option<(i64, String, Option<String>)> {
    match action {
        WebhookAction::StoreTrack { telegram_user_id, file_id, title } => Some((telegram_user_id, file_id, title)),
        _ => None,
    }
}

#[test]
fn start_and_player_commands_send_webapp_button() {
    for command in ["/start", "/player", "  /player \n"] {
        match plan_update(message(Some(777), Some(command), None, None)) {
            WebhookAction::SendPlayerButton { chat_id } => assert_eq!(chat_id, 777),
            _ => panic!("expected the player button"),
        }
    }
    assert!(matches!(plan_update(message(Some(777), Some("/help"), None, None)), WebhookAction::Ignore));
    assert!(matches!(plan_update(message(None, Some("/start"), None, None)), WebhookAction::Ignore));
    assert!(player_command("\u{3000}/start"));
    assert!(!player_command("/Start"));
}

#[test]
fn handler_keeps_audio_and_document_ingestion_working() {
    let audio = plan_update(message(Some(888), None, Some(("audio-file-1", Some("Song A"))), None));
    assert_eq!(stored(audio), Some((888, "audio-file-1".to_string(), Some("Song A".to_string()))));
    let doc = plan_update(message(Some(888), None, None, Some(("document-file-2", Some("Doc B")))));
    assert_eq!(stored(doc), Some((888, "document-file-2".to_string(), Some("Doc B".to_string()))));
}

#[test]
fn audio_wins_over_document_and_text() {
    let both = plan_update(message(Some(5), Some("/start"), Some(("a", None)), Some(("d", None))));
    assert_eq!(stored(both), Some((5, "a".to_string(), None)));
    let doc_and_text = plan_update(message(Some(5), Some("/start"), None, Some(("d", None))));
    assert_eq!(stored(doc_and_text), Some((5, "d".to_string(), None)));
}

#[test]
fn files_without_sender_are_ignored() {
    assert!(matches!(plan_update(message(None, None, Some(("a", None)), None)), WebhookAction::Ignore));
    assert!(matches!(plan_update(message(None, None, None, Some(("d", None)))), WebhookAction::Ignore));
    assert!(matches!(plan_update(Update { message: None }), WebhookAction::Ignore));
}

#[test]
fn bot_api_urls() {
    assert_eq!(
        send_message_url("http://127.0.0.1:9999//", "test-token"),
        "http://127.0.0.1:9999/bottest-token/sendMessage"
    );
    assert_eq!(
        telegram_file_url("https://api.telegram.org/", "tok", "files/sample.mp3"),
        "https://api.telegram.org/file/bottok/files/sample.mp3"
    );
}

#[test]
fn track_audio_access() {
    let url = plan_track_audio(1124976403, Ok(Some(1124976403)), Some("test-token"), "http://h/", "telegram-file-1");
    assert_eq!(url, Ok("http://h/bottest-token/getFile?file_id=telegram-file-1".to_string()));
    let anonymous = plan_track_audio(1, Ok(None), Some("t"), "b", "f");
    assert_eq!(anonymous, Ok("b/bott/getFile?file_id=f".to_string()));
    assert_eq!(plan_track_audio(1, Ok(Some(2)), Some("t"), "b", "f"), Err(TrackAudioRefusal::Forbidden));
    assert_eq!(
        plan_track_audio(1, Err(TelegramWebAppError::InvalidSignature), Some("t"), "b", "f"),
        Err(TrackAudioRefusal::Untrusted(TelegramWebAppError::InvalidSignature))
    );
    assert_eq!(plan_track_audio(1, Ok(None), None, "b", "f"), Err(TrackAudioRefusal::MissingBotToken));
}

#[test]
fn requested_user_prefers_trusted_then_query_then_header() {
    let mut headers = axum::http::HeaderMap::new();
    headers.insert("X-Telegram-User-Id", "42".parse().unwrap());
    assert_eq!(requested_user_id(Some(1), Some(2), &headers), Some(1));
    assert_eq!(requested_user_id(None, Some(2), &headers), Some(2));
    assert_eq!(requested_user_id(None, None, &headers), Some(42));
    headers.insert("x-telegram-user-id", " 42".parse().unwrap());
    assert_eq!(requested_user_id(None, None, &headers), None);
    headers.insert("x-telegram-user-id", "-9223372036854775808".parse().unwrap());
    assert_eq!(requested_user_id(None, None, &headers), Some(i64::MIN));
    headers.insert("x-telegram-user-id", "9223372036854775808".parse().unwrap());
    assert_eq!(requested_user_id(None, None, &headers), None);
    assert_eq!(requested_user_id(None, None, &axum::http::HeaderMap::new()), None);
}

fn sign_init_data(fields: &[(&str, &str)], bot_token: &str) -> String {
    let mut data_fields = fields
        .iter()
        .map(|(key, value)| format!("{key}={value}"))
        .collect::<Vec<_>>();
    data_fields.sort();
    let data_check_string = data_fields.join("\n");

    let mut encoded_fields = fields
        .iter()
        .map(|(key, value)| format!("{}={}", encode(key), encode(value)))
        .collect::<Vec<_>>();
    encoded_fields.sort();

    let mut mac = Hmac::<Sha256>::new_from_slice(b"WebAppData").unwrap();
    mac.update(bot_token.as_bytes());
    let secret_key = mac.finalize().into_bytes();

    let mut mac = Hmac::<Sha256>::new_from_slice(&secret_key).unwrap();
    mac.update(data_check_string.as_bytes());
    let hash = hex::encode(mac.finalize().into_bytes());

    let mut init_data = encoded_fields;
    init_data.push(format!("hash={hash}"));
    init_data.join("&")
}

/// The trusted user of a request, as the track endpoints resolve it.
fn trusted_user(headers: &axum::http::HeaderMap, token: Option<&str>) -> Result<Option<i64>, TelegramWebAppError> {
    match resolve_trusted_init_data(headers, token) {
        TrustCheck::NoInitData => Ok(None),
        TrustCheck::Refused(e) => Err(e),
        TrustCheck::Signed(s) => {
            let v: serde_json::Value = serde_json::from_str(&s.user_payload).unwrap();
            let user = v["id"].as_i64().map(|id| TelegramWebAppUser {
                id,
                first_name: None,
                last_name: None,
                username: None,
                language_code: None,
                is_premium: None,
                added_to_attachment_menu: None,
                allows_write_to_pm: None,
                photo_url: None,
            });
            ValidatedTelegramWebApp::from_signed(s, user).map(|v| Some(v.telegram_user_id))
        }
    }
}

#[test]
fn tracks_audio_requires_valid_telegram_context_when_present() {
    let valid_init_data = sign_init_data(
        &[
            ("auth_date", "1711234567"),
            ("query_id", "AAHdFf12345"),
            ("user", r#"{"id":1124976403,"first_name":"Test"}"#),
        ],
        "test-token",
    );
    let mut headers = axum::http::HeaderMap::new();
    headers.insert("X-Telegram-Init-Data", valid_init_data.parse().unwrap());
    let trusted = trusted_user(&headers, Some("test-token"));
    assert_eq!(trusted, Ok(Some(1124976403)));
    let ok = plan_track_audio(1124976403, trusted, Some("test-token"), "http://127.0.0.1:1", "telegram-file-1");
    assert!(ok.is_ok());

    headers.insert(
        "X-Telegram-Init-Data",
        "auth_date=1711234567&query_id=AAHdFf12345&user=%7B%22id%22%3A1124976403%7D&hash=deadbeef"
            .parse()
            .unwrap(),
    );
    let trusted = trusted_user(&headers, Some("test-token"));
    let refused = plan_track_audio(1124976403, trusted, Some("test-token"), "http://127.0.0.1:1", "telegram-file-1");
    match refused {
        Err(TrackAudioRefusal::Untrusted(e)) => assert_eq!(e.status(), 401),
        _ => panic!("expected a refusal"),
    }
}

#[test]
fn get_file_reply_gives_download_url() {
    let reply = GetFileReply::Parsed { file_path: Some("music/file_7.mp3".to_string()) };
    assert_eq!(
        file_url_from_reply(reply, "http://127.0.0.1:9/", "tok"),
        Ok("http://127.0.0.1:9/file/bottok/music/file_7.mp3".to_string())
    );
}

#[test]
fn get_file_failures_are_bad_gateway() {
    let cases = [
        (GetFileReply::Unreachable, GetFileFailure::Unreachable, "failed to contact telegram"),
        (GetFileReply::Malformed, GetFileFailure::InvalidResponse, "invalid telegram response"),
        (
            GetFileReply::Parsed { file_path: None },
            GetFileFailure::MissingFilePath,
            "telegram did not return file_path",
        ),
    ];
    for (reply, failure, message) in cases {
        let got = file_url_from_reply(reply, "https://api.telegram.org", "tok").unwrap_err();
        assert_eq!(got, failure);
        assert_eq!(got.status(), 502);
        assert_eq!(got.message(), message);
    }
}

#[test]
fn player_button_needs_a_bot_token() {
    assert_eq!(player_button_url("https://api.telegram.org/", None), None);
    assert_eq!(
        player_button_url("https://api.telegram.org/", Some("tok")),
        Some("https://api.telegram.org/bottok/sendMessage".to_string())
    );
}
