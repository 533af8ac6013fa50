use eva_music_backend::db::Track;
use eva_music_backend::telegram::fields::{
    build_data_check_string, decode_component, parse_init_data_fields,
};
use eva_music_backend::telegram::webapp::{
    bootstrap_track, check_bootstrap, check_init_data, check_signature, compute_secret_key,
    extract_init_data_header, resolve_trusted_init_data, SignedInitData, TelegramWebAppError,
    TelegramWebAppUser, TrustCheck, ValidatedTelegramWebApp,
};
use hmac::{Hmac, Mac};
use sha2::Sha256;
use urlencoding::encode;

type HmacSha256 = Hmac<Sha256>;

fn sign_init_data(fields: &[(&str, &str)], bot_token: &str) -> String {
    let mut data_fields = fields
        .iter()
        .map(|(key, value)| format!("{key}={value}"))
        .collect::<Vec<_>>();
    data_fields.sort();
    let data_check_string = data_fields.join("\n");

    let mut encoded_fields = fields
        .iter()
        .map(|(key, value)| format!("{}={}", encode(key), encode(value)))
        .collect::<Vec<_>>();
    encoded_fields.sort();

    let mut mac = HmacSha256::new_from_slice(b"WebAppData").unwrap();
    mac.update(bot_token.as_bytes());
    let secret_key = mac.finalize().into_bytes();

    let mut mac = HmacSha256::new_from_slice(&secret_key).unwrap();
    mac.update(data_check_string.as_bytes());
    let hash = hex::encode(mac.finalize().into_bytes());

    let mut init_data = encoded_fields;
    init_data.push(format!("hash={hash}"));
    init_data.join("&")
}

/// Reads the `user` JSON the way the server does, through `serde_json`.
fn parse_user(payload: &str) -> Option<TelegramWebAppUser> {
    let value: serde_json::Value = serde_json::from_str(payload).ok()?;
    let id = value.get("id")?.as_i64()?;
    let text = |name: &str| value.get(name).and_then(|v| v.as_str()).map(str::to_string);
    let flag = |name: &str| value.get(name).and_then(|v| v.as_bool());
    Some(TelegramWebAppUser {
        id,
        first_name: text("first_name"),
        last_name: text("last_name"),
        username: text("username"),
        language_code: text("language_code"),
        is_premium: flag("is_premium"),
        added_to_attachment_menu: flag("added_to_attachment_menu"),
        allows_write_to_pm: flag("allows_write_to_pm"),
        photo_url: text("photo_url"),
    })
}

fn validate_init_data(
    init_data: &str,
    bot_token: &str,
) -> Result<ValidatedTelegramWebApp, TelegramWebAppError> {
    let signed = check_init_data(init_data, bot_token)?;
    let user = parse_user(&signed.user_payload);
    ValidatedTelegramWebApp::from_signed(signed, user)
}

fn signed_sample() -> String {
    sign_init_data(
        &[
            ("auth_date", "1711234567"),
            ("query_id", "AAHdFf12345"),
            ("user", r#"{"id":1124976403,"first_name":"Test","username":"tester"}"#),
        ],
        "test-token",
    )
}

#[test]
fn validate_init_data_accepts_signed_payload() {
    let init_data = signed_sample();
    let validated = validate_init_data(&init_data, "test-token").unwrap();
    assert_eq!(validated.telegram_user_id, 1124976403);
    assert_eq!(validated.auth_date, Some(1711234567));
    assert_eq!(validated.user.first_name.as_deref(), Some("Test"));
}

#[test]
fn validate_init_data_rejects_bad_signature() {
    let init_data = "auth_date=1711234567&query_id=AAHdFf12345&user=%7B%22id%22%3A1124976403%7D&hash=deadbeef";
    let error = validate_init_data(init_data, "test-token").unwrap_err();
    assert!(matches!(error, TelegramWebAppError::InvalidSignature));
}

#[test]
fn signed_payload_is_refused_under_another_token() {
    let init_data = signed_sample();
    let error = check_init_data(&init_data, "other-token").err().unwrap();
    assert_eq!(error, TelegramWebAppError::InvalidSignature);
}

#[test]
fn upper_case_hash_is_accepted() {
    let init_data = signed_sample();
    let (rest, hash) = init_data.rsplit_once("hash=").unwrap();
    let upper = format!("{rest}hash={}", hash.to_uppercase());
    let signed = check_init_data(&upper, "test-token").ok().unwrap();
    assert_eq!(signed.auth_date, Some(1711234567));
}

#[test]
fn reordered_pairs_give_the_same_outcome() {
    let init_data = signed_sample();
    let mut pieces: Vec<&str> = init_data.split('&').collect();
    pieces.reverse();
    let reordered = pieces.join("&");
    let original = check_init_data(&init_data, "test-token").ok().unwrap();
    let moved = check_init_data(&reordered, "test-token").ok().unwrap();
    assert_eq!(moved.user_payload, original.user_payload);
    assert_eq!(moved.auth_date, original.auth_date);
    assert_eq!(
        check_init_data(&reordered, "other-token").err(),
        check_init_data(&init_data, "other-token").err()
    );
}

#[test]
fn reordered_pairs_with_upper_case_hash_are_accepted() {
    let init_data = signed_sample();
    let (rest, hash) = init_data.rsplit_once("&hash=").unwrap();
    let moved = format!("hash={}&{rest}", hash.to_uppercase());
    let signed = check_init_data(&moved, "test-token").ok().unwrap();
    assert_eq!(signed.auth_date, Some(1711234567));
}

#[test]
fn altered_auth_date_is_refused() {
    let init_data = sign_init_data(
        &[
            ("auth_date", "1711234567"),
            ("query_id", "AAHdFf12345"),
            ("user", r#"{"id":1124976403}"#),
        ],
        "t1",
    );
    assert!(validate_init_data(&init_data, "t1").is_ok());
    assert_eq!(
        validate_init_data(&init_data, "t2").err().map(|e| e.code()),
        Some("invalid_signature")
    );
    let altered = init_data.replace("auth_date=1711234567", "auth_date=1711234568");
    assert_eq!(
        validate_init_data(&altered, "t1").err().map(|e| e.code()),
        Some("invalid_signature")
    );
}

#[test]
fn hash_case_inside_escapes_gives_the_same_outcome() {
    let init_data = signed_sample();
    let (rest, _) = init_data.rsplit_once("&hash=").unwrap();
    let lower = format!("{rest}&hash=%4a%e2%82%ACx");
    let upper = format!("{rest}&hash=%4A%E2%82%acX");
    assert_eq!(
        check_init_data(&lower, "test-token").err(),
        Some(TelegramWebAppError::InvalidSignature)
    );
    assert_eq!(
        check_init_data(&upper, "test-token").err(),
        check_init_data(&lower, "test-token").err()
    );
}

#[test]
fn bootstrap_check_needs_a_bot_token() {
    let init_data = signed_sample();
    assert_eq!(
        check_bootstrap(&init_data, None).err(),
        Some(TelegramWebAppError::MissingBotToken)
    );
    assert_eq!(
        check_bootstrap(&init_data, Some("other-token")).err(),
        Some(TelegramWebAppError::InvalidSignature)
    );
    let signed = check_bootstrap(&init_data, Some("test-token")).ok().unwrap();
    assert_eq!(signed.auth_date, Some(1711234567));
}

#[test]
fn tampered_field_is_refused() {
    let init_data = signed_sample().replace("AAHdFf12345", "AAHdFf12346");
    assert_eq!(
        check_init_data(&init_data, "test-token").err(),
        Some(TelegramWebAppError::InvalidSignature)
    );
}

#[test]
fn blank_init_data_is_missing() {
    assert_eq!(check_init_data("  \t ", "t").err(), Some(TelegramWebAppError::MissingInitData));
    assert_eq!(parse_init_data_fields("").err(), Some(TelegramWebAppError::MissingInitData));
}

#[test]
fn piece_without_equals_is_invalid() {
    assert_eq!(parse_init_data_fields("a=1&b").err(), Some(TelegramWebAppError::InvalidInitData));
    assert_eq!(parse_init_data_fields("a=1&&b=2").err(), Some(TelegramWebAppError::InvalidInitData));
}

#[test]
fn undecodable_component_is_invalid() {
    assert_eq!(parse_init_data_fields("a=%FF").err(), Some(TelegramWebAppError::InvalidInitData));
    assert_eq!(decode_component("%C3%28"), Err(TelegramWebAppError::InvalidInitData));
}

#[test]
fn decode_component_reads_plus_and_percent() {
    assert_eq!(decode_component("a+b%20c%2Bd").unwrap(), "a b c+d");
    assert_eq!(decode_component("%D0%AF").unwrap(), "Я");
    assert_eq!(decode_component("100%").unwrap(), "100%");
    assert_eq!(decode_component("%4").unwrap(), "%4");
    assert_eq!(decode_component("%zz%41").unwrap(), "%zzA");
}

#[test]
fn missing_hash_is_reported() {
    assert_eq!(check_init_data("user=1&auth_date=2", "t").err(), Some(TelegramWebAppError::MissingHash));
}

#[test]
fn hash_alone_is_invalid_init_data() {
    assert_eq!(
        check_init_data("hash=abc&signature=x", "t").err(),
        Some(TelegramWebAppError::InvalidInitData)
    );
}

#[test]
fn signed_payload_without_user_is_missing_user() {
    let init_data = sign_init_data(&[("auth_date", "5"), ("query_id", "q")], "tok");
    assert_eq!(check_init_data(&init_data, "tok").err(), Some(TelegramWebAppError::MissingUser));
}

#[test]
fn unparsable_user_is_invalid_payload() {
    let init_data = sign_init_data(&[("user", "not json")], "tok");
    let signed = check_init_data(&init_data, "tok").ok().unwrap();
    assert_eq!(signed.user_payload, "not json");
    assert_eq!(signed.auth_date, None);
    let user = parse_user(&signed.user_payload);
    assert_eq!(
        ValidatedTelegramWebApp::from_signed(signed, user).err().map(|e| e.code()),
        Some("invalid_user_payload")
    );
}

#[test]
fn malformed_auth_date_is_absent() {
    let init_data = sign_init_data(&[("user", r#"{"id":1}"#), ("auth_date", "12x")], "tok");
    let signed = check_init_data(&init_data, "tok").ok().unwrap();
    assert_eq!(signed.auth_date, None);
    let init_data = sign_init_data(&[("user", r#"{"id":1}"#), ("auth_date", "-42")], "tok");
    assert_eq!(check_init_data(&init_data, "tok").ok().unwrap().auth_date, Some(-42));
}

#[test]
fn fields_are_ordered_and_later_pairs_win() {
    let fields = parse_init_data_fields(" b=2&a=1&c=%33&a=9 ").ok().unwrap();
    assert_eq!(fields.len(), 3);
    assert_eq!(
        fields.to_pairs(),
        vec![
            ("a".to_string(), "9".to_string()),
            ("b".to_string(), "2".to_string()),
            ("c".to_string(), "3".to_string())
        ]
    );
    assert_eq!(fields.get("a").as_deref(), Some("9"));
    assert_eq!(fields.get("z"), None);
    let fields = parse_init_data_fields("x==1").ok().unwrap();
    assert_eq!(fields.get("x").as_deref(), Some("=1"));
}

#[test]
fn data_check_string_skips_hash_and_signature() {
    let fields = parse_init_data_fields("user=u&hash=h&auth_date=1&signature=s&a%20b=c+d").ok().unwrap();
    assert_eq!(build_data_check_string(&fields).unwrap(), "a b=c d\nauth_date=1\nuser=u");
    let only_hash = parse_init_data_fields("hash=h").ok().unwrap();
    assert_eq!(build_data_check_string(&only_hash), Err(TelegramWebAppError::InvalidInitData));
}

#[test]
fn secret_key_is_hmac_of_token() {
    let mut mac = HmacSha256::new_from_slice(b"WebAppData").unwrap();
    mac.update(b"test-token");
    let expected = mac.finalize().into_bytes().to_vec();
    let key = compute_secret_key("test-token").unwrap();
    assert_eq!(key, expected);
    assert_ne!(key, b"test-token".to_vec());
    assert_eq!(key.len(), 32);
}

#[test]
fn check_signature_compares_hex_of_tag() {
    let fields = parse_init_data_fields("hash=0aFF&user=u&auth_date=7").ok().unwrap();
    let signed: SignedInitData = check_signature(&fields, &[0x0a, 0xff]).ok().unwrap();
    assert_eq!(signed.user_payload, "u");
    assert_eq!(signed.auth_date, Some(7));
    assert_eq!(
        check_signature(&fields, &[0x0a, 0xfe]).err(),
        Some(TelegramWebAppError::InvalidSignature)
    );
    let no_user = parse_init_data_fields("hash=0a").ok().unwrap();
    assert_eq!(check_signature(&no_user, &[0x0a]).err(), Some(TelegramWebAppError::MissingUser));
    let no_hash = parse_init_data_fields("user=1").ok().unwrap();
    assert_eq!(check_signature(&no_hash, &[0x0a]).err(), Some(TelegramWebAppError::MissingHash));
}

#[test]
fn error_status_code_and_message() {
    let all = [
        TelegramWebAppError::MissingInitData,
        TelegramWebAppError::MissingBotToken,
        TelegramWebAppError::InvalidInitData,
        TelegramWebAppError::MissingHash,
        TelegramWebAppError::MissingUser,
        TelegramWebAppError::InvalidUserPayload,
        TelegramWebAppError::InvalidSignature,
    ];
    let statuses: Vec<u16> = all.iter().map(|e| e.status()).collect();
    assert_eq!(statuses, vec![400, 500, 400, 400, 400, 400, 401]);
    let codes: Vec<&str> = all.iter().map(|e| e.code()).collect();
    assert_eq!(
        codes,
        vec![
            "missing_init_data",
            "missing_bot_token",
            "invalid_init_data",
            "missing_hash",
            "missing_user",
            "invalid_user_payload",
            "invalid_signature"
        ]
    );
    assert_eq!(TelegramWebAppError::InvalidSignature.message(), "invalid signature");
    assert_eq!(TelegramWebAppError::MissingInitData.message(), "missing init_data");
    assert_eq!(TelegramWebAppError::InvalidUserPayload.message(), "invalid user payload");
}

#[test]
fn bootstrap_track_defaults_title() {
    let track = Track {
        id: "track-1".to_string(),
        telegram_user_id: 1,
        telegram_file_id: "f".to_string(),
        title: None,
        created_at: "2026-03-23T00:00:00Z".to_string(),
    };
    let b = bootstrap_track(track);
    assert_eq!(b.id, "track-1");
    assert_eq!(b.title, "Без названия");
    assert_eq!(b.artist, None);
    assert_eq!(b.artwork_url, None);
    let named = Track {
        id: "track-2".to_string(),
        telegram_user_id: 1,
        telegram_file_id: "f".to_string(),
        title: Some("Song A".to_string()),
        created_at: String::new(),
    };
    assert_eq!(bootstrap_track(named).title, "Song A");
}

#[test]
fn init_data_header_is_trimmed() {
    let mut headers = axum::http::HeaderMap::new();
    assert_eq!(extract_init_data_header(&headers), None);
    headers.insert("X-Telegram-Init-Data", "  a=1 ".parse().unwrap());
    assert_eq!(extract_init_data_header(&headers).as_deref(), Some("a=1"));
    headers.insert("x-telegram-init-data", "   ".parse().unwrap());
    assert_eq!(extract_init_data_header(&headers), None);
    headers.insert(
        "x-telegram-init-data",
        axum::http::HeaderValue::from_bytes(b"a=\xff").unwrap(),
    );
    assert_eq!(extract_init_data_header(&headers), None);
}

#[test]
fn trust_check_follows_header_and_token() {
    let mut headers = axum::http::HeaderMap::new();
    assert!(matches!(resolve_trusted_init_data(&headers, Some("test-token")), TrustCheck::NoInitData));
    headers.insert("x-telegram-init-data", signed_sample().parse().unwrap());
    assert!(matches!(
        resolve_trusted_init_data(&headers, None),
        TrustCheck::Refused(TelegramWebAppError::MissingBotToken)
    ));
    assert!(matches!(
        resolve_trusted_init_data(&headers, Some("wrong")),
        TrustCheck::Refused(TelegramWebAppError::InvalidSignature)
    ));
    match resolve_trusted_init_data(&headers, Some("test-token")) {
        TrustCheck::Signed(s) => {
            assert_eq!(parse_user(&s.user_payload).unwrap().id, 1124976403)
        }
        _ => panic!("expected signed init data"),
    }
}

fn stored_track(title: Option<&str>) -> Track {
    Track {
        id: "track-1".to_string(),
        telegram_user_id: 1124976403,
        telegram_file_id: "telegram-file-1".to_string(),
        title: title.map(str::to_string),
        created_at: "2026-03-23T00:00:00Z".to_string(),
    }
}

#[test]
fn bootstrap_endpoint_returns_user_library() {
    let validated = validate_init_data(&signed_sample(), "test-token").unwrap();
    assert_eq!(validated.telegram_user_id, 1124976403);
    let library: Vec<_> = vec![stored_track(Some("Song A"))].into_iter().map(bootstrap_track).collect();
    assert_eq!(library.len(), 1);
    assert_eq!(library[0].id, "track-1");
    assert_eq!(library[0].title, "Song A");
    assert_eq!(library[0].artist, None);
    assert_eq!(library[0].artwork_url, None);
}

#[test]
fn bootstrap_endpoint_rejects_invalid_signature() {
    let error = validate_init_data(
        "auth_date=1711234567&query_id=AAHdFf12345&user=%7B%22id%22%3A1124976403%7D&hash=deadbeef",
        "test-token",
    )
    .unwrap_err();
    assert_eq!(error.status(), 401);
    assert_eq!(error.code(), "invalid_signature");
}

#[test]
fn encoded_components_decode_back() {
    for text in ["plain", "a b+c&d=e", "Открыть плеер", "100% ~ok~", ""] {
        let encoded = urlencoding::encode(text).into_owned();
        assert_eq!(decode_component(&encoded).unwrap(), text);
    }
}
