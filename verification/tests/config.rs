use eva_music_backend::config::{default_database_url, AppConfig, DEFAULT_PORT};

#[test]
fn defaults_apply_to_unset_values() {
    let c = AppConfig::from_values(None, None, None, None, false);
    assert_eq!(c.database_url, "sqlite:///var/data/tracks.db?mode=rwc");
    assert_eq!(c.telegram_bot_token, None);
    assert_eq!(c.telegram_api_base, "https://api.telegram.org");
    assert_eq!(c.port, 3001);
    assert_eq!(DEFAULT_PORT, 3001);
    assert_eq!(default_database_url(true), "sqlite:///C:/dev/eva-music-backend/tracks.db?mode=rwc");
}

#[test]
fn set_values_are_kept() {
    let c = AppConfig::from_values(
        Some("sqlite://x.db".to_string()),
        Some("tok".to_string()),
        Some("http://h".to_string()),
        Some("+8080".to_string()),
        true,
    );
    assert_eq!(c.database_url, "sqlite://x.db");
    assert_eq!(c.telegram_bot_token.as_deref(), Some("tok"));
    assert_eq!(c.telegram_api_base, "http://h");
    assert_eq!(c.port, 8080);
}

#[test]
fn bad_port_falls_back() {
    for bad in ["", "+", "-1", "65536", "80 ", "x"] {
        let c = AppConfig::from_values(None, None, None, Some(bad.to_string()), false);
        assert_eq!(c.port, 3001, "port {bad:?}");
    }
    let c = AppConfig::from_values(None, None, None, Some("0065535".to_string()), false);
    assert_eq!(c.port, 65535);
}
