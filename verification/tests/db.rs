use eva_music_backend::db::sqlite_file_path;
use std::path::PathBuf;

#[test]
fn parses_linux_sqlite_path() {
    let path = sqlite_file_path("sqlite:///var/data/tracks.db?mode=rwc").unwrap();
    assert_eq!(PathBuf::from(path), PathBuf::from("/var/data/tracks.db"));
}

#[test]
fn parses_windows_sqlite_path() {
    let path = sqlite_file_path("sqlite:///C:/dev/eva-music-backend/tracks.db?mode=rwc").unwrap();
    assert_eq!(PathBuf::from(path), PathBuf::from("C:/dev/eva-music-backend/tracks.db"));
}

#[test]
fn ignores_in_memory_sqlite() {
    assert!(sqlite_file_path("sqlite::memory:").is_none());
    assert!(sqlite_file_path("sqlite:///:memory:").is_none());
}

#[test]
fn sqlite_path_without_query_is_kept_whole() {
    assert_eq!(sqlite_file_path("sqlite://tracks.db").as_deref(), Some("tracks.db"));
    assert_eq!(sqlite_file_path("sqlite://file::memory:?cache=shared"), None);
    assert_eq!(sqlite_file_path("postgres://host/db"), None);
    assert_eq!(sqlite_file_path("sqlite:///c:"), Some("c:".to_string()));
    assert_eq!(sqlite_file_path("sqlite:///1:/x"), Some("/1:/x".to_string()));
}
