use eva_music_backend::library::{
    collect_tracks, find_track, is_supported_audio_file, normalize_track_name, public_asset_url,
    split_artist_and_title, track_from_path, track_not_found, DebugInfo, EntryName,
    WidgetStatePayload, WidgetTrackPayload,
};

fn entry(text: &str) -> EntryName {
    EntryName { text: text.to_string(), is_unicode: true }
}

#[test]
fn supported_extensions() {
    for name in ["a.mp3", "B.WAV", "c.Ogg", "d.m4a", "e.tar.flac"] {
        assert!(is_supported_audio_file(name), "{name}");
    }
    for name in ["a.txt", "mp3", ".mp3", "", "..", "a.mp3.bak", "a."] {
        assert!(!is_supported_audio_file(name), "{name}");
    }
}

#[test]
fn track_names_are_normalized() {
    assert_eq!(normalize_track_name("  01 - Intro "), "Intro");
    assert_eq!(normalize_track_name("1\t2foo"), "2foo");
    assert_eq!(normalize_track_name("___"), "");
}

#[test]
fn artist_and_title_split_at_first_separator() {
    assert_eq!(
        split_artist_and_title("Artist - Title - Part 2"),
        (Some("Artist".to_string()), "Title - Part 2".to_string())
    );
    assert_eq!(split_artist_and_title(" - Title"), (None, " - Title".to_string()));
    assert_eq!(split_artist_and_title("Plain"), (None, "Plain".to_string()));
}

#[test]
fn track_from_file_name() {
    let t = track_from_path("03. Queen - Bohemian Rhapsody.MP3");
    assert_eq!(t.id, "03. queen - bohemian rhapsody.mp3");
    assert_eq!(t.artist.as_deref(), Some("Queen"));
    assert_eq!(t.title, "Bohemian Rhapsody");
    let hidden = track_from_path(".hidden");
    assert_eq!(hidden.id, ".hidden");
    assert_eq!(hidden.title, "hidden");
}

#[test]
fn tracks_are_filtered_and_sorted_by_id() {
    let names = vec![
        entry("b.mp3"),
        entry("notes.txt"),
        entry("A.flac"),
        entry("a.flac"),
        entry("C - D.ogg"),
    ];
    let tracks = collect_tracks(&names);
    let ids: Vec<&str> = tracks.iter().map(|t| t.id.as_str()).collect();
    assert_eq!(ids, vec!["a.flac", "a.flac", "b.mp3", "c - d.ogg"]);
    assert_eq!(tracks[0].title, "A");
    assert_eq!(tracks[1].title, "a");
    assert_eq!(tracks[3].artist.as_deref(), Some("C"));
    assert_eq!(find_track(&tracks, "b.mp3"), Some(2));
    assert_eq!(find_track(&tracks, "missing.mp3"), None);
    assert_eq!(track_not_found("x"), "track not found: x");
}

#[test]
fn entry_name_that_is_not_utf8_gives_empty_track() {
    let names = vec![
        EntryName { text: "Artist \u{FFFD} - Song.mp3".to_string(), is_unicode: false },
        EntryName { text: "bad\u{FFFD}.txt".to_string(), is_unicode: false },
        entry("b.mp3"),
    ];
    let tracks = collect_tracks(&names);
    assert_eq!(tracks.len(), 2);
    assert_eq!(tracks[0].id, "");
    assert_eq!(tracks[0].title, "");
    assert_eq!(tracks[0].artist, None);
    assert_eq!(tracks[1].id, "b.mp3");
}

#[test]
fn asset_urls_are_percent_encoded() {
    assert_eq!(public_asset_url("my song (1).mp3"), "/my%20song%20%281%29.mp3");
    assert_eq!(public_asset_url("я.mp3"), "/%D1%8F.mp3");
    assert_eq!(public_asset_url("a-b_c.~"), "/a-b_c.~");
}

#[test]
fn debug_info_reports_current_track() {
    let state = WidgetStatePayload {
        user_id: Some("u".to_string()),
        index: 1,
        tracks: vec![WidgetTrackPayload { id: "x".to_string() }, WidgetTrackPayload { id: "y".to_string() }],
    };
    let info = DebugInfo::from_state("/cwd".to_string(), "/music".to_string(), state);
    assert_eq!(info.mode, "tauri");
    assert_eq!(info.track_count, 2);
    assert_eq!(info.current_track_id.as_deref(), Some("y"));
    assert_eq!(info.user_id.as_deref(), Some("u"));
    let out_of_range = WidgetStatePayload { user_id: None, index: 5, tracks: vec![] };
    assert_eq!(DebugInfo::from_state(String::new(), String::new(), out_of_range).current_track_id, None);
}
