use musiq::library::{audio_extension, clock_string, format_from_ext, sort_tracks, Library, SizeUnit, TagInfo, Track};

fn track(artist: &str, album: &str, number: u32, title: &str, secs: u64) -> Track {
    Track {
        path: format!("/music/{}/{}/{}.mp3", artist, album, title),
        title: title.to_string(),
        artist: artist.to_string(),
        album: album.to_string(),
        track_number: number,
        duration_secs: secs,
        format: "MP3".to_string(),
        bitrate: Some(320),
        file_size: 4_000_000,
        album_art: None,
    }
}

fn sample_library() -> Library {
    Library::from_tracks(vec![
        track("Burial", "Untrue", 2, "Near Dark", 240),
        track("Aphex Twin", "Drukqs", 1, "Jynweythek", 100),
        track("Burial", "Untrue", 1, "Archangel", 238),
        track("Burial", "Rival Dealer", 1, "Rival Dealer", 600),
        track("Aphex Twin", "Syro", 3, "Syro u473t8+e", 300),
    ])
}

fn titles(lib: &Library) -> Vec<&str> {
    lib.tracks.iter().map(|t| t.title.as_str()).collect()
}

#[test]
fn from_tracks_sorts_by_artist_album_number() {
    let lib = sample_library();
    assert_eq!(
        titles(&lib),
        vec!["Jynweythek", "Syro u473t8+e", "Rival Dealer", "Archangel", "Near Dark"]
    );
}

#[test]
fn from_tracks_lists_each_artist_once_in_order() {
    let lib = sample_library();
    assert_eq!(lib.artists, vec!["Aphex Twin".to_string(), "Burial".to_string()]);
}

#[test]
fn from_tracks_indexes_every_album() {
    let lib = sample_library();
    assert_eq!(lib.albums.len(), 4);
    for entry in &lib.albums {
        for &i in &entry.tracks {
            assert_eq!(lib.tracks[i].album, entry.album);
        }
    }
    let untrue = lib.albums.iter().find(|e| e.album == "Untrue").unwrap();
    assert_eq!(untrue.tracks, vec![3, 4]);
}

#[test]
fn sort_keeps_order_of_equal_keys() {
    let mut a = track("X", "Y", 1, "Same", 10);
    a.path = "/first.mp3".to_string();
    let mut b = track("X", "Y", 1, "Same", 20);
    b.path = "/second.mp3".to_string();
    let sorted = sort_tracks(vec![a, b]);
    assert_eq!(sorted[0].path, "/first.mp3");
    assert_eq!(sorted[1].path, "/second.mp3");
}

#[test]
fn sort_uses_title_after_track_number() {
    let sorted = sort_tracks(vec![track("X", "Y", 0, "b", 1), track("X", "Y", 0, "a", 1)]);
    assert_eq!(sorted[0].title, "a");
    assert_eq!(sorted[1].title, "b");
}

#[test]
fn tracks_for_artist_lists_indices_in_order() {
    let lib = sample_library();
    assert_eq!(lib.tracks_for_artist("Burial"), vec![2, 3, 4]);
    assert_eq!(lib.tracks_for_artist("Aphex Twin"), vec![0, 1]);
    assert!(lib.tracks_for_artist("Nobody").is_empty());
}

#[test]
fn albums_for_artist_are_sorted_and_distinct() {
    let lib = sample_library();
    assert_eq!(
        lib.albums_for_artist("Burial"),
        vec!["Rival Dealer".to_string(), "Untrue".to_string()]
    );
    assert!(lib.albums_for_artist("Nobody").is_empty());
}

#[test]
fn tracks_for_album_orders_by_track_number() {
    let lib = Library::from_tracks(vec![
        track("A", "Mix", 3, "c", 1),
        track("B", "Mix", 1, "a", 1),
        track("C", "Mix", 2, "b", 1),
    ]);
    let idx = lib.tracks_for_album("Mix");
    let numbers: Vec<u32> = idx.iter().map(|&i| lib.tracks[i].track_number).collect();
    assert_eq!(numbers, vec![1, 2, 3]);
    assert!(lib.tracks_for_album("Missing").is_empty());
}

#[test]
fn total_duration_adds_all_tracks() {
    let lib = sample_library();
    assert_eq!(lib.total_duration_secs(), 240 + 100 + 238 + 600 + 300);
    assert_eq!(Library::default().total_duration_secs(), 0);
}

#[test]
fn duration_display_pads_minutes_and_seconds() {
    assert_eq!(track("a", "b", 1, "c", 205).duration_display(), "03:25");
    assert_eq!(track("a", "b", 1, "c", 0).duration_display(), "00:00");
    assert_eq!(track("a", "b", 1, "c", 6000).duration_display(), "100:00");
    assert_eq!(clock_string(59), "00:59");
}

#[test]
fn bitrate_display_shows_kbps_or_dash() {
    let mut t = track("a", "b", 1, "c", 1);
    assert_eq!(t.bitrate_display(), "320 kbps");
    t.bitrate = Some(0);
    assert_eq!(t.bitrate_display(), "\u{2014}");
    t.bitrate = None;
    assert_eq!(t.bitrate_display(), "\u{2014}");
}

#[test]
fn file_size_unit_picks_largest_unit_reached() {
    let mut t = track("a", "b", 1, "c", 1);
    t.file_size = 1023;
    assert_eq!(t.file_size_unit(), SizeUnit::Bytes);
    t.file_size = 1024;
    assert_eq!(t.file_size_unit(), SizeUnit::Kilobytes);
    t.file_size = 5 * 1024 * 1024;
    assert_eq!(t.file_size_unit(), SizeUnit::Megabytes);
    t.file_size = 1024 * 1024 * 1024;
    assert_eq!(t.file_size_unit(), SizeUnit::Gigabytes);
}

#[test]
fn format_from_ext_names_containers() {
    assert_eq!(format_from_ext("mp3"), "MP3");
    assert_eq!(format_from_ext("flac"), "FLAC");
    assert_eq!(format_from_ext("opus"), "OPUS");
    assert_eq!(format_from_ext("aif"), "AIFF");
    assert_eq!(format_from_ext("aiff"), "AIFF");
    assert_eq!(format_from_ext("txt"), "?");
    assert_eq!(format_from_ext("MP3"), "?");
}

#[test]
fn audio_extension_lowercases_known_extensions() {
    assert_eq!(audio_extension("FLAC"), Some("flac".to_string()));
    assert_eq!(audio_extension("Mp3"), Some("mp3".to_string()));
    assert_eq!(audio_extension("jpg"), None);
    assert_eq!(audio_extension(""), None);
}

#[test]
fn from_metadata_uses_tags() {
    let tag = TagInfo {
        title: Some("Song".to_string()),
        artist: Some("Band".to_string()),
        album: Some("Record".to_string()),
        track: Some(7),
        picture: Some(vec![1, 2, 3]),
    };
    let t = Track::from_metadata(
        "/x/file.flac".to_string(),
        Some("file".to_string()),
        "flac",
        1234,
        321,
        Some(900),
        Some(tag),
    );
    assert_eq!(t.path, "/x/file.flac");
    assert_eq!(t.title, "Song");
    assert_eq!(t.artist, "Band");
    assert_eq!(t.album, "Record");
    assert_eq!(t.track_number, 7);
    assert_eq!(t.format, "FLAC");
    assert_eq!(t.duration_secs, 321);
    assert_eq!(t.bitrate, Some(900));
    assert_eq!(t.file_size, 1234);
    assert_eq!(t.album_art, Some(vec![1, 2, 3]));
}

#[test]
fn from_metadata_fills_missing_values() {
    let tag = TagInfo { title: None, artist: None, album: None, track: None, picture: None };
    let t = Track::from_metadata("/x/song.ogg".to_string(), Some("song".to_string()), "ogg", 1, 2, None, Some(tag));
    assert_eq!(t.title, "song");
    assert_eq!(t.artist, "Unknown Artist");
    assert_eq!(t.album, "Unknown Album");
    assert_eq!(t.track_number, 0);
    assert_eq!(t.format, "OGG");

    let bare = Track::from_metadata("/x/?".to_string(), None, "wav", 1, 2, None, None);
    assert_eq!(bare.title, "Unknown");
    assert_eq!(bare.artist, "Unknown Artist");
    assert_eq!(bare.album, "Unknown Album");
    assert_eq!(bare.album_art, None);
}
