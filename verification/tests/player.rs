use musiq::library::{Library, Track};
use musiq::persist::PersistState;
use musiq::playback::{PlayState, NANOS_PER_SEC, PLAY_GRACE_NANOS};
use musiq::player::{key_action, xorshift_step, EngineCommand, KeyAction, MusiqApp, NavSection, Screen};

const S: u64 = NANOS_PER_SEC;

fn track(artist: &str, title: &str, number: u32) -> Track {
    Track {
        path: format!("/m/{}-{}.mp3", artist, title),
        title: title.to_string(),
        artist: artist.to_string(),
        album: "Album".to_string(),
        track_number: number,
        duration_secs: 180,
        format: "MP3".to_string(),
        bitrate: Some(256),
        file_size: 3_000_000,
        album_art: None,
    }
}

fn loaded_app(seed: u64) -> MusiqApp {
    let mut app = MusiqApp::new(PersistState::new(), vec![], seed);
    assert!(app.scan_path("/m"));
    app.finish_scan(Library::from_tracks(vec![
        track("A", "one", 1),
        track("A", "two", 2),
        track("A", "three", 3),
    ]));
    app
}

/// Starts the track the command names, as the caller of the player would.
fn start(app: &mut MusiqApp, cmd: EngineCommand, now: u64) {
    match cmd {
        EngineCommand::Play { index } => {
            assert_eq!(app.current_track_idx, Some(index));
            app.finish_play(Ok(()), now, 1_700_000_000);
        }
        other => panic!("expected a play command, got {:?}", other),
    }
}

#[test]
fn new_app_starts_on_welcome_screen() {
    let app = MusiqApp::new(PersistState::new(), vec!["/old".to_string()], 7);
    assert_eq!(app.screen, Screen::Welcome);
    assert_eq!(app.nav_selected, NavSection::Tracks);
    assert!(app.nav_expanded);
    assert_eq!(app.playlists, vec!["Chill Mix".to_string(), "Night Drive".to_string()]);
    assert_eq!(app.recent_folders, vec!["/old".to_string()]);
    assert_eq!(app.engine.state, PlayState::Stopped);
    assert_eq!(app.current_track_idx, None);
    assert_eq!(app.track_title(), "musiq");
    assert_eq!(app.shuffle_seed, 7);
}

#[test]
fn scan_path_records_folder_and_refuses_second_scan() {
    let mut app = MusiqApp::new(PersistState::new(), vec![], 1);
    assert!(app.scan_path("/music"));
    assert!(app.scanning);
    assert_eq!(app.status_message.as_deref(), Some("Scanning: /music"));
    assert_eq!(app.library_folder.as_deref(), Some("/music"));
    assert_eq!(app.recent_folders, vec!["/music".to_string()]);
    assert_eq!(app.persist.recent_folders, vec!["/music".to_string()]);
    // Not the last folder until the scan has finished.
    assert_eq!(app.persist.last_folder, None);
    let serial = app.status_serial;
    assert!(!app.scan_path("/other"));
    assert_eq!(app.library_folder.as_deref(), Some("/music"));
    assert_eq!(app.status_serial, serial);
}

#[test]
fn finish_scan_shows_player_with_count() {
    let app = loaded_app(1);
    assert_eq!(app.screen, Screen::Player);
    assert!(!app.scanning);
    assert_eq!(app.status_message.as_deref(), Some("Loaded 3 tracks"));
    assert_eq!(app.library.tracks.len(), 3);
    assert_eq!(app.persist.last_folder.as_deref(), Some("/m"));
}

#[test]
fn finished_play_keeps_search_and_folder() {
    let mut app = loaded_app(1);
    app.search_query = "two".to_string();
    app.input = "typed".to_string();
    let cmd = app.select_track(1);
    start(&mut app, cmd, 0);
    assert_eq!(app.search_query, "two");
    assert_eq!(app.input, "typed");
    assert_eq!(app.library_folder.as_deref(), Some("/m"));
    assert_eq!(app.nav_selected, NavSection::Tracks);
}

#[test]
fn play_pause_from_stop_starts_first_track() {
    let mut app = loaded_app(1);
    let cmd = app.play_pause(0);
    assert_eq!(cmd, EngineCommand::Play { index: 0 });
    assert_eq!(app.scroll_to_track, Some(0));
    start(&mut app, cmd, 0);
    assert_eq!(app.engine.state, PlayState::Playing);
    assert_eq!(app.status_message.as_deref(), Some("A \u{2014} one"));
    assert_eq!(app.play_count(0), 1);
    assert_eq!(app.play_count(99), 0);
    assert_eq!(app.track_title(), "musiq \u{2014} A \u{b7} one");
}

#[test]
fn play_pause_with_empty_library_does_nothing() {
    let mut app = MusiqApp::new(PersistState::new(), vec![], 1);
    assert_eq!(app.play_pause(0), EngineCommand::Nothing);
    assert_eq!(app.current_track_idx, None);
}

#[test]
fn play_pause_toggles_while_playing() {
    let mut app = loaded_app(1);
    let cmd = app.play_pause(0);
    start(&mut app, cmd, 0);
    assert_eq!(app.play_pause(2 * S), EngineCommand::PauseSink);
    assert_eq!(app.engine.state, PlayState::Paused);
    assert_eq!(app.play_pause(5 * S), EngineCommand::ResumeSink);
    assert_eq!(app.engine.state, PlayState::Playing);
    assert_eq!(app.engine.position(5 * S).0, 2 * S);
}

#[test]
fn failed_start_keeps_error() {
    let mut app = loaded_app(1);
    app.select_track(1);
    app.finish_play(Err("no device".to_string()), 0, 0);
    assert_eq!(app.error.as_deref(), Some("no device"));
    assert!(!app.engine.has_sink);
    assert_eq!(app.play_count(1), 0);
    app.dismiss_error();
    assert_eq!(app.error, None);
}

#[test]
fn next_walks_queue_then_stops() {
    let mut app = loaded_app(1);
    let cmd = app.select_track(0);
    start(&mut app, cmd, 0);
    let cmd = app.play_next();
    assert_eq!(cmd, EngineCommand::Play { index: 1 });
    start(&mut app, cmd, S);
    assert_eq!(app.play_next(), EngineCommand::Play { index: 2 });
    assert_eq!(app.play_next(), EngineCommand::StopSink);
    assert_eq!(app.engine.state, PlayState::Stopped);
    assert_eq!(app.current_track_idx, Some(2));
}

#[test]
fn previous_goes_back_or_restarts() {
    let mut app = loaded_app(1);
    let cmd = app.select_track(1);
    start(&mut app, cmd, 0);
    assert_eq!(app.play_previous(10 * S), EngineCommand::SeekSink { target: 0 });
    assert_eq!(app.current_track_idx, Some(1));
    assert_eq!(app.engine.position(10 * S).0, 0);
    assert_eq!(app.play_previous(11 * S), EngineCommand::Play { index: 0 });
    assert_eq!(app.current_track_idx, Some(0));
    let cmd = EngineCommand::Play { index: 0 };
    start(&mut app, cmd, 12 * S);
    assert_eq!(app.play_previous(13 * S), EngineCommand::Nothing);
    assert_eq!(app.current_track_idx, Some(0));
}

#[test]
fn next_and_previous_are_inverse_in_order() {
    let mut app = loaded_app(1);
    app.select_track(1);
    assert_eq!(app.play_next(), EngineCommand::Play { index: 2 });
    assert_eq!(app.play_previous(0), EngineCommand::Play { index: 1 });
}

#[test]
fn shuffle_pick_follows_generator_and_avoids_current() {
    let mut app = loaded_app(12345);
    app.toggle_shuffle();
    assert!(app.engine.shuffle);
    assert_eq!(app.status_message.as_deref(), Some("Shuffle on"));
    app.select_track(0);
    for _ in 0..20 {
        let before = app.current_track_idx;
        let seed = app.shuffle_seed;
        let s1 = xorshift_step(seed);
        let first = (s1 as usize) % 3;
        let expected = if Some(first) == before { (xorshift_step(s1) as usize) % 3 } else { first };
        let cmd = app.play_next();
        assert_eq!(cmd, EngineCommand::Play { index: expected });
        assert_eq!(app.current_track_idx, Some(expected));
        assert_ne!(app.shuffle_seed, seed);
    }
    app.toggle_shuffle();
    assert_eq!(app.status_message.as_deref(), Some("Shuffle off"));
}

#[test]
fn xorshift_step_matches_known_value() {
    assert_eq!(xorshift_step(1), 1082269761);
    assert_eq!(xorshift_step(0), 0);
}

#[test]
fn repeat_replays_finished_track() {
    let mut app = loaded_app(1);
    app.toggle_repeat();
    assert_eq!(app.status_message.as_deref(), Some("Repeat on"));
    let cmd = app.select_track(2);
    start(&mut app, cmd, 0);
    assert_eq!(app.on_tick(PLAY_GRACE_NANOS - 1, true), EngineCommand::Nothing);
    assert_eq!(app.on_tick(200 * S, false), EngineCommand::Nothing);
    assert_eq!(app.on_tick(200 * S, true), EngineCommand::Play { index: 2 });
    app.toggle_repeat();
    assert_eq!(app.status_message.as_deref(), Some("Repeat off"));
}

#[test]
fn finished_track_moves_to_next() {
    let mut app = loaded_app(1);
    let cmd = app.select_track(0);
    start(&mut app, cmd, 0);
    assert_eq!(app.on_tick(200 * S, true), EngineCommand::Play { index: 1 });
    assert_eq!(app.current_track_idx, Some(1));
}

#[test]
fn stop_stops_engine() {
    let mut app = loaded_app(1);
    let cmd = app.select_track(0);
    start(&mut app, cmd, 0);
    assert_eq!(app.stop(), EngineCommand::StopSink);
    assert_eq!(app.engine.state, PlayState::Stopped);
    assert!(!app.engine.has_sink);
}

#[test]
fn click_nav_selects_and_folds_playlists() {
    let mut app = MusiqApp::new(PersistState::new(), vec![], 1);
    app.click_nav(NavSection::Albums);
    assert_eq!(app.nav_selected, NavSection::Albums);
    assert!(app.nav_expanded);
    app.click_nav(NavSection::Playlists);
    assert_eq!(app.nav_selected, NavSection::Playlists);
    assert!(app.nav_expanded);
    app.click_nav(NavSection::Playlists);
    assert!(!app.nav_expanded);
    app.click_nav(NavSection::Playlists);
    assert!(app.nav_expanded);
}

#[test]
fn welcome_path_is_trimmed_and_scanned() {
    let mut app = MusiqApp::new(PersistState::new(), vec![], 1);
    app.input = "   ".to_string();
    assert_eq!(app.submit_welcome_path(), None);
    assert_eq!(app.input, "   ");
    app.input = "  /music  ".to_string();
    assert_eq!(app.submit_welcome_path(), Some("/music".to_string()));
    assert_eq!(app.input, "");
    assert!(app.scanning);
    assert_eq!(app.recent_folders, vec!["/music".to_string()]);
    assert_eq!(app.status_message.as_deref(), Some("Scanning: /music"));
    assert_eq!(app.library_folder.as_deref(), Some("/music"));
    app.input = "/other".to_string();
    assert_eq!(app.submit_welcome_path(), None);
    assert_eq!(app.input, "");
}

#[test]
fn filtered_tracks_follow_search_field() {
    let mut app = loaded_app(1);
    assert_eq!(app.filtered_tracks(), vec![0, 1, 2]);
    app.search_query = "thr".to_string();
    assert_eq!(app.filtered_tracks(), vec![2]);
    assert_eq!(app.queue(), vec![0, 1, 2]);
}

#[test]
fn status_serial_counts_messages() {
    let mut app = MusiqApp::new(PersistState::new(), vec![], 1);
    app.set_status("one".to_string());
    app.set_status("two".to_string());
    assert_eq!(app.status_serial, 2);
    assert_eq!(app.status_message.as_deref(), Some("two"));
    app.status_serial = u64::MAX;
    app.set_status("wrap".to_string());
    assert_eq!(app.status_serial, 0);
}

#[test]
fn player_recent_list_compares_paths_and_remembered_list_text() {
    let mut app = MusiqApp::new(PersistState::new(), vec!["/m/".to_string()], 1);
    app.persist.recent_folders = vec!["/m/".to_string()];
    app.add_recent("/m");
    assert_eq!(app.recent_folders, vec!["/m".to_string()]);
    assert_eq!(app.persist.recent_folders, vec!["/m".to_string(), "/m/".to_string()]);
}

#[test]
fn key_action_maps_shortcuts_in_order() {
    assert_eq!(key_action(true, true, false, false, false, false, false), KeyAction::PlayPause);
    assert_eq!(key_action(false, true, true, false, false, false, false), KeyAction::Previous);
    assert_eq!(key_action(false, false, true, false, false, false, false), KeyAction::Next);
    assert_eq!(key_action(false, false, false, true, false, false, false), KeyAction::VolumeUp);
    assert_eq!(key_action(false, false, false, false, true, false, false), KeyAction::VolumeDown);
    assert_eq!(key_action(false, false, false, false, false, true, true), KeyAction::ToggleShuffle);
    assert_eq!(key_action(false, false, false, false, false, false, true), KeyAction::ToggleRepeat);
    assert_eq!(key_action(false, false, false, false, false, false, false), KeyAction::Nothing);
}
