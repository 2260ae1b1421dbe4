use musiq::playback::{AudioEngine, PlayState, SinkCommand, NANOS_PER_SEC, PLAY_GRACE_NANOS, SEEK_GRACE_NANOS};

const S: u64 = NANOS_PER_SEC;

fn playing(at: u64, secs: u64) -> AudioEngine {
    let mut e = AudioEngine::new();
    e.play(true, at, secs);
    e
}

#[test]
fn new_engine_is_stopped() {
    let e = AudioEngine::new();
    assert_eq!(e.state, PlayState::Stopped);
    assert!(!e.shuffle && !e.repeat && !e.has_sink);
    assert_eq!(e.position(123), (0, 0));
}

#[test]
fn play_starts_from_the_beginning() {
    let e = playing(10 * S, 200);
    assert_eq!(e.state, PlayState::Playing);
    assert!(e.has_sink);
    assert_eq!(e.position(10 * S), (0, 200 * S));
    assert_eq!(e.position(15 * S), (5 * S, 200 * S));
}

#[test]
fn failed_play_drops_the_output() {
    let mut e = playing(0, 100);
    e.play(false, 5 * S, 100);
    assert!(!e.has_sink);
}

#[test]
fn position_is_capped_at_track_length() {
    let e = playing(0, 10);
    assert_eq!(e.position(60 * S), (10 * S, 10 * S));
}

#[test]
fn paused_position_does_not_move() {
    let mut e = playing(0, 100);
    assert!(e.pause(7 * S));
    assert_eq!(e.state, PlayState::Paused);
    assert_eq!(e.position(8 * S), (7 * S, 100 * S));
    assert_eq!(e.position(90 * S), (7 * S, 100 * S));
}

#[test]
fn pause_then_resume_continues_from_same_place() {
    let mut e = playing(0, 100);
    e.pause(7 * S);
    assert!(e.resume(20 * S));
    assert_eq!(e.position(20 * S), (7 * S, 100 * S));
    assert_eq!(e.position(23 * S), (10 * S, 100 * S));
}

#[test]
fn toggle_pause_alternates() {
    let mut e = playing(0, 100);
    assert_eq!(e.toggle_pause(S), SinkCommand::Pause);
    assert_eq!(e.state, PlayState::Paused);
    assert_eq!(e.toggle_pause(2 * S), SinkCommand::Resume);
    assert_eq!(e.state, PlayState::Playing);
    let mut stopped = AudioEngine::new();
    assert_eq!(stopped.toggle_pause(S), SinkCommand::Nothing);
    assert_eq!(stopped.state, PlayState::Stopped);
}

#[test]
fn stop_resets_position() {
    let mut e = playing(0, 100);
    assert!(e.stop());
    assert_eq!(e.state, PlayState::Stopped);
    assert_eq!(e.position(50 * S).0, 0);
    assert!(!e.is_finished(50 * S, true));
    assert!(!e.stop());
}

#[test]
fn seek_moves_position_and_needs_output() {
    let mut e = playing(0, 100);
    assert!(e.seek(40 * S, 5 * S));
    assert_eq!(e.position(5 * S).0, 40 * S);
    assert_eq!(e.position(6 * S).0, 41 * S);
    let mut idle = AudioEngine::new();
    assert!(!idle.seek(40 * S, 5 * S));
    assert_eq!(idle.pause_offset, 0);
}

#[test]
fn not_finished_during_grace_periods() {
    let e = playing(0, 100);
    assert!(!e.is_finished(PLAY_GRACE_NANOS - 1, true));
    assert!(e.is_finished(PLAY_GRACE_NANOS, true));
    assert!(!e.is_finished(PLAY_GRACE_NANOS, false));
    let mut s = playing(0, 100);
    s.seek(10 * S, 50 * S);
    assert!(!s.is_finished(50 * S + SEEK_GRACE_NANOS - 1, true));
    assert!(s.is_finished(50 * S + SEEK_GRACE_NANOS, true));
}

#[test]
fn paused_track_never_finishes() {
    let mut e = playing(0, 100);
    e.pause(S);
    assert!(!e.is_finished(500 * S, true));
}

#[test]
fn huge_duration_saturates() {
    let e = playing(u64::MAX - 1, u64::MAX);
    assert_eq!(e.track_duration, u64::MAX);
    assert_eq!(e.play_grace_until, Some(u64::MAX));
}
