use musiq::persist::{normalize_path, promote_recent, promote_recent_path, PersistState};

fn strings(items: &[&str]) -> Vec<String> {
    items.iter().map(|s| s.to_string()).collect()
}

#[test]
fn new_state_remembers_nothing() {
    let p = PersistState::new();
    assert!(p.last_folder.is_none());
    assert!(p.recent_folders.is_empty());
    assert!(p.play_counts.is_empty());
    assert!(p.last_played.is_empty());
    assert!(p.last_track.is_none());
    assert!(p.volume_bits.is_none());
}

#[test]
fn record_play_at_counts_and_timestamps() {
    let mut p = PersistState::new();
    p.record_play_at("/a.mp3", 100);
    p.record_play_at("/a.mp3", 200);
    p.record_play_at("/b.mp3", 300);
    assert_eq!(p.play_count_for("/a.mp3"), 2);
    assert_eq!(p.play_count_for("/b.mp3"), 1);
    assert_eq!(p.play_count_for("/c.mp3"), 0);
    let a_time = p.last_played.iter().find(|(k, _)| k == "/a.mp3").map(|(_, t)| *t);
    assert_eq!(a_time, Some(200));
    assert_eq!(p.last_track, Some("/b.mp3".to_string()));
}

#[test]
fn record_play_now_counts_once() {
    let mut p = PersistState::new();
    p.record_play("/x.flac");
    assert_eq!(p.play_count_for("/x.flac"), 1);
    assert!(p.last_played.iter().any(|(k, _)| k == "/x.flac"));
    assert_eq!(p.last_track, Some("/x.flac".to_string()));
}

#[test]
fn push_recent_moves_folder_to_front() {
    let mut p = PersistState::new();
    p.push_recent("/one");
    p.push_recent("/two");
    p.push_recent("/one");
    assert_eq!(p.recent_folders, strings(&["/one", "/two"]));
    // The last folder is only set once a scan has finished.
    assert_eq!(p.last_folder, None);
}

#[test]
fn promote_recent_keeps_at_most_eight() {
    let mut list = strings(&["1", "2", "3", "4", "5", "6", "7", "8"]);
    promote_recent(&mut list, "9");
    assert_eq!(list, strings(&["9", "1", "2", "3", "4", "5", "6", "7"]));
    promote_recent(&mut list, "5");
    assert_eq!(list, strings(&["5", "9", "1", "2", "3", "4", "6", "7"]));
}

#[test]
fn promote_recent_drops_duplicates() {
    let mut list = strings(&["a", "b", "a", "c"]);
    promote_recent(&mut list, "a");
    assert_eq!(list, strings(&["a", "b", "c"]));
}

#[test]
fn play_counts_are_keyed_by_the_path_given() {
    let mut p = PersistState::new();
    p.record_play_at("/m/a.mp3", 10);
    p.record_play_at("/m/a.mp3", 20);
    assert_eq!(p.play_count_for("/m/a.mp3"), 2);
    assert_eq!(p.play_count_for("/m/b.mp3"), 0);
    let a_time = p.last_played.iter().find(|(k, _)| k == "/m/a.mp3").map(|(_, t)| *t);
    assert_eq!(a_time, Some(20));
}

#[test]
fn normalize_path_drops_empty_and_dot_parts() {
    assert_eq!(normalize_path("/a/b/"), "/a/b");
    assert_eq!(normalize_path("/a//./b"), "/a/b");
    assert_eq!(normalize_path("a/./b"), "a/b");
    assert_eq!(normalize_path("/"), "/");
    assert_eq!(normalize_path(""), "");
    assert_eq!(normalize_path("/a/../b"), "/a/../b");
    assert_eq!(normalize_path("/m/é/x.flac"), "/m/é/x.flac");
}

#[test]
fn remembered_recent_folders_differ_by_text() {
    let mut p = PersistState::new();
    p.push_recent("/m/");
    p.push_recent("/m");
    assert_eq!(p.recent_folders, strings(&["/m", "/m/"]));
}

#[test]
fn promote_recent_path_treats_same_folder_as_one() {
    let mut list = strings(&["/a/b/", "/c", "/a//b"]);
    promote_recent_path(&mut list, "/a/b");
    assert_eq!(list, strings(&["/a/b", "/c"]));
    let mut texts = strings(&["/a/b/", "/c", "/a//b"]);
    promote_recent(&mut texts, "/a/b");
    assert_eq!(texts, strings(&["/a/b", "/a/b/", "/c", "/a//b"]));
}
