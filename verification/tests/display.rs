use musiq::display::{
    count_label, library_summary, play_count_label, step_selection, title_segments, truncate,
    truncate_path,
};

#[test]
fn truncate_keeps_short_text() {
    assert_eq!(truncate("hello", 5), "hello");
    assert_eq!(truncate("", 0), "");
}

#[test]
fn truncate_ends_long_text_with_ellipsis() {
    assert_eq!(truncate("hello world", 6), "hello\u{2026}");
    assert_eq!(truncate("héllo wörld", 4), "hél\u{2026}");
    assert_eq!(truncate("abc", 0), "\u{2026}");
    assert_eq!(truncate("abc", 1), "\u{2026}");
}

#[test]
fn truncate_path_keeps_the_end() {
    assert_eq!(truncate_path("/home/user/music", 16), "/home/user/music");
    assert_eq!(truncate_path("/home/user/music", 7), "\u{2026}/music");
    assert_eq!(truncate_path("/a/b", 0), "\u{2026}");
}

#[test]
fn count_label_describes_matches() {
    assert_eq!(count_label(0, 12, true), "no matches \u{b7} 12 tracks");
    assert_eq!(count_label(0, 0, false), "no tracks");
    assert_eq!(count_label(3, 12, true), "3 of 12 tracks");
    assert_eq!(count_label(12, 12, false), "12 tracks");
}

#[test]
fn play_count_label_uses_singular_for_one() {
    assert_eq!(play_count_label(1), "played 1 time");
    assert_eq!(play_count_label(0), "played 0 times");
    assert_eq!(play_count_label(42), "played 42 times");
}

#[test]
fn library_summary_gives_hours_and_minutes() {
    assert_eq!(library_summary(120, 3 * 3600 + 25 * 60 + 59), "120 tracks \u{b7} 3h 25m");
    assert_eq!(library_summary(0, 0), "0 tracks \u{b7} 0h 0m");
}

#[test]
fn step_selection_moves_and_clamps() {
    let shown = vec![4, 9, 2, 7];
    assert_eq!(step_selection(&shown, Some(9), 1), 2);
    assert_eq!(step_selection(&shown, Some(9), -1), 4);
    assert_eq!(step_selection(&shown, Some(4), -1), 4);
    assert_eq!(step_selection(&shown, Some(7), 1), 7);
    assert_eq!(step_selection(&shown, None, 1), 4);
    assert_eq!(step_selection(&shown, Some(100), 1), 9);
}

#[test]
fn title_segments_split_plain_and_highlighted() {
    let segs = title_segments(10, &vec![(2, 4), (6, 7)]);
    assert_eq!(
        segs,
        vec![(0, 2, false), (2, 4, true), (4, 6, false), (6, 7, true), (7, 10, false)]
    );
    assert_eq!(title_segments(5, &vec![]), vec![(0, 5, false)]);
    assert_eq!(title_segments(3, &vec![(0, 9)]), vec![(0, 3, true)]);
    assert_eq!(title_segments(0, &vec![]), Vec::<(usize, usize, bool)>::new());
}
