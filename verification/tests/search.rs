use musiq::library::Track;
use musiq::search::{fuzzy_match, highlight_ranges, ranked_search, score_field, word_boundary_bonus};

fn make_track(title: &str, artist: &str, album: &str, path: &str) -> Track {
    Track {
        path: path.to_string(),
        title: title.to_string(),
        artist: artist.to_string(),
        album: album.to_string(),
        track_number: 1,
        duration_secs: 200,
        format: "MP3".to_string(),
        bitrate: Some(320),
        file_size: 1000,
        album_art: None,
    }
}

#[test]
fn single_char_matches_tracks_with_that_char() {
    let tracks = vec![
        make_track("Kendrick Lamar", "Kendrick Lamar", "DAMN.", "/a/kendrick.mp3"),
        make_track("Hello World", "Unknown", "Album", "/b/hello.mp3"),
    ];
    let results = ranked_search(&tracks, "k");
    assert_eq!(results.len(), 2, "both have 'k': Kendrick title + Unknown artist");
}

#[test]
fn two_char_consecutive_finds_substring() {
    let tracks = vec![
        make_track("Kendrick Lamar", "Kendrick Lamar", "DAMN.", "/a/kendrick.mp3"),
        make_track("Hello World", "Unknown", "Album", "/b/hello.mp3"),
    ];
    let results = ranked_search(&tracks, "ke");
    assert_eq!(results.len(), 1, "Kendrick title starts with 'ke'");
}

#[test]
fn two_char_order_independent_finds_out_of_order_chars() {
    let tracks = vec![
        make_track("The Beatles", "The Beatles", "Abbey Road", "/c/beatles.mp3"),
        make_track("Hello World", "Unknown", "Album", "/b/hello.mp3"),
    ];
    let results = ranked_search(&tracks, "te");
    assert_eq!(results.len(), 1, "Beatles has 't' then 'e' in order");
}

#[test]
fn order_independent_fallback_works() {
    let tracks = vec![make_track("Hello World", "Unknown", "Album", "/b/hello.mp3")];
    let results = ranked_search(&tracks, "le");
    assert_eq!(results.len(), 1, "Hello has both 'l' and 'e' even though out of order");
}

#[test]
fn progressive_typing_narrows_results() {
    let tracks = vec![
        make_track("Kendrick Lamar", "Kendrick Lamar", "DAMN.", "/a/kendrick.mp3"),
        make_track("Kanye West", "Kanye West", "Graduation", "/b/kanye.mp3"),
        make_track("The Beatles", "The Beatles", "Abbey Road", "/c/beatles.mp3"),
    ];
    let single = ranked_search(&tracks, "k");
    assert_eq!(single.len(), 2, "Kendrick + Kanye have 'k'");

    let two = ranked_search(&tracks, "ke");
    assert_eq!(two.len(), 2, "both have 'k...e' in order");

    let three = ranked_search(&tracks, "kend");
    assert_eq!(three.len(), 1, "only Kendrick has 'kend'");
    assert_eq!(three[0], 0);
}

#[test]
fn empty_query_lists_every_track_in_order() {
    let tracks = vec![
        make_track("B", "x", "y", "/1"),
        make_track("A", "x", "y", "/2"),
        make_track("C", "x", "y", "/3"),
    ];
    assert_eq!(ranked_search(&tracks, "   "), vec![0, 1, 2]);
    assert_eq!(ranked_search(&tracks, ""), vec![0, 1, 2]);
}

#[test]
fn exact_title_outranks_prefix_and_ties_keep_order() {
    // "abc" exactly: 10000 + artist/album/path scores; "abcd": starts with 8000
    let tracks = vec![
        make_track("abcd", "zz", "zz", "/q"),
        make_track("ABC", "zz", "zz", "/q"),
        make_track("xyz", "zz", "zz", "/q"),
        make_track("abcd", "zz", "zz", "/q"),
    ];
    assert_eq!(ranked_search(&tracks, "  Abc "), vec![1, 0, 3]);
}

#[test]
fn word_boundary_bonus_ranks_word_starts_first() {
    // "my-song" contains "song" after '-': 6000 + 500; "mysong": 6000
    let tracks = vec![
        make_track("mysong", "zz", "zz", "/q"),
        make_track("my-song", "zz", "zz", "/q"),
    ];
    assert_eq!(ranked_search(&tracks, "song"), vec![1, 0]);
}

#[test]
fn fuzzy_match_in_order_and_case_insensitive() {
    assert!(fuzzy_match("the beatles", "tbs"));
    assert!(!fuzzy_match("hello", "le"));
    assert!(fuzzy_match("Hello", "HLO"));
    assert!(fuzzy_match("anything", ""));
    assert!(!fuzzy_match("", "a"));
}

#[test]
fn highlight_prefers_contiguous_run() {
    assert_eq!(highlight_ranges("Hello World", "world"), vec![(6, 11)]);
    assert_eq!(highlight_ranges("Hello", ""), Vec::<(usize, usize)>::new());
}

#[test]
fn highlight_falls_back_to_scattered_chars() {
    assert_eq!(highlight_ranges("Hello World", "hw"), vec![(0, 1), (6, 7)]);
    // the 'l' after 'w' is never found again once 'w' consumed the rest
    assert_eq!(highlight_ranges("abc", "cab"), vec![(2, 3)]);
}

#[test]
fn highlight_counts_bytes_of_multibyte_chars() {
    // 'é' is two bytes in UTF-8
    assert_eq!(highlight_ranges("café bar", "bar"), vec![(6, 9)]);
    assert_eq!(highlight_ranges("éa", "é"), vec![(0, 2)]);
}

#[test]
fn score_field_applies_rules_in_order() {
    assert_eq!(score_field("hello", "hello", 10), 10000);
    assert_eq!(score_field("hello world", "hello", 10), 8000);
    assert_eq!(score_field("say hello", "hello", 10), 6500);
    assert_eq!(score_field("sayhello", "hello", 10), 6000);
    assert_eq!(score_field("hxexlxlxo", "hello", 1), 300);
    assert_eq!(score_field("olleh", "hello", 1), 100);
    assert_eq!(score_field("abc", "xyz", 1), 0);
    assert_eq!(score_field("", "a", 5), 0);
}

#[test]
fn score_field_bonus_after_multibyte_text() {
    // The run starts after '-', which follows multi-byte characters.
    assert_eq!(score_field("héllo-wörld", "wörld", 1), 650);
    assert_eq!(score_field("héllowörld", "wörld", 1), 600);
}

#[test]
fn word_boundary_bonus_looks_at_previous_byte() {
    assert_eq!(word_boundary_bonus("a b", 2, 3), 150);
    assert_eq!(word_boundary_bonus("ab", 1, 3), 0);
    assert_eq!(word_boundary_bonus("ab", 0, 3), 0);
    assert_eq!(word_boundary_bonus("ab", 10, 2), 100);
    assert_eq!(word_boundary_bonus("(x", 1, 2), 100);
    assert_eq!(word_boundary_bonus("[x", 1, 1), 0);
    assert_eq!(word_boundary_bonus("_x", 1, 1), 50);
    assert_eq!(word_boundary_bonus("-x", 1, 1), 50);
    assert_eq!(word_boundary_bonus("\u{e9}x", 1, 1), 0);
    assert_eq!(word_boundary_bonus("\u{e9}x", 2, 1), 0);
}

#[test]
fn album_and_path_matches_weigh_the_same() {
    let tracks = vec![make_track("a", "a", "a", "q"), make_track("a", "a", "q", "a")];
    assert_eq!(ranked_search(&tracks, "q"), vec![0, 1]);
}

#[test]
fn artist_counts_half_and_album_a_quarter_of_title() {
    let tracks = vec![
        make_track("x", "x", "zz", "/x"),
        make_track("x", "zz", "x", "/x"),
        make_track("zz", "x", "x", "/x"),
    ];
    assert_eq!(ranked_search(&tracks, "zz"), vec![2, 1, 0]);
}

#[test]
fn blank_query_lists_every_track() {
    let tracks = vec![make_track("a", "b", "c", "/d"), make_track("e", "f", "g", "/h")];
    assert_eq!(ranked_search(&tracks, "   "), vec![0, 1]);
    assert_eq!(ranked_search(&tracks, "\t\n"), vec![0, 1]);
}

#[test]
fn highlight_ranges_are_bytes_of_the_field() {
    // KELVIN SIGN (three bytes) lowers to 'k'; the 'a' after it starts at byte 3.
    assert_eq!(highlight_ranges("\u{212A}a", "a"), vec![(3, 4)]);
    assert_eq!(highlight_ranges("\u{212A}a", "ka"), vec![(0, 4)]);
    assert_eq!(highlight_ranges("\u{212A}xa", "ka"), vec![(0, 3), (4, 5)]);
    assert_eq!(highlight_ranges("Hello", "LL"), vec![(2, 4)]);
}

#[test]
fn word_boundary_bonus_takes_large_weights() {
    assert_eq!(word_boundary_bonus("a b", 2, 40_000_000), 2_000_000_000);
}
