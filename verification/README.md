# musiq

A minimal music player: a library scanned from a folder, fuzzy search,
play/pause/next/previous/seek, shuffle and repeat, play counts and recent
folders kept between sessions.

The player's logic is a Verus-verified library under `src/`:

- `text.rs` — characters, UTF-8 lengths, ordering of texts, decimal digits.
- `library.rs` — tracks, the stable sort by artist/album/number/title, the
  artist list and album index, per-artist and per-album queries, formats.
- `search.rs` — scored, ranked search and the highlight ranges of a match.
- `persist.rs` — recent folders (at most eight, most recent first), play
  counts and last-played times.
- `playback.rs` — the transport: play, pause, resume, seek, stop, position
  and end-of-track detection on a nanosecond clock.
- `player.rs` — the player state: queue, next/previous, shuffle, repeat,
  scanning, status line, navigation; it returns the commands the audio
  output has to carry out.
- `display.rs` — labels, truncation, keyboard selection and highlight
  segments of the screens.
- `art.rs` — decoding embedded album art and which pictures the cache keeps.

`app/` is the program around it: the egui window, the rodio audio output,
walking the folder and reading tags with lofty, the folder dialog, and the
state file in `~/.config/musiq/state.toml`.
