//! The player's state and its decisions: what to play next, what the
//! transport does on each command, the recent folders and the status line.
//! The caller owns the audio output and the screen; commands that touch the
//! output come back as an `EngineCommand` for the caller to carry out.

use vstd::prelude::*;
use crate::library::{Library, Track};
use crate::persist::{
    PersistState, count_or_zero, play_recorded, promoted, promoted_path, promote_recent_path, texts,
};
use crate::playback::{
    AudioEngine, NANOS_PER_SEC, PlayState, SinkCommand, after_play, after_stop, after_toggle,
    position_at,
};
use crate::search::{is_ranking, normalized_query, ranked_search};
use crate::text::{decimal, push_decimal, push_str, string_from_chars, trim, trimmed};

verus! {

#[derive(Debug, Clone, Copy, PartialEq, Eq, Structural)]
pub enum Screen {
    Welcome,
    Player,
}

#[derive(Debug, Clone, Copy, PartialEq, Eq, Structural)]
pub enum NavSection {
    Albums,
    Artists,
    Favorites,
    Tracks,
    Playlists,
    Music,
}

/// What the caller must do to the audio output.
#[derive(Debug, Clone, Copy, PartialEq, Eq, Structural)]
pub enum EngineCommand {
    Nothing,
    /// Load and play the library track with this index, then report back
    /// with `finish_play`.
    Play { index: usize },
    PauseSink,
    ResumeSink,
    StopSink,
    /// Seek the output to this many nanoseconds into the track.
    SeekSink { target: u64 },
}

/// What a global key press does.
#[derive(Debug, Clone, Copy, PartialEq, Eq, Structural)]
pub enum KeyAction {
    Nothing,
    PlayPause,
    Previous,
    Next,
    VolumeUp,
    VolumeDown,
    ToggleShuffle,
    ToggleRepeat,
}

/// The action of the global shortcuts pressed in one frame: Space
/// plays or pauses, Left and Right go to the previous and next track, Up
/// and Down change the volume, S toggles shuffle and R repeat. When several
/// are pressed, the first in that order wins.
pub fn key_action(space: bool, left: bool, right: bool, up: bool, down: bool, s: bool, r: bool) -> (a: KeyAction)
    ensures
        a == if space {
            KeyAction::PlayPause
        } else if left {
            KeyAction::Previous
        } else if right {
            KeyAction::Next
        } else if up {
            KeyAction::VolumeUp
        } else if down {
            KeyAction::VolumeDown
        } else if s {
            KeyAction::ToggleShuffle
        } else if r {
            KeyAction::ToggleRepeat
        } else {
            KeyAction::Nothing
        },
{
    if space {
        KeyAction::PlayPause
    } else if left {
        KeyAction::Previous
    } else if right {
        KeyAction::Next
    } else if up {
        KeyAction::VolumeUp
    } else if down {
        KeyAction::VolumeDown
    } else if s {
        KeyAction::ToggleShuffle
    } else if r {
        KeyAction::ToggleRepeat
    } else {
        KeyAction::Nothing
    }
}

/// One step of the xorshift generator used for shuffle.
pub open spec fn xorshift(s: u64) -> u64 {
    let a = s ^ (s << 13u64);
    let b = a ^ (a >> 7u64);
    b ^ (b << 17u64)
}

/// Position of the first `x` in `q`.
pub open spec fn position_of(q: Seq<usize>, x: usize) -> Option<int>
    decreases q.len(),
{
    if q.len() == 0 {
        None
    } else if q[0] == x {
        Some(0)
    } else {
        match position_of(q.drop_first(), x) {
            Some(p) => Some(p + 1),
            None => None,
        }
    }
}

/// The entry after the current one in `q`, if the current one is in `q` and
/// not last.
pub open spec fn next_in_order(q: Seq<usize>, current: Option<usize>) -> Option<usize> {
    match current {
        Some(c) => match position_of(q, c) {
            Some(p) => if p + 1 < q.len() {
                Some(q[p + 1])
            } else {
                None
            },
            None => None,
        },
        None => None,
    }
}

/// The entry before the current one in `q`, if the current one is in `q` and
/// not first.
pub open spec fn prev_in_order(q: Seq<usize>, current: Option<usize>) -> Option<usize> {
    match current {
        Some(c) => match position_of(q, c) {
            Some(p) => if p > 0 {
                Some(q[p - 1])
            } else {
                None
            },
            None => None,
        },
        None => None,
    }
}

/// A shuffled pick from the non-empty `q` and the generator state after it:
/// one step of the generator picks an entry; when that is the current track
/// and `q` has more than one entry, a second step picks again.
pub open spec fn shuffle_pick(q: Seq<usize>, current: Option<usize>, seed: u64) -> (usize, u64) {
    let s1 = xorshift(seed);
    let c1 = ((s1 as usize) % (q.len() as usize)) as int;
    if q.len() > 1 && Some(q[c1]) == current {
        let s2 = xorshift(s1);
        (q[((s2 as usize) % (q.len() as usize)) as int], s2)
    } else {
        (q[c1], s1)
    }
}

/// The first `x` in `q` is at `i`.
proof fn lemma_position_first(q: Seq<usize>, x: usize, i: int)
    requires
        0 <= i <= q.len(),
        forall|j: int| 0 <= j < i ==> q[j] != x,
        i < q.len() ==> q[i] == x,
    ensures
        position_of(q, x) == if i < q.len() {
            Some(i)
        } else {
            None::<int>
        },
    decreases i,
{
    if i > 0 {
        lemma_position_first(q.drop_first(), x, i - 1);
    }
}

/// Position of the first `x` in `q`.
pub(crate) fn find_position(q: &Vec<usize>, x: usize) -> (r: Option<usize>)
    ensures
        match r {
            Some(p) => position_of(q@, x) == Some(p as int) && p < q@.len() && q@[p as int] == x,
            None => position_of(q@, x) is None,
        },
{
    let mut i: usize = 0;
    while i < q.len()
        invariant
            i <= q@.len(),
            forall|j: int| 0 <= j < i ==> q@[j] != x,
        decreases q.len() - i,
    {
        if q[i] == x {
            proof {
                lemma_position_first(q@, x, i as int);
            }
            return Some(i);
        }
        i += 1;
    }
    proof {
        lemma_position_first(q@, x, q@.len() as int);
    }
    None
}

/// In a queue without repeats, going to the next track and then to the
/// previous one comes back to where it started.
pub proof fn law_next_then_prev(q: Seq<usize>, c: usize)
    requires
        q.no_duplicates(),
        next_in_order(q, Some(c)) is Some,
    ensures
        prev_in_order(q, next_in_order(q, Some(c))) == Some(c),
{
    let p = position_of(q, c)->0;
    lemma_position_is_index(q, c);
    let n = q[p + 1];
    assert forall|j: int| 0 <= j < p + 1 implies q[j] != n by {
        assert(q[j] != q[p + 1]);
    }
    lemma_position_first(q, n, p + 1);
}

/// In a queue without repeats, going to the previous track and then to the
/// next one comes back to where it started.
pub proof fn law_prev_then_next(q: Seq<usize>, c: usize)
    requires
        q.no_duplicates(),
        prev_in_order(q, Some(c)) is Some,
    ensures
        next_in_order(q, prev_in_order(q, Some(c))) == Some(c),
{
    let p = position_of(q, c)->0;
    lemma_position_is_index(q, c);
    let n = q[p - 1];
    assert forall|j: int| 0 <= j < p - 1 implies q[j] != n by {
        assert(q[j] != q[p - 1]);
    }
    lemma_position_first(q, n, p - 1);
}

/// Moving on from any track of a non-empty library, in order or shuffled,
/// either stops or plays a track of the library, which becomes the current one.
pub proof fn law_next_stays_in_library(app: MusiqApp)
    ensures
        match after_next(app).1 {
            EngineCommand::Play { index } => index < app.library.tracks@.len()
                && after_next(app).0.current_track_idx == Some(index),
            EngineCommand::StopSink => true,
            _ => false,
        },
{
    let q = queue_of(app.library.tracks@.len());
    if q.len() > 0 {
        if !app.engine.shuffle {
            if let Some(c) = app.current_track_idx {
                lemma_position_is_index(q, c);
            }
        }
    }
}

/// A found position holds the value and nothing earlier does.
proof fn lemma_position_is_index(q: Seq<usize>, x: usize)
    ensures
        position_of(q, x) matches Some(p) ==> 0 <= p < q.len() && q[p] == x && forall|j: int|
            0 <= j < p ==> q[j] != x,
    decreases q.len(),
{
    if q.len() > 0 && q[0] != x {
        lemma_position_is_index(q.drop_first(), x);
        if let Some(p) = position_of(q.drop_first(), x) {
            assert forall|j: int| 0 <= j < p + 1 implies q[j] != x by {
                if j > 0 {
                    assert(q[j] == q.drop_first()[j - 1]);
                }
            }
        }
    }
}

/// The status line shown when a track starts: its artist, a dash, its title.
pub open spec fn now_playing_text(t: Track) -> Seq<char> {
    t.artist@ + " \u{2014} "@ + t.title@
}

/// The window title: "musiq" and, while a track is current, its artist and title.
pub open spec fn window_title_text(t: Option<Track>) -> Seq<char> {
    match t {
        Some(track) => "musiq \u{2014} "@ + track.artist@ + " \u{b7} "@ + track.title@,
        None => "musiq"@,
    }
}

/// The library track with index `idx`, if there is one.
pub open spec fn track_at(lib: Library, idx: Option<usize>) -> Option<Track> {
    match idx {
        Some(i) => if i < lib.tracks@.len() {
            Some(lib.tracks@[i as int])
        } else {
            None
        },
        None => None,
    }
}

/// The player: what is shown, the library, the current track, the
/// transport and the remembered state.
pub struct MusiqApp {
    pub screen: Screen,
    /// Text of the folder field on the welcome screen.
    pub input: String,
    pub search_query: String,
    pub library: Library,
    pub library_folder: Option<String>,
    pub scanning: bool,
    pub scan_files_done: usize,
    pub nav_selected: NavSection,
    pub nav_expanded: bool,
    pub playlists: Vec<String>,
    pub engine: AudioEngine,
    pub current_track_idx: Option<usize>,
    /// Track the list should scroll to once.
    pub scroll_to_track: Option<usize>,
    pub status_message: Option<String>,
    /// Bumped each time the status message is set, so the caller can time it.
    pub status_serial: u64,
    pub error: Option<String>,
    pub is_maximized: bool,
    /// Recent folders, most recent first.
    pub recent_folders: Vec<String>,
    pub persist: PersistState,
    /// State of the shuffle generator.
    pub shuffle_seed: u64,
}

/// The queue of a library with `n` tracks: every index, in library order.
pub open spec fn queue_of(n: nat) -> Seq<usize> {
    Seq::new(n, |i: int| i as usize)
}

/// The status counter after one more message.
pub open spec fn bump(serial: u64) -> u64 {
    if serial < u64::MAX {
        (serial + 1) as u64
    } else {
        0
    }
}

/// The command that plays the current track, if it names one.
pub open spec fn play_current_command(app: MusiqApp) -> EngineCommand {
    match track_at(app.library, app.current_track_idx) {
        Some(_) => EngineCommand::Play { index: app.current_track_idx->0 },
        None => EngineCommand::Nothing,
    }
}

/// The command for a transport toggle, given the engine before it.
pub open spec fn toggle_command(e: AudioEngine) -> EngineCommand {
    if e.has_sink && e.state == PlayState::Playing {
        EngineCommand::PauseSink
    } else if e.has_sink && e.state == PlayState::Paused {
        EngineCommand::ResumeSink
    } else {
        EngineCommand::Nothing
    }
}

/// The player after moving to `idx`: it becomes the current track and the
/// list scrolls to it.
pub open spec fn moved_to(app: MusiqApp, idx: usize) -> MusiqApp {
    MusiqApp { current_track_idx: Some(idx), scroll_to_track: Some(idx), ..app }
}

/// The player and command after "next": a shuffled pick when shuffle is on,
/// else the following track; with nothing to move to, playback stops.
pub open spec fn after_next(app: MusiqApp) -> (MusiqApp, EngineCommand) {
    let q = queue_of(app.library.tracks@.len());
    if q.len() == 0 {
        (MusiqApp { engine: after_stop(app.engine), ..app }, EngineCommand::StopSink)
    } else if app.engine.shuffle {
        let (pick, seed) = shuffle_pick(q, app.current_track_idx, app.shuffle_seed);
        (MusiqApp { shuffle_seed: seed, ..moved_to(app, pick) }, EngineCommand::Play { index: pick })
    } else {
        match next_in_order(q, app.current_track_idx) {
            Some(n) => (moved_to(app, n), EngineCommand::Play { index: n }),
            None => (MusiqApp { engine: after_stop(app.engine), ..app }, EngineCommand::StopSink),
        }
    }
}

impl MusiqApp {
    /// A player on the welcome screen with the remembered state, the recent
    /// folders that still exist, and the shuffle generator seeded with `seed`.
    pub fn new(persist: PersistState, recent_folders: Vec<String>, seed: u64) -> (app: MusiqApp)
        ensures
            app.screen == Screen::Welcome,
            app.input@.len() == 0,
            app.search_query@.len() == 0,
            app.library.tracks@.len() == 0,
            app.library.artists@.len() == 0,
            app.library.albums@.len() == 0,
            app.library_folder is None,
            !app.scanning,
            app.scan_files_done == 0,
            app.nav_selected == NavSection::Tracks,
            app.nav_expanded,
            texts(app.playlists@) == seq!["Chill Mix"@, "Night Drive"@],
            app.engine.state == PlayState::Stopped,
            !app.engine.shuffle,
            !app.engine.repeat,
            !app.engine.has_sink,
            app.current_track_idx is None,
            app.scroll_to_track is None,
            app.status_message is None,
            app.error is None,
            !app.is_maximized,
            app.recent_folders == recent_folders,
            app.persist == persist,
            app.shuffle_seed == seed,
    {
        let playlists = vec!["Chill Mix".to_owned(), "Night Drive".to_owned()];
        assert(texts(playlists@) =~= seq!["Chill Mix"@, "Night Drive"@]);
        MusiqApp {
            screen: Screen::Welcome,
            input: String::new(),
            search_query: String::new(),
            library: Library::default(),
            library_folder: None,
            scanning: false,
            scan_files_done: 0,
            nav_selected: NavSection::Tracks,
            nav_expanded: true,
            playlists,
            engine: AudioEngine::new(),
            current_track_idx: None,
            scroll_to_track: None,
            status_message: None,
            status_serial: 0,
            error: None,
            is_maximized: false,
            recent_folders,
            persist,
            shuffle_seed: seed,
        }
    }

    /// The current track, when the current index names one.
    pub fn current_track(&self) -> (r: Option<&Track>)
        ensures
            match r {
                Some(t) => track_at(self.library, self.current_track_idx) == Some(*t),
                None => track_at(self.library, self.current_track_idx) is None,
            },
    {
        match self.current_track_idx {
            Some(i) => {
                if i < self.library.tracks.len() {
                    Some(&self.library.tracks[i])
                } else {
                    None
                }
            },
            None => None,
        }
    }

    /// The window title.
    pub fn track_title(&self) -> (r: String)
        ensures
            r@ == window_title_text(track_at(self.library, self.current_track_idx)),
    {
        let mut out: Vec<char> = Vec::new();
        match self.current_track() {
            Some(t) => {
                push_str(&mut out, "musiq \u{2014} ");
                push_str(&mut out, t.artist.as_str());
                push_str(&mut out, " \u{b7} ");
                push_str(&mut out, t.title.as_str());
            },
            None => {
                push_str(&mut out, "musiq");
            },
        }
        assert(out@ =~= window_title_text(track_at(self.library, self.current_track_idx)));
        string_from_chars(&out)
    }

    /// The play queue: every track, in library order.
    pub fn queue(&self) -> (r: Vec<usize>)
        ensures
            r@ == queue_of(self.library.tracks@.len()),
    {
        let mut q: Vec<usize> = Vec::new();
        let mut i: usize = 0;
        while i < self.library.tracks.len()
            invariant
                i <= self.library.tracks@.len(),
                q@ =~= Seq::new(i as nat, |k: int| k as usize),
            decreases self.library.tracks.len() - i,
        {
            q.push(i);
            i += 1;
        }
        q
    }

    /// The tracks matching the search field, best match first.
    pub fn filtered_tracks(&self) -> (r: Vec<usize>)
        ensures
            normalized_query(self.search_query@).len() == 0 ==> r@ == Seq::new(
                self.library.tracks@.len(),
                |i: int| i as usize,
            ),
            normalized_query(self.search_query@).len() > 0 ==> is_ranking(
                self.library.tracks@,
                normalized_query(self.search_query@),
                r@,
            ),
    {
        ranked_search(self.library.tracks.as_slice(), self.search_query.as_str())
    }

    /// How many times the track with index `idx` has been played; zero for
    /// an index past the end.
    pub fn play_count(&self, idx: usize) -> (r: u32)
        ensures
            r == if idx < self.library.tracks@.len() {
                count_or_zero(self.persist.play_counts@, self.library.tracks@[idx as int].path@)
            } else {
                0
            },
    {
        if idx < self.library.tracks.len() {
            self.persist.play_count_for(self.library.tracks[idx].path.as_str())
        } else {
            0
        }
    }

    /// Puts `path` first among the recent folders, here and in the
    /// remembered state. Here entries that are the same path give way to it;
    /// in the remembered list, entries with the same text.
    pub fn add_recent(&mut self, path: &str)
        ensures
            texts(final(self).recent_folders@) == promoted_path(texts(old(self).recent_folders@), path@),
            texts(final(self).persist.recent_folders@) == promoted(
                texts(old(self).persist.recent_folders@),
                path@,
            ),
            final(self).persist == (PersistState {
                recent_folders: final(self).persist.recent_folders,
                ..old(self).persist
            }),
            *final(self) == (MusiqApp {
                recent_folders: final(self).recent_folders,
                persist: final(self).persist,
                ..*old(self)
            }),
    {
        promote_recent_path(&mut self.recent_folders, path);
        self.persist.push_recent(path);
    }

    /// Shows `msg` in the status line.
    pub fn set_status(&mut self, msg: String)
        ensures
            *final(self) == (MusiqApp {
                status_message: Some(msg),
                status_serial: bump(old(self).status_serial),
                ..*old(self)
            }),
    {
        self.status_message = Some(msg);
        self.status_serial = if self.status_serial < u64::MAX {
            self.status_serial + 1
        } else {
            0
        };
    }

    /// The command that plays the current track, if it names one.
    pub fn play_current(&self) -> (cmd: EngineCommand)
        ensures
            cmd == play_current_command(*self),
    {
        match self.current_track_idx {
            Some(idx) => {
                if idx < self.library.tracks.len() {
                    EngineCommand::Play { index: idx }
                } else {
                    EngineCommand::Nothing
                }
            },
            None => EngineCommand::Nothing,
        }
    }

    /// Makes `idx` the current track, scrolls to it and asks to play it.
    pub fn select_track(&mut self, idx: usize) -> (cmd: EngineCommand)
        ensures
            *final(self) == moved_to(*old(self), idx),
            cmd == play_current_command(moved_to(*old(self), idx)),
    {
        self.current_track_idx = Some(idx);
        self.scroll_to_track = Some(idx);
        self.play_current()
    }

    /// Takes in how starting the current track went, at `now` on the
    /// transport clock and `unix_now` seconds since the Unix epoch. On
    /// success the status names the track and its play is recorded; on
    /// failure the error is kept for display. A successful start must leave
    /// room in the track's play count.
    pub fn finish_play(&mut self, outcome: Result<(), String>, now: u64, unix_now: u64)
        requires
            old(self).current_track_idx matches Some(i) && i < old(self).library.tracks@.len(),
            outcome is Ok ==> count_or_zero(
                old(self).persist.play_counts@,
                old(self).library.tracks@[old(self).current_track_idx->0 as int].path@,
            ) < u32::MAX,
        ensures
            ({
                let t = old(self).library.tracks@[old(self).current_track_idx->0 as int];
                &&& final(self).engine == after_play(old(self).engine, outcome is Ok, now, t.duration_secs)
                &&& match outcome {
                    Ok(_) => {
                        &&& final(self).status_message matches Some(m) && m@ == now_playing_text(t)
                        &&& final(self).status_serial == bump(old(self).status_serial)
                        &&& final(self).error == old(self).error
                        &&& play_recorded(old(self).persist, final(self).persist, t.path@, unix_now)
                    },
                    Err(e) => {
                        &&& final(self).error == Some(e)
                        &&& final(self).status_message == old(self).status_message
                        &&& final(self).status_serial == old(self).status_serial
                        &&& final(self).persist == old(self).persist
                    },
                }
            }),
            *final(self) == (MusiqApp {
                engine: final(self).engine,
                status_message: final(self).status_message,
                status_serial: final(self).status_serial,
                error: final(self).error,
                persist: final(self).persist,
                ..*old(self)
            }),
    {
        let idx = match self.current_track_idx {
            Some(i) => i,
            None => 0,
        };
        let ok = outcome.is_ok();
        let duration = self.library.tracks[idx].duration_secs;
        self.engine.play(ok, now, duration);
        match outcome {
            Ok(()) => {
                let mut text: Vec<char> = Vec::new();
                push_str(&mut text, self.library.tracks[idx].artist.as_str());
                push_str(&mut text, " \u{2014} ");
                push_str(&mut text, self.library.tracks[idx].title.as_str());
                let status = string_from_chars(&text);
                self.set_status(status);
                let path = self.library.tracks[idx].path.clone();
                self.persist.record_play_at(path.as_str(), unix_now);
            },
            Err(e) => {
                self.error = Some(e);
            },
        }
    }
}

impl MusiqApp {
    /// Space bar: from a stop, starts the first track of the queue; otherwise
    /// toggles pause at `now`.
    pub fn play_pause(&mut self, now: u64) -> (cmd: EngineCommand)
        ensures
            old(self).engine.state == PlayState::Stopped ==> if old(self).library.tracks@.len() > 0 {
                *final(self) == moved_to(*old(self), 0) && cmd == (EngineCommand::Play { index: 0 })
            } else {
                *final(self) == *old(self) && cmd == EngineCommand::Nothing
            },
            old(self).engine.state != PlayState::Stopped ==> *final(self) == (MusiqApp {
                engine: after_toggle(old(self).engine, now),
                ..*old(self)
            }) && cmd == toggle_command(old(self).engine),
    {
        if self.engine.state == PlayState::Stopped {
            let q = self.queue();
            if q.len() > 0 {
                let first = q[0];
                self.current_track_idx = Some(first);
                self.scroll_to_track = Some(first);
                self.play_current()
            } else {
                EngineCommand::Nothing
            }
        } else {
            match self.engine.toggle_pause(now) {
                SinkCommand::Pause => EngineCommand::PauseSink,
                SinkCommand::Resume => EngineCommand::ResumeSink,
                SinkCommand::Nothing => EngineCommand::Nothing,
            }
        }
    }

    /// The track to play after the current one in `q`: with shuffle on, a
    /// pick of the shuffle generator (which advances); otherwise the entry
    /// after the current one, if any.
    pub fn next_queue_idx(&mut self, q: &Vec<usize>) -> (r: Option<usize>)
        ensures
            q@.len() == 0 ==> r is None && *final(self) == *old(self),
            q@.len() > 0 && old(self).engine.shuffle ==> ({
                let (pick, seed) = shuffle_pick(q@, old(self).current_track_idx, old(self).shuffle_seed);
                r == Some(pick) && *final(self) == (MusiqApp { shuffle_seed: seed, ..*old(self) })
            }),
            q@.len() > 0 && !old(self).engine.shuffle ==> r == next_in_order(
                q@,
                old(self).current_track_idx,
            ) && *final(self) == *old(self),
    {
        if q.len() == 0 {
            return None;
        }
        if self.engine.shuffle {
            let s1 = xorshift_step(self.shuffle_seed);
            self.shuffle_seed = s1;
            let mut candidate = (s1 as usize) % q.len();
            if q.len() > 1 && Some(q[candidate]) == self.current_track_idx {
                let s2 = xorshift_step(s1);
                self.shuffle_seed = s2;
                candidate = (s2 as usize) % q.len();
            }
            return Some(q[candidate]);
        }
        match self.current_track_idx {
            Some(ci) => match find_position(q, ci) {
                Some(p) => {
                    if p + 1 < q.len() {
                        Some(q[p + 1])
                    } else {
                        None
                    }
                },
                None => None,
            },
            None => None,
        }
    }

    /// The track before the current one in `q`, if any.
    pub fn prev_queue_idx(&self, q: &Vec<usize>) -> (r: Option<usize>)
        ensures
            r == prev_in_order(q@, self.current_track_idx),
    {
        if q.len() == 0 {
            return None;
        }
        match self.current_track_idx {
            Some(ci) => match find_position(q, ci) {
                Some(p) => {
                    if p > 0 {
                        Some(q[p - 1])
                    } else {
                        None
                    }
                },
                None => None,
            },
            None => None,
        }
    }

    /// Next track: moves on in the queue (or shuffles) and asks to play it;
    /// stops when there is nothing to move to.
    pub fn play_next(&mut self) -> (cmd: EngineCommand)
        ensures
            (*final(self), cmd) == after_next(*old(self)),
    {
        let q = self.queue();
        if q.len() == 0 {
            self.engine.stop();
            return EngineCommand::StopSink;
        }
        match self.next_queue_idx(&q) {
            Some(idx) => {
                self.current_track_idx = Some(idx);
                self.scroll_to_track = Some(idx);
                proof {
                    if !old(self).engine.shuffle {
                        lemma_queue_position(q@, old(self).current_track_idx);
                    }
                }
                self.play_current()
            },
            None => {
                self.engine.stop();
                EngineCommand::StopSink
            },
        }
    }

    /// Previous track: more than three seconds into a track, goes back to
    /// its start; otherwise moves to the previous track of the queue, if any.
    pub fn play_previous(&mut self, now: u64) -> (cmd: EngineCommand)
        ensures
            position_at(old(self).engine, now).0 > 3 * NANOS_PER_SEC ==> ({
                &&& final(self).engine == crate::playback::after_seek(old(self).engine, 0, now)
                &&& *final(self) == (MusiqApp { engine: final(self).engine, ..*old(self) })
                &&& cmd == if old(self).engine.has_sink {
                    EngineCommand::SeekSink { target: 0 }
                } else {
                    EngineCommand::Nothing
                }
            }),
            position_at(old(self).engine, now).0 <= 3 * NANOS_PER_SEC ==> match prev_in_order(
                queue_of(old(self).library.tracks@.len()),
                old(self).current_track_idx,
            ) {
                Some(p) => *final(self) == moved_to(*old(self), p) && cmd == (EngineCommand::Play {
                    index: p,
                }),
                None => *final(self) == *old(self) && cmd == EngineCommand::Nothing,
            },
    {
        let q = self.queue();
        let (elapsed, _) = self.engine.position(now);
        if elapsed > 3 * NANOS_PER_SEC {
            if self.engine.seek(0, now) {
                return EngineCommand::SeekSink { target: 0 };
            }
            return EngineCommand::Nothing;
        }
        match self.prev_queue_idx(&q) {
            Some(idx) => {
                self.current_track_idx = Some(idx);
                self.scroll_to_track = Some(idx);
                proof {
                    lemma_queue_position(q@, old(self).current_track_idx);
                }
                self.play_current()
            },
            None => EngineCommand::Nothing,
        }
    }

    /// Stops playback.
    pub fn stop(&mut self) -> (cmd: EngineCommand)
        ensures
            *final(self) == (MusiqApp { engine: after_stop(old(self).engine), ..*old(self) }),
            cmd == EngineCommand::StopSink,
    {
        self.engine.stop();
        EngineCommand::StopSink
    }

    /// Turns shuffle on or off and says so in the status line.
    pub fn toggle_shuffle(&mut self)
        ensures
            final(self).engine == (AudioEngine { shuffle: !old(self).engine.shuffle, ..old(self).engine }),
            final(self).status_message matches Some(m) && m@ == if final(self).engine.shuffle {
                "Shuffle on"@
            } else {
                "Shuffle off"@
            },
            *final(self) == (MusiqApp {
                engine: final(self).engine,
                status_message: final(self).status_message,
                status_serial: bump(old(self).status_serial),
                ..*old(self)
            }),
    {
        self.engine.shuffle = !self.engine.shuffle;
        let msg = if self.engine.shuffle {
            "Shuffle on".to_owned()
        } else {
            "Shuffle off".to_owned()
        };
        self.set_status(msg);
    }

    /// Turns repeat on or off and says so in the status line.
    pub fn toggle_repeat(&mut self)
        ensures
            final(self).engine == (AudioEngine { repeat: !old(self).engine.repeat, ..old(self).engine }),
            final(self).status_message matches Some(m) && m@ == if final(self).engine.repeat {
                "Repeat on"@
            } else {
                "Repeat off"@
            },
            *final(self) == (MusiqApp {
                engine: final(self).engine,
                status_message: final(self).status_message,
                status_serial: bump(old(self).status_serial),
                ..*old(self)
            }),
    {
        self.engine.repeat = !self.engine.repeat;
        let msg = if self.engine.repeat {
            "Repeat on".to_owned()
        } else {
            "Repeat off".to_owned()
        };
        self.set_status(msg);
    }

    /// Clears the error shown to the user.
    pub fn dismiss_error(&mut self)
        ensures
            *final(self) == (MusiqApp { error: None, ..*old(self) }),
    {
        self.error = None;
    }
}

/// One step of the shuffle generator.
pub fn xorshift_step(s: u64) -> (r: u64)
    ensures
        r == xorshift(s),
{
    let a = s ^ (s << 13u64);
    let b = a ^ (a >> 7u64);
    b ^ (b << 17u64)
}

/// In the queue of every index, each index in range sits at its own position.
proof fn lemma_queue_position(q: Seq<usize>, current: Option<usize>)
    requires
        q == queue_of(q.len()),
    ensures
        match current {
            Some(c) => if c < q.len() {
                position_of(q, c) == Some(c as int)
            } else {
                position_of(q, c) is None
            },
            None => true,
        },
{
    if let Some(c) = current {
        if c < q.len() {
            lemma_position_first(q, c, c as int);
        } else {
            lemma_position_first(q, c, q.len() as int);
        }
    }
}

/// `after` is `before` once a scan of `path` has started: the folder is
/// the most recent one, here and in the remembered state, and the library
/// folder; a scan runs from zero files; the status line says so. The last
/// folder stays as it was until the scan finishes, and nothing else changes.
pub open spec fn scan_started(before: MusiqApp, after: MusiqApp, path: Seq<char>) -> bool {
    &&& texts(after.recent_folders@) == promoted_path(texts(before.recent_folders@), path)
    &&& texts(after.persist.recent_folders@) == promoted(texts(before.persist.recent_folders@), path)
    &&& after.persist == (PersistState { recent_folders: after.persist.recent_folders, ..before.persist })
    &&& after.library_folder matches Some(f) && f@ == path
    &&& after.status_message matches Some(m) && m@ == "Scanning: "@ + path
    &&& after == (MusiqApp {
        recent_folders: after.recent_folders,
        persist: after.persist,
        library_folder: after.library_folder,
        scanning: true,
        scan_files_done: 0,
        status_message: after.status_message,
        status_serial: bump(before.status_serial),
        ..before
    })
}

impl MusiqApp {
    /// Starts scanning `path` unless a scan is running: the folder becomes
    /// the most recent one and the library folder, and the status says so.
    /// Returns whether the caller must start the scan.
    pub fn scan_path(&mut self, path: &str) -> (start: bool)
        ensures
            start == !old(self).scanning,
            old(self).scanning ==> *final(self) == *old(self),
            !old(self).scanning ==> scan_started(*old(self), *final(self), path@),
    {
        if self.scanning {
            return false;
        }
        self.add_recent(path);
        self.library_folder = Some(path.to_owned());
        self.scanning = true;
        self.scan_files_done = 0;
        let mut text: Vec<char> = Vec::new();
        push_str(&mut text, "Scanning: ");
        push_str(&mut text, path);
        let msg = string_from_chars(&text);
        self.set_status(msg);
        true
    }

    /// Takes in a finished scan: the library is replaced, the player screen
    /// shown, the scanned folder becomes the last folder remembered, and the
    /// status gives the number of tracks.
    pub fn finish_scan(&mut self, lib: Library)
        ensures
            final(self).library == lib,
            !final(self).scanning,
            final(self).screen == Screen::Player,
            final(self).status_message matches Some(m) && m@ == "Loaded "@ + decimal(
                lib.tracks@.len(),
            ) + " tracks"@,
            match old(self).library_folder {
                Some(f) => final(self).persist.last_folder matches Some(g) && g@ == f@,
                None => final(self).persist.last_folder == old(self).persist.last_folder,
            },
            final(self).persist == (PersistState {
                last_folder: final(self).persist.last_folder,
                ..old(self).persist
            }),
            *final(self) == (MusiqApp {
                library: lib,
                scanning: false,
                screen: Screen::Player,
                status_message: final(self).status_message,
                status_serial: bump(old(self).status_serial),
                persist: final(self).persist,
                ..*old(self)
            }),
    {
        let n = lib.tracks.len();
        let mut text: Vec<char> = Vec::new();
        push_str(&mut text, "Loaded ");
        push_decimal(&mut text, n as u64);
        push_str(&mut text, " tracks");
        let msg = string_from_chars(&text);
        self.scanning = false;
        self.library = lib;
        self.screen = Screen::Player;
        match &self.library_folder {
            Some(f) => {
                self.persist.last_folder = Some(f.clone());
            },
            None => {},
        }
        self.set_status(msg);
    }

    /// Called on every frame at `now`: when the track has played out (the
    /// output reported `sink_empty`), repeats it or moves to the next one.
    pub fn on_tick(&mut self, now: u64, sink_empty: bool) -> (cmd: EngineCommand)
        ensures
            !crate::playback::finished_at(old(self).engine, now, sink_empty) ==> *final(self)
                == *old(self) && cmd == EngineCommand::Nothing,
            crate::playback::finished_at(old(self).engine, now, sink_empty) && old(self).engine.repeat
                ==> *final(self) == *old(self) && cmd == play_current_command(*old(self)),
            crate::playback::finished_at(old(self).engine, now, sink_empty) && !old(self).engine.repeat
                ==> (*final(self), cmd) == after_next(*old(self)),
    {
        if self.engine.is_finished(now, sink_empty) {
            if self.engine.repeat {
                self.play_current()
            } else {
                self.play_next()
            }
        } else {
            EngineCommand::Nothing
        }
    }

    /// A click on a navigation entry: selects it; a click on the selected
    /// playlists entry folds or unfolds it, a first click unfolds it.
    pub fn click_nav(&mut self, section: NavSection)
        ensures
            section == NavSection::Playlists && old(self).nav_selected == NavSection::Playlists
                ==> *final(self) == (MusiqApp { nav_expanded: !old(self).nav_expanded, ..*old(self) }),
            section == NavSection::Playlists && old(self).nav_selected != NavSection::Playlists
                ==> *final(self) == (MusiqApp {
                nav_selected: section,
                nav_expanded: true,
                ..*old(self)
            }),
            section != NavSection::Playlists ==> *final(self) == (MusiqApp {
                nav_selected: section,
                ..*old(self)
            }),
    {
        if section == NavSection::Playlists {
            if self.nav_selected == NavSection::Playlists {
                self.nav_expanded = !self.nav_expanded;
            } else {
                self.nav_selected = section;
                self.nav_expanded = true;
            }
        } else {
            self.nav_selected = section;
        }
    }

    /// Enter in the folder field of the welcome screen: when the trimmed text
    /// is not empty, the field is cleared and a scan of that folder starts,
    /// as `scan_path` does, unless one is running. Returns
    /// the folder whose scan the caller must start.
    pub fn submit_welcome_path(&mut self) -> (r: Option<String>)
        ensures
            trimmed(old(self).input@).len() == 0 ==> *final(self) == *old(self) && r is None,
            trimmed(old(self).input@).len() > 0 ==> {
                &&& final(self).input@.len() == 0
                &&& match r {
                    Some(p) => p@ == trimmed(old(self).input@) && !old(self).scanning,
                    None => old(self).scanning,
                }
                &&& old(self).scanning ==> *final(self) == (MusiqApp {
                    input: final(self).input,
                    ..*old(self)
                })
                &&& !old(self).scanning ==> scan_started(
                    *old(self),
                    MusiqApp { input: old(self).input, ..*final(self) },
                    trimmed(old(self).input@),
                )
            },
    {
        let path = trim(self.input.as_str()).to_owned();
        if path.as_str().is_empty() {
            return None;
        }
        let started = self.scan_path(path.as_str());
        self.input = String::new();
        if started {
            Some(path)
        } else {
            None
        }
    }
}

} // verus!
