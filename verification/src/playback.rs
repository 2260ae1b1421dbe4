//! Playback transport: play, pause, resume, seek and stop, and the position
//! of the current track over time. The audio output itself is driven by the
//! caller, which reports whether a track started and whether the output ran
//! dry; times are nanoseconds on the caller's monotonic clock.

use vstd::prelude::*;

verus! {

/// Nanoseconds in a second.
pub const NANOS_PER_SEC: u64 = 1_000_000_000;

/// After a track starts, how long finishing is not reported, in nanoseconds.
/// The output is briefly empty right after it is given a track.
pub const PLAY_GRACE_NANOS: u64 = 300_000_000;

/// After a seek, how long finishing is not reported, in nanoseconds.
pub const SEEK_GRACE_NANOS: u64 = 400_000_000;

#[derive(Debug, Clone, Copy, PartialEq, Eq, Structural)]
pub enum PlayState {
    Stopped,
    Playing,
    Paused,
}

/// What the caller must do to the audio output after a transport change.
#[derive(Debug, Clone, Copy, PartialEq, Eq, Structural)]
pub enum SinkCommand {
    Nothing,
    Pause,
    Resume,
}

/// Transport state of the player.
#[derive(Debug, Clone, Copy)]
pub struct AudioEngine {
    pub state: PlayState,
    pub shuffle: bool,
    pub repeat: bool,
    /// An audio output currently holds the track.
    pub has_sink: bool,
    /// Length of the current track.
    pub track_duration: u64,
    /// When playback last started or resumed.
    pub play_start: Option<u64>,
    /// Position reached before `play_start`.
    pub pause_offset: u64,
    /// Until when finishing is not reported.
    pub play_grace_until: Option<u64>,
}

/// `a - b`, or zero when `b` is later.
pub open spec fn since(a: u64, b: u64) -> u64 {
    if a >= b {
        (a - b) as u64
    } else {
        0
    }
}

/// `a + b`, capped at `u64::MAX`.
pub open spec fn sat_add(a: u64, b: u64) -> u64 {
    if a + b <= u64::MAX {
        (a + b) as u64
    } else {
        u64::MAX
    }
}

/// `secs` seconds in nanoseconds, capped at `u64::MAX`.
pub open spec fn secs_to_nanos(secs: u64) -> u64 {
    if secs * NANOS_PER_SEC <= u64::MAX {
        (secs * NANOS_PER_SEC) as u64
    } else {
        u64::MAX
    }
}

/// The engine after the caller tried to start a track of `duration_secs`
/// seconds at `now`: any previous output is gone, and if the track started
/// it is playing from its beginning.
pub open spec fn after_play(e: AudioEngine, started: bool, now: u64, duration_secs: u64) -> AudioEngine {
    if started {
        AudioEngine {
            state: PlayState::Playing,
            has_sink: true,
            track_duration: secs_to_nanos(duration_secs),
            play_start: Some(now),
            pause_offset: 0,
            play_grace_until: Some(sat_add(now, PLAY_GRACE_NANOS)),
            ..e
        }
    } else {
        AudioEngine { has_sink: false, ..e }
    }
}

/// The engine after a pause at `now`: a playing track stops advancing.
pub open spec fn after_pause(e: AudioEngine, now: u64) -> AudioEngine {
    if e.state == PlayState::Playing {
        if e.has_sink {
            match e.play_start {
                Some(s) => AudioEngine {
                    state: PlayState::Paused,
                    play_start: None,
                    pause_offset: sat_add(e.pause_offset, since(now, s)),
                    ..e
                },
                None => AudioEngine { state: PlayState::Paused, ..e },
            }
        } else {
            AudioEngine { state: PlayState::Paused, ..e }
        }
    } else {
        e
    }
}

/// The engine after a resume at `now`: a paused track advances again.
pub open spec fn after_resume(e: AudioEngine, now: u64) -> AudioEngine {
    if e.state == PlayState::Paused {
        if e.has_sink {
            AudioEngine { state: PlayState::Playing, play_start: Some(now), ..e }
        } else {
            AudioEngine { state: PlayState::Playing, ..e }
        }
    } else {
        e
    }
}

/// The engine after play/pause is toggled at `now`.
pub open spec fn after_toggle(e: AudioEngine, now: u64) -> AudioEngine {
    match e.state {
        PlayState::Playing => after_pause(e, now),
        PlayState::Paused => after_resume(e, now),
        PlayState::Stopped => e,
    }
}

/// The engine after a stop: nothing plays and the position is back at zero.
pub open spec fn after_stop(e: AudioEngine) -> AudioEngine {
    AudioEngine {
        state: PlayState::Stopped,
        has_sink: false,
        play_start: None,
        pause_offset: 0,
        play_grace_until: None,
        ..e
    }
}

/// The engine after a seek to `target` at `now`; without an output nothing changes.
pub open spec fn after_seek(e: AudioEngine, target: u64, now: u64) -> AudioEngine {
    if e.has_sink {
        AudioEngine {
            pause_offset: target,
            play_grace_until: Some(sat_add(now, SEEK_GRACE_NANOS)),
            play_start: if e.state == PlayState::Playing {
                Some(now)
            } else {
                e.play_start
            },
            ..e
        }
    } else {
        e
    }
}

/// How far into the track playback is at `now`, before capping at its length.
pub open spec fn raw_elapsed(e: AudioEngine, now: u64) -> u64 {
    match e.state {
        PlayState::Playing => sat_add(
            e.pause_offset,
            match e.play_start {
                Some(s) => since(now, s),
                None => 0,
            },
        ),
        PlayState::Paused => e.pause_offset,
        PlayState::Stopped => 0,
    }
}

/// `(elapsed, total)` at `now`, the elapsed time capped at the track's length.
pub open spec fn position_at(e: AudioEngine, now: u64) -> (u64, u64) {
    let r = raw_elapsed(e, now);
    (if r <= e.track_duration { r } else { e.track_duration }, e.track_duration)
}

/// The track has played out: it is playing, past its grace period, and the
/// output has nothing left.
pub open spec fn finished_at(e: AudioEngine, now: u64, sink_empty: bool) -> bool {
    &&& e.state == PlayState::Playing
    &&& match e.play_grace_until {
        Some(g) => now >= g,
        None => true,
    }
    &&& e.has_sink
    &&& sink_empty
}

impl AudioEngine {
    /// A stopped engine with shuffle and repeat off.
    pub fn new() -> (e: AudioEngine)
        ensures
            e.state == PlayState::Stopped,
            !e.shuffle,
            !e.repeat,
            !e.has_sink,
            e.track_duration == 0,
            e.play_start is None,
            e.pause_offset == 0,
            e.play_grace_until is None,
    {
        AudioEngine {
            state: PlayState::Stopped,
            shuffle: false,
            repeat: false,
            has_sink: false,
            track_duration: 0,
            play_start: None,
            pause_offset: 0,
            play_grace_until: None,
        }
    }

    /// Records the attempt to play a track of `duration_secs` seconds at
    /// `now`; `started` tells whether the output took the track.
    pub fn play(&mut self, started: bool, now: u64, duration_secs: u64)
        ensures
            *final(self) == after_play(*old(self), started, now, duration_secs),
    {
        self.has_sink = false;
        if started {
            self.has_sink = true;
            self.state = PlayState::Playing;
            self.track_duration = if duration_secs <= u64::MAX / NANOS_PER_SEC {
                duration_secs * NANOS_PER_SEC
            } else {
                u64::MAX
            };
            self.play_start = Some(now);
            self.pause_offset = 0;
            self.play_grace_until = Some(now.saturating_add(PLAY_GRACE_NANOS));
        }
    }

    /// Pauses a playing track at `now`; returns whether the output must pause.
    pub fn pause(&mut self, now: u64) -> (pause_sink: bool)
        ensures
            *final(self) == after_pause(*old(self), now),
            pause_sink == (old(self).state == PlayState::Playing && old(self).has_sink),
    {
        if self.state == PlayState::Playing {
            let had_sink = self.has_sink;
            if self.has_sink {
                match self.play_start {
                    Some(start) => {
                        let ran = if now >= start { now - start } else { 0 };
                        self.pause_offset = self.pause_offset.saturating_add(ran);
                        self.play_start = None;
                    },
                    None => {},
                }
            }
            self.state = PlayState::Paused;
            had_sink
        } else {
            false
        }
    }

    /// Resumes a paused track at `now`; returns whether the output must resume.
    pub fn resume(&mut self, now: u64) -> (resume_sink: bool)
        ensures
            *final(self) == after_resume(*old(self), now),
            resume_sink == (old(self).state == PlayState::Paused && old(self).has_sink),
    {
        if self.state == PlayState::Paused {
            let had_sink = self.has_sink;
            if self.has_sink {
                self.play_start = Some(now);
            }
            self.state = PlayState::Playing;
            had_sink
        } else {
            false
        }
    }

    /// Pauses when playing, resumes when paused, does nothing when stopped.
    pub fn toggle_pause(&mut self, now: u64) -> (cmd: SinkCommand)
        ensures
            *final(self) == after_toggle(*old(self), now),
            cmd == (if old(self).has_sink && old(self).state == PlayState::Playing {
                SinkCommand::Pause
            } else if old(self).has_sink && old(self).state == PlayState::Paused {
                SinkCommand::Resume
            } else {
                SinkCommand::Nothing
            }),
    {
        match self.state {
            PlayState::Playing => {
                if self.pause(now) {
                    SinkCommand::Pause
                } else {
                    SinkCommand::Nothing
                }
            },
            PlayState::Paused => {
                if self.resume(now) {
                    SinkCommand::Resume
                } else {
                    SinkCommand::Nothing
                }
            },
            PlayState::Stopped => SinkCommand::Nothing,
        }
    }

    /// Stops playback; returns whether an output was holding a track.
    pub fn stop(&mut self) -> (stop_sink: bool)
        ensures
            *final(self) == after_stop(*old(self)),
            stop_sink == old(self).has_sink,
    {
        let had_sink = self.has_sink;
        self.has_sink = false;
        self.state = PlayState::Stopped;
        self.play_start = None;
        self.pause_offset = 0;
        self.play_grace_until = None;
        had_sink
    }

    /// Seeks to `target` nanoseconds into the track at `now`; returns whether
    /// the output must seek.
    pub fn seek(&mut self, target: u64, now: u64) -> (seek_sink: bool)
        ensures
            *final(self) == after_seek(*old(self), target, now),
            seek_sink == old(self).has_sink,
    {
        if self.has_sink {
            self.pause_offset = target;
            self.play_grace_until = Some(now.saturating_add(SEEK_GRACE_NANOS));
            if self.state == PlayState::Playing {
                self.play_start = Some(now);
            }
            true
        } else {
            false
        }
    }

    /// Returns `(elapsed, total)` at `now`, in nanoseconds.
    pub fn position(&self, now: u64) -> (r: (u64, u64))
        ensures
            r == position_at(*self, now),
            r.0 <= r.1,
    {
        let total = self.track_duration;
        let elapsed = match self.state {
            PlayState::Playing => {
                let ran = match self.play_start {
                    Some(s) => if now >= s {
                        now - s
                    } else {
                        0
                    },
                    None => 0,
                };
                self.pause_offset.saturating_add(ran)
            },
            PlayState::Paused => self.pause_offset,
            PlayState::Stopped => 0,
        };
        (if elapsed <= total {
            elapsed
        } else {
            total
        }, total)
    }

    /// True only if the current track has naturally finished playing;
    /// `sink_empty` tells whether the output has run out of audio.
    pub fn is_finished(&self, now: u64, sink_empty: bool) -> (r: bool)
        ensures
            r == finished_at(*self, now, sink_empty),
    {
        if self.state != PlayState::Playing {
            return false;
        }
        match self.play_grace_until {
            Some(grace) => {
                if now < grace {
                    return false;
                }
            },
            None => {},
        }
        self.has_sink && sink_empty
    }
}

/// While paused, the position does not move.
pub proof fn law_paused_position_frozen(e: AudioEngine, t1: u64, t2: u64)
    requires
        e.state == PlayState::Paused,
    ensures
        position_at(e, t1) == position_at(e, t2),
{
}

/// Pausing and later resuming keeps the position: right after the resume
/// the track is where it was when paused.
pub proof fn law_pause_resume_keeps_position(e: AudioEngine, t1: u64, t2: u64)
    requires
        e.state == PlayState::Playing,
        e.has_sink,
        e.play_start matches Some(s) && s <= t1 && e.pause_offset + (t1 - s) <= u64::MAX,
        t1 <= t2,
    ensures
        position_at(after_resume(after_pause(e, t1), t2), t2) == position_at(e, t1),
{
}

/// Toggling twice returns to the same play state.
pub proof fn law_toggle_twice(e: AudioEngine, t1: u64, t2: u64)
    ensures
        after_toggle(after_toggle(e, t1), t2).state == e.state,
{
}

/// After a stop the position is zero and the track never reports finishing.
pub proof fn law_stop_resets(e: AudioEngine, now: u64, sink_empty: bool)
    ensures
        position_at(after_stop(e), now).0 == 0,
        !finished_at(after_stop(e), now, sink_empty),
{
}

/// Right after a track starts, finishing is not reported during the grace period.
pub proof fn law_no_finish_during_grace(
    e: AudioEngine,
    now: u64,
    duration_secs: u64,
    later: u64,
    sink_empty: bool,
)
    requires
        now <= later,
        later < now + PLAY_GRACE_NANOS,
        now + PLAY_GRACE_NANOS <= u64::MAX,
    ensures
        !finished_at(after_play(e, true, now, duration_secs), later, sink_empty),
{
}

/// A track that starts is at its beginning, with its full length ahead.
pub proof fn law_play_starts_at_zero(e: AudioEngine, now: u64, duration_secs: u64)
    ensures
        position_at(after_play(e, true, now, duration_secs), now) == (0u64, secs_to_nanos(duration_secs)),
{
}

/// Right after a seek on a playing or paused track, the position is the
/// seek target, capped at the track's length.
pub proof fn law_seek_moves_position(e: AudioEngine, target: u64, now: u64)
    requires
        e.has_sink,
        e.state != PlayState::Stopped,
    ensures
        position_at(after_seek(e, target, now), now).0 == if target <= e.track_duration {
            target
        } else {
            e.track_duration
        },
{
}

/// A seek leaves the play state as it was; on a paused track the position
/// stays at the seek target (capped at the track's length) however much
/// time passes.
pub proof fn law_seek_keeps_state(e: AudioEngine, target: u64, now: u64, later: u64)
    ensures
        after_seek(e, target, now).state == e.state,
        e.state == PlayState::Paused && e.has_sink ==> position_at(after_seek(e, target, now), later).0
            == if target <= e.track_duration {
            target
        } else {
            e.track_duration
        },
{
}

/// A track that starts is playing, whatever the engine was doing before,
/// paused included: it holds the output, and later its position is the time
/// since it started, capped at its length.
pub proof fn law_started_track_plays(e: AudioEngine, now: u64, duration_secs: u64, later: u64)
    requires
        now <= later,
    ensures
        after_play(e, true, now, duration_secs).state == PlayState::Playing,
        after_play(e, true, now, duration_secs).has_sink,
        position_at(after_play(e, true, now, duration_secs), later).0 == if later - now
            <= secs_to_nanos(duration_secs) {
            (later - now) as u64
        } else {
            secs_to_nanos(duration_secs)
        },
{
}

} // verus!
