//! The video player: what it plays, and which commands it gives to the engine that
//! decodes and draws.
use vstd::prelude::*;

use crate::paths::text_view;

verus! {

/// How far a jump goes, in seconds.
pub const SEEK_SECONDS: u32 = 5;

/// The volume while the engine does not know better.
pub const FULL_VOLUME: i64 = 100;

/// What the player does.
#[derive(Clone, Copy, PartialEq, Eq, Structural, Debug)]
pub enum PlaybackState {
    Stopped,
    Playing,
    Paused,
}

/// Which way a jump goes.
#[derive(Clone, Copy, PartialEq, Eq, Structural, Debug)]
pub enum SeekDirection {
    Forward,
    Backward,
}

/// What is done about the timer that reports the position.
#[derive(Clone, Copy, PartialEq, Eq, Structural, Debug)]
pub enum TimerStep {
    Keep,
    Start,
    Stop,
}

/// What the engine is told.
#[derive(Clone, Copy, PartialEq, Eq, Structural, Debug)]
pub enum EngineCommand {
    Nothing,
    Load,
    Pause,
    Resume,
    Stop,
}

/// The player.
pub struct VideoPlayer {
    /// Whether the engine is there.
    pub initialized: bool,
    pub current_path: Option<String>,
    /// What is played once the engine is there.
    pub pending_path: Option<String>,
    pub playback_state: PlaybackState,
}

/// What a player does once it was paused or resumed.
pub open spec fn toggled(state: PlaybackState) -> PlaybackState {
    match state {
        PlaybackState::Playing => PlaybackState::Paused,
        PlaybackState::Paused => PlaybackState::Playing,
        PlaybackState::Stopped => PlaybackState::Stopped,
    }
}

impl VideoPlayer {
    /// A player that plays nothing, without an engine.
    pub fn new() -> (r: Self)
        ensures
            !r.initialized,
            r.current_path is None,
            r.pending_path is None,
            r.playback_state == PlaybackState::Stopped,
    {
        VideoPlayer {
            initialized: false,
            current_path: None,
            pending_path: None,
            playback_state: PlaybackState::Stopped,
        }
    }

    /// Notes that the engine is there; tells what is to be loaded now.
    pub fn engine_ready(&mut self) -> (r: Option<String>)
        ensures
            r == if old(self).initialized {
                None
            } else {
                old(self).pending_path
            },
            *final(self) == if old(self).initialized {
                *old(self)
            } else {
                VideoPlayer { initialized: true, pending_path: None, ..*old(self) }
            },
    {
        if self.initialized {
            return None;
        }
        self.initialized = true;
        self.pending_path.take()
    }

    /// Notes that the engine is gone.
    pub fn engine_gone(&mut self)
        ensures
            *final(self) == (VideoPlayer { initialized: false, ..*old(self) }),
    {
        self.initialized = false;
    }

    /// Asks for a file. Without an engine it waits.
    pub fn play(&mut self, path: &str) -> (r: EngineCommand)
        ensures
            final(self).initialized == old(self).initialized,
            final(self).current_path == old(self).current_path,
            final(self).playback_state == old(self).playback_state,
            old(self).initialized ==> {
                &&& r == EngineCommand::Load
                &&& final(self).pending_path == old(self).pending_path
            },
            !old(self).initialized ==> {
                &&& r == EngineCommand::Nothing
                &&& text_view(final(self).pending_path) == Some(path@)
            },
    {
        if self.initialized {
            EngineCommand::Load
        } else {
            self.pending_path = Some(path.to_owned());
            EngineCommand::Nothing
        }
    }

    /// Notes whether the engine loaded a file. One that it did not load changes
    /// nothing.
    pub fn loaded(&mut self, path: &str, success: bool) -> (r: TimerStep)
        ensures
            final(self).initialized == old(self).initialized,
            final(self).pending_path == old(self).pending_path,
            success ==> {
                &&& r == TimerStep::Start
                &&& text_view(final(self).current_path) == Some(path@)
                &&& final(self).playback_state == PlaybackState::Playing
            },
            !success ==> r == TimerStep::Keep && *final(self) == *old(self),
    {
        if !success {
            return TimerStep::Keep;
        }
        self.current_path = Some(path.to_owned());
        self.playback_state = PlaybackState::Playing;
        TimerStep::Start
    }

    /// Pauses what plays and resumes what is paused.
    pub fn toggle_pause(&mut self) -> (r: (EngineCommand, TimerStep))
        ensures
            *final(self) == if old(self).initialized {
                VideoPlayer { playback_state: toggled(old(self).playback_state), ..*old(self) }
            } else {
                *old(self)
            },
            r == if !old(self).initialized {
                (EngineCommand::Nothing, TimerStep::Keep)
            } else {
                match old(self).playback_state {
                    PlaybackState::Playing => (EngineCommand::Pause, TimerStep::Stop),
                    PlaybackState::Paused => (EngineCommand::Resume, TimerStep::Start),
                    PlaybackState::Stopped => (EngineCommand::Nothing, TimerStep::Keep),
                }
            },
    {
        if !self.initialized {
            return (EngineCommand::Nothing, TimerStep::Keep);
        }
        match self.playback_state {
            PlaybackState::Playing => {
                self.playback_state = PlaybackState::Paused;
                (EngineCommand::Pause, TimerStep::Stop)
            },
            PlaybackState::Paused => {
                self.playback_state = PlaybackState::Playing;
                (EngineCommand::Resume, TimerStep::Start)
            },
            PlaybackState::Stopped => (EngineCommand::Nothing, TimerStep::Keep),
        }
    }

    /// Pauses what plays.
    pub fn pause(&mut self) -> (r: (EngineCommand, TimerStep))
        ensures
            ({
                let acts = old(self).initialized && old(self).playback_state
                    == PlaybackState::Playing;
                &&& *final(self) == if acts {
                    VideoPlayer { playback_state: PlaybackState::Paused, ..*old(self) }
                } else {
                    *old(self)
                }
                &&& r == if acts {
                    (EngineCommand::Pause, TimerStep::Stop)
                } else {
                    (EngineCommand::Nothing, TimerStep::Keep)
                }
            }),
    {
        if self.initialized && self.playback_state == PlaybackState::Playing {
            self.playback_state = PlaybackState::Paused;
            (EngineCommand::Pause, TimerStep::Stop)
        } else {
            (EngineCommand::Nothing, TimerStep::Keep)
        }
    }

    /// Resumes what is paused.
    pub fn resume(&mut self) -> (r: (EngineCommand, TimerStep))
        ensures
            ({
                let acts = old(self).initialized && old(self).playback_state
                    == PlaybackState::Paused;
                &&& *final(self) == if acts {
                    VideoPlayer { playback_state: PlaybackState::Playing, ..*old(self) }
                } else {
                    *old(self)
                }
                &&& r == if acts {
                    (EngineCommand::Resume, TimerStep::Start)
                } else {
                    (EngineCommand::Nothing, TimerStep::Keep)
                }
            }),
    {
        if self.initialized && self.playback_state == PlaybackState::Paused {
            self.playback_state = PlaybackState::Playing;
            (EngineCommand::Resume, TimerStep::Start)
        } else {
            (EngineCommand::Nothing, TimerStep::Keep)
        }
    }

    /// Stops.
    pub fn stop(&mut self) -> (r: (EngineCommand, TimerStep))
        ensures
            *final(self) == if old(self).initialized {
                VideoPlayer {
                    playback_state: PlaybackState::Stopped,
                    current_path: None,
                    ..*old(self)
                }
            } else {
                *old(self)
            },
            r == if old(self).initialized {
                (EngineCommand::Stop, TimerStep::Stop)
            } else {
                (EngineCommand::Nothing, TimerStep::Keep)
            },
    {
        if !self.initialized {
            return (EngineCommand::Nothing, TimerStep::Keep);
        }
        self.playback_state = PlaybackState::Stopped;
        self.current_path = None;
        (EngineCommand::Stop, TimerStep::Stop)
    }

    /// How far a jump goes, in milliseconds: below zero where it goes back.
    pub fn seek_offset(milliseconds: u32, direction: SeekDirection) -> (r: i64)
        ensures
            r == match direction {
                SeekDirection::Forward => milliseconds as int,
                SeekDirection::Backward => -(milliseconds as int),
            },
    {
        match direction {
            SeekDirection::Forward => milliseconds as i64,
            SeekDirection::Backward => -(milliseconds as i64),
        }
    }

    /// The volume that is set, from zero to one hundred; nothing without an engine.
    pub fn set_volume(&self, volume: i64) -> (r: Option<i64>)
        ensures
            r == if !self.initialized {
                None
            } else if volume < 0 {
                Some(0i64)
            } else if volume > 100 {
                Some(100i64)
            } else {
                Some(volume)
            },
    {
        if !self.initialized {
            None
        } else if volume < 0 {
            Some(0)
        } else if volume > 100 {
            Some(100)
        } else {
            Some(volume)
        }
    }

    /// The volume, by what the engine says.
    pub fn volume(reported: Option<i64>) -> (r: i64)
        ensures
            r == match reported {
                Some(v) => v,
                None => FULL_VOLUME,
            },
    {
        match reported {
            Some(v) => v,
            None => FULL_VOLUME,
        }
    }

    /// Whether the sound is to be switched off, by what the engine says; nothing
    /// without an engine.
    pub fn toggle_mute(&self, reported: Option<bool>) -> (r: Option<bool>)
        ensures
            r == if self.initialized {
                Some(!(reported == Some(true)))
            } else {
                None
            },
    {
        if !self.initialized {
            return None;
        }
        match reported {
            Some(muted) => Some(!muted),
            None => Some(true),
        }
    }

    /// What the player does.
    pub fn playback_state(&self) -> (r: PlaybackState)
        ensures
            r == self.playback_state,
    {
        self.playback_state
    }

    /// Whether something plays.
    pub fn is_playing(&self) -> (r: bool)
        ensures
            r == (self.playback_state == PlaybackState::Playing),
    {
        self.playback_state == PlaybackState::Playing
    }

    /// Whether something is paused.
    pub fn is_paused(&self) -> (r: bool)
        ensures
            r == (self.playback_state == PlaybackState::Paused),
    {
        self.playback_state == PlaybackState::Paused
    }

    /// What plays or is paused.
    pub fn current_path(&self) -> (r: Option<String>)
        ensures
            r == self.current_path,
    {
        match &self.current_path {
            Some(p) => Some(p.clone()),
            None => None,
        }
    }
}

/// Pausing and resuming what plays, or resuming and pausing what is paused, changes
/// nothing.
pub proof fn toggling_twice_changes_nothing(state: PlaybackState)
    ensures
        toggled(toggled(state)) == state,
{
}

/// What plays is paused, what is paused plays, and what is stopped stays so.
pub proof fn toggling_pauses_and_resumes(state: PlaybackState)
    ensures
        state == PlaybackState::Playing <==> toggled(state) == PlaybackState::Paused,
        state == PlaybackState::Paused <==> toggled(state) == PlaybackState::Playing,
        state == PlaybackState::Stopped <==> toggled(state) == PlaybackState::Stopped,
{
}

/// A seek goes five seconds, and the full volume is a hundred.
pub proof fn limits_of_the_player()
    ensures
        SEEK_SECONDS == 5,
        FULL_VOLUME == 100,
{
}

} // verus!
