//! Animation states and the orchestrator's timing settings.
use vstd::prelude::*;

verus! {

/// Phase of the scene animation.
#[derive(Clone, Copy, Debug, PartialEq, Eq, Structural)]
pub enum AnimationState {
    Intro,
    Solving,
    Solved,
}

/// Playback control of one animation.
#[derive(Clone, Copy, Debug, PartialEq, Eq, Structural)]
pub enum PlaybackState {
    Playing,
    Paused,
    Stopped,
    Finished,
}

/// Why an animation request failed.
#[derive(Clone, Debug)]
pub enum AnimationError {
    CallbackError(String),
    InvalidParameters(String),
    NotInitialized,
    DuplicateId(String),
    NotFound(String),
}

/// Default length of the intro sequence, in milliseconds.
pub const INTRO_DURATION_MS: u64 = 5000;

/// Default length of a state transition, in milliseconds.
pub const TRANSITION_DURATION_MS: u64 = 2000;

/// Default delay between two component validations, in milliseconds.
pub const VALIDATION_DELAY_MS: u64 = 200;

/// Timing settings for the animation orchestrator.
pub struct OrchestratorBuilder {
    pub intro_duration_ms: u64,
    pub transition_duration_ms: u64,
    pub validation_delay_ms: u64,
}

impl OrchestratorBuilder {
    /// The default timings.
    pub fn new() -> (r: Self)
        ensures
            r.intro_duration_ms == INTRO_DURATION_MS,
            r.transition_duration_ms == TRANSITION_DURATION_MS,
            r.validation_delay_ms == VALIDATION_DELAY_MS,
    {
        OrchestratorBuilder {
            intro_duration_ms: INTRO_DURATION_MS,
            transition_duration_ms: TRANSITION_DURATION_MS,
            validation_delay_ms: VALIDATION_DELAY_MS,
        }
    }

    /// Sets the intro length.
    pub fn intro_duration(self, duration_ms: u64) -> (r: Self)
        ensures
            r.intro_duration_ms == duration_ms,
            r.transition_duration_ms == self.transition_duration_ms,
            r.validation_delay_ms == self.validation_delay_ms,
    {
        OrchestratorBuilder { intro_duration_ms: duration_ms, ..self }
    }

    /// Sets the transition length.
    pub fn transition_duration(self, duration_ms: u64) -> (r: Self)
        ensures
            r.intro_duration_ms == self.intro_duration_ms,
            r.transition_duration_ms == duration_ms,
            r.validation_delay_ms == self.validation_delay_ms,
    {
        OrchestratorBuilder { transition_duration_ms: duration_ms, ..self }
    }

    /// Sets the delay between validations.
    pub fn validation_delay(self, delay_ms: u64) -> (r: Self)
        ensures
            r.intro_duration_ms == self.intro_duration_ms,
            r.transition_duration_ms == self.transition_duration_ms,
            r.validation_delay_ms == delay_ms,
    {
        OrchestratorBuilder { validation_delay_ms: delay_ms, ..self }
    }
}

impl Default for OrchestratorBuilder {
    fn default() -> (r: Self)
        ensures
            r.intro_duration_ms == INTRO_DURATION_MS,
            r.transition_duration_ms == TRANSITION_DURATION_MS,
            r.validation_delay_ms == VALIDATION_DELAY_MS,
    {
        Self::new()
    }
}

} // verus!
