//! How long the redraw loop waits before the next frame: the configured
//! interval, kept above a floor, while an inline image animates, and a
//! slower idle cadence otherwise.

use vstd::prelude::*;

use crate::time::Duration;

verus! {

/// The idle redraw cadence, used while nothing animates: 33 ms, about 30
/// frames a second.
pub fn idle_redraw_interval() -> (d: Duration)
    ensures
        d@ == 33_000_000,
{
    Duration::from_millis(33)
}

/// The shortest animation interval: below 8 ms the redraw loop would burn
/// time faster than terminals repaint.
pub fn min_animation_interval() -> (d: Duration)
    ensures
        d@ == 8_000_000,
{
    Duration::from_millis(8)
}

/// The animation settings.
#[derive(Debug, Clone, PartialEq, Eq)]
pub struct AnimationConfig {
    /// The redraw interval while an animated image is on screen, in
    /// milliseconds; values below the floor are raised to it.
    pub redraw_interval_ms: u64,
    /// The most frames a second, for information: the interval decides.
    pub max_fps: u32,
}

impl core::default::Default for AnimationConfig {
    /// 16 ms between frames, about 60 a second.
    fn default() -> (r: Self)
        ensures
            r == (AnimationConfig { redraw_interval_ms: 16, max_fps: 60 }),
    {
        AnimationConfig { redraw_interval_ms: 16, max_fps: 60 }
    }
}

/// The configured interval raised to the floor, in nanoseconds.
pub open spec fn clamped_interval_nanos(redraw_interval_ms: u64) -> nat {
    let configured = redraw_interval_ms as nat * 1_000_000;
    if configured < 8_000_000 {
        8_000_000
    } else {
        configured
    }
}

impl AnimationConfig {
    /// The configured interval, raised to the floor of 8 ms.
    pub fn redraw_interval(&self) -> (d: Duration)
        ensures
            d@ == clamped_interval_nanos(self.redraw_interval_ms),
    {
        Duration::from_millis(self.redraw_interval_ms).max(min_animation_interval())
    }
}

/// Picks the wait before the next redraw from the animation settings.
pub struct AnimationOrchestrator<'a> {
    config: &'a AnimationConfig,
}

impl<'a> AnimationOrchestrator<'a> {
    /// The policy of the settings `config`.
    pub fn new(config: &'a AnimationConfig) -> (r: Self)
        ensures
            r.config() == *config,
    {
        AnimationOrchestrator { config }
    }

    /// The settings the policy follows.
    pub closed spec fn config(&self) -> AnimationConfig {
        *self.config
    }

    /// How long to wait before the next frame: the clamped configured
    /// interval while anything animates, else the idle cadence.
    pub fn next_interval(&self, any_animating: bool) -> (d: Duration)
        ensures
            d@ == (if any_animating {
                clamped_interval_nanos(self.config().redraw_interval_ms)
            } else {
                33_000_000
            }),
    {
        if any_animating {
            self.config.redraw_interval()
        } else {
            idle_redraw_interval()
        }
    }
}

} // verus!
