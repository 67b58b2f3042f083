//! Admission of desktop notifications to the lighting engine.
use vstd::prelude::*;

verus! {

/// Decides which raised notifications may light the strip: nothing while
/// paused, and nothing received before the end of the last pause or an
/// explicit discard. Instants are monotonic nanoseconds.
pub struct NotificationGate {
    paused: bool,
    after: u64,
}

impl NotificationGate {
    pub closed spec fn is_paused(&self) -> bool {
        self.paused
    }

    /// Raises received before this instant are discarded.
    pub closed spec fn horizon(&self) -> u64 {
        self.after
    }

    /// A paused gate: nothing is admitted until the first unpaused update.
    pub fn new(now: u64) -> (g: NotificationGate)
        ensures
            g.is_paused(),
            g.horizon() == now,
    {
        NotificationGate { paused: true, after: now }
    }

    /// Discards every raise received before `now`.
    pub fn discard_before(&mut self, now: u64)
        ensures
            final(self).horizon() == now,
            final(self).is_paused() == old(self).is_paused(),
    {
        self.after = now;
    }

    /// Applies the pause state sampled at `now`. A paused tick, and the first
    /// tick after a pause, move the horizon to `now`, so the gap after the last
    /// inhibited tick is discarded too.
    pub fn update(&mut self, paused: bool, now: u64)
        ensures
            final(self).is_paused() == paused,
            final(self).horizon() == next_horizon(old(self).is_paused(), old(self).horizon(), paused, now),
    {
        if paused || self.paused {
            self.discard_before(now);
        }
        self.paused = paused;
    }

    pub fn accepts(&self, received: u64) -> (r: bool)
        ensures
            r == (!self.is_paused() && received >= self.horizon()),
    {
        !self.paused && received >= self.after
    }
}

/// The horizon after an update to `paused` at `now`, from a gate that was
/// `was_paused` with horizon `horizon`.
pub open spec fn next_horizon(was_paused: bool, horizon: u64, paused: bool, now: u64) -> u64 {
    if paused || was_paused {
        now
    } else {
        horizon
    }
}

/// A pause sampled at `paused_at`, followed by the first unpaused tick at
/// `resume`, admits exactly the raises received at or after `resume`: nothing
/// queued while inhibited, or in the gap before the resumed tick, is replayed.
pub proof fn lemma_resume_discards_inhibited(
    was_paused: bool,
    horizon: u64,
    paused_at: u64,
    resume: u64,
    received: u64,
)
    ensures
        ({
            let during = next_horizon(was_paused, horizon, true, paused_at);
            let after = next_horizon(true, during, false, resume);
            &&& after == resume
            &&& (received >= after <==> received >= resume)
        }),
{
}

/// Lighting is inhibited in quiet mode, while the session is not known to be
/// unlocked, and while the configuration is invalid.
pub fn inhibited(quiet: bool, locked: Option<bool>, invalid: bool) -> (r: bool)
    ensures
        r == (quiet || locked != Some(false) || invalid),
{
    quiet || !matches!(locked, Some(false)) || invalid
}

/// A close of lifecycle `event_generation` with `reason` dismisses its pulse
/// in lifecycle `generation`: closes of other lifecycles and expiries do not.
pub fn dismisses(event_generation: u64, generation: u64, reason: u32) -> (r: bool)
    ensures
        r == (event_generation == generation && reason != 1),
{
    event_generation == generation && reason != 1
}

/// Most recently notifying applications remembered for the rule picker.
pub const MAX_RECENT: usize = 8;

/// `recent` after `application` notified: a new application is appended,
/// the oldest one leaving once `MAX_RECENT` are remembered.
pub open spec fn remembered(recent: Seq<Seq<char>>, application: Seq<char>) -> Seq<Seq<char>> {
    if recent.contains(application) {
        recent
    } else if recent.len() == MAX_RECENT {
        recent.drop_first().push(application)
    } else {
        recent.push(application)
    }
}

/// Remembers that `application` notified.
pub fn remember_recent(recent: &mut Vec<String>, application: &str)
    ensures
        crate::text::texts(final(recent)@) == remembered(crate::text::texts(old(recent)@), application@),
{
    let ghost before = crate::text::texts(recent@);
    let mut i: usize = 0;
    while i < recent.len()
        invariant
            i <= recent@.len(),
            before == crate::text::texts(recent@),
            forall|k: int| 0 <= k < i ==> (#[trigger] recent@[k])@ != application@,
        decreases recent@.len() - i,
    {
        if crate::text::str_eq(recent[i].as_str(), application) {
            assert(before[i as int] == application@);
            return;
        }
        i += 1;
    }
    assert(!before.contains(application@)) by {
        if before.contains(application@) {
            let k = choose|k: int| 0 <= k < before.len() && before[k] == application@;
            assert(recent@[k]@ == application@);
        }
    }
    if recent.len() == MAX_RECENT {
        recent.remove(0);
        assert(crate::text::texts(recent@) =~= before.drop_first());
    }
    let ghost kept = crate::text::texts(recent@);
    recent.push(application.to_owned());
    assert(crate::text::texts(recent@) =~= kept.push(application@));
}


/// What one runtime tick decides from the conditions it samples.
#[derive(Clone, Copy, Debug, PartialEq, Eq, Structural)]
pub enum EngineReset {
    /// Keep every pulse.
    Keep,
    /// Drop every pulse: guidance holds the strip or the output failed.
    Clear,
    /// Drop transient pulses while lighting is inhibited.
    ClearTransients,
}

/// The decisions of one runtime tick before notifications are handled.
#[derive(Clone, Copy, Debug, PartialEq, Eq, Structural)]
pub struct TickPlan {
    /// Lighting is inhibited: quiet mode, a session not known to be unlocked,
    /// or an invalid configuration.
    pub inhibited: bool,
    /// The notification gate is paused for this tick.
    pub gate_paused: bool,
    /// Running guidance stops because the configuration became invalid.
    pub stop_guidance: bool,
    pub engine: EngineReset,
    /// The engine follows what is playing.
    pub follow_playing: bool,
    /// The engine renders dimmed.
    pub render_dimmed: bool,
}

pub open spec fn tick_plan_of(quiet: bool, locked: Option<bool>, invalid: bool, guiding: bool, output_failed: bool) -> TickPlan {
    let inhibited = quiet || locked != Some(false) || invalid;
    TickPlan {
        inhibited,
        gate_paused: inhibited || guiding || output_failed,
        stop_guidance: guiding && invalid,
        engine: if guiding || output_failed {
            EngineReset::Clear
        } else if inhibited {
            EngineReset::ClearTransients
        } else {
            EngineReset::Keep
        },
        follow_playing: !inhibited && !guiding,
        render_dimmed: inhibited || guiding,
    }
}

/// Plans a tick: `guiding` is whether guidance holds a lease at its start and
/// `output_failed` whether the output worker reports an error.
pub fn plan_tick(quiet: bool, locked: Option<bool>, invalid: bool, guiding: bool, output_failed: bool) -> (r: TickPlan)
    ensures
        r == tick_plan_of(quiet, locked, invalid, guiding, output_failed),
{
    let inhibited = inhibited(quiet, locked, invalid);
    let engine = if guiding || output_failed {
        EngineReset::Clear
    } else if inhibited {
        EngineReset::ClearTransients
    } else {
        EngineReset::Keep
    };
    TickPlan {
        inhibited,
        gate_paused: inhibited || guiding || output_failed,
        stop_guidance: guiding && invalid,
        engine,
        follow_playing: !inhibited && !guiding,
        render_dimmed: inhibited || guiding,
    }
}

/// The frame a tick hands to the output.
#[derive(Clone, Copy, Debug, PartialEq, Eq, Structural)]
pub enum FrameChoice {
    /// The guidance frame, lit until the grant's deadline.
    Guidance,
    /// The engine's frame, lit only when `lit`.
    Engine { lit: bool },
}

pub open spec fn frame_choice_of(guidance_sending: bool, enabled: bool, inhibited: bool, engine_active: bool) -> FrameChoice {
    if guidance_sending {
        FrameChoice::Guidance
    } else {
        FrameChoice::Engine { lit: enabled && !inhibited && engine_active }
    }
}

/// While guidance sends, its frame goes out; otherwise the engine's, lit only
/// when lighting is enabled, not inhibited and the engine has something to show.
pub fn frame_choice(guidance_sending: bool, enabled: bool, inhibited: bool, engine_active: bool) -> (r: FrameChoice)
    ensures
        r == frame_choice_of(guidance_sending, enabled, inhibited, engine_active),
{
    if guidance_sending {
        FrameChoice::Guidance
    } else {
        FrameChoice::Engine { lit: enabled && !inhibited && engine_active }
    }
}

/// Lock and quiet mode inhibit output: when quiet mode is on or the session is
/// not known to be unlocked, and guidance sends only while unlocked and not
/// quiet (as `Guidance::tick` states), the tick hands out an unlit engine frame.
pub proof fn lemma_lock_and_quiet_inhibit_output(
    quiet: bool,
    locked: Option<bool>,
    invalid: bool,
    guiding: bool,
    output_failed: bool,
    guidance_sending: bool,
    enabled: bool,
    engine_active: bool,
)
    requires
        guidance_sending ==> locked == Some(false) && !quiet,
        quiet || locked != Some(false),
    ensures
        frame_choice_of(guidance_sending, enabled, tick_plan_of(quiet, locked, invalid, guiding, output_failed).inhibited, engine_active)
            == (FrameChoice::Engine { lit: false }),
        tick_plan_of(quiet, locked, invalid, guiding, output_failed).gate_paused,
{
}

/// Desktop state is polled again once this long has passed (nanoseconds).
pub const DESKTOP_POLL: u64 = 100_000_000;

/// Whether the desktop state sampled at `last` is due for a new poll at `now`.
pub fn poll_due(now: u64, last: u64) -> (r: bool)
    ensures
        r == (now >= last && now - last >= DESKTOP_POLL),
{
    now >= last && now - last >= DESKTOP_POLL
}

/// A new notification lifecycle clears the engine and stops the demos.
pub fn lifecycle_changed(previous: u64, current: u64) -> (r: bool)
    ensures
        r == (previous != current),
{
    previous != current
}

/// The delay before the next tick while something moves (nanoseconds).
pub const BUSY_DELAY: u64 = 33_000_000;
/// The delay before the next tick while nothing moves (nanoseconds).
pub const IDLE_DELAY: u64 = 100_000_000;

/// The delay before the next tick: short while guidance, the engine, the
/// preview, an example or the random demo runs, or the scene moves.
pub fn tick_delay(guiding: bool, engine_active: bool, preview_active: bool, example_running: bool, random_demo: bool, scene_moving: bool) -> (r: u64)
    ensures
        r == (if guiding || engine_active || preview_active || example_running || random_demo || scene_moving {
            BUSY_DELAY
        } else {
            IDLE_DELAY
        }),
{
    if guiding || engine_active || preview_active || example_running || random_demo || scene_moving {
        BUSY_DELAY
    } else {
        IDLE_DELAY
    }
}


/// The user's consent to drive the strip. It is never saved: lighting starts
/// disabled on every launch.
pub struct Lighting {
    enabled: bool,
}

/// Lighting may be switched on only for a valid setup, with quiet mode off,
/// the session known to be unlocked, and a connected strip that no other
/// realtime source drives (`connected` is whether another source is live).
pub open spec fn may_enable(valid: bool, quiet: bool, locked: Option<bool>, connected: Option<bool>) -> bool {
    valid && !quiet && locked == Some(false) && connected == Some(false)
}

impl Lighting {
    pub closed spec fn is_enabled(&self) -> bool {
        self.enabled
    }

    /// Disabled, as at every launch.
    pub fn new() -> (r: Lighting)
        ensures
            !r.is_enabled(),
    {
        Lighting { enabled: false }
    }

    pub fn enabled(&self) -> (r: bool)
        ensures
            r == self.is_enabled(),
    {
        self.enabled
    }

    /// Whether the switch can be used: lighting can always be switched off,
    /// and switched on only when `may_enable` holds.
    pub fn can_toggle(&self, valid: bool, quiet: bool, locked: Option<bool>, connected: Option<bool>) -> (r: bool)
        ensures
            r == (self.is_enabled() || may_enable(valid, quiet, locked, connected)),
    {
        self.enabled || (valid && !quiet && matches!(locked, Some(false)) && matches!(connected, Some(false)))
    }

    /// The switch was used: lighting turns off, or on where it may.
    pub fn toggle(&mut self, valid: bool, quiet: bool, locked: Option<bool>, connected: Option<bool>)
        ensures
            final(self).is_enabled() == (!old(self).is_enabled() && may_enable(valid, quiet, locked, connected)),
    {
        self.enabled = !self.enabled && valid && !quiet && matches!(locked, Some(false)) && matches!(connected, Some(false));
    }

    /// Lighting is switched off: probing a device, closing, or withdrawn consent.
    pub fn disable(&mut self)
        ensures
            !final(self).is_enabled(),
    {
        self.enabled = false;
    }

    /// After an edit, lighting stays on only for the strip it was enabled
    /// for: the typed address and the configured address are both the probed
    /// one, and the connected strip has the configured LED count. Returns
    /// whether lighting was switched off now.
    pub fn keep_for_device(&mut self, typed_matches: bool, configured_matches: bool, connected_leds: Option<usize>, led_count: usize) -> (r: bool)
        ensures
            r == (old(self).is_enabled() && !(typed_matches && configured_matches && connected_leds == Some(led_count))),
            final(self).is_enabled() == (old(self).is_enabled() && !r),
    {
        let same = typed_matches && configured_matches && match connected_leds {
            Some(n) => n == led_count,
            None => false,
        };
        if self.enabled && !same {
            self.enabled = false;
            return true;
        }
        false
    }
}

} // verus!
