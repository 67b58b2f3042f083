//! Runtime-only, target-bound strip identification. This is not saved editor state.
//!
//! Instants are monotonic nanoseconds; durations are nanoseconds.
use vstd::prelude::*;
use crate::config::{DeviceConfig, DeviceError, device_error};

verus! {

/// How long one consented guidance grant lasts.
pub const LEASE_DURATION: u64 = 120_000_000_000;
/// The editor must produce a frame at least this often.
pub const PRODUCER_LIMIT: u64 = 500_000_000;
/// The output must become active within this time of the grant.
pub const ACQUISITION_LIMIT: u64 = 2_000_000_000;

pub open spec fn identify_color() -> [u8; 3] {
    [25, 25, 25]
}

pub open spec fn dark() -> [u8; 3] {
    [0, 0, 0]
}

/// What the output worker last reported.
pub struct OutputState {
    /// Advances whenever the output fails.
    pub failure_epoch: u64,
    pub error: Option<String>,
    /// Frames are currently being sent.
    pub active: bool,
}

#[derive(Clone, Copy, Debug, PartialEq, Eq, Structural)]
pub enum StopReason {
    Stopped,
    Navigation,
    Locked,
    Quiet,
    TargetChanged,
    InvalidSelection,
    Expired,
    ProducerStalled,
    OutputFailed,
    History,
    Closed,
}

impl StopReason {
    pub fn message(self) -> (r: &'static str)
        ensures
            r@ == (match self {
                StopReason::Stopped => "Guidance stopped; releasing control to WLED."@,
                StopReason::Navigation => "Guidance stopped when leaving strip setup."@,
                StopReason::Locked => "Guidance stopped: the session is locked or lock status is unavailable."@,
                StopReason::Quiet => "Guidance stopped by quiet mode."@,
                StopReason::TargetChanged => "The device changed. Connect and request guidance again."@,
                StopReason::InvalidSelection => "Guidance stopped: select a valid LED area."@,
                StopReason::Expired => "Guidance time is up. Request another session to continue."@,
                StopReason::ProducerStalled => "Guidance stopped because the editor paused. Request control again."@,
                StopReason::OutputFailed => "Guidance stopped: check the connection and request control again."@,
                StopReason::History => "Guidance stopped by undo or redo."@,
                StopReason::Closed => "Guidance stopped while closing the editor."@,
            }),
    {
        match self {
            StopReason::Stopped => "Guidance stopped; releasing control to WLED.",
            StopReason::Navigation => "Guidance stopped when leaving strip setup.",
            StopReason::Locked => "Guidance stopped: the session is locked or lock status is unavailable.",
            StopReason::Quiet => "Guidance stopped by quiet mode.",
            StopReason::TargetChanged => "The device changed. Connect and request guidance again.",
            StopReason::InvalidSelection => "Guidance stopped: select a valid LED area.",
            StopReason::Expired => "Guidance time is up. Request another session to continue.",
            StopReason::ProducerStalled => "Guidance stopped because the editor paused. Request control again.",
            StopReason::OutputFailed => "Guidance stopped: check the connection and request control again.",
            StopReason::History => "Guidance stopped by undo or redo.",
            StopReason::Closed => "Guidance stopped while closing the editor.",
        }
    }
}

/// Why guidance could not begin.
#[derive(Clone, Copy, Debug, PartialEq, Eq, Structural)]
pub enum GuidanceError {
    Device(DeviceError),
    /// Live guidance needs an unlocked session.
    Locked,
}

#[derive(Clone, Copy, Debug, PartialEq, Eq, Structural)]
pub struct Lease {
    pub device: DeviceConfig,
    pub started: u64,
    pub last_frame: u64,
    pub saw_sending: bool,
    pub failure_epoch: u64,
}

/// The reason that ends a lease at a tick, if any, checked in priority order.
pub open spec fn stop_reason(
    lease: Lease,
    device: DeviceConfig,
    selection: Option<(usize, usize)>,
    unlocked: bool,
    quiet: bool,
    failure_epoch: u64,
    failed: bool,
    active: bool,
    now: u64,
) -> Option<StopReason> {
    let elapsed = if now > lease.started { now - lease.started } else { 0 };
    if device != lease.device {
        Some(StopReason::TargetChanged)
    } else if !unlocked {
        Some(StopReason::Locked)
    } else if quiet {
        Some(StopReason::Quiet)
    } else if elapsed >= LEASE_DURATION {
        Some(StopReason::Expired)
    } else if now < lease.last_frame || now - lease.last_frame >= PRODUCER_LIMIT {
        Some(StopReason::ProducerStalled)
    } else if match selection {
        None => true,
        Some((first, last)) => first > last || last >= device.led_count,
    } {
        Some(StopReason::InvalidSelection)
    } else if failure_epoch != lease.failure_epoch || (lease.saw_sending && (failed || !active)) || (
    elapsed >= ACQUISITION_LIMIT && !active) {
        Some(StopReason::OutputFailed)
    } else {
        None
    }
}

/// The identification frame: the selected LEDs lit, every other LED dark.
pub open spec fn identify_frame(len: nat, first: int, last: int) -> Seq<[u8; 3]> {
    Seq::new(len, |i: int| if first <= i && i <= last { identify_color() } else { dark() })
}

pub open spec fn all_dark(frame: Seq<[u8; 3]>) -> bool {
    forall|i: int| 0 <= i < frame.len() ==> #[trigger] frame[i] == dark()
}

/// Every LED of `frame` is dark or at the identification level.
pub open spec fn dim(frame: Seq<[u8; 3]>) -> bool {
    forall|i: int| 0 <= i < frame.len() ==> #[trigger] frame[i] == dark() || frame[i] == identify_color()
}

/// A tick at `now` lets the frame through only while the device is the leased
/// one, the session is unlocked, quiet mode is off and the lease is younger
/// than `LEASE_DURATION`.
pub proof fn lemma_sending_is_bounded(
    lease: Lease,
    device: DeviceConfig,
    selection: Option<(usize, usize)>,
    unlocked: bool,
    quiet: bool,
    failure_epoch: u64,
    failed: bool,
    active: bool,
    now: u64,
)
    ensures
        stop_reason(lease, device, selection, unlocked, quiet, failure_epoch, failed, active, now) is None ==> {
            &&& device == lease.device
            &&& unlocked
            &&& !quiet
            &&& now < lease.started + LEASE_DURATION
        },
{
}

/// Between two states, no grant was started: a grant held after is one held
/// before, with the same start and device.
pub open spec fn grant_kept(before: Guidance, after: Guidance) -> bool {
    after.lease() matches Some(held) ==> (before.lease() matches Some(lease) && held.started == lease.started
        && held.device == lease.device)
}

/// A tick from `before` to `after` sent the identification frame: a grant
/// was held, younger than `LEASE_DURATION` at `now`, for `device`, with the
/// session unlocked and quiet mode off, and the frame lights exactly the
/// valid selection.
pub open spec fn tick_sent(
    before: Guidance,
    after: Guidance,
    device: DeviceConfig,
    selection: Option<(usize, usize)>,
    unlocked: bool,
    quiet: bool,
    now: u64,
) -> bool {
    before.lease() matches Some(lease) && {
        &&& (if now > lease.started { now - lease.started } else { 0 }) < LEASE_DURATION
        &&& device == lease.device
        &&& unlocked
        &&& !quiet
        &&& selection matches Some((first, last)) && first <= last < device.led_count
            && after.pixels() == identify_frame(device.led_count as nat, first as int, last as int)
    }
}

/// After the grant that `begin` started at `t0` for `device`, any run of
/// calls that start no grant (`tick`, `cancel` and the read-only calls,
/// each keeping the grant as their contracts state) leaves either no grant
/// or that same grant.
pub proof fn lemma_grant_is_kept(states: Seq<Guidance>, t0: u64, device: DeviceConfig)
    requires
        states.len() > 0,
        states[0].lease() matches Some(lease) && lease.started == t0 && lease.device == device,
        forall|i: int| 0 <= i < states.len() - 1 ==> grant_kept(#[trigger] states[i], states[i + 1]),
    ensures
        forall|i: int| 0 <= i < states.len() ==> (#[trigger] states[i].lease() matches Some(held) ==> held.started == t0
            && held.device == device),
    decreases states.len(),
{
    if states.len() > 1 {
        let front = states.drop_last();
        assert forall|i: int| 0 <= i < front.len() - 1 implies grant_kept(#[trigger] front[i], front[i + 1]) by {
            assert(grant_kept(states[i], states[i + 1]));
        }
        lemma_grant_is_kept(front, t0, device);
        assert forall|i: int| 0 <= i < states.len() implies (#[trigger] states[i].lease() matches Some(held) ==> held.started
            == t0 && held.device == device) by {
            if i < front.len() {
                assert(front[i] == states[i]);
            } else {
                assert(grant_kept(states[i - 1], states[i]));
                assert(front[i - 1] == states[i - 1]);
            }
        }
    }
}

/// Lighting permissions: after `begin` granted guidance at `t0` for
/// `device`, and any run of calls that start no grant, a tick that sends
/// comes less than `LEASE_DURATION` after `t0`, on that device, with the
/// session unlocked and quiet mode off, and lights exactly the selection.
pub proof fn lemma_latest_grant_bounds_sending(
    states: Seq<Guidance>,
    t0: u64,
    granted: DeviceConfig,
    after: Guidance,
    device: DeviceConfig,
    selection: Option<(usize, usize)>,
    unlocked: bool,
    quiet: bool,
    now: u64,
)
    requires
        states.len() > 0,
        states[0].lease() matches Some(lease) && lease.started == t0 && lease.device == granted,
        forall|i: int| 0 <= i < states.len() - 1 ==> grant_kept(#[trigger] states[i], states[i + 1]),
        tick_sent(states.last(), after, device, selection, unlocked, quiet, now),
    ensures
        (if now > t0 { now - t0 } else { 0 }) < LEASE_DURATION,
        device == granted,
        unlocked,
        !quiet,
        selection matches Some((first, last)) && first <= last < device.led_count
            && after.pixels() == identify_frame(device.led_count as nat, first as int, last as int),
{
    lemma_grant_is_kept(states, t0, granted);
    assert(states[states.len() - 1] == states.last());
}

/// A bounded, consented lease on the strip for identifying LEDs.
pub struct Guidance {
    lease: Option<Lease>,
    pixels: Vec<[u8; 3]>,
    reason: Option<StopReason>,
}

impl Guidance {
    pub closed spec fn lease(&self) -> Option<Lease> {
        self.lease
    }

    pub closed spec fn pixels(&self) -> Seq<[u8; 3]> {
        self.pixels@
    }

    pub closed spec fn stop(&self) -> Option<StopReason> {
        self.reason
    }

    /// While a lease is held, the frame covers exactly the leased device's
    /// LEDs; without one, the frame is dark.
    pub closed spec fn wf(&self) -> bool {
        &&& match self.lease {
            Some(lease) => self.pixels@.len() == lease.device.led_count,
            None => all_dark(self.pixels@),
        }
        &&& dim(self.pixels@)
    }

    /// Guidance never drives an LED brighter than the identification level
    /// of 25 per channel.
    pub proof fn lemma_output_is_dim(&self)
        requires
            self.wf(),
        ensures
            dim(self.pixels()),
    {
    }

    /// Without a grant, the frame is dark.
    pub proof fn lemma_dark_without_lease(&self)
        requires
            self.wf(),
        ensures
            self.lease() is None ==> all_dark(self.pixels()),
    {
    }

    pub fn new() -> (g: Guidance)
        ensures
            g.wf(),
            g.lease() is None,
            g.pixels().len() == 0,
            g.stop() is None,
    {
        Guidance { lease: None, pixels: Vec::new(), reason: None }
    }

    fn darken(&mut self)
        ensures
            final(self).lease == old(self).lease,
            final(self).reason == old(self).reason,
            final(self).pixels@.len() == old(self).pixels@.len(),
            all_dark(final(self).pixels@),
    {
        let mut i: usize = 0;
        while i < self.pixels.len()
            invariant
                i <= self.pixels@.len(),
                self.lease == old(self).lease,
                self.reason == old(self).reason,
                self.pixels@.len() == old(self).pixels@.len(),
                forall|k: int| 0 <= k < i ==> #[trigger] self.pixels@[k] == dark(),
            decreases self.pixels@.len() - i,
        {
            self.pixels.set(i, [0, 0, 0]);
            i += 1;
        }
    }

    /// Starts a new bounded grant; call only in response to explicit in-app
    /// consent. Any earlier grant is stopped first, even if this one is refused.
    pub fn begin(&mut self, device: DeviceConfig, unlocked: bool, output: &OutputState, now: u64) -> (r:
        Result<(), GuidanceError>)
        requires
            old(self).wf(),
        ensures
            final(self).wf(),
            match device_error(device) {
                Some(e) => r == Err::<(), GuidanceError>(GuidanceError::Device(e)),
                None => if !unlocked {
                    r == Err::<(), GuidanceError>(GuidanceError::Locked)
                } else {
                    r is Ok
                },
            },
            r is Ok ==> {
                &&& final(self).lease() == Some(Lease {
                    device,
                    started: now,
                    last_frame: now,
                    saw_sending: false,
                    failure_epoch: output.failure_epoch,
                })
                &&& final(self).stop() is None
                &&& final(self).pixels().len() == device.led_count
                &&& all_dark(final(self).pixels())
            },
            r is Err ==> {
                &&& final(self).lease() is None
                &&& all_dark(final(self).pixels())
                &&& final(self).stop() == (if old(self).lease() is Some {
                    Some(StopReason::Stopped)
                } else {
                    old(self).stop()
                })
            },
    {
        self.cancel(StopReason::Stopped);
        match device.validate() {
            Err(e) => return Err(GuidanceError::Device(e)),
            Ok(()) => {},
        }
        if !unlocked {
            return Err(GuidanceError::Locked);
        }
        self.pixels.resize(device.led_count, [0, 0, 0]);
        self.darken();
        self.lease = Some(Lease {
            device,
            started: now,
            last_frame: now,
            saw_sending: false,
            failure_epoch: output.failure_epoch,
        });
        self.reason = None;
        Ok(())
    }

    pub fn active(&self) -> (r: bool)
        ensures
            r == self.lease() is Some,
    {
        self.lease.is_some()
    }

    pub fn reason(&self) -> (r: Option<StopReason>)
        ensures
            r == self.stop(),
    {
        self.reason
    }

    pub fn frame(&self) -> (r: &[[u8; 3]])
        ensures
            r@ == self.pixels(),
    {
        self.pixels.as_slice()
    }

    /// Time left on the grant at `now`; zero without a grant.
    pub fn remaining(&self, now: u64) -> (r: u64)
        ensures
            r == (match self.lease() {
                None => 0,
                Some(lease) => {
                    let elapsed: int = if now > lease.started { now - lease.started } else { 0 };
                    if elapsed >= LEASE_DURATION { 0 } else { (LEASE_DURATION - elapsed) as u64 }
                },
            }),
    {
        match &self.lease {
            None => 0,
            Some(lease) => {
                let elapsed = now.saturating_sub(lease.started);
                LEASE_DURATION.saturating_sub(elapsed)
            },
        }
    }

    /// The instant at which the grant ends, if one is held.
    pub fn deadline(&self) -> (r: Option<u64>)
        requires
            self.lease() matches Some(lease) ==> lease.started + LEASE_DURATION <= u64::MAX,
        ensures
            r == (match self.lease() {
                None => None,
                Some(lease) => Some((lease.started + LEASE_DURATION) as u64),
            }),
    {
        match &self.lease {
            None => None,
            Some(lease) => Some(lease.started + LEASE_DURATION),
        }
    }

    /// Ends a held grant, darkening the frame and recording `reason`; does
    /// nothing without a grant.
    pub fn cancel(&mut self, reason: StopReason)
        requires
            old(self).wf(),
        ensures
            final(self).wf(),
            final(self).lease() is None,
            grant_kept(*old(self), *final(self)),
            final(self).pixels().len() == old(self).pixels().len(),
            old(self).lease() is Some ==> all_dark(final(self).pixels()) && final(self).stop() == Some(reason),
            old(self).lease() is None ==> final(self).pixels() == old(self).pixels() && final(self).stop() == old(self).stop(),
    {
        if self.lease.take().is_some() {
            self.darken();
            self.reason = Some(reason);
        }
    }

    /// Whether the identification frame may be submitted at `now`. Every
    /// rejection consumes the lease; later healthy input cannot rearm it.
    pub fn tick(
        &mut self,
        device: DeviceConfig,
        selection: Option<(usize, usize)>,
        unlocked: bool,
        quiet: bool,
        output: &OutputState,
        now: u64,
    ) -> (sending: bool)
        requires
            old(self).wf(),
        ensures
            final(self).wf(),
            !sending ==> final(self).lease() is None && all_dark(final(self).pixels()),
            grant_kept(*old(self), *final(self)),
            sending ==> tick_sent(*old(self), *final(self), device, selection, unlocked, quiet, now),
            match old(self).lease() {
                None => !sending && final(self).lease() is None && final(self).pixels() == old(self).pixels() && final(self).stop() == old(self).stop(),
                Some(lease) => match stop_reason(
                    lease,
                    device,
                    selection,
                    unlocked,
                    quiet,
                    output.failure_epoch,
                    output.error is Some,
                    output.active,
                    now,
                ) {
                    Some(reason) => {
                        &&& !sending
                        &&& final(self).lease() is None
                        &&& final(self).stop() == Some(reason)
                        &&& all_dark(final(self).pixels())
                        &&& final(self).pixels().len() == old(self).pixels().len()
                    },
                    None => {
                        &&& sending
                        &&& final(self).lease() == Some(
                            Lease {
                                last_frame: now,
                                saw_sending: lease.saw_sending || output.active,
                                ..lease
                            },
                        )
                        &&& final(self).stop() == old(self).stop()
                        &&& selection matches Some((first, last)) && final(self).pixels()
                            == identify_frame(device.led_count as nat, first as int, last as int)
                    },
                },
            },
    {
        let lease = match self.lease {
            None => return false,
            Some(lease) => lease,
        };
        let elapsed = now.saturating_sub(lease.started);
        let failure = if device != lease.device {
            Some(StopReason::TargetChanged)
        } else if !unlocked {
            Some(StopReason::Locked)
        } else if quiet {
            Some(StopReason::Quiet)
        } else if elapsed >= LEASE_DURATION {
            Some(StopReason::Expired)
        } else if now < lease.last_frame || now - lease.last_frame >= PRODUCER_LIMIT {
            Some(StopReason::ProducerStalled)
        } else if match selection {
            None => true,
            Some((first, last)) => first > last || last >= device.led_count,
        } {
            Some(StopReason::InvalidSelection)
        } else if output.failure_epoch != lease.failure_epoch || (lease.saw_sending && (
        output.error.is_some() || !output.active)) || (elapsed >= ACQUISITION_LIMIT
            && !output.active) {
            Some(StopReason::OutputFailed)
        } else {
            None
        };
        if let Some(reason) = failure {
            self.cancel(reason);
            return false;
        }
        self.lease = Some(Lease { last_frame: now, saw_sending: lease.saw_sending || output.active, ..lease });
        self.darken();
        let ghost held = self.lease;
        let (first, last) = match selection {
            Some(s) => s,
            None => return false,
        };
        let mut i = first;
        while i <= last
            invariant
                first <= i,
                i <= last + 1,
                last < self.pixels@.len(),
                self.pixels@.len() == device.led_count,
                self.lease == held,
                self.reason == old(self).reason,
                forall|k: int| 0 <= k < self.pixels@.len() ==> #[trigger] self.pixels@[k] == (if first
                    <= k && k < i {
                    identify_color()
                } else {
                    dark()
                }),
            decreases last + 1 - i,
        {
            self.pixels.set(i, [25, 25, 25]);
            i += 1;
        }
        assert(self.pixels@ =~= identify_frame(device.led_count as nat, first as int, last as int));
        true
    }
}

} // verus!
