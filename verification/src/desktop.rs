//! Passive desktop metadata state. Notification text is never retained.
//!
//! Monotonic instants are nanosecond counts on one monotonic clock; durations
//! are nanoseconds.
use vstd::prelude::*;
use crate::text::texts;

pub mod linux;
pub mod macos_state;
pub mod windows_state;

verus! {

/// A lock observation older than this no longer counts as current.
pub const LOCK_FRESHNESS: u64 = 1_000_000_000;

/// A media observation older than this no longer counts as current.
pub const MEDIA_FRESHNESS: u64 = 3_000_000_000;

/// Capacity of the queue of notification events between the worker and the UI.
pub const NOTIFICATION_CAPACITY: usize = 64;

pub struct Notification {
    pub id: u32,
    pub generation: u64,
    pub application: String,
    pub urgency: u8,
    /// Monotonic instant at which the notification was created.
    pub received: u64,
}

pub enum NotificationEvent {
    Raised(Notification),
    Closed { generation: u64, id: u32, reason: u32 },
}

pub struct DesktopState {
    pub notification_status: String,
    pub notification_generation: u64,
    pub media_status: String,
    pub lock_status: String,
    pub locked: Option<bool>,
    pub playing: Vec<String>,
}

pub fn copy_texts(v: &Vec<String>) -> (out: Vec<String>)
    ensures
        texts(out@) == texts(v@),
{
    let mut out: Vec<String> = Vec::new();
    let mut i: usize = 0;
    while i < v.len()
        invariant
            i <= v@.len(),
            out@.len() == i,
            forall|k: int| 0 <= k < i ==> (#[trigger] out@[k])@ == v@[k]@,
        decreases v@.len() - i,
    {
        out.push(v[i].clone());
        i += 1;
    }
    assert(texts(out@) =~= texts(v@));
    out
}

impl DesktopState {
    /// Field-by-field copy.
    pub fn duplicate(&self) -> (out: DesktopState)
        ensures
            out.notification_status@ == self.notification_status@,
            out.notification_generation == self.notification_generation,
            out.media_status@ == self.media_status@,
            out.lock_status@ == self.lock_status@,
            out.locked == self.locked,
            texts(out.playing@) == texts(self.playing@),
    {
        DesktopState {
            notification_status: self.notification_status.clone(),
            notification_generation: self.notification_generation,
            media_status: self.media_status.clone(),
            lock_status: self.lock_status.clone(),
            locked: self.locked,
            playing: copy_texts(&self.playing),
        }
    }
}

/// Desktop state shared between the worker and the user interface.
pub struct SharedState {
    pub desktop: DesktopState,
    /// Monotonic instant of the last lock observation.
    pub lock_checked: Option<u64>,
    /// Monotonic instant of the last media observation.
    pub media_checked: Option<u64>,
}

/// A lock observation taken at `checked` is stale at `now`.
pub open spec fn lock_stale(checked: Option<u64>, now: u64) -> bool {
    match checked {
        None => true,
        Some(t) => now > t && now - t > LOCK_FRESHNESS,
    }
}

/// A media observation taken at `checked` is stale at `now`.
pub open spec fn media_stale(checked: Option<u64>, now: u64) -> bool {
    match checked {
        None => false,
        Some(t) => now > t && now - t > MEDIA_FRESHNESS,
    }
}

impl SharedState {
    pub fn new() -> (s: SharedState)
        ensures
            s.desktop.notification_status@ == "Connecting to notification monitor"@,
            s.desktop.notification_generation == 0,
            s.desktop.media_status@ == "Connecting to media services"@,
            s.desktop.lock_status@ == "Lock state unknown; lighting inhibited"@,
            s.desktop.locked.is_none(),
            s.desktop.playing@.len() == 0,
            s.lock_checked.is_none(),
            s.media_checked.is_none(),
    {
        SharedState {
            desktop: DesktopState {
                notification_status: "Connecting to notification monitor".to_owned(),
                notification_generation: 0,
                media_status: "Connecting to media services".to_owned(),
                lock_status: "Lock state unknown; lighting inhibited".to_owned(),
                locked: None,
                playing: Vec::new(),
            },
            lock_checked: None,
            media_checked: None,
        }
    }

    /// The state as the user interface may act on it at `now`: a missing or
    /// stale lock observation reads as unknown, stale media as nothing playing.
    pub fn snapshot(&self, now: u64) -> (out: DesktopState)
        ensures
            out.notification_status@ == self.desktop.notification_status@,
            out.notification_generation == self.desktop.notification_generation,
            out.locked == (if lock_stale(self.lock_checked, now) {
                None
            } else {
                self.desktop.locked
            }),
            out.lock_status@ == (if lock_stale(self.lock_checked, now) {
                "Lock state unknown or stale; lighting inhibited"@
            } else {
                self.desktop.lock_status@
            }),
            texts(out.playing@) == (if media_stale(self.media_checked, now) {
                Seq::empty()
            } else {
                texts(self.desktop.playing@)
            }),
            out.media_status@ == (if media_stale(self.media_checked, now) {
                "Media state stale; waiting for desktop services"@
            } else {
                self.desktop.media_status@
            }),
    {
        let mut desktop = self.desktop.duplicate();
        let lock_stale = match self.lock_checked {
            None => true,
            Some(checked) => now > checked && now - checked > LOCK_FRESHNESS,
        };
        if lock_stale {
            desktop.locked = None;
            desktop.lock_status = "Lock state unknown or stale; lighting inhibited".to_owned();
        }
        let media_stale = match self.media_checked {
            None => false,
            Some(checked) => now > checked && now - checked > MEDIA_FRESHNESS,
        };
        if media_stale {
            desktop.playing.clear();
            desktop.media_status = "Media state stale; waiting for desktop services".to_owned();
        }
        proof {
            if media_stale {
                assert(texts(desktop.playing@) =~= Seq::empty());
            }
        }
        desktop
    }

    /// Records a new notification status without a discontinuity.
    pub fn notification_status(&mut self, status: &str)
        ensures
            final(self).desktop.notification_status@ == status@,
            final(self).desktop.notification_generation == old(self).desktop.notification_generation,
            final(self).desktop.media_status@ == old(self).desktop.media_status@,
            final(self).desktop.lock_status@ == old(self).desktop.lock_status@,
            final(self).desktop.locked == old(self).desktop.locked,
            final(self).desktop.playing@ == old(self).desktop.playing@,
            final(self).lock_checked == old(self).lock_checked,
            final(self).media_checked == old(self).media_checked,
    {
        if !crate::text::str_eq(self.desktop.notification_status.as_str(), status) {
            self.desktop.notification_status = status.to_owned();
        }
    }

    /// Starts a new notification generation: every event of an earlier
    /// generation is void. Returns the new generation.
    pub fn notification_discontinuity(&mut self, status: &str) -> (generation: u64)
        ensures
            generation == final(self).desktop.notification_generation,
            generation == (if old(self).desktop.notification_generation == u64::MAX {
                0
            } else {
                (old(self).desktop.notification_generation + 1) as u64
            }),
            final(self).desktop.notification_status@ == status@,
            final(self).desktop.media_status@ == old(self).desktop.media_status@,
            final(self).desktop.lock_status@ == old(self).desktop.lock_status@,
            final(self).desktop.locked == old(self).desktop.locked,
            final(self).desktop.playing@ == old(self).desktop.playing@,
            final(self).lock_checked == old(self).lock_checked,
            final(self).media_checked == old(self).media_checked,
    {
        let generation = self.desktop.notification_generation.wrapping_add(1);
        self.desktop.notification_generation = generation;
        self.desktop.notification_status = status.to_owned();
        generation
    }

    /// Desktop services are unreachable: lock state becomes unknown and nothing
    /// counts as playing until the next observation.
    pub fn session_unavailable(&mut self, status: &str)
        ensures
            final(self).desktop.locked.is_none(),
            final(self).desktop.playing@.len() == 0,
            final(self).desktop.lock_status@ == status@ + "; lighting inhibited"@,
            final(self).desktop.media_status@ == status@,
            final(self).lock_checked.is_none(),
            final(self).media_checked.is_none(),
            final(self).desktop.notification_status@ == old(self).desktop.notification_status@,
            final(self).desktop.notification_generation == old(self).desktop.notification_generation,
    {
        self.desktop.locked = None;
        self.desktop.playing.clear();
        let mut lock_status = status.to_owned();
        lock_status.append("; lighting inhibited");
        self.desktop.lock_status = lock_status;
        self.desktop.media_status = status.to_owned();
        self.lock_checked = None;
        self.media_checked = None;
    }
}

} // verus!
