//! Reconciliation of Windows notification snapshots. Stores identifiers, never toast text.
use vstd::prelude::*;
use super::{Notification, NotificationEvent, SharedState};
use crate::text::{sorted_distinct, strictly_sorted, texts};

verus! {

/// Snapshots larger than this reset the lifecycle instead of being diffed.
pub const MAX_NOTIFICATIONS: usize = 4096;

/// 100 ns ticks between 1601-01-01 and the Unix epoch.
pub const WINDOWS_EPOCH_TICKS: u64 = 116_444_736_000_000_000;

pub struct Metadata {
    pub id: u32,
    pub application: String,
    /// Creation time in 100 ns ticks since 1601-01-01 UTC.
    pub created: i64,
}

pub struct MetadataView {
    pub id: u32,
    pub application: Seq<char>,
    pub created: i64,
}

impl View for Metadata {
    type V = MetadataView;

    open spec fn view(&self) -> MetadataView {
        MetadataView { id: self.id, application: self.application@, created: self.created }
    }
}

impl Metadata {
    pub fn same(&self, other: &Metadata) -> (r: bool)
        ensures
            r == (self@ == other@),
    {
        self.id == other.id && self.created == other.created
            && crate::text::str_eq(self.application.as_str(), other.application.as_str())
    }
}

pub open spec fn views(v: Seq<Metadata>) -> Seq<MetadataView> {
    v.map_values(|m: Metadata| m@)
}

/// No two records share an identifier.
pub open spec fn distinct_ids(v: Seq<MetadataView>) -> bool {
    forall|i: int, j: int| 0 <= i < j < v.len() ==> (#[trigger] v[i]).id != (#[trigger] v[j]).id
}

/// What an event carries, as plain values.
pub enum EventView {
    Raised { id: u32, generation: u64, application: Seq<char>, urgency: u8, received: u64 },
    Closed { generation: u64, id: u32, reason: u32 },
}

impl View for NotificationEvent {
    type V = EventView;

    open spec fn view(&self) -> EventView {
        match self {
            NotificationEvent::Raised(n) => EventView::Raised {
                id: n.id,
                generation: n.generation,
                application: n.application@,
                urgency: n.urgency,
                received: n.received,
            },
            NotificationEvent::Closed { generation, id, reason } => EventView::Closed {
                generation: *generation,
                id: *id,
                reason: *reason,
            },
        }
    }
}

pub open spec fn event_views(v: Seq<NotificationEvent>) -> Seq<EventView> {
    v.map_values(|e: NotificationEvent| e@)
}

/// The monotonic instant at which a notification created at `created`
/// (Windows ticks) was raised, given the wall clock `wall` (nanoseconds since
/// the Unix epoch; `None` before it) read at the monotonic instant `now`.
/// Invalid, future and unrepresentably old timestamps give `None`.
pub open spec fn received_at(created: i64, wall: Option<u128>, now: u64) -> Option<u64> {
    match wall {
        None => None,
        Some(w) => if created < 0 || (created as int) < WINDOWS_EPOCH_TICKS {
            None
        } else {
            let c = ((created as int) - WINDOWS_EPOCH_TICKS) * 100;
            if (w as int) < c || (w as int) - c > (now as int) {
                None
            } else {
                Some((now - ((w as int) - c)) as u64)
            }
        },
    }
}

pub fn notification_received(created: i64, wall: Option<u128>, now: u64) -> (r: Option<u64>)
    ensures
        r == received_at(created, wall, now),
{
    if created < 0 {
        return None;
    }
    let ticks = created as u64;
    if ticks < WINDOWS_EPOCH_TICKS {
        return None;
    }
    let since = (ticks - WINDOWS_EPOCH_TICKS) as u128 * 100;
    let w = match wall {
        Some(w) => w,
        None => return None,
    };
    if w < since {
        return None;
    }
    let age = w - since;
    if age > now as u128 {
        return None;
    }
    Some(now - age as u64)
}

/// Close events, in previous-snapshot order, for every previous record that
/// the current snapshot no longer holds unchanged.
pub open spec fn closes(previous: Seq<MetadataView>, current: Seq<MetadataView>, generation: u64) -> Seq<EventView>
    decreases previous.len(),
{
    if previous.len() == 0 {
        Seq::empty()
    } else {
        let rest = closes(previous.drop_last(), current, generation);
        if current.contains(previous.last()) {
            rest
        } else {
            rest.push(EventView::Closed { generation, id: previous.last().id, reason: 3 })
        }
    }
}

/// Raise events, in current-snapshot order, for every record that is new or
/// changed and whose creation time is still representable as fresh.
pub open spec fn raises(
    previous: Seq<MetadataView>,
    current: Seq<MetadataView>,
    generation: u64,
    now: u64,
    wall: Option<u128>,
) -> Seq<EventView>
    decreases current.len(),
{
    if current.len() == 0 {
        Seq::empty()
    } else {
        let rest = raises(previous, current.drop_last(), generation, now, wall);
        let r = current.last();
        if previous.contains(r) || received_at(r.created, wall, now) is None {
            rest
        } else {
            rest.push(EventView::Raised {
                id: r.id,
                generation,
                application: r.application,
                urgency: 1,
                received: received_at(r.created, wall, now)->0,
            })
        }
    }
}

/// Everything of the shared state except the notification status and generation.
pub open spec fn same_session(a: SharedState, b: SharedState) -> bool {
    &&& a.desktop.media_status@ == b.desktop.media_status@
    &&& a.desktop.lock_status@ == b.desktop.lock_status@
    &&& a.desktop.locked == b.desktop.locked
    &&& a.desktop.playing@ == b.desktop.playing@
    &&& a.lock_checked == b.lock_checked
    &&& a.media_checked == b.media_checked
}

/// `new` is `old` after a disconnect with `status`: a connected lifecycle
/// starts a new generation, a disconnected one only changes the status.
pub open spec fn disconnected(was_connected: bool, old: SharedState, new: SharedState, status: Seq<char>) -> bool {
    &&& new.desktop.notification_status@ == status
    &&& new.desktop.notification_generation == (if was_connected {
        if old.desktop.notification_generation == u64::MAX {
            0
        } else {
            (old.desktop.notification_generation + 1) as u64
        }
    } else {
        old.desktop.notification_generation
    })
    &&& same_session(old, new)
}

pub struct Notifications {
    previous: Vec<Metadata>,
    connected: bool,
}

impl Notifications {
    pub closed spec fn previous(&self) -> Seq<MetadataView> {
        views(self.previous@)
    }

    pub closed spec fn is_connected(&self) -> bool {
        self.connected
    }

    /// A disconnected reducer that holds no records.
    pub fn new() -> (n: Notifications)
        ensures
            !n.is_connected(),
            n.previous().len() == 0,
    {
        let n = Notifications { previous: Vec::new(), connected: false };
        assert(n.previous() =~= Seq::empty());
        n
    }

    pub fn connected(&self) -> (r: bool)
        ensures
            r == self.is_connected(),
    {
        self.connected
    }

    /// Ends the current lifecycle; the next snapshot is a new baseline.
    pub fn disconnect(&mut self, shared: &mut SharedState, status: &str)
        ensures
            !final(self).is_connected(),
            final(self).previous().len() == 0,
            disconnected(old(self).is_connected(), *old(shared), *final(shared), status@),
    {
        if self.connected {
            shared.notification_discontinuity(status);
        } else {
            shared.notification_status(status);
        }
        self.connected = false;
        self.previous.clear();
        assert(self.previous() =~= Seq::empty());
    }

    /// Called when an event of this lifecycle could not be delivered: events
    /// already queued are voided by the generation change.
    pub fn queue_lost(&mut self, shared: &mut SharedState)
        ensures
            !final(self).is_connected(),
            final(self).previous().len() == 0,
            disconnected(
                old(self).is_connected(),
                *old(shared),
                *final(shared),
                "Windows notification queue overflow; lighting lifecycle reset"@,
            ),
    {
        self.disconnect(shared, "Windows notification queue overflow; lighting lifecycle reset");
    }

    /// Diffs a complete snapshot against the previous one and returns the
    /// events to deliver in order. The first snapshot of a lifecycle is a
    /// baseline and is never replayed. If delivering any returned event fails,
    /// the caller must call `queue_lost`.
    pub fn reconcile(
        &mut self,
        records: Vec<Metadata>,
        shared: &mut SharedState,
        now: u64,
        wall: Option<u128>,
    ) -> (events: Vec<NotificationEvent>)
        ensures
            ({
                let current = views(records@);
                let generation = old(shared).desktop.notification_generation;
                if current.len() > MAX_NOTIFICATIONS {
                    &&& events@.len() == 0
                    &&& !final(self).is_connected()
                    &&& final(self).previous().len() == 0
                    &&& disconnected(
                        old(self).is_connected(),
                        *old(shared),
                        *final(shared),
                        "Notification snapshot too large; lighting lifecycle reset"@,
                    )
                } else if !distinct_ids(current) {
                    &&& events@.len() == 0
                    &&& !final(self).is_connected()
                    &&& final(self).previous().len() == 0
                    &&& disconnected(
                        old(self).is_connected(),
                        *old(shared),
                        *final(shared),
                        "Notification identifiers ambiguous; lighting lifecycle reset"@,
                    )
                } else {
                    &&& final(self).is_connected()
                    &&& final(self).previous() == current
                    &&& final(shared).desktop.notification_status@ == "Monitoring Windows notifications (metadata only)"@
                    &&& final(shared).desktop.notification_generation == generation
                    &&& same_session(*old(shared), *final(shared))
                    &&& event_views(events@) == (if old(self).is_connected() {
                        closes(old(self).previous(), current, generation) + raises(
                            old(self).previous(),
                            current,
                            generation,
                            now,
                            wall,
                        )
                    } else {
                        Seq::empty()
                    })
                }
            }),
    {
        let mut events: Vec<NotificationEvent> = Vec::new();
        if records.len() > MAX_NOTIFICATIONS {
            self.disconnect(shared, "Notification snapshot too large; lighting lifecycle reset");
            return events;
        }
        let ghost current = views(records@);
        let mut i: usize = 0;
        while i < records.len()
            invariant
                i <= records@.len(),
                records@.len() <= MAX_NOTIFICATIONS,
                events@.len() == 0,
                *self == *old(self),
                *shared == *old(shared),
                current == views(records@),
                forall|a: int, b: int| 0 <= a < b < i ==> (#[trigger] current[a]).id != (#[trigger] current[b]).id,
            decreases records@.len() - i,
        {
            let mut j: usize = 0;
            while j < i
                invariant
                    i < records@.len(),
                    records@.len() <= MAX_NOTIFICATIONS,
                    events@.len() == 0,
                    *self == *old(self),
                    *shared == *old(shared),
                    j <= i,
                    current == views(records@),
                    forall|b: int| 0 <= b < j ==> (#[trigger] current[b]).id != current[i as int].id,
                decreases i - j,
            {
                if records[j].id == records[i].id {
                    assert(current[j as int].id == current[i as int].id);
                    assert(!distinct_ids(current));
                    self.disconnect(shared, "Notification identifiers ambiguous; lighting lifecycle reset");
                    return events;
                }
                j += 1;
            }
            i += 1;
        }
        assert(distinct_ids(current));
        if !self.connected {
            // The first snapshot after startup, denial or a lost connection is a
            // baseline, not a batch of new toasts.
            self.previous = records;
            self.connected = true;
            shared.notification_status("Monitoring Windows notifications (metadata only)");
            assert(event_views(events@) =~= Seq::empty());
            return events;
        }
        let generation = shared.desktop.notification_generation;
        let ghost previous = self.previous();
        let mut i: usize = 0;
        while i < self.previous.len()
            invariant
                i <= self.previous@.len(),
                *self == *old(self),
                *shared == *old(shared),
                generation == shared.desktop.notification_generation,
                previous == views(self.previous@),
                current == views(records@),
                event_views(events@) == closes(previous.subrange(0, i as int), current, generation),
            decreases self.previous@.len() - i,
        {
            let found = contains(&records, &self.previous[i]);
            assert(previous.subrange(0, i + 1).drop_last() =~= previous.subrange(0, i as int));
            if !found {
                events.push(NotificationEvent::Closed { generation, id: self.previous[i].id, reason: 3 });
            }
            assert(event_views(events@) =~= closes(previous.subrange(0, i + 1), current, generation));
            i += 1;
        }
        assert(previous.subrange(0, i as int) =~= previous);
        let ghost closed = event_views(events@);
        let mut k: usize = 0;
        while k < records.len()
            invariant
                k <= records@.len(),
                *self == *old(self),
                *shared == *old(shared),
                generation == shared.desktop.notification_generation,
                previous == views(self.previous@),
                current == views(records@),
                event_views(events@) == closed + raises(previous, current.subrange(0, k as int), generation, now, wall),
            decreases records@.len() - k,
        {
            let record = &records[k];
            let known = contains(&self.previous, record);
            assert(current.subrange(0, k + 1).drop_last() =~= current.subrange(0, k as int));
            assert(current.subrange(0, k + 1).last() == record@);
            let ghost before = event_views(events@);
            let ghost rest = raises(previous, current.subrange(0, k as int), generation, now, wall);
            if !known {
                if let Some(received) = notification_received(record.created, wall, now) {
                    let event = NotificationEvent::Raised(Notification {
                        id: record.id,
                        generation,
                        application: record.application.clone(),
                        urgency: 1,
                        received,
                    });
                    assert(event@ == EventView::Raised {
                        id: record@.id,
                        generation,
                        application: record@.application,
                        urgency: 1,
                        received: received_at(record@.created, wall, now)->0,
                    });
                    events.push(event);
                    assert(event_views(events@) =~= before.push(event@));
                    assert(raises(previous, current.subrange(0, k + 1), generation, now, wall) == rest.push(event@));
                } else {
                    assert(raises(previous, current.subrange(0, k + 1), generation, now, wall) == rest);
                }
            } else {
                assert(raises(previous, current.subrange(0, k + 1), generation, now, wall) == rest);
            }
            assert(event_views(events@) =~= closed + raises(previous, current.subrange(0, k + 1), generation, now, wall));
            k += 1;
        }
        assert(current.subrange(0, k as int) =~= current);
        self.previous = records;
        shared.notification_status("Monitoring Windows notifications (metadata only)");
        events
    }
}

/// Whether `records` holds a record equal to `target`.
fn contains(records: &Vec<Metadata>, target: &Metadata) -> (r: bool)
    ensures
        r == views(records@).contains(target@),
{
    let mut i: usize = 0;
    while i < records.len()
        invariant
            i <= records@.len(),
            forall|j: int| 0 <= j < i ==> (#[trigger] records@[j])@ != target@,
        decreases records@.len() - i,
    {
        if records[i].same(target) {
            assert(views(records@)[i as int] == target@);
            return true;
        }
        i += 1;
    }
    proof {
        if views(records@).contains(target@) {
            let j = choose|j: int| 0 <= j < views(records@).len() && views(records@)[j] == target@;
            assert(records@[j]@ == target@);
        }
    }
    false
}

/// The lock state reported by Windows: an inactive (disconnected) session is
/// locked; an active session is locked, unlocked or unknown by its flags.
pub fn session_locked(active: bool, flags: i32) -> (r: Option<bool>)
    ensures
        r == (if !active {
            Some(true)
        } else if flags == 0 {
            Some(true)
        } else if flags == 1 {
            Some(false)
        } else {
            None
        }),
{
    if !active {
        Some(true)
    } else {
        match flags {
            0 => Some(true),
            1 => Some(false),
            _ => None,
        }
    }
}

/// Records a lock observation made at `now`.
pub fn update_lock(shared: &mut SharedState, locked: Option<bool>, now: u64)
    ensures
        final(shared).desktop.locked == locked,
        final(shared).desktop.lock_status@ == (match locked {
            Some(false) => "Windows session unlocked"@,
            Some(true) => "Windows session locked or disconnected; lighting inhibited"@,
            None => "Windows lock state unavailable; lighting inhibited"@,
        }),
        final(shared).lock_checked == Some(now),
        final(shared).media_checked == old(shared).media_checked,
        final(shared).desktop.playing@ == old(shared).desktop.playing@,
        final(shared).desktop.media_status@ == old(shared).desktop.media_status@,
        final(shared).desktop.notification_status@ == old(shared).desktop.notification_status@,
        final(shared).desktop.notification_generation == old(shared).desktop.notification_generation,
{
    shared.desktop.locked = locked;
    shared.desktop.lock_status = match locked {
        Some(false) => "Windows session unlocked",
        Some(true) => "Windows session locked or disconnected; lighting inhibited",
        None => "Windows lock state unavailable; lighting inhibited",
    }.to_owned();
    shared.lock_checked = Some(now);
}

/// Records a media observation made at `now`: the distinct playing
/// applications in ascending order, or nothing when media is unavailable.
pub fn update_media(shared: &mut SharedState, playing: Option<Vec<String>>, now: u64)
    ensures
        match playing {
            Some(apps) => {
                &&& strictly_sorted(texts(final(shared).desktop.playing@))
                &&& forall|t: Seq<char>|
                    texts(final(shared).desktop.playing@).contains(t) <==> texts(apps@).contains(t)
                &&& final(shared).desktop.media_status@ == "Monitoring Windows media playback"@
            },
            None => {
                &&& final(shared).desktop.playing@.len() == 0
                &&& final(shared).desktop.media_status@ == "Windows media unavailable; retrying"@
            },
        },
        final(shared).media_checked == Some(now),
        final(shared).lock_checked == old(shared).lock_checked,
        final(shared).desktop.locked == old(shared).desktop.locked,
        final(shared).desktop.lock_status@ == old(shared).desktop.lock_status@,
        final(shared).desktop.notification_status@ == old(shared).desktop.notification_status@,
        final(shared).desktop.notification_generation == old(shared).desktop.notification_generation,
{
    match playing {
        Some(applications) => {
            shared.desktop.playing = sorted_distinct(applications);
            shared.desktop.media_status = "Monitoring Windows media playback".to_owned();
        },
        None => {
            shared.desktop.playing.clear();
            shared.desktop.media_status = "Windows media unavailable; retrying".to_owned();
        },
    }
    shared.media_checked = Some(now);
}

} // verus!
