//! Reconciliation of macOS delivery membership, never notification contents,
//! and the lock and media observations of the macOS desktop services.
use vstd::prelude::*;
use super::{Notification, NotificationEvent, SharedState};
use super::windows_state::{EventView, disconnected, event_views, same_session};
use crate::text::{byte_len, no_controls, texts, trim};

verus! {

/// An application identity usable in notification metadata: 1–512 bytes, no
/// surrounding whitespace, no control characters.
pub open spec fn is_valid_application(value: Seq<char>) -> bool {
    &&& value.len() > 0
    &&& byte_len(value) <= 512
    &&& trim(value) == value
    &&& no_controls(value)
}

pub fn valid_application(value: &str) -> (r: bool)
    ensures
        r == is_valid_application(value@),
{
    let chars = crate::text::chars_of(value);
    chars.len() > 0 && crate::text::str_byte_len(value) <= 512 && crate::text::is_trimmed(
        &chars,
    ) && {
        let r = crate::text::controls_absent(&chars, 0, chars.len());
        assert(chars@.subrange(0, chars@.len() as int) =~= chars@);
        r
    }
}

/// Records a lock observation made at `observed`.
pub fn update_lock(shared: &mut SharedState, locked: Option<bool>, observed: u64)
    ensures
        final(shared).desktop.locked == locked,
        final(shared).desktop.lock_status@ == (match locked {
            Some(false) => "macOS console session unlocked"@,
            Some(true) => "macOS session locked or disconnected; lighting inhibited"@,
            None => "macOS lock state unavailable; lighting inhibited"@,
        }),
        final(shared).lock_checked == Some(observed),
        final(shared).media_checked == old(shared).media_checked,
        final(shared).desktop.playing@ == old(shared).desktop.playing@,
        final(shared).desktop.media_status@ == old(shared).desktop.media_status@,
        final(shared).desktop.notification_status@ == old(shared).desktop.notification_status@,
        final(shared).desktop.notification_generation == old(shared).desktop.notification_generation,
{
    shared.desktop.locked = locked;
    shared.desktop.lock_status = match locked {
        Some(false) => "macOS console session unlocked",
        Some(true) => "macOS session locked or disconnected; lighting inhibited",
        None => "macOS lock state unavailable; lighting inhibited",
    }.to_owned();
    shared.lock_checked = Some(observed);
}

/// Records an audio-output observation made at `observed`; unavailable
/// activity reads as nothing playing.
pub fn update_media(shared: &mut SharedState, playing: Option<Vec<String>>, observed: u64)
    ensures
        final(shared).desktop.media_status@ == (if playing is Some {
            "Monitoring CoreAudio output activity (includes calls and silent streams)"@
        } else {
            "CoreAudio output activity unavailable; retrying"@
        }),
        texts(final(shared).desktop.playing@) == (match playing {
            Some(apps) => texts(apps@),
            None => Seq::empty(),
        }),
        final(shared).media_checked == Some(observed),
        final(shared).lock_checked == old(shared).lock_checked,
        final(shared).desktop.locked == old(shared).desktop.locked,
        final(shared).desktop.lock_status@ == old(shared).desktop.lock_status@,
        final(shared).desktop.notification_status@ == old(shared).desktop.notification_status@,
        final(shared).desktop.notification_generation == old(shared).desktop.notification_generation,
{
    shared.desktop.media_status = if playing.is_some() {
        "Monitoring CoreAudio output activity (includes calls and silent streams)"
    } else {
        "CoreAudio output activity unavailable; retrying"
    }.to_owned();
    shared.desktop.playing = match playing {
        Some(apps) => apps,
        None => Vec::new(),
    };
    assert(playing is None ==> texts(shared.desktop.playing@) =~= Seq::empty());
    shared.media_checked = Some(observed);
}

/// Snapshots larger than this reset the lifecycle instead of being diffed.
pub const MAX_NOTIFICATIONS: usize = 4096;

/// One delivered notification as read from the notification database: its
/// record identifier and application, the bit pattern of its creation time
/// (seconds since 2001 as a float, which identifies a delivery; negative
/// zero is the same time as zero), whether that
/// time is a finite, non-negative number, and the monotonic instant at which
/// it was created, where that instant is representable and not in the future.
pub struct Metadata {
    pub id: i64,
    pub application: String,
    pub created: u64,
    pub created_valid: bool,
    pub received: Option<u64>,
}

pub struct MetadataView {
    pub id: i64,
    pub application: Seq<char>,
    pub created: u64,
    pub created_valid: bool,
    pub received: Option<u64>,
}

impl View for Metadata {
    type V = MetadataView;

    open spec fn view(&self) -> MetadataView {
        MetadataView {
            id: self.id,
            application: self.application@,
            created: self.created,
            created_valid: self.created_valid,
            received: self.received,
        }
    }
}

pub open spec fn views(v: Seq<Metadata>) -> Seq<MetadataView> {
    v.map_values(|m: Metadata| m@)
}

/// The bit pattern of negative zero, which is the same creation time as zero.
pub const NEGATIVE_ZERO: u64 = 0x8000_0000_0000_0000;

/// A creation time's bit pattern with negative zero read as zero, so that
/// equal times compare equal.
pub open spec fn creation_key(bits: u64) -> u64 {
    if bits == NEGATIVE_ZERO { 0 } else { bits }
}

fn same_creation(a: u64, b: u64) -> (r: bool)
    ensures
        r == (creation_key(a) == creation_key(b)),
{
    let ka = if a == NEGATIVE_ZERO { 0 } else { a };
    let kb = if b == NEGATIVE_ZERO { 0 } else { b };
    ka == kb
}

/// Two records describe the same delivery: same record, application and
/// creation time.
pub open spec fn same_delivery(a: MetadataView, b: MetadataView) -> bool {
    a.id == b.id && a.application == b.application && creation_key(a.created) == creation_key(b.created)
}

/// A delivery being tracked, and the identifier its events carry.
pub type TrackedView = (MetadataView, u32);

pub open spec fn tracked_views(v: Seq<(Metadata, u32)>) -> Seq<TrackedView> {
    v.map_values(|t: (Metadata, u32)| (t.0@, t.1))
}

/// Why a snapshot cannot be reconciled.
pub enum SnapshotError {
    Ambiguous,
    Exhausted,
}

/// Some tracked delivery is record `id`.
pub open spec fn has_record(t: Seq<TrackedView>, id: i64) -> bool {
    exists|k: int| 0 <= k < t.len() && (#[trigger] t[k]).0.id == id
}

/// The event identifier of the first tracked delivery of record `id`.
pub open spec fn event_of(t: Seq<TrackedView>, id: i64) -> Option<u32>
    decreases t.len(),
{
    if t.len() == 0 {
        None
    } else {
        match event_of(t.drop_last(), id) {
            Some(e) => Some(e),
            None => if t.last().0.id == id { Some(t.last().1) } else { None },
        }
    }
}

/// The records of `records` with their event identifiers, and the last
/// identifier handed out, starting from `next`. A record keeps the identifier
/// of its previous delivery; a new record takes the next one. Records with a
/// negative or repeated identifier, an unusable application or an invalid
/// creation time make the snapshot ambiguous; running out of identifiers
/// exhausts it. The first failing record decides.
pub open spec fn assigned(previous: Seq<TrackedView>, records: Seq<MetadataView>, next: u32) -> Result<(Seq<TrackedView>, u32), SnapshotError>
    decreases records.len(),
{
    if records.len() == 0 {
        Ok((Seq::empty(), next))
    } else {
        match assigned(previous, records.drop_last(), next) {
            Err(e) => Err(e),
            Ok((current, n)) => {
                let r = records.last();
                if r.id < 0 || !is_valid_application(r.application) || !r.created_valid || has_record(current, r.id) {
                    Err(SnapshotError::Ambiguous)
                } else {
                    match event_of(previous, r.id) {
                        Some(e) => Ok((current.push((r, e)), n)),
                        None => if n == u32::MAX {
                            Err(SnapshotError::Exhausted)
                        } else {
                            Ok((current.push((r, (n + 1) as u32)), (n + 1) as u32))
                        },
                    }
                }
            },
        }
    }
}

/// Some delivery of `t` is the same as `m`.
pub open spec fn tracks(t: Seq<TrackedView>, m: MetadataView) -> bool {
    exists|k: int| 0 <= k < t.len() && same_delivery((#[trigger] t[k]).0, m)
}

/// Close events, in previous order, for every previous delivery that the
/// current snapshot no longer holds unchanged.
pub open spec fn closes(previous: Seq<TrackedView>, current: Seq<TrackedView>, generation: u64) -> Seq<EventView>
    decreases previous.len(),
{
    if previous.len() == 0 {
        Seq::empty()
    } else {
        let rest = closes(previous.drop_last(), current, generation);
        if tracks(current, previous.last().0) {
            rest
        } else {
            rest.push(EventView::Closed { generation, id: previous.last().1, reason: 3 })
        }
    }
}

/// Raise events, in current order, for every delivery that is new or changed
/// and whose creation instant is representable.
pub open spec fn raises(previous: Seq<TrackedView>, current: Seq<TrackedView>, generation: u64) -> Seq<EventView>
    decreases current.len(),
{
    if current.len() == 0 {
        Seq::empty()
    } else {
        let rest = raises(previous, current.drop_last(), generation);
        let (r, e) = current.last();
        if tracks(previous, r) || r.received is None {
            rest
        } else {
            rest.push(EventView::Raised {
                id: e,
                generation,
                application: r.application,
                urgency: 1,
                received: r.received->0,
            })
        }
    }
}

/// The ambiguous snapshot, exhausted identifier and queue-loss statuses.
pub open spec fn failure_status(e: SnapshotError) -> Seq<char> {
    match e {
        SnapshotError::Ambiguous => "macOS notification metadata is ambiguous; lifecycle reset"@,
        SnapshotError::Exhausted => "macOS notification identifiers exhausted; lifecycle reset"@,
    }
}

/// The deliveries of the previous snapshot and the identifiers handed out in
/// the current lifecycle.
pub struct Notifications {
    previous: Vec<(Metadata, u32)>,
    connected: bool,
    next_id: u32,
}

fn copy_metadata(m: &Metadata) -> (r: Metadata)
    ensures
        r@ == m@,
{
    Metadata {
        id: m.id,
        application: m.application.clone(),
        created: m.created,
        created_valid: m.created_valid,
        received: m.received,
    }
}

impl Notifications {
    pub closed spec fn previous(&self) -> Seq<TrackedView> {
        tracked_views(self.previous@)
    }

    pub closed spec fn is_connected(&self) -> bool {
        self.connected
    }

    pub closed spec fn last_id(&self) -> u32 {
        self.next_id
    }

    /// A disconnected reducer that tracks nothing.
    pub fn new() -> (n: Notifications)
        ensures
            !n.is_connected(),
            n.previous().len() == 0,
            n.last_id() == 0,
    {
        let n = Notifications { previous: Vec::new(), connected: false, next_id: 0 };
        assert(n.previous() =~= Seq::empty());
        n
    }

    pub fn connected(&self) -> (r: bool)
        ensures
            r == self.is_connected(),
    {
        self.connected
    }

    /// Ends the current lifecycle; the next snapshot is a new baseline and
    /// identifiers start again.
    pub fn disconnect(&mut self, shared: &mut SharedState, status: &str)
        ensures
            !final(self).is_connected(),
            final(self).previous().len() == 0,
            final(self).last_id() == 0,
            disconnected(old(self).is_connected(), *old(shared), *final(shared), status@),
    {
        if self.connected {
            shared.notification_discontinuity(status);
        } else {
            shared.notification_status(status);
        }
        self.previous.clear();
        self.connected = false;
        self.next_id = 0;
        assert(self.previous() =~= Seq::empty());
    }

    /// Called when an event of this lifecycle could not be delivered: events
    /// already queued are voided by the generation change.
    pub fn queue_lost(&mut self, shared: &mut SharedState)
        ensures
            !final(self).is_connected(),
            final(self).previous().len() == 0,
            final(self).last_id() == 0,
            disconnected(
                old(self).is_connected(),
                *old(shared),
                *final(shared),
                "macOS notification queue lost events; lifecycle reset"@,
            ),
    {
        self.disconnect(shared, "macOS notification queue lost events; lifecycle reset");
    }

    fn event_for(&self, id: i64) -> (r: Option<u32>)
        ensures
            r == event_of(self.previous(), id),
    {
        let ghost p = self.previous();
        let mut i: usize = 0;
        while i < self.previous.len()
            invariant
                i <= self.previous@.len(),
                p == tracked_views(self.previous@),
                event_of(p.take(i as int), id) is None,
            decreases self.previous@.len() - i,
        {
            assert(p.take(i + 1).drop_last() =~= p.take(i as int));
            if self.previous[i].0.id == id {
                assert(event_of(p.take(i + 1), id) == Some(self.previous@[i as int].1));
                proof {
                    lemma_event_prefix(p, i + 1, id);
                }
                return Some(self.previous[i].1);
            }
            i += 1;
        }
        assert(p.take(i as int) =~= p);
        None
    }

    /// Diffs a complete snapshot against the previous one and returns the
    /// events to deliver in order. The first snapshot of a lifecycle is a
    /// baseline and is never replayed. If delivering any returned event fails,
    /// the caller must call `queue_lost`.
    pub fn reconcile(&mut self, records: Vec<Metadata>, shared: &mut SharedState) -> (events: Vec<NotificationEvent>)
        ensures
            ({
                let generation = old(shared).desktop.notification_generation;
                if records@.len() > MAX_NOTIFICATIONS {
                    &&& events@.len() == 0
                    &&& !final(self).is_connected()
                    &&& final(self).previous().len() == 0
                    &&& final(self).last_id() == 0
                    &&& disconnected(
                        old(self).is_connected(),
                        *old(shared),
                        *final(shared),
                        "macOS notification snapshot exceeds its limit; lifecycle reset"@,
                    )
                } else {
                    match assigned(old(self).previous(), views(records@), old(self).last_id()) {
                        Err(e) => {
                            &&& events@.len() == 0
                            &&& !final(self).is_connected()
                            &&& final(self).previous().len() == 0
                            &&& final(self).last_id() == 0
                            &&& disconnected(old(self).is_connected(), *old(shared), *final(shared), failure_status(e))
                        },
                        Ok((current, next)) => {
                            &&& final(self).is_connected()
                            &&& final(self).previous() == current
                            &&& final(self).last_id() == next
                            &&& final(shared).desktop.notification_status@ == "Monitoring macOS notification identities (read-only private schema)"@
                            &&& final(shared).desktop.notification_generation == generation
                            &&& same_session(*old(shared), *final(shared))
                            &&& event_views(events@) == (if old(self).is_connected() {
                                closes(old(self).previous(), current, generation) + raises(old(self).previous(), current, generation)
                            } else {
                                Seq::empty()
                            })
                        },
                    }
                }
            }),
            reconciled(*old(self), views(records@), old(shared).desktop.notification_generation, *final(self),
                final(shared).desktop.notification_generation, event_views(events@)),
    {
        let mut events: Vec<NotificationEvent> = Vec::new();
        if records.len() > MAX_NOTIFICATIONS {
            self.disconnect(shared, "macOS notification snapshot exceeds its limit; lifecycle reset");
            return events;
        }
        let ghost rv = views(records@);
        let ghost previous = self.previous();
        let mut current: Vec<(Metadata, u32)> = Vec::new();
        let mut next = self.next_id;
        let mut i: usize = 0;
        assert(rv.take(0) =~= Seq::<MetadataView>::empty());
        assert(tracked_views(current@) =~= Seq::<TrackedView>::empty());
        while i < records.len()
            invariant
                i <= records@.len(),
                records@.len() <= MAX_NOTIFICATIONS,
                events@.len() == 0,
                *self == *old(self),
                *shared == *old(shared),
                rv == views(records@),
                previous == self.previous(),
                assigned(previous, rv.take(i as int), self.last_id()) == Ok::<(Seq<TrackedView>, u32), SnapshotError>((tracked_views(current@), next)),
            decreases records@.len() - i,
        {
            let r = &records[i];
            let ghost cv = tracked_views(current@);
            assert(rv.take(i + 1).drop_last() =~= rv.take(i as int));
            assert(rv.take(i + 1).last() == r@);
            let mut dup = false;
            let mut j: usize = 0;
            while j < current.len()
                invariant
                    j <= current@.len(),
                    cv == tracked_views(current@),
                    !dup ==> forall|k: int| 0 <= k < j ==> (#[trigger] cv[k]).0.id != r.id,
                    dup ==> has_record(cv, r.id),
                decreases current@.len() - j,
            {
                if current[j].0.id == r.id {
                    assert(cv[j as int].0.id == r.id);
                    dup = true;
                }
                j += 1;
            }
            if r.id < 0 || !valid_application(r.application.as_str()) || !r.created_valid || dup {
                proof {
                    lemma_assigned_error(previous, rv, i as int + 1, self.last_id(), SnapshotError::Ambiguous);
                }
                self.disconnect(shared, "macOS notification metadata is ambiguous; lifecycle reset");
                return events;
            }
            let event = match self.event_for(r.id) {
                Some(e) => e,
                None => {
                    if next == u32::MAX {
                        proof {
                            lemma_assigned_error(previous, rv, i as int + 1, self.last_id(), SnapshotError::Exhausted);
                        }
                        self.disconnect(shared, "macOS notification identifiers exhausted; lifecycle reset");
                        return events;
                    }
                    next = next + 1;
                    next
                },
            };
            current.push((copy_metadata(r), event));
            assert(tracked_views(current@) =~= cv.push((r@, event)));
            i += 1;
        }
        assert(rv.take(i as int) =~= rv);
        let ghost cur = tracked_views(current@);
        if !self.connected {
            // The first snapshot after startup, denial or a lost connection is a
            // baseline, not a batch of new deliveries.
            self.previous = current;
            self.connected = true;
            self.next_id = next;
            shared.notification_status("Monitoring macOS notification identities (read-only private schema)");
            assert(event_views(events@) =~= Seq::empty());
            return events;
        }
        let generation = shared.desktop.notification_generation;
        let mut i: usize = 0;
        while i < self.previous.len()
            invariant
                i <= self.previous@.len(),
                *self == *old(self),
                *shared == *old(shared),
                generation == shared.desktop.notification_generation,
                previous == tracked_views(self.previous@),
                cur == tracked_views(current@),
                event_views(events@) == closes(previous.take(i as int), cur, generation),
            decreases self.previous@.len() - i,
        {
            let found = holds(&current, &self.previous[i].0);
            assert(previous.take(i + 1).drop_last() =~= previous.take(i as int));
            assert(previous.take(i + 1).last() == previous[i as int]);
            if !found {
                events.push(NotificationEvent::Closed { generation, id: self.previous[i].1, reason: 3 });
            }
            assert(event_views(events@) =~= closes(previous.take(i + 1), cur, generation));
            i += 1;
        }
        assert(previous.take(i as int) =~= previous);
        let ghost closed = event_views(events@);
        let mut k: usize = 0;
        while k < current.len()
            invariant
                k <= current@.len(),
                *self == *old(self),
                *shared == *old(shared),
                generation == shared.desktop.notification_generation,
                previous == tracked_views(self.previous@),
                cur == tracked_views(current@),
                event_views(events@) == closed + raises(previous, cur.take(k as int), generation),
            decreases current@.len() - k,
        {
            let entry = &current[k];
            let known = holds(&self.previous, &entry.0);
            assert(cur.take(k + 1).drop_last() =~= cur.take(k as int));
            assert(cur.take(k + 1).last() == (entry.0@, entry.1));
            let ghost before = event_views(events@);
            let ghost rest = raises(previous, cur.take(k as int), generation);
            if !known {
                if let Some(received) = entry.0.received {
                    let event = NotificationEvent::Raised(Notification {
                        id: entry.1,
                        generation,
                        application: entry.0.application.clone(),
                        urgency: 1,
                        received,
                    });
                    events.push(event);
                    assert(event_views(events@) =~= before.push(event@));
                    assert(raises(previous, cur.take(k + 1), generation) == rest.push(event@));
                } else {
                    assert(raises(previous, cur.take(k + 1), generation) == rest);
                }
            } else {
                assert(raises(previous, cur.take(k + 1), generation) == rest);
            }
            assert(event_views(events@) =~= closed + raises(previous, cur.take(k + 1), generation));
            k += 1;
        }
        assert(cur.take(k as int) =~= cur);
        self.previous = current;
        self.next_id = next;
        shared.notification_status("Monitoring macOS notification identities (read-only private schema)");
        events
    }
}

/// Whether some delivery of `t` is the same as `m`.
fn holds(t: &Vec<(Metadata, u32)>, m: &Metadata) -> (r: bool)
    ensures
        r == tracks(tracked_views(t@), m@),
{
    let ghost tv = tracked_views(t@);
    let mut i: usize = 0;
    while i < t.len()
        invariant
            i <= t@.len(),
            tv == tracked_views(t@),
            forall|k: int| 0 <= k < i ==> !same_delivery((#[trigger] tv[k]).0, m@),
        decreases t@.len() - i,
    {
        let x = &t[i].0;
        if x.id == m.id && same_creation(x.created, m.created) && crate::text::str_eq(x.application.as_str(), m.application.as_str()) {
            assert(same_delivery(tv[i as int].0, m@));
            return true;
        }
        i += 1;
    }
    false
}

/// An error on a prefix of the records is the error of the whole snapshot.
proof fn lemma_assigned_error(previous: Seq<TrackedView>, records: Seq<MetadataView>, k: int, next: u32, e: SnapshotError)
    requires
        0 <= k <= records.len(),
        assigned(previous, records.take(k), next) == Err::<(Seq<TrackedView>, u32), SnapshotError>(e),
    ensures
        assigned(previous, records, next) == Err::<(Seq<TrackedView>, u32), SnapshotError>(e),
    decreases records.len() - k,
{
    if k < records.len() {
        assert(records.take(k + 1).drop_last() =~= records.take(k));
        lemma_assigned_error(previous, records, k + 1, next, e);
    } else {
        assert(records.take(k) =~= records);
    }
}

/// The first match in a prefix is the first match of the whole sequence.
proof fn lemma_event_prefix(t: Seq<TrackedView>, k: int, id: i64)
    requires
        0 <= k <= t.len(),
        event_of(t.take(k), id) is Some,
    ensures
        event_of(t, id) == event_of(t.take(k), id),
    decreases t.len() - k,
{
    if k < t.len() {
        assert(t.take(k + 1).drop_last() =~= t.take(k));
        lemma_event_prefix(t, k + 1, id);
    } else {
        assert(t.take(k) =~= t);
    }
}


/// A snapshot that can be reconciled: each record pairs with one tracked
/// delivery, in order; every record is usable and no record repeats.
proof fn lemma_assigned_shape(previous: Seq<TrackedView>, records: Seq<MetadataView>, next: u32)
    requires
        assigned(previous, records, next) is Ok,
    ensures
        ({
            let current = assigned(previous, records, next)->Ok_0.0;
            &&& current.len() == records.len()
            &&& forall|k: int| 0 <= k < records.len() ==> (#[trigger] current[k]).0 == records[k]
            &&& forall|k: int| 0 <= k < records.len() ==> {
                &&& (#[trigger] records[k]).id >= 0
                &&& is_valid_application(records[k].application)
                &&& records[k].created_valid
            }
            &&& forall|j: int, k: int| 0 <= j < k < records.len() ==> (#[trigger] records[j]).id != (#[trigger] records[k]).id
        }),
    decreases records.len(),
{
    if records.len() > 0 {
        let front = records.drop_last();
        lemma_assigned_shape(previous, front, next);
        let c = assigned(previous, front, next)->Ok_0.0;
        let r = records.last();
        assert forall|j: int| 0 <= j < records.len() - 1 implies (#[trigger] records[j]).id != r.id by {
            assert(c[j].0 == front[j]);
            if records[j].id == r.id {
                assert(has_record(c, r.id));
            }
        }
        assert forall|k: int| 0 <= k < front.len() implies #[trigger] records[k] == front[k] by {}
    }
}

/// In deliveries with distinct records, record `t[k]` finds its own identifier.
proof fn lemma_event_distinct(t: Seq<TrackedView>, k: int)
    requires
        0 <= k < t.len(),
        forall|i: int, j: int| 0 <= i < j < t.len() ==> (#[trigger] t[i]).0.id != (#[trigger] t[j]).0.id,
    ensures
        event_of(t, t[k].0.id) == Some(t[k].1),
    decreases t.len(),
{
    let front = t.drop_last();
    if k < t.len() - 1 {
        assert forall|i: int, j: int| 0 <= i < j < front.len() implies (#[trigger] front[i]).0.id != (#[trigger] front[j]).0.id by {
            assert(front[i] == t[i] && front[j] == t[j]);
        }
        lemma_event_distinct(front, k);
        assert(front[k] == t[k]);
    } else {
        assert forall|i: int| 0 <= i < front.len() implies (#[trigger] front[i]).0.id != t[k].0.id by {
            assert(front[i] == t[i]);
        }
        lemma_event_absent(front, t[k].0.id);
    }
}

/// No delivery of record `id` gives no identifier.
proof fn lemma_event_absent(t: Seq<TrackedView>, id: i64)
    requires
        forall|i: int| 0 <= i < t.len() ==> (#[trigger] t[i]).0.id != id,
    ensures
        event_of(t, id) is None,
    decreases t.len(),
{
    if t.len() > 0 {
        let front = t.drop_last();
        assert forall|i: int| 0 <= i < front.len() implies (#[trigger] front[i]).0.id != id by {
            assert(front[i] == t[i]);
        }
        lemma_event_absent(front, id);
    }
}

/// Records that each find their identifier among `previous` are assigned
/// those identifiers, and no new one is handed out.
proof fn lemma_reassigned(previous: Seq<TrackedView>, records: Seq<MetadataView>, current: Seq<TrackedView>, next: u32)
    requires
        current.len() == records.len(),
        forall|k: int| 0 <= k < records.len() ==> (#[trigger] current[k]).0 == records[k],
        forall|k: int| 0 <= k < records.len() ==> {
            &&& (#[trigger] records[k]).id >= 0
            &&& is_valid_application(records[k].application)
            &&& records[k].created_valid
            &&& event_of(previous, records[k].id) == Some(current[k].1)
        },
        forall|j: int, k: int| 0 <= j < k < records.len() ==> (#[trigger] records[j]).id != (#[trigger] records[k]).id,
    ensures
        assigned(previous, records, next) == Ok::<(Seq<TrackedView>, u32), SnapshotError>((current, next)),
    decreases records.len(),
{
    if records.len() > 0 {
        let front = records.drop_last();
        let cf = current.drop_last();
        assert forall|k: int| 0 <= k < front.len() implies (#[trigger] cf[k]).0 == front[k] by {
            assert(cf[k] == current[k] && front[k] == records[k]);
        }
        assert forall|k: int| 0 <= k < front.len() implies {
            &&& (#[trigger] front[k]).id >= 0
            &&& is_valid_application(front[k].application)
            &&& front[k].created_valid
            &&& event_of(previous, front[k].id) == Some(cf[k].1)
        } by {
            assert(cf[k] == current[k] && front[k] == records[k]);
        }
        assert forall|j: int, k: int| 0 <= j < k < front.len() implies (#[trigger] front[j]).id != (#[trigger] front[k]).id by {
            assert(front[j] == records[j] && front[k] == records[k]);
        }
        lemma_reassigned(previous, front, cf, next);
        let r = records.last();
        assert forall|k: int| 0 <= k < cf.len() implies (#[trigger] cf[k]).0.id != r.id by {
            assert(cf[k] == current[k]);
            assert(records[k].id != records[records.len() - 1].id);
        }
        assert(!has_record(cf, r.id));
        assert(current[current.len() - 1].0 == r);
        assert(records[records.len() - 1] == r);
        assert(event_of(previous, r.id) == Some(current[current.len() - 1].1));
        assert(cf.push((r, current[current.len() - 1].1)) =~= current);
    } else {
        assert(current =~= Seq::<TrackedView>::empty());
    }
}

/// Every delivery of `previous` is held unchanged in `current`: nothing closes.
proof fn lemma_nothing_closes(previous: Seq<TrackedView>, current: Seq<TrackedView>, generation: u64)
    requires
        forall|k: int| 0 <= k < previous.len() ==> tracks(current, (#[trigger] previous[k]).0),
    ensures
        closes(previous, current, generation) == Seq::<EventView>::empty(),
    decreases previous.len(),
{
    if previous.len() > 0 {
        let front = previous.drop_last();
        assert forall|k: int| 0 <= k < front.len() implies tracks(current, (#[trigger] front[k]).0) by {
            assert(front[k] == previous[k]);
        }
        lemma_nothing_closes(front, current, generation);
        assert(tracks(current, previous[previous.len() - 1].0));
    }
}

/// Every delivery of `current` was held in `previous`: nothing is raised.
proof fn lemma_nothing_raised(previous: Seq<TrackedView>, current: Seq<TrackedView>, generation: u64)
    requires
        forall|k: int| 0 <= k < current.len() ==> tracks(previous, (#[trigger] current[k]).0),
    ensures
        raises(previous, current, generation) == Seq::<EventView>::empty(),
    decreases current.len(),
{
    if current.len() > 0 {
        let front = current.drop_last();
        assert forall|k: int| 0 <= k < front.len() implies tracks(previous, (#[trigger] front[k]).0) by {
            assert(front[k] == current[k]);
        }
        lemma_nothing_raised(previous, front, generation);
        assert(tracks(previous, current[current.len() - 1].0));
    }
}

/// Reconciling a snapshot right after the same records were reconciled:
/// every delivery keeps its identifier, none is handed out, and nothing is
/// closed or raised. With `reconcile`'s contract, a reducer that was not
/// connected takes the first snapshot as a silent baseline, and repeating
/// the same records then stays silent.
pub proof fn lemma_repeated_snapshot_is_silent(previous: Seq<TrackedView>, records: Seq<MetadataView>, next: u32, generation: u64)
    requires
        assigned(previous, records, next) is Ok,
    ensures
        ({
            let (current, last) = assigned(previous, records, next)->Ok_0;
            &&& assigned(current, records, last) == Ok::<(Seq<TrackedView>, u32), SnapshotError>((current, last))
            &&& closes(current, current, generation) == Seq::<EventView>::empty()
            &&& raises(current, current, generation) == Seq::<EventView>::empty()
        }),
{
    let (current, last) = assigned(previous, records, next)->Ok_0;
    lemma_assigned_shape(previous, records, next);
    assert forall|i: int, j: int| 0 <= i < j < current.len() implies (#[trigger] current[i]).0.id != (#[trigger] current[j]).0.id by {
        assert(records[i].id != records[j].id);
    }
    assert forall|k: int| 0 <= k < records.len() implies event_of(current, (#[trigger] records[k]).id) == Some(current[k].1) by {
        lemma_event_distinct(current, k);
    }
    lemma_reassigned(current, records, current, last);
    assert forall|k: int| 0 <= k < current.len() implies tracks(current, (#[trigger] current[k]).0) by {
        assert(same_delivery(current[k].0, current[k].0));
    }
    lemma_nothing_closes(current, current, generation);
    lemma_nothing_raised(current, current, generation);
}


/// The generation after a disconnect from a reducer that was `connected`.
pub open spec fn generation_after_reset(connected: bool, generation: u64) -> u64 {
    if connected {
        if generation == u64::MAX { 0 } else { (generation + 1) as u64 }
    } else {
        generation
    }
}

/// One `reconcile` of `records`, from reducer `before` at generation `g0`
/// to reducer `after` at generation `g1`, giving `events`: a snapshot over
/// the limit or one that cannot be reconciled resets the lifecycle, any
/// other becomes the tracked deliveries; only a connected reducer reports
/// what closed and what was raised.
pub open spec fn reconciled(before: Notifications, records: Seq<MetadataView>, g0: u64, after: Notifications, g1: u64, events: Seq<EventView>) -> bool {
    if records.len() > MAX_NOTIFICATIONS || assigned(before.previous(), records, before.last_id()) is Err {
        &&& events.len() == 0
        &&& !after.is_connected()
        &&& after.previous().len() == 0
        &&& after.last_id() == 0
        &&& g1 == generation_after_reset(before.is_connected(), g0)
    } else {
        let (current, next) = assigned(before.previous(), records, before.last_id())->Ok_0;
        &&& after.is_connected()
        &&& after.previous() == current
        &&& after.last_id() == next
        &&& g1 == g0
        &&& events == (if before.is_connected() {
            closes(before.previous(), current, g0) + raises(before.previous(), current, g0)
        } else {
            Seq::empty()
        })
    }
}

/// History is silent: a reducer that is not connected takes its first
/// snapshot as a baseline, sending nothing and keeping the generation, and
/// reconciling the same records again sends nothing either.
pub proof fn lemma_history_is_silent(
    r0: Notifications,
    records: Seq<MetadataView>,
    g0: u64,
    r1: Notifications,
    g1: u64,
    e1: Seq<EventView>,
    r2: Notifications,
    g2: u64,
    e2: Seq<EventView>,
)
    requires
        !r0.is_connected(),
        reconciled(r0, records, g0, r1, g1, e1),
        reconciled(r1, records, g1, r2, g2, e2),
    ensures
        e1.len() == 0,
        g1 == g0,
        e2.len() == 0,
        g2 == g1,
{
    if !(records.len() > MAX_NOTIFICATIONS || assigned(r0.previous(), records, r0.last_id()) is Err) {
        lemma_repeated_snapshot_is_silent(r0.previous(), records, r0.last_id(), g1);
    }
}

} // verus!
