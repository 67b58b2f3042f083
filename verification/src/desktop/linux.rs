//! Passive observation of desktop notifications on a D-Bus session bus: the
//! decisions taken for each monitored message. Only the application, the
//! urgency and identifiers are kept; bodies, icons and actions never are.
use vstd::prelude::*;
use super::{Notification, NotificationEvent, SharedState, NOTIFICATION_CAPACITY};
use super::windows_state::{EventView, event_views, same_session};
use crate::text::{
    byte_len, char_width, chars_of, control_char, lemma_byte_len_push, lemma_contains_push,
    sorted_distinct, starts_with_lit, str_byte_len, str_eq, strictly_sorted, string_of, texts,
    trim, trim_bounds,
};

verus! {

/// Notify bodies larger than this are not decoded.
pub const MAX_NOTIFICATION_BYTES: usize = 64 * 1024;
/// Application metadata longer than this is refused.
pub const MAX_METADATA_INPUT: usize = 1024;
/// Longest application name kept, in bytes.
pub const MAX_APPLICATION_BYTES: usize = 128;
/// How long a Notify call may wait for its reply before the lifecycle is reset.
pub const NOTIFICATION_REPLY_TIMEOUT: u64 = 5_000_000_000;

/// Invisible format characters: bidirectional marks and isolates, zero-width
/// characters and the byte-order mark.
pub open spec fn invisible(c: char) -> bool {
    let v = c as u32;
    ||| v == 0x061c
    ||| (0x200b <= v && v <= 0x200f)
    ||| (0x202a <= v && v <= 0x202e)
    ||| (0x2060 <= v && v <= 0x206f)
    ||| v == 0xfeff
}

fn is_invisible(c: char) -> (r: bool)
    ensures
        r == invisible(c),
{
    let v = c as u32;
    v == 0x061c || (0x200b <= v && v <= 0x200f) || (0x202a <= v && v <= 0x202e) || (0x2060 <= v
        && v <= 0x206f) || v == 0xfeff
}

/// The visible characters of `t` from position `i` on, appended to `out`
/// until the next one would exceed `MAX_APPLICATION_BYTES`.
pub open spec fn name_from(t: Seq<char>, i: int, out: Seq<char>) -> Seq<char>
    decreases t.len() - i,
{
    if i < 0 || i >= t.len() {
        out
    } else if control_char(t[i]) || invisible(t[i]) {
        name_from(t, i + 1, out)
    } else if byte_len(out) + char_width(t[i]) > MAX_APPLICATION_BYTES {
        out
    } else {
        name_from(t, i + 1, out.push(t[i]))
    }
}

/// The application name that a notification's application metadata gives:
/// trimmed, without control or invisible characters, at most
/// `MAX_APPLICATION_BYTES`, and `None` when nothing visible remains.
pub open spec fn application_name_of(input: Seq<char>) -> Option<Seq<char>> {
    if byte_len(input) > MAX_METADATA_INPUT {
        None
    } else {
        let kept = trim(name_from(trim(input), 0, Seq::empty()));
        if kept.len() == 0 {
            None
        } else {
            Some(kept)
        }
    }
}

fn width(c: char) -> (w: usize)
    ensures
        w == char_width(c),
{
    if (c as u32) <= 0x7f {
        1
    } else if (c as u32) <= 0x7ff {
        2
    } else if (c as u32) <= 0xffff {
        3
    } else {
        4
    }
}

pub fn application_name(input: &str) -> (r: Option<String>)
    ensures
        match application_name_of(input@) {
            None => r is None,
            Some(n) => r matches Some(s) && s@ == n,
        },
{
    if str_byte_len(input) > MAX_METADATA_INPUT {
        return None;
    }
    let chars = chars_of(input);
    assert(chars@.subrange(0, chars@.len() as int) =~= chars@);
    let (a, b) = trim_bounds(&chars, 0, chars.len());
    let ghost t = chars@.subrange(a as int, b as int);
    let mut out: Vec<char> = Vec::new();
    let mut used: usize = 0;
    let mut full = false;
    let mut i = a;
    while i < b && !full
        invariant
            a <= i <= b <= chars@.len(),
            t == chars@.subrange(a as int, b as int),
            used == byte_len(out@),
            used <= MAX_APPLICATION_BYTES,
            !full ==> name_from(t, i - a, out@) == name_from(t, 0, Seq::empty()),
            full ==> out@ == name_from(t, 0, Seq::empty()),
        decreases (b - i) * 2 + (if full { 0int } else { 1int }),
    {
        let c = chars[i];
        assert(t[i - a] == c);
        if crate::text::is_control(c) || is_invisible(c) {
            i += 1;
        } else {
            let w = width(c);
            if used + w > MAX_APPLICATION_BYTES {
                full = true;
            } else {
                proof {
                    lemma_byte_len_push(out@, c);
                }
                out.push(c);
                used += w;
                i += 1;
            }
        }
    }
    let n = out.len();
    assert(out@.subrange(0, n as int) =~= out@);
    let (x, y) = trim_bounds(&out, 0, n);
    if x == y {
        None
    } else {
        Some(string_of(&out, x, y))
    }
}


/// The well-known name, object path and interface of the notification daemon.
pub open spec fn notifications_name() -> Seq<char> {
    "org.freedesktop.Notifications"@
}

pub open spec fn notifications_path() -> Seq<char> {
    "/org/freedesktop/Notifications"@
}

#[derive(Clone, Copy, Debug, PartialEq, Eq, Structural)]
pub enum MessageKind {
    MethodCall,
    MethodReturn,
    Error,
    Signal,
}

/// What a `Notify` call's body declares: the application name and the
/// `desktop-entry` and `urgency` hints. Nothing else is decoded.
pub struct NotifyCall {
    pub application: String,
    /// The `desktop-entry` hints that hold a string, in the order of the hints.
    pub desktop_entries: Vec<String>,
    /// The `urgency` hints that hold a byte, in the order of the hints.
    pub urgencies: Vec<u8>,
}

/// One monitored message: its header fields, and its body read as each of the
/// bodies this observer understands, where it reads as one.
pub struct BusMessage {
    pub kind: MessageKind,
    pub sender: Option<String>,
    pub destination: Option<String>,
    pub interface: Option<String>,
    pub path: Option<String>,
    pub member: Option<String>,
    pub serial: u32,
    pub reply_serial: Option<u32>,
    /// Size of the body in bytes.
    pub body_len: usize,
    /// Whether the body's signature is that of a `Notify` call.
    pub notify_signature: bool,
    pub notify: Option<NotifyCall>,
    /// `NameOwnerChanged` arguments: the name, its former and its new owner.
    pub owner_change: Option<(String, String, String)>,
    /// `NotificationClosed` arguments: the notification and the reason.
    pub close: Option<(u32, u32)>,
    /// The notification identifier that a `Notify` reply returns.
    pub reply_id: Option<u32>,
}

pub open spec fn text_is(o: Option<String>, lit: Seq<char>) -> bool {
    o matches Some(s) && s@ == lit
}

pub open spec fn text_view(o: Option<String>) -> Option<Seq<char>> {
    match o {
        Some(s) => Some(s@),
        None => None,
    }
}

fn is_text(o: &Option<String>, lit: &str) -> (r: bool)
    ensures
        r == text_is(*o, lit@),
{
    match o {
        Some(s) => str_eq(s.as_str(), lit),
        None => false,
    }
}

fn same_text(a: &Option<String>, b: &Option<String>) -> (r: bool)
    ensures
        r == (text_view(*a) == text_view(*b)),
{
    match (a, b) {
        (Some(x), Some(y)) => str_eq(x.as_str(), y.as_str()),
        (None, None) => true,
        _ => false,
    }
}

/// The bus announces that a name changed owner.
pub open spec fn owner_signal(m: BusMessage) -> bool {
    &&& m.kind == MessageKind::Signal
    &&& text_is(m.sender, "org.freedesktop.DBus"@)
    &&& text_is(m.interface, "org.freedesktop.DBus"@)
    &&& text_is(m.path, "/org/freedesktop/DBus"@)
    &&& text_is(m.member, "NameOwnerChanged"@)
}

/// A client asks the notification daemon to show a notification.
pub open spec fn notify_call(m: BusMessage) -> bool {
    &&& m.kind == MessageKind::MethodCall
    &&& text_is(m.interface, notifications_name())
    &&& text_is(m.path, notifications_path())
    &&& text_is(m.member, "Notify"@)
}

/// The daemon announces that a notification closed.
pub open spec fn close_signal(m: BusMessage) -> bool {
    &&& m.kind == MessageKind::Signal
    &&& text_is(m.interface, notifications_name())
    &&& text_is(m.path, notifications_path())
    &&& text_is(m.member, "NotificationClosed"@)
}

/// Application, urgency and arrival of a notification.
pub type MetaView = (Seq<char>, u8, u64);

/// Some `desktop-entry` hint is longer than `MAX_METADATA_INPUT`; such a
/// body is refused.
pub open spec fn oversized_hint(entries: Seq<Seq<char>>) -> bool {
    exists|i: int| 0 <= i < entries.len() && byte_len(#[trigger] entries[i]) > MAX_METADATA_INPUT
}

/// The application that the last `desktop-entry` hint names, if any.
pub open spec fn hinted_application(entries: Seq<Seq<char>>) -> Option<Seq<char>> {
    if entries.len() == 0 {
        None
    } else {
        application_name_of(entries.last())
    }
}

/// The urgency of the last `urgency` hint when it is one of the three levels;
/// normal (1) otherwise.
pub open spec fn hinted_urgency(urgencies: Seq<u8>) -> u8 {
    if urgencies.len() == 0 || urgencies.last() > 2 {
        1u8
    } else {
        urgencies.last()
    }
}

/// What a Notify call observed at `now` contributes: oversized bodies and
/// metadata, and calls with no usable application, give `None`. The
/// `desktop-entry` hint names the application where it gives a name, the
/// call's application name otherwise.
pub open spec fn metadata_of(m: BusMessage, now: u64) -> Option<MetaView> {
    if m.body_len > MAX_NOTIFICATION_BYTES || !m.notify_signature {
        None
    } else {
        match m.notify {
            None => None,
            Some(n) => if oversized_hint(texts(n.desktop_entries@)) || byte_len(n.application@) > MAX_METADATA_INPUT {
                None
            } else {
                let application = match hinted_application(texts(n.desktop_entries@)) {
                    Some(d) => Some(d),
                    None => application_name_of(n.application@),
                };
                match application {
                    None => None,
                    Some(a) => Some((a, hinted_urgency(n.urgencies@), now)),
                }
            },
        }
    }
}

pub struct NotificationMetadata {
    pub application: String,
    pub urgency: u8,
    /// Monotonic instant at which the call was observed.
    pub received: u64,
}

pub open spec fn meta_view(m: NotificationMetadata) -> MetaView {
    (m.application@, m.urgency, m.received)
}

pub fn notification_metadata(m: &BusMessage, now: u64) -> (r: Option<NotificationMetadata>)
    ensures
        match metadata_of(*m, now) {
            None => r is None,
            Some(v) => r matches Some(x) && meta_view(x) == v,
        },
{
    if m.body_len > MAX_NOTIFICATION_BYTES || !m.notify_signature {
        return None;
    }
    let n = match &m.notify {
        None => return None,
        Some(n) => n,
    };
    let entries = &n.desktop_entries;
    let mut i: usize = 0;
    while i < entries.len()
        invariant
            i <= entries@.len(),
            m.body_len <= MAX_NOTIFICATION_BYTES && m.notify_signature,
            m.notify == Some(*n),
            entries@ == n.desktop_entries@,
            forall|k: int| 0 <= k < i ==> byte_len(#[trigger] texts(entries@)[k]) <= MAX_METADATA_INPUT,
        decreases entries@.len() - i,
    {
        assert(texts(entries@)[i as int] == entries@[i as int]@);
        if str_byte_len(entries[i].as_str()) > MAX_METADATA_INPUT {
            assert(oversized_hint(texts(n.desktop_entries@))) by {
                assert(byte_len(texts(entries@)[i as int]) > MAX_METADATA_INPUT);
            }
            return None;
        }
        i += 1;
    }
    if str_byte_len(n.application.as_str()) > MAX_METADATA_INPUT {
        return None;
    }
    let hinted = if entries.len() == 0 {
        None
    } else {
        assert(texts(entries@).last() == entries@.last()@);
        application_name(entries[entries.len() - 1].as_str())
    };
    let application = match hinted {
        Some(d) => d,
        None => match application_name(n.application.as_str()) {
            None => return None,
            Some(a) => a,
        },
    };
    let urgency: u8 = if n.urgencies.len() == 0 || n.urgencies[n.urgencies.len() - 1] > 2 {
        1
    } else {
        n.urgencies[n.urgencies.len() - 1]
    };
    Some(NotificationMetadata { application, urgency, received: now })
}

/// A Notify call awaiting the daemon's reply: its caller and serial, and the
/// metadata the reply will raise.
pub type PendView = (Seq<char>, u32, MetaView);

/// An early close: the notification, when it closed and why.
pub type ClosedView = (u32, u64, u32);

pub struct ObserverView {
    pub owner: Option<Seq<char>>,
    pub generation: u64,
    pub pending: Seq<PendView>,
    pub closed: Seq<ClosedView>,
}

/// The generation after a lifecycle reset from `g`.
pub open spec fn bump(g: u64) -> u64 {
    if g == u64::MAX {
        0
    } else {
        (g + 1) as u64
    }
}

/// The first pending call from `caller` with `serial` at or after `i`, or -1.
pub open spec fn call_index(p: Seq<PendView>, caller: Seq<char>, serial: u32, i: int) -> int
    decreases p.len() - i,
{
    if i < 0 || i >= p.len() {
        -1
    } else if p[i].0 == caller && p[i].1 == serial {
        i
    } else {
        call_index(p, caller, serial, i + 1)
    }
}

/// The first early close of `id` at or after `i`, or -1.
pub open spec fn closed_index(c: Seq<ClosedView>, id: u32, i: int) -> int
    decreases c.len() - i,
{
    if i < 0 || i >= c.len() {
        -1
    } else if c[i].0 == id {
        i
    } else {
        closed_index(c, id, i + 1)
    }
}

/// The early closes with the close of `id` at `t` for `reason` recorded.
pub open spec fn close_insert(c: Seq<ClosedView>, id: u32, t: u64, reason: u32) -> Seq<ClosedView> {
    let k = closed_index(c, id, 0);
    if k >= 0 {
        c.update(k, (id, t, reason))
    } else {
        c.push((id, t, reason))
    }
}

/// What one observed message does: the state that follows, the events to
/// deliver in order, and the status of the lifecycle reset it caused, if any.
pub struct Step {
    pub next: ObserverView,
    pub events: Seq<EventView>,
    pub reset: Option<Seq<char>>,
}

pub open spec fn keep(st: ObserverView) -> Step {
    Step { next: st, events: Seq::empty(), reset: None }
}

/// A lifecycle reset: every pending call and early close is forgotten and the
/// generation `g` of the shared state moves on.
pub open spec fn reset_of(owner: Option<Seq<char>>, g: u64, status: Seq<char>) -> Step {
    Step {
        next: ObserverView { owner, generation: bump(g), pending: Seq::empty(), closed: Seq::empty() },
        events: Seq::empty(),
        reset: Some(status),
    }
}

/// Early closes only matter while a call is pending.
pub open spec fn settled(x: ObserverView) -> ObserverView {
    if x.pending.len() == 0 {
        ObserverView { owner: x.owner, generation: x.generation, pending: x.pending, closed: Seq::empty() }
    } else {
        x
    }
}

/// What observing `m` at `now` does to `st`, with `g` the generation of the
/// shared state.
pub open spec fn observed(st: ObserverView, m: BusMessage, now: u64, g: u64) -> Step {
    if owner_signal(m) {
        match m.owner_change {
            Some((name, _, owner)) => if name@ == notifications_name() {
                reset_of(
                    if owner@.len() == 0 { None } else { Some(owner@) },
                    g,
                    "Monitoring notifications (metadata only); daemon changed"@,
                )
            } else {
                keep(st)
            },
            None => keep(st),
        }
    } else if notify_call(m) {
        if st.owner is None || !(text_is(m.destination, notifications_name()) || text_view(m.destination)
            == st.owner) || m.sender is None {
            keep(st)
        } else {
            match metadata_of(m, now) {
                None => reset_of(st.owner, g, "Monitoring notifications; oversized or invalid event, lifecycle reset"@),
                Some(meta) => {
                    let caller = text_view(m.sender)->0;
                    if call_index(st.pending, caller, m.serial, 0) >= 0 {
                        reset_of(st.owner, g, "Monitoring notifications; ambiguous reply serial, lifecycle reset"@)
                    } else if st.pending.len() == NOTIFICATION_CAPACITY {
                        Step {
                            next: ObserverView {
                                owner: st.owner,
                                generation: bump(g),
                                pending: seq![(caller, m.serial, meta)],
                                closed: Seq::empty(),
                            },
                            events: Seq::empty(),
                            reset: Some("Monitoring notifications; in-flight calls lost, lifecycle reset"@),
                        }
                    } else {
                        Step {
                            next: ObserverView {
                                owner: st.owner,
                                generation: st.generation,
                                pending: st.pending.push((caller, m.serial, meta)),
                                closed: st.closed,
                            },
                            events: Seq::empty(),
                            reset: None,
                        }
                    }
                },
            }
        }
    } else if m.sender is None || text_view(m.sender) != st.owner {
        keep(st)
    } else if close_signal(m) {
        match m.close {
            None => reset_of(st.owner, g, "Monitoring notifications; invalid close, lifecycle reset"@),
            Some((id, reason)) => if st.pending.len() > 0 && st.closed.len() == NOTIFICATION_CAPACITY
                && closed_index(st.closed, id, 0) < 0 {
                let r = reset_of(st.owner, g, "Monitoring notifications; early closes lost, lifecycle reset"@);
                Step { next: r.next, events: seq![EventView::Closed { generation: bump(g), id, reason }], reset: r.reset }
            } else {
                Step {
                    next: if st.pending.len() > 0 {
                        ObserverView {
                            owner: st.owner,
                            generation: st.generation,
                            pending: st.pending,
                            closed: close_insert(st.closed, id, now, reason),
                        }
                    } else {
                        st
                    },
                    events: seq![EventView::Closed { generation: st.generation, id, reason }],
                    reset: None,
                }
            },
        }
    } else if !(m.kind == MessageKind::MethodReturn || m.kind == MessageKind::Error) || m.destination is None
        || m.reply_serial is None {
        keep(st)
    } else {
        let k = call_index(st.pending, text_view(m.destination)->0, m.reply_serial->0, 0);
        if k < 0 {
            keep(st)
        } else {
            let meta = st.pending[k].2;
            let rest = ObserverView {
                owner: st.owner,
                generation: st.generation,
                pending: st.pending.update(k, st.pending.last()).drop_last(),
                closed: st.closed,
            };
            if m.kind == MessageKind::Error {
                Step { next: settled(rest), events: Seq::empty(), reset: None }
            } else if m.reply_id is Some && m.reply_id->0 != 0 {
                let id = m.reply_id->0;
                let raised = EventView::Raised {
                    id,
                    generation: st.generation,
                    application: meta.0,
                    urgency: meta.1,
                    received: meta.2,
                };
                let c = closed_index(st.closed, id, 0);
                Step {
                    next: settled(rest),
                    events: if c >= 0 && st.closed[c].1 >= meta.2 {
                        seq![raised, EventView::Closed { generation: st.generation, id, reason: st.closed[c].2 }]
                    } else {
                        seq![raised]
                    },
                    reset: None,
                }
            } else {
                reset_of(st.owner, g, "Monitoring notifications; invalid daemon reply, lifecycle reset"@)
            }
        }
    }
}

/// Bounded state: at most `NOTIFICATION_CAPACITY` pending calls and early
/// closes, and early closes only while a call is pending.
pub open spec fn observer_wf(v: ObserverView) -> bool {
    &&& v.pending.len() <= NOTIFICATION_CAPACITY
    &&& v.closed.len() <= NOTIFICATION_CAPACITY
    &&& v.pending.len() == 0 ==> v.closed.len() == 0
}

pub struct PendingNotification {
    pub caller: String,
    pub serial: u32,
    pub metadata: NotificationMetadata,
}

pub open spec fn pend_view(p: PendingNotification) -> PendView {
    (p.caller@, p.serial, meta_view(p.metadata))
}

pub open spec fn pend_views(v: Seq<PendingNotification>) -> Seq<PendView> {
    v.map_values(|p: PendingNotification| pend_view(p))
}

/// The notification lifecycle as seen from a bus monitor: the daemon's
/// current owner, the generation of the lifecycle, Notify calls awaiting
/// their reply, and notifications the daemon closed before replying.
pub struct NotificationObserver {
    pub owner: Option<String>,
    pub generation: u64,
    pending: Vec<PendingNotification>,
    closed: Vec<(u32, u64, u32)>,
}

/// `new` is `old` after a lifecycle reset with `status`, or untouched.
pub open spec fn shared_after(old: SharedState, new: SharedState, reset: Option<Seq<char>>) -> bool {
    &&& same_session(old, new)
    &&& match reset {
        Some(status) => new.desktop.notification_generation == bump(old.desktop.notification_generation)
            && new.desktop.notification_status@ == status,
        None => new.desktop.notification_generation == old.desktop.notification_generation
            && new.desktop.notification_status@ == old.desktop.notification_status@,
    }
}

/// The pending call `p` has waited at least `NOTIFICATION_REPLY_TIMEOUT` at `now`.
pub open spec fn waited(p: PendView, now: u64) -> bool {
    now >= p.2.2 && now - p.2.2 >= NOTIFICATION_REPLY_TIMEOUT
}

/// Some pending call has waited too long for its reply at `now`.
pub open spec fn expired(p: Seq<PendView>, now: u64) -> bool {
    exists|k: int| 0 <= k < p.len() && waited(#[trigger] p[k], now)
}

impl NotificationObserver {
    pub closed spec fn state(&self) -> ObserverView {
        ObserverView {
            owner: text_view(self.owner),
            generation: self.generation,
            pending: pend_views(self.pending@),
            closed: self.closed@,
        }
    }

    /// A monitor of the daemon owned by `owner`, in lifecycle `generation`.
    pub fn new(owner: Option<String>, generation: u64) -> (o: Self)
        ensures
            o.state() == (ObserverView { owner: text_view(owner), generation, pending: Seq::empty(), closed: Seq::empty() }),
            observer_wf(o.state()),
    {
        let o = NotificationObserver { owner, generation, pending: Vec::new(), closed: Vec::new() };
        assert(pend_views(o.pending@) =~= Seq::empty());
        o
    }

    fn reset(&mut self, shared: &mut SharedState, status: &str)
        ensures
            final(self).state() == reset_of(old(self).state().owner, old(shared).desktop.notification_generation, status@).next,
            shared_after(*old(shared), *final(shared), Some(status@)),
    {
        self.pending.clear();
        self.closed.clear();
        self.generation = shared.notification_discontinuity(status);
        assert(pend_views(self.pending@) =~= Seq::empty());
    }

    fn find_call(&self, caller: &str, serial: u32) -> (r: Option<usize>)
        ensures
            match r {
                Some(k) => k < self.pending@.len() && k as int == call_index(self.state().pending, caller@, serial, 0),
                None => call_index(self.state().pending, caller@, serial, 0) < 0,
            },
    {
        let ghost p = self.state().pending;
        let mut i: usize = 0;
        while i < self.pending.len()
            invariant
                i <= self.pending@.len(),
                p == pend_views(self.pending@),
                call_index(p, caller@, serial, i as int) == call_index(p, caller@, serial, 0),
            decreases self.pending@.len() - i,
        {
            let call = &self.pending[i];
            assert(p[i as int] == pend_view(self.pending@[i as int]));
            if call.serial == serial && str_eq(call.caller.as_str(), caller) {
                return Some(i);
            }
            i += 1;
        }
        None
    }

    fn find_closed(&self, id: u32) -> (r: Option<usize>)
        ensures
            match r {
                Some(k) => k < self.closed@.len() && k as int == closed_index(self.closed@, id, 0),
                None => closed_index(self.closed@, id, 0) < 0,
            },
    {
        let mut i: usize = 0;
        while i < self.closed.len()
            invariant
                i <= self.closed@.len(),
                closed_index(self.closed@, id, i as int) == closed_index(self.closed@, id, 0),
            decreases self.closed@.len() - i,
        {
            if self.closed[i].0 == id {
                return Some(i);
            }
            i += 1;
        }
        None
    }

    /// Decides what the monitored message `m`, observed at `now`, means for the
    /// notification lifecycle, and returns the events to deliver in order.
    /// The caller queues them; when one cannot be queued it calls `queue_full`
    /// and drops the rest, which the reset voids anyway.
    pub fn observe(&mut self, m: &BusMessage, now: u64, shared: &mut SharedState) -> (events: Vec<NotificationEvent>)
        requires
            observer_wf(old(self).state()),
        ensures
            ({
                let step = observed(old(self).state(), *m, now, old(shared).desktop.notification_generation);
                &&& final(self).state() == step.next
                &&& event_views(events@) == step.events
                &&& shared_after(*old(shared), *final(shared), step.reset)
            }),
            observer_wf(final(self).state()),
    {
        let ghost st = self.state();
        let ghost g = shared.desktop.notification_generation;
        let mut events: Vec<NotificationEvent> = Vec::new();
        assert(event_views(events@) =~= Seq::empty());
        if m.kind == MessageKind::Signal && is_text(&m.sender, "org.freedesktop.DBus") && is_text(
            &m.interface,
            "org.freedesktop.DBus",
        ) && is_text(&m.path, "/org/freedesktop/DBus") && is_text(&m.member, "NameOwnerChanged") {
            if let Some((name, _, owner)) = &m.owner_change {
                if str_eq(name.as_str(), "org.freedesktop.Notifications") {
                    let owner_chars = chars_of(owner.as_str());
                    self.owner = if owner_chars.len() == 0 {
                        None
                    } else {
                        Some(owner.clone())
                    };
                    self.reset(shared, "Monitoring notifications (metadata only); daemon changed");
                }
            }
            return events;
        }
        if m.kind == MessageKind::MethodCall && is_text(&m.interface, "org.freedesktop.Notifications")
            && is_text(&m.path, "/org/freedesktop/Notifications") && is_text(&m.member, "Notify") {
            let owner_ok = match &self.owner {
                None => false,
                Some(o) => is_text(&m.destination, "org.freedesktop.Notifications") || is_text(
                    &m.destination,
                    o.as_str(),
                ),
            };
            let sender = match &m.sender {
                None => return events,
                Some(s) => s,
            };
            if !owner_ok {
                return events;
            }
            match notification_metadata(m, now) {
                None => {
                    self.reset(shared, "Monitoring notifications; oversized or invalid event, lifecycle reset");
                },
                Some(meta) => {
                    if self.find_call(sender.as_str(), m.serial).is_some() {
                        self.reset(shared, "Monitoring notifications; ambiguous reply serial, lifecycle reset");
                    } else {
                        if self.pending.len() == NOTIFICATION_CAPACITY {
                            self.reset(shared, "Monitoring notifications; in-flight calls lost, lifecycle reset");
                        }
                        let ghost before = self.pending@;
                        let call = PendingNotification { caller: sender.clone(), serial: m.serial, metadata: meta };
                        self.pending.push(call);
                        assert(pend_views(self.pending@) =~= pend_views(before).push(pend_view(call)));
                    }
                },
            }
            return events;
        }
        if m.sender.is_none() || !same_text(&m.sender, &self.owner) {
            return events;
        }
        if m.kind == MessageKind::Signal && is_text(&m.interface, "org.freedesktop.Notifications") && is_text(
            &m.path,
            "/org/freedesktop/Notifications",
        ) && is_text(&m.member, "NotificationClosed") {
            match m.close {
                None => {
                    self.reset(shared, "Monitoring notifications; invalid close, lifecycle reset");
                },
                Some((id, reason)) => {
                    if self.pending.len() > 0 {
                        let found = self.find_closed(id);
                        if self.closed.len() == NOTIFICATION_CAPACITY && found.is_none() {
                            self.reset(shared, "Monitoring notifications; early closes lost, lifecycle reset");
                        } else {
                            match found {
                                Some(k) => {
                                    self.closed.set(k, (id, now, reason));
                                },
                                None => {
                                    self.closed.push((id, now, reason));
                                },
                            }
                        }
                    }
                    events.push(NotificationEvent::Closed { generation: self.generation, id, reason });
                    assert(event_views(events@) =~= seq![EventView::Closed { generation: self.generation, id, reason }]);
                },
            }
            return events;
        }
        if !(m.kind == MessageKind::MethodReturn || m.kind == MessageKind::Error) {
            return events;
        }
        let (destination, reply_serial) = match (&m.destination, m.reply_serial) {
            (Some(d), Some(r)) => (d, r),
            _ => return events,
        };
        let k = match self.find_call(destination.as_str(), reply_serial) {
            None => return events,
            Some(k) => k,
        };
        let ghost before = self.pending@;
        let call = self.pending.swap_remove(k);
        assert(pend_views(self.pending@) =~= pend_views(before).update(k as int, pend_views(before).last()).drop_last());
        if m.kind == MessageKind::Error {
        } else if m.reply_id.is_some() && m.reply_id.unwrap() != 0 {
            let id = m.reply_id.unwrap();
            let received = call.metadata.received;
            let raised = NotificationEvent::Raised(
                Notification {
                    id,
                    generation: self.generation,
                    application: call.metadata.application,
                    urgency: call.metadata.urgency,
                    received,
                },
            );
            let ghost raised_view = raised@;
            events.push(raised);
            match self.find_closed(id) {
                Some(c) => {
                    if self.closed[c].1 >= received {
                        let reason = self.closed[c].2;
                        events.push(NotificationEvent::Closed { generation: self.generation, id, reason });
                        assert(event_views(events@) =~= seq![raised_view, EventView::Closed { generation: self.generation, id, reason }]);
                    } else {
                        assert(event_views(events@) =~= seq![raised_view]);
                    }
                },
                None => {
                    assert(event_views(events@) =~= seq![raised_view]);
                },
            }
        } else {
            self.reset(shared, "Monitoring notifications; invalid daemon reply, lifecycle reset");
        }
        if self.pending.len() == 0 {
            self.closed.clear();
        }
        events
    }

    /// Resets the lifecycle at `now` when a Notify call has waited too long
    /// for its reply.
    pub fn sweep(&mut self, now: u64, shared: &mut SharedState)
        requires
            observer_wf(old(self).state()),
        ensures
            observer_wf(final(self).state()),
            if expired(old(self).state().pending, now) {
                &&& final(self).state() == reset_of(old(self).state().owner, old(shared).desktop.notification_generation,
                    "Monitoring notifications; reply timed out, lifecycle reset"@).next
                &&& shared_after(*old(shared), *final(shared), Some("Monitoring notifications; reply timed out, lifecycle reset"@))
            } else {
                &&& final(self).state() == old(self).state()
                &&& shared_after(*old(shared), *final(shared), None)
            },
    {
        let ghost p = self.state().pending;
        let ghost s0 = self.state();
        let ghost sh0 = *shared;
        let mut i: usize = 0;
        while i < self.pending.len()
            invariant
                i <= self.pending@.len(),
                p == pend_views(self.pending@),
                s0 == self.state(),
                s0 == old(self).state(),
                sh0 == *shared,
                sh0 == *old(shared),
                observer_wf(s0),
                forall|j: int| 0 <= j < i ==> !waited(#[trigger] p[j], now),
            decreases self.pending@.len() - i,
        {
            let received = self.pending[i].metadata.received;
            assert(p[i as int] == pend_view(self.pending@[i as int]));
            if now >= received && now - received >= NOTIFICATION_REPLY_TIMEOUT {
                assert(waited(p[i as int], now));
                self.reset(shared, "Monitoring notifications; reply timed out, lifecycle reset");
                return;
            }
            i += 1;
        }
    }

    /// Called when an event could not be queued: the lifecycle is reset so
    /// that the events already queued are voided by the generation change.
    pub fn queue_full(&mut self, shared: &mut SharedState)
        ensures
            final(self).state() == reset_of(old(self).state().owner, old(shared).desktop.notification_generation,
                "Monitoring notifications; queue full, lifecycle reset"@).next,
            shared_after(*old(shared), *final(shared), Some("Monitoring notifications; queue full, lifecycle reset"@)),
            observer_wf(final(self).state()),
    {
        self.reset(shared, "Monitoring notifications; queue full, lifecycle reset");
    }
}

/// Reconnection starts this long after a failure, and doubles up to `MAX_BACKOFF`.
pub const INITIAL_BACKOFF: u64 = 500_000_000;
pub const MAX_BACKOFF: u64 = 15_000_000_000;
/// A connection that lasted this long resets the backoff.
pub const STABLE_CONNECTION: u64 = 5_000_000_000;

/// After a connection that lasted `ran`, with the backoff at `backoff`: how
/// long to wait before reconnecting, and the backoff after that.
pub fn reconnect_delay(backoff: u64, ran: u64) -> (r: (u64, u64))
    ensures
        r.0 == (if ran >= STABLE_CONNECTION { INITIAL_BACKOFF } else { backoff }),
        r.1 == (if 2 * r.0 > MAX_BACKOFF { MAX_BACKOFF as int } else { 2 * r.0 }),
{
    let wait = if ran >= STABLE_CONNECTION { INITIAL_BACKOFF } else { backoff };
    let next = if wait > MAX_BACKOFF / 2 { MAX_BACKOFF } else { wait * 2 };
    (wait, next)
}

/// Records a screen-saver lock observation made at `now`.
pub fn update_lock(shared: &mut SharedState, locked: Option<bool>, now: u64)
    ensures
        final(shared).desktop.locked == locked,
        final(shared).desktop.lock_status@ == (match locked {
            Some(true) => "Session locked; lighting inhibited"@,
            Some(false) => "Session unlocked"@,
            None => "Lock service unavailable or timed out; lighting inhibited"@,
        }),
        final(shared).lock_checked == Some(now),
        final(shared).media_checked == old(shared).media_checked,
        final(shared).desktop.playing@ == old(shared).desktop.playing@,
        final(shared).desktop.media_status@ == old(shared).desktop.media_status@,
        final(shared).desktop.notification_status@ == old(shared).desktop.notification_status@,
        final(shared).desktop.notification_generation == old(shared).desktop.notification_generation,
{
    shared.desktop.locked = locked;
    shared.desktop.lock_status = match locked {
        Some(true) => "Session locked; lighting inhibited",
        Some(false) => "Session unlocked",
        None => "Lock service unavailable or timed out; lighting inhibited",
    }.to_owned();
    shared.lock_checked = Some(now);
}

/// Most media players asked per observation.
pub const MAX_PLAYERS: usize = 32;

pub open spec fn mpris_prefix() -> Seq<char> {
    "org.mpris.MediaPlayer2."@
}

/// The bus name `n` is that of an MPRIS media player.
pub open spec fn is_player(n: Seq<char>) -> bool {
    mpris_prefix().len() <= n.len() && n.subrange(0, mpris_prefix().len() as int) == mpris_prefix()
}

/// `all` holds each media player name of `names` once, in ascending order.
pub open spec fn players_in_order(all: Seq<Seq<char>>, names: Seq<Seq<char>>) -> bool {
    &&& strictly_sorted(all)
    &&& forall|t: Seq<char>| #[trigger] all.contains(t) <==> (names.contains(t) && is_player(t))
}

fn player_name(name: &str) -> (r: bool)
    ensures
        r == is_player(name@),
{
    let c = chars_of(name);
    starts_with_lit(c.as_slice(), 0, c.len(), "org.mpris.MediaPlayer2.")
}

/// The media players among the bus names `names`: the first `MAX_PLAYERS`
/// of them in ascending order, each once (the bus lists each name once), and
/// whether more were left out.
pub fn mpris_players(names: &Vec<String>) -> (r: (Vec<String>, bool))
    ensures
        exists|all: Seq<Seq<char>>| #[trigger] players_in_order(all, texts(names@)) && {
            &&& texts(r.0@) == (if all.len() > MAX_PLAYERS { all.take(MAX_PLAYERS as int) } else { all })
            &&& r.1 == (all.len() > MAX_PLAYERS)
        },
{
    let mut found: Vec<String> = Vec::new();
    let mut i: usize = 0;
    while i < names.len()
        invariant
            i <= names@.len(),
            forall|t: Seq<char>| #[trigger] texts(found@).contains(t) <==> (texts(names@.take(i as int)).contains(t) && is_player(t)),
        decreases names@.len() - i,
    {
        let ghost before = found@;
        let keep = player_name(names[i].as_str());
        if keep {
            found.push(names[i].clone());
        }
        proof {
            let x = names@[i as int]@;
            let prev = texts(names@.take(i as int));
            assert(texts(names@.take(i + 1)) =~= prev.push(x));
            assert(keep == is_player(x));
            if keep {
                assert(texts(found@) =~= texts(before).push(x));
            } else {
                assert(texts(found@) == texts(before));
            }
            assert forall|t: Seq<char>| #[trigger] texts(found@).contains(t) <==> (texts(names@.take(i + 1)).contains(t) && is_player(t)) by {
                lemma_contains_push(prev, x, t);
                lemma_contains_push(texts(before), x, t);
                assert(texts(before).contains(t) <==> (prev.contains(t) && is_player(t)));
            }
        }
        i += 1;
    }
    assert(names@.take(i as int) =~= names@);
    let mut all = sorted_distinct(found);
    let ghost full = texts(all@);
    assert(players_in_order(full, texts(names@)));
    let limited = all.len() > MAX_PLAYERS;
    all.truncate(MAX_PLAYERS);
    assert(texts(all@) =~= (if full.len() > MAX_PLAYERS { full.take(MAX_PLAYERS as int) } else { full }));
    (all, limited)
}

/// A text property read from a player's reply of `body_len` bytes: longer
/// replies are not decoded.
pub fn property_fits(body_len: usize) -> (r: bool)
    ensures
        r == (body_len <= MAX_METADATA_INPUT + 32),
{
    body_len <= MAX_METADATA_INPUT + 32
}

/// The text of a property whose value is `value` (where it is a string):
/// strings longer than `MAX_METADATA_INPUT` bytes count as absent.
pub fn property_text(value: Option<String>) -> (r: Option<String>)
    ensures
        match value {
            Some(v) => if byte_len(v@) <= MAX_METADATA_INPUT { r == Some(v) } else { r is None },
            None => r is None,
        },
{
    match value {
        Some(v) => if str_byte_len(v.as_str()) <= MAX_METADATA_INPUT { Some(v) } else { None },
        None => None,
    }
}

/// A player whose `PlaybackStatus` is `status` is playing.
pub fn is_playing(status: &Option<String>) -> (r: bool)
    ensures
        r == (status matches Some(s) && s@ == "Playing"@),
{
    match status {
        Some(s) => str_eq(s.as_str(), "Playing"),
        None => false,
    }
}

/// The application a player's `DesktopEntry` or `Identity` property names.
pub fn property_application(value: &Option<String>) -> (r: Option<String>)
    ensures
        match value {
            Some(v) => match application_name_of(v@) {
                Some(a) => r matches Some(x) && x@ == a,
                None => r is None,
            },
            None => r is None,
        },
{
    match value {
        Some(v) => application_name(v.as_str()),
        None => None,
    }
}

/// The bus name without the MPRIS prefix, where it has one.
pub open spec fn player_suffix(name: Seq<char>) -> Seq<char> {
    if is_player(name) { name.subrange(mpris_prefix().len() as int, name.len() as int) } else { name }
}

/// The application a player's bus name names, when its properties name none.
pub fn bus_name_application(name: &str) -> (r: Option<String>)
    ensures
        match application_name_of(player_suffix(name@)) {
            Some(a) => r matches Some(x) && x@ == a,
            None => r is None,
        },
{
    let c = chars_of(name);
    if starts_with_lit(c.as_slice(), 0, c.len(), "org.mpris.MediaPlayer2.") {
        let p = chars_of("org.mpris.MediaPlayer2.");
        let rest = string_of(c.as_slice(), p.len(), c.len());
        application_name(rest.as_str())
    } else {
        application_name(name)
    }
}

/// The media status after an observation that read at most `MAX_PLAYERS`
/// players (`limited` when more were left out), some of which may not have
/// answered (`unavailable`).
pub open spec fn media_status_of(limited: bool, unavailable: bool) -> Seq<char> {
    if limited {
        "Monitoring media; limited to 32 player services"@
    } else if unavailable {
        "Monitoring media; some players unavailable"@
    } else {
        "Monitoring media playback"@
    }
}

/// Records a media observation made at `now`: the distinct applications of
/// the playing players, in ascending order.
pub fn update_media(shared: &mut SharedState, playing: Vec<String>, limited: bool, unavailable: bool, now: u64)
    ensures
        strictly_sorted(texts(final(shared).desktop.playing@)),
        forall|t: Seq<char>| texts(final(shared).desktop.playing@).contains(t) <==> texts(playing@).contains(t),
        final(shared).desktop.media_status@ == media_status_of(limited, unavailable),
        final(shared).media_checked == Some(now),
        final(shared).lock_checked == old(shared).lock_checked,
        final(shared).desktop.locked == old(shared).desktop.locked,
        final(shared).desktop.lock_status@ == old(shared).desktop.lock_status@,
        final(shared).desktop.notification_status@ == old(shared).desktop.notification_status@,
        final(shared).desktop.notification_generation == old(shared).desktop.notification_generation,
{
    shared.desktop.playing = sorted_distinct(playing);
    shared.desktop.media_status = if limited {
        "Monitoring media; limited to 32 player services"
    } else if unavailable {
        "Monitoring media; some players unavailable"
    } else {
        "Monitoring media playback"
    }.to_owned();
    shared.media_checked = Some(now);
}

} // verus!
