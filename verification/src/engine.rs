//! Which notifications light the strip, and which lit pulse each one
//! updates, replaces or displaces. Brightness, timing curves and rendering are
//! computed elsewhere; instants are monotonic nanoseconds.
use vstd::prelude::*;
use crate::text::chars_of;
use crate::taskbar::{eq_ignore_ascii_case, eq_ignore_case};
use crate::config::{EffectKind, NotificationMode};

verus! {

/// Most pulses lit at once.
pub const MAX_PULSES: usize = 32;
/// Notifications older than this when they arrive light nothing.
pub const MAX_EVENT_AGE: u64 = 1_000_000_000;

/// What admission needs to know of a lit pulse.
pub struct PulseView {
    pub application: String,
    /// The desktop notification the pulse shows, where it shows one.
    pub identity: Option<(u64, u32)>,
    /// Stays lit until dismissed, rather than for a finite burst.
    pub persistent: bool,
    /// When the pulse's current envelope ends.
    pub until: u64,
}

/// What the rule that routes a notification says about lighting it.
#[derive(Clone, Copy)]
pub struct RuleGate {
    pub notifications: bool,
    pub minimum_urgency: u8,
    /// The rule's intensity is zero.
    pub dark: bool,
    /// The rule keeps notifications lit until they are dismissed.
    pub persistent: bool,
}

/// What a notification does to the lit pulses.
#[derive(Debug, PartialEq, Eq, Structural)]
pub enum Admission {
    /// It lights nothing.
    Rejected,
    /// It updates the pulse at `index`; a `settled` persistent pulse keeps
    /// its envelope.
    Update { index: usize, settled: bool },
    /// It lights a new pulse, first displacing the pulse at `evict` when
    /// every slot is taken.
    Insert { evict: Option<usize> },
}

/// The notification is fresh at `now`: not from the future and at most
/// `MAX_EVENT_AGE` old.
pub open spec fn fresh(received: u64, now: u64) -> bool {
    received <= now && now - received <= MAX_EVENT_AGE
}

/// The pulse `p` is the one a notification from `application` with
/// `identity`, under a rule that is `persistent` or not, updates: the same
/// desktop notification, or the same application's burst still lit, or its
/// identity-less persistent pulse.
pub open spec fn continues(p: PulseView, application: Seq<char>, identity: Option<(u64, u32)>, persistent: bool, now: u64) -> bool {
    ||| identity is Some && p.identity == identity
    ||| {
        &&& eq_ignore_ascii_case(p.application@, application)
        &&& p.persistent == persistent
        &&& ((!persistent && p.until > now) || (persistent && identity is None && p.identity is None))
    }
}

/// The first pulse from `i` on that the notification continues, or -1.
pub open spec fn continued_from(pulses: Seq<PulseView>, application: Seq<char>, identity: Option<(u64, u32)>, persistent: bool, now: u64, i: int) -> int
    decreases pulses.len() - i,
{
    if i < 0 || i >= pulses.len() {
        -1
    } else if continues(pulses[i], application, identity, persistent, now) {
        i
    } else {
        continued_from(pulses, application, identity, persistent, now, i + 1)
    }
}

/// The first pulse from `i` on that is a finite burst, or -1.
pub open spec fn burst_from(pulses: Seq<PulseView>, i: int) -> int
    decreases pulses.len() - i,
{
    if i < 0 || i >= pulses.len() {
        -1
    } else if !pulses[i].persistent {
        i
    } else {
        burst_from(pulses, i + 1)
    }
}

/// What a notification from `application` with `urgency` and `identity`,
/// received at `received` and handled at `now`, does to `pulses`, when
/// `rule` is the routed rule (or none routes it) and notifications are
/// `enabled`. Only a finite burst is ever displaced, the oldest first.
pub open spec fn admission_of(
    enabled: bool,
    received: u64,
    now: u64,
    rule: Option<RuleGate>,
    urgency: u8,
    identity: Option<(u64, u32)>,
    application: Seq<char>,
    pulses: Seq<PulseView>,
) -> Admission {
    if !enabled || !fresh(received, now) {
        Admission::Rejected
    } else {
        match rule {
            None => Admission::Rejected,
            Some(g) => if !g.notifications || urgency < g.minimum_urgency || g.dark {
                Admission::Rejected
            } else {
                let c = continued_from(pulses, application, identity, g.persistent, now, 0);
                if c >= 0 {
                    Admission::Update {
                        index: c as usize,
                        settled: pulses[c].persistent && g.persistent && now >= pulses[c].until,
                    }
                } else if pulses.len() >= MAX_PULSES {
                    let b = burst_from(pulses, 0);
                    if b < 0 {
                        Admission::Rejected
                    } else {
                        Admission::Insert { evict: Some(b as usize) }
                    }
                } else {
                    Admission::Insert { evict: None }
                }
            },
        }
    }
}

proof fn lemma_continued_bounds(pulses: Seq<PulseView>, application: Seq<char>, identity: Option<(u64, u32)>, persistent: bool, now: u64, i: int)
    requires
        0 <= i,
    ensures
        continued_from(pulses, application, identity, persistent, now, i) == -1 || i <= continued_from(pulses, application, identity, persistent, now, i) < pulses.len(),
    decreases pulses.len() - i,
{
    if i < pulses.len() && !continues(pulses[i], application, identity, persistent, now) {
        lemma_continued_bounds(pulses, application, identity, persistent, now, i + 1);
    }
}

proof fn lemma_burst_bounds(pulses: Seq<PulseView>, i: int)
    requires
        0 <= i,
    ensures
        burst_from(pulses, i) == -1 || i <= burst_from(pulses, i) < pulses.len(),
    decreases pulses.len() - i,
{
    if i < pulses.len() && pulses[i].persistent {
        lemma_burst_bounds(pulses, i + 1);
    }
}

/// Admission never displaces a persistent pulse, never lets the lit pulses
/// exceed `MAX_PULSES`, and only updates a pulse that exists.
pub proof fn lemma_admission_is_bounded(
    enabled: bool,
    received: u64,
    now: u64,
    rule: Option<RuleGate>,
    urgency: u8,
    identity: Option<(u64, u32)>,
    application: Seq<char>,
    pulses: Seq<PulseView>,
)
    requires
        pulses.len() <= usize::MAX,
    ensures
        match admission_of(enabled, received, now, rule, urgency, identity, application, pulses) {
            Admission::Rejected => true,
            Admission::Update { index, .. } => index < pulses.len(),
            Admission::Insert { evict: None } => pulses.len() < MAX_PULSES,
            Admission::Insert { evict: Some(b) } => b < pulses.len() && !pulses[b as int].persistent,
        },
{
    if let Some(g) = rule {
        lemma_continued_bounds(pulses, application, identity, g.persistent, now, 0);
        lemma_burst_bounds(pulses, 0);
        lemma_burst_is_burst(pulses, 0);
    }
}

proof fn lemma_burst_is_burst(pulses: Seq<PulseView>, i: int)
    requires
        0 <= i,
    ensures
        burst_from(pulses, i) >= 0 ==> !pulses[burst_from(pulses, i)].persistent,
    decreases pulses.len() - i,
{
    if i < pulses.len() && pulses[i].persistent {
        lemma_burst_is_burst(pulses, i + 1);
    }
}

fn same_identity(a: Option<(u64, u32)>, b: Option<(u64, u32)>) -> (r: bool)
    ensures
        r == (a == b),
{
    match (a, b) {
        (Some(x), Some(y)) => x.0 == y.0 && x.1 == y.1,
        (None, None) => true,
        _ => false,
    }
}

fn continues_exec(p: &PulseView, application: &str, identity: Option<(u64, u32)>, persistent: bool, now: u64) -> (r: bool)
    ensures
        r == continues(*p, application@, identity, persistent, now),
{
    if identity.is_some() && same_identity(p.identity, identity) {
        return true;
    }
    let c = chars_of(p.application.as_str());
    let n = c.len();
    assert(c@.subrange(0, n as int) =~= c@);
    let same_app = eq_ignore_case(c.as_slice(), 0, n, application);
    same_app && p.persistent == persistent && ((!persistent && p.until > now) || (persistent && identity.is_none()
        && p.identity.is_none()))
}

/// What a notification from `application` with `urgency` and `identity`,
/// received at `received` and handled at `now`, does to the lit `pulses`.
/// `rule` says how the rule matching the application treats notifications,
/// where one matches; `enabled` is whether notifications light anything.
pub fn admission(
    enabled: bool,
    received: u64,
    now: u64,
    rule: Option<RuleGate>,
    urgency: u8,
    identity: Option<(u64, u32)>,
    application: &str,
    pulses: &[PulseView],
) -> (r: Admission)
    ensures
        r == admission_of(enabled, received, now, rule, urgency, identity, application@, pulses@),
{
    if !enabled || received > now || now - received > MAX_EVENT_AGE {
        return Admission::Rejected;
    }
    let g = match rule {
        None => return Admission::Rejected,
        Some(g) => g,
    };
    if !g.notifications || urgency < g.minimum_urgency || g.dark {
        return Admission::Rejected;
    }
    let ghost ps = pulses@;
    let ghost app = application@;
    let mut i: usize = 0;
    while i < pulses.len()
        invariant
            i <= pulses@.len(),
            ps == pulses@,
            app == application@,
            continued_from(ps, app, identity, g.persistent, now, i as int) == continued_from(ps, app, identity, g.persistent, now, 0),
            enabled && fresh(received, now),
            rule == Some(g),
            g.notifications && urgency >= g.minimum_urgency && !g.dark,
        decreases pulses@.len() - i,
    {
        if continues_exec(&pulses[i], application, identity, g.persistent, now) {
            let p = &pulses[i];
            return Admission::Update { index: i, settled: p.persistent && g.persistent && now >= p.until };
        }
        i += 1;
    }
    proof {
        lemma_continued_bounds(ps, app, identity, g.persistent, now, 0);
    }
    if pulses.len() >= MAX_PULSES {
        let mut k: usize = 0;
        while k < pulses.len()
            invariant
                k <= pulses@.len(),
                ps == pulses@,
                burst_from(ps, k as int) == burst_from(ps, 0),
                enabled && fresh(received, now),
                rule == Some(g),
                g.notifications && urgency >= g.minimum_urgency && !g.dark,
                continued_from(ps, application@, identity, g.persistent, now, 0) == -1,
                pulses@.len() >= MAX_PULSES,
            decreases pulses@.len() - k,
        {
            if !pulses[k].persistent {
                return Admission::Insert { evict: Some(k) };
            }
            k += 1;
        }
        return Admission::Rejected;
    }
    Admission::Insert { evict: None }
}

/// Whether a persistent pulse of `urgency` stays lit after the configuration
/// changes: notifications are `enabled`, its application still routes to a
/// rule (`rule`), and that rule still keeps notifications of that urgency
/// lit.
pub fn keeps_persistent(enabled: bool, rule: Option<RuleGate>, urgency: u8) -> (r: bool)
    ensures
        r == (enabled && (match rule {
            Some(g) => g.notifications && g.persistent && urgency >= g.minimum_urgency && !g.dark,
            None => false,
        })),
{
    match rule {
        None => false,
        Some(g) => enabled && g.notifications && g.persistent && urgency >= g.minimum_urgency && !g.dark,
    }
}

/// A critical notification is emphasized where its rule asks for the accent.
pub fn emphasized(urgency: u8, critical_accent: bool) -> (r: bool)
    ensures
        r == (urgency >= 2 && critical_accent),
{
    urgency >= 2 && critical_accent
}


/// A lit pulse as plain values: what admission reads, the index of the rule
/// that routed it and its urgency. Its brightness envelope is kept beside
/// the list, position for position.
pub struct LitView {
    pub application: Seq<char>,
    pub identity: Option<(u64, u32)>,
    pub persistent: bool,
    pub until: u64,
    pub rule_index: usize,
    pub urgency: u8,
}

pub open spec fn lit_view(p: PulseView, rule_index: usize, urgency: u8) -> LitView {
    LitView { application: p.application@, identity: p.identity, persistent: p.persistent, until: p.until, rule_index, urgency }
}

/// Which lit pulses a removal drops.
#[derive(Clone, Copy, Debug, PartialEq, Eq, Structural)]
pub enum Removal {
    /// The pulse of one desktop notification.
    Identity(u64, u32),
    /// Persistent pulses: of the rule at this index, or of every rule.
    Persistent(Option<usize>),
    /// Every finite burst; persistent pulses stay.
    Transient,
    /// Every pulse.
    All,
}

/// The pulse `p` survives `removal`.
pub open spec fn survives(removal: Removal, p: LitView) -> bool {
    match removal {
        Removal::Identity(generation, id) => p.identity != Some((generation, id)),
        Removal::Persistent(rule) => !p.persistent || (rule matches Some(i) && p.rule_index != i),
        Removal::Transient => p.persistent,
        Removal::All => false,
    }
}

/// The pulses of `s` that survive `removal`, in order.
pub open spec fn surviving(s: Seq<LitView>, removal: Removal) -> Seq<LitView>
    decreases s.len(),
{
    if s.len() == 0 {
        Seq::empty()
    } else {
        let rest = surviving(s.drop_last(), removal);
        if survives(removal, s.last()) { rest.push(s.last()) } else { rest }
    }
}

/// How many pulses of `s` are persistent, of the rule at `rule` or of any.
pub open spec fn persistent_in(s: Seq<LitView>, rule: Option<usize>) -> nat
    decreases s.len(),
{
    if s.len() == 0 {
        0
    } else {
        let p = s.last();
        persistent_in(s.drop_last(), rule) + if p.persistent && (rule matches Some(i) ==> p.rule_index == i) { 1nat } else { 0nat }
    }
}

/// The pulses after a notification was admitted as `a`: an update rewrites
/// the pulse in place (a settled persistent pulse keeps its envelope end),
/// an insertion appends `fresh`, after displacing the evicted pulse.
pub open spec fn admitted(s: Seq<LitView>, a: Admission, fresh: LitView) -> Seq<LitView> {
    match a {
        Admission::Rejected => s,
        Admission::Update { index, settled } => s.update(index as int, LitView {
            until: if settled { s[index as int].until } else { fresh.until },
            ..fresh
        }),
        Admission::Insert { evict: None } => s.push(fresh),
        Admission::Insert { evict: Some(b) } => s.remove(b as int).push(fresh),
    }
}

fn copy_view(p: &PulseView) -> (r: PulseView)
    ensures
        r.application@ == p.application@,
        r.identity == p.identity,
        r.persistent == p.persistent,
        r.until == p.until,
{
    PulseView { application: p.application.clone(), identity: p.identity, persistent: p.persistent, until: p.until }
}

/// The pulses of real notifications, at most `MAX_PULSES` of them: what
/// admission reads of each, with its rule index and urgency beside it.
pub struct Pulses {
    lit: Vec<PulseView>,
    meta: Vec<(usize, u8)>,
}

impl Pulses {
    /// The lit pulses as admission reads them.
    pub closed spec fn lit(&self) -> Seq<PulseView> {
        self.lit@
    }

    pub closed spec fn items(&self) -> Seq<LitView> {
        Seq::new(self.lit@.len(), |i: int| lit_view(self.lit@[i], self.meta@[i].0, self.meta@[i].1))
    }

    pub closed spec fn wf(&self) -> bool {
        &&& self.lit@.len() == self.meta@.len()
        &&& self.lit@.len() <= MAX_PULSES
    }

    /// At most `MAX_PULSES` pulses are ever lit.
    pub proof fn lemma_pulse_count_bound(&self)
        requires
            self.wf(),
        ensures
            self.items().len() <= MAX_PULSES,
    {
    }

    /// When every lit pulse is persistent and every slot is taken, `notify`
    /// (whose result is this admission) lights no new pulse.
    pub proof fn lemma_full_list_rejects(
        &self,
        enabled: bool,
        received: u64,
        now: u64,
        rule: Option<RuleGate>,
        urgency: u8,
        identity: Option<(u64, u32)>,
        application: Seq<char>,
    )
        requires
            self.wf(),
            self.items().len() == MAX_PULSES,
            persistent_in(self.items(), None) == MAX_PULSES,
        ensures
            !(admission_of(enabled, received, now, rule, urgency, identity, application, self.lit()) is Insert),
    {
        lemma_all_persistent(self.items());
        assert forall|j: int| 0 <= j < self.lit().len() implies (#[trigger] self.lit()[j]).persistent by {
            assert(self.items()[j].persistent);
        }
        lemma_full_of_persistent_rejects(enabled, received, now, rule, urgency, identity, application, self.lit());
    }

    /// What admission reads of the items is the list itself.
    pub proof fn lemma_lit_is_items(&self)
        requires
            self.wf(),
        ensures
            self.lit().len() == self.items().len(),
            forall|i: int| 0 <= i < self.lit().len() ==> (#[trigger] self.lit()[i]).application@ == self.items()[i].application
                && self.lit()[i].identity == self.items()[i].identity && self.lit()[i].persistent == self.items()[i].persistent
                && self.lit()[i].until == self.items()[i].until,
    {
    }

    pub fn new() -> (r: Pulses)
        ensures
            r.wf(),
            r.items() == Seq::<LitView>::empty(),
    {
        let r = Pulses { lit: Vec::new(), meta: Vec::new() };
        assert(r.items() =~= Seq::<LitView>::empty());
        r
    }

    pub fn len(&self) -> (r: usize)
        requires
            self.wf(),
        ensures
            r == self.items().len(),
            r <= MAX_PULSES,
    {
        self.lit.len()
    }

    /// Handles a notification as `admission` decides and returns that
    /// decision; `rule` is the routed rule's index and gate, and `until` the
    /// end of the envelope a new or renewed pulse gets.
    pub fn notify(
        &mut self,
        enabled: bool,
        received: u64,
        now: u64,
        rule: Option<(usize, RuleGate)>,
        urgency: u8,
        identity: Option<(u64, u32)>,
        application: &str,
        until: u64,
    ) -> (r: Admission)
        requires
            old(self).wf(),
        ensures
            final(self).wf(),
            r == admission_of(enabled, received, now, match rule { Some((_, g)) => Some(g), None => None }, urgency, identity,
                application@, old(self).lit()),
            final(self).items() == admitted(old(self).items(), r, LitView {
                application: application@,
                identity,
                persistent: match rule { Some((_, g)) => g.persistent, None => false },
                until,
                rule_index: match rule { Some((i, _)) => i, None => 0 },
                urgency,
            }),
    {
        let ghost before = self.items();
        let gate = match rule {
            Some((_, g)) => Some(g),
            None => None,
        };
        let a = admission(enabled, received, now, gate, urgency, identity, application, self.lit.as_slice());
        proof {
            lemma_admission_is_bounded(enabled, received, now, gate, urgency, identity, application@, self.lit@);
        }
        let (rule_index, persistent) = match rule {
            Some((i, g)) => (i, g.persistent),
            None => (0, false),
        };
        let ghost fresh = LitView { application: application@, identity, persistent, until, rule_index, urgency };
        match a {
            Admission::Rejected => {},
            Admission::Update { index, settled } => {
                let end = if settled { self.lit[index].until } else { until };
                self.lit.set(index, PulseView { application: application.to_string(), identity, persistent, until: end });
                self.meta.set(index, (rule_index, urgency));
                assert(self.items() =~= admitted(before, a, fresh));
            },
            Admission::Insert { evict } => {
                if let Some(b) = evict {
                    self.lit.remove(b);
                    self.meta.remove(b);
                    assert(self.items() =~= before.remove(b as int));
                }
                let ghost mid = self.items();
                self.lit.push(PulseView { application: application.to_string(), identity, persistent, until });
                self.meta.push((rule_index, urgency));
                assert(self.items() =~= mid.push(fresh));
            },
        }
        a
    }

    /// Drops the pulses that `removal` names, keeping the others in order.
    pub fn remove_where(&mut self, removal: Removal)
        requires
            old(self).wf(),
        ensures
            final(self).wf(),
            final(self).items() == surviving(old(self).items(), removal),
    {
        let ghost before = self.items();
        let mut lit: Vec<PulseView> = Vec::new();
        let mut meta: Vec<(usize, u8)> = Vec::new();
        let mut i: usize = 0;
        while i < self.lit.len()
            invariant
                self.wf(),
                before == self.items(),
                i <= self.lit@.len(),
                lit@.len() == meta@.len(),
                lit@.len() <= i,
                Seq::new(lit@.len(), |k: int| lit_view(lit@[k], meta@[k].0, meta@[k].1)) == surviving(before.take(i as int), removal),
            decreases self.lit@.len() - i,
        {
            let p = &self.lit[i];
            let m = self.meta[i];
            assert(before.take(i + 1).drop_last() =~= before.take(i as int));
            assert(before.take(i + 1).last() == lit_view(*p, m.0, m.1));
            let keep = match removal {
                Removal::Identity(generation, id) => match p.identity {
                    Some(x) => !(x.0 == generation && x.1 == id),
                    None => true,
                },
                Removal::Persistent(rule) => !p.persistent || match rule {
                    Some(k) => m.0 != k,
                    None => false,
                },
                Removal::Transient => p.persistent,
                Removal::All => false,
            };
            assert(keep == survives(removal, lit_view(*p, m.0, m.1)));
            let ghost prior = Seq::new(lit@.len(), |k: int| lit_view(lit@[k], meta@[k].0, meta@[k].1));
            if keep {
                let q = copy_view(p);
                lit.push(q);
                meta.push(m);
                assert(Seq::new(lit@.len(), |k: int| lit_view(lit@[k], meta@[k].0, meta@[k].1)) =~= prior.push(lit_view(*p, m.0, m.1)));
            }
            i += 1;
        }
        assert(before.take(i as int) =~= before);
        self.lit = lit;
        self.meta = meta;
        assert(self.items() =~= surviving(before, removal));
    }

    /// How many persistent pulses are lit, of the rule at `rule` or of any.
    pub fn persistent_count(&self, rule: Option<usize>) -> (r: usize)
        requires
            self.wf(),
        ensures
            r == persistent_in(self.items(), rule),
    {
        let ghost items = self.items();
        let mut count: usize = 0;
        let mut i: usize = 0;
        while i < self.lit.len()
            invariant
                self.wf(),
                items == self.items(),
                i <= self.lit@.len(),
                count == persistent_in(items.take(i as int), rule),
                count <= i,
            decreases self.lit@.len() - i,
        {
            assert(items.take(i + 1).drop_last() =~= items.take(i as int));
            assert(items.take(i + 1).last() == items[i as int]);
            let counts = self.lit[i].persistent && match rule {
                Some(k) => self.meta[i].0 == k,
                None => true,
            };
            if counts {
                count += 1;
            }
            i += 1;
        }
        assert(items.take(i as int) =~= items);
        count
    }
}

/// Removing pulses keeps only those that survive, never more than there
/// were, and a pulse of the dismissed notification never survives.
pub proof fn lemma_removal_only_drops(s: Seq<LitView>, removal: Removal)
    ensures
        surviving(s, removal).len() <= s.len(),
        forall|i: int| 0 <= i < surviving(s, removal).len() ==> survives(removal, #[trigger] surviving(s, removal)[i]),
    decreases s.len(),
{
    if s.len() > 0 {
        lemma_removal_only_drops(s.drop_last(), removal);
        let rest = surviving(s.drop_last(), removal);
        if survives(removal, s.last()) {
            assert forall|i: int| 0 <= i < rest.push(s.last()).len() implies survives(removal, #[trigger] rest.push(s.last())[i]) by {
                if i < rest.len() {
                    assert(rest.push(s.last())[i] == rest[i]);
                }
            }
        }
    }
}


proof fn lemma_continued_found(pulses: Seq<PulseView>, application: Seq<char>, identity: Option<(u64, u32)>, persistent: bool, now: u64, i: int, k: int)
    requires
        0 <= i <= k < pulses.len(),
        continues(pulses[k], application, identity, persistent, now),
    ensures
        continued_from(pulses, application, identity, persistent, now, i) >= 0,
    decreases k - i,
{
    if !continues(pulses[i], application, identity, persistent, now) {
        lemma_continued_found(pulses, application, identity, persistent, now, i + 1, k);
    }
}

/// A notification of a desktop notification that already has a lit pulse
/// never lights a new one: it updates a pulse or is rejected, so the count
/// of lit pulses stays the same.
pub proof fn lemma_known_identity_updates(
    enabled: bool,
    received: u64,
    now: u64,
    rule: Option<RuleGate>,
    urgency: u8,
    identity: Option<(u64, u32)>,
    application: Seq<char>,
    pulses: Seq<PulseView>,
    k: int,
)
    requires
        identity is Some,
        0 <= k < pulses.len(),
        pulses[k].identity == identity,
    ensures
        admission_of(enabled, received, now, rule, urgency, identity, application, pulses) is Rejected
            || admission_of(enabled, received, now, rule, urgency, identity, application, pulses) is Update,
{
    if let Some(g) = rule {
        lemma_continued_found(pulses, application, identity, g.persistent, now, 0, k);
    }
}

proof fn lemma_no_burst(pulses: Seq<PulseView>, i: int)
    requires
        0 <= i,
        forall|j: int| 0 <= j < pulses.len() ==> (#[trigger] pulses[j]).persistent,
    ensures
        burst_from(pulses, i) == -1,
    decreases pulses.len() - i,
{
    if i < pulses.len() {
        lemma_no_burst(pulses, i + 1);
    }
}

/// With every slot taken by a persistent pulse, a notification that updates
/// no lit pulse is rejected: persistent pulses are never displaced.
pub proof fn lemma_full_of_persistent_rejects(
    enabled: bool,
    received: u64,
    now: u64,
    rule: Option<RuleGate>,
    urgency: u8,
    identity: Option<(u64, u32)>,
    application: Seq<char>,
    pulses: Seq<PulseView>,
)
    requires
        pulses.len() >= MAX_PULSES,
        forall|j: int| 0 <= j < pulses.len() ==> (#[trigger] pulses[j]).persistent,
    ensures
        !(admission_of(enabled, received, now, rule, urgency, identity, application, pulses) is Insert),
{
    lemma_no_burst(pulses, 0);
}

/// Every pulse of `s` is persistent when all of them count as persistent.
pub proof fn lemma_all_persistent(s: Seq<LitView>)
    requires
        persistent_in(s, None) == s.len(),
    ensures
        forall|j: int| 0 <= j < s.len() ==> (#[trigger] s[j]).persistent,
    decreases s.len(),
{
    if s.len() > 0 {
        lemma_persistent_at_most(s.drop_last());
        lemma_all_persistent(s.drop_last());
        assert forall|j: int| 0 <= j < s.len() implies (#[trigger] s[j]).persistent by {
            if j < s.len() - 1 {
                assert(s.drop_last()[j] == s[j]);
            }
        }
    }
}

proof fn lemma_persistent_at_most(s: Seq<LitView>)
    ensures
        persistent_in(s, None) <= s.len(),
    decreases s.len(),
{
    if s.len() > 0 {
        lemma_persistent_at_most(s.drop_last());
    }
}


/// What the routed rule says about lighting, from its settings: a
/// persistent rule keeps notifications lit until they are dismissed.
pub fn rule_gate(notifications: bool, minimum_urgency: u8, dark: bool, mode: NotificationMode) -> (r: RuleGate)
    ensures
        r.notifications == notifications,
        r.minimum_urgency == minimum_urgency,
        r.dark == dark,
        r.persistent == (mode == NotificationMode::Persistent),
{
    RuleGate { notifications, minimum_urgency, dark, persistent: matches!(mode, NotificationMode::Persistent) }
}

/// What an update does to a pulse's sweep.
#[derive(Clone, Copy, Debug, PartialEq, Eq, Structural)]
pub enum Sweep {
    /// The sweep goes on unchanged.
    Keep,
    /// A ripple starts again from where it has got to.
    Resume,
    /// The pulse starts over: born now, sweeping from the start.
    Restart,
}

/// The sweep of an updated pulse: a ripple that is not settled and keeps
/// its mode resumes; a pulse that changes between burst and persistent
/// starts over; anything else keeps its sweep.
pub fn sweep_on_update(settled: bool, effect: EffectKind, was_persistent: bool, persistent: bool) -> (r: Sweep)
    ensures
        r == (if !settled && effect == EffectKind::Ripple && was_persistent == persistent {
            Sweep::Resume
        } else if was_persistent != persistent {
            Sweep::Restart
        } else {
            Sweep::Keep
        }),
{
    if !settled && matches!(effect, EffectKind::Ripple) && was_persistent == persistent {
        Sweep::Resume
    } else if was_persistent != persistent {
        Sweep::Restart
    } else {
        Sweep::Keep
    }
}


proof fn lemma_none_continues(pulses: Seq<PulseView>, application: Seq<char>, identity: Option<(u64, u32)>, persistent: bool, now: u64, i: int)
    requires
        0 <= i,
        forall|k: int| 0 <= k < pulses.len() ==> !continues(#[trigger] pulses[k], application, identity, persistent, now),
    ensures
        continued_from(pulses, application, identity, persistent, now, i) == -1,
    decreases pulses.len() - i,
{
    if i < pulses.len() {
        lemma_none_continues(pulses, application, identity, persistent, now, i + 1);
    }
}

/// Under a persistent rule, each desktop notification keeps a pulse of its
/// own: an admitted notification with an identity that no lit pulse
/// carries is never merged into another pulse, not even a persistent pulse
/// of the same application. With a free slot it lights a new pulse.
pub proof fn lemma_new_identity_gets_own_pulse(
    received: u64,
    now: u64,
    g: RuleGate,
    urgency: u8,
    identity: Option<(u64, u32)>,
    application: Seq<char>,
    pulses: Seq<PulseView>,
)
    requires
        g.persistent,
        identity is Some,
        forall|k: int| 0 <= k < pulses.len() ==> (#[trigger] pulses[k]).identity != identity,
    ensures
        !(admission_of(true, received, now, Some(g), urgency, identity, application, pulses) is Update),
        fresh(received, now) && g.notifications && urgency >= g.minimum_urgency && !g.dark && pulses.len() < MAX_PULSES
            ==> admission_of(true, received, now, Some(g), urgency, identity, application, pulses) == (Admission::Insert { evict: None }),
{
    assert forall|k: int| 0 <= k < pulses.len() implies !continues(#[trigger] pulses[k], application, identity, true, now) by {
        assert(pulses[k].identity != identity);
    }
    lemma_none_continues(pulses, application, identity, true, now, 0);
}

/// Identity-less notifications of one application under a persistent rule
/// share one pulse: where that application, ignoring ASCII case, has an
/// identity-less persistent pulse and no lit pulse comes before it that the
/// notification would update, an admitted notification updates that pulse.
pub proof fn lemma_anonymous_persistent_coalesce(
    received: u64,
    now: u64,
    g: RuleGate,
    urgency: u8,
    application: Seq<char>,
    pulses: Seq<PulseView>,
    k: int,
)
    requires
        g.persistent,
        fresh(received, now),
        g.notifications && urgency >= g.minimum_urgency && !g.dark,
        0 <= k < pulses.len(),
        eq_ignore_ascii_case(pulses[k].application@, application),
        pulses[k].persistent,
        pulses[k].identity is None,
    ensures
        admission_of(true, received, now, Some(g), urgency, None, application, pulses) is Update,
{
    lemma_continued_found(pulses, application, None, true, now, 0, k);
    lemma_continued_bounds(pulses, application, None, true, now, 0);
}


/// A burst that is still lit takes in the next notification of its
/// application: under a rule that is not persistent, an admitted
/// identity-less notification from an application (ignoring ASCII case)
/// with a lit burst updates a pulse rather than lighting another.
pub proof fn lemma_lit_burst_coalesces(
    received: u64,
    now: u64,
    g: RuleGate,
    urgency: u8,
    application: Seq<char>,
    pulses: Seq<PulseView>,
    k: int,
)
    requires
        !g.persistent,
        fresh(received, now),
        g.notifications && urgency >= g.minimum_urgency && !g.dark,
        0 <= k < pulses.len(),
        eq_ignore_ascii_case(pulses[k].application@, application),
        !pulses[k].persistent,
        pulses[k].until > now,
    ensures
        admission_of(true, received, now, Some(g), urgency, None, application, pulses) is Update,
{
    lemma_continued_found(pulses, application, None, false, now, 0, k);
    lemma_continued_bounds(pulses, application, None, false, now, 0);
}

/// A burst that has run out is not extended: under a rule that is not
/// persistent, an identity-less notification updates no pulse when every
/// burst of its application has ended by `now`.
pub proof fn lemma_ended_bursts_stay_ended(
    received: u64,
    now: u64,
    g: RuleGate,
    urgency: u8,
    application: Seq<char>,
    pulses: Seq<PulseView>,
)
    requires
        !g.persistent,
        forall|k: int| 0 <= k < pulses.len() && eq_ignore_ascii_case((#[trigger] pulses[k]).application@, application)
            && !pulses[k].persistent ==> pulses[k].until <= now,
    ensures
        !(admission_of(true, received, now, Some(g), urgency, None, application, pulses) is Update),
{
    assert forall|k: int| 0 <= k < pulses.len() implies !continues(#[trigger] pulses[k], application, None, false, now) by {
        if eq_ignore_ascii_case(pulses[k].application@, application) && !pulses[k].persistent {
            assert(pulses[k].until <= now);
        }
    }
    lemma_none_continues(pulses, application, None, false, now, 0);
}

} // verus!
