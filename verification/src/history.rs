//! Undoable editor drafts, separate from device and lighting runtime state.
use vstd::prelude::*;
use vstd::std_specs::cmp::PartialEqSpec;

verus! {

/// The most drafts a timeline holds, the current one included.
pub const MAX_SNAPSHOTS: usize = 65;

/// A timeline of editor drafts with a cursor at the current one. Drafts after
/// the cursor can be redone; drafts before it can be undone.
pub struct EditorHistory<T> {
    snapshots: Vec<T>,
    cursor: usize,
    active_group: Option<u64>,
}

/// Whether two drafts are equal, as `==` compares them.
pub open spec fn same<T: PartialEq>(a: T, b: T) -> bool {
    a.eq_spec(&b)
}

/// The timeline after `record` of `draft` in `group`: the drafts, the cursor,
/// the open gesture group and whether anything changed.
pub open spec fn recorded<T: PartialEq>(
    s: Seq<T>,
    c: int,
    g: Option<u64>,
    draft: T,
    group: Option<u64>,
) -> (Seq<T>, int, Option<u64>, bool) {
    let open = if g != group { None } else { g };
    if same(s[c], draft) {
        (s, c, open, false)
    } else {
        let kept = s.take(c + 1);
        if group is Some && open == group {
            if same(kept[c - 1], draft) {
                // A gesture that returns to its start leaves no undo step.
                (kept.take(c), c - 1, None, true)
            } else {
                (kept.update(c, draft), c, group, true)
            }
        } else if kept.len() == MAX_SNAPSHOTS {
            (kept.skip(1).push(draft), c, group, true)
        } else {
            (kept.push(draft), c + 1, group, true)
        }
    }
}

/// The cursor after an undo from `c`.
pub open spec fn undo_position(c: int) -> int {
    if c > 0 { c - 1 } else { c }
}

/// The cursor after a redo from `c` in a timeline of `len` drafts.
pub open spec fn redo_position(len: int, c: int) -> int {
    if c + 1 < len { c + 1 } else { c }
}

/// Recording a draft that differs from the current one, outside any gesture
/// group, makes it current and leaves the draft it replaced one undo away.
pub proof fn lemma_undo_restores_replaced<T: PartialEq>(s: Seq<T>, c: int, g: Option<u64>, draft: T)
    requires
        1 <= s.len() <= MAX_SNAPSHOTS,
        0 <= c < s.len(),
        g is Some ==> c >= 1,
        !same(s[c], draft),
    ensures
        ({
            let (s2, c2, g2, changed) = recorded(s, c, g, draft, None);
            &&& changed
            &&& g2 is None
            &&& c2 >= 1
            &&& s2[c2] == draft
            &&& s2[undo_position(c2)] == s[c]
            &&& redo_position(s2.len() as int, c2) == c2
        }),
{
}

/// Recording a draft equal to the current one changes nothing: redo stays intact.
pub proof fn lemma_equal_draft_keeps_timeline<T: PartialEq>(s: Seq<T>, c: int, g: Option<u64>, draft: T, group: Option<u64>)
    requires
        0 <= c < s.len(),
        same(s[c], draft),
    ensures
        ({
            let (s2, c2, _, changed) = recorded(s, c, g, draft, group);
            !changed && s2 == s && c2 == c
        }),
{
}

/// A redo after an undo that moved returns to the draft the undo left.
pub proof fn lemma_redo_after_undo(len: int, c: int)
    requires
        0 < c < len,
    ensures
        redo_position(len, undo_position(c)) == c,
{
}

impl<T: PartialEq + Clone> EditorHistory<T> {
    /// The drafts, oldest first.
    pub closed spec fn drafts(&self) -> Seq<T> {
        self.snapshots@
    }

    /// The position of the current draft.
    pub closed spec fn position(&self) -> int {
        self.cursor as int
    }

    /// The gesture group whose changes replace each other, if one is open.
    pub closed spec fn group(&self) -> Option<u64> {
        self.active_group
    }

    /// The current draft.
    pub open spec fn current(&self) -> T {
        self.drafts()[self.position()]
    }

    /// At least one and at most `MAX_SNAPSHOTS` drafts, the cursor on one of
    /// them, and an open group only once a draft before the cursor exists.
    pub open spec fn wf(&self) -> bool {
        &&& 1 <= self.drafts().len() <= MAX_SNAPSHOTS
        &&& 0 <= self.position() < self.drafts().len()
        &&& self.group() is Some ==> self.position() >= 1
    }

    /// A timeline holding only `initial`.
    pub fn new(initial: T) -> (h: Self)
        ensures
            h.wf(),
            h.drafts() == seq![initial],
            h.position() == 0,
            h.group() is None,
    {
        let mut snapshots = Vec::new();
        snapshots.push(initial);
        EditorHistory { snapshots, cursor: 0, active_group: None }
    }

    /// Records a draft without validating it. A draft equal to the current
    /// one changes nothing and leaves redo intact. Consecutive changes in the
    /// same group replace the gesture's latest draft; `None`, another group or
    /// `finish_group` separates undo steps. Returns whether the timeline changed.
    pub fn record(&mut self, draft: T, group: Option<u64>) -> (changed: bool)
        requires
            old(self).wf(),
            T::obeys_eq_spec(),
        ensures
            final(self).wf(),
            ({
                let (s, c, g, ch) = recorded(old(self).drafts(), old(self).position(), old(self).group(), draft, group);
                &&& final(self).drafts() == s
                &&& final(self).position() == c
                &&& final(self).group() == g
                &&& changed == ch
            }),
            record_step(*old(self), draft, group, *final(self), changed),
    {
        if self.active_group != group {
            self.finish_group();
        }
        let ghost s = self.snapshots@;
        let ghost c = self.cursor as int;
        if self.snapshots[self.cursor] == draft {
            return false;
        }
        self.snapshots.truncate(self.cursor + 1);
        assert(self.snapshots@ =~= s.take(c + 1));
        if group.is_some() && self.active_group == group {
            if self.snapshots[self.cursor - 1] == draft {
                self.snapshots.pop();
                assert(self.snapshots@ =~= s.take(c + 1).take(c));
                self.cursor -= 1;
                self.active_group = None;
                return true;
            }
            let at = self.cursor;
            self.snapshots.set(at, draft);
        } else {
            // Evict before pushing so a full timeline never grows.
            if self.snapshots.len() == MAX_SNAPSHOTS {
                self.snapshots.remove(0);
                assert(self.snapshots@ =~= s.take(c + 1).skip(1));
                self.cursor -= 1;
            }
            self.snapshots.push(draft);
            self.cursor += 1;
        }
        self.active_group = group;
        true
    }

    /// Closes the open gesture group: the next change is an undo step of its own.
    pub fn finish_group(&mut self)
        requires
            old(self).wf(),
        ensures
            final(self).wf(),
            final(self).drafts() == old(self).drafts(),
            final(self).position() == old(self).position(),
            final(self).group() is None,
    {
        self.active_group = None;
    }

    /// Steps back to the previous draft and returns a copy of it, or `None`
    /// at the oldest draft. Closes the open group either way.
    pub fn undo(&mut self) -> (r: Option<T>)
        requires
            old(self).wf(),
        ensures
            final(self).wf(),
            final(self).drafts() == old(self).drafts(),
            final(self).group() is None,
            final(self).position() == undo_position(old(self).position()),
            old(self).position() == 0 ==> r is None,
            old(self).position() > 0 ==> (r matches Some(x) && cloned(final(self).current(), x)),
            undo_step(*old(self), *final(self), r),
    {
        self.finish_group();
        if !self.can_undo() {
            return None;
        }
        self.cursor -= 1;
        Some(self.snapshots[self.cursor].clone())
    }

    /// Steps forward to the next draft and returns a copy of it, or `None`
    /// at the newest draft. Closes the open group either way.
    pub fn redo(&mut self) -> (r: Option<T>)
        requires
            old(self).wf(),
        ensures
            final(self).wf(),
            final(self).drafts() == old(self).drafts(),
            final(self).group() is None,
            final(self).position() == redo_position(old(self).drafts().len() as int, old(self).position()),
            old(self).position() + 1 == old(self).drafts().len() ==> r is None,
            old(self).position() + 1 < old(self).drafts().len() ==> (r matches Some(x) && cloned(final(self).current(), x)),
            redo_step(*old(self), *final(self), r),
    {
        self.finish_group();
        if !self.can_redo() {
            return None;
        }
        self.cursor += 1;
        Some(self.snapshots[self.cursor].clone())
    }

    pub fn can_undo(&self) -> (r: bool)
        requires
            self.wf(),
        ensures
            r == (self.position() > 0),
    {
        self.cursor > 0
    }

    pub fn can_redo(&self) -> (r: bool)
        requires
            self.wf(),
        ensures
            r == (self.position() + 1 < self.drafts().len()),
    {
        self.cursor + 1 < self.snapshots.len()
    }
}


/// `after` is `before` after `record(draft, group)` returned `changed`.
pub open spec fn record_step<T: PartialEq + Clone>(before: EditorHistory<T>, draft: T, group: Option<u64>, after: EditorHistory<T>, changed: bool) -> bool {
    let (s, c, g, ch) = recorded(before.drafts(), before.position(), before.group(), draft, group);
    &&& after.wf()
    &&& after.drafts() == s
    &&& after.position() == c
    &&& after.group() == g
    &&& changed == ch
}

/// `after` is `before` after `undo` returned `r`.
pub open spec fn undo_step<T: PartialEq + Clone>(before: EditorHistory<T>, after: EditorHistory<T>, r: Option<T>) -> bool {
    &&& after.wf()
    &&& after.drafts() == before.drafts()
    &&& after.group() is None
    &&& after.position() == undo_position(before.position())
    &&& (before.position() == 0 ==> r is None)
    &&& (before.position() > 0 ==> (r matches Some(x) && cloned(after.current(), x)))
}

/// `after` is `before` after `redo` returned `r`.
pub open spec fn redo_step<T: PartialEq + Clone>(before: EditorHistory<T>, after: EditorHistory<T>, r: Option<T>) -> bool {
    &&& after.wf()
    &&& after.drafts() == before.drafts()
    &&& after.group() is None
    &&& after.position() == redo_position(before.drafts().len() as int, before.position())
    &&& (before.position() + 1 == before.drafts().len() ==> r is None)
    &&& (before.position() + 1 < before.drafts().len() ==> (r matches Some(x) && cloned(after.current(), x)))
}

/// A clone of a draft is the draft itself.
pub open spec fn clones_exactly<T: Clone>() -> bool {
    forall|a: T, b: T| #[trigger] cloned(a, b) ==> a == b
}

/// Undo after a change: recording a draft that differs from the current
/// one, outside a gesture group, and then undoing gives back the draft that
/// was current before (for drafts whose clone is the draft itself), and
/// leaves redo available.
pub proof fn lemma_undo_after_record<T: PartialEq + Clone>(
    h0: EditorHistory<T>,
    draft: T,
    h1: EditorHistory<T>,
    h2: EditorHistory<T>,
    r: Option<T>,
)
    requires
        h0.wf(),
        record_step(h0, draft, None, h1, true),
        undo_step(h1, h2, r),
    ensures
        r matches Some(x) && cloned(h0.current(), x),
        clones_exactly::<T>() ==> r == Some(h0.current()),
        h2.current() == h0.current(),
        h2.position() + 1 < h2.drafts().len(),
{
    lemma_undo_restores_replaced(h0.drafts(), h0.position(), h0.group(), draft);
    if clones_exactly::<T>() {
        let x = r->0;
        assert(cloned(h2.current(), x));
    }
}

/// Redo inverts undo: after an undo that gave `u`, a redo gives back the
/// draft that was current before the undo, and undoing again gives `u`
/// once more (for drafts whose clone is the draft itself).
pub proof fn lemma_redo_inverts_undo<T: PartialEq + Clone>(
    h0: EditorHistory<T>,
    h1: EditorHistory<T>,
    u: T,
    h2: EditorHistory<T>,
    r2: Option<T>,
    h3: EditorHistory<T>,
    r3: Option<T>,
)
    requires
        h0.wf(),
        undo_step(h0, h1, Some(u)),
        redo_step(h1, h2, r2),
        undo_step(h2, h3, r3),
    ensures
        h2.current() == h0.current(),
        r2 matches Some(x) && cloned(h0.current(), x),
        h3.current() == h1.current(),
        r3 matches Some(y) && cloned(h1.current(), y),
        clones_exactly::<T>() ==> r2 == Some(h0.current()) && r3 == Some(u),
{
    lemma_redo_after_undo(h0.drafts().len() as int, h0.position());
    if clones_exactly::<T>() {
        assert(cloned(h1.current(), u));
        assert(cloned(h2.current(), r2->0));
        assert(cloned(h3.current(), r3->0));
    }
}

/// Recording a draft equal to the current one reports no change and leaves
/// the drafts and the cursor as they were, so undo and redo give what they
/// gave before.
pub proof fn lemma_equal_record_changes_nothing<T: PartialEq + Clone>(
    h0: EditorHistory<T>,
    draft: T,
    group: Option<u64>,
    h1: EditorHistory<T>,
    changed: bool,
)
    requires
        h0.wf(),
        same(h0.current(), draft),
        record_step(h0, draft, group, h1, changed),
    ensures
        !changed,
        h1.drafts() == h0.drafts(),
        h1.position() == h0.position(),
{
    lemma_equal_draft_keeps_timeline(h0.drafts(), h0.position(), h0.group(), draft, group);
}


/// A full timeline forgets its oldest draft: recording a new draft, outside
/// the open gesture group, with the cursor on the newest of `MAX_SNAPSHOTS`
/// drafts drops the first draft, keeps the others in order and appends the
/// new one, which becomes current.
pub proof fn lemma_full_timeline_drops_oldest<T: PartialEq>(s: Seq<T>, c: int, g: Option<u64>, draft: T, group: Option<u64>)
    requires
        s.len() == MAX_SNAPSHOTS,
        c == s.len() - 1,
        !same(s[c], draft),
        group is None || g != group,
    ensures
        ({
            let (s2, c2, g2, changed) = recorded(s, c, g, draft, group);
            &&& changed
            &&& s2.len() == MAX_SNAPSHOTS
            &&& forall|k: int| 0 <= k < MAX_SNAPSHOTS - 1 ==> s2[k] == #[trigger] s[k + 1]
            &&& s2[MAX_SNAPSHOTS - 1] == draft
            &&& c2 == MAX_SNAPSHOTS - 1
            &&& g2 == group
        }),
{
    let (s2, c2, g2, changed) = recorded(s, c, g, draft, group);
    assert(s.take(c + 1) =~= s);
    assert forall|k: int| 0 <= k < MAX_SNAPSHOTS - 1 implies s2[k] == #[trigger] s[k + 1] by {
        assert(s.skip(1)[k] == s[k + 1]);
    }
}

/// Below the limit nothing is forgotten: recording a new draft, outside the
/// open gesture group, keeps every draft up to the cursor and appends the
/// new one after them.
pub proof fn lemma_record_appends<T: PartialEq>(s: Seq<T>, c: int, g: Option<u64>, draft: T, group: Option<u64>)
    requires
        0 <= c < s.len(),
        c + 1 < MAX_SNAPSHOTS,
        !same(s[c], draft),
        group is None || g != group,
    ensures
        ({
            let (s2, c2, g2, changed) = recorded(s, c, g, draft, group);
            &&& changed
            &&& s2.len() == c + 2
            &&& forall|k: int| 0 <= k <= c ==> s2[k] == #[trigger] s[k]
            &&& s2[c + 1] == draft
            &&& c2 == c + 1
        }),
{
}

} // verus!
