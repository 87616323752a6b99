use vstd::prelude::*;

verus! {

/// What a timeline holds: its snapshots, oldest first, and the index of the
/// one the canvas currently shows.
pub struct TimelineView<T> {
    pub entries: Seq<T>,
    pub cursor: nat,
}

impl<T> TimelineView<T> {
    /// The cursor is on a snapshot.
    pub open spec fn wf(self) -> bool {
        self.cursor < self.entries.len()
    }

    /// The snapshot the cursor is on.
    pub open spec fn shown(self) -> T {
        self.entries[self.cursor as int]
    }

    /// Recording `t`: the snapshots after the cursor are dropped, `t` is
    /// appended and becomes current.
    pub open spec fn pushed(self, t: T) -> TimelineView<T> {
        TimelineView { entries: self.entries.take(self.cursor + 1int).push(t), cursor: self.cursor + 1 }
    }

    pub open spec fn can_undo(self) -> bool {
        self.cursor > 0
    }

    pub open spec fn can_redo(self) -> bool {
        self.cursor + 1 < self.entries.len()
    }

    /// The cursor one step back, where there is a step to take.
    pub open spec fn undone(self) -> TimelineView<T> {
        if self.can_undo() {
            TimelineView { entries: self.entries, cursor: (self.cursor - 1) as nat }
        } else {
            self
        }
    }

    /// The cursor one step forward, where there is a step to take.
    pub open spec fn redone(self) -> TimelineView<T> {
        if self.can_redo() {
            TimelineView { entries: self.entries, cursor: self.cursor + 1 }
        } else {
            self
        }
    }
}

/// A linear history of whole-canvas snapshots with a cursor: undo and redo
/// move the cursor, and a new snapshot drops everything after the cursor.
pub struct Timeline<T> {
    snapshots: Vec<T>,
    current: usize,
}

impl<T> View for Timeline<T> {
    type V = TimelineView<T>;

    closed spec fn view(&self) -> TimelineView<T> {
        TimelineView { entries: self.snapshots@, cursor: self.current as nat }
    }
}

impl<T> Timeline<T> {
    /// The cursor is on a snapshot.
    pub closed spec fn wf(self) -> bool {
        self@.wf()
    }

    /// A history holding only `initial`.
    pub fn new(initial: T) -> (h: Self)
        ensures
            h.wf(),
            h@.entries == seq![initial],
            h@.cursor == 0,
    {
        let mut snapshots: Vec<T> = Vec::new();
        snapshots.push(initial);
        Timeline { snapshots, current: 0 }
    }

    /// Record `snapshot` after the cursor, dropping every snapshot that
    /// undo had stepped back over, and move the cursor onto it.
    pub fn push(&mut self, snapshot: T)
        requires
            old(self).wf(),
            old(self)@.cursor + 1 < usize::MAX,
        ensures
            final(self).wf(),
            final(self)@ == old(self)@.pushed(snapshot),
    {
        let keep = self.current + 1;
        if keep < self.snapshots.len() {
            self.snapshots.truncate(keep);
        }
        self.snapshots.push(snapshot);
        self.current = self.snapshots.len() - 1;
        proof {
            assert(self.snapshots@ =~= old(self).snapshots@.take(keep as int).push(snapshot));
        }
    }

    /// Step the cursor back one snapshot and return the snapshot now
    /// current; `None`, and nothing changes, at the oldest snapshot.
    pub fn undo(&mut self) -> (r: Option<&T>)
        requires
            old(self).wf(),
        ensures
            final(self).wf(),
            final(self)@ == old(self)@.undone(),
            r == (if old(self)@.can_undo() {
                Some(&final(self)@.shown())
            } else {
                None
            }),
    {
        if self.current > 0 {
            self.current = self.current - 1;
            Some(&self.snapshots[self.current])
        } else {
            None
        }
    }

    /// Step the cursor forward one snapshot and return the snapshot now
    /// current; `None`, and nothing changes, at the newest snapshot.
    pub fn redo(&mut self) -> (r: Option<&T>)
        requires
            old(self).wf(),
        ensures
            final(self).wf(),
            final(self)@ == old(self)@.redone(),
            r == (if old(self)@.can_redo() {
                Some(&final(self)@.shown())
            } else {
                None
            }),
    {
        if self.current < self.snapshots.len() - 1 {
            self.current = self.current + 1;
            Some(&self.snapshots[self.current])
        } else {
            None
        }
    }

    /// Number of snapshots held.
    pub fn len(&self) -> (n: usize)
        requires
            self.wf(),
        ensures
            n == self@.entries.len(),
    {
        self.snapshots.len()
    }

    /// Index of the current snapshot.
    pub fn position(&self) -> (i: usize)
        requires
            self.wf(),
        ensures
            i == self@.cursor,
    {
        self.current
    }
}

/// Recording a snapshot and undoing it shows again the snapshot that was
/// current before, and keeps the new one for redo.
pub proof fn lemma_push_then_undo<T>(v: TimelineView<T>, t: T)
    requires
        v.wf(),
    ensures
        v.pushed(t).can_undo(),
        v.pushed(t).undone().shown() == v.shown(),
        v.pushed(t).undone().can_redo(),
        v.pushed(t).undone().redone() == v.pushed(t),
{
}

/// After recording a snapshot there is nothing to redo.
pub proof fn lemma_push_clears_redo<T>(v: TimelineView<T>, t: T)
    requires
        v.wf(),
    ensures
        v.pushed(t).wf(),
        v.pushed(t).shown() == t,
        !v.pushed(t).can_redo(),
        v.pushed(t).redone() == v.pushed(t),
{
}

/// A step back followed by a step forward returns to the same state, and
/// the other way round.
pub proof fn lemma_undo_redo_inverse<T>(v: TimelineView<T>)
    requires
        v.wf(),
    ensures
        v.can_undo() ==> v.undone().redone() == v,
        v.can_redo() ==> v.redone().undone() == v,
        v.undone().wf(),
        v.redone().wf(),
{
}

/// Undo and redo never change the recorded snapshots.
pub proof fn lemma_steps_keep_entries<T>(v: TimelineView<T>)
    ensures
        v.undone().entries == v.entries,
        v.redone().entries == v.entries,
{
}

} // verus!
