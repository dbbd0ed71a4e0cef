//! The line of states that a project went through, with a cursor that moves along it.
//!
//! A state holds a snapshot of the project and the revisions that belong to it. The project's
//! session makes the changes; here it is decided which, and which revisions it may forget.
use crate::ids::{EntityId, Revision};
use crate::text;
use vstd::prelude::*;

verus! {

/// For how many nanoseconds repeated edits of one target are one state.
pub const COALESCE_WINDOW: u64 = 3_000_000_000;

/// How many states are kept where nothing else is said.
pub const DEFAULT_CAPACITY: usize = 50;

/// What a state came of.
#[derive(Clone, Copy, Debug, PartialEq, Eq, Structural)]
pub enum HistoryName {
    Open,
    ImportPages,
    RenamePage,
    DeletePages,
    MovePage,
    AddText,
    SourceText,
    Translation,
    Typography,
    Geometry,
    Transform,
    ToggleLayer,
    Opacity,
    DeleteLayers,
    MoveLayer,
    Brush,
    Erase,
    PipelineStage,
    SnapshotRestore,
}

/// What small edits are recognized by as edits of one target.
#[derive(Clone, Copy, Debug, PartialEq, Eq, Structural)]
pub struct MergeKey {
    pub name: HistoryName,
    pub target: EntityId,
}

/// A state.
pub struct HistoryState<S> {
    pub name: HistoryName,
    pub detail: Option<String>,
    /// The revisions that led to the state. To go back, they are undone.
    pub forward: Vec<Revision>,
    /// The revisions that went back over the state. To go forward again, the last is undone.
    pub redo: Vec<Revision>,
    /// Every revision that belongs to the state.
    pub related: Vec<Revision>,
    /// The state came of a snapshot, so there is nothing to undo.
    pub restore_only: bool,
    pub snapshot: S,
    pub active_page: Option<EntityId>,
    pub merge: Option<MergeKey>,
    /// When the state was last added to, in nanoseconds.
    pub at: u64,
}

/// A snapshot that a user keeps.
pub struct SnapshotEntry<S> {
    pub id: u32,
    pub name: String,
    pub snapshot: S,
}

/// The line of states.
pub struct History<S> {
    pub states: Vec<HistoryState<S>>,
    pub snapshots: Vec<SnapshotEntry<S>>,
    pub next_snapshot: u32,
    /// The state that the project is in.
    pub cursor: usize,
    /// How many states are kept.
    pub capacity: usize,
}

/// A state as it is shown.
#[derive(Debug)]
pub struct HistoryEntryInfo {
    pub index: u32,
    pub name: HistoryName,
    pub detail: Option<String>,
    pub current: bool,
    /// The state lies ahead of the cursor: a new edit discards it.
    pub undone: bool,
}

/// A snapshot as it is shown.
#[derive(Debug)]
pub struct SnapshotInfo {
    pub id: u32,
    pub name: String,
}

/// The line of states as it is shown.
#[derive(Debug)]
pub struct HistoryView {
    pub entries: Vec<HistoryEntryInfo>,
    pub snapshots: Vec<SnapshotInfo>,
    pub cursor: u32,
}

/// A change that was committed.
pub struct CommittedChange<S> {
    pub from: Revision,
    pub to: Revision,
    pub revision: Revision,
    pub snapshot: S,
}

/// There is no state at this place.
#[derive(Clone, Copy, Debug, PartialEq, Eq, Structural)]
pub struct OutOfRange(pub usize);

/// How to go back by one state.
#[derive(Debug)]
pub enum BackStep {
    /// There is no state before this one.
    Nothing,
    /// Adopt the snapshot of the state at this place.
    Restore(usize),
    /// Undo these revisions.
    Undo(Vec<Revision>),
}

/// How to go forward by one state.
#[derive(Clone, Copy, Debug, PartialEq, Eq, Structural)]
pub enum ForwardStep {
    /// There is no state after this one.
    Nothing,
    /// Undo this revision.
    Undo(Revision),
    /// Adopt the snapshot of the state at this place.
    Restore(usize),
}

// ---------------------------------------------------------------------------------------------
// Model
// ---------------------------------------------------------------------------------------------

/// A state, with its lists as sequences.
pub struct StateNote<S> {
    pub name: HistoryName,
    pub detail: Option<String>,
    pub forward: Seq<Revision>,
    pub redo: Seq<Revision>,
    pub related: Seq<Revision>,
    pub restore_only: bool,
    pub snapshot: S,
    pub active_page: Option<EntityId>,
    pub merge: Option<MergeKey>,
    pub at: u64,
}

impl<S> HistoryState<S> {
    pub open spec fn note(self) -> StateNote<S> {
        StateNote {
            name: self.name,
            detail: self.detail,
            forward: self.forward@,
            redo: self.redo@,
            related: self.related@,
            restore_only: self.restore_only,
            snapshot: self.snapshot,
            active_page: self.active_page,
            merge: self.merge,
            at: self.at,
        }
    }
}

/// The states, with their lists as sequences.
pub open spec fn notes<S>(states: Seq<HistoryState<S>>) -> Seq<StateNote<S>> {
    Seq::new(states.len(), |i: int| states[i].note())
}

/// The revisions that belong to the states, in their order.
pub open spec fn related_to<S>(states: Seq<StateNote<S>>) -> Seq<Revision>
    decreases states.len(),
{
    if states.len() == 0 {
        Seq::empty()
    } else {
        related_to(states.drop_last()) + states.last().related
    }
}

/// The states from which those over the capacity are washed out, the oldest first.
pub open spec fn washed<S>(states: Seq<StateNote<S>>, capacity: nat) -> Seq<StateNote<S>> {
    if states.len() <= capacity {
        states
    } else {
        states.skip(states.len() - capacity)
    }
}

/// The revisions of the states that are washed out.
pub open spec fn washed_out<S>(states: Seq<StateNote<S>>, capacity: nat) -> Seq<Revision> {
    if states.len() <= capacity {
        Seq::empty()
    } else {
        related_to(states.take(states.len() - capacity))
    }
}

/// A new state of a change.
pub open spec fn new_state<S>(
    name: HistoryName,
    detail: Option<String>,
    merge: Option<EntityId>,
    change: CommittedChange<S>,
    active_page: Option<EntityId>,
    now: u64,
) -> StateNote<S> {
    StateNote {
        name,
        detail,
        forward: seq![change.revision],
        redo: Seq::empty(),
        related: seq![change.revision],
        restore_only: false,
        snapshot: change.snapshot,
        active_page,
        merge: match merge {
            Some(target) => Some(MergeKey { name, target }),
            None => None,
        },
        at: now,
    }
}

/// A state that a further small edit joins.
pub open spec fn joined<S>(
    state: StateNote<S>,
    change: CommittedChange<S>,
    active_page: Option<EntityId>,
    now: u64,
) -> StateNote<S> {
    StateNote {
        forward: state.forward.push(change.revision),
        related: state.related.push(change.revision),
        snapshot: change.snapshot,
        active_page,
        at: now,
        ..state
    }
}

/// The time since `at`.
pub open spec fn elapsed(at: u64, now: u64) -> int {
    if now < at {
        0
    } else {
        now - at
    }
}

impl<S> History<S> {
    /// There is a state under the cursor, and no more states than are kept.
    pub open spec fn wf(self) -> bool {
        &&& self.cursor < self.states@.len() <= self.capacity
        &&& forall|i: int|
            0 <= i < self.snapshots@.len() ==> (#[trigger] self.snapshots@[i]).id
                < self.next_snapshot
        &&& forall|i: int, j: int|
            0 <= i < j < self.snapshots@.len() ==> (#[trigger] self.snapshots@[i]).id != (
            #[trigger] self.snapshots@[j]).id
    }

    pub open spec fn line(self) -> Seq<StateNote<S>> {
        notes(self.states@)
    }

    /// The line is shown so. Places are written with 32 bits.
    pub open spec fn shows(self, view: HistoryView) -> bool {
        &&& view.cursor == self.cursor as u32
        &&& view.entries@.len() == self.states@.len()
        &&& forall|i: int|
            0 <= i < view.entries@.len() ==> #[trigger] view.entries@[i] == (HistoryEntryInfo {
                index: i as u32,
                name: self.states@[i].name,
                detail: self.states@[i].detail,
                current: i == self.cursor,
                undone: i > self.cursor,
            })
        &&& view.snapshots@.len() == self.snapshots@.len()
        &&& forall|i: int|
            0 <= i < view.snapshots@.len() ==> #[trigger] view.snapshots@[i] == (SnapshotInfo {
                id: self.snapshots@[i].id,
                name: self.snapshots@[i].name,
            })
    }

    /// All but the states and the cursor.
    pub open spec fn same_frame(self, other: Self) -> bool {
        &&& self.snapshots == other.snapshots
        &&& self.next_snapshot == other.next_snapshot
        &&& self.capacity == other.capacity
    }

    /// A small edit joins the current state: it is the last, it came of edits of the same target,
    /// and not long ago.
    pub open spec fn joins(self, name: HistoryName, merge: Option<EntityId>, now: u64) -> bool {
        &&& merge is Some
        &&& self.cursor + 1 == self.states@.len()
        &&& self.states@[self.cursor as int].merge == Some(
            MergeKey { name, target: merge->0 },
        )
        &&& elapsed(self.states@[self.cursor as int].at, now) < COALESCE_WINDOW
    }

    /// The states up to the cursor.
    pub open spec fn past(self) -> Seq<StateNote<S>> {
        self.line().take(self.cursor + 1)
    }

    /// The states after the cursor.
    pub open spec fn future(self) -> Seq<StateNote<S>> {
        self.line().skip(self.cursor + 1)
    }

    /// The line after a new state: what lies ahead of the cursor is discarded, and the oldest are
    /// washed out. `released` are the revisions of the states that are gone.
    pub open spec fn extended(
        self,
        state: StateNote<S>,
        after: Self,
        released: Seq<Revision>,
    ) -> bool {
        let line = self.past().push(state);
        &&& after.same_frame(self)
        &&& after.line() == washed(line, self.capacity as nat)
        &&& after.cursor == after.states@.len() - 1
        &&& released == related_to(self.future()) + washed_out(line, self.capacity as nat)
    }
}

fn take_related<S>(states: &Vec<HistoryState<S>>) -> (r: Vec<Revision>)
    ensures
        r@ == related_to(notes(states@)),
{
    let ghost line = notes(states@);
    let mut out: Vec<Revision> = Vec::new();
    let mut i: usize = 0;
    assert(line.take(0) =~= Seq::empty());
    while i < states.len()
        invariant
            line == notes(states@),
            i <= states@.len(),
            out@ == related_to(line.take(i as int)),
        decreases states@.len() - i,
    {
        let ghost before = out@;
        let mut k: usize = 0;
        while k < states[i as usize].related.len()
            invariant
                i < states@.len(),
                k <= states@[i as int].related@.len(),
                out@ == before + states@[i as int].related@.take(k as int),
            decreases states@[i as int].related@.len() - k,
        {
            out.push(states[i].related[k]);
            proof {
                let r = states@[i as int].related@;
                assert(r.take(k + 1) =~= r.take(k as int).push(r[k as int]));
                assert(before + r.take(k + 1) =~= (before + r.take(k as int)).push(r[k as int]));
            }
            k += 1;
        }
        proof {
            let r = states@[i as int].related@;
            assert(r.take(k as int) =~= r);
            assert(line.take(i + 1).drop_last() =~= line.take(i as int));
            assert(line.take(i + 1).last() == states@[i as int].note());
        }
        i += 1;
    }
    assert(line.take(i as int) =~= line);
    out
}

impl<S> History<S> {
    /// The line of a project that was just opened.
    pub fn new(snapshot: S, active_page: Option<EntityId>, capacity: usize, now: u64) -> (r: Self)
        ensures
            r.wf(),
            r.cursor == 0,
            r.capacity == if capacity == 0 {
                1
            } else {
                capacity
            },
            r.snapshots@.len() == 0,
            r.next_snapshot == 1,
            r.line() == seq![
                StateNote {
                    name: HistoryName::Open,
                    detail: None,
                    forward: Seq::empty(),
                    redo: Seq::empty(),
                    related: Seq::empty(),
                    restore_only: false,
                    snapshot,
                    active_page,
                    merge: None,
                    at: now,
                },
            ],
    {
        let state = HistoryState {
            name: HistoryName::Open,
            detail: None,
            forward: Vec::new(),
            redo: Vec::new(),
            related: Vec::new(),
            restore_only: false,
            snapshot,
            active_page,
            merge: None,
            at: now,
        };
        let r = History {
            states: vec![state],
            snapshots: Vec::new(),
            next_snapshot: 1,
            cursor: 0,
            capacity: if capacity == 0 {
                1
            } else {
                capacity
            },
        };
        proof {
            assert(state.forward@ =~= Seq::empty());
            assert(state.redo@ =~= Seq::empty());
            assert(state.related@ =~= Seq::empty());
            assert(r.line() =~= seq![state.note()]);
        }
        r
    }

    /// Whether there is a state to go back to.
    pub fn can_undo(&self) -> (r: bool)
        ensures
            r == (self.cursor > 0),
    {
        self.cursor > 0
    }

    /// Whether there is a state to go forward to.
    pub fn can_redo(&self) -> (r: bool)
        requires
            self.wf(),
        ensures
            r == (self.future().len() > 0),
    {
        let n: usize = self.states.len();
        self.cursor < n - 1
    }

    /// The line as it is shown.
    pub fn view(&self) -> (r: HistoryView)
        requires
            self.wf(),
        ensures
            self.shows(r),
    {
        let mut entries: Vec<HistoryEntryInfo> = Vec::new();
        let mut i: usize = 0;
        while i < self.states.len()
            invariant
                i <= self.states@.len(),
                entries@.len() == i,
                forall|k: int|
                    0 <= k < i ==> #[trigger] entries@[k] == (HistoryEntryInfo {
                        index: k as u32,
                        name: self.states@[k].name,
                        detail: self.states@[k].detail,
                        current: k == self.cursor,
                        undone: k > self.cursor,
                    }),
            decreases self.states@.len() - i,
        {
            let state = &self.states[i];
            entries.push(
                HistoryEntryInfo {
                    index: #[verifier::truncate] (i as u32),
                    name: state.name,
                    detail: match &state.detail {
                        Some(detail) => Some(detail.clone()),
                        None => None,
                    },
                    current: i == self.cursor,
                    undone: i > self.cursor,
                },
            );
            i += 1;
        }
        let mut snapshots: Vec<SnapshotInfo> = Vec::new();
        let mut k: usize = 0;
        while k < self.snapshots.len()
            invariant
                k <= self.snapshots@.len(),
                snapshots@.len() == k,
                forall|q: int|
                    0 <= q < k ==> #[trigger] snapshots@[q] == (SnapshotInfo {
                        id: self.snapshots@[q].id,
                        name: self.snapshots@[q].name,
                    }),
            decreases self.snapshots@.len() - k,
        {
            let entry = &self.snapshots[k];
            snapshots.push(SnapshotInfo { id: entry.id, name: entry.name.clone() });
            k += 1;
        }
        HistoryView { entries, snapshots, cursor: #[verifier::truncate] (self.cursor as u32) }
    }

    /// Keeps a snapshot, under a number that was not used before.
    pub fn create_snapshot(&mut self, snapshot: S, name: Option<String>) -> (id: u32)
        requires
            old(self).wf(),
            old(self).next_snapshot < u32::MAX,
        ensures
            final(self).wf(),
            id == old(self).next_snapshot,
            final(self).next_snapshot == id + 1,
            final(self).states == old(self).states,
            final(self).cursor == old(self).cursor,
            final(self).capacity == old(self).capacity,
            final(self).snapshots@.len() == old(self).snapshots@.len() + 1,
            final(self).snapshots@.drop_last() == old(self).snapshots@,
            final(self).snapshots@.last().id == id,
            final(self).snapshots@.last().snapshot == snapshot,
            final(self).snapshots@.last().name@ == match name {
                Some(name) => name@,
                None => "Snapshot "@ + text::decimal(id as nat),
            },
    {
        let id: u32 = self.next_snapshot;
        self.next_snapshot = id + 1;
        let name = match name {
            Some(name) => name,
            None => {
                let number = text::decimal_text_u64(id as u64);
                text::joined("Snapshot ", number.as_str())
            },
        };
        let ghost before = self.snapshots@;
        self.snapshots.push(SnapshotEntry { id, name, snapshot });
        assert(self.snapshots@.drop_last() =~= before);
        id
    }

    /// The snapshot with this number.
    pub fn snapshot(&self, id: u32) -> (r: Option<(&S, &str)>)
        ensures
            match r {
                Some((snapshot, name)) => exists|i: int|
                    0 <= i < self.snapshots@.len() && (#[trigger] self.snapshots@[i]).id == id
                        && self.snapshots@[i].snapshot == *snapshot && self.snapshots@[i].name@
                        == name@,
                None => forall|i: int|
                    0 <= i < self.snapshots@.len() ==> (#[trigger] self.snapshots@[i]).id != id,
            },
    {
        let mut i: usize = 0;
        while i < self.snapshots.len()
            invariant
                i <= self.snapshots@.len(),
                forall|k: int| 0 <= k < i ==> (#[trigger] self.snapshots@[k]).id != id,
            decreases self.snapshots@.len() - i,
        {
            let entry = &self.snapshots[i];
            if entry.id == id {
                assert(self.snapshots@[i as int].id == id);
                return Some((&entry.snapshot, entry.name.as_str()));
            }
            i += 1;
        }
        None
    }

    /// Forgets the snapshot with this number, where there is one.
    pub fn delete_snapshot(&mut self, id: u32) -> (r: bool)
        requires
            old(self).wf(),
        ensures
            final(self).wf(),
            final(self).states == old(self).states,
            final(self).cursor == old(self).cursor,
            final(self).capacity == old(self).capacity,
            final(self).next_snapshot == old(self).next_snapshot,
            r == (exists|i: int|
                0 <= i < old(self).snapshots@.len() && (#[trigger] old(self).snapshots@[i]).id
                    == id),
            r ==> exists|i: int|
                0 <= i < old(self).snapshots@.len() && (#[trigger] old(self).snapshots@[i]).id
                    == id && final(self).snapshots@ == old(self).snapshots@.remove(i),
            !r ==> final(self).snapshots@ == old(self).snapshots@,
    {
        let mut i: usize = 0;
        while i < self.snapshots.len()
            invariant
                *self == *old(self),
                self.wf(),
                i <= self.snapshots@.len(),
                forall|k: int| 0 <= k < i ==> (#[trigger] self.snapshots@[k]).id != id,
            decreases self.snapshots@.len() - i,
        {
            if self.snapshots[i].id == id {
                let ghost before = self.snapshots@;
                let _ = self.snapshots.remove(i);
                proof {
                    assert(before[i as int].id == id);
                    assert forall|a: int| 0 <= a < self.snapshots@.len() implies (
                    #[trigger] self.snapshots@[a]).id < self.next_snapshot by {
                        let b = if a < i {
                            a
                        } else {
                            a + 1
                        };
                        assert(self.snapshots@[a] == before[b]);
                    }
                    assert forall|a: int, b: int| 0 <= a < b < self.snapshots@.len() implies (
                    #[trigger] self.snapshots@[a]).id != (#[trigger] self.snapshots@[b]).id by {
                        let x = if a < i {
                            a
                        } else {
                            a + 1
                        };
                        let y = if b < i {
                            b
                        } else {
                            b + 1
                        };
                        assert(self.snapshots@[a] == before[x]);
                        assert(self.snapshots@[b] == before[y]);
                    }
                }
                return true;
            }
            i += 1;
        }
        false
    }

    /// Adds a state behind the cursor.
    fn extend(&mut self, state: HistoryState<S>) -> (released: Vec<Revision>)
        requires
            old(self).wf(),
        ensures
            final(self).wf(),
            old(self).extended(state.note(), *final(self), released@),
    {
        let ghost before = *self;
        let ghost line = self.line();
        let n: usize = self.states.len();
        assert(self.cursor < n);
        let keep: usize = self.cursor + 1;
        let discarded = self.states.split_off(keep);
        let mut released = take_related(&discarded);
        proof {
            assert(notes(discarded@) =~= before.future());
            assert(self.line() =~= before.past());
        }
        let ghost first = released@;
        let ghost note = state.note();
        self.states.push(state);
        self.cursor = keep;
        let ghost full = before.past().push(note);
        assert(self.line() =~= full);
        if self.states.len() > self.capacity {
            let over: usize = self.states.len() - self.capacity;
            let kept = self.states.split_off(over);
            let mut gone = take_related(&self.states);
            proof {
                assert(self.line() =~= full.take(over as int));
                assert(notes(kept@) =~= full.skip(over as int));
            }
            released.append(&mut gone);
            self.states = kept;
            self.cursor = self.states.len() - 1;
        } else {
            assert(released@ =~= first + Seq::<Revision>::empty());
        }
        assert(self.line() =~= washed(full, before.capacity as nat));
        released
    }

    /// Keeps a change as a state, or as part of the current one. `None` where nothing changed; else
    /// the revisions of the states that are gone.
    pub fn record(
        &mut self,
        name: HistoryName,
        detail: Option<String>,
        merge: Option<EntityId>,
        change: CommittedChange<S>,
        active_page: Option<EntityId>,
        now: u64,
    ) -> (r: Option<Vec<Revision>>)
        requires
            old(self).wf(),
        ensures
            final(self).wf(),
            change.from == change.to ==> r is None && *final(self) == *old(self),
            change.from != change.to && old(self).joins(name, merge, now) ==> {
                &&& r matches Some(released) && released@.len() == 0
                &&& final(self).same_frame(*old(self))
                &&& final(self).cursor == old(self).cursor
                &&& final(self).line() == old(self).line().update(
                    old(self).cursor as int,
                    joined(
                        old(self).line()[old(self).cursor as int],
                        change,
                        active_page,
                        now,
                    ),
                )
            },
            change.from != change.to && !old(self).joins(name, merge, now) ==> {
                &&& r matches Some(released) && old(self).extended(
                    new_state(name, detail, merge, change, active_page, now),
                    *final(self),
                    released@,
                )
            },            change.from != change.to ==> {
                let at = final(self).cursor as int;
                let state = final(self).states@[at];
                &&& r is Some
                &&& at + 1 == final(self).states@.len()
                &&& state.snapshot == change.snapshot
                &&& state.active_page == active_page
                &&& state.at == now
                &&& state.forward@.len() > 0 && state.forward@.last() == change.revision
                &&& state.related@.len() > 0 && state.related@.last() == change.revision
            },
    {
        if change.from == change.to {
            return None;
        }
        let ghost line = self.line();
        let n: usize = self.states.len();
        assert(self.cursor < n);
        match merge {
            Some(target) => {
                if self.cursor + 1 == n {
                    let at: usize = self.cursor;
                    let since: u64 = self.states[at].at;
                    let passed: u64 = if now < since {
                        0
                    } else {
                        now - since
                    };
                    let fits = match self.states[at].merge {
                        Some(key) => key.name == name && key.target == target,
                        None => false,
                    };
                    if fits && passed < COALESCE_WINDOW {
                        let ghost cursor = self.cursor as int;
                        let mut state = self.states.remove(at);
                        let ghost was = state.note();
                        state.forward.push(change.revision);
                        state.related.push(change.revision);
                        state.snapshot = change.snapshot;
                        state.active_page = active_page;
                        state.at = now;
                        self.states.insert(at, state);
                        proof {
                            assert(state.note() == joined(was, change, active_page, now));
                            assert(self.line() =~= line.update(cursor, state.note()));
                        }
                        return Some(Vec::new());
                    }
                }
            },
            None => {},
        }
        let state = HistoryState {
            name,
            detail,
            forward: vec![change.revision],
            redo: Vec::new(),
            related: vec![change.revision],
            restore_only: false,
            snapshot: change.snapshot,
            active_page,
            merge: match merge {
                Some(target) => Some(MergeKey { name, target }),
                None => None,
            },
            at: now,
        };
        proof {
            assert(state.forward@ =~= seq![change.revision]);
            assert(state.related@ =~= seq![change.revision]);
            assert(state.redo@ =~= Seq::empty());
            assert(state.note() == new_state(name, detail, merge, change, active_page, now));
        }
        let released = self.extend(state);
        assert(self.states@.last().note() == self.line().last());
        Some(released)
    }

    /// Keeps a snapshot that was adopted as a state. It gives the revisions of the states that are
    /// gone.
    pub fn record_restore(
        &mut self,
        detail: Option<String>,
        snapshot: S,
        active_page: Option<EntityId>,
        now: u64,
    ) -> (released: Vec<Revision>)
        requires
            old(self).wf(),
        ensures
            final(self).wf(),
            old(self).extended(
                StateNote {
                    name: HistoryName::SnapshotRestore,
                    detail,
                    forward: Seq::empty(),
                    redo: Seq::empty(),
                    related: Seq::empty(),
                    restore_only: true,
                    snapshot,
                    active_page,
                    merge: None,
                    at: now,
                },
                *final(self),
                released@,
            ),
            ({
                let at = final(self).cursor as int;
                let state = final(self).states@[at];
                &&& at + 1 == final(self).states@.len()
                &&& state.name == HistoryName::SnapshotRestore
                &&& state.detail == detail
                &&& state.snapshot == snapshot
                &&& state.active_page == active_page
                &&& state.restore_only
                &&& state.forward@.len() == 0
            }),
    {
        let state = HistoryState {
            name: HistoryName::SnapshotRestore,
            detail,
            forward: Vec::new(),
            redo: Vec::new(),
            related: Vec::new(),
            restore_only: true,
            snapshot,
            active_page,
            merge: None,
            at: now,
        };
        proof {
            assert(state.forward@ =~= Seq::empty());
            assert(state.redo@ =~= Seq::empty());
            assert(state.related@ =~= Seq::empty());
        }
        let released = self.extend(state);
        assert(self.states@.last().note() == self.line().last());
        released
    }

    /// The snapshot to adopt in order to be in the state at `target`; none where the project is in
    /// it.
    pub fn jump(&self, target: usize) -> (r: Result<Option<&S>, OutOfRange>)
        requires
            self.wf(),
        ensures
            target >= self.states@.len() ==> r == Err::<Option<&S>, _>(OutOfRange(target)),
            target < self.states@.len() && target == self.cursor ==> r == Ok::<
                Option<&S>,
                OutOfRange,
            >(None),
            target < self.states@.len() && target != self.cursor ==> (r matches Ok(Some(snapshot))
                && *snapshot == self.states@[target as int].snapshot),
    {
        if target >= self.states.len() {
            return Err(OutOfRange(target));
        }
        if target == self.cursor {
            return Ok(None);
        }
        Ok(Some(&self.states[target].snapshot))
    }

    /// The snapshot of the state at `target` was adopted. It gives the page of that state.
    pub fn jumped(&mut self, target: usize) -> (page: Option<EntityId>)
        requires
            old(self).wf(),
            target < old(self).states@.len(),
        ensures
            final(self).wf(),
            *final(self) == (History { cursor: target, ..*old(self) }),
            page == old(self).states@[target as int].active_page,
    {
        self.cursor = target;
        self.states[target].active_page
    }

    /// How to go back by one state.
    pub fn step_back(&self) -> (r: BackStep)
        requires
            self.wf(),
        ensures
            match r {
                BackStep::Nothing => self.cursor == 0,
                BackStep::Restore(target) => self.cursor > 0
                    && self.states@[self.cursor as int].restore_only && target == self.cursor - 1,
                BackStep::Undo(revisions) => self.cursor > 0
                    && !self.states@[self.cursor as int].restore_only && revisions@
                    == self.states@[self.cursor as int].forward@,
            },
    {
        if self.cursor == 0 {
            return BackStep::Nothing;
        }
        let state = &self.states[self.cursor];
        if state.restore_only {
            return BackStep::Restore(self.cursor - 1);
        }
        let mut forward: Vec<Revision> = Vec::new();
        let mut i: usize = 0;
        while i < state.forward.len()
            invariant
                i <= state.forward@.len(),
                forward@ == state.forward@.take(i as int),
            decreases state.forward@.len() - i,
        {
            forward.push(state.forward[i]);
            assert(state.forward@.take(i + 1) =~= state.forward@.take(i as int).push(
                state.forward@[i as int],
            ));
            i += 1;
        }
        assert(state.forward@.take(i as int) =~= state.forward@);
        BackStep::Undo(forward)
    }

    /// The revisions of the current state were undone by this one. It gives the page of the state
    /// before it.
    pub fn stepped_back(&mut self, revision: Revision) -> (page: Option<EntityId>)
        requires
            old(self).wf(),
            old(self).cursor > 0,
        ensures
            final(self).wf(),
            final(self).same_frame(*old(self)),
            final(self).cursor == old(self).cursor - 1,
            ({
                let at = old(self).cursor as int;
                let state = old(self).line()[at];
                final(self).line() == old(self).line().update(
                    at,
                    StateNote {
                        redo: state.redo.push(revision),
                        related: state.related.push(revision),
                        ..state
                    },
                )
            }),
            page == old(self).states@[old(self).cursor - 1].active_page,
    {
        let at: usize = self.cursor;
        let ghost line = self.line();
        let mut state = self.states.remove(at);
        state.related.push(revision);
        state.redo.push(revision);
        self.states.insert(at, state);
        proof {
            assert(self.line() =~= line.update(at as int, state.note()));
            assert(self.states@[at - 1].note() == line[at - 1]);
        }
        self.cursor = at - 1;
        self.states[at - 1].active_page
    }

    /// Goes forward by one state, and says how.
    pub fn step_forward(&mut self) -> (r: ForwardStep)
        requires
            old(self).wf(),
        ensures
            final(self).wf(),
            final(self).same_frame(*old(self)),
            old(self).cursor + 1 == old(self).states@.len() ==> r == ForwardStep::Nothing && *final(self) == *old(self),
            old(self).cursor + 1 < old(self).states@.len() ==> {
                let at = old(self).cursor + 1;
                let state = old(self).line()[at];
                &&& final(self).cursor == at
                &&& if state.redo.len() > 0 {
                    r == ForwardStep::Undo(state.redo.last()) && final(self).line() == old(self).line().update(at, StateNote { redo: state.redo.drop_last(), ..state })
                } else {
                    r == ForwardStep::Restore(at as usize) && final(self).line() == old(self).line()
                }
            },
    {
        let n: usize = self.states.len();
        assert(self.cursor < n);
        if self.cursor + 1 == n {
            return ForwardStep::Nothing;
        }
        let ghost line = self.line();
        let at: usize = self.cursor + 1;
        self.cursor = at;
        let mut state = self.states.remove(at);
        let ghost was = state.note();
        let revision = state.redo.pop();
        self.states.insert(at, state);
        proof {
            assert(self.line() =~= line.update(at as int, state.note()));
            if was.redo.len() == 0 {
                assert(state.note() == was);
                assert(line.update(at as int, was) =~= line);
            }
        }
        match revision {
            Some(revision) => ForwardStep::Undo(revision),
            None => ForwardStep::Restore(at),
        }
    }

    /// The revision that went back was undone by this one.
    pub fn stepped_forward(&mut self, revision: Revision)
        requires
            old(self).wf(),
        ensures
            final(self).wf(),
            final(self).same_frame(*old(self)),
            final(self).cursor == old(self).cursor,
            ({
                let at = old(self).cursor as int;
                let state = old(self).line()[at];
                final(self).line() == old(self).line().update(
                    at,
                    StateNote { related: state.related.push(revision), ..state },
                )
            }),
    {
        let at: usize = self.cursor;
        let ghost line = self.line();
        let mut state = self.states.remove(at);
        state.related.push(revision);
        self.states.insert(at, state);
        assert(self.line() =~= line.update(at as int, state.note()));
    }

    /// The page of the state that the project is in.
    pub fn active_page(&self) -> (r: Option<EntityId>)
        requires
            self.wf(),
        ensures
            r == self.states@[self.cursor as int].active_page,
    {
        self.states[self.cursor].active_page
    }

    /// The snapshot of the state that the project is in.
    pub fn current(&self) -> (r: &S)
        requires
            self.wf(),
        ensures
            *r == self.states@[self.cursor as int].snapshot,
    {
        &self.states[self.cursor].snapshot
    }

    /// Forgets all states but the current one. It gives their revisions, and those of the current
    /// one.
    pub fn clear(&mut self) -> (released: Vec<Revision>)
        requires
            old(self).wf(),
        ensures
            final(self).wf(),
            final(self).same_frame(*old(self)),
            final(self).cursor == 0,
            ({
                let at = old(self).cursor as int;
                let line = old(self).line();
                let state = line[at];
                &&& final(self).line() == seq![
                    StateNote {
                        forward: Seq::empty(),
                        redo: Seq::empty(),
                        related: Seq::empty(),
                        restore_only: false,
                        merge: None,
                        ..state
                    },
                ]
                &&& released@ == state.related + related_to(
                    line.update(at, line.last()).drop_last(),
                )
            }),            final(self).states@.len() == 1,
            final(self).states@[0].snapshot == old(self).states@[old(self).cursor as int].snapshot,
            final(self).states@[0].active_page == old(self).states@[old(
                self,
            ).cursor as int].active_page,
            final(self).states@[0].name == old(self).states@[old(self).cursor as int].name,
    {
        let ghost line = self.line();
        let at: usize = self.cursor;
        let mut current = self.states.swap_remove(at);
        let ghost state = current.note();
        assert(self.line() =~= line.update(at as int, line.last()).drop_last());
        let mut others = take_related(&self.states);
        let mut released: Vec<Revision> = Vec::new();
        released.append(&mut current.related);
        assert(released@ =~= state.related);
        released.append(&mut others);
        current.forward = Vec::new();
        current.redo = Vec::new();
        current.related = Vec::new();
        current.restore_only = false;
        current.merge = None;
        self.states = vec![current];
        self.cursor = 0;
        proof {
            assert(current.forward@ =~= Seq::empty());
            assert(current.redo@ =~= Seq::empty());
            assert(current.related@ =~= Seq::empty());
            assert(self.line() =~= seq![current.note()]);
        }
        released
    }
}

// ---------------------------------------------------------------------------------------------
// Laws
// ---------------------------------------------------------------------------------------------

/// To go back and then forward leads to the state that one came from: what undid its revisions is
/// itself undone. Nothing but the notes of these crossings has changed.
pub proof fn lemma_back_and_forward<S>(a: History<S>, b: History<S>, c: History<S>, undo: Revision)
    requires
        a.wf(),
        a.cursor > 0,
        b.same_frame(a),
        b.cursor == a.cursor - 1,
        b.line() == a.line().update(
            a.cursor as int,
            StateNote {
                redo: a.line()[a.cursor as int].redo.push(undo),
                related: a.line()[a.cursor as int].related.push(undo),
                ..a.line()[a.cursor as int]
            },
        ),
        c.same_frame(b),
        c.cursor == b.cursor + 1,
        c.line() == b.line().update(
            b.cursor + 1,
            StateNote {
                redo: b.line()[b.cursor + 1].redo.drop_last(),
                ..b.line()[b.cursor + 1]
            },
        ),
    ensures
        b.line()[b.cursor + 1].redo.last() == undo,
        c.cursor == a.cursor,
        c.line() == a.line().update(
            a.cursor as int,
            StateNote {
                related: a.line()[a.cursor as int].related.push(undo),
                ..a.line()[a.cursor as int]
            },
        ),
{
    let at = a.cursor as int;
    let redo = a.line()[at].redo;
    assert(redo.push(undo).drop_last() =~= redo);
    assert(c.line() =~= a.line().update(
        at,
        StateNote { related: a.line()[at].related.push(undo), ..a.line()[at] },
    ));
}

/// A new state leaves nothing to go forward to, and what lies before it is what lay up to the
/// cursor, less the oldest states where there are too many.
pub proof fn lemma_new_state_is_last<S>(
    a: History<S>,
    state: StateNote<S>,
    b: History<S>,
    released: Seq<Revision>,
)
    requires
        a.wf(),
        b.wf(),
        a.extended(state, b, released),
    ensures
        b.future().len() == 0,
        b.line().last() == state,
        b.line().len() <= a.capacity,
        a.cursor + 1 < a.capacity ==> b.line() == a.past().push(state),
{
}

/// The revisions of states that stand side by side.
pub proof fn lemma_related_concat<S>(a: Seq<StateNote<S>>, b: Seq<StateNote<S>>)
    ensures
        related_to(a + b) == related_to(a) + related_to(b),
    decreases b.len(),
{
    if b.len() == 0 {
        assert(a + b =~= a);
        assert(related_to(a) + related_to(b) =~= related_to(a));
    } else {
        lemma_related_concat(a, b.drop_last());
        assert((a + b).drop_last() =~= a + b.drop_last());
        assert((a + b).last() == b.last());
        assert(related_to(a + b) =~= related_to(a) + related_to(b));
    }
}

/// No revision is lost: those of the states before, and that of the new one, are with the states
/// after or among the released, each as often as it was.
pub proof fn lemma_revisions_are_accounted_for<S>(
    a: History<S>,
    state: StateNote<S>,
    b: History<S>,
    released: Seq<Revision>,
)
    requires
        a.wf(),
        a.extended(state, b, released),
    ensures
        (related_to(a.line()) + state.related).to_multiset() == (related_to(b.line())
            + released).to_multiset(),
{
    broadcast use vstd::seq_lib::group_to_multiset_ensures;

    let past = a.past();
    let future = a.future();
    let full = past.push(state);
    let cap = a.capacity as nat;
    assert(a.line() =~= past + future);
    lemma_related_concat(past, future);
    assert(full.drop_last() =~= past);
    assert(related_to(full) == related_to(past) + state.related);
    let kept = washed(full, cap);
    let out = washed_out(full, cap);
    assert(related_to(full) =~= out + related_to(kept)) by {
        if full.len() > cap {
            let k = full.len() - cap;
            assert(full =~= full.take(k) + full.skip(k));
            lemma_related_concat(full.take(k), full.skip(k));
        } else {
            assert(out + related_to(kept) =~= related_to(kept));
        }
    }
    let x = related_to(past);
    let f = related_to(future);
    let r = state.related;
    let w = related_to(kept);
    vstd::seq_lib::lemma_multiset_commutative(x + f, r);
    vstd::seq_lib::lemma_multiset_commutative(x, f);
    vstd::seq_lib::lemma_multiset_commutative(x, r);
    vstd::seq_lib::lemma_multiset_commutative(out, w);
    vstd::seq_lib::lemma_multiset_commutative(w, f + out);
    vstd::seq_lib::lemma_multiset_commutative(f, out);
    assert((x + f + r).to_multiset() =~= (w + (f + out)).to_multiset());
}

/// What is shown of a line has a state under its cursor and no more states than are kept, each is
/// numbered by its place, those ahead of the cursor are undone, and there is a state to go back to or
/// forward to where one is shown. Places are written with 32 bits.
pub proof fn lemma_what_is_shown<S>(history: History<S>, view: HistoryView)
    requires
        history.wf(),
        history.shows(view),
        history.states@.len() <= u32::MAX,
    ensures
        1 <= view.entries@.len() <= history.capacity,
        view.cursor < view.entries@.len(),
        forall|i: int|
            0 <= i < view.entries@.len() ==> (#[trigger] view.entries@[i]).index == i
                && view.entries@[i].current == (i == view.cursor) && view.entries@[i].undone == (i
                > view.cursor),
        (history.cursor > 0) == (view.cursor > 0),
        (history.future().len() > 0) == (view.cursor + 1 < view.entries@.len()),
{
}

/// A change that is kept is what the project is in, whether it joins the current state or makes a
/// new one: the state under the cursor has its snapshot, its page and its time, its revision is the
/// last to be undone, and there is nothing to go forward to. It joins where a target is given, the
/// current state is the last and came of edits of that target by that name, and less than three
/// seconds have passed.
pub proof fn lemma_kept_change_is_current<S>(
    a: History<S>,
    name: HistoryName,
    detail: Option<String>,
    merge: Option<EntityId>,
    change: CommittedChange<S>,
    active_page: Option<EntityId>,
    now: u64,
    b: History<S>,
    released: Seq<Revision>,
)
    requires
        a.wf(),
        b.wf(),
        a.joins(name, merge, now) ==> {
            &&& released.len() == 0
            &&& b.same_frame(a)
            &&& b.cursor == a.cursor
            &&& b.line() == a.line().update(
                a.cursor as int,
                joined(a.line()[a.cursor as int], change, active_page, now),
            )
        },
        !a.joins(name, merge, now) ==> a.extended(
            new_state(name, detail, merge, change, active_page, now),
            b,
            released,
        ),
    ensures
        b.cursor + 1 == b.states@.len(),
        b.states@[b.cursor as int].snapshot == change.snapshot,
        b.states@[b.cursor as int].active_page == active_page,
        b.states@[b.cursor as int].at == now,
        b.states@[b.cursor as int].forward@.last() == change.revision,
        b.states@[b.cursor as int].related@.last() == change.revision,
        ({
            let last = a.states@[a.cursor as int];
            let joins = merge is Some && a.cursor + 1 == a.states@.len() && last.merge == Some(
                MergeKey { name, target: merge->0 },
            ) && now < last.at + 3_000_000_000;
            let state = b.states@[b.cursor as int];
            &&& joins ==> {
                &&& b.cursor == a.cursor
                &&& released.len() == 0
                &&& state.name == last.name
                &&& state.detail == last.detail
                &&& state.merge == last.merge
                &&& state.redo@ == last.redo@
                &&& state.restore_only == last.restore_only
                &&& state.forward@ == last.forward@.push(change.revision)
                &&& state.related@ == last.related@.push(change.revision)
                &&& forall|i: int|
                    0 <= i < a.cursor ==> (#[trigger] b.states@[i]).note() == a.states@[i].note()
            }
            &&& !joins ==> {
                &&& b.states@.len() == if a.cursor + 2 <= a.capacity {
                    a.cursor + 2
                } else {
                    a.capacity as int
                }
                &&& state.name == name
                &&& state.detail == detail
                &&& state.forward@ == seq![change.revision]
                &&& state.redo@.len() == 0
                &&& !state.restore_only
                &&& match merge {
                    Some(target) => state.merge == Some(MergeKey { name, target }),
                    None => state.merge is None,
                }
                &&& forall|i: int|
                    0 <= i < b.cursor ==> (#[trigger] b.states@[i]).note() == a.states@[a.cursor
                        + 1 - b.cursor + i].note()
            }
        }),
{
    let at = b.cursor as int;
    let line = a.line();
    let last = a.states@[a.cursor as int];
    assert(a.line()[a.cursor as int] == last.note());
    assert(b.line()[at] == b.states@[at].note());
    assert(b.line().len() == b.states@.len());
    assert(a.line().len() == a.states@.len());
    if a.joins(name, merge, now) {
        assert(b.line()[at] == joined(last.note(), change, active_page, now));
        assert forall|i: int| 0 <= i < a.cursor implies (#[trigger] b.states@[i]).note()
            == a.states@[i].note() by {
            assert(b.line()[i] == line[i]);
        }
    } else {
        let new = new_state(name, detail, merge, change, active_page, now);
        let full = a.past().push(new);
        assert(full.len() == a.cursor + 2);
        assert(b.line() == washed(full, a.capacity as nat));
        assert(b.line()[at] == full[full.len() - 1]);
        assert forall|i: int| 0 <= i < b.cursor implies (#[trigger] b.states@[i]).note()
            == a.states@[a.cursor + 1 - b.cursor + i].note() by {
            assert(b.line()[i] == full[a.cursor + 1 - b.cursor + i]);
        }
    }
}

/// To move along the line changes no snapshot: after a step back or a step forward each state has
/// the snapshot, the name and the page that it had.
pub proof fn lemma_steps_keep_snapshots<S>(
    a: History<S>,
    b: History<S>,
    at: int,
    redo: Seq<Revision>,
    related: Seq<Revision>,
    i: int,
)
    requires
        0 <= at < a.states@.len(),
        b.line() == a.line().update(
            at,
            StateNote { redo, related, ..a.line()[at] },
        ),
        0 <= i < a.states@.len(),
    ensures
        b.states@.len() == a.states@.len(),
        b.states@[i].snapshot == a.states@[i].snapshot,
        b.states@[i].name == a.states@[i].name,
        b.states@[i].detail == a.states@[i].detail,
        b.states@[i].active_page == a.states@[i].active_page,
        b.states@[i].forward@ == a.states@[i].forward@,
        b.states@[i].restore_only == a.states@[i].restore_only,
        i != at ==> b.states@[i].redo@ == a.states@[i].redo@ && b.states@[i].related@
            == a.states@[i].related@,
{
    assert(b.line().len() == a.line().len());
    assert(b.line()[i] == b.states@[i].note());
    assert(a.line()[i] == a.states@[i].note());
}

/// The released revisions are those of states that are gone: every revision of a state ahead of the
/// cursor is released when a new state is made, and so is every revision of a state that no longer
/// fits.
pub proof fn lemma_discarded_are_released<S>(
    a: History<S>,
    state: StateNote<S>,
    b: History<S>,
    released: Seq<Revision>,
    i: int,
    revision: Revision,
)
    requires
        a.wf(),
        a.extended(state, b, released),
        0 <= i < a.states@.len(),
        a.cursor < i || i <= a.cursor + 1 - a.capacity,
        a.states@[i].related@.contains(revision),
    ensures
        released.contains(revision),
{
    let full = a.past().push(state);
    let cap = a.capacity as nat;
    let out = washed_out(full, cap);
    if a.cursor < i {
        let f = a.future();
        let k = i - a.cursor - 1;
        assert(f[k] == a.states@[i].note());
        lemma_related_contains(f, k, revision);
        let q = choose|q: int| 0 <= q < related_to(f).len() && related_to(f)[q] == revision;
        assert(released[q] == revision);
    } else {
        let gone = full.take(full.len() - cap);
        assert(gone[i] == a.states@[i].note());
        lemma_related_contains(gone, i, revision);
        let q = choose|q: int| 0 <= q < related_to(gone).len() && related_to(gone)[q] == revision;
        let n = related_to(a.future()).len() as int;
        assert(released[n + q] == revision);
    }
}

proof fn lemma_related_contains<S>(states: Seq<StateNote<S>>, i: int, revision: Revision)
    requires
        0 <= i < states.len(),
        states[i].related.contains(revision),
    ensures
        related_to(states).contains(revision),
    decreases states.len(),
{
    let head = related_to(states.drop_last());
    let last = states.last().related;
    if i == states.len() - 1 {
        let q = choose|q: int| 0 <= q < last.len() && last[q] == revision;
        assert((head + last)[head.len() + q] == revision);
    } else {
        lemma_related_contains(states.drop_last(), i, revision);
        let q = choose|q: int| 0 <= q < head.len() && head[q] == revision;
        assert((head + last)[q] == revision);
    }
}

/// Of too many states the newest are kept, as many as there is room for, in their order; and where
/// there is room for all, all are.
pub proof fn lemma_the_newest_states_are_kept<S>(states: Seq<StateNote<S>>, capacity: nat, back: int)
    requires
        0 <= back < washed(states, capacity).len(),
    ensures
        washed(states, capacity).len() == if states.len() <= capacity {
            states.len()
        } else {
            capacity
        },
        washed(states, capacity)[washed(states, capacity).len() - 1 - back] == states[states.len()
            - 1 - back],
{
}

/// A new state leaves the named snapshots, the next snapshot's number and the room for states as they
/// were; so does every step that keeps the frame.
pub proof fn lemma_a_new_state_keeps_the_rest<S>(
    before: History<S>,
    after: History<S>,
    state: StateNote<S>,
    released: Seq<Revision>,
)
    ensures
        before.extended(state, after, released) || after.same_frame(before) ==> after.snapshots@
            == before.snapshots@ && after.next_snapshot == before.next_snapshot && after.capacity
            == before.capacity,
{
}

/// The numbers of the named snapshots differ from each other and from the next one.
pub proof fn lemma_snapshots_are_told_apart<S>(history: History<S>, i: int, j: int)
    requires
        history.wf(),
        0 <= i < history.snapshots@.len(),
        0 <= j < history.snapshots@.len(),
    ensures
        history.snapshots@[i].id < history.next_snapshot,
        i != j ==> history.snapshots@[i].id != history.snapshots@[j].id,
        history.cursor < history.states@.len() <= history.capacity,
{
}

} // verus!
