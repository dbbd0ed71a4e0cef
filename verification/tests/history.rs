use koharu::history::{
    BackStep, CommittedChange, ForwardStep, History, HistoryName, OutOfRange, COALESCE_WINDOW,
};
use koharu::ids::{EntityId, Revision};

/// A session whose state is the number of its pages.
struct Session {
    pages: usize,
    revision: u64,
}

impl Session {
    fn new() -> Session {
        Session {
            pages: 0,
            revision: 0,
        }
    }

    fn add_page(&mut self) -> CommittedChange<usize> {
        let from = Revision(self.revision);
        self.pages += 1;
        self.revision += 1;
        CommittedChange {
            from,
            to: Revision(self.revision),
            revision: Revision(self.revision),
            snapshot: self.pages,
        }
    }

    fn restore(&mut self, pages: usize) -> Revision {
        self.pages = pages;
        self.revision += 1;
        Revision(self.revision)
    }
}

fn jump(history: &mut History<usize>, session: &mut Session, target: usize) {
    if let Some(pages) = history.jump(target).unwrap().copied() {
        session.restore(pages);
        history.jumped(target);
    }
}

#[test]
fn named_states_jump_both_ways() {
    let mut session = Session::new();
    let mut history = History::new(0usize, None, 10, 0);
    let commit = session.add_page();
    assert!(history
        .record(HistoryName::RenamePage, None, None, commit, None, 0)
        .is_some());
    let second = session.add_page();
    history.record(HistoryName::Brush, None, None, second, None, 0);

    let view = history.view();
    assert_eq!(view.entries.len(), 3);
    assert_eq!(view.entries[0].name, HistoryName::Open);
    assert_eq!(view.entries[1].name, HistoryName::RenamePage);
    assert_eq!(view.entries[2].name, HistoryName::Brush);
    assert!(view.entries[2].current);
    assert!(history.can_undo() && !history.can_redo());

    jump(&mut history, &mut session, 0);
    assert_eq!(session.pages, 0);
    let view = history.view();
    assert!(view.entries[1].undone && view.entries[2].undone);
    assert!(!history.can_undo() && history.can_redo());

    jump(&mut history, &mut session, 2);
    assert_eq!(session.pages, 2);
    assert!(!history.can_redo());
    assert!(matches!(history.jump(2), Ok(None)));
    assert!(matches!(history.jump(9), Err(OutOfRange(9))));
}

#[test]
fn new_edit_truncates_undone_states() {
    let mut session = Session::new();
    let mut history = History::new(0usize, None, 10, 0);
    for _ in 0..2 {
        let commit = session.add_page();
        history.record(HistoryName::Brush, None, None, commit, None, 0);
    }
    jump(&mut history, &mut session, 0);
    let commit = session.add_page();
    let released = history
        .record(HistoryName::Brush, None, None, commit, None, 0)
        .unwrap();
    assert!(!released.is_empty());

    let view = history.view();
    assert_eq!(view.entries.len(), 2);
    assert_eq!(view.cursor, 1);
    assert!(!history.can_redo());
    jump(&mut history, &mut session, 0);
    assert_eq!(session.pages, 0);
}

#[test]
fn repeated_micro_edits_coalesce_into_one_state() {
    let mut session = Session::new();
    let mut history = History::new(0usize, None, 10, 0);
    let target = session.add_page();
    history.record(HistoryName::AddText, None, None, target, None, 0);
    let entity = EntityId(7);
    for now in [1, 2] {
        let commit = session.add_page();
        history.record(
            HistoryName::SourceText,
            None,
            Some(entity),
            commit,
            None,
            now,
        );
    }
    assert_eq!(history.view().entries.len(), 3);
    jump(&mut history, &mut session, 1);
    assert_eq!(session.pages, 1);
}

#[test]
fn late_edits_do_not_coalesce() {
    let mut session = Session::new();
    let mut history = History::new(0usize, None, 10, 0);
    let entity = EntityId(7);
    for now in [0, COALESCE_WINDOW + 1] {
        let commit = session.add_page();
        history.record(
            HistoryName::SourceText,
            None,
            Some(entity),
            commit,
            None,
            now,
        );
    }
    assert_eq!(history.view().entries.len(), 3);
}

#[test]
fn capacity_washes_out_oldest_states() {
    let mut session = Session::new();
    let mut history = History::new(0usize, None, 3, 0);
    for _ in 0..5 {
        let commit = session.add_page();
        history.record(HistoryName::Brush, None, None, commit, None, 0);
    }
    let view = history.view();
    assert_eq!(view.entries.len(), 3);
    assert_eq!(view.cursor, 2);

    jump(&mut history, &mut session, 0);
    assert_eq!(session.pages, 3);
    assert!(!history.can_undo());
}

#[test]
fn clear_releases_revisions_and_resets_current_as_anchor() {
    let mut session = Session::new();
    let mut history = History::new(0usize, None, 10, 0);
    let anchor = session.add_page();
    history.record(HistoryName::AddText, None, None, anchor, None, 0);
    let target = EntityId(7);
    let current = session.add_page();
    let revision = current.revision;
    history.record(
        HistoryName::SourceText,
        None,
        Some(target),
        current,
        None,
        0,
    );

    let released = history.clear();

    let view = history.view();
    assert_eq!(view.entries.len(), 1);
    assert_eq!(view.cursor, 0);
    assert!(!history.can_undo() && !history.can_redo());
    assert_eq!(session.pages, 2);
    assert!(released.contains(&revision));

    let next = session.add_page();
    history.record(HistoryName::SourceText, None, Some(target), next, None, 0);
    assert!(history.can_undo());
}

#[test]
fn snapshot_restore_is_itself_undoable() {
    let mut session = Session::new();
    let mut history = History::new(0usize, None, 10, 0);
    let commit = session.add_page();
    history.record(HistoryName::Brush, None, None, commit, None, 0);
    let id = history.create_snapshot(session.pages, None);
    let commit = session.add_page();
    history.record(HistoryName::Brush, None, None, commit, None, 0);
    assert_eq!(session.pages, 2);

    let (pages, name) = history
        .snapshot(id)
        .map(|(pages, name)| (*pages, name.to_owned()))
        .unwrap();
    session.restore(pages);
    history.record_restore(Some(name), session.pages, None, 0);
    assert_eq!(session.pages, 1);
    let view = history.view();
    assert_eq!(view.entries.len(), 4);
    assert_eq!(view.entries[3].name, HistoryName::SnapshotRestore);
    assert!(view.entries[3].current);

    match history.step_back() {
        BackStep::Restore(target) => {
            let pages = history.states[target].snapshot;
            session.restore(pages);
            history.jumped(target);
        }
        _ => panic!("restored"),
    }
    assert_eq!(session.pages, 2);
    match history.step_forward() {
        ForwardStep::Restore(target) => {
            let pages = history.states[target].snapshot;
            session.restore(pages);
        }
        _ => panic!("restored"),
    }
    assert_eq!(session.pages, 1);
    assert_eq!(*history.current(), 1);
}

#[test]
fn one_step_back_undoes_the_last_change() {
    let mut session = Session::new();
    let mut history = History::new(0usize, Some(EntityId(1)), 10, 0);
    assert!(matches!(history.step_back(), BackStep::Nothing));
    let commit = session.add_page();
    let revision = commit.revision;
    history.record(
        HistoryName::Brush,
        None,
        None,
        commit,
        Some(EntityId(2)),
        0,
    );
    assert_eq!(history.active_page(), Some(EntityId(2)));
    match history.step_back() {
        BackStep::Undo(revisions) => assert_eq!(revisions, vec![revision]),
        _ => panic!("undone"),
    }
    let page = history.stepped_back(Revision(9));
    assert_eq!(page, Some(EntityId(1)));
    match history.step_forward() {
        ForwardStep::Undo(inverse) => assert_eq!(inverse, Revision(9)),
        _ => panic!("redone"),
    }
    history.stepped_forward(Revision(10));
    assert!(!history.can_redo());
}

#[test]
fn snapshots_are_named_and_deleted() {
    let mut history = History::new(5usize, None, 10, 0);
    let first = history.create_snapshot(5, Some("mine".to_owned()));
    let second = history.create_snapshot(6, None);
    assert_ne!(first, second);
    assert_eq!(history.snapshot(first).unwrap().1, "mine");
    assert_eq!(history.view().snapshots.len(), 2);
    assert!(history.delete_snapshot(first));
    assert!(!history.delete_snapshot(first));
    assert!(history.snapshot(first).is_none());
}
