//! An export as it runs: when it goes on, when it stops, and how it ends.
use crate::export::names;
use crate::export::names::{member_name, ArchiveImageFormat};
use crate::ids::{EntityId, ProjectId};
use crate::processing::JobState;
use vstd::prelude::*;

verus! {

/// There are no pages.
#[derive(Clone, Copy, Debug, PartialEq, Eq, Structural)]
pub struct NoPages;

/// The pages that are exported: those that were selected, or all where none was.
pub fn pages_to_export(selected: Vec<EntityId>, project: Vec<EntityId>) -> (r: Result<
    Vec<EntityId>,
    NoPages,
>)
    ensures
        r == if selected@.len() > 0 {
            Ok(selected)
        } else if project@.len() > 0 {
            Ok(project)
        } else {
            Err::<Vec<EntityId>, NoPages>(NoPages)
        },
{
    if selected.len() > 0 {
        return Ok(selected);
    }
    if project.len() > 0 {
        return Ok(project);
    }
    Err(NoPages)
}

/// Another project was opened, or none is.
#[derive(Clone, Copy, Debug, PartialEq, Eq, Structural)]
pub struct ProjectChanged;

/// Whether the project that is exported is still the open one, once a destination was chosen.
pub fn check_project(exported: ProjectId, open: Option<ProjectId>) -> (r: Result<(), ProjectChanged>)
    ensures
        r == if open == Some(exported) {
            Ok::<(), ProjectChanged>(())
        } else {
            Err(ProjectChanged)
        },
{
    match open {
        Some(project) => {
            if project == exported {
                return Ok(());
            }
        },
        None => {},
    }
    Err(ProjectChanged)
}

/// An export as it is shown.
#[derive(Clone, Copy, Debug, PartialEq, Eq, Structural)]
pub struct ExportRun {
    pub completed: usize,
    pub total: usize,
    pub page: Option<EntityId>,
}

impl ExportRun {
    /// No more pages are done than there are.
    pub open spec fn wf(self) -> bool {
        self.completed <= self.total
    }

    /// An export of `total` pages.
    pub fn new(total: usize) -> (r: Self)
        ensures
            r == (ExportRun { completed: 0, total, page: None }),
            r.wf(),
    {
        ExportRun { completed: 0, total, page: None }
    }
}

/// How an export ended: its state, and the error that is shown.
#[derive(Debug)]
pub struct ExportEnd {
    pub state: JobState,
    pub error: Option<String>,
    /// The file that was begun is removed: unless it is complete, it cannot be read.
    pub remove_file: bool,
}

// ---------------------------------------------------------------------------------------------
// An archive that takes the place of a file once it is complete
// ---------------------------------------------------------------------------------------------

/// A page that was prepared for an archive.
#[derive(Clone, Copy, Debug, PartialEq, Eq, Structural)]
pub struct PreparedPage {
    pub index: usize,
    pub page: EntityId,
}

/// What happens to an archive. Each event tells whether a stop was asked for.
#[derive(Debug)]
pub enum ArchiveEvent {
    /// The file beside the destination was created.
    Created { result: Result<(), String> },
    /// The next page was prepared. There is none where a stop was seen while it was prepared.
    Prepared { result: Result<Option<PreparedPage>, String>, stopped: bool },
    /// All pages were handed out.
    NoMorePages,
    /// The page was stored, or passed over after a stop.
    Stored { result: Result<(), String>, stopped: bool },
    /// The archive was completed.
    Closed { result: Result<(), String>, stopped: bool },
    /// The archive was put in its place.
    Placed { result: Result<(), String> },
}

/// What is done next with an archive.
#[derive(Debug)]
pub enum ArchiveAction {
    /// Prepare the next page.
    Prepare,
    /// Store the page under this name, unless a stop was asked for.
    Store(String),
    /// Complete the archive.
    Close,
    /// Put the archive in the place of what is there.
    Place,
    End(ExportEnd),
}

/// An archive under way.
#[derive(Clone, Copy, Debug, PartialEq, Eq, Structural)]
pub struct ArchiveExport {
    pub run: ExportRun,
    pub format: ArchiveImageFormat,
}

/// The action ends the export with this error.
pub open spec fn fails(action: ArchiveAction, message: String) -> bool {
    action == ArchiveAction::End(
        ExportEnd { state: JobState::Failed, error: Some(message), remove_file: false },
    )
}

/// The action ends the export since a stop was asked for.
pub open spec fn stops(action: ArchiveAction) -> bool {
    action == ArchiveAction::End(
        ExportEnd { state: JobState::Stopped, error: None, remove_file: false },
    )
}

impl ArchiveExport {
    /// An archive of `total` pages.
    pub fn new(total: usize, format: ArchiveImageFormat) -> (r: Self)
        ensures
            r.run == (ExportRun { completed: 0, total, page: None }),
            r.format == format,
            r.run.wf(),
    {
        ArchiveExport { run: ExportRun::new(total), format }
    }

    /// The event can come now: a page is counted only while one is left, and its place is a number.
    pub open spec fn expects(self, event: ArchiveEvent) -> bool {
        match event {
            ArchiveEvent::Prepared { result: Ok(Some(prepared)), .. } => prepared.index
                < self.run.total,
            ArchiveEvent::Stored { .. } => self.run.completed < self.run.total,
            _ => true,
        }
    }

    /// What is done after an event. A failure is told even where a stop was asked for.
    pub open spec fn follows(self, event: ArchiveEvent, after: Self, action: ArchiveAction) -> bool {
        match event {
            ArchiveEvent::Created { result } => after == self && match result {
                Ok(()) => action == ArchiveAction::Prepare,
                Err(message) => fails(action, message),
            },
            ArchiveEvent::Prepared { result, stopped } => match result {
                Err(message) => after == self && fails(action, message),
                Ok(None) => after == self && stops(action),
                Ok(Some(prepared)) => if stopped {
                    after == self && stops(action)
                } else {
                    &&& after == ArchiveExport {
                        run: ExportRun { page: Some(prepared.page), ..self.run },
                        ..self
                    }
                    &&& action matches ArchiveAction::Store(name) && name@ == names::member(
                        prepared.index as nat,
                        self.run.total as nat,
                        self.format,
                    )
                },
            },
            ArchiveEvent::NoMorePages => after == self && action == ArchiveAction::Close,
            ArchiveEvent::Stored { result, stopped } => match result {
                Err(message) => after == self && fails(action, message),
                Ok(()) => if stopped {
                    after == self && stops(action)
                } else {
                    &&& after == ArchiveExport {
                        run: ExportRun {
                            completed: (self.run.completed + 1) as usize,
                            ..self.run
                        },
                        ..self
                    }
                    &&& action == ArchiveAction::Prepare
                },
            },
            ArchiveEvent::Closed { result, stopped } => after == self && match result {
                Err(message) => fails(action, message),
                Ok(()) => if stopped {
                    stops(action)
                } else {
                    action == ArchiveAction::Place
                },
            },
            ArchiveEvent::Placed { result } => after == self && match result {
                Err(message) => fails(action, message),
                Ok(()) => action == ArchiveAction::End(
                    ExportEnd { state: JobState::Finished, error: None, remove_file: false },
                ),
            },
        }
    }

    /// What is done after an event.
    pub fn next(&mut self, event: ArchiveEvent) -> (r: ArchiveAction)
        requires
            old(self).run.wf(),
            old(self).expects(event),
        ensures
            final(self).run.wf(),
            old(self).follows(event, *final(self), r),
    {
        let result = match event {
            ArchiveEvent::Created { result } => match result {
                Ok(()) => return ArchiveAction::Prepare,
                Err(message) => Err(message),
            },
            ArchiveEvent::Prepared { result, stopped } => match result {
                Err(message) => Err(message),
                Ok(None) => Ok(JobState::Stopped),
                Ok(Some(prepared)) => {
                    if stopped {
                        Ok(JobState::Stopped)
                    } else {
                        self.run.page = Some(prepared.page);
                        let name = member_name(prepared.index, self.run.total, self.format);
                        return ArchiveAction::Store(name);
                    }
                },
            },
            ArchiveEvent::NoMorePages => return ArchiveAction::Close,
            ArchiveEvent::Stored { result, stopped } => match result {
                Err(message) => Err(message),
                Ok(()) => {
                    if stopped {
                        Ok(JobState::Stopped)
                    } else {
                        self.run.completed = self.run.completed + 1;
                        return ArchiveAction::Prepare;
                    }
                },
            },
            ArchiveEvent::Closed { result, stopped } => match result {
                Err(message) => Err(message),
                Ok(()) => {
                    if stopped {
                        Ok(JobState::Stopped)
                    } else {
                        return ArchiveAction::Place;
                    }
                },
            },
            ArchiveEvent::Placed { result } => match result {
                Err(message) => Err(message),
                Ok(()) => Ok(JobState::Finished),
            },
        };
        match result {
            Ok(state) => ArchiveAction::End(ExportEnd { state, error: None, remove_file: false }),
            Err(message) => ArchiveAction::End(
                ExportEnd { state: JobState::Failed, error: Some(message), remove_file: false },
            ),
        }
    }
}

/// What is there gives way only to an archive that was completed before any stop was asked for.
pub proof fn lemma_destination_survives(
    export: ArchiveExport,
    event: ArchiveEvent,
    after: ArchiveExport,
    action: ArchiveAction,
)
    requires
        export.follows(event, after, action),
    ensures
        action is Place ==> (event matches ArchiveEvent::Closed { result: Ok(()), stopped: false }),
        (action matches ArchiveAction::End(end) && end.state == JobState::Finished) ==> (
        event matches ArchiveEvent::Placed { result: Ok(()) }),
{
}

/// A page is counted exactly when it was stored and no stop was asked for.
pub proof fn lemma_only_stored_pages_count(
    export: ArchiveExport,
    event: ArchiveEvent,
    after: ArchiveExport,
    action: ArchiveAction,
)
    requires
        export.run.wf(),
        export.expects(event),
        export.follows(event, after, action),
    ensures
        after.run.total == export.run.total,
        after.run.completed == export.run.completed + if (event matches ArchiveEvent::Stored {
            result: Ok(()),
            stopped: false,
        }) {
            1int
        } else {
            0int
        },
{
}

// ---------------------------------------------------------------------------------------------
// Pages that are written as they are rendered
// ---------------------------------------------------------------------------------------------

/// What happens to an export of pages.
#[derive(Debug)]
pub enum PageEvent {
    Begin,
    /// A page was rendered, or could not be.
    Rendered { result: Result<EntityId, String>, stopped: bool },
    /// All pages were handed out.
    NoMorePages,
    /// The page was written, or handed to the archive.
    Written { page: EntityId, result: Result<(), String> },
    /// The archive was completed.
    ArchiveEnded { result: Result<(), String> },
    /// What writes the archive is gone, and says nothing of the file.
    ArchiveLost { message: String },
}

/// What is done next with an export of pages.
#[derive(Debug)]
pub enum PageAction {
    /// Wait for the next page.
    Next,
    /// Write the page, or hand it to the archive.
    Write,
    /// Tell the archive that no page follows, and wait for it.
    EndArchive,
    End(ExportEnd),
}

/// An export of pages under way.
#[derive(Debug)]
pub struct PageExport {
    pub run: ExportRun,
    /// The pages go into one archive.
    pub archive: bool,
    /// How the pages ended, where they have and the archive has not.
    pub outcome: Option<Result<JobState, String>>,
}

/// How an export ends whose pages and whose archive ended so: with the first of their errors.
pub open spec fn joined_end(pages: Result<JobState, String>, archive: Result<(), String>) -> ExportEnd {
    match pages {
        Err(message) => ExportEnd {
            state: JobState::Failed,
            error: Some(message),
            remove_file: true,
        },
        Ok(state) => match archive {
            Err(message) => ExportEnd {
                state: JobState::Failed,
                error: Some(message),
                remove_file: true,
            },
            Ok(()) => ExportEnd { state, error: None, remove_file: state != JobState::Finished },
        },
    }
}

impl PageExport {
    /// An export of `total` pages.
    pub fn new(total: usize, archive: bool) -> (r: Self)
        ensures
            r == (PageExport {
                run: ExportRun { completed: 0, total, page: None },
                archive,
                outcome: None,
            }),
            r.run.wf(),
    {
        PageExport { run: ExportRun::new(total), archive, outcome: None }
    }

    /// The event can come now: a page is counted only while one is left, and the archive ends once
    /// the pages have.
    pub open spec fn expects(self, event: PageEvent) -> bool {
        match event {
            PageEvent::Written { result: Ok(()), .. } => self.run.completed < self.run.total,
            PageEvent::ArchiveEnded { .. } => self.outcome is Some,
            PageEvent::ArchiveLost { .. } => self.outcome is Some,
            _ => true,
        }
    }

    /// The pages have ended so: an archive is completed first.
    pub open spec fn settles(
        self,
        outcome: Result<JobState, String>,
        after: Self,
        action: PageAction,
    ) -> bool {
        if self.archive {
            &&& after == PageExport { outcome: Some(outcome), ..self }
            &&& action == PageAction::EndArchive
        } else {
            &&& after == self
            &&& action == PageAction::End(
                match outcome {
                    Ok(state) => ExportEnd { state, error: None, remove_file: false },
                    Err(message) => ExportEnd {
                        state: JobState::Failed,
                        error: Some(message),
                        remove_file: false,
                    },
                },
            )
        }
    }

    /// What is done after an event. A stop that was asked for goes before a failure to render.
    pub open spec fn follows(self, event: PageEvent, after: Self, action: PageAction) -> bool {
        match event {
            PageEvent::Begin => after == self && action == PageAction::Next,
            PageEvent::Rendered { result, stopped } => if stopped {
                self.settles(Ok(JobState::Stopped), after, action)
            } else {
                match result {
                    Ok(_) => after == self && action == PageAction::Write,
                    Err(message) => self.settles(Err(message), after, action),
                }
            },
            PageEvent::NoMorePages => self.settles(Ok(JobState::Finished), after, action),
            PageEvent::Written { page, result } => match result {
                Ok(()) => {
                    &&& after == PageExport {
                        run: ExportRun {
                            completed: (self.run.completed + 1) as usize,
                            page: Some(page),
                            ..self.run
                        },
                        ..self
                    }
                    &&& action == PageAction::Next
                },
                Err(message) => self.settles(Err(message), after, action),
            },
            PageEvent::ArchiveEnded { result } => {
                &&& after == PageExport { outcome: None, ..self }
                &&& action == PageAction::End(joined_end(self.outcome->0, result))
            },
            PageEvent::ArchiveLost { message } => {
                &&& after == PageExport { outcome: None, ..self }
                &&& action == PageAction::End(
                    ExportEnd { state: JobState::Failed, error: Some(message), remove_file: false },
                )
            },
        }
    }

    fn settle(&mut self, outcome: Result<JobState, String>) -> (r: PageAction)
        requires
            old(self).run.wf(),
        ensures
            final(self).run.wf(),
            old(self).settles(outcome, *final(self), r),
    {
        if self.archive {
            self.outcome = Some(outcome);
            return PageAction::EndArchive;
        }
        match outcome {
            Ok(state) => PageAction::End(ExportEnd { state, error: None, remove_file: false }),
            Err(message) => PageAction::End(
                ExportEnd { state: JobState::Failed, error: Some(message), remove_file: false },
            ),
        }
    }

    /// What is done after an event.
    pub fn next(&mut self, event: PageEvent) -> (r: PageAction)
        requires
            old(self).run.wf(),
            old(self).expects(event),
        ensures
            final(self).run.wf(),
            old(self).follows(event, *final(self), r),
    {
        match event {
            PageEvent::Begin => PageAction::Next,
            PageEvent::Rendered { result, stopped } => {
                if stopped {
                    return self.settle(Ok(JobState::Stopped));
                }
                match result {
                    Ok(_) => PageAction::Write,
                    Err(message) => self.settle(Err(message)),
                }
            },
            PageEvent::NoMorePages => self.settle(Ok(JobState::Finished)),
            PageEvent::Written { page, result } => match result {
                Ok(()) => {
                    self.run.completed = self.run.completed + 1;
                    self.run.page = Some(page);
                    PageAction::Next
                },
                Err(message) => self.settle(Err(message)),
            },
            PageEvent::ArchiveEnded { result } => match self.outcome.take() {
                Some(Err(message)) => PageAction::End(
                    ExportEnd {
                        state: JobState::Failed,
                        error: Some(message),
                        remove_file: true,
                    },
                ),
                Some(Ok(state)) => match result {
                    Err(message) => PageAction::End(
                        ExportEnd {
                            state: JobState::Failed,
                            error: Some(message),
                            remove_file: true,
                        },
                    ),
                    Ok(()) => PageAction::End(
                        ExportEnd {
                            state,
                            error: None,
                            remove_file: state != JobState::Finished,
                        },
                    ),
                },
                None => PageAction::Next,
            },
            PageEvent::ArchiveLost { message } => {
                self.outcome = None;
                PageAction::End(
                    ExportEnd { state: JobState::Failed, error: Some(message), remove_file: false },
                )
            },
        }
    }
}

/// An archive of pages whose writer lived on is left behind only where the export finished.
pub proof fn lemma_no_partial_archive(
    export: PageExport,
    event: PageEvent,
    after: PageExport,
    action: PageAction,
)
    requires
        export.archive,
        !(event is ArchiveLost),
        export.expects(event),
        export.follows(event, after, action),
    ensures
        action matches PageAction::End(end) ==> end.remove_file == (end.state
            != JobState::Finished),
{
}

/// An export that was stopped or has failed writes no further page.
pub proof fn lemma_nothing_after_the_end(
    export: PageExport,
    event: PageEvent,
    after: PageExport,
    action: PageAction,
)
    requires
        export.follows(event, after, action),
        event matches PageEvent::Rendered { result, stopped } && (stopped || result is Err),
    ensures
        action is End || action is EndArchive,
        after.run == export.run,
{
}

/// How an export ends that made an archive: with the error of its pages, else with that of the
/// archive, else as its pages ended. What was begun is removed unless all went well.
pub proof fn lemma_first_error_is_told(pages: Result<JobState, String>, archive: Result<(), String>)
    ensures
        ({
            let end = joined_end(pages, archive);
            &&& pages matches Err(message) ==> end.state == JobState::Failed && end.error == Some(
                message,
            )
            &&& pages is Ok && (archive is Err) ==> end.state == JobState::Failed && end.error
                == Some(archive->Err_0)
            &&& pages is Ok && archive is Ok ==> end.state == pages->Ok_0 && end.error is None
            &&& end.remove_file <==> !(pages == Ok::<JobState, String>(JobState::Finished)
                && archive is Ok)
        }),
{
}

/// Whatever fails ends the export with its message; a stop that was seen, and nothing else, ends it
/// without one.
pub proof fn lemma_failures_and_stops_end_an_archive(
    export: ArchiveExport,
    event: ArchiveEvent,
    after: ArchiveExport,
    action: ArchiveAction,
    failed: Option<String>,
    stopped: bool,
)
    requires
        export.follows(event, after, action),
        match event {
            ArchiveEvent::Created { result } => !stopped && (match result {
                Err(message) => failed == Some(message),
                Ok(_) => failed is None,
            }),
            ArchiveEvent::Prepared { result, stopped: asked } => match result {
                Err(message) => failed == Some(message),
                Ok(page) => failed is None && stopped == (asked || page is None),
            },
            ArchiveEvent::NoMorePages => failed is None && !stopped,
            ArchiveEvent::Stored { result, stopped: asked } => match result {
                Err(message) => failed == Some(message),
                Ok(_) => failed is None && stopped == asked,
            },
            ArchiveEvent::Closed { result, stopped: asked } => match result {
                Err(message) => failed == Some(message),
                Ok(_) => failed is None && stopped == asked,
            },
            ArchiveEvent::Placed { result } => !stopped && (match result {
                Err(message) => failed == Some(message),
                Ok(_) => failed is None,
            }),
        },
    ensures
        failed is Some ==> (action matches ArchiveAction::End(end) && end.state
            == JobState::Failed && end.error == failed && after == export),
        failed is None && stopped ==> (action matches ArchiveAction::End(end) && end.state
            == JobState::Stopped && end.error is None && after == export),
        failed is None && !stopped ==> (action matches ArchiveAction::End(end) ==> end.state
            == JobState::Finished && end.error is None && event is Placed),
        action matches ArchiveAction::End(end) ==> !end.remove_file,
{
}

/// A page that was prepared is stored under its number, and shown; what was stored is followed by the
/// next page, the last page by the end of the archive, and that by putting it in its place.
pub proof fn lemma_steps_of_an_archive(
    export: ArchiveExport,
    event: ArchiveEvent,
    after: ArchiveExport,
    action: ArchiveAction,
)
    requires
        export.follows(event, after, action),
    ensures
        event matches ArchiveEvent::Created { result: Ok(_) } ==> action is Prepare,
        event matches ArchiveEvent::Prepared { result: Ok(Some(page)), stopped: false } ==> (
        action matches ArchiveAction::Store(name) && name@ == names::member(
            page.index as nat,
            export.run.total as nat,
            export.format,
        ) && after.run.page == Some(page.page) && after.run.completed == export.run.completed),
        event is NoMorePages ==> action is Close,
        event matches ArchiveEvent::Stored { result: Ok(_), stopped: false } ==> action is Prepare
            && after.run.page == export.run.page,
        event matches ArchiveEvent::Closed { result: Ok(_), stopped: false } ==> action is Place,
        after.format == export.format,
{
}

/// A page that was rendered is written, and one that was written is counted and shown. An export
/// without an archive ends by itself; one with an archive waits for it.
pub proof fn lemma_steps_of_an_export(
    export: PageExport,
    event: PageEvent,
    after: PageExport,
    action: PageAction,
)
    requires
        export.run.completed < export.run.total,
        export.follows(event, after, action),
    ensures
        event is Begin ==> action is Next && after == export,
        event matches PageEvent::Rendered { result: Ok(_), stopped: false } ==> action is Write
            && after == export,
        event matches PageEvent::Written { page, result: Ok(_) } ==> action is Next
            && after.run.completed == export.run.completed + 1 && after.run.page == Some(page)
            && after.run.total == export.run.total && after.outcome == export.outcome,
        event matches PageEvent::Rendered { stopped: true, .. } ==> (if export.archive {
            action is EndArchive && after.outcome == Some(Ok::<JobState, String>(JobState::Stopped))
        } else {
            action matches PageAction::End(end) && end.state == JobState::Stopped
                && end.error is None && !end.remove_file
        }),
        event matches PageEvent::Rendered { result: Err(message), stopped: false } ==> (
        if export.archive {
            action is EndArchive && after.outcome == Some(Err::<JobState, String>(message))
        } else {
            action matches PageAction::End(end) && end.state == JobState::Failed && end.error
                == Some(message)
        }),
        event matches PageEvent::Written { result: Err(message), .. } ==> (if export.archive {
            action is EndArchive && after.outcome == Some(Err::<JobState, String>(message))
        } else {
            action matches PageAction::End(end) && end.state == JobState::Failed && end.error
                == Some(message)
        }),
        event is NoMorePages ==> (if export.archive {
            action is EndArchive && after.outcome == Some(
                Ok::<JobState, String>(JobState::Finished),
            )
        } else {
            action matches PageAction::End(end) && end.state == JobState::Finished
                && end.error is None
        }),
        event matches PageEvent::ArchiveLost { message } ==> (
        action matches PageAction::End(end) && end.state == JobState::Failed && end.error == Some(
            message,
        ) && !end.remove_file),
        after.archive == export.archive,
{
}

} // verus!
