//! The one job that runs in the background, and how far it is.
use crate::glossary::model::Glossary;
use crate::ids::{EntityId, JobId};
use crate::pipeline::execution::RunStatus;
use crate::pipeline::request;
use crate::pipeline::request::{terminology_from_glossary, Stage, StopToken, TerminologyEntry};
use crate::ids;
use crate::text;
use vstd::prelude::*;

verus! {

/// What a job does.
#[derive(Clone, Copy, Debug, PartialEq, Eq, Structural)]
pub enum JobKind {
    Pipeline,
    Workflow,
    GlossaryScan,
    GlossaryTranslation,
    Export,
}

/// Where a job is.
#[derive(Clone, Copy, Debug, PartialEq, Eq, Structural)]
pub enum JobPhase {
    Pipeline { stage: Option<Stage> },
    PreparingOcr,
    ExtractingTerms,
    TranslatingTerms,
}

/// Whether a job runs, and how it ended.
#[derive(Clone, Copy, Debug, PartialEq, Eq, Structural)]
pub enum JobState {
    Running,
    AwaitingReview,
    Finished,
    Failed,
    Stopped,
}

/// A job as it is shown.
#[derive(Debug)]
pub struct Job {
    pub id: JobId,
    pub kind: JobKind,
    pub phase: JobPhase,
    pub state: JobState,
    pub completed: usize,
    pub total: usize,
    pub page: Option<EntityId>,
    pub error: Option<String>,
}

impl Clone for Job {
    /// The same job once more.
    fn clone(&self) -> (r: Self)
        ensures
            r == *self,
    {
        Job {
            id: self.id,
            kind: self.kind,
            phase: self.phase,
            state: self.state,
            completed: self.completed,
            total: self.total,
            page: self.page,
            error: match &self.error {
                Some(error) => Some(error.clone()),
                None => None,
            },
        }
    }
}

/// A job that runs, with the flag that asks it to stop.
pub struct ActiveJob {
    pub job: Job,
    pub stop: StopToken,
}

/// The place for the job that runs. There is one place for all kinds of jobs.
pub struct JobRegistry {
    pub active: Option<ActiveJob>,
}

/// Another job runs.
#[derive(Clone, Copy, Debug, PartialEq, Eq, Structural)]
pub struct AnotherProcess;

/// The job does not run.
#[derive(Clone, Copy, Debug, PartialEq, Eq, Structural)]
pub struct NotRunning(pub JobId);

/// How much of a job is done, of how much, and on which page it is.
#[derive(Clone, Copy, Debug, PartialEq, Eq, Structural)]
pub struct JobCounts {
    pub completed: usize,
    pub total: usize,
    pub page: Option<EntityId>,
}

/// What changes of a job.
#[derive(Clone, Copy, Debug, PartialEq, Eq, Structural)]
pub struct JobUpdate {
    pub counts: Option<JobCounts>,
    pub phase: Option<JobPhase>,
}

/// The job with a change.
pub open spec fn updated(job: Job, update: JobUpdate) -> Job {
    Job {
        completed: match update.counts {
            Some(c) => c.completed,
            None => job.completed,
        },
        total: match update.counts {
            Some(c) => c.total,
            None => job.total,
        },
        page: match update.counts {
            Some(c) => c.page,
            None => job.page,
        },
        phase: match update.phase {
            Some(phase) => phase,
            None => job.phase,
        },
        ..job
    }
}

impl JobRegistry {
    /// The job with this name runs.
    pub open spec fn runs(self, id: JobId) -> bool {
        self.active matches Some(active) && active.job.id == id
    }

    /// No job runs.
    pub fn new() -> (r: Self)
        ensures
            r.active is None,
    {
        JobRegistry { active: None }
    }

    /// Starts a job, unless one runs.
    pub fn start_job(&mut self, kind: JobKind, phase: JobPhase) -> (r: Result<
        (JobId, StopToken),
        AnotherProcess,
    >)
        ensures
            old(self).active is Some <==> r is Err,
            r is Err ==> *final(self) == *old(self),
            r matches Ok((id, stop)) ==> (final(self).active matches Some(active) && active.stop
                == stop && active.job == Job {
                id,
                kind,
                phase,
                state: JobState::Running,
                completed: 0,
                total: 0,
                page: None,
                error: None,
            }),
    {
        if self.active.is_some() {
            return Err(AnotherProcess);
        }
        let id = JobId::new();
        let stop = StopToken::new();
        let job = Job {
            id,
            kind,
            phase,
            state: JobState::Running,
            completed: 0,
            total: 0,
            page: None,
            error: None,
        };
        self.active = Some(ActiveJob { job, stop: stop.clone() });
        Ok((id, stop))
    }

    /// Changes the job with this name, where it runs, and gives it to be shown.
    pub fn update_job(&mut self, id: JobId, update: JobUpdate) -> (r: Option<Job>)
        ensures
            !old(self).runs(id) ==> r is None && *final(self) == *old(self),
            old(self).runs(id) ==> {
                let job = updated(old(self).active->0.job, update);
                r == Some(job) && final(self).active == Some(
                    ActiveJob { job, stop: old(self).active->0.stop },
                )
            },
    {
        match self.active.take() {
            None => None,
            Some(active) => {
                if active.job.id != id {
                    self.active = Some(active);
                    return None;
                }
                let mut job = active.job;
                match update.counts {
                    Some(JobCounts { completed, total, page }) => {
                        job.completed = completed;
                        job.total = total;
                        job.page = page;
                    },
                    None => {},
                }
                match update.phase {
                    Some(phase) => {
                        job.phase = phase;
                    },
                    None => {},
                }
                let shown = job.clone();
                self.active = Some(ActiveJob { job, stop: active.stop });
                Some(shown)
            },
        }
    }

    /// Ends the job with this name, where it runs, and gives it to be shown. The place is free
    /// again.
    pub fn finish_job(&mut self, id: JobId, state: JobState, error: Option<String>) -> (r: Option<
        Job,
    >)
        ensures
            !old(self).runs(id) ==> r is None && *final(self) == *old(self),
            old(self).runs(id) ==> final(self).active is None && r == Some(
                Job { state, error, ..old(self).active->0.job },
            ),
    {
        match self.active.take() {
            None => None,
            Some(active) => {
                if active.job.id != id {
                    self.active = Some(active);
                    return None;
                }
                let mut job = active.job;
                job.state = state;
                job.error = error;
                Some(job)
            },
        }
    }

    /// Asks the job that runs to stop.
    pub fn stop_all(&self) {
        match &self.active {
            Some(active) => active.stop.stop(),
            None => {},
        }
    }

    /// Asks the job with this name to stop, where it runs.
    pub fn stop_job(&self, id: JobId) -> (r: Result<(), NotRunning>)
        ensures
            self.runs(id) ==> r == Ok::<(), NotRunning>(()),
            !self.runs(id) ==> r == Err::<(), NotRunning>(NotRunning(id)),
    {
        match &self.active {
            Some(active) => {
                if active.job.id == id {
                    active.stop.stop();
                    return Ok(());
                }
            },
            None => {},
        }
        Err(NotRunning(id))
    }

    /// Whether a job runs.
    pub fn is_running(&self) -> (r: bool)
        ensures
            r == (self.active is Some),
    {
        self.active.is_some()
    }

    /// The jobs that run: one or none.
    pub fn snapshot(&self) -> (r: Vec<Job>)
        ensures
            r@ == match self.active {
                Some(active) => seq![active.job],
                None => Seq::empty(),
            },
    {
        match &self.active {
            Some(active) => {
                let r = vec![active.job.clone()];
                assert(r@ =~= seq![self.active->0.job]);
                r
            },
            None => {
                let r: Vec<Job> = Vec::new();
                assert(r@ =~= Seq::empty());
                r
            },
        }
    }
}

// ---------------------------------------------------------------------------------------------
// Progress
// ---------------------------------------------------------------------------------------------

/// What a run tells of itself.
#[derive(Debug)]
pub enum Progress {
    Started { pages: Vec<EntityId>, stages: Vec<Stage> },
    Loading { page: EntityId, stage: Stage, model: String },
    Running { page: EntityId, stage: Stage, model: String },
    Finished { page: EntityId, stage: Stage, model: String },
    Skipped { page: EntityId, stage: Stage },
}

/// How many pairs of a page and a stage are done, of how many.
#[derive(Clone, Copy, Debug, PartialEq, Eq, Structural)]
pub struct ProgressCount {
    pub completed: usize,
    pub total: usize,
}

/// The product, or the largest number.
pub open spec fn capped_product(a: nat, b: nat) -> nat {
    if a * b > usize::MAX {
        usize::MAX as nat
    } else {
        a * b
    }
}

fn product(a: usize, b: usize) -> (r: usize)
    ensures
        r == capped_product(a as nat, b as nat),
{
    match a.checked_mul(b) {
        Some(n) => n,
        None => usize::MAX,
    }
}

/// The count after one more, which is at most the total.
pub open spec fn one_more(count: ProgressCount) -> ProgressCount {
    ProgressCount {
        completed: if count.completed < count.total {
            (count.completed + 1) as usize
        } else {
            count.total
        },
        total: count.total,
    }
}

/// The count after an event.
pub open spec fn counted(count: ProgressCount, event: Progress) -> ProgressCount {
    match event {
        Progress::Started { pages, stages } => ProgressCount {
            completed: 0,
            total: capped_product(pages@.len(), stages@.len()) as usize,
        },
        Progress::Finished { .. } => one_more(count),
        Progress::Skipped { .. } => one_more(count),
        Progress::Loading { .. } => count,
        Progress::Running { .. } => count,
    }
}

/// What an event shows: the page, and the stage.
pub open spec fn shown_at(event: Progress) -> Option<(Option<EntityId>, Option<Stage>)> {
    match event {
        Progress::Started { .. } => Some((None, None)),
        Progress::Loading { page, stage, .. } => Some((Some(page), Some(stage))),
        Progress::Finished { page, stage, .. } => Some((Some(page), Some(stage))),
        Progress::Skipped { page, stage } => Some((Some(page), Some(stage))),
        Progress::Running { .. } => None,
    }
}

impl ProgressCount {
    /// No more is done than there is.
    pub open spec fn wf(self) -> bool {
        self.completed <= self.total
    }

    /// Nothing is known.
    pub fn new() -> (r: Self)
        ensures
            r.wf(),
            r.completed == 0,
            r.total == 0,
    {
        ProgressCount { completed: 0, total: 0 }
    }

    fn one(&mut self)
        requires
            old(self).wf(),
        ensures
            *final(self) == one_more(*old(self)),
    {
        if self.completed < self.total {
            self.completed = self.completed + 1;
        } else {
            self.completed = self.total;
        }
    }

    /// Counts an event. What it gives is to be shown of the job; where `phased`, with the stage.
    pub fn on_event(&mut self, event: &Progress, phased: bool) -> (r: Option<JobUpdate>)
        requires
            old(self).wf(),
        ensures
            final(self).wf(),
            *final(self) == counted(*old(self), *event),
            r == match shown_at(*event) {
                Some((page, stage)) => Some(
                    JobUpdate {
                        counts: Some(
                            JobCounts {
                                completed: final(self).completed,
                                total: final(self).total,
                                page,
                            },
                        ),
                        phase: if phased {
                            Some(JobPhase::Pipeline { stage })
                        } else {
                            None
                        },
                    },
                ),
                None => None,
            },
    {
        let (page, stage) = match event {
            Progress::Started { pages, stages } => {
                self.completed = 0;
                self.total = product(pages.len(), stages.len());
                (None, None)
            },
            Progress::Loading { page, stage, .. } => (Some(*page), Some(*stage)),
            Progress::Finished { page, stage, .. } => {
                self.one();
                (Some(*page), Some(*stage))
            },
            Progress::Skipped { page, stage } => {
                self.one();
                (Some(*page), Some(*stage))
            },
            Progress::Running { .. } => {
                return None;
            },
        };
        Some(
            JobUpdate {
                counts: Some(
                    JobCounts { completed: self.completed, total: self.total, page },
                ),
                phase: if phased {
                    Some(JobPhase::Pipeline { stage })
                } else {
                    None
                },
            },
        )
    }
}

/// The state that a run leaves its job in, and the error that is shown.
pub fn final_state(result: Result<RunStatus, String>) -> (r: (JobState, Option<String>))
    ensures
        r == match result {
            Ok(RunStatus::Stopped) => (JobState::Stopped, None),
            Ok(RunStatus::Completed) => (JobState::Finished, None),
            Err(error) => (JobState::Failed, Some(error)),
        },
{
    match result {
        Ok(RunStatus::Stopped) => (JobState::Stopped, None),
        Ok(RunStatus::Completed) => (JobState::Finished, None),
        Err(error) => (JobState::Failed, Some(error)),
    }
}

/// The terms that a run keeps to: those of the glossary that the project has as the run starts.
pub fn terminology_snapshot(glossary: Option<&Glossary>) -> (r: Vec<TerminologyEntry>)
    ensures
        glossary is None || !glossary->0.enabled ==> r@.len() == 0,
        glossary is Some && glossary->0.enabled ==> exists|terms: Seq<
            crate::pipeline::request::RankedTerm,
        >| #[trigger]
            request::are_terms_of(terms, request::eligible(glossary->0.entries@)) && r@
                == request::bare(crate::order::arranged(terms)),
{
    match glossary {
        Some(glossary) => terminology_from_glossary(glossary),
        None => Vec::new(),
    }
}

// ---------------------------------------------------------------------------------------------
// Laws
// ---------------------------------------------------------------------------------------------

/// The count after the events.
pub open spec fn counted_all(count: ProgressCount, events: Seq<Progress>) -> ProgressCount
    decreases events.len(),
{
    if events.len() == 0 {
        count
    } else {
        counted(counted_all(count, events.drop_last()), events.last())
    }
}

/// The events that finish or skip a stage on a page.
pub open spec fn ended(events: Seq<Progress>) -> nat
    decreases events.len(),
{
    if events.len() == 0 {
        0
    } else {
        ended(events.drop_last()) + (if events.last() is Finished || events.last() is Skipped {
            1nat
        } else {
            0nat
        })
    }
}

/// After a start, the count is that of the stages that ended, and never more than there are.
pub proof fn lemma_progress_counts_ends(count: ProgressCount, events: Seq<Progress>)
    requires
        count.completed == 0,
        forall|i: int| 0 <= i < events.len() ==> !((#[trigger] events[i]) is Started),
    ensures
        counted_all(count, events).total == count.total,
        counted_all(count, events).completed == if ended(events) < count.total {
            ended(events) as int
        } else {
            count.total as int
        },
    decreases events.len(),
{
    if events.len() > 0 {
        let head = events.drop_last();
        assert forall|i: int| 0 <= i < head.len() implies !((#[trigger] head[i]) is Started) by {
            assert(head[i] == events[i]);
        }
        lemma_progress_counts_ends(count, head);
        assert(!(events[events.len() - 1] is Started));
    }
}

impl NotRunning {
    /// What is said where no such job runs.
    pub fn message(self) -> (r: String)
        ensures
            r@ == "job "@ + ids::uuid_text(self.0.0) + " is not running"@,
    {
        let mut message = text::joined("job ", ids::written_name(self.0.0).as_str());
        message.append(" is not running");
        message
    }
}

impl AnotherProcess {
    /// What is said where another job runs.
    pub fn message(self) -> (r: &'static str)
        ensures
            r@ == "another process is already running"@,
    {
        "another process is already running"
    }
}

/// A change of a job sets what it names and nothing else: never the job's name, kind, state or error.
pub proof fn lemma_an_update_sets_what_it_names(job: Job, update: JobUpdate)
    ensures
        ({
            let after = updated(job, update);
            &&& after.id == job.id
            &&& after.kind == job.kind
            &&& after.state == job.state
            &&& after.error == job.error
            &&& update.counts matches Some(c) ==> after.completed == c.completed && after.total
                == c.total && after.page == c.page
            &&& update.counts is None ==> after.completed == job.completed && after.total
                == job.total && after.page == job.page
            &&& update.phase matches Some(phase) ==> after.phase == phase
            &&& update.phase is None ==> after.phase == job.phase
        }),
{
}

/// A run begins with nothing done of its pages times its stages. A stage that is finished or skipped
/// on a page is one more that is done, up to the total; what is loaded or run counts nothing.
pub proof fn lemma_an_event_more(count: ProgressCount, event: Progress)
    requires
        count.completed <= count.total,
    ensures
        event matches Progress::Started { pages, stages } ==> counted(count, event).completed == 0
            && (pages@.len() * stages@.len() <= usize::MAX ==> counted(count, event).total
            == pages@.len() * stages@.len()) && (pages@.len() * stages@.len() > usize::MAX
            ==> counted(count, event).total == usize::MAX),
        !(event is Started) ==> counted(count, event).total == count.total,
        (event is Finished || event is Skipped) && count.completed < count.total ==> counted(
            count,
            event,
        ).completed == count.completed + 1,
        (event is Finished || event is Skipped) && count.completed == count.total ==> counted(
            count,
            event,
        ).completed == count.completed,
        event is Loading || event is Running ==> counted(count, event) == count,
{
}

/// Every event but the running of a stage is shown: the beginning without a page, the others with the
/// page and the stage that they are about.
pub proof fn lemma_what_an_event_shows(event: Progress)
    ensures
        event is Started ==> shown_at(event) == Some((None::<EntityId>, None::<Stage>)),
        event matches Progress::Loading { page, stage, .. } ==> shown_at(event) == Some(
            (Some(page), Some(stage)),
        ),
        event matches Progress::Finished { page, stage, .. } ==> shown_at(event) == Some(
            (Some(page), Some(stage)),
        ),
        event matches Progress::Skipped { page, stage } ==> shown_at(event) == Some(
            (Some(page), Some(stage)),
        ),
        shown_at(event) is None <==> event is Running,
{
}

/// A job runs where the one place for jobs holds it, by its name; one job at a time.
pub proof fn lemma_which_job_runs(registry: JobRegistry, id: JobId, other: JobId)
    ensures
        registry.active is None ==> !registry.runs(id),
        registry.active matches Some(active) ==> (registry.runs(id) <==> active.job.id.0 == id.0),
        registry.runs(id) && registry.runs(other) ==> id == other,
{
}

} // verus!
