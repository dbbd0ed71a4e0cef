//! A workflow as it runs: which step is next, and what is shown of it.
use crate::glossary::edit;
use crate::ids::{EntityId, JobId};
use crate::pipeline::execution::RunStatus;
use crate::pipeline::request::{Scope, Stage};
use crate::processing::{JobState, Progress};
use crate::workflow;
use crate::workflow::{
    PageFault, PresetFault, Scheduling, WorkflowJob, WorkflowPreset, WorkflowStageProgress,
    WorkflowStageState, WorkflowStep,
};
use vstd::prelude::*;

verus! {

/// What is shown of a workflow, with its strings as characters.
pub struct JobNote {
    pub state: JobState,
    pub page: Option<EntityId>,
    pub stage: Option<Stage>,
    pub model: Option<Seq<char>>,
    pub error: Option<Seq<char>>,
    pub stages: Seq<WorkflowStageProgress>,
}

impl WorkflowJob {
    pub open spec fn note(self) -> JobNote {
        JobNote {
            state: self.state,
            page: self.page,
            stage: self.stage,
            model: edit::option_text(self.model),
            error: edit::option_text(self.error),
            stages: self.workflow.stages@,
        }
    }
}

/// The steps with the one at `index` in a state.
pub open spec fn with_state(
    stages: Seq<WorkflowStageProgress>,
    index: int,
    state: WorkflowStageState,
) -> Seq<WorkflowStageProgress> {
    stages.update(index, WorkflowStageProgress { state, ..stages[index] })
}

/// A step begins.
pub open spec fn begun(note: JobNote, index: int) -> JobNote {
    JobNote {
        state: JobState::Running,
        page: None,
        stage: note.stages[index].stage.stage_of(),
        model: None,
        stages: with_state(note.stages, index, WorkflowStageState::Running),
        ..note
    }
}

/// A step is done on all pages.
pub open spec fn completed(note: JobNote, index: int) -> JobNote {
    JobNote {
        state: JobState::Running,
        stages: note.stages.update(
            index,
            WorkflowStageProgress {
                completed: note.stages[index].total,
                state: WorkflowStageState::Complete,
                ..note.stages[index]
            },
        ),
        ..note
    }
}

/// The terms wait for a review.
pub open spec fn awaiting(note: JobNote, index: int) -> JobNote {
    JobNote {
        state: JobState::AwaitingReview,
        stages: with_state(note.stages, index, WorkflowStageState::AwaitingReview),
        ..note
    }
}

/// The place of the step of a stage, or the number of steps.
pub open spec fn step_place(stages: Seq<WorkflowStageProgress>, stage: Stage) -> int
    decreases stages.len(),
{
    if stages.len() == 0 || stages[0].stage.stage_of() == Some(stage) {
        0
    } else {
        1 + step_place(stages.drop_first(), stage)
    }
}

/// A step that was at work on a page, and may have finished it.
pub open spec fn worked(progress: WorkflowStageProgress, finished: bool) -> WorkflowStageProgress {
    let done: u32 = if finished && progress.completed < progress.total {
        (progress.completed + 1) as u32
    } else {
        progress.completed
    };
    WorkflowStageProgress {
        completed: done,
        state: if done == progress.total {
            WorkflowStageState::Complete
        } else {
            WorkflowStageState::Running
        },
        ..progress
    }
}

/// A step was at work on a page.
pub open spec fn seen_at(
    note: JobNote,
    page: EntityId,
    stage: Stage,
    model: Option<Seq<char>>,
    finished: bool,
) -> JobNote {
    let at = step_place(note.stages, stage);
    JobNote {
        page: Some(page),
        stage: Some(stage),
        model,
        stages: if at < note.stages.len() {
            note.stages.update(at, worked(note.stages[at], finished))
        } else {
            note.stages
        },
        ..note
    }
}

/// What is shown after a run told of itself.
pub open spec fn noted(note: JobNote, event: Progress) -> JobNote {
    match event {
        Progress::Started { .. } => note,
        Progress::Loading { page, stage, model } => seen_at(note, page, stage, Some(model@), false),
        Progress::Running { page, stage, model } => seen_at(note, page, stage, Some(model@), false),
        Progress::Finished { page, stage, model } => seen_at(note, page, stage, Some(model@), true),
        Progress::Skipped { page, stage } => seen_at(note, page, stage, None, true),
    }
}

/// A step that was under way when the workflow ended.
pub open spec fn ended(
    progress: WorkflowStageProgress,
    failed: bool,
) -> WorkflowStageProgress {
    if progress.state == WorkflowStageState::Running || progress.state
        == WorkflowStageState::AwaitingReview {
        WorkflowStageProgress {
            state: if failed {
                WorkflowStageState::Failed
            } else {
                WorkflowStageState::Stopped
            },
            ..progress
        }
    } else {
        progress
    }
}

fn find_step(stages: &Vec<WorkflowStageProgress>, stage: Stage) -> (r: usize)
    ensures
        r == step_place(stages@, stage),
        r <= stages@.len(),
{
    let mut i: usize = 0;
    assert(stages@.skip(0) =~= stages@);
    while i < stages.len()
        invariant
            i <= stages@.len(),
            step_place(stages@, stage) == i + step_place(stages@.skip(i as int), stage),
        decreases stages@.len() - i,
    {
        assert(stages@.skip(i as int)[0] == stages@[i as int]);
        match stages[i].stage.stage() {
            Some(found) => {
                if found == stage {
                    return i;
                }
            },
            None => {},
        }
        assert(stages@.skip(i as int).drop_first() =~= stages@.skip(i + 1));
        i += 1;
    }
    i
}

impl WorkflowJob {
    fn put(&mut self, index: usize, progress: WorkflowStageProgress, Ghost(pages): Ghost<u32>)
        requires
            workflow::evenly(old(self).workflow.stages@, pages),
            old(self).workflow.stages@.len() * pages <= usize::MAX,
            old(self).total == old(self).workflow.stages@.len() * pages,
            index < old(self).workflow.stages@.len(),
            progress.total == pages,
            progress.completed <= pages,
            progress.stage == old(self).workflow.stages@[index as int].stage,
        ensures
            final(self).wf(pages),
            final(self).same_job(*old(self)),
            final(self).note() == (JobNote {
                stages: old(self).workflow.stages@.update(index as int, progress),
                ..old(self).note()
            }),
    {
        let ghost before = self.workflow.stages@;
        self.workflow.stages.set(index, progress);
        self.recount(Ghost(pages));
        assert(self.workflow.stages@ =~= before.update(index as int, progress));
    }

    /// A step begins.
    fn begin_step(&mut self, index: usize, Ghost(pages): Ghost<u32>)
        requires
            old(self).wf(pages),
            index < old(self).workflow.stages@.len(),
        ensures
            final(self).wf(pages),
            final(self).same_job(*old(self)),
            final(self).note() == begun(old(self).note(), index as int),
    {
        let mut progress = self.workflow.stages[index];
        self.state = JobState::Running;
        self.stage = progress.stage.stage();
        self.model = None;
        self.page = None;
        progress.state = WorkflowStageState::Running;
        self.put(index, progress, Ghost(pages));
    }

    /// A step is done on all pages.
    fn complete_step(&mut self, index: usize, Ghost(pages): Ghost<u32>)
        requires
            old(self).wf(pages),
            index < old(self).workflow.stages@.len(),
        ensures
            final(self).wf(pages),
            final(self).same_job(*old(self)),
            final(self).note() == completed(old(self).note(), index as int),
    {
        let mut progress = self.workflow.stages[index];
        self.state = JobState::Running;
        progress.completed = progress.total;
        progress.state = WorkflowStageState::Complete;
        self.put(index, progress, Ghost(pages));
    }

    /// The terms wait for a review.
    fn await_review(&mut self, index: usize, Ghost(pages): Ghost<u32>)
        requires
            old(self).wf(pages),
            index < old(self).workflow.stages@.len(),
        ensures
            final(self).wf(pages),
            final(self).same_job(*old(self)),
            final(self).note() == awaiting(old(self).note(), index as int),
    {
        let mut progress = self.workflow.stages[index];
        self.state = JobState::AwaitingReview;
        progress.state = WorkflowStageState::AwaitingReview;
        self.put(index, progress, Ghost(pages));
    }

    fn see(
        &mut self,
        page: EntityId,
        stage: Stage,
        model: Option<String>,
        finished: bool,
        Ghost(pages): Ghost<u32>,
    )
        requires
            old(self).wf(pages),
        ensures
            final(self).wf(pages),
            final(self).same_job(*old(self)),
            final(self).note() == seen_at(
                old(self).note(),
                page,
                stage,
                edit::option_text(model),
                finished,
            ),
    {
        self.page = Some(page);
        self.stage = Some(stage);
        self.model = model;
        let at: usize = find_step(&self.workflow.stages, stage);
        if at < self.workflow.stages.len() {
            let mut progress = self.workflow.stages[at];
            if finished && progress.completed < progress.total {
                progress.completed = progress.completed + 1;
            }
            progress.state = if progress.completed == progress.total {
                WorkflowStageState::Complete
            } else {
                WorkflowStageState::Running
            };
            self.put(at, progress, Ghost(pages));
        }
    }

    /// Shows what a run tells of itself.
    fn record(&mut self, event: Progress, Ghost(pages): Ghost<u32>)
        requires
            old(self).wf(pages),
        ensures
            final(self).wf(pages),
            final(self).same_job(*old(self)),
            final(self).note() == noted(old(self).note(), event),
    {
        match event {
            Progress::Started { .. } => {},
            Progress::Loading { page, stage, model } => {
                self.see(page, stage, Some(model), false, Ghost(pages))
            },
            Progress::Running { page, stage, model } => {
                self.see(page, stage, Some(model), false, Ghost(pages))
            },
            Progress::Finished { page, stage, model } => {
                self.see(page, stage, Some(model), true, Ghost(pages))
            },
            Progress::Skipped { page, stage } => self.see(page, stage, None, true, Ghost(pages)),
        }
    }

    /// Ends the job. Steps that were under way have failed or are stopped.
    fn end(&mut self, state: JobState, error: Option<String>, Ghost(pages): Ghost<u32>)
        requires
            old(self).wf(pages),
        ensures
            final(self).wf(pages),
            final(self).same_job(*old(self)),
            final(self).completed == old(self).completed,
            final(self).model == old(self).model,
            final(self).note() == (JobNote {
                state,
                error: edit::option_text(error),
                stages: final(self).workflow.stages@,
                ..old(self).note()
            }),
            forall|i: int|
                0 <= i < final(self).workflow.stages@.len() ==> #[trigger] final(self).workflow.stages@[i] == ended(
                    old(self).workflow.stages@[i],
                    state == JobState::Failed,
                ),
    {
        self.state = state;
        self.error = error;
        let ghost before = self.workflow.stages@;
        let ghost sum = self.completed;
        let mut i: usize = 0;
        while i < self.workflow.stages.len()
            invariant
                before == old(self).workflow.stages@,
                sum == old(self).completed,
                self.workflow.stages@.len() == before.len(),
                i <= before.len(),
                workflow::evenly(self.workflow.stages@, pages),
                before.len() * pages <= usize::MAX,
                self.total == before.len() * pages,
                self.completed == sum,
                self.id == old(self).id,
                self.workflow.name == old(self).workflow.name,
                self.total == old(self).total,
                self.state == state,
                self.error == error,
                self.page == old(self).page,
                self.stage == old(self).stage,
                self.model == old(self).model,
                forall|k: int|
                    0 <= k < i ==> #[trigger] self.workflow.stages@[k] == ended(
                        before[k],
                        state == JobState::Failed,
                    ),
                forall|k: int|
                    i <= k < before.len() ==> #[trigger] self.workflow.stages@[k] == before[k],
            decreases before.len() - i,
        {
            let mut progress = self.workflow.stages[i];
            if progress.state == WorkflowStageState::Running || progress.state
                == WorkflowStageState::AwaitingReview {
                progress.state = if state == JobState::Failed {
                    WorkflowStageState::Failed
                } else {
                    WorkflowStageState::Stopped
                };
            }
            self.workflow.stages.set(i, progress);
            i += 1;
        }
        proof {
            lemma_same_sum(before, self.workflow.stages@);
        }
    }
}

proof fn lemma_same_sum(a: Seq<WorkflowStageProgress>, b: Seq<WorkflowStageProgress>)
    requires
        a.len() == b.len(),
        forall|i: int| 0 <= i < a.len() ==> (#[trigger] a[i]).completed == b[i].completed,
    ensures
        workflow::sum_completed(a) == workflow::sum_completed(b),
    decreases a.len(),
{
    if a.len() > 0 {
        let x = a.drop_last();
        let y = b.drop_last();
        assert forall|i: int| 0 <= i < x.len() implies (#[trigger] x[i]).completed
            == y[i].completed by {
            assert(a[i].completed == b[i].completed);
        }
        lemma_same_sum(x, y);
        assert(a[a.len() - 1].completed == b[b.len() - 1].completed);
    }
}

// ---------------------------------------------------------------------------------------------
// The run
// ---------------------------------------------------------------------------------------------

/// A workflow as it runs.
pub struct WorkflowRun {
    pub scheduling: Scheduling,
    pub steps: Vec<WorkflowStep>,
    /// The step that is under way.
    pub index: usize,
    /// How many pages each step is over.
    pub pages: u32,
    pub job: WorkflowJob,
}

/// What happened last. Most say whether a stop had been asked for by then.
#[derive(Clone, Copy, Debug, PartialEq, Eq, Structural)]
pub enum WorkflowEvent {
    Begin { stopped: bool },
    /// All stages were run page by page.
    StagesRan { status: RunStatus },
    /// A stage was run on all pages.
    StageRan { status: RunStatus, stopped: bool },
    /// The terms were analyzed; not `found` where the analysis was given up.
    Analyzed { found: bool, stopped: bool },
    /// The terms were kept; `pending` where there are some to review.
    Saved { pending: bool, stopped: bool },
    /// The review has ended; not `resumed` where the workflow was given up.
    Reviewed { resumed: bool, stopped: bool },
}

/// What is done next.
#[derive(Debug)]
pub enum WorkflowAction {
    /// Run the stages page by page.
    RunStages(Vec<Stage>),
    /// Run the stage on all pages.
    RunStage(Stage),
    Analyze,
    /// Keep the terms that were found.
    SaveCandidates,
    AwaitReview,
    /// The workflow is over; `true` where everything was done.
    Finish(bool),
}

/// The stages of the steps.
pub open spec fn stages_of(steps: Seq<WorkflowStep>) -> Seq<Stage>
    decreases steps.len(),
{
    if steps.len() == 0 {
        Seq::empty()
    } else {
        match steps.last().stage_of() {
            Some(stage) => stages_of(steps.drop_last()).push(stage),
            None => stages_of(steps.drop_last()),
        }
    }
}

impl WorkflowRun {
    pub open spec fn wf(self) -> bool {
        &&& self.job.wf(self.pages)
        &&& self.index <= self.steps@.len()
        &&& self.job.workflow.stages@.len() == self.steps@.len()
        &&& forall|i: int|
            0 <= i < self.steps@.len() ==> (#[trigger] self.job.workflow.stages@[i]).stage
                == self.steps@[i]
    }

    /// The run but for where it is and what is shown.
    pub open spec fn same_run(self, other: Self) -> bool {
        &&& self.scheduling == other.scheduling
        &&& self.steps == other.steps
        &&& self.pages == other.pages
        &&& self.job.same_job(other.job)
    }
}

/// What is done, at which step, and what is shown.
pub struct Course {
    pub index: int,
    pub note: JobNote,
    pub next: Turn,
}

/// What is done next, with the stages as a sequence.
pub enum Turn {
    RunStages(Seq<Stage>),
    RunStage(Stage),
    Analyze,
    SaveCandidates,
    AwaitReview,
    Finish(bool),
}

impl WorkflowAction {
    pub open spec fn turn(self) -> Turn {
        match self {
            WorkflowAction::RunStages(stages) => Turn::RunStages(stages@),
            WorkflowAction::RunStage(stage) => Turn::RunStage(stage),
            WorkflowAction::Analyze => Turn::Analyze,
            WorkflowAction::SaveCandidates => Turn::SaveCandidates,
            WorkflowAction::AwaitReview => Turn::AwaitReview,
            WorkflowAction::Finish(done) => Turn::Finish(done),
        }
    }
}

/// The step at `index` is begun, unless a stop was asked for or there is none.
pub open spec fn enter(
    steps: Seq<WorkflowStep>,
    note: JobNote,
    index: int,
    stopped: bool,
) -> Course {
    if index >= steps.len() {
        Course { index, note, next: Turn::Finish(!stopped) }
    } else if stopped {
        Course { index, note, next: Turn::Finish(false) }
    } else {
        Course {
            index,
            note: begun(note, index),
            next: match steps[index].stage_of() {
                Some(stage) => Turn::RunStage(stage),
                None => Turn::Analyze,
            },
        }
    }
}

/// The workflow is given up where it is.
pub open spec fn give_up(note: JobNote, index: int) -> Course {
    Course { index, note, next: Turn::Finish(false) }
}

/// What follows an event.
pub open spec fn course(
    scheduling: Scheduling,
    steps: Seq<WorkflowStep>,
    note: JobNote,
    index: int,
    event: WorkflowEvent,
) -> Course {
    match event {
        WorkflowEvent::Begin { stopped } => if scheduling == Scheduling::PageMajor {
            Course { index, note, next: Turn::RunStages(stages_of(steps)) }
        } else {
            enter(steps, note, index, stopped)
        },
        WorkflowEvent::StagesRan { status } => Course {
            index,
            note,
            next: Turn::Finish(status == RunStatus::Completed),
        },
        WorkflowEvent::StageRan { status, stopped } => if status == RunStatus::Stopped || index
            >= steps.len() {
            give_up(note, index)
        } else {
            enter(steps, completed(note, index), index + 1, stopped)
        },
        WorkflowEvent::Analyzed { found, stopped } => if !found || stopped {
            give_up(note, index)
        } else {
            Course { index, note, next: Turn::SaveCandidates }
        },
        WorkflowEvent::Saved { pending, stopped } => if index >= steps.len() {
            give_up(note, index)
        } else if pending {
            if stopped {
                give_up(note, index)
            } else {
                Course { index, note: awaiting(note, index), next: Turn::AwaitReview }
            }
        } else {
            enter(steps, completed(note, index), index + 1, stopped)
        },
        WorkflowEvent::Reviewed { resumed, stopped } => if !resumed || stopped || index
            >= steps.len() {
            give_up(note, index)
        } else {
            enter(steps, completed(note, index), index + 1, stopped)
        },
    }
}

fn collect_stages(steps: &Vec<WorkflowStep>) -> (r: Vec<Stage>)
    ensures
        r@ == stages_of(steps@),
{
    let mut out: Vec<Stage> = Vec::new();
    let mut i: usize = 0;
    assert(steps@.take(0) =~= Seq::empty());
    while i < steps.len()
        invariant
            i <= steps@.len(),
            out@ == stages_of(steps@.take(i as int)),
        decreases steps@.len() - i,
    {
        proof {
            assert(steps@.take(i + 1).drop_last() =~= steps@.take(i as int));
            assert(steps@.take(i + 1).last() == steps@[i as int]);
        }
        match steps[i].stage() {
            Some(stage) => out.push(stage),
            None => {},
        }
        i += 1;
    }
    assert(steps@.take(i as int) =~= steps@);
    out
}

impl WorkflowRun {
    fn enter_step(&mut self, stopped: bool) -> (r: WorkflowAction)
        requires
            old(self).wf(),
        ensures
            final(self).wf(),
            final(self).same_run(*old(self)),
            enter(old(self).steps@, old(self).job.note(), old(self).index as int, stopped)
                == (Course {
                index: final(self).index as int,
                note: final(self).job.note(),
                next: r.turn(),
            }),
    {
        if self.index >= self.steps.len() {
            return WorkflowAction::Finish(!stopped);
        }
        if stopped {
            return WorkflowAction::Finish(false);
        }
        let index: usize = self.index;
        let ghost pages = self.pages;
        self.job.begin_step(index, Ghost(pages));
        match self.steps[index].stage() {
            Some(stage) => WorkflowAction::RunStage(stage),
            None => WorkflowAction::Analyze,
        }
    }

    fn step_done(&mut self, stopped: bool) -> (r: WorkflowAction)
        requires
            old(self).wf(),
            old(self).index < old(self).steps.len(),
        ensures
            final(self).wf(),
            final(self).same_run(*old(self)),
            enter(
                old(self).steps@,
                completed(old(self).job.note(), old(self).index as int),
                old(self).index + 1,
                stopped,
            ) == (Course {
                index: final(self).index as int,
                note: final(self).job.note(),
                next: r.turn(),
            }),
    {
        let index: usize = self.index;
        let ghost pages = self.pages;
        self.job.complete_step(index, Ghost(pages));
        self.index = index + 1;
        self.enter_step(stopped)
    }

    /// What is done after an event.
    pub fn next(&mut self, event: WorkflowEvent) -> (r: WorkflowAction)
        requires
            old(self).wf(),
        ensures
            final(self).wf(),
            final(self).same_run(*old(self)),
            course(
                old(self).scheduling,
                old(self).steps@,
                old(self).job.note(),
                old(self).index as int,
                event,
            ) == (Course {
                index: final(self).index as int,
                note: final(self).job.note(),
                next: r.turn(),
            }),
    {
        match event {
            WorkflowEvent::Begin { stopped } => {
                if self.scheduling == Scheduling::PageMajor {
                    WorkflowAction::RunStages(collect_stages(&self.steps))
                } else {
                    self.enter_step(stopped)
                }
            },
            WorkflowEvent::StagesRan { status } => {
                WorkflowAction::Finish(status == RunStatus::Completed)
            },
            WorkflowEvent::StageRan { status, stopped } => {
                if status == RunStatus::Stopped || self.index >= self.steps.len() {
                    WorkflowAction::Finish(false)
                } else {
                    self.step_done(stopped)
                }
            },
            WorkflowEvent::Analyzed { found, stopped } => {
                if !found || stopped {
                    WorkflowAction::Finish(false)
                } else {
                    WorkflowAction::SaveCandidates
                }
            },
            WorkflowEvent::Saved { pending, stopped } => {
                if self.index >= self.steps.len() {
                    WorkflowAction::Finish(false)
                } else if pending {
                    if stopped {
                        WorkflowAction::Finish(false)
                    } else {
                        let index: usize = self.index;
                        let ghost pages = self.pages;
                        self.job.await_review(index, Ghost(pages));
                        WorkflowAction::AwaitReview
                    }
                } else {
                    self.step_done(stopped)
                }
            },
            WorkflowEvent::Reviewed { resumed, stopped } => {
                if !resumed || stopped || self.index >= self.steps.len() {
                    WorkflowAction::Finish(false)
                } else {
                    self.step_done(stopped)
                }
            },
        }
    }

    /// Shows what a run of a stage tells of itself.
    pub fn record_progress(&mut self, event: Progress)
        requires
            old(self).wf(),
        ensures
            final(self).wf(),
            final(self).same_run(*old(self)),
            final(self).index == old(self).index,
            final(self).job.note() == noted(old(self).job.note(), event),
    {
        let ghost pages = self.pages;
        self.job.record(event, Ghost(pages));
    }

    /// Shows how many pages the analysis of the terms has read.
    pub fn record_analysis(&mut self, done: u32)
        requires
            old(self).wf(),
            old(self).index < old(self).steps@.len(),
            done <= old(self).pages,
        ensures
            final(self).wf(),
            final(self).same_run(*old(self)),
            final(self).index == old(self).index,
            final(self).job.note() == (JobNote {
                stages: old(self).job.workflow.stages@.update(
                    old(self).index as int,
                    WorkflowStageProgress {
                        completed: done,
                        ..old(self).job.workflow.stages@[old(self).index as int]
                    },
                ),
                ..old(self).job.note()
            }),
    {
        let index: usize = self.index;
        let ghost pages = self.pages;
        let mut progress = self.job.workflow.stages[index];
        progress.completed = done;
        self.job.put(index, progress, Ghost(pages));
    }

    /// Ends the workflow: finished, stopped or failed. An error after a stop was asked for counts as
    /// a stop.
    pub fn finish(&mut self, result: Result<bool, String>, stopped: bool)
        requires
            old(self).wf(),
        ensures
            final(self).wf(),
            final(self).same_run(*old(self)),
            final(self).index == old(self).index,
            final(self).job.state == final_state(result, stopped),
            edit::option_text(final(self).job.error) == match result {
                Ok(_) => None,
                Err(error) => Some(error@),
            },
            final(self).job.completed == old(self).job.completed,
            final(self).job.page == old(self).job.page,
            final(self).job.stage == old(self).job.stage,
            final(self).job.model == old(self).job.model,
            forall|i: int|
                0 <= i < final(self).job.workflow.stages@.len() ==> #[trigger] final(self).job.workflow.stages@[i] == ended(
                    old(self).job.workflow.stages@[i],
                    final_state(result, stopped) == JobState::Failed,
                ),
    {
        let ghost pages = self.pages;
        match result {
            Ok(true) => self.job.end(JobState::Finished, None, Ghost(pages)),
            Ok(false) => self.job.end(JobState::Stopped, None, Ghost(pages)),
            Err(error) => {
                let state = if stopped {
                    JobState::Stopped
                } else {
                    JobState::Failed
                };
                self.job.end(state, Some(error), Ghost(pages))
            },
        }
    }
}

/// The state that a workflow ends in.
pub open spec fn final_state(result: Result<bool, String>, stopped: bool) -> JobState {
    match result {
        Ok(true) => JobState::Finished,
        Ok(false) => JobState::Stopped,
        Err(_) => if stopped {
            JobState::Stopped
        } else {
            JobState::Failed
        },
    }
}

// ---------------------------------------------------------------------------------------------
// Beginning
// ---------------------------------------------------------------------------------------------

/// Why a workflow does not begin.
#[derive(Clone, Copy, Debug, PartialEq, Eq, Structural)]
pub enum StartFault {
    Preset(PresetFault),
    Pages(PageFault),
    TooManyPages,
    /// Another job runs.
    Busy,
}

/// Why a workflow does not begin: its preset, its pages, their number, or another job, in that
/// order.
pub open spec fn start_fault(
    preset: WorkflowPreset,
    project: Seq<EntityId>,
    scope: Scope,
    busy: bool,
) -> Option<StartFault> {
    if preset.fault() is Some {
        Some(StartFault::Preset(preset.fault()->0))
    } else if workflow::page_fault(project, scope) is Some {
        Some(StartFault::Pages(workflow::page_fault(project, scope)->0))
    } else if workflow::pages_in_scope(project, scope).len() > u32::MAX {
        Some(StartFault::TooManyPages)
    } else if busy {
        Some(StartFault::Busy)
    } else {
        None
    }
}

proof fn lemma_sizes(
    project: Seq<EntityId>,
    wanted: Seq<EntityId>,
    stages: Seq<WorkflowStep>,
    review: bool,
)
    ensures
        workflow::pages_among(project, wanted).len() <= project.len(),
        workflow::enabled_steps(stages, review).len() <= stages.len(),
    decreases project.len() + stages.len(),
{
    if project.len() > 0 {
        lemma_sizes(project.drop_last(), wanted, stages, review);
    }
    if stages.len() > 0 {
        lemma_sizes(project, wanted, stages.drop_last(), review);
    }
}

/// Begins a workflow over the pages of a project.
pub fn start_workflow(
    preset: &WorkflowPreset,
    project: &Vec<EntityId>,
    scope: &Scope,
    busy: bool,
    id: JobId,
) -> (r: Result<(WorkflowRun, Vec<EntityId>), StartFault>)
    requires
        preset.stages@.len() * project@.len() <= usize::MAX,
    ensures
        match start_fault(*preset, project@, *scope, busy) {
            Some(fault) => r == Err::<(WorkflowRun, Vec<EntityId>), _>(fault),
            None => r matches Ok((run, pages)) && {
                &&& run.wf()
                &&& pages@ == workflow::pages_in_scope(project@, *scope)
                &&& run.pages == pages@.len()
                &&& run.index == 0
                &&& run.scheduling == preset.scheduling
                &&& run.steps@ == workflow::enabled_steps(preset.stages@, preset.review_glossary)
                &&& run.job.id == id
                &&& run.job.workflow.name == preset.name
                &&& run.job.state == JobState::Running
                &&& run.job.completed == 0
                &&& run.job.page is None
                &&& run.job.stage is None
                &&& run.job.model is None
                &&& run.job.error is None
                &&& forall|i: int|
                    0 <= i < run.job.workflow.stages@.len() ==> (
                    #[trigger] run.job.workflow.stages@[i]).state == WorkflowStageState::Pending
            },
        },
{
    let steps = match preset.steps() {
        Ok(steps) => steps,
        Err(fault) => {
            return Err(StartFault::Preset(fault));
        },
    };
    let pages = match workflow::scoped_pages(project, scope) {
        Ok(pages) => pages,
        Err(fault) => {
            return Err(StartFault::Pages(fault));
        },
    };
    if pages.len() as u64 > u32::MAX as u64 {
        return Err(StartFault::TooManyPages);
    }
    if busy {
        return Err(StartFault::Busy);
    }
    let total: u32 = pages.len() as u32;
    proof {
        match scope {
            Scope::Pages(wanted) => lemma_sizes(
                project@,
                wanted@,
                preset.stages@,
                preset.review_glossary,
            ),
            Scope::Project => lemma_sizes(
                project@,
                project@,
                preset.stages@,
                preset.review_glossary,
            ),
        }
        let a = steps@.len() as int;
        let b = total as int;
        let c = preset.stages@.len() as int;
        let d = project@.len() as int;
        assert(a * b <= c * d) by (nonlinear_arith)
            requires
                0 <= a <= c,
                0 <= b <= d,
        ;
    }
    let job = WorkflowJob::new(id, preset.name.clone(), &steps, total);
    let run = WorkflowRun { scheduling: preset.scheduling, steps, index: 0, pages: total, job };
    Ok((run, pages))
}

// ---------------------------------------------------------------------------------------------
// Laws
// ---------------------------------------------------------------------------------------------

/// A review is never taken as done: where there are terms to review, the workflow goes on to a later
/// step only when it is told that the review has ended, and no stop was asked for.
pub proof fn lemma_review_is_never_skipped(
    scheduling: Scheduling,
    steps: Seq<WorkflowStep>,
    note: JobNote,
    index: int,
    event: WorkflowEvent,
)
    requires
        0 <= index < steps.len(),
        course(scheduling, steps, note, index, event).index > index,
    ensures
        match event {
            WorkflowEvent::StageRan { status, .. } => status == RunStatus::Completed,
            WorkflowEvent::Saved { pending, .. } => !pending,
            WorkflowEvent::Reviewed { resumed, stopped } => resumed && !stopped,
            _ => false,
        },
{
}

/// Steps are done one after the other: an event completes at most the step that is under way.
pub proof fn lemma_one_step_at_a_time(
    scheduling: Scheduling,
    steps: Seq<WorkflowStep>,
    note: JobNote,
    index: int,
    event: WorkflowEvent,
)
    requires
        0 <= index <= steps.len(),
        note.stages.len() == steps.len(),
    ensures
        index <= course(scheduling, steps, note, index, event).index <= index + 1,
        course(scheduling, steps, note, index, event).index <= steps.len(),
        forall|i: int|
            0 <= i < steps.len() && i != index && i != index + 1 ==> #[trigger] course(
                scheduling,
                steps,
                note,
                index,
                event,
            ).note.stages[i] == note.stages[i],
{
}

/// A workflow that goes stage by stage ends well only after its last step.
pub proof fn lemma_finishes_after_last_step(
    steps: Seq<WorkflowStep>,
    note: JobNote,
    index: int,
    event: WorkflowEvent,
)
    requires
        0 <= index <= steps.len(),
        !(event is StagesRan),
        course(Scheduling::StageMajor, steps, note, index, event).next == Turn::Finish(true),
    ensures
        course(Scheduling::StageMajor, steps, note, index, event).index == steps.len(),
{
}

/// A step that has run on all pages is complete, and the next begins: the step under way has all its
/// pages done and is complete, the one behind it runs, and what is done next is that one's stage, or
/// the analysis where it is the analysis of the terms; behind the last step the workflow ends well.
pub proof fn lemma_the_next_step_begins(
    steps: Seq<WorkflowStep>,
    note: JobNote,
    index: int,
    event: WorkflowEvent,
)
    requires
        0 <= index < steps.len(),
        note.stages.len() == steps.len(),
        forall|i: int| 0 <= i < steps.len() ==> (#[trigger] note.stages[i]).stage == steps[i],
        event == (WorkflowEvent::StageRan { status: RunStatus::Completed, stopped: false }) || event
            == (WorkflowEvent::Saved { pending: false, stopped: false }) || event == (
        WorkflowEvent::Reviewed { resumed: true, stopped: false }),
    ensures
        ({
            let c = course(Scheduling::StageMajor, steps, note, index, event);
            &&& c.index == index + 1
            &&& c.note.stages.len() == steps.len()
            &&& c.note.stages[index].state == WorkflowStageState::Complete
            &&& c.note.stages[index].completed == note.stages[index].total
            &&& c.note.stages[index].total == note.stages[index].total
            &&& c.note.stages[index].stage == note.stages[index].stage
            &&& c.note.state == JobState::Running
            &&& c.note.error == note.error
            &&& index + 1 == steps.len() ==> c.next == Turn::Finish(true)
            &&& index + 1 < steps.len() ==> {
                &&& c.note.stages[index + 1].state == WorkflowStageState::Running
                &&& c.note.stages[index + 1].completed == note.stages[index + 1].completed
                &&& c.note.page is None
                &&& c.note.model is None
                &&& match steps[index + 1] {
                    WorkflowStep::Detection => c.next == Turn::RunStage(Stage::Detection),
                    WorkflowStep::Ocr => c.next == Turn::RunStage(Stage::Ocr),
                    WorkflowStep::Terminology => c.next == Turn::Analyze,
                    WorkflowStep::Translation => c.next == Turn::RunStage(Stage::Translation),
                    WorkflowStep::Inpainting => c.next == Turn::RunStage(Stage::Inpainting),
                }
            }
        }),
{
    assert(note.stages[index].stage == steps[index]);
}

/// A stop is heeded: a stage that was stopped, an analysis that was given up, a review that was not
/// resumed, or a stop that was asked for by the end of any of them ends a workflow that goes stage
/// by stage, and no step is begun.
pub proof fn lemma_a_stop_ends_the_workflow(
    steps: Seq<WorkflowStep>,
    note: JobNote,
    index: int,
    event: WorkflowEvent,
)
    requires
        0 <= index < steps.len(),
        match event {
            WorkflowEvent::Begin { stopped } => stopped,
            WorkflowEvent::StagesRan { status } => status != RunStatus::Completed,
            WorkflowEvent::StageRan { status, stopped } => status == RunStatus::Stopped || stopped,
            WorkflowEvent::Analyzed { found, stopped } => !found || stopped,
            WorkflowEvent::Saved { stopped, .. } => stopped,
            WorkflowEvent::Reviewed { resumed, stopped } => !resumed || stopped,
        },
    ensures
        course(Scheduling::StageMajor, steps, note, index, event).next == Turn::Finish(false),
        forall|i: int|
            index < i < steps.len() && i < note.stages.len() ==> #[trigger] course(
                Scheduling::StageMajor,
                steps,
                note,
                index,
                event,
            ).note.stages[i] == note.stages[i],
{
}

/// Terms are kept before they are reviewed, and wait for the review where there are some: an analysis
/// that found terms has them kept; where some are to be reviewed, the workflow waits, and shows that
/// it does.
pub proof fn lemma_terms_wait_for_a_review(steps: Seq<WorkflowStep>, note: JobNote, index: int)
    requires
        0 <= index < steps.len(),
        note.stages.len() == steps.len(),
    ensures
        course(
            Scheduling::StageMajor,
            steps,
            note,
            index,
            WorkflowEvent::Analyzed { found: true, stopped: false },
        ) == (Course { index, note, next: Turn::SaveCandidates }),
        ({
            let c = course(
                Scheduling::StageMajor,
                steps,
                note,
                index,
                WorkflowEvent::Saved { pending: true, stopped: false },
            );
            &&& c.next == Turn::AwaitReview
            &&& c.index == index
            &&& c.note.state == JobState::AwaitingReview
            &&& c.note.stages[index].state == WorkflowStageState::AwaitingReview
            &&& c.note.stages[index].completed == note.stages[index].completed
        }),
        steps[index] != WorkflowStep::Terminology ==> course(
            Scheduling::StageMajor,
            steps,
            note,
            index,
            WorkflowEvent::Begin { stopped: false },
        ).next == Turn::RunStage(steps[index].stage_of()->0),
        steps[index] == WorkflowStep::Terminology ==> course(
            Scheduling::StageMajor,
            steps,
            note,
            index,
            WorkflowEvent::Begin { stopped: false },
        ).next == Turn::Analyze,
{
}

/// Page by page the stages of all steps are run at once, in their order, the analysis of the terms
/// being no stage; and the workflow ends as the run ends.
pub proof fn lemma_page_by_page(
    steps: Seq<WorkflowStep>,
    step: WorkflowStep,
    note: JobNote,
    index: int,
    stopped: bool,
    status: RunStatus,
)
    ensures
        course(
            Scheduling::PageMajor,
            steps,
            note,
            index,
            WorkflowEvent::Begin { stopped },
        ).next == Turn::RunStages(stages_of(steps)),
        course(
            Scheduling::PageMajor,
            steps,
            note,
            index,
            WorkflowEvent::StagesRan { status },
        ).next == Turn::Finish(status == RunStatus::Completed),
        stages_of(Seq::empty()).len() == 0,
        match step {
            WorkflowStep::Detection => stages_of(steps.push(step)) == stages_of(steps).push(
                Stage::Detection,
            ),
            WorkflowStep::Ocr => stages_of(steps.push(step)) == stages_of(steps).push(Stage::Ocr),
            WorkflowStep::Terminology => stages_of(steps.push(step)) == stages_of(steps),
            WorkflowStep::Translation => stages_of(steps.push(step)) == stages_of(steps).push(
                Stage::Translation,
            ),
            WorkflowStep::Inpainting => stages_of(steps.push(step)) == stages_of(steps).push(
                Stage::Inpainting,
            ),
        },
{
    assert(steps.push(step).drop_last() =~= steps);
}

/// What a run tells of a page is shown at the step of its stage: a page that is finished or skipped
/// is one more that is done, up to all of them, when the step is complete; a page at which the step
/// is at work changes no count. The page, the stage and the model are shown, and no other step
/// changes.
pub proof fn lemma_progress_is_shown(
    note: JobNote,
    page: EntityId,
    stage: Stage,
    model: String,
    at: int,
)
    requires
        0 <= at < note.stages.len(),
        note.stages[at].stage.stage_of() == Some(stage),
        forall|i: int|
            0 <= i < at ==> (#[trigger] note.stages[i]).stage.stage_of() != Some(stage),
        note.stages[at].completed <= note.stages[at].total,
    ensures
        ({
            let was = note.stages[at];
            let done = noted(note, Progress::Finished { page, stage, model });
            let skipped = noted(note, Progress::Skipped { page, stage });
            let at_work = noted(note, Progress::Running { page, stage, model });
            let loading = noted(note, Progress::Loading { page, stage, model });
            let more: int = if was.completed < was.total {
                was.completed + 1
            } else {
                was.total as int
            };
            &&& done.stages.len() == note.stages.len()
            &&& done.stages[at].completed == more
            &&& skipped.stages[at].completed == more
            &&& done.stages[at].state == WorkflowStageState::Complete <==> more == was.total
            &&& at_work.stages[at].completed == was.completed
            &&& loading.stages == at_work.stages
            &&& skipped.stages == done.stages
            &&& done.stages[at].stage == was.stage && done.stages[at].total == was.total
            &&& forall|i: int|
                0 <= i < note.stages.len() && i != at ==> #[trigger] done.stages[i]
                    == note.stages[i]
            &&& forall|i: int|
                0 <= i < note.stages.len() && i != at ==> #[trigger] at_work.stages[i]
                    == note.stages[i]
            &&& done.page == Some(page) && skipped.page == Some(page) && at_work.page == Some(page)
            &&& done.stage == Some(stage) && skipped.stage == Some(stage) && at_work.stage == Some(
                stage,
            )
            &&& done.model == Some(model@) && at_work.model == Some(model@) && skipped.model is None
            &&& done.state == note.state && done.error == note.error
        }),
{
    lemma_step_place(note.stages, stage, at);
}

proof fn lemma_step_place(stages: Seq<WorkflowStageProgress>, stage: Stage, at: int)
    requires
        0 <= at < stages.len(),
        stages[at].stage.stage_of() == Some(stage),
        forall|i: int| 0 <= i < at ==> (#[trigger] stages[i]).stage.stage_of() != Some(stage),
    ensures
        step_place(stages, stage) == at,
    decreases stages.len(),
{
    if at > 0 {
        let rest = stages.drop_first();
        assert(stages[0].stage.stage_of() != Some(stage));
        assert(rest[at - 1] == stages[at]);
        assert forall|i: int| 0 <= i < at - 1 implies (#[trigger] rest[i]).stage.stage_of() != Some(
            stage,
        ) by {
            assert(rest[i] == stages[i + 1]);
        }
        lemma_step_place(rest, stage, at - 1);
    }
}

/// How a workflow ends: finished where all was done, stopped where it was given up or failed after a
/// stop was asked for, and failed else. A step that was under way or waited has failed where the
/// workflow has, and is stopped where it is not; every other step stays as it is.
pub proof fn lemma_how_a_workflow_ends(progress: WorkflowStageProgress, error: String)
    ensures
        final_state(Ok(true), true) == JobState::Finished,
        final_state(Ok(true), false) == JobState::Finished,
        final_state(Ok(false), true) == JobState::Stopped,
        final_state(Ok(false), false) == JobState::Stopped,
        final_state(Err(error), true) == JobState::Stopped,
        final_state(Err(error), false) == JobState::Failed,
        progress.state == WorkflowStageState::Running || progress.state
            == WorkflowStageState::AwaitingReview ==> ended(progress, true).state
            == WorkflowStageState::Failed && ended(progress, false).state
            == WorkflowStageState::Stopped,
        progress.state == WorkflowStageState::Pending || progress.state
            == WorkflowStageState::Complete ==> ended(progress, true) == progress && ended(
            progress,
            false,
        ) == progress,
        ended(progress, true).completed == progress.completed,
        ended(progress, false).completed == progress.completed,
        ended(progress, true).stage == progress.stage,
        ended(progress, false).stage == progress.stage,
{
}

/// A workflow begins where its preset and its pages are without fault, the pages can be counted and
/// no other job runs, and only there. Another job is told of last.
pub proof fn lemma_workflows_that_begin(
    preset: WorkflowPreset,
    project: Seq<EntityId>,
    scope: Scope,
    busy: bool,
)
    ensures
        start_fault(preset, project, scope, busy) is None <==> preset.fault() is None
            && workflow::page_fault(project, scope) is None && workflow::pages_in_scope(
            project,
            scope,
        ).len() <= u32::MAX && !busy,
        start_fault(preset, project, scope, busy) == Some(StartFault::Busy) ==> busy && start_fault(
            preset,
            project,
            scope,
            false,
        ) is None,
        start_fault(preset, project, scope, busy) matches Some(StartFault::Preset(fault))
            ==> preset.fault() == Some(fault),
        start_fault(preset, project, scope, busy) matches Some(StartFault::Pages(fault))
            ==> preset.fault() is None && workflow::page_fault(project, scope) == Some(fault),
{
}

/// A run that goes on is over the same pages, in the same order of steps, and about the same job.
pub proof fn lemma_a_run_stays_the_same(a: WorkflowRun, b: WorkflowRun)
    ensures
        a.same_run(a),
        a.same_run(b) ==> a.scheduling == b.scheduling && a.steps@ == b.steps@ && a.pages@
            == b.pages@ && a.job.id == b.job.id && a.job.total == b.job.total,
{
}

} // verus!
