//! A run of stages over pages: what is started, what is kept, and how the run ends.
use crate::ids;
use crate::ids::{EntityId, ProjectId, Revision};
use crate::pipeline::request::{InpaintingMask, Stage};
use crate::pipeline::stage_runner::{ErrorKind, PipelineError, StageOutcome};
use vstd::prelude::*;

verus! {

/// How a run ended.
#[derive(Clone, Copy, Debug, PartialEq, Eq, Structural)]
pub enum RunStatus {
    Completed,
    Stopped,
}

/// What a run did. The time that it took is added outside.
#[derive(Clone, Copy, Debug, PartialEq, Eq, Structural)]
pub struct Report {
    pub status: RunStatus,
    pub base: Revision,
    pub final_revision: Revision,
    pub completed: usize,
    pub total: usize,
}

/// Why a run does not begin.
#[derive(Clone, Copy, Debug, PartialEq, Eq, Structural)]
pub enum InputFault {
    /// The mask is for a page that is not in the run, or the run paints nothing.
    MaskOutsideScope,
}

/// Why a commit is not taken.
#[derive(Clone, Copy, Debug, PartialEq, Eq, Structural)]
pub enum CommitFault {
    OtherProject,
    RevisionDidNotAdvance,
}

/// A run in progress.
pub struct Execution {
    pub base: Revision,
    pub project: ProjectId,
    /// The revision that the next stage works on.
    pub revision: Revision,
    /// The stages that are at work.
    pub busy: Vec<Stage>,
    pub completed: usize,
    /// How many pairs of a page and a stage there are.
    pub total: usize,
    pub failure: Option<PipelineError>,
}

/// What is to be done with a stage that has ended on a page.
#[derive(Debug)]
pub enum CompletionStep {
    /// The run is over, or the stage was stopped: nothing.
    Ignore,
    /// Mark the stage as done on the page, and show that it was skipped.
    MarkSkipped,
    /// Put the change on the newest revision and commit it.
    Commit,
}

/// The mask is for a page of the run, and the run paints.
pub open spec fn mask_fits(
    mask: Option<InpaintingMask>,
    pages: Seq<EntityId>,
    stages: Seq<Stage>,
) -> bool {
    mask matches Some(m) ==> pages.contains(m.page) && stages.contains(Stage::Inpainting)
}

fn has_stage(stages: &Vec<Stage>, stage: Stage) -> (r: bool)
    ensures
        r == stages@.contains(stage),
{
    let mut i: usize = 0;
    while i < stages.len()
        invariant
            i <= stages@.len(),
            forall|j: int| 0 <= j < i ==> #[trigger] stages@[j] != stage,
        decreases stages@.len() - i,
    {
        if stages[i] == stage {
            return true;
        }
        i += 1;
    }
    false
}

/// Whether a commit goes on from the revision before it, in the same project.
pub open spec fn commit_fault(
    project: ProjectId,
    revision: Revision,
    next_project: ProjectId,
    next: Revision,
) -> Option<CommitFault> {
    if project != next_project {
        Some(CommitFault::OtherProject)
    } else if next.0 <= revision.0 {
        Some(CommitFault::RevisionDidNotAdvance)
    } else {
        None
    }
}

impl Execution {
    /// A run in progress holds as many pairs as it has pages times stages, and does not count
    /// more than that.
    pub open spec fn wf(self) -> bool {
        self.completed <= self.total && self.base.0 <= self.revision.0
    }

    /// Begins a run of the stages over the pages.
    pub fn new(
        project: ProjectId,
        revision: Revision,
        pages: &Vec<EntityId>,
        stages: &Vec<Stage>,
        mask: &Option<InpaintingMask>,
    ) -> (r: Result<Execution, InputFault>)
        requires
            pages@.len() * stages@.len() <= usize::MAX,
        ensures
            mask_fits(*mask, pages@, stages@) <==> r is Ok,
            r matches Ok(e) ==> {
                &&& e.wf()
                &&& e.base == revision
                &&& e.revision == revision
                &&& e.project == project
                &&& e.busy@.len() == 0
                &&& e.completed == 0
                &&& e.total == pages@.len() * stages@.len()
                &&& e.failure is None
            },
    {
        match mask {
            Some(mask) => {
                if !ids::has_entity(pages, mask.page) || !has_stage(stages, Stage::Inpainting) {
                    return Err(InputFault::MaskOutsideScope);
                }
            },
            None => {},
        }
        Ok(
            Execution {
                base: revision,
                project,
                revision,
                busy: Vec::new(),
                completed: 0,
                total: pages.len() * stages.len(),
                failure: None,
            },
        )
    }

    /// Whether further stages may be started: not after a stop, nor after a failure.
    pub fn may_start(&self, stopped: bool) -> (r: bool)
        ensures
            r == (!stopped && self.failure is None),
    {
        !stopped && self.failure.is_none()
    }

    /// Takes note that a stage is at work.
    pub fn started(&mut self, stage: Stage)
        requires
            old(self).wf(),
            old(self).failure is None,
            !old(self).busy@.contains(stage),
        ensures
            final(self).wf(),
            *final(self) == (Execution { busy: final(self).busy, ..*old(self) }),
            final(self).busy@ == old(self).busy@.push(stage),
    {
        self.busy.push(stage);
    }

    /// The mask for a stage on a page: the one of the request, for painting on its page alone.
    pub fn mask_for<'a>(mask: &'a Option<InpaintingMask>, stage: Stage, page: EntityId) -> (r:
        Option<&'a InpaintingMask>)
        ensures
            r == if stage == Stage::Inpainting && mask is Some && mask->0.page == page {
                Some(&mask->0)
            } else {
                None
            },
    {
        match mask {
            Some(m) => if stage == Stage::Inpainting && m.page == page {
                Some(m)
            } else {
                None
            },
            None => None,
        }
    }

    /// Takes note that a stage has ended on a page. What it did is kept unless the run was stopped
    /// or has failed.
    pub fn on_completion(
        &mut self,
        stage: Stage,
        outcome: Result<StageOutcome, PipelineError>,
        stopped: bool,
    ) -> (r: CompletionStep)
        requires
            old(self).wf(),
        ensures
            final(self).wf(),
            final(self).busy@ == without_stage(old(self).busy@, stage),
            ({
                let over = stopped || old(self).failure is Some;
                *final(self) == Execution {
                    busy: final(self).busy,
                    failure: if !over && outcome is Err {
                        Some(outcome->Err_0)
                    } else {
                        old(self).failure
                    },
                    ..*old(self)
                } && match r {
                    CompletionStep::Commit => !over && outcome
                        == Ok::<StageOutcome, PipelineError>(StageOutcome::Patch),
                    CompletionStep::MarkSkipped => !over && outcome
                        == Ok::<StageOutcome, PipelineError>(StageOutcome::Skipped),
                    CompletionStep::Ignore => over || outcome is Err || outcome
                        == Ok::<StageOutcome, PipelineError>(StageOutcome::Stopped),
                }
            }),
    {
        remove_stage(&mut self.busy, stage);
        if stopped || self.failure.is_some() {
            return CompletionStep::Ignore;
        }
        match outcome {
            Ok(StageOutcome::Stopped) => CompletionStep::Ignore,
            Ok(StageOutcome::Skipped) => CompletionStep::MarkSkipped,
            Ok(StageOutcome::Patch) => CompletionStep::Commit,
            Err(error) => {
                self.failure = Some(error);
                CompletionStep::Ignore
            },
        }
    }

    /// Takes note of a failure, the first of a run.
    pub fn fail(&mut self, error: PipelineError)
        requires
            old(self).wf(),
        ensures
            final(self).wf(),
            *final(self) == (Execution {
                failure: if old(self).failure is Some {
                    old(self).failure
                } else {
                    Some(error)
                },
                ..*old(self)
            }),
    {
        if self.failure.is_none() {
            self.failure = Some(error);
        }
    }

    /// Goes on from what was committed, where it goes on from this revision of this project.
    pub fn on_commit(&mut self, project: ProjectId, next: Revision) -> (r: Result<(), CommitFault>)
        requires
            old(self).wf(),
        ensures
            final(self).wf(),
            match commit_fault(old(self).project, old(self).revision, project, next) {
                Some(fault) => r == Err::<(), _>(fault) && *final(self) == *old(self),
                None => r is Ok && *final(self) == (Execution { revision: next, ..*old(self) }),
            },
    {
        if self.project != project {
            return Err(CommitFault::OtherProject);
        }
        if next.0 <= self.revision.0 {
            return Err(CommitFault::RevisionDidNotAdvance);
        }
        self.revision = next;
        Ok(())
    }

    /// Counts a stage as done on a page.
    pub fn mark_complete(&mut self)
        requires
            old(self).wf(),
            old(self).completed < old(self).total,
        ensures
            final(self).wf(),
            *final(self) == (Execution {
                completed: (old(self).completed + 1) as usize,
                ..*old(self)
            }),
    {
        self.completed = self.completed + 1;
    }

    /// How the run ends: with its failure, or with a report. A run that was not stopped has done
    /// every stage on every page.
    pub fn finalize(self, stopped: bool) -> (r: Result<Report, RunFailure>)
        requires
            self.wf(),
        ensures
            match self.failure {
                Some(error) => r == Err::<Report, _>(RunFailure::Stage(error)),
                None => if !stopped && self.completed != self.total {
                    r == Err::<Report, _>(
                        RunFailure::Incomplete { completed: self.completed, total: self.total },
                    )
                } else {
                    r == Ok::<Report, RunFailure>(
                        Report {
                            status: if stopped {
                                RunStatus::Stopped
                            } else {
                                RunStatus::Completed
                            },
                            base: self.base,
                            final_revision: self.revision,
                            completed: self.completed,
                            total: self.total,
                        },
                    )
                },
            },
    {
        match self.failure {
            Some(error) => {
                return Err(RunFailure::Stage(error));
            },
            None => {},
        }
        if !stopped && self.completed != self.total {
            return Err(
                RunFailure::Incomplete { completed: self.completed, total: self.total },
            );
        }
        let status = if stopped {
            RunStatus::Stopped
        } else {
            RunStatus::Completed
        };
        Ok(
            Report {
                status,
                base: self.base,
                final_revision: self.revision,
                completed: self.completed,
                total: self.total,
            },
        )
    }
}

/// Why a run has no report.
#[derive(Debug)]
pub enum RunFailure {
    Stage(PipelineError),
    /// Nothing was left to start, though not everything was done.
    Incomplete { completed: usize, total: usize },
}

impl RunFailure {
    /// The kind of the failure, and its stage.
    pub fn kind(&self) -> (r: (ErrorKind, Option<Stage>))
        ensures
            r == match *self {
                RunFailure::Stage(error) => (error.kind, error.stage),
                RunFailure::Incomplete { .. } => (ErrorKind::InvalidOutput, None),
            },
    {
        match self {
            RunFailure::Stage(error) => (error.kind, error.stage),
            RunFailure::Incomplete { .. } => (ErrorKind::InvalidOutput, None),
        }
    }
}

/// The stages but the first that is `stage`.
pub open spec fn without_stage(stages: Seq<Stage>, stage: Stage) -> Seq<Stage>
    decreases stages.len(),
{
    if stages.len() == 0 {
        stages
    } else if stages[0] == stage {
        stages.drop_first()
    } else {
        seq![stages[0]] + without_stage(stages.drop_first(), stage)
    }
}

proof fn lemma_without_stage(stages: Seq<Stage>, stage: Stage, i: int)
    requires
        0 <= i <= stages.len(),
        forall|j: int| 0 <= j < i ==> #[trigger] stages[j] != stage,
        i < stages.len() ==> stages[i] == stage,
    ensures
        without_stage(stages, stage) == if i < stages.len() {
            stages.remove(i)
        } else {
            stages
        },
    decreases stages.len(),
{
    if stages.len() == 0 {
    } else if i == 0 {
        assert(stages.drop_first() =~= stages.remove(0));
    } else {
        assert(stages[0] != stage);
        let rest = stages.drop_first();
        assert forall|j: int| 0 <= j < i - 1 implies #[trigger] rest[j] != stage by {
            assert(stages[j + 1] != stage);
        }
        lemma_without_stage(rest, stage, i - 1);
        if i < stages.len() {
            assert(seq![stages[0]] + rest.remove(i - 1) =~= stages.remove(i));
        } else {
            assert(seq![stages[0]] + rest =~= stages);
        }
    }
}

fn remove_stage(stages: &mut Vec<Stage>, stage: Stage)
    ensures
        final(stages)@ == without_stage(old(stages)@, stage),
{
    let ghost all = stages@;
    let mut i: usize = 0;
    while i < stages.len()
        invariant
            stages@ == all,
            all == old(stages)@,
            i <= stages@.len(),
            forall|j: int| 0 <= j < i ==> #[trigger] all[j] != stage,
        decreases all.len() - i,
    {
        if stages[i] == stage {
            proof {
                lemma_without_stage(all, stage, i as int);
            }
            let _ = stages.remove(i);
            return;
        }
        i += 1;
    }
    proof {
        lemma_without_stage(all, stage, i as int);
    }
}

impl InputFault {
    /// What is said of the fault.
    pub open spec fn says(self) -> Seq<char> {
        match self {
            InputFault::MaskOutsideScope => "the inpainting mask page is outside the inpainting scope"@,
        }
    }

    /// What is said of the fault.
    pub fn message(self) -> (r: &'static str)
        ensures
            r@ == self.says(),
    {
        match self {
            InputFault::MaskOutsideScope => "the inpainting mask page is outside the inpainting scope",
        }
    }
}

impl CommitFault {
    /// What is said of the fault.
    pub open spec fn says(self) -> Seq<char> {
        match self {
            CommitFault::OtherProject => "committer returned a snapshot from another project"@,
            CommitFault::RevisionDidNotAdvance => "committer did not advance the scene revision"@,
        }
    }

    /// What is said of the fault.
    pub fn message(self) -> (r: &'static str)
        ensures
            r@ == self.says(),
    {
        match self {
            CommitFault::OtherProject => "committer returned a snapshot from another project",
            CommitFault::RevisionDidNotAdvance => "committer did not advance the scene revision",
        }
    }
}

/// A stage that ends is taken from those at work, and the others stay.
pub proof fn lemma_a_stage_ends_alone(stages: Seq<Stage>, stage: Stage, other: Stage)
    requires
        forall|i: int, j: int|
            0 <= i < j < stages.len() ==> #[trigger] stages[i] != #[trigger] stages[j],
    ensures
        !without_stage(stages, stage).contains(stage),
        other != stage ==> (without_stage(stages, stage).contains(other) <==> stages.contains(other)),
{
    if stages.contains(stage) {
        let i = choose|i: int| 0 <= i < stages.len() && stages[i] == stage;
        assert forall|j: int| 0 <= j < i implies #[trigger] stages[j] != stage by {
            assert(stages[j] != stages[i]);
        }
        lemma_without_stage(stages, stage, i);
        let left = stages.remove(i);
        if left.contains(stage) {
            let k = choose|k: int| 0 <= k < left.len() && left[k] == stage;
            if k < i {
                assert(left[k] == stages[k]);
                assert(stages[k] != stages[i]);
            } else {
                assert(left[k] == stages[k + 1]);
                assert(stages[i] != stages[k + 1]);
            }
        }
        if other != stage && stages.contains(other) {
            let k = choose|k: int| 0 <= k < stages.len() && stages[k] == other;
            if k < i {
                assert(left[k] == other);
            } else {
                assert(left[k - 1] == other);
            }
        }
        if left.contains(other) {
            let k = choose|k: int| 0 <= k < left.len() && left[k] == other;
            assert(stages[if k < i {
                k
            } else {
                k + 1
            }] == other);
        }
    } else {
        assert forall|j: int| 0 <= j < stages.len() implies #[trigger] stages[j] != stage by {
            assert(stages.contains(stages[j]));
        }
        lemma_without_stage(stages, stage, stages.len() as int);
    }
}

/// A commit counts where it is of the same project and of a later revision, and only there. One of
/// another project is refused for that.
pub proof fn lemma_commits_go_on(
    project: ProjectId,
    revision: Revision,
    next_project: ProjectId,
    next: Revision,
)
    ensures
        commit_fault(project, revision, next_project, next) is None <==> project.0
            == next_project.0 && next.0 > revision.0,
        commit_fault(project, revision, next_project, next) == Some(CommitFault::OtherProject)
            <==> project.0 != next_project.0,
        commit_fault(project, revision, next_project, next) == Some(
            CommitFault::RevisionDidNotAdvance,
        ) <==> project.0 == next_project.0 && next.0 <= revision.0,
{
}

/// A mask is taken where one of the run's pages is its page and one of the run's stages paints. A run
/// without a mask takes any pages and stages.
pub proof fn lemma_masks_that_fit(
    mask: Option<InpaintingMask>,
    pages: Seq<EntityId>,
    stages: Seq<Stage>,
    i: int,
    j: int,
)
    ensures
        mask is None ==> mask_fits(mask, pages, stages),
        mask matches Some(m) && 0 <= i < pages.len() && pages[i] == m.page && 0 <= j < stages.len()
            && stages[j] is Inpainting ==> mask_fits(mask, pages, stages),
        mask matches Some(m) ==> (forall|k: int|
            0 <= k < pages.len() ==> #[trigger] pages[k] != m.page) ==> !mask_fits(
            mask,
            pages,
            stages,
        ),
        mask is Some && (forall|k: int| 0 <= k < stages.len() ==> !(#[trigger] stages[k] is Inpainting))
            ==> !mask_fits(mask, pages, stages),
{
}

} // verus!
