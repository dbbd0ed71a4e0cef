//! Running one stage on one page, with a second try after memory ran out.
use crate::pipeline::request::Stage;
use crate::text;
use vstd::prelude::*;

verus! {

/// Why a model was not loaded.
#[derive(Clone, Copy, Debug, PartialEq, Eq, Structural)]
pub enum LlamaModelLoadError {
    /// The library gave back nothing.
    NullResult,
    /// The path is not text.
    PathToStrError,
}

/// Why a context was not made.
#[derive(Clone, Copy, Debug, PartialEq, Eq, Structural)]
pub enum LlamaContextLoadError {
    /// The library gave back nothing.
    NullReturn,
}

/// Why the library failed.
#[derive(Clone, Copy, Debug, PartialEq, Eq, Structural)]
pub enum LlamaCppError {
    ModelLoad(LlamaModelLoadError),
    ContextLoad(LlamaContextLoadError),
}

/// Why a chat template was not filled in.
#[derive(Clone, Copy, Debug, PartialEq, Eq, Structural)]
pub enum ApplyChatTemplateError {
    NullResult,
}

/// What kind of error a cause is.
#[derive(Clone, Copy, Debug, PartialEq, Eq, Structural)]
pub enum CauseKind {
    ModelLoad(LlamaModelLoadError),
    ContextLoad(LlamaContextLoadError),
    LlamaCpp(LlamaCppError),
    ChatTemplate(ApplyChatTemplateError),
    Other,
}

/// One error of a chain, with its text.
#[derive(Debug)]
pub struct Cause {
    pub kind: CauseKind,
    pub message: String,
}

/// An error and what it comes of, the outermost first.
#[derive(Debug)]
pub struct ErrorChain {
    pub causes: Vec<Cause>,
}

/// The library gave back nothing for a model or a context. That is how it reports that the memory
/// of the device is used up.
pub open spec fn is_allocation_kind(kind: CauseKind) -> bool {
    match kind {
        CauseKind::ModelLoad(e) => e == LlamaModelLoadError::NullResult,
        CauseKind::ContextLoad(e) => e == LlamaContextLoadError::NullReturn,
        CauseKind::LlamaCpp(e) => e == LlamaCppError::ModelLoad(LlamaModelLoadError::NullResult)
            || e == LlamaCppError::ContextLoad(LlamaContextLoadError::NullReturn),
        CauseKind::ChatTemplate(_) => false,
        CauseKind::Other => false,
    }
}

/// The text says that memory ran out, in letters of either case.
pub open spec fn names_memory(message: Seq<char>) -> bool {
    let lower = text::ascii_lower(message);
    ||| text::contains_text(lower, "out of memory"@)
    ||| text::contains_text(lower, "cuda_error_out_of_memory"@)
    ||| text::contains_text(lower, "not enough memory"@)
    ||| text::contains_text(lower, "failed to allocate"@)
    ||| text::contains_text(lower, "unable to allocate"@)
}

/// An error of the chain is that memory ran out.
pub open spec fn ran_out(causes: Seq<Cause>) -> bool {
    exists|i: int|
        0 <= i < causes.len() && (is_allocation_kind((#[trigger] causes[i]).kind) || names_memory(
            causes[i].message@,
        ))
}

fn is_allocation_failure(kind: CauseKind) -> (r: bool)
    ensures
        r == is_allocation_kind(kind),
{
    match kind {
        CauseKind::ModelLoad(e) => e == LlamaModelLoadError::NullResult,
        CauseKind::ContextLoad(e) => e == LlamaContextLoadError::NullReturn,
        CauseKind::LlamaCpp(e) => e == LlamaCppError::ModelLoad(LlamaModelLoadError::NullResult)
            || e == LlamaCppError::ContextLoad(LlamaContextLoadError::NullReturn),
        CauseKind::ChatTemplate(_) => false,
        CauseKind::Other => false,
    }
}

fn message_names_memory(message: &str) -> (r: bool)
    ensures
        r == names_memory(message@),
{
    let lower = text::ascii_lowered(message);
    let lower = lower.as_str();
    text::contains(lower, "out of memory") || text::contains(lower, "cuda_error_out_of_memory")
        || text::contains(lower, "not enough memory") || text::contains(lower, "failed to allocate")
        || text::contains(lower, "unable to allocate")
}

/// Whether an error is that memory ran out.
pub fn is_out_of_memory(error: &ErrorChain) -> (r: bool)
    ensures
        r == ran_out(error.causes@),
{
    let mut i: usize = 0;
    while i < error.causes.len()
        invariant
            i <= error.causes@.len(),
            forall|j: int|
                0 <= j < i ==> !is_allocation_kind((#[trigger] error.causes@[j]).kind)
                    && !names_memory(error.causes@[j].message@),
        decreases error.causes@.len() - i,
    {
        let cause = &error.causes[i];
        if is_allocation_failure(cause.kind) || message_names_memory(cause.message.as_str()) {
            return true;
        }
        i += 1;
    }
    false
}

/// What kind of failure a run ended with.
#[derive(Clone, Copy, Debug, PartialEq, Eq, Structural)]
pub enum ErrorKind {
    InvalidInput,
    InvalidOutput,
    ModelLoad,
    Processing,
    Commit,
}

/// A failure of a run.
#[derive(Debug)]
pub struct PipelineError {
    pub kind: ErrorKind,
    pub stage: Option<Stage>,
    pub chain: ErrorChain,
}

/// What became of a stage on a page.
#[derive(Clone, Copy, Debug, PartialEq, Eq, Structural)]
pub enum StageOutcome {
    /// There is a change to keep.
    Patch,
    Skipped,
    Stopped,
}

/// What is to be done next for a stage on a page.
#[derive(Debug)]
pub enum StageAction {
    /// Ask whether the stage has anything to do.
    CheckSkip,
    /// Wait for the accelerator.
    Acquire,
    /// Load the model, showing that it is loaded.
    Load,
    /// Process the page, showing that it runs.
    Process,
    /// Give the accelerator back, free memory, and wait for the accelerator again.
    Recover,
    /// The stage is done.
    Done(StageOutcome),
    /// The stage failed; its model is unloaded.
    Fail(PipelineError),
}

/// What happened to the last action. Each says whether a stop had been asked for by then.
#[derive(Debug)]
pub enum StageEvent {
    /// Nothing was done yet.
    Begin { stopped: bool },
    /// Whether the stage has nothing to do.
    SkipChecked { skip: Result<bool, ErrorChain> },
    /// The accelerator is there.
    Acquired { stopped: bool },
    Loaded { stopped: bool },
    LoadFailed { error: ErrorChain, stopped: bool },
    /// Whether the page is unchanged.
    Processed { empty: bool },
    ProcessFailed { error: ErrorChain, stopped: bool },
    /// The accelerator is there again.
    Recovered { stopped: bool },
}

/// Whether the second try is on.
#[derive(Clone, Copy, Debug, PartialEq, Eq, Structural)]
pub struct StageAttempt {
    pub retried: bool,
}

/// The text that a failure of a stage begins with.
pub open spec fn failure_text(kind: ErrorKind, model: Seq<char>) -> Seq<char> {
    if kind == ErrorKind::ModelLoad {
        "failed to load "@ + model
    } else {
        model + " failed"@
    }
}

/// The failure of a stage: what happened, then what it comes of.
pub open spec fn is_stage_error(
    error: PipelineError,
    kind: ErrorKind,
    stage: Stage,
    model: Seq<char>,
    chain: Seq<Cause>,
) -> bool {
    &&& error.kind == kind
    &&& error.stage == Some(stage)
    &&& error.chain.causes@.len() == chain.len() + 1
    &&& error.chain.causes@[0].kind == CauseKind::Other
    &&& error.chain.causes@[0].message@ == failure_text(kind, model)
    &&& error.chain.causes@.skip(1) == chain
}

/// The failure of a stage, under a text that says which model failed.
pub fn stage_error(stage: Stage, model: &str, kind: ErrorKind, error: ErrorChain) -> (r:
    PipelineError)
    ensures
        is_stage_error(r, kind, stage, model@, error.causes@),
{
    let message = if kind == ErrorKind::ModelLoad {
        text::joined("failed to load ", model)
    } else {
        text::joined(model, " failed")
    };
    let mut causes = error.causes;
    let ghost chain = causes@;
    causes.insert(0, Cause { kind: CauseKind::Other, message });
    assert(causes@.skip(1) =~= chain);
    PipelineError { kind, stage: Some(stage), chain: ErrorChain { causes } }
}

/// What follows a failed try: once, where memory ran out and no stop was asked for, memory is
/// freed for a second try; else the stage has failed.
pub open spec fn after_failure(
    attempt: StageAttempt,
    kind: ErrorKind,
    stage: Stage,
    model: Seq<char>,
    error: ErrorChain,
    stopped: bool,
    action: StageAction,
    next: StageAttempt,
) -> bool {
    if !attempt.retried && ran_out(error.causes@) && !stopped {
        action is Recover && next.retried
    } else {
        next == attempt && (action matches StageAction::Fail(e) && is_stage_error(
            e,
            kind,
            stage,
            model,
            error.causes@,
        ))
    }
}

/// What is done after each event.
pub open spec fn stage_step(
    attempt: StageAttempt,
    stage: Stage,
    model: Seq<char>,
    event: StageEvent,
    action: StageAction,
    next: StageAttempt,
) -> bool {
    match event {
        StageEvent::Begin { stopped } => next == attempt && action == if stopped {
            StageAction::Done(StageOutcome::Stopped)
        } else {
            StageAction::CheckSkip
        },
        StageEvent::SkipChecked { skip } => next == attempt && match skip {
            Ok(true) => action == StageAction::Done(StageOutcome::Skipped),
            Ok(false) => action is Acquire,
            Err(error) => action matches StageAction::Fail(e) && is_stage_error(
                e,
                ErrorKind::Processing,
                stage,
                model,
                error.causes@,
            ),
        },
        StageEvent::Acquired { stopped } => next == attempt && action == if stopped {
            StageAction::Done(StageOutcome::Stopped)
        } else {
            StageAction::Load
        },
        StageEvent::Loaded { stopped } => next == attempt && action == if stopped {
            StageAction::Done(StageOutcome::Stopped)
        } else {
            StageAction::Process
        },
        StageEvent::LoadFailed { error, stopped } => after_failure(
            attempt,
            ErrorKind::ModelLoad,
            stage,
            model,
            error,
            stopped,
            action,
            next,
        ),
        StageEvent::Processed { empty } => next == attempt && action == if empty {
            StageAction::Done(StageOutcome::Skipped)
        } else {
            StageAction::Done(StageOutcome::Patch)
        },
        StageEvent::ProcessFailed { error, stopped } => after_failure(
            attempt,
            ErrorKind::Processing,
            stage,
            model,
            error,
            stopped,
            action,
            next,
        ),
        StageEvent::Recovered { stopped } => next == attempt && action == if stopped {
            StageAction::Done(StageOutcome::Stopped)
        } else {
            StageAction::Load
        },
    }
}

impl StageAttempt {
    /// A stage that was not tried yet.
    pub fn new() -> (r: Self)
        ensures
            !r.retried,
    {
        StageAttempt { retried: false }
    }

    /// What is to be done after an event.
    pub fn next(&mut self, stage: Stage, model: &str, event: StageEvent) -> (r: StageAction)
        ensures
            stage_step(*old(self), stage, model@, event, r, *final(self)),
    {
        match event {
            StageEvent::Begin { stopped } => if stopped {
                StageAction::Done(StageOutcome::Stopped)
            } else {
                StageAction::CheckSkip
            },
            StageEvent::SkipChecked { skip } => match skip {
                Ok(true) => StageAction::Done(StageOutcome::Skipped),
                Ok(false) => StageAction::Acquire,
                Err(error) => StageAction::Fail(
                    stage_error(stage, model, ErrorKind::Processing, error),
                ),
            },
            StageEvent::Acquired { stopped } => if stopped {
                StageAction::Done(StageOutcome::Stopped)
            } else {
                StageAction::Load
            },
            StageEvent::Loaded { stopped } => if stopped {
                StageAction::Done(StageOutcome::Stopped)
            } else {
                StageAction::Process
            },
            StageEvent::LoadFailed { error, stopped } => {
                self.failed(stage, model, ErrorKind::ModelLoad, error, stopped)
            },
            StageEvent::Processed { empty } => if empty {
                StageAction::Done(StageOutcome::Skipped)
            } else {
                StageAction::Done(StageOutcome::Patch)
            },
            StageEvent::ProcessFailed { error, stopped } => {
                self.failed(stage, model, ErrorKind::Processing, error, stopped)
            },
            StageEvent::Recovered { stopped } => if stopped {
                StageAction::Done(StageOutcome::Stopped)
            } else {
                StageAction::Load
            },
        }
    }

    fn failed(
        &mut self,
        stage: Stage,
        model: &str,
        kind: ErrorKind,
        error: ErrorChain,
        stopped: bool,
    ) -> (r: StageAction)
        ensures
            after_failure(*old(self), kind, stage, model@, error, stopped, r, *final(self)),
    {
        if !self.retried && is_out_of_memory(&error) && !stopped {
            self.retried = true;
            return StageAction::Recover;
        }
        StageAction::Fail(stage_error(stage, model, kind, error))
    }
}

/// A stage is tried at most twice: after a second failure, and after any that is not about memory,
/// there is no further try.
pub proof fn lemma_at_most_two_tries(
    attempt: StageAttempt,
    stage: Stage,
    model: Seq<char>,
    event: StageEvent,
    action: StageAction,
    next: StageAttempt,
)
    requires
        stage_step(attempt, stage, model, event, action, next),
    ensures
        action is Recover ==> !attempt.retried && next.retried,
        attempt.retried ==> next.retried && !(action is Recover),
        next.retried && !attempt.retried ==> action is Recover,
{
}

/// Once a stop was asked for, no step that learns of it starts further work.
pub proof fn lemma_stop_ends_stage(
    attempt: StageAttempt,
    stage: Stage,
    model: Seq<char>,
    event: StageEvent,
    action: StageAction,
    next: StageAttempt,
)
    requires
        stage_step(attempt, stage, model, event, action, next),
        match event {
            StageEvent::Begin { stopped } => stopped,
            StageEvent::Acquired { stopped } => stopped,
            StageEvent::Loaded { stopped } => stopped,
            StageEvent::LoadFailed { stopped, .. } => stopped,
            StageEvent::ProcessFailed { stopped, .. } => stopped,
            StageEvent::Recovered { stopped } => stopped,
            _ => false,
        },
    ensures
        action is Done || action is Fail,
{
}

/// What tells that memory ran out: a cause for which the library gave back nothing for a model or a
/// context, or one whose message says so in letters of either case; and nothing else.
pub proof fn lemma_what_tells_of_memory(causes: Seq<Cause>, i: int)
    requires
        0 <= i < causes.len(),
    ensures
        causes[i].kind == CauseKind::ModelLoad(LlamaModelLoadError::NullResult) ==> ran_out(causes),
        causes[i].kind == CauseKind::ContextLoad(LlamaContextLoadError::NullReturn) ==> ran_out(
            causes,
        ),
        causes[i].kind == CauseKind::LlamaCpp(
            LlamaCppError::ModelLoad(LlamaModelLoadError::NullResult),
        ) ==> ran_out(causes),
        causes[i].kind == CauseKind::LlamaCpp(
            LlamaCppError::ContextLoad(LlamaContextLoadError::NullReturn),
        ) ==> ran_out(causes),
        ({
            let message = text::ascii_lower(causes[i].message@);
            text::contains_text(message, "out of memory"@) || text::contains_text(
                message,
                "cuda_error_out_of_memory"@,
            ) || text::contains_text(message, "not enough memory"@) || text::contains_text(
                message,
                "failed to allocate"@,
            ) || text::contains_text(message, "unable to allocate"@)
        }) ==> ran_out(causes),
        causes.len() == 1 && (causes[i].kind is Other || causes[i].kind is ChatTemplate
            || causes[i].kind == CauseKind::ModelLoad(LlamaModelLoadError::PathToStrError)
            || causes[i].kind == CauseKind::LlamaCpp(
            LlamaCppError::ModelLoad(LlamaModelLoadError::PathToStrError),
        )) && !names_memory(causes[i].message@) ==> !ran_out(causes),
{
}

/// A stage that is not stopped goes on step by step: it asks whether there is anything to do, waits
/// for the accelerator, loads the model and processes the page, once more after memory was freed.
pub proof fn lemma_steps_of_a_stage(
    attempt: StageAttempt,
    stage: Stage,
    model: Seq<char>,
    event: StageEvent,
    action: StageAction,
    next: StageAttempt,
)
    requires
        stage_step(attempt, stage, model, event, action, next),
    ensures
        event == (StageEvent::Begin { stopped: false }) ==> action is CheckSkip,
        event matches StageEvent::SkipChecked { skip: Ok(true) } ==> action == StageAction::Done(
            StageOutcome::Skipped,
        ),
        event matches StageEvent::SkipChecked { skip: Ok(false) } ==> action is Acquire,
        event == (StageEvent::Acquired { stopped: false }) ==> action is Load,
        event == (StageEvent::Loaded { stopped: false }) ==> action is Process,
        event == (StageEvent::Recovered { stopped: false }) ==> action is Load,
        event == (StageEvent::Processed { empty: true }) ==> action == StageAction::Done(
            StageOutcome::Skipped,
        ),
        event == (StageEvent::Processed { empty: false }) ==> action == StageAction::Done(
            StageOutcome::Patch,
        ),
        event == (StageEvent::Begin { stopped: true }) || event == (StageEvent::Acquired {
            stopped: true,
        }) || event == (StageEvent::Loaded { stopped: true }) || event == (StageEvent::Recovered {
            stopped: true,
        }) ==> action == StageAction::Done(StageOutcome::Stopped),
{
}

/// A stage whose model cannot be loaded, or whose page cannot be processed, fails with its name and
/// its model's, and with the causes as they were told; unless memory ran out at the first try and no
/// stop was asked for.
pub proof fn lemma_a_failed_stage(
    attempt: StageAttempt,
    stage: Stage,
    model: Seq<char>,
    event: StageEvent,
    action: StageAction,
    next: StageAttempt,
    causes: Seq<Cause>,
    loading: bool,
    stopped: bool,
)
    requires
        stage_step(attempt, stage, model, event, action, next),
        loading ==> (event matches StageEvent::LoadFailed { error, stopped: asked }
            && error.causes@ == causes && asked == stopped),
        !loading ==> (event matches StageEvent::ProcessFailed { error, stopped: asked }
            && error.causes@ == causes && asked == stopped),
    ensures
        action is Recover <==> !attempt.retried && !stopped && ran_out(causes),
        !(action is Recover) ==> (action matches StageAction::Fail(e) && e.stage == Some(stage)
            && e.chain.causes@.len() == causes.len() + 1 && e.chain.causes@.skip(1) == causes),
        action matches StageAction::Fail(e) ==> (loading ==> e.kind == ErrorKind::ModelLoad
            && e.chain.causes@[0].message@ == "failed to load "@ + model) && (!loading ==> e.kind
            == ErrorKind::Processing && e.chain.causes@[0].message@ == model + " failed"@),
{
}

} // verus!
