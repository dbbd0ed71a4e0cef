use koharu::ids::{EntityId, JobId};
use koharu::pipeline::execution::RunStatus;
use koharu::pipeline::request::{Operation, Scope, Stage};
use koharu::processing::{JobState, Progress};
use koharu::workflow::reviews::{PendingReviews, ResumeFault};
use koharu::workflow::run::{start_workflow, StartFault, WorkflowAction, WorkflowEvent, WorkflowRun};
use koharu::workflow::{
    check_presets, scoped_pages, PageFault, PresetFault, SaveFault, Scheduling, WorkflowPreset,
    WorkflowScope, WorkflowSettings, WorkflowStageState, WorkflowStep,
};

fn page(n: u128) -> EntityId {
    EntityId(n)
}

fn same_preset(a: &WorkflowPreset, b: &WorkflowPreset) -> bool {
    a.name == b.name
        && a.scheduling == b.scheduling
        && a.scope == b.scope
        && a.stages == b.stages
        && a.review_glossary == b.review_glossary
}

#[test]
fn presets_roundtrip_and_review_is_never_auto_accepted() {
    let defaults = WorkflowSettings::default();
    let old = WorkflowPreset::default();
    assert_eq!(old.scope, WorkflowScope::Project);
    let consistent = &defaults.presets[1];
    assert_eq!(
        consistent.steps().unwrap(),
        [
            WorkflowStep::Detection,
            WorkflowStep::Ocr,
            WorkflowStep::Terminology,
            WorkflowStep::Translation,
            WorkflowStep::Inpainting
        ]
    );
    assert!(consistent.review_glossary);
    assert!(same_preset(&consistent.copy(), consistent));
    let mut skipped = consistent.copy();
    skipped.review_glossary = false;
    assert!(!skipped
        .steps()
        .unwrap()
        .contains(&WorkflowStep::Terminology));
    skipped.stages.reverse();
    assert!(skipped.steps().is_err());
}

#[test]
fn selected_pages_follow_project_order() {
    let project = vec![page(1), page(2), page(3)];
    assert_eq!(
        scoped_pages(&project, &Scope::Pages(vec![page(3), page(1), page(3)])).unwrap(),
        [page(1), page(3)]
    );
    assert!(scoped_pages(&project, &Scope::Pages(Vec::new())).is_err());
    assert!(matches!(
        scoped_pages(&project, &Scope::Pages(vec![page(9)])),
        Err(PageFault::Unknown(EntityId(9)))
    ));
    assert!(matches!(
        scoped_pages(&Vec::new(), &Scope::Project),
        Err(PageFault::NoPages)
    ));
}

#[test]
fn enabled_project_runs_use_the_selected_preset() {
    let mut settings = WorkflowSettings::default();
    assert!(settings
        .for_run(&Scope::Project, &Operation::Full)
        .unwrap()
        .is_none());
    settings.enabled = true;
    let preset = settings
        .for_run(&Scope::Project, &Operation::Full)
        .unwrap()
        .unwrap();
    assert_eq!(preset.scheduling, Scheduling::StageMajor);
    assert!(preset.stages.contains(&WorkflowStep::Terminology));
    assert!(settings
        .for_run(&Scope::Project, &Operation::Only { stage: Stage::Ocr })
        .unwrap()
        .is_none());
    let one = page(1);
    assert!(settings
        .for_run(&Scope::Pages(vec![one]), &Operation::Full)
        .unwrap()
        .is_none());
    assert_eq!(
        settings
            .for_run(&Scope::Pages(vec![one, page(2)]), &Operation::Full)
            .unwrap()
            .unwrap()
            .scope,
        WorkflowScope::SelectedPages
    );
    settings.active_preset = "Standard".to_owned();
    assert_eq!(
        settings
            .for_run(&Scope::Project, &Operation::Full)
            .unwrap()
            .unwrap()
            .scheduling,
        Scheduling::PageMajor
    );
}

#[test]
fn old_settings_keep_standard_run_behavior() {
    let settings = WorkflowSettings::default();
    assert!(!settings.enabled);
    let reloaded = WorkflowSettings::default();
    assert_eq!(reloaded.active_preset, settings.active_preset);
    assert_eq!(reloaded.presets.len(), settings.presets.len());
    for (a, b) in reloaded.presets.iter().zip(settings.presets.iter()) {
        assert!(same_preset(a, b));
    }
}

#[test]
fn presets_are_saved_and_chosen_by_name() {
    let settings = WorkflowSettings::default();
    assert!(settings.configure(true, "nothing".to_owned()).is_err());
    let settings = WorkflowSettings::default()
        .configure(true, "Standard".to_owned())
        .unwrap();
    assert!(settings.enabled);
    assert_eq!(settings.active_preset, "Standard");

    assert!(matches!(
        check_presets(&Vec::new()),
        Err(SaveFault::Count)
    ));
    let mut unnamed = WorkflowPreset::default();
    unnamed.name = " ".to_owned();
    assert!(matches!(
        check_presets(&vec![unnamed]),
        Err(SaveFault::Preset {
            index: 0,
            fault: PresetFault::Name
        })
    ));
    let mut empty = WorkflowPreset::default();
    empty.name = "Empty".to_owned();
    empty.stages = Vec::new();
    assert!(matches!(empty.steps(), Err(PresetFault::Order)));
    empty.scheduling = Scheduling::StageMajor;
    empty.stages = vec![WorkflowStep::Terminology];
    empty.review_glossary = false;
    assert!(matches!(empty.steps(), Err(PresetFault::Empty)));
    empty.scheduling = Scheduling::PageMajor;
    assert!(matches!(empty.steps(), Err(PresetFault::Terminology)));
    let named = |name: &str| {
        let mut preset = WorkflowPreset::default();
        preset.name = name.to_owned();
        preset
    };
    assert!(matches!(
        check_presets(&vec![named("A"), named("A")]),
        Err(SaveFault::Name(1))
    ));
    let saved = settings.save_presets(vec![named("Mine")]).unwrap();
    assert_eq!(saved.presets.len(), 1);
    assert_eq!(saved.presets[0].name, "Mine");
}

fn consistent() -> WorkflowPreset {
    WorkflowSettings::default().presets[1].copy()
}

fn started() -> WorkflowRun {
    let project = vec![page(1), page(2)];
    let (run, pages) =
        match start_workflow(&consistent(), &project, &Scope::Project, false, JobId(1)) {
            Ok(started) => started,
            Err(_) => panic!("started"),
        };
    assert_eq!(pages, project);
    run
}

fn ran(status: RunStatus) -> WorkflowEvent {
    WorkflowEvent::StageRan {
        status,
        stopped: false,
    }
}

#[test]
fn a_workflow_waits_for_the_terms_to_be_settled() {
    let mut run = started();
    assert!(matches!(
        run.next(WorkflowEvent::Begin { stopped: false }),
        WorkflowAction::RunStage(Stage::Detection)
    ));
    assert!(matches!(
        run.next(ran(RunStatus::Completed)),
        WorkflowAction::RunStage(Stage::Ocr)
    ));
    run.record_progress(Progress::Finished {
        page: page(1),
        stage: Stage::Ocr,
        model: "paddle".to_owned(),
    });
    assert!(matches!(
        run.next(ran(RunStatus::Completed)),
        WorkflowAction::Analyze
    ));
    run.record_analysis(2);
    assert!(matches!(
        run.next(WorkflowEvent::Analyzed {
            found: true,
            stopped: false
        }),
        WorkflowAction::SaveCandidates
    ));
    assert!(matches!(
        run.next(WorkflowEvent::Saved {
            pending: true,
            stopped: false
        }),
        WorkflowAction::AwaitReview
    ));
    assert_eq!(run.job.state, JobState::AwaitingReview);
    assert!(matches!(
        run.next(WorkflowEvent::Reviewed {
            resumed: true,
            stopped: false
        }),
        WorkflowAction::RunStage(Stage::Translation)
    ));
    assert_eq!(run.job.state, JobState::Running);
    assert!(matches!(
        run.next(ran(RunStatus::Completed)),
        WorkflowAction::RunStage(Stage::Inpainting)
    ));
    assert!(matches!(
        run.next(ran(RunStatus::Completed)),
        WorkflowAction::Finish(_)
    ));
    run.finish(Ok(true), false);
    assert_eq!(run.job.state, JobState::Finished);
    assert!(run
        .job
        .workflow
        .stages
        .iter()
        .all(|stage| stage.state == WorkflowStageState::Complete));
}

#[test]
fn a_stopped_workflow_keeps_what_is_done() {
    let mut run = started();
    run.next(WorkflowEvent::Begin { stopped: false });
    run.next(ran(RunStatus::Completed));
    assert!(matches!(
        run.next(ran(RunStatus::Stopped)),
        WorkflowAction::Finish(false)
    ));
    run.finish(Ok(false), true);
    assert_eq!(run.job.state, JobState::Stopped);
    assert_eq!(
        run.job.workflow.stages[0].state,
        WorkflowStageState::Complete
    );
    assert_ne!(
        run.job.workflow.stages[3].state,
        WorkflowStageState::Complete
    );
}

#[test]
fn a_failed_workflow_says_why() {
    let mut run = started();
    run.next(WorkflowEvent::Begin { stopped: false });
    run.finish(Err("no model".to_owned()), false);
    assert_eq!(run.job.state, JobState::Failed);
    assert_eq!(run.job.error.as_deref(), Some("no model"));
}

#[test]
fn workflows_are_refused_with_a_reason() {
    let project = vec![page(1)];
    let busy = start_workflow(&consistent(), &project, &Scope::Project, true, JobId(1));
    assert!(matches!(busy, Err(StartFault::Busy)));
    let nothing = start_workflow(
        &consistent(),
        &Vec::new(),
        &Scope::Project,
        false,
        JobId(1),
    );
    assert!(matches!(nothing, Err(StartFault::Pages(PageFault::NoPages))));
    let mut reversed = consistent();
    reversed.stages.reverse();
    let unordered = start_workflow(&reversed, &project, &Scope::Project, false, JobId(1));
    assert!(matches!(
        unordered,
        Err(StartFault::Preset(PresetFault::Order))
    ));
}

#[test]
fn a_review_is_answered_once() {
    let mut reviews = PendingReviews::new();
    assert!(!reviews.close(JobId(1)));
    reviews.open(JobId(1));
    reviews.open(JobId(2));
    assert_eq!(reviews.resume(JobId(3), true), Err(ResumeFault::NotAwaiting));
    assert_eq!(reviews.resume(JobId(1), true), Ok(()));
    assert_eq!(reviews.resume(JobId(1), true), Err(ResumeFault::NotAwaiting));
    assert_eq!(reviews.resume(JobId(2), false), Err(ResumeFault::Stopped));
    assert!(!reviews.close(JobId(2)));
    assert_eq!(
        ResumeFault::NotAwaiting.message(),
        "workflow is not awaiting glossary review"
    );
    assert_eq!(
        ResumeFault::Stopped.message(),
        "workflow stopped before review completed"
    );
}

#[test]
fn names_are_random_uuids() {
    let first = JobId::new();
    let second = JobId::new();
    assert_ne!(first, second);
    assert_eq!(first.0 >> 76 & 0xf, 4);
    assert_eq!(first.0 >> 62 & 0x3, 2);
}

#[test]
fn faults_of_presets_have_their_words() {
    assert_eq!(
        PresetFault::Name.message(),
        "preset name must contain 1–128 bytes"
    );
    assert_eq!(
        PresetFault::Order.message(),
        "choose unique workflow stages in pipeline order"
    );
    assert_eq!(
        PresetFault::Terminology.message(),
        "terminology requires stage-major scheduling"
    );
    assert_eq!(
        PresetFault::Empty.message(),
        "at least one workflow stage must be enabled"
    );
    assert_eq!(SaveFault::Count.message(), "save between 1 and 50 presets");
    assert_eq!(SaveFault::Name(1).message(), "preset names must be unique");
}
