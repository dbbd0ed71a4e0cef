use koharu::glossary::model::Glossary;
use koharu::ids::{EntityId, JobId};
use koharu::pipeline::execution::RunStatus;
use koharu::pipeline::request::Stage;
use koharu::processing::{
    final_state, terminology_snapshot, JobCounts, JobKind, JobPhase, JobRegistry, JobState,
    JobUpdate, Progress, ProgressCount,
};

#[test]
fn every_job_kind_reserves_the_same_processing_slot() {
    let mut processing = JobRegistry::new();
    let (first, _) = processing
        .start_job(JobKind::GlossaryScan, JobPhase::PreparingOcr)
        .unwrap();
    assert!(processing
        .start_job(JobKind::Pipeline, JobPhase::Pipeline { stage: None })
        .is_err());

    processing.finish_job(first, JobState::Stopped, None);
    assert!(processing.snapshot().is_empty());
}

#[test]
fn stopping_reaches_the_job_that_runs() {
    let mut processing = JobRegistry::new();
    let (job, token) = processing
        .start_job(JobKind::GlossaryScan, JobPhase::PreparingOcr)
        .unwrap();
    assert!(processing.is_running());
    processing.stop_all();
    assert!(token.stopped());
    assert!(processing
        .start_job(JobKind::Pipeline, JobPhase::Pipeline { stage: None })
        .is_err());
    processing.finish_job(job, JobState::Stopped, None);
    assert!(!processing.is_running());
    let (second, token) = processing
        .start_job(JobKind::Pipeline, JobPhase::Pipeline { stage: None })
        .unwrap();
    assert!(!token.stopped());
    assert!(processing.stop_job(JobId(second.0.wrapping_add(1))).is_err());
    assert!(processing.stop_job(second).is_ok());
    assert!(token.stopped());
}

#[test]
fn updates_are_seen_in_the_snapshot() {
    let mut processing = JobRegistry::new();
    let (job, _) = processing
        .start_job(JobKind::Export, JobPhase::Pipeline { stage: None })
        .unwrap();
    let update = JobUpdate {
        counts: Some(JobCounts {
            completed: 1,
            total: 3,
            page: Some(EntityId(5)),
        }),
        phase: None,
    };
    let shown = processing.update_job(job, update).unwrap();
    assert_eq!((shown.completed, shown.total), (1, 3));
    let listed = processing.snapshot();
    assert_eq!(listed[0].page, Some(EntityId(5)));
    assert_eq!(listed[0].state, JobState::Running);
    let unknown = JobUpdate {
        counts: None,
        phase: Some(JobPhase::PreparingOcr),
    };
    assert!(processing
        .update_job(JobId(job.0.wrapping_add(1)), unknown)
        .is_none());
    let failed = processing
        .finish_job(job, JobState::Failed, Some("full".to_owned()))
        .unwrap();
    assert_eq!(failed.error.as_deref(), Some("full"));
}

#[test]
fn progress_is_counted_page_by_page() {
    let mut count = ProgressCount::new();
    let started = Progress::Started {
        pages: vec![EntityId(1), EntityId(2)],
        stages: vec![Stage::Ocr, Stage::Translation],
    };
    count.on_event(&started, true);
    assert_eq!((count.completed, count.total), (0, 4));
    let finished = Progress::Finished {
        page: EntityId(1),
        stage: Stage::Ocr,
        model: "paddle".to_owned(),
    };
    let update = count.on_event(&finished, true).unwrap();
    assert_eq!(update.counts.unwrap().completed, 1);
    let skipped = Progress::Skipped {
        page: EntityId(2),
        stage: Stage::Ocr,
    };
    count.on_event(&skipped, true);
    assert_eq!(count.completed, 2);
}

#[test]
fn runs_end_in_a_state() {
    assert_eq!(
        final_state(Ok(RunStatus::Completed)),
        (JobState::Finished, None)
    );
    assert_eq!(
        final_state(Ok(RunStatus::Stopped)),
        (JobState::Stopped, None)
    );
    assert_eq!(
        final_state(Err("full".to_owned())),
        (JobState::Failed, Some("full".to_owned()))
    );
}

#[test]
fn projects_without_terms_have_none_to_hand_on() {
    assert!(terminology_snapshot(None).is_empty());
    assert!(terminology_snapshot(Some(&Glossary::empty())).is_empty());
}

#[test]
fn faults_of_jobs_have_their_words() {
    let mut processing = JobRegistry::new();
    assert_eq!(
        processing.stop_job(JobId(1)).unwrap_err().message(),
        "job 00000000-0000-0000-0000-000000000001 is not running"
    );
    processing
        .start_job(JobKind::GlossaryScan, JobPhase::PreparingOcr)
        .unwrap();
    let fault = processing
        .start_job(JobKind::GlossaryScan, JobPhase::PreparingOcr)
        .err()
        .unwrap();
    assert_eq!(fault.message(), "another process is already running");
}
