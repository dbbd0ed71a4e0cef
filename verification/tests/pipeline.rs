use koharu::glossary::model::{
    Glossary, GlossaryEntry, GlossaryEntryId, GlossaryKind, GlossaryValueOrigin,
};
use koharu::ids::{EntityId, ProjectId, Revision};
use koharu::pipeline::execution::{
    CommitFault, CompletionStep, Execution, InputFault, RunFailure, RunStatus,
};
use koharu::pipeline::request::{
    terminology_from_glossary, InpaintingMask, Operation, Request, Scope, Stage, StopToken,
    TerminologyEntry, TerminologyKind,
};
use koharu::pipeline::stage_runner::{
    is_out_of_memory, stage_error, ApplyChatTemplateError, Cause, CauseKind, ErrorChain, ErrorKind,
    LlamaContextLoadError, LlamaCppError, LlamaModelLoadError, StageAction, StageAttempt,
    StageEvent, StageOutcome,
};
use koharu::pipeline::translation::{
    build_translation_request, keep_translations, targets, PageLayer,
};

fn cause(kind: CauseKind, message: &str) -> Cause {
    Cause {
        kind,
        message: message.to_owned(),
    }
}

fn said(message: &str) -> Cause {
    cause(CauseKind::Other, message)
}

fn chain(causes: Vec<Cause>) -> ErrorChain {
    ErrorChain { causes }
}

#[test]
fn model_load_null_result_is_out_of_memory() {
    let error = chain(vec![
        said("failed to load local translation model"),
        said("failed to load GGUF model model.gguf"),
        cause(
            CauseKind::ModelLoad(LlamaModelLoadError::NullResult),
            "null result from llama cpp",
        ),
    ]);
    assert!(is_out_of_memory(&error));
}

#[test]
fn context_null_return_is_out_of_memory() {
    let error = chain(vec![
        said("failed to create llama.cpp context"),
        cause(
            CauseKind::ContextLoad(LlamaContextLoadError::NullReturn),
            "null reference from llama.cpp",
        ),
    ]);
    assert!(is_out_of_memory(&error));
}

#[test]
fn wrapped_llama_errors_are_out_of_memory() {
    let error = chain(vec![cause(
        CauseKind::LlamaCpp(LlamaCppError::ContextLoad(
            LlamaContextLoadError::NullReturn,
        )),
        "wrapped",
    )]);
    assert!(is_out_of_memory(&error));
    let error = chain(vec![cause(
        CauseKind::LlamaCpp(LlamaCppError::ModelLoad(LlamaModelLoadError::NullResult)),
        "wrapped",
    )]);
    assert!(is_out_of_memory(&error));
}

#[test]
fn chat_template_null_result_is_not_out_of_memory() {
    let error = chain(vec![
        said("failed to render GGUF chat template"),
        cause(
            CauseKind::ChatTemplate(ApplyChatTemplateError::NullResult),
            "null result",
        ),
    ]);
    assert!(!is_out_of_memory(&error));
}

#[test]
fn other_model_load_errors_are_not_out_of_memory() {
    let error = chain(vec![cause(
        CauseKind::ModelLoad(LlamaModelLoadError::PathToStrError),
        "failed to convert path model.gguf to str",
    )]);
    assert!(!is_out_of_memory(&error));
}

#[test]
fn bounds_violation_is_not_out_of_memory() {
    let error = chain(vec![said("invalid vector subscript")]);
    assert!(!is_out_of_memory(&error));
}

#[test]
fn messages_naming_memory_are_out_of_memory() {
    for message in [
        "CUDA error: out of memory",
        "CUDA_ERROR_OUT_OF_MEMORY",
        "not enough memory to complete the operation",
        "ggml_backend: failed to allocate buffer",
    ] {
        assert!(is_out_of_memory(&chain(vec![said(message)])), "{message}");
    }
}

#[test]
fn operations_expand_to_the_supported_workflows() {
    assert_eq!(
        Operation::Through {
            stage: Stage::Translation,
        }
        .stages()
        .unwrap(),
        vec![Stage::Detection, Stage::Ocr, Stage::Translation],
    );
    assert_eq!(
        Operation::Through {
            stage: Stage::Inpainting,
        }
        .stages()
        .unwrap(),
        vec![Stage::Detection, Stage::Inpainting],
    );
    assert_eq!(
        Operation::Only {
            stage: Stage::Translation,
        }
        .stages()
        .unwrap(),
        vec![Stage::Translation],
    );
    assert_eq!(
        Operation::Stages {
            stages: vec![Stage::Translation, Stage::Detection, Stage::Translation],
        }
        .stages()
        .unwrap(),
        vec![Stage::Detection, Stage::Translation],
    );
}

#[test]
fn full_operations_run_every_stage_and_none_is_refused() {
    assert_eq!(Operation::Full.stages().unwrap(), Stage::all());
    assert!(Operation::Stages { stages: vec![] }.stages().is_err());
    assert_eq!(
        Operation::StageMajor {
            stages: vec![Stage::Translation, Stage::Ocr],
        }
        .stages()
        .unwrap(),
        vec![Stage::Ocr, Stage::Translation],
    );
    assert!(Stage::Ocr.precedes(Stage::Translation));
    assert!(!Stage::Ocr.precedes(Stage::Ocr));
}

#[test]
fn stop_tokens_share_one_flag() {
    let token = StopToken::new();
    let other = token.clone();
    assert!(!other.stopped());
    token.stop();
    assert!(other.stopped());
    assert!(!StopToken::default().stopped());
}

fn entry(
    source: &str,
    translation: Option<&str>,
    kind: GlossaryKind,
    enabled: bool,
) -> GlossaryEntry {
    GlossaryEntry {
        id: GlossaryEntryId::new(),
        source: source.to_owned(),
        translation: translation.map(str::to_owned),
        kind,
        enabled,
        confidence: None,
        occurrence_count: 0,
        examples: Vec::new(),
        source_origin: GlossaryValueOrigin::User,
        translation_origin: translation.map(|_| GlossaryValueOrigin::User),
        present_in_last_scan: true,
    }
}

fn glossary(entries: Vec<GlossaryEntry>) -> Glossary {
    Glossary {
        enabled: true,
        source_language: None,
        target_language: None,
        source_fingerprint: None,
        entries,
    }
}

fn entry_with_id(id: u128, source: &str, translation: &str, kind: GlossaryKind) -> GlossaryEntry {
    let mut entry = entry(source, Some(translation), kind, true);
    entry.id = GlossaryEntryId(id);
    entry
}

fn listed(terms: &[TerminologyEntry]) -> Vec<(TerminologyKind, String, String)> {
    terms
        .iter()
        .map(|term| (term.kind, term.source.clone(), term.translation.clone()))
        .collect()
}

fn term(kind: TerminologyKind, source: &str, translation: &str) -> (TerminologyKind, String, String) {
    (kind, source.to_owned(), translation.to_owned())
}

#[test]
fn disabled_glossary_has_no_translation_terminology() {
    let glossary = Glossary {
        enabled: false,
        source_language: None,
        target_language: None,
        source_fingerprint: None,
        entries: vec![entry("アリス", Some("Alice"), GlossaryKind::Person, true)],
    };

    assert!(terminology_from_glossary(&glossary).is_empty());
}

#[test]
fn translation_terminology_includes_every_kind_and_filters_ineligible_entries() {
    let glossary = glossary(vec![
        entry("person", Some("Person"), GlossaryKind::Person, true),
        entry("place", Some("Place"), GlossaryKind::Place, true),
        entry(
            "organization",
            Some("Organization"),
            GlossaryKind::Organization,
            true,
        ),
        entry("item", Some("Item"), GlossaryKind::Item, true),
        entry("ability", Some("Ability"), GlossaryKind::Ability, true),
        entry("term", Some("Term"), GlossaryKind::Term, true),
        entry("other", Some("Other"), GlossaryKind::Other, true),
        entry("disabled", Some("Disabled"), GlossaryKind::Term, false),
        entry("untranslated", None, GlossaryKind::Term, true),
    ]);

    assert_eq!(
        listed(&terminology_from_glossary(&glossary)),
        vec![
            term(TerminologyKind::Person, "person", "Person"),
            term(TerminologyKind::Place, "place", "Place"),
            term(TerminologyKind::Organization, "organization", "Organization"),
            term(TerminologyKind::Item, "item", "Item"),
            term(TerminologyKind::Ability, "ability", "Ability"),
            term(TerminologyKind::Term, "term", "Term"),
            term(TerminologyKind::Other, "other", "Other"),
        ]
    );
}

#[test]
fn translation_terminology_order_is_kind_normalized_source_then_id() {
    let glossary = glossary(vec![
        entry_with_id(2, "Ａlice", "Alice Two", GlossaryKind::Person),
        entry_with_id(4, "alpha", "Alpha", GlossaryKind::Term),
        entry_with_id(3, "place", "Place", GlossaryKind::Place),
        entry_with_id(1, "alice", "Alice One", GlossaryKind::Person),
    ]);

    assert_eq!(
        listed(&terminology_from_glossary(&glossary)),
        vec![
            term(TerminologyKind::Person, "alice", "Alice One"),
            term(TerminologyKind::Person, "Ａlice", "Alice Two"),
            term(TerminologyKind::Place, "place", "Place"),
            term(TerminologyKind::Term, "alpha", "Alpha"),
        ]
    );
}

#[test]
fn requests_keep_the_terms_that_they_were_made_with() {
    let mut glossary = glossary(vec![entry(
        "アリス",
        Some("Alice"),
        GlossaryKind::Person,
        true,
    )]);
    let request = Request::default().with_terminology(terminology_from_glossary(&glossary));
    glossary.entries[0].translation = Some("Alicia".to_owned());
    assert_eq!(request.terminology[0].translation, "Alice");
    assert!(matches!(request.scope, Scope::Project));
}

fn page(n: u128) -> EntityId {
    EntityId(n)
}

fn running() -> Execution {
    Execution::new(
        ProjectId(1),
        Revision(5),
        &vec![page(1), page(2)],
        &vec![Stage::Ocr],
        &None,
    )
    .unwrap()
}

#[test]
fn a_stop_is_a_success_with_what_was_done() {
    let report = running().finalize(true).unwrap();
    assert_eq!(report.status, RunStatus::Stopped);
    assert_eq!(report.completed, 0);

    let mut run = running();
    assert!(run.may_start(false));
    assert!(!run.may_start(true));
    run.started(Stage::Ocr);
    let step = run.on_completion(Stage::Ocr, Ok(StageOutcome::Patch), false);
    assert!(matches!(step, CompletionStep::Commit));
    run.on_commit(ProjectId(1), Revision(6)).unwrap();
    run.mark_complete();
    let report = run.finalize(true).unwrap();
    assert_eq!(report.status, RunStatus::Stopped);
    assert_eq!(report.completed, 1);
    assert_eq!(report.base, Revision(5));
    assert_eq!(report.final_revision, Revision(6));
}

#[test]
fn a_run_completes_page_by_page() {
    let mut run = running();
    for next in [6, 7] {
        run.started(Stage::Ocr);
        let step = run.on_completion(Stage::Ocr, Ok(StageOutcome::Patch), false);
        assert!(matches!(step, CompletionStep::Commit));
        run.on_commit(ProjectId(1), Revision(next)).unwrap();
        run.mark_complete();
    }
    let report = run.finalize(false).unwrap();
    assert_eq!(report.status, RunStatus::Completed);
    assert_eq!((report.completed, report.total), (2, 2));
}

#[test]
fn failures_stop_a_run() {
    let mut run = running();
    run.started(Stage::Ocr);
    let error = stage_error(
        Stage::Ocr,
        "paddle",
        ErrorKind::Processing,
        chain(vec![said("broken")]),
    );
    let step = run.on_completion(Stage::Ocr, Err(error), false);
    assert!(matches!(step, CompletionStep::Ignore));
    assert!(!run.may_start(false));
    match run.finalize(false) {
        Err(failure) => {
            assert_eq!(failure.kind(), (ErrorKind::Processing, Some(Stage::Ocr)));
            assert!(matches!(failure, RunFailure::Stage(_)));
        }
        Ok(_) => panic!("failed"),
    }
    match running().finalize(false) {
        Err(RunFailure::Incomplete { completed, total }) => assert_eq!((completed, total), (0, 2)),
        _ => panic!("incomplete"),
    }
}

#[test]
fn commits_have_to_advance_the_same_project() {
    let mut run = running();
    assert!(matches!(
        run.on_commit(ProjectId(2), Revision(6)),
        Err(CommitFault::OtherProject)
    ));
    assert!(matches!(
        run.on_commit(ProjectId(1), Revision(5)),
        Err(CommitFault::RevisionDidNotAdvance)
    ));
}

#[test]
fn masks_belong_to_inpainting_on_their_page() {
    let mask = Some(InpaintingMask {
        page: page(2),
        png: vec![1],
    });
    assert!(Execution::mask_for(&mask, Stage::Inpainting, page(2)).is_some());
    assert!(Execution::mask_for(&mask, Stage::Inpainting, page(1)).is_none());
    assert!(Execution::mask_for(&mask, Stage::Ocr, page(2)).is_none());
    let refused = Execution::new(
        ProjectId(1),
        Revision(5),
        &vec![page(1)],
        &vec![Stage::Inpainting],
        &mask,
    );
    assert!(matches!(refused, Err(InputFault::MaskOutsideScope)));
}

#[test]
fn stages_recover_from_a_full_memory_once() {
    let full = || chain(vec![said("out of memory")]);
    let mut attempt = StageAttempt::new();
    let begin = attempt.next(Stage::Ocr, "m", StageEvent::Begin { stopped: false });
    assert!(matches!(begin, StageAction::CheckSkip));
    let go = attempt.next(Stage::Ocr, "m", StageEvent::SkipChecked { skip: Ok(false) });
    assert!(matches!(go, StageAction::Acquire));
    let load = attempt.next(Stage::Ocr, "m", StageEvent::Acquired { stopped: false });
    assert!(matches!(load, StageAction::Load));
    let failed = StageEvent::LoadFailed {
        error: full(),
        stopped: false,
    };
    assert!(matches!(
        attempt.next(Stage::Ocr, "m", failed),
        StageAction::Recover
    ));
    let again = attempt.next(Stage::Ocr, "m", StageEvent::Recovered { stopped: false });
    assert!(matches!(again, StageAction::Load));
    let process = attempt.next(Stage::Ocr, "m", StageEvent::Loaded { stopped: false });
    assert!(matches!(process, StageAction::Process));
    let failed = StageEvent::ProcessFailed {
        error: full(),
        stopped: false,
    };
    match attempt.next(Stage::Ocr, "m", failed) {
        StageAction::Fail(error) => {
            assert_eq!(error.kind, ErrorKind::Processing);
            assert_eq!(error.stage, Some(Stage::Ocr));
        }
        _ => panic!("failed"),
    }
}

#[test]
fn stages_are_skipped_and_stopped() {
    let mut attempt = StageAttempt::new();
    assert!(matches!(
        attempt.next(Stage::Ocr, "m", StageEvent::Begin { stopped: true }),
        StageAction::Done(StageOutcome::Stopped)
    ));
    assert!(matches!(
        attempt.next(Stage::Ocr, "m", StageEvent::SkipChecked { skip: Ok(true) }),
        StageAction::Done(StageOutcome::Skipped)
    ));
    assert!(matches!(
        attempt.next(Stage::Ocr, "m", StageEvent::Processed { empty: false }),
        StageAction::Done(StageOutcome::Patch)
    ));
}

#[test]
fn texts_of_users_are_not_translated_over() {
    let layer = |n: u128, in_scope: bool, source: Option<&str>| PageLayer {
        content: page(n),
        in_scope,
        source: source.map(str::to_owned),
    };
    let found = targets(vec![
        layer(1, true, Some("一")),
        layer(2, false, Some("二")),
        layer(3, true, None),
        layer(4, true, Some("四")),
    ]);
    assert_eq!(
        found
            .iter()
            .map(|target| target.content)
            .collect::<Vec<_>>(),
        vec![page(1), page(4)]
    );
    let request = build_translation_request(&found, "en".to_owned(), None, Vec::new());
    assert_eq!(request.segments, vec!["一", "四"]);
    assert_eq!(request.target_language, "en");
    let kept = keep_translations(
        &found,
        vec!["one".to_owned(), "four".to_owned()],
        &vec![true, false],
    );
    assert_eq!(kept.len(), 1);
    assert_eq!(kept[0].content, page(4));
    assert_eq!(kept[0].text, "four");
}

#[test]
fn faults_of_runs_have_their_words() {
    assert_eq!(
        InputFault::MaskOutsideScope.message(),
        "the inpainting mask page is outside the inpainting scope"
    );
    assert_eq!(
        CommitFault::OtherProject.message(),
        "committer returned a snapshot from another project"
    );
    assert_eq!(
        CommitFault::RevisionDidNotAdvance.message(),
        "committer did not advance the scene revision"
    );
    assert_eq!(
        koharu::pipeline::request::NoStage.message(),
        "at least one pipeline stage must be selected"
    );
}
