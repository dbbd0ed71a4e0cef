use koharu::bulk_review::batch::{
    accept_review, prepare_batch, review_prompt, PrepareFault, PreparedBatch,
};
use koharu::bulk_review::hints::{lowered_words_repeat, quality_hints};
use koharu::bulk_review::job::{is_context_error, FailureStep, PageJob, StartFault};
use koharu::bulk_review::memory::{MemoryUpdate, TranslationMemory};
use koharu::bulk_review::metrics::{BatchMetrics, JobMetrics};
use koharu::bulk_review::plan::{
    estimate_text_size, plan_text_batches, summaries_from_bulk, BulkElement, BulkPage,
    PageTextSummary, SummaryFault,
};
use koharu::bulk_review::request::{
    batch_call_id, batch_metrics, job_report, page_job_tool, review_request,
    review_response_schema, session_key,
};
use koharu::bulk_review::validate::{
    fault_message, validate_review_response, ChangeFault, ReviewFault, ReviewResponse,
    TranslationChange,
};
use koharu::codex::model::{lowest_reasoning, CodexModel, Reasoning};
use koharu::codex::protocol::message;
use koharu::codex::stream::Usage;
use koharu::json::Json;
use koharu::text_map::TextMap;

fn update(key: &str, value: &str) -> MemoryUpdate {
    MemoryUpdate {
        key: key.to_owned(),
        value: value.to_owned(),
    }
}

fn change(element: &str, translation: &str) -> TranslationChange {
    TranslationChange {
        element: element.to_owned(),
        translation: translation.to_owned(),
    }
}

fn elements(pairs: &[(&str, &str)]) -> TextMap<String> {
    let mut map = TextMap::new();
    for (element, page) in pairs {
        map = map.with(element.to_string(), page.to_string());
    }
    map
}

fn bulk_page(id: &str, source: &str, translation: Option<&str>) -> BulkPage {
    BulkPage {
        id: Some(id.to_owned()),
        label: Some(format!("Page {id}")),
        elements: vec![BulkElement {
            id: Some(format!("{id}e1")),
            source: Some(source.to_owned()),
            translation: translation.map(str::to_owned),
        }],
    }
}

fn pages_of(ids: &[&str], chars: usize) -> Option<Vec<BulkPage>> {
    Some(
        ids.iter()
            .map(|id| bulk_page(id, &"s".repeat(chars), None))
            .collect(),
    )
}

fn names(ids: &[&str]) -> Vec<String> {
    ids.iter().map(|id| id.to_string()).collect()
}

fn no_metrics() -> BatchMetrics {
    BatchMetrics {
        batch_index: 0,
        page_count: 1,
        element_count: 1,
        hints_count: 0,
        source_chars: 0,
        translation_chars: 0,
        payload_bytes: 0,
        model_requests: 1,
        response_bytes: 0,
        changes_applied: 0,
        elapsed_ms: 5,
        input_tokens: Some(10),
        cached_input_tokens: None,
        output_tokens: Some(2),
        reasoning_tokens: None,
    }
}

fn text_of(value: Option<&Json>) -> Option<String> {
    value.and_then(|value| value.as_str()).map(str::to_owned)
}

#[test]
fn translation_memory_applies_updates_and_replaces() {
    let memory = TranslationMemory::new()
        .apply_updates(vec![update("Kimura", "keep Kimura"), update("RH", "人事部")])
        .apply_updates(vec![update("RH", "shachou")]);
    let serialized = memory.serialize();
    assert!(serialized.contains("Kimura: keep Kimura"));
    assert!(serialized.contains("RH: shachou"));
    assert!(!serialized.contains("人事部"));
}

#[test]
fn translation_memory_enforces_size_limit() {
    let memory = TranslationMemory::new().apply_updates(vec![
        update("a", &"x".repeat(1000)),
        update("b", &"y".repeat(1000)),
        update("c", &"z".repeat(1000)),
    ]);
    let bounded = memory.bounded(2000);
    assert!(bounded.serialize().len() <= 2000);
    assert!(!bounded.is_empty());
}

#[test]
fn translation_memory_is_utf8_safe() {
    let memory =
        TranslationMemory::new().apply_updates(vec![update("cadena", &"ßé雨🐱".repeat(500))]);
    let bounded = memory.bounded(300);
    assert!(bounded.serialize().len() <= 300);
    assert!(String::from_utf8(bounded.serialize().into_bytes()).is_ok());
}

#[test]
fn memory_is_listed_by_key() {
    let memory = TranslationMemory::new()
        .apply_updates(vec![update("b", "two"), update("a", "one"), update("c", "x")]);
    assert_eq!(memory.serialize(), memory.copy().serialize());
    let lines: Vec<String> = memory.serialize().lines().map(str::to_owned).collect();
    assert_eq!(lines.len(), 3);
    assert!(lines[0].contains("a: one"));
    assert!(lines[1].contains("b: two"));
    assert!(lines[2].contains("c: x"));
}

#[test]
fn text_batch_planner_groups_pages_under_budget() {
    let small = || PageTextSummary {
        element_count: 10,
        source_chars: 500,
        translation_chars: 600,
    };
    let big = PageTextSummary {
        element_count: 50,
        source_chars: 19_000,
        translation_chars: 19_000,
    };
    let summaries = TextMap::new()
        .with("p1".to_owned(), small())
        .with("p2".to_owned(), small())
        .with("p3".to_owned(), big);
    let batches = plan_text_batches(names(&["p1", "p2", "p3"]), &summaries);
    assert_eq!(batches.len(), 2);
    assert_eq!(batches[0], vec!["p1", "p2"]);
    assert_eq!(batches[1], vec!["p3"]);
}

#[test]
fn text_planner_removes_duplicates_and_preserves_order() {
    let summaries = TextMap::new().with(
        "p1".to_owned(),
        PageTextSummary {
            element_count: 5,
            source_chars: 100,
            translation_chars: 120,
        },
    );
    let batches = plan_text_batches(names(&["p1", "p1", "p2", "p1"]), &summaries);
    assert_eq!(batches.len(), 1);
    assert_eq!(batches[0], vec!["p1", "p2"]);
}

#[test]
fn sizes_count_the_structure_of_each_element() {
    let summary = PageTextSummary {
        element_count: 3,
        source_chars: 10,
        translation_chars: 20,
    };
    assert_eq!(estimate_text_size(&summary), 10 + 20 + 3 * 64);
}

#[test]
fn summaries_from_bulk_measure_real_text() {
    let element = |id: &str, source: &str, translation: &str| BulkElement {
        id: Some(id.to_owned()),
        source: Some(source.to_owned()),
        translation: Some(translation.to_owned()),
    };
    let data = Some(vec![
        BulkPage {
            id: Some("p1".to_owned()),
            label: None,
            elements: vec![element("e1", "你好", "hello"), element("e2", "世界", "bye")],
        },
        BulkPage {
            id: Some("p2".to_owned()),
            label: None,
            elements: vec![],
        },
    ]);
    let summaries = summaries_from_bulk(&data).unwrap();
    let p1 = summaries.get("p1").unwrap();
    assert_eq!(p1.element_count, 2);
    assert_eq!(p1.source_chars, 4);
    assert_eq!(p1.translation_chars, 8);
    assert_eq!(summaries.get("p2").unwrap().element_count, 0);
}

#[test]
fn summaries_need_pages_with_names() {
    assert!(matches!(
        summaries_from_bulk(&None),
        Err(SummaryFault::MissingPages)
    ));
    let mut pages = pages_of(&["p1", "p2"], 3).unwrap();
    pages[1].id = None;
    assert!(matches!(
        summaries_from_bulk(&Some(pages)),
        Err(SummaryFault::MissingId(1))
    ));
}

#[test]
fn validates_response_structure() {
    let response = ReviewResponse {
        changes: vec![change("e1", "revised"), change("e2", "fixed")],
        memory_updates: vec![],
    };
    let target_pages = names(&["p1"]);
    let element_to_page = elements(&[("e1", "p1"), ("e2", "p1")]);
    assert!(validate_review_response(&response, &target_pages, &element_to_page).is_ok());
}

#[test]
fn rejects_element_outside_batch() {
    let response = ReviewResponse {
        changes: vec![change("e_other", "bad")],
        memory_updates: vec![],
    };
    let target_pages = names(&["p1"]);
    let element_to_page = elements(&[("e_other", "p99")]);
    assert!(validate_review_response(&response, &target_pages, &element_to_page).is_err());
}

#[test]
fn rejects_unknown_or_duplicate_or_empty_changes() {
    let target_pages = names(&["p1"]);
    let element_to_page = elements(&[("e1", "p1")]);
    let unknown = ReviewResponse {
        changes: vec![change("ghost", "x")],
        memory_updates: vec![],
    };
    assert!(validate_review_response(&unknown, &target_pages, &element_to_page).is_err());
    let duplicate = ReviewResponse {
        changes: vec![change("e1", "first"), change("e1", "second")],
        memory_updates: vec![],
    };
    assert!(validate_review_response(&duplicate, &target_pages, &element_to_page).is_err());
    let empty = ReviewResponse {
        changes: vec![change("e1", "   ")],
        memory_updates: vec![],
    };
    assert!(validate_review_response(&empty, &target_pages, &element_to_page).is_err());
}

#[test]
fn rejects_excessive_changes_and_bad_memory() {
    let target_pages = names(&["p1"]);
    let element_to_page = elements(&[("e1", "p1")]);
    let too_many = ReviewResponse {
        changes: vec![change("e1", "a"), change("e2", "b")],
        memory_updates: vec![],
    };
    assert!(validate_review_response(&too_many, &target_pages, &element_to_page).is_err());
    let bad_memory = ReviewResponse {
        changes: vec![],
        memory_updates: vec![update("k", "")],
    };
    assert!(validate_review_response(&bad_memory, &target_pages, &element_to_page).is_err());
}

#[test]
fn each_fault_of_a_review_is_named() {
    let target_pages = names(&["p1"]);
    let known = elements(&[("e1", "p1"), ("e2", "p2"), ("e3", "p1")]);
    let fault = |changes: Vec<TranslationChange>, memory_updates: Vec<MemoryUpdate>| {
        let response = ReviewResponse {
            changes,
            memory_updates,
        };
        validate_review_response(&response, &target_pages, &known)
    };
    assert!(matches!(
        fault(vec![change(" ", "x")], vec![]),
        Err(ReviewFault::Change {
            index: 0,
            fault: ChangeFault::EmptyElement
        })
    ));
    assert!(matches!(
        fault(vec![change("e1", "x"), change("e9", "x")], vec![]),
        Err(ReviewFault::Change {
            index: 1,
            fault: ChangeFault::UnknownElement
        })
    ));
    assert!(matches!(
        fault(vec![change("e2", "x")], vec![]),
        Err(ReviewFault::Change {
            index: 0,
            fault: ChangeFault::OutsideBatch
        })
    ));
    assert!(matches!(
        fault(vec![change("e1", "x"), change("e1", "y")], vec![]),
        Err(ReviewFault::Change {
            index: 1,
            fault: ChangeFault::Duplicate
        })
    ));
    assert!(matches!(
        fault(vec![change("e1", " ")], vec![]),
        Err(ReviewFault::Change {
            index: 0,
            fault: ChangeFault::EmptyTranslation
        })
    ));
    assert!(matches!(
        fault(vec![change("e1", &"é".repeat(8193))], vec![]),
        Err(ReviewFault::Change {
            index: 0,
            fault: ChangeFault::LongTranslation
        })
    ));
    assert!(fault(vec![change("e1", &"é".repeat(8192))], vec![]).is_ok());
    let many: Vec<MemoryUpdate> = (0..65).map(|n| update(&format!("k{n}"), "v")).collect();
    assert!(matches!(
        fault(vec![], many),
        Err(ReviewFault::TooManyMemoryUpdates)
    ));
    assert!(matches!(
        fault(vec![], vec![update(" ", "v")]),
        Err(ReviewFault::EmptyMemoryUpdate)
    ));
    let response = ReviewResponse {
        changes: vec![change("ghost", "x")],
        memory_updates: vec![],
    };
    let fault = validate_review_response(&response, &target_pages, &known).unwrap_err();
    assert!(fault_message(&response, &known, fault).contains("ghost"));
}

#[test]
fn lowest_reasoning_prefers_low_when_supported() {
    let model = CodexModel {
        id: "a".to_owned(),
        name: "a".to_owned(),
        reasoning: vec![Reasoning::Medium, Reasoning::High, Reasoning::Low],
    };
    assert_eq!(lowest_reasoning(&model), Reasoning::Low);
    let model = CodexModel {
        id: "b".to_owned(),
        name: "b".to_owned(),
        reasoning: vec![Reasoning::Medium, Reasoning::High],
    };
    assert_eq!(lowest_reasoning(&model), Reasoning::Medium);
    let model = CodexModel {
        id: "c".to_owned(),
        name: "c".to_owned(),
        reasoning: vec![],
    };
    assert_eq!(lowest_reasoning(&model), Reasoning::Low);
}

#[test]
fn quality_hints_flag_ocr_and_cjk_noise() {
    let orphan = quality_hints("src", Some("Me dá aquilo! M"));
    assert!(orphan.contains(&"possible_orphan_character"));
    assert_eq!(orphan.len(), 1);

    let cjk = quality_hints("src", Some("Olá, 世界!"));
    assert!(cjk.contains(&"untranslated_cjk"));
    assert!(!cjk.contains(&"possible_orphan_character"));

    let mixed = quality_hints("src", Some("Brasil東京"));
    assert!(mixed.contains(&"untranslated_cjk"));
    assert!(mixed.contains(&"suspicious_mixed_script"));

    let repeated = quality_hints("src", Some("Vamos ver vamos ver."));
    assert!(repeated.contains(&"repeated_fragment"));

    assert!(quality_hints("src", Some("Oi!!")).contains(&"suspicious_punctuation"));
    assert!(quality_hints("src", Some("sério,,")).contains(&"suspicious_punctuation"));
}

#[test]
fn quality_hints_do_not_flag_legitimate_portuguese() {
    assert!(quality_hints("src", Some("Este texto está correto.")).is_empty());
    assert!(quality_hints("src", Some("Olha essa cena! É")).is_empty());
    assert!(quality_hints("src", Some("Permaneceu calado. Sim!Muito calado")).is_empty());
    assert!(quality_hints("src", Some("Foi ontem à noite! K.")).is_empty());
    assert!(quality_hints("src", Some("— J. saiu correndo.")).is_empty());
    assert!(quality_hints("src", Some("Muito muito legal.")).is_empty());
    assert!(quality_hints("src", Some("Cer...? E depois!")).is_empty());
    assert!(quality_hints("src", None).is_empty());
    assert!(quality_hints("src", Some("")).is_empty());
}

#[test]
fn quality_hints_skip_attached_cases_and_single_cjk() {
    let attached = quality_hints("src", Some("Sim!Muito"));
    assert!(attached.is_empty());

    let cjk_end = quality_hints("src", Some("Vamos! 死"));
    assert!(cjk_end.contains(&"untranslated_cjk"));
    assert!(!cjk_end.contains(&"possible_orphan_character"));

    let ellipsis = quality_hints("src", Some("Ela disse... né!"));
    assert!(!ellipsis.contains(&"suspicious_punctuation"));

    let interjection = quality_hints("src", Some("Foi mesmo!?"));
    assert!(!interjection.contains(&"suspicious_punctuation"));
}

#[test]
fn repetition_is_seen_in_any_case_of_letters() {
    assert!(quality_hints("src", Some("ÉRAMOS NÓS éramos nós")).contains(&"repeated_fragment"));
}

#[test]
fn schema_is_strict_compatible() {
    let schema = review_response_schema();
    let required: Vec<String> = schema
        .get("required")
        .unwrap()
        .as_array()
        .unwrap()
        .iter()
        .filter_map(|name| name.as_str().map(str::to_owned))
        .collect();
    assert_eq!(required, vec!["changes", "memory_updates"]);
    assert!(matches!(
        schema.get("additionalProperties"),
        Some(Json::Bool(false))
    ));
    let properties = match schema.get("properties") {
        Some(Json::Object(members)) => members,
        _ => panic!("properties"),
    };
    assert_eq!(properties.len(), 2);
    for property in properties {
        if let Some(items) = property.value.get("items") {
            assert!(matches!(
                items.get("additionalProperties"),
                Some(Json::Bool(false))
            ));
        }
    }
}

#[test]
fn delta_is_produced_by_protocol_message() {
    let message = message("user", "hello");
    assert_eq!(message.get_str("role"), Some("user"));
    let content = message.get("content").unwrap().as_array().unwrap();
    assert!(content[0].get_str("text").is_some());
    assert_eq!(content[0].get_str("text"), Some("hello"));
}

fn batch_of(ids: &[&str]) -> PreparedBatch {
    let pages: Vec<BulkPage> = ids
        .iter()
        .map(|id| bulk_page(id, "ちょうどいい", Some("Perfeito! M")))
        .collect();
    match prepare_batch(&Some(pages)) {
        Ok(batch) => batch,
        Err(_) => panic!("prepared"),
    }
}

#[test]
fn a_batch_carries_pages_and_hints() {
    let batch = batch_of(&["p1"]);
    assert_eq!(batch.hints_count, 1);
    assert_eq!(batch.element_count, 1);
    assert_eq!(batch.source_chars, 6);
    assert_eq!(batch.translation_chars, 11);
    assert_eq!(batch.target_pages, vec!["p1"]);
    assert_eq!(batch.pages[0].elements[0].id, "p1e1");
    assert_eq!(
        batch.pages[0].elements[0].quality_hints,
        vec!["possible_orphan_character"]
    );
    assert_eq!(batch.element_to_page.get("p1e1").unwrap(), "p1");
    assert!(matches!(
        prepare_batch(&None),
        Err(PrepareFault::InvalidShape)
    ));
    let mut page = bulk_page("p1", "s", None);
    page.id = None;
    assert!(matches!(
        prepare_batch(&Some(vec![page])),
        Err(PrepareFault::MissingId(0))
    ));
}

#[test]
fn prompts_hold_the_memory_and_the_pages() {
    let prompt = review_prompt(
        "keep names",
        &names(&["p1", "p2"]),
        &TranslationMemory::new(),
        "[{\"id\":\"p1e1\"}]",
    );
    assert!(prompt.contains("(none)"));
    assert!(prompt.contains("keep names"));
    assert!(prompt.contains("[{\"id\":\"p1e1\"}]"));
    let memory = TranslationMemory::new().apply_updates(vec![update("Terra", "Terra")]);
    let prompt = review_prompt("", &names(&["p3"]), &memory, "[]");
    assert!(prompt.contains("Terra: Terra"));
    assert!(!prompt.contains("(none)"));
}

#[test]
fn an_accepted_review_updates_the_memory() {
    let batch = batch_of(&["p1"]);
    let response = ReviewResponse {
        changes: vec![change("p1e1", "mudou")],
        memory_updates: vec![update("Terra", "Terra")],
    };
    let accepted = match accept_review(response, &batch, &TranslationMemory::new()) {
        Ok(accepted) => accepted,
        Err(_) => panic!("accepted"),
    };
    assert_eq!(accepted.updates.len(), 1);
    assert_eq!(accepted.updates[0].element, "p1e1");
    assert!(accepted.memory.serialize().contains("Terra: Terra"));
}

#[test]
fn a_refused_review_applies_nothing() {
    let batch = batch_of(&["p1"]);
    let response = ReviewResponse {
        changes: vec![change("ghost", "nope")],
        memory_updates: vec![update("Terra", "Terra")],
    };
    match accept_review(response, &batch, &TranslationMemory::new()) {
        Ok(_) => panic!("refused"),
        Err((fault, _)) => assert!(matches!(
            fault,
            ReviewFault::Change {
                index: 0,
                fault: ChangeFault::UnknownElement
            }
        )),
    }
}

#[test]
fn one_successful_batch_is_one_request() {
    let ids = ["p1", "p2", "p3"];
    let mut job = match PageJob::start(names(&ids), &pages_of(&ids, 30)) {
        Ok(job) => job,
        Err(_) => panic!("started"),
    };
    assert_eq!(job.total, 3);
    assert!(job.next().is_some());
    assert_eq!(job.running, Some(names(&ids)));
    job.on_success(true, TranslationMemory::new(), &no_metrics());
    assert!(job.next().is_none());
    assert!(job.changed);
    assert_eq!(job.completed, names(&ids));
    assert!(job.failed.is_empty());
}

#[test]
fn large_pages_are_reviewed_two_by_two() {
    let ids = ["p1", "p2", "p3", "p4", "p5", "p6"];
    let mut job = match PageJob::start(names(&ids), &pages_of(&ids, 8900)) {
        Ok(job) => job,
        Err(_) => panic!("started"),
    };
    let mut batches: Vec<Vec<String>> = Vec::new();
    while job.next().is_some() {
        batches.push(job.running.clone().unwrap());
        job.on_success(false, TranslationMemory::new(), &no_metrics());
    }
    assert_eq!(batches.len(), 3);
    assert_eq!(batches[0], vec!["p1", "p2"]);
    assert_eq!(batches[2], vec!["p5", "p6"]);
    assert!(!job.changed);
    assert_eq!(job.completed, names(&ids));
}

#[test]
fn context_overflow_halves_a_batch_in_order() {
    let ids = ["p1", "p2", "p3", "p4"];
    let mut job = match PageJob::start(names(&ids), &pages_of(&ids, 50)) {
        Ok(job) => job,
        Err(_) => panic!("started"),
    };
    assert!(job.next().is_some());
    let step = job.on_failure("your input exceeds the context window of this model", false);
    assert!(matches!(step, FailureStep::Split));
    assert!(job.next().is_some());
    assert_eq!(job.running, Some(names(&["p1", "p2"])));
    job.on_success(true, TranslationMemory::new(), &no_metrics());
    assert!(job.next().is_some());
    assert_eq!(job.running, Some(names(&["p3", "p4"])));
    job.on_success(true, TranslationMemory::new(), &no_metrics());
    assert!(job.next().is_none());
    assert_eq!(job.completed, names(&ids));
}

#[test]
fn other_failures_skip_the_batch_and_cancelling_ends_the_job() {
    let ids = ["p1", "p2"];
    let mut job = match PageJob::start(names(&ids), &pages_of(&ids, 50)) {
        Ok(job) => job,
        Err(_) => panic!("started"),
    };
    assert!(job.next().is_some());
    assert!(matches!(
        job.on_failure("the service is down", false),
        FailureStep::Skip
    ));
    assert_eq!(job.failed.len(), 2);
    assert_eq!(job.failed[0].page, "p1");
    assert_eq!(job.failed[0].error, "the service is down");
    assert!(job.next().is_none());

    let mut job = match PageJob::start(names(&ids), &pages_of(&ids, 50)) {
        Ok(job) => job,
        Err(_) => panic!("started"),
    };
    assert!(job.next().is_some());
    assert!(matches!(
        job.on_failure("stopped", true),
        FailureStep::Abort
    ));
}

#[test]
fn a_lone_page_is_not_halved() {
    let mut job = match PageJob::start(names(&["p1"]), &pages_of(&["p1"], 50)) {
        Ok(job) => job,
        Err(_) => panic!("started"),
    };
    assert!(job.next().is_some());
    assert!(matches!(
        job.on_failure("maximum context length exceeded", false),
        FailureStep::Skip
    ));
    assert_eq!(job.failed.len(), 1);
}

#[test]
fn context_errors_are_told_by_their_words() {
    assert!(is_context_error(
        "Your input EXCEEDS the context window of this model"
    ));
    assert!(!is_context_error("connection reset by peer"));
}

#[test]
fn jobs_need_known_pages() {
    assert!(matches!(
        PageJob::start(vec![], &pages_of(&["p1"], 5)),
        Err(StartFault::NoPages)
    ));
    assert!(matches!(
        PageJob::start(names(&["p1", "p9"]), &pages_of(&["p1"], 5)),
        Err(StartFault::UnknownPage(1))
    ));
    assert!(matches!(
        PageJob::start(names(&["p1"]), &None),
        Err(StartFault::Unmeasured(_))
    ));
}

#[test]
fn metrics_add_up() {
    let mut total = JobMetrics::new();
    total.add_batch(&no_metrics());
    total.add_batch(&no_metrics());
    assert_eq!(total.total_batches, 2);
    assert_eq!(total.total_elements, 2);
    assert_eq!(total.total_input_tokens, 20);
    assert_eq!(total.total_output_tokens, 4);
    assert_eq!(total.total_elapsed_ms, 10);
    assert!(!no_metrics().log_summary().is_empty());
}

#[test]
fn requests_and_reports_are_wired() {
    let model = CodexModel {
        id: "codex".to_owned(),
        name: "Codex".to_owned(),
        reasoning: vec![Reasoning::High, Reasoning::Low],
    };
    let request = review_request(&model, "session", "prompt");
    assert_eq!(request.model, "codex");
    assert_eq!(request.reasoning.effort, "low");
    assert!(request.text.format.is_some());
    assert_eq!(request.prompt_cache_key, "session");
    assert!(session_key("call").contains("call"));
    assert_ne!(batch_call_id("call", 1), batch_call_id("call", 2));
    let tool = page_job_tool();
    assert!(!tool.name.is_empty());

    let batch = batch_of(&["p1"]);
    let metrics = batch_metrics(
        2,
        1,
        &batch,
        1,
        100,
        50,
        3,
        7,
        Some(Usage {
            input_tokens: 11,
            cached_input_tokens: 1,
            output_tokens: 5,
            reasoning_tokens: 4,
        }),
    );
    assert_eq!(metrics.batch_index, 2);
    assert_eq!(metrics.hints_count, 1);
    assert_eq!(metrics.input_tokens, Some(11));
    assert_eq!(metrics.changes_applied, 3);

    let mut job = match PageJob::start(names(&["p1"]), &pages_of(&["p1"], 5)) {
        Ok(job) => job,
        Err(_) => panic!("started"),
    };
    assert!(job.next().is_some());
    let memory = TranslationMemory::new().apply_updates(vec![update("Terra", "Terra")]);
    job.on_success(true, memory, &metrics);
    let report = job_report(&job);
    assert!(text_of(report.get("memory")).unwrap().contains("Terra: Terra"));
    let counted = report.get("metrics").unwrap();
    assert_eq!(counted.get_count("hints"), Some(1));
}

#[test]
fn line_breaks_count_toward_the_limit() {
    let memory = || TranslationMemory::new().apply_updates(vec![update("a", "b"), update("c", "d")]);
    assert_eq!(memory().serialize(), "a: b\nc: d");
    assert_eq!(memory().bounded(9).serialize(), "a: b\nc: d");
    assert_eq!(memory().bounded(8).serialize(), "a: b");
    assert_eq!(memory().bounded(3).serialize(), "");
}

#[test]
fn updates_are_cut_to_the_limit() {
    let memory = TranslationMemory::new()
        .apply_updates(vec![update("a", &"x".repeat(5000)), update("b", "kept")]);
    assert_eq!(memory.serialize(), "b: kept");
    let full = TranslationMemory::new()
        .apply_updates(vec![update("a", &"x".repeat(4093)), update("b", "y")]);
    assert_eq!(full.serialize().len(), 4096);
}

#[test]
fn lowered_words_are_stripped_before_they_are_compared() {
    assert!(lowered_words_repeat(&names(&["vamos", "ver", "vamos", "ver."])));
    assert!(!lowered_words_repeat(&names(&["vamos", "ver", "vamos"])));
    assert!(lowered_words_repeat(&names(&[
        "supercalifragil,",
        "supercalifragil"
    ])));
}

#[test]
fn done_and_failed_pages_keep_the_order_of_the_job() {
    let ids = ["p3", "p1", "p4", "p2"];
    let mut job = match PageJob::start(names(&ids), &pages_of(&ids, 50)) {
        Ok(job) => job,
        Err(_) => panic!("started"),
    };
    assert!(job.next().is_some());
    job.on_failure("maximum context length exceeded", false);
    assert!(job.next().is_some());
    job.on_failure("the service is down", false);
    assert!(job.next().is_some());
    job.on_success(true, TranslationMemory::new(), &no_metrics());
    assert!(job.next().is_none());
    assert_eq!(job.completed, names(&["p4", "p2"]));
    let failed: Vec<&str> = job.failed.iter().map(|failed| failed.page.as_str()).collect();
    assert_eq!(failed, ["p3", "p1"]);
}

#[test]
fn updates_in_a_row_are_updates_in_one() {
    let first = || vec![update("a", "1"), update("b", "2"), update("", "lost")];
    let second = || vec![update("a", "3"), update("c", "4")];
    let in_turn = TranslationMemory::new()
        .apply_updates(first())
        .apply_updates(second());
    let mut both = first();
    both.extend(second());
    let at_once = TranslationMemory::new().apply_updates(both);
    assert_eq!(in_turn.serialize(), "a: 3\nb: 2\nc: 4");
    assert_eq!(at_once.serialize(), in_turn.serialize());
}
