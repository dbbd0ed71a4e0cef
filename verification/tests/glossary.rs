use koharu::glossary::edit::{
    add_glossary_entry, apply_term_translations, delete_glossary_entry, glossary_view,
    set_glossary_enabled, update_glossary_entry, EditFault, GlossaryEntryInput,
    TermTranslationResult,
};
use koharu::glossary::exchange::{
    apply_glossary_import, check_exchange, export_glossary, preview_glossary_import, ExchangeFault,
    GlossaryExchange, GlossaryExchangeEntry, GlossaryImportStrategy, ImportFault, LanguageField,
};
use koharu::glossary::files::{glossary_filename, safe_project_filename};
use koharu::glossary::fingerprint::{
    ocr_fingerprint, ocr_source_fingerprint, OcrSourceRecord, PageSource,
};
use koharu::glossary::jobs::{
    add_candidates, collect_sources, example_of, next_scan_step, next_term_step, scan_phase,
    select_terms, term_results, translation_target, verify_scan, CommitFault, ScanAction,
    ScanEvent, ScanOutcome, SelectFault, SourceRecord, TermAction, TermEvent, TermSource,
};
use koharu::glossary::model::{
    Confidence, EntryFault, Glossary, GlossaryEntry, GlossaryEntryId, GlossaryKind,
    GlossaryValueOrigin, ModelFault,
};
use koharu::glossary::scan::{apply_glossary_scan, ScanCandidate};
use koharu::ids::{EntityId, Revision};
use koharu::ner::types::{GlossaryEntity, GlossaryEntityKind};
use koharu::processing::{JobPhase, JobState};

fn sure(value: f32) -> Confidence {
    Confidence(value.to_bits())
}

fn tag(language: &str) -> Option<String> {
    Some(language.to_owned())
}

#[test]
fn scan_outcomes_map_to_terminal_job_states() {
    assert_eq!(ScanOutcome::Finished.job_state(), JobState::Finished);
    assert_eq!(ScanOutcome::Stopped.job_state(), JobState::Stopped);
}

#[test]
fn glossary_export_filename_is_safe() {
    assert_eq!(safe_project_filename("demo"), "demo");
    assert_eq!(safe_project_filename("../bad\r\nname"), "_bad__name");
    assert_eq!(safe_project_filename("..."), "project");
}

#[test]
fn exports_are_named_after_the_project() {
    assert_eq!(glossary_filename("demo"), "demo.glossary.json");
    assert_eq!(glossary_filename(" a:b "), "a_b.glossary.json");
}

fn record(
    page_order: usize,
    content: EntityId,
    language: Option<&str>,
    text: &str,
) -> OcrSourceRecord {
    OcrSourceRecord {
        page_order,
        content,
        source_language: language.map(str::to_owned),
        source_text: text.to_owned(),
    }
}

#[test]
fn fingerprint_is_deterministic_and_order_independent() {
    let first = EntityId(1);
    let second = EntityId(2);
    let records = vec![
        record(1, second, Some("ja"), "二"),
        record(0, first, Some("ja"), "一"),
    ];
    let reversed = vec![
        record(0, first, Some("ja"), "一"),
        record(1, second, Some("ja"), "二"),
    ];

    let fingerprint = ocr_fingerprint(records);
    assert_eq!(fingerprint, ocr_fingerprint(reversed));
    assert_eq!(fingerprint.len(), 64);
    assert!(fingerprint.bytes().all(|byte| byte.is_ascii_hexdigit()));
    assert_eq!(fingerprint, fingerprint.to_ascii_lowercase());
}

#[test]
fn fingerprints_follow_texts_languages_and_order() {
    let source = |n: u128, language: Option<&str>, text: &str| PageSource {
        content: EntityId(n),
        source_language: language.map(str::to_owned),
        source_text: text.to_owned(),
    };
    let pages = || {
        vec![
            vec![source(1, Some("ja"), "一")],
            vec![source(2, Some("ja"), "二")],
        ]
    };
    let first = ocr_source_fingerprint(&pages());
    assert_eq!(first, ocr_source_fingerprint(&pages()));
    let mut swapped = pages();
    swapped.reverse();
    assert_ne!(first, ocr_source_fingerprint(&swapped));
    let mut edited = pages();
    edited[1][0].source_text = "三".to_owned();
    assert_ne!(first, ocr_source_fingerprint(&edited));
    let mut untagged = pages();
    untagged[0][0].source_language = None;
    assert_ne!(first, ocr_source_fingerprint(&untagged));
    assert_eq!(
        ocr_source_fingerprint(&Vec::new()),
        ocr_source_fingerprint(&vec![Vec::new()])
    );
}

fn stored(
    id: u128,
    source: &str,
    translation: Option<&str>,
    kind: GlossaryKind,
    enabled: bool,
    origin: GlossaryValueOrigin,
) -> GlossaryEntry {
    GlossaryEntry {
        id: GlossaryEntryId(id),
        source: source.to_owned(),
        translation: translation.map(str::to_owned),
        kind,
        enabled,
        confidence: Some(sure(0.25)),
        occurrence_count: 7,
        examples: vec!["old example".to_owned()],
        source_origin: origin,
        translation_origin: translation.map(|_| origin),
        present_in_last_scan: true,
    }
}

fn glossary(entries: Vec<GlossaryEntry>) -> Glossary {
    Glossary {
        enabled: true,
        source_language: None,
        target_language: None,
        source_fingerprint: Some("old".to_owned()),
        entries,
    }
}

fn found(glossary: &Glossary, id: u128) -> &GlossaryEntry {
    glossary
        .entries
        .iter()
        .find(|entry| entry.id == GlossaryEntryId(id))
        .unwrap()
}

fn candidate(
    source: &str,
    kind: GlossaryKind,
    confidence: f32,
    example: Option<&str>,
) -> ScanCandidate {
    ScanCandidate {
        source: source.to_owned(),
        kind,
        confidence: sure(confidence),
        example: example.map(str::to_owned),
    }
}

#[test]
fn scan_merge_aggregates_and_preserves_existing_semantics() {
    let before = glossary(vec![
        stored(
            1,
            " Ａlice ",
            Some("Alicia"),
            GlossaryKind::Person,
            false,
            GlossaryValueOrigin::User,
        ),
        stored(
            2,
            "Magic  Sword",
            Some("魔法剣"),
            GlossaryKind::Item,
            false,
            GlossaryValueOrigin::Imported,
        ),
        stored(
            3,
            "Old",
            None,
            GlossaryKind::Term,
            true,
            GlossaryValueOrigin::Detected,
        ),
    ]);
    let after = apply_glossary_scan(
        before,
        Revision(4),
        Revision(4),
        tag("ja"),
        tag("en"),
        "new".to_owned(),
        vec![
            candidate("alice", GlossaryKind::Person, 0.6, Some("first")),
            candidate("ＡLICE", GlossaryKind::Person, 0.9, Some("second")),
            candidate("alice", GlossaryKind::Person, 0.7, Some("first")),
            candidate("ＭＡＧＩＣ sword", GlossaryKind::Item, 0.8, None),
            candidate("ボブ", GlossaryKind::Person, 0.75, Some("ボブさん")),
        ],
    )
    .unwrap();
    assert!(after.enabled);
    assert_eq!(after.source_fingerprint.as_deref(), Some("new"));
    assert_eq!(after.source_language.as_deref(), Some("ja"));
    assert_eq!(after.target_language.as_deref(), Some("en"));
    assert_eq!(after.entries.len(), 4);

    let manual = found(&after, 1);
    assert_eq!(manual.source, " Ａlice ");
    assert!(!manual.enabled);
    assert_eq!(manual.translation.as_deref(), Some("Alicia"));
    assert_eq!(manual.source_origin, GlossaryValueOrigin::User);
    assert_eq!(manual.confidence, Some(sure(0.9)));
    assert_eq!(manual.occurrence_count, 3);
    assert_eq!(manual.examples, ["first", "second"]);
    assert!(manual.present_in_last_scan);

    let imported = found(&after, 2);
    assert_eq!(imported.source, "Magic  Sword");
    assert!(!imported.enabled);
    assert_eq!(imported.source_origin, GlossaryValueOrigin::Imported);
    assert_eq!(imported.occurrence_count, 1);
    assert!(imported.present_in_last_scan);

    let absent = found(&after, 3);
    assert_eq!(absent.confidence, Some(sure(0.25)));
    assert_eq!(absent.occurrence_count, 7);
    assert_eq!(absent.examples, ["old example"]);
    assert!(!absent.present_in_last_scan);

    let added = after
        .entries
        .iter()
        .find(|entry| entry.source == "ボブ")
        .unwrap();
    assert!(added.enabled);
    assert_eq!(added.translation, None);
    assert_eq!(added.translation_origin, None);
    assert_eq!(added.source_origin, GlossaryValueOrigin::Detected);
    assert_eq!(added.confidence, Some(sure(0.75)));
    assert_eq!(added.occurrence_count, 1);
    assert_eq!(added.examples, ["ボブさん"]);
    assert!(added.present_in_last_scan);
}

#[test]
fn translation_results_preserve_concurrent_entry_edits() {
    let mut automatic = stored(
        1,
        "アリス",
        Some("old automatic"),
        GlossaryKind::Person,
        true,
        GlossaryValueOrigin::Detected,
    );
    automatic.translation_origin = Some(GlossaryValueOrigin::Automatic);
    let user = stored(
        2,
        "ボブ",
        Some("custom Bob"),
        GlossaryKind::Person,
        true,
        GlossaryValueOrigin::User,
    );
    let changed = stored(
        3,
        "変更後",
        None,
        GlossaryKind::Term,
        true,
        GlossaryValueOrigin::User,
    );
    let imported = stored(
        4,
        "剣",
        Some("Blade"),
        GlossaryKind::Item,
        true,
        GlossaryValueOrigin::Imported,
    );
    let result = |id: u128, source: &str, translation: &str| TermTranslationResult {
        id: GlossaryEntryId(id),
        source: source.to_owned(),
        translation: translation.to_owned(),
    };
    let after = apply_term_translations(
        glossary(vec![automatic, user, changed, imported]),
        Revision(1),
        Revision(1),
        &vec![
            result(1, "アリス", "Alice"),
            result(2, "ボブ", "Bob"),
            result(3, "変更前", "Changed"),
            result(4, "剣", "Sword"),
            result(9, "削除済み", "Deleted"),
        ],
    )
    .unwrap();
    assert_eq!(found(&after, 1).translation.as_deref(), Some("Alice"));
    assert_eq!(
        found(&after, 1).translation_origin,
        Some(GlossaryValueOrigin::Automatic)
    );
    assert_eq!(found(&after, 2).translation.as_deref(), Some("custom Bob"));
    assert_eq!(
        found(&after, 2).translation_origin,
        Some(GlossaryValueOrigin::User)
    );
    assert_eq!(found(&after, 3).translation, None);
    assert_eq!(found(&after, 4).translation.as_deref(), Some("Blade"));
    assert_eq!(
        found(&after, 4).translation_origin,
        Some(GlossaryValueOrigin::Imported)
    );
}

fn input(source: &str, translation: Option<&str>) -> GlossaryEntryInput {
    GlossaryEntryInput {
        source: source.to_owned(),
        translation: translation.map(str::to_owned),
        kind: GlossaryKind::Person,
        enabled: true,
    }
}

#[test]
fn edits_are_guarded_by_the_revision() {
    let id = GlossaryEntryId(7);
    let stale = add_glossary_entry(
        Glossary::empty(),
        Revision(2),
        Revision(1),
        input("アリス", None),
        id,
    );
    assert!(matches!(
        stale,
        Err(EditFault::StaleRevision {
            expected: Revision(1),
            current: Revision(2)
        })
    ));
    let added = add_glossary_entry(
        Glossary::empty(),
        Revision(1),
        Revision(1),
        input("アリス", Some("Alice")),
        id,
    )
    .unwrap();
    assert_eq!(added.entries.len(), 1);
    assert_eq!(added.entries[0].source_origin, GlossaryValueOrigin::User);

    let updated = update_glossary_entry(
        added,
        Revision(2),
        Revision(2),
        id,
        input("アリス", Some("Alicia")),
    )
    .unwrap();
    assert_eq!(updated.entries[0].translation.as_deref(), Some("Alicia"));
    assert_eq!(
        updated.entries[0].translation_origin,
        Some(GlossaryValueOrigin::User)
    );

    let enabled = set_glossary_enabled(updated, Revision(3), Revision(3), true).unwrap();
    assert!(enabled.enabled);
    let missing = delete_glossary_entry(enabled, Revision(4), Revision(4), GlossaryEntryId(8));
    assert!(matches!(missing, Err(EditFault::NotFound)));

    let again = add_glossary_entry(
        Glossary::empty(),
        Revision(1),
        Revision(1),
        input("アリス", None),
        id,
    )
    .unwrap();
    let deleted = delete_glossary_entry(again, Revision(2), Revision(2), id).unwrap();
    assert!(deleted.entries.is_empty());
}

#[test]
fn edits_keep_a_glossary_valid() {
    let blank = add_glossary_entry(
        Glossary::empty(),
        Revision(1),
        Revision(1),
        input("  ", None),
        GlossaryEntryId(1),
    );
    assert!(matches!(
        blank,
        Err(EditFault::Invalid(ModelFault::Entry {
            index: 0,
            fault: EntryFault::Source
        }))
    ));
    let one = add_glossary_entry(
        Glossary::empty(),
        Revision(1),
        Revision(1),
        input("alice", None),
        GlossaryEntryId(1),
    )
    .unwrap();
    let twice = add_glossary_entry(
        one,
        Revision(2),
        Revision(2),
        input("Ａlice", None),
        GlossaryEntryId(2),
    );
    assert!(matches!(
        twice,
        Err(EditFault::Invalid(ModelFault::DuplicateSource(1)))
    ));
    let twin = glossary(vec![
        stored(
            1,
            "a",
            None,
            GlossaryKind::Term,
            true,
            GlossaryValueOrigin::User,
        ),
        stored(
            1,
            "b",
            None,
            GlossaryKind::Term,
            true,
            GlossaryValueOrigin::User,
        ),
    ]);
    assert!(matches!(twin.validate(), Err(ModelFault::DuplicateId(1))));
}

#[test]
fn each_fault_of_an_entry_is_named() {
    let entry = || {
        stored(
            1,
            "a",
            Some("b"),
            GlossaryKind::Term,
            true,
            GlossaryValueOrigin::User,
        )
    };
    assert!(entry().fault().is_none());
    let mut bad = entry();
    bad.source = "x".repeat(257);
    assert_eq!(bad.fault(), Some(EntryFault::Source));
    let mut bad = entry();
    bad.translation = Some("x".repeat(257));
    assert_eq!(bad.fault(), Some(EntryFault::Translation));
    let mut bad = entry();
    bad.examples = vec!["a".to_owned(), "b".to_owned(), "c".to_owned(), "d".to_owned()];
    assert_eq!(bad.fault(), Some(EntryFault::TooManyExamples));
    let mut bad = entry();
    bad.examples = vec!["x".repeat(513)];
    assert_eq!(bad.fault(), Some(EntryFault::Example));
    let mut bad = entry();
    bad.confidence = Some(sure(1.5));
    assert_eq!(bad.fault(), Some(EntryFault::Confidence));
    assert!(sure(0.0).is_valid());
    assert!(sure(1.0).is_valid());
    assert!(!sure(f32::NAN).is_valid());
    assert!(sure(0.9).exceeds(sure(0.7)));
    assert!(sure(0.7).reaches(sure(0.7)));
}

#[test]
fn views_tell_whether_the_texts_changed() {
    let view = glossary_view(glossary(vec![]), Revision(3), "old".to_owned());
    assert!(!view.stale);
    let view = glossary_view(glossary(vec![]), Revision(3), "new".to_owned());
    assert!(view.stale);
    assert_eq!(view.revision, Revision(3));
    assert!(glossary_view(Glossary::empty(), Revision(1), "x".to_owned()).stale);
}

fn exchanged(
    source: &str,
    translation: &str,
    kind: GlossaryKind,
    enabled: bool,
) -> GlossaryExchangeEntry {
    GlossaryExchangeEntry {
        source: source.to_owned(),
        translation: Some(translation.to_owned()),
        kind,
        enabled,
    }
}

fn import() -> GlossaryExchange {
    GlossaryExchange {
        format: "koharu-glossary".to_owned(),
        version: 1,
        source_language: tag("zh"),
        target_language: tag("fr"),
        entries: vec![
            exchanged("アリス", "Alicia", GlossaryKind::Person, false),
            exchanged("東京", "Tokyo", GlossaryKind::Place, true),
            exchanged("ボブ", "Bob", GlossaryKind::Person, true),
        ],
    }
}

fn saved() -> Glossary {
    let entry = |id: u128, source: &str, translation: &str, kind: GlossaryKind| {
        let mut entry = stored(
            id,
            source,
            Some(translation),
            kind,
            true,
            GlossaryValueOrigin::Detected,
        );
        entry.confidence = Some(sure(0.8));
        entry.occurrence_count = 4;
        entry.examples = vec!["scan example".to_owned()];
        entry.translation_origin = Some(GlossaryValueOrigin::Automatic);
        entry
    };
    Glossary {
        enabled: true,
        source_language: tag("ja"),
        target_language: tag("en"),
        source_fingerprint: Some("saved".to_owned()),
        entries: vec![
            entry(1, "アリス", "Alice", GlossaryKind::Person),
            entry(2, "東京", "Tokyo", GlossaryKind::Place),
        ],
    }
}

#[test]
fn import_preview_and_strategies_require_language_confirmation() {
    let preview = preview_glossary_import(&saved(), &import()).unwrap();
    assert_eq!(preview.added, 1);
    assert_eq!(preview.conflicting, 1);
    assert_eq!(preview.identical, 1);
    assert_eq!(preview.language_mismatches.len(), 2);
    assert_eq!(preview.language_mismatches[0].field, LanguageField::Source);
    assert_eq!(preview.language_mismatches[1].field, LanguageField::Target);

    let apply = |strategy: GlossaryImportStrategy, confirm: bool| {
        apply_glossary_import(
            saved(),
            Revision(1),
            Revision(1),
            import(),
            strategy,
            confirm,
        )
    };
    assert!(matches!(
        apply(GlossaryImportStrategy::KeepExisting, false),
        Err(ImportFault::LanguageMismatch)
    ));

    let kept = apply(GlossaryImportStrategy::KeepExisting, true).unwrap();
    assert_eq!(kept.source_language.as_deref(), Some("ja"));
    assert_eq!(kept.target_language.as_deref(), Some("en"));
    assert_eq!(found(&kept, 1).translation.as_deref(), Some("Alice"));
    assert!(found(&kept, 1).enabled);
    let bob = kept
        .entries
        .iter()
        .find(|entry| entry.source == "ボブ")
        .unwrap();
    assert_eq!(bob.source_origin, GlossaryValueOrigin::Imported);
    assert_eq!(bob.translation_origin, Some(GlossaryValueOrigin::Imported));
    assert_eq!(bob.confidence, None);
    assert_eq!(bob.occurrence_count, 0);
    assert!(bob.examples.is_empty());
    assert!(!bob.present_in_last_scan);

    let replaced = apply(GlossaryImportStrategy::ReplaceExisting, true).unwrap();
    let alice = found(&replaced, 1);
    assert_eq!(alice.translation.as_deref(), Some("Alicia"));
    assert!(!alice.enabled);
    assert_eq!(alice.source_origin, GlossaryValueOrigin::Imported);
    assert_eq!(
        alice.translation_origin,
        Some(GlossaryValueOrigin::Imported)
    );
    assert_eq!(alice.confidence, Some(sure(0.8)));
    assert_eq!(alice.occurrence_count, 4);
    assert_eq!(alice.examples, ["scan example"]);
}

#[test]
fn each_fault_of_an_exchange_is_named() {
    let mut other = import();
    other.format = "glossary".to_owned();
    assert_eq!(check_exchange(&other), Err(ExchangeFault::Format));
    let mut later = import();
    later.version = 2;
    assert_eq!(check_exchange(&later), Err(ExchangeFault::Version));
    let mut twice = import();
    twice
        .entries
        .push(exchanged(" アリス ", "x", GlossaryKind::Person, true));
    assert_eq!(check_exchange(&twice), Err(ExchangeFault::Duplicate(3)));
    let mut blank = import();
    blank.entries[1].source = " ".to_owned();
    assert!(matches!(
        check_exchange(&blank),
        Err(ExchangeFault::Entry {
            index: 1,
            fault: EntryFault::Source
        })
    ));
    let stale = apply_glossary_import(
        saved(),
        Revision(2),
        Revision(1),
        import(),
        GlossaryImportStrategy::KeepExisting,
        true,
    );
    assert!(matches!(stale, Err(ImportFault::StaleRevision { .. })));
}

#[test]
fn exports_hold_what_has_a_meaning() {
    let exported = export_glossary(saved());
    assert_eq!(exported.format, "koharu-glossary");
    assert_eq!(exported.version, 1);
    assert_eq!(exported.source_language.as_deref(), Some("ja"));
    assert_eq!(exported.entries.len(), 2);
    assert_eq!(exported.entries[0].source, "アリス");
    assert_eq!(exported.entries[0].translation.as_deref(), Some("Alice"));
    let preview = preview_glossary_import(&saved(), &exported).unwrap();
    assert_eq!(
        (preview.added, preview.conflicting, preview.identical),
        (0, 0, 2)
    );
    assert!(preview.language_mismatches.is_empty());
}

#[test]
fn scans_commit_last_or_not_at_all() {
    assert!(matches!(
        next_scan_step(ScanEvent::Begin),
        ScanAction::RunOcr
    ));
    let ran = |outcome, stopped| next_scan_step(ScanEvent::OcrRan { outcome, stopped });
    assert!(matches!(
        ran(ScanOutcome::Finished, false),
        ScanAction::ReadSources
    ));
    assert!(matches!(
        ran(ScanOutcome::Stopped, false),
        ScanAction::Done(ScanOutcome::Stopped)
    ));
    assert!(matches!(
        ran(ScanOutcome::Finished, true),
        ScanAction::Done(ScanOutcome::Stopped)
    ));
    let texts = vec!["アリス".to_owned()];
    assert!(matches!(
        next_scan_step(ScanEvent::SourcesRead { texts: &texts }),
        ScanAction::ExtractTerms
    ));
    assert!(matches!(
        next_scan_step(ScanEvent::SourcesRead { texts: &Vec::new() }),
        ScanAction::NoText
    ));
    assert!(matches!(
        next_scan_step(ScanEvent::Extracted { stopped: true }),
        ScanAction::Done(ScanOutcome::Stopped)
    ));
    assert!(matches!(
        next_scan_step(ScanEvent::Extracted { stopped: false }),
        ScanAction::Commit
    ));
    assert!(matches!(
        next_scan_step(ScanEvent::Committed),
        ScanAction::Done(ScanOutcome::Finished)
    ));
    assert!(matches!(
        scan_phase(ScanAction::RunOcr),
        Some(JobPhase::PreparingOcr)
    ));
    assert!(matches!(
        scan_phase(ScanAction::ExtractTerms),
        Some(JobPhase::ExtractingTerms)
    ));
}

#[test]
fn scans_are_checked_before_they_are_saved() {
    let record = |text: &str, language: Option<&str>| SourceRecord {
        text: text.to_owned(),
        language: language.map(str::to_owned),
    };
    let input = collect_sources(
        vec![record("アリス", Some("ja")), record("東京", None)],
        Revision(4),
        "print".to_owned(),
        None,
        None,
        "en".to_owned(),
    );
    assert_eq!(input.source_language.as_deref(), Some("ja"));
    assert_eq!(input.target_language.as_deref(), Some("en"));
    assert_eq!(input.texts, vec!["アリス", "東京"]);
    assert_eq!(verify_scan(true, "print", Revision(4), &input), Ok(()));
    assert_eq!(
        verify_scan(false, "print", Revision(4), &input),
        Err(CommitFault::ProjectChanged)
    );
    assert_eq!(
        verify_scan(true, "other", Revision(4), &input),
        Err(CommitFault::TextChanged)
    );
    assert!(matches!(
        verify_scan(true, "print", Revision(5), &input),
        Err(CommitFault::StaleRevision { .. })
    ));
}

#[test]
fn found_terms_carry_an_example() {
    let mut candidates: Vec<ScanCandidate> = Vec::new();
    let entity = GlossaryEntity::new(
        0,
        9,
        "アリス".to_owned(),
        GlossaryEntityKind::Person,
        sure(0.9),
    );
    add_candidates(&mut candidates, "アリスは行く", vec![entity]);
    assert_eq!(candidates.len(), 1);
    assert_eq!(candidates[0].source, "アリス");
    assert_eq!(candidates[0].kind, GlossaryKind::Person);
    assert_eq!(candidates[0].example.as_deref(), Some("アリスは行く"));
    assert!(example_of("  ").is_none());
    assert_eq!(example_of(&"x".repeat(600)).unwrap().len(), 512);
}

#[test]
fn term_translations_commit_once_and_whole() {
    let mut glossary = saved();
    glossary.entries[1].translation = None;
    assert_eq!(
        translation_target(&glossary, Revision(1), Revision(1)),
        Ok("en".to_owned())
    );
    assert!(matches!(
        translation_target(&glossary, Revision(2), Revision(1)),
        Err(SelectFault::StaleRevision { .. })
    ));
    let terms = select_terms(&glossary, &Some(vec![GlossaryEntryId(2)])).unwrap();
    assert_eq!(terms.len(), 1);
    assert_eq!(terms[0].source, "東京");
    assert!(matches!(
        select_terms(&glossary, &Some(vec![GlossaryEntryId(9)])),
        Err(SelectFault::NothingSelected)
    ));
    assert!(matches!(
        translation_target(&Glossary::empty(), Revision(1), Revision(1)),
        Err(SelectFault::NoTargetLanguage)
    ));

    assert!(matches!(
        next_term_step(TermEvent::Begin { stopped: false }, 1),
        TermAction::Translate
    ));
    assert!(matches!(
        next_term_step(TermEvent::Begin { stopped: true }, 1),
        TermAction::Done(ScanOutcome::Stopped)
    ));
    let translated = |translations, stopped| {
        next_term_step(
            TermEvent::Translated {
                translations,
                stopped,
            },
            1,
        )
    };
    assert!(matches!(translated(1, false), TermAction::Commit));
    assert!(matches!(
        translated(1, true),
        TermAction::Done(ScanOutcome::Stopped)
    ));
    assert!(matches!(
        translated(2, false),
        TermAction::WrongCount {
            translations: 2,
            terms: 1
        }
    ));
    let results = term_results(
        vec![TermSource {
            id: GlossaryEntryId(2),
            source: "東京".to_owned(),
        }],
        vec!["Tokyo".to_owned()],
    );
    assert_eq!(results[0].translation, "Tokyo");
    assert_eq!(results[0].id, GlossaryEntryId(2));
}

#[test]
fn new_names_of_entries_differ() {
    assert_ne!(
        GlossaryEntryId::new().as_uuid(),
        GlossaryEntryId::new().as_uuid()
    );
}

struct Kept {
    glossary: Glossary,
    revision: Revision,
    undo: usize,
}

impl Kept {
    fn commit(
        &mut self,
        edit: impl FnOnce(Glossary, Revision) -> Result<Glossary, EditFault>,
    ) -> Result<koharu::glossary::edit::GlossaryView, EditFault> {
        let edited = edit(self.copy(), self.revision)?;
        self.glossary = edited;
        self.revision = Revision(self.revision.0 + 1);
        self.undo += 1;
        Ok(self.view())
    }

    fn copy(&self) -> Glossary {
        let mut copy = Glossary::empty();
        copy.enabled = self.glossary.enabled;
        for entry in &self.glossary.entries {
            let mut twin = stored(
                entry.id.0,
                &entry.source,
                entry.translation.as_deref(),
                entry.kind,
                entry.enabled,
                entry.source_origin,
            );
            twin.confidence = entry.confidence;
            twin.occurrence_count = entry.occurrence_count;
            twin.examples = entry.examples.clone();
            twin.translation_origin = entry.translation_origin;
            twin.present_in_last_scan = entry.present_in_last_scan;
            copy.entries.push(twin);
        }
        copy
    }

    fn view(&self) -> koharu::glossary::edit::GlossaryView {
        glossary_view(self.copy(), self.revision, "now".to_owned())
    }
}

fn assert_view_revision(view: &koharu::glossary::edit::GlossaryView, revision: Revision) {
    assert_eq!(view.revision, revision);
    assert!(view.entries.iter().all(|entry| entry.revision == revision));
}

#[test]
fn project_glossary_mutations_are_revision_guarded_and_record_one_commit() {
    let mut project = Kept {
        glossary: Glossary::empty(),
        revision: Revision(0),
        undo: 0,
    };
    let initial = project.view();
    assert_view_revision(&initial, Revision(0));
    assert!(!initial.enabled);
    assert!(initial.stale);
    assert_eq!(initial.source_language, None);
    assert_eq!(initial.target_language, None);
    assert_eq!(initial.saved_source_fingerprint, None);
    assert!(initial.entries.is_empty());

    let added = project
        .commit(|glossary, current| {
            add_glossary_entry(
                glossary,
                current,
                Revision(0),
                input("アリス", Some("Alice")),
                GlossaryEntryId::new(),
            )
        })
        .unwrap();
    assert_view_revision(&added, Revision(1));
    assert_eq!(project.undo, 1);
    assert_eq!(added.entries.len(), 1);
    assert_eq!(
        added.entries[0].entry.source_origin,
        GlossaryValueOrigin::User
    );
    assert_eq!(
        added.entries[0].entry.translation_origin,
        Some(GlossaryValueOrigin::User)
    );
    let id = added.entries[0].entry.id;

    let fault = project
        .commit(|glossary, current| set_glossary_enabled(glossary, current, Revision(0), true))
        .err()
        .unwrap();
    assert_eq!(
        fault.message(),
        "glossary edit expected revision 0, but the project is at 1"
    );
    assert_eq!(project.revision, Revision(1));
    assert_eq!(project.undo, 1);

    let enabled = project
        .commit(|glossary, current| set_glossary_enabled(glossary, current, Revision(1), true))
        .unwrap();
    assert_view_revision(&enabled, Revision(2));
    assert!(enabled.enabled);
    assert_eq!(project.undo, 2);

    let updated = project
        .commit(|glossary, current| {
            update_glossary_entry(
                glossary,
                current,
                Revision(2),
                id,
                GlossaryEntryInput {
                    source: "アリシア".to_owned(),
                    translation: None,
                    kind: GlossaryKind::Term,
                    enabled: false,
                },
            )
        })
        .unwrap();
    assert_view_revision(&updated, Revision(3));
    assert_eq!(updated.entries[0].entry.source, "アリシア");
    assert_eq!(updated.entries[0].entry.translation, None);
    assert_eq!(updated.entries[0].entry.kind, GlossaryKind::Term);
    assert!(!updated.entries[0].entry.enabled);
    assert_eq!(project.undo, 3);

    let invalid_revision = project.revision;
    assert!(project
        .commit(|glossary, current| {
            add_glossary_entry(
                glossary,
                current,
                invalid_revision,
                input(" \t", None),
                GlossaryEntryId::new(),
            )
        })
        .is_err());
    assert_eq!(project.revision, invalid_revision);
    assert_eq!(project.undo, 3);

    let deleted = project
        .commit(|glossary, current| delete_glossary_entry(glossary, current, Revision(3), id))
        .unwrap();
    assert_view_revision(&deleted, Revision(4));
    assert!(deleted.entries.is_empty());
    assert_eq!(project.undo, 4);
}

#[test]
fn each_fault_has_its_words() {
    let (expected, current) = (Revision(3), Revision(12));
    assert_eq!(EditFault::NotFound.message(), "glossary entry was not found");
    assert_eq!(
        EditFault::Invalid(ModelFault::DuplicateSource(1)).message(),
        "glossary source and kind combinations contain duplicates"
    );
    assert_eq!(
        EditFault::Invalid(ModelFault::Entry {
            index: 0,
            fault: EntryFault::Example
        })
        .message(),
        "glossary example is invalid"
    );
    assert_eq!(
        ImportFault::StaleRevision { expected, current }.message(&import()),
        "glossary edit expected revision 3, but the project is at 12"
    );
    assert_eq!(
        ImportFault::LanguageMismatch.message(&import()),
        "glossary import language mismatch requires confirmation"
    );
    let mut other = import();
    other.format = "csv".to_owned();
    other.version = 7;
    assert_eq!(
        ExchangeFault::Format.message(&other),
        "unsupported glossary exchange format: csv"
    );
    assert_eq!(
        ImportFault::Exchange(ExchangeFault::Version).message(&other),
        "unsupported glossary exchange version: 7"
    );
    assert_eq!(
        ExchangeFault::Duplicate(1).message(&other),
        "glossary import contains duplicate source and kind combinations"
    );
    assert_eq!(
        CommitFault::ProjectChanged.message(),
        "project changed during glossary scan"
    );
    assert_eq!(
        CommitFault::TextChanged.message(),
        "project OCR text changed during glossary extraction; rescan the glossary"
    );
    assert_eq!(
        CommitFault::StaleRevision { expected, current }.message(),
        "glossary scan expected revision 3, but the project is at 12"
    );
    assert_eq!(
        SelectFault::StaleRevision { expected, current }.message(),
        "glossary translation expected revision 3, but the project is at 12"
    );
    assert_eq!(
        SelectFault::NoTargetLanguage.message(),
        "glossary target language is required before translating entries"
    );
    assert_eq!(
        SelectFault::NothingSelected.message(),
        "no enabled untranslated glossary entries were selected"
    );
}

#[test]
fn scans_take_terms_that_are_sure_enough() {
    let threshold = Confidence(koharu::glossary::jobs::SCAN_THRESHOLD);
    assert_eq!(threshold, sure(0.3));
    assert!(sure(0.3).reaches(threshold));
    assert!(!sure(0.29).reaches(threshold));
}
