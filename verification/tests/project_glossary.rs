use koharu::ids::{JobId, ProjectId};
use koharu::normalize::{normalize_glossary_source, normalize_term, normalize_text};
use koharu::processing::{Job, JobKind, JobPhase, JobState};
use koharu::project_glossary::document::{
    check_save, check_suggestion, glossaries_match, import_glossary, DocumentFault,
    GlossaryDocument, ImportFault,
};
use koharu::project_glossary::{
    glossary_matches, relevant_glossary, GlossaryCandidate, GlossaryCategory, GlossaryEntry,
    GlossaryFault, ProjectGlossary,
};

fn entry(source: &str, target: &str) -> GlossaryEntry {
    GlossaryEntry {
        source: source.to_owned(),
        target: target.to_owned(),
        category: GlossaryCategory::Person,
        notes: String::new(),
        enabled: true,
    }
}

fn candidate(source: &str) -> GlossaryCandidate {
    GlossaryCandidate {
        source: source.to_owned(),
        suggested_target: String::new(),
        category: GlossaryCategory::Other,
        occurrences: 2,
        page_count: 2,
    }
}

fn with_entries(entries: Vec<GlossaryEntry>) -> ProjectGlossary {
    ProjectGlossary {
        entries,
        candidates: Vec::new(),
        ignored: Vec::new(),
    }
}

#[test]
fn normalized_longest_matches_exclude_disabled_and_unrelated_terms() {
    let mut disabled = entry("無効", "disabled");
    disabled.enabled = false;
    let entries = vec![
        entry("魔導", "magic"),
        entry("魔導院", "Academy"),
        entry("エーテル", "Ether"),
        entry("Ann", "安"),
        disabled,
    ];
    let selected = relevant_glossary(&vec!["魔導院でｴｰﾃﾙ。Anna 無効".to_owned()], &entries);
    assert_eq!(
        selected
            .iter()
            .map(|entry| entry.target.as_str())
            .collect::<Vec<_>>(),
        ["Ether", "Academy"]
    );
    let (_, matches) = glossary_matches("魔導院と魔導", &entries);
    assert_eq!(
        matches.iter().map(|value| value.entry).collect::<Vec<_>>(),
        [1, 0]
    );
    assert_eq!(normalize_term(" 「ｴｰﾃﾙ」 "), "エーテル");
}

#[test]
fn texts_are_normalized() {
    assert_eq!(normalize_text("ｴｰﾃﾙ"), "エーテル");
    assert_eq!(normalize_glossary_source(" Ａlice "), "alice");
    let (text, matches) = glossary_matches("ｴｰﾃﾙだ", &vec![entry("エーテル", "Ether")]);
    assert_eq!(text, "エーテルだ");
    assert_eq!((matches[0].start, matches[0].end), (0, 12));
}

#[test]
fn candidates_are_separate_and_confirmed_terms_are_not_recreated() {
    let mut glossary = ProjectGlossary {
        entries: vec![entry("高橋", "高桥")],
        candidates: Vec::new(),
        ignored: vec!["無視".to_owned()],
    };
    glossary.replace_candidates(vec![
        candidate("高橋"),
        candidate("無視"),
        candidate("魔導院"),
    ]);
    assert_eq!(glossary.candidates.len(), 1);
    glossary.candidates[0].suggested_target = "Academy".to_owned();
    glossary.candidates[0].category = GlossaryCategory::Organization;
    let mut refreshed = glossary.candidates[0].clone();
    refreshed.source = "「魔導院」".to_owned();
    refreshed.suggested_target.clear();
    refreshed.category = GlossaryCategory::Other;
    refreshed.occurrences = 8;
    glossary.replace_candidates(vec![refreshed.clone(), refreshed]);
    assert_eq!(glossary.candidates.len(), 1);
    assert_eq!(glossary.candidates[0].suggested_target, "Academy");
    assert_eq!(
        glossary.candidates[0].category,
        GlossaryCategory::Organization
    );
    assert_eq!(glossary.candidates[0].occurrences, 8);
    assert!(relevant_glossary(&vec!["魔導院".to_owned()], &glossary.entries).is_empty());
    glossary.entries.push(entry("「高橋」", "duplicate"));
    assert!(glossary.validate_entries().is_err());
}

#[test]
fn each_fault_of_a_glossary_is_named() {
    assert_eq!(ProjectGlossary::new().validate_entries(), Ok(()));
    let blank = with_entries(vec![entry("a", "b"), entry(" ", "b")]);
    assert_eq!(blank.validate_entries(), Err(GlossaryFault::Entry(1)));
    let long = with_entries(vec![entry(&"a".repeat(1025), "b")]);
    assert_eq!(long.validate_entries(), Err(GlossaryFault::Entry(0)));
    let twice = with_entries(vec![entry("a", "b"), entry("「ａ」", "c")]);
    assert_eq!(
        twice.validate_entries(),
        Err(GlossaryFault::DuplicateEntry(1))
    );
    let mut proposed = ProjectGlossary::new();
    proposed.candidates.push(candidate(""));
    assert_eq!(
        proposed.validate_entries(),
        Err(GlossaryFault::Candidate(0))
    );
    let mut ignored = ProjectGlossary::new();
    ignored.ignored.push("x".repeat(1025));
    assert_eq!(ignored.validate_entries(), Err(GlossaryFault::LongIgnored));
    let mut many = ProjectGlossary::new();
    for _ in 0..10_001 {
        many.ignored.push("x".to_owned());
    }
    assert_eq!(many.validate_entries(), Err(GlossaryFault::TooMany));
}

fn job(kind: JobKind, state: JobState) -> Job {
    Job {
        id: JobId(1),
        kind,
        phase: JobPhase::Pipeline { stage: None },
        state,
        completed: 0,
        total: 1,
        page: None,
        error: None,
    }
}

fn document(project: u128, entries: Vec<GlossaryEntry>) -> GlossaryDocument {
    GlossaryDocument {
        project: ProjectId(project),
        glossary: with_entries(entries),
    }
}

#[test]
fn terms_are_saved_over_what_was_read() {
    let read = document(1, vec![entry("a", "b")]);
    let edited = with_entries(vec![entry("a", "c")]);
    let current = document(1, vec![entry("a", "b")]);
    assert!(glossaries_match(&read.glossary, &current.glossary));
    assert_eq!(check_save(&read, &edited, &vec![], &current), Ok(()));
    let exporting = vec![job(JobKind::Export, JobState::Running)];
    assert_eq!(check_save(&read, &edited, &exporting, &current), Ok(()));
    let processing = vec![job(JobKind::Workflow, JobState::Running)];
    assert_eq!(
        check_save(&read, &edited, &processing, &current),
        Err(DocumentFault::Processing)
    );
    let waiting = vec![job(JobKind::Workflow, JobState::AwaitingReview)];
    assert_eq!(check_save(&read, &edited, &waiting, &current), Ok(()));
    let other = document(2, vec![entry("a", "b")]);
    assert_eq!(
        check_save(&read, &edited, &vec![], &other),
        Err(DocumentFault::ProjectChanged)
    );
    let changed = document(1, vec![entry("a", "x")]);
    assert_eq!(
        check_save(&read, &edited, &vec![], &changed),
        Err(DocumentFault::GlossaryChanged)
    );
    let invalid = with_entries(vec![entry("", "c")]);
    assert_eq!(
        check_save(&read, &invalid, &processing, &other),
        Err(DocumentFault::Invalid(GlossaryFault::Entry(0)))
    );
}

#[test]
fn suggestions_need_the_open_project_at_rest() {
    let terms = || vec![entry("a", "b")];
    assert_eq!(
        check_suggestion(terms(), ProjectId(1), ProjectId(1), &vec![]),
        Ok(())
    );
    assert_eq!(
        check_suggestion(terms(), ProjectId(1), ProjectId(2), &vec![]),
        Err(DocumentFault::ProjectChanged)
    );
    let processing = vec![job(JobKind::Pipeline, JobState::Running)];
    assert_eq!(
        check_suggestion(terms(), ProjectId(1), ProjectId(1), &processing),
        Err(DocumentFault::Processing)
    );
    assert_eq!(
        check_suggestion(vec![entry("", "b")], ProjectId(1), ProjectId(2), &processing),
        Err(DocumentFault::Invalid(GlossaryFault::Entry(0)))
    );
}

#[test]
fn imports_add_what_is_new_and_settle_proposals() {
    let glossary = || ProjectGlossary {
        entries: vec![entry("高橋", "高桥")],
        candidates: vec![candidate("魔導院"), candidate("東京")],
        ignored: Vec::new(),
    };
    let file = || with_entries(vec![entry("高橋", "高桥"), entry("「魔導院」", "Academy")]);
    let merged = import_glossary(100, glossary(), file()).unwrap();
    assert_eq!(
        merged
            .entries
            .iter()
            .map(|entry| entry.target.as_str())
            .collect::<Vec<_>>(),
        ["高桥", "Academy"]
    );
    assert_eq!(merged.candidates.len(), 1);
    assert_eq!(merged.candidates[0].source, "東京");
    let again = import_glossary(100, merged, file()).unwrap();
    assert_eq!(again.entries.len(), 2);

    let conflict = with_entries(vec![entry("東京", "Tokyo"), entry("「高橋」", "高桥")]);
    assert_eq!(
        import_glossary(100, glossary(), conflict).unwrap_err(),
        ImportFault::Conflict(1)
    );
    assert_eq!(
        import_glossary(4 * 1024 * 1024 + 1, glossary(), file()).unwrap_err(),
        ImportFault::TooLarge
    );
    assert_eq!(
        import_glossary(100, glossary(), with_entries(vec![entry("", "x")])).unwrap_err(),
        ImportFault::Invalid(GlossaryFault::Entry(0))
    );
}

#[test]
fn normalized_terms_stay_as_they_are() {
    for text in [" 「ｴｰﾃﾙ」 ", "Ｋing \t of\u{3000}Hearts!", "『 a 』", "\u{ff21}\u{301}  b", ""] {
        let term = normalize_term(text);
        assert_eq!(normalize_term(&term), term);
        assert_eq!(normalize_term(&format!("「{text}」")), term);
        assert!(!term.contains("  "));
    }
    assert_eq!(
        normalize_term("Ｋing \t of\u{3000}Hearts!"),
        "King of Hearts"
    );
}

#[test]
fn faults_of_project_glossaries_have_their_words() {
    assert_eq!(
        GlossaryFault::TooMany.message(),
        "glossary exceeds 10000 entries"
    );
    assert_eq!(
        DocumentFault::Invalid(GlossaryFault::Entry(0)).save_message(),
        "glossary entry has an empty or oversized field"
    );
    assert_eq!(
        DocumentFault::GlossaryChanged.save_message(),
        "the glossary changed; reload before saving"
    );
    assert_eq!(
        DocumentFault::Processing.save_message(),
        "edit the glossary during review or after stopping processing"
    );
    assert_eq!(
        DocumentFault::Processing.suggestion_message(),
        "wait for glossary review or stop processing before translating candidates"
    );
    let file = with_entries(vec![entry("高橋", "Takahashi")]);
    assert_eq!(
        ImportFault::Conflict(0).message(&file),
        "conflicting imported term: 高橋"
    );
    assert_eq!(
        ImportFault::TooLarge.message(&file),
        "glossary JSON exceeds 4 MiB"
    );
}

#[test]
fn the_same_candidates_again_change_nothing() {
    let mut glossary = with_entries(vec![entry("高橋", "Takahashi")]);
    glossary.ignored = vec!["東京".to_owned()];
    let mut known = candidate("エーテル");
    known.suggested_target = "Ether".to_owned();
    glossary.candidates = vec![known];
    let found = || {
        ["ｴｰﾃﾙ", "高橋", "「魔導院」", "魔導院", "東京"]
            .iter()
            .map(|source| candidate(source))
            .collect::<Vec<_>>()
    };
    let listed = |glossary: &ProjectGlossary| {
        glossary
            .candidates
            .iter()
            .map(|candidate| (candidate.source.clone(), candidate.suggested_target.clone()))
            .collect::<Vec<_>>()
    };
    glossary.replace_candidates(found());
    let once = listed(&glossary);
    assert_eq!(
        once,
        [
            ("ｴｰﾃﾙ".to_owned(), "Ether".to_owned()),
            ("「魔導院」".to_owned(), String::new())
        ]
    );
    glossary.replace_candidates(found());
    assert_eq!(listed(&glossary), once);
}
