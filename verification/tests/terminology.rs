use koharu::ids::EntityId;
use koharu::pipeline::request::StopToken;
use koharu::project_glossary::GlossaryCategory;
use koharu::stop_flag::Never;
use koharu::terminology::{analyze_terminology, analyze_until, LayerText, PageTexts, TermAnalysis};
use std::cell::RefCell;

#[test]
fn cross_page_statistics_normalization_and_noun_cues() {
    let mut terms = TermAnalysis::new();
    terms
        .collect("高橋は高橋です。魔導院のｴｰﾃﾙ。", EntityId(1))
        .unwrap();
    terms
        .collect("「高橋」さん、エーテルを魔導院へ。", EntityId(2))
        .unwrap();
    let candidates = terms.candidates();
    let name = candidates
        .iter()
        .find(|entry| entry.source == "高橋")
        .unwrap();
    assert_eq!(
        (name.occurrences, name.page_count, name.category),
        (3, 2, GlossaryCategory::Person)
    );
    let ether = candidates
        .iter()
        .find(|entry| entry.source == "エーテル")
        .unwrap();
    assert_eq!((ether.occurrences, ether.page_count), (2, 2));
    assert_eq!(
        candidates
            .iter()
            .find(|entry| entry.source == "魔導院")
            .unwrap()
            .category,
        GlossaryCategory::Organization
    );
}

fn pages() -> Vec<PageTexts> {
    let layer = |n: u128, source: &str| LayerText {
        content: EntityId(n),
        source: Some(source.to_owned()),
    };
    vec![
        PageTexts {
            page: EntityId(1),
            layers: vec![layer(11, "高橋は高橋です。")],
        },
        PageTexts {
            page: EntityId(2),
            layers: vec![layer(21, "「高橋」さん。")],
        },
    ]
}

#[test]
fn a_stopped_analysis_finds_nothing() {
    let stop = StopToken::new();
    stop.stop();
    let result = analyze_terminology(&pages(), &stop, |_: usize| {}).unwrap();
    assert!(result.is_none());
}

#[test]
fn an_analysis_tells_each_page() {
    let seen: RefCell<Vec<usize>> = RefCell::new(Vec::new());
    let stop = StopToken::new();
    let found = analyze_terminology(&pages(), &stop, |n: usize| seen.borrow_mut().push(n))
        .unwrap()
        .unwrap();
    assert_eq!(seen.into_inner(), vec![1, 2]);
    let name = found.iter().find(|entry| entry.source == "高橋").unwrap();
    assert_eq!((name.occurrences, name.page_count), (3, 2));
}

#[test]
fn an_analysis_is_given_up_at_the_first_stop() {
    let shown: RefCell<Vec<usize>> = RefCell::new(Vec::new());
    let asked: RefCell<usize> = RefCell::new(0);
    // The third question comes before the second page.
    let third = || {
        *asked.borrow_mut() += 1;
        *asked.borrow() == 3
    };
    let result = analyze_until(&pages(), &third, |n: usize| shown.borrow_mut().push(n));
    assert!(result.unwrap().is_none());
    assert_eq!(*asked.borrow(), 3);
    assert_eq!(*shown.borrow(), vec![1]);
    let found = analyze_until(&pages(), &Never, |_: usize| {})
        .unwrap()
        .unwrap();
    assert_eq!(found[0].source, "高橋");
}

#[test]
fn an_analysis_without_pages_is_never_given_up() {
    let stop = StopToken::new();
    stop.stop();
    let found = analyze_terminology(&Vec::new(), &stop, |_: usize| {}).unwrap();
    assert!(found.unwrap().is_empty());
}

#[test]
fn a_term_is_on_no_more_pages_than_it_was_met() {
    let stop = StopToken::new();
    let found = analyze_terminology(&pages(), &stop, |_: usize| {})
        .unwrap()
        .unwrap();
    assert!(!found.is_empty());
    assert!(found
        .iter()
        .all(|entry| 1 <= entry.page_count && entry.page_count <= entry.occurrences));
}

#[test]
fn an_analysis_asks_before_each_page_and_each_text() {
    let run = |raised: usize| {
        let asked: RefCell<usize> = RefCell::new(0);
        let flag = || {
            *asked.borrow_mut() += 1;
            *asked.borrow() > raised
        };
        analyze_until(&pages(), &flag, |_: usize| {}).unwrap()
    };
    // One before each of the two pages, and one before the text on each.
    for raised in 0..4 {
        assert!(run(raised).is_none());
    }
    assert!(run(4).is_some());
}
