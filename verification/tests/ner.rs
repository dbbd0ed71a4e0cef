use koharu::glossary::model::Confidence;
use koharu::ner::config::{marks_fit, CheckpointConfig};
use koharu::ner::encode::{
    added_tokens, encode, prompt_words, truncation_of, window_of, EncodeFault, EncodedWindow,
    RawEncoding, Truncation, PROMPT_WORDS,
};
use koharu::ner::extract::{extract, ExtractFault};
use koharu::ner::scores::{decode_scores, ScoreFault};
use koharu::ner::spans::resolve_overlaps;
use koharu::ner::tokens::{split_text, tokens_between};
use koharu::ner::types::{GlossaryEntity, GlossaryEntityKind};
use koharu::ner::windows::{
    fit_window, run_windowed_extraction, token_windows, Cancellation, WindowEncoding, WindowFault,
    WINDOW_OVERLAP, WINDOW_WORDS,
};
use koharu::pipeline::request::StopToken;
use std::ops::Range;
use std::sync::atomic::{AtomicBool, AtomicUsize, Ordering};

fn sure(value: f32) -> Confidence {
    Confidence(value.to_bits())
}

fn entity(
    start: usize,
    end: usize,
    surface: &str,
    kind: GlossaryEntityKind,
    confidence: f32,
) -> GlossaryEntity {
    GlossaryEntity::new(start, end, surface.to_owned(), kind, sure(confidence))
}

fn facts(entities: &[GlossaryEntity]) -> Vec<(usize, usize, String, GlossaryEntityKind, u32)> {
    entities
        .iter()
        .map(|entity| {
            (
                entity.start,
                entity.end,
                entity.surface.clone(),
                entity.kind,
                entity.confidence.0,
            )
        })
        .collect()
}

fn pinned() -> CheckpointConfig {
    CheckpointConfig {
        max_width: 12,
        max_len: 384,
        hidden_size: 512,
        model_name: "microsoft/mdeberta-v3-base".to_owned(),
        span_mode: "markerV0".to_owned(),
        subtoken_pooling: "first".to_owned(),
    }
}

#[test]
fn pinned_checkpoint_configuration_is_accepted() {
    let config = pinned();
    assert_eq!(config.max_width, 12);
    assert_eq!(config.model_name, "microsoft/mdeberta-v3-base");
    assert!(config.check().is_ok());
}

#[test]
fn other_architectures_are_refused() {
    let mut config = pinned();
    config.max_width = 8;
    assert!(config.check().is_err());
    let mut config = pinned();
    config.span_mode = "markerV1".to_owned();
    assert!(config.check().is_err());
    let mut config = pinned();
    config.subtoken_pooling = "mean".to_owned();
    assert!(config.check().is_err());
    assert!(!marks_fit(None, Some(1)));
}

#[test]
fn cancellation_stops_multi_window_extraction_before_later_windows() {
    let cancelled = AtomicBool::new(false);
    let is_cancelled = || cancelled.load(Ordering::Relaxed);
    let cancellation = Cancellation::new(&is_cancelled);
    let encoded = AtomicUsize::new(0);
    let inferred = AtomicUsize::new(0);
    let windows = token_windows(300, WINDOW_WORDS, WINDOW_OVERLAP).unwrap();

    let result: Result<Option<Vec<Range<usize>>>, ()> = run_windowed_extraction(
        windows,
        &cancellation,
        |window: Range<usize>| {
            encoded.fetch_add(1, Ordering::Relaxed);
            Ok(WindowEncoding::Ready(window))
        },
        |_window: Range<usize>, encoded: Range<usize>| {
            inferred.fetch_add(1, Ordering::Relaxed);
            cancelled.store(true, Ordering::Relaxed);
            Ok(vec![encoded])
        },
    );

    assert!(result.unwrap().is_none());
    assert_eq!(encoded.load(Ordering::Relaxed), 1);
    assert_eq!(inferred.load(Ordering::Relaxed), 1);
}

#[test]
fn every_window_is_read_unless_cancelled() {
    let cancellation = Cancellation::never();
    assert!(!cancellation.cancelled());
    let windows = token_windows(10, 4, 2).unwrap();
    let result: Result<Option<Vec<usize>>, ()> = run_windowed_extraction(
        windows,
        &cancellation,
        |window: Range<usize>| Ok(WindowEncoding::Ready(window.start)),
        |window: Range<usize>, start: usize| Ok(vec![start, window.end]),
    );
    assert_eq!(result.unwrap().unwrap(), vec![0, 4, 2, 6, 4, 8, 6, 10]);
}

#[test]
fn windows_that_do_not_fit_are_halved() {
    assert!(matches!(
        fit_window(0..8, false, ()),
        Ok(WindowEncoding::Split(Range { start: 0, end: 4 }, Range { start: 1, end: 8 }))
    ));
    let windows = token_windows(4, 4, 2).unwrap();
    let result: Result<Option<Vec<Range<usize>>>, ()> = run_windowed_extraction(
        windows,
        &Cancellation::never(),
        |window: Range<usize>| {
            let fits = window.end - window.start <= 3;
            fit_window(window.clone(), fits, window).map_err(|_| ())
        },
        |_window: Range<usize>, encoded: Range<usize>| Ok(vec![encoded]),
    );
    assert_eq!(result.unwrap().unwrap(), vec![0..2, 1..4]);
    assert!(fit_window(3..4, false, ()).is_err());
}

#[test]
fn failing_inference_ends_the_extraction() {
    let windows = token_windows(10, 4, 2).unwrap();
    let result: Result<Option<Vec<u8>>, &str> = run_windowed_extraction(
        windows,
        &Cancellation::never(),
        |_window: Range<usize>| Ok(WindowEncoding::Ready(())),
        |_window: Range<usize>, _encoded: ()| Err("no"),
    );
    assert_eq!(result.unwrap_err(), "no");
}

#[test]
fn tokenization_preserves_multibyte_byte_ranges() {
    let text = "蒼井レンは東京・新宿へ行く。";
    let tokens = split_text(text);
    assert_eq!(
        tokens
            .iter()
            .map(|token| (&text[token.start..token.end], token.start, token.end))
            .collect::<Vec<_>>(),
        vec![
            ("蒼井", 0, 6),
            ("レン", 6, 12),
            ("は", 12, 15),
            ("東京", 15, 21),
            ("・", 21, 24),
            ("新宿", 24, 30),
            ("へ", 30, 33),
            ("行く", 33, 39),
            ("。", 39, 42),
        ]
    );
}

#[test]
fn spaces_are_no_words() {
    let text = "ab  cd";
    let tokens = tokens_between(text, &vec![0, 2, 4, 6]);
    assert_eq!(
        tokens
            .iter()
            .map(|token| (token.start, token.end))
            .collect::<Vec<_>>(),
        vec![(0, 2), (4, 6)]
    );
    assert!(split_text("").is_empty());
}

#[test]
fn windows_overlap_and_cover_all_tokens() {
    let windows = token_windows(10, 4, 2).unwrap();
    assert_eq!(windows, vec![0..4, 2..6, 4..8, 6..10]);
}

#[test]
fn windows_need_room() {
    assert!(matches!(
        token_windows(10, 0, 0),
        Err(WindowFault::EmptyWindow)
    ));
    assert!(matches!(
        token_windows(10, 4, 4),
        Err(WindowFault::OverlapTooLarge)
    ));
    assert!(token_windows(0, 4, 2).unwrap().is_empty());
    assert_eq!(token_windows(3, 4, 2).unwrap(), vec![0..3]);
}

#[test]
fn score_layout_maps_spans_to_utf8_offsets() {
    let text = "蒼井レン";
    let tokens = split_text(text);
    let classes = GlossaryEntityKind::all().len();
    let mut probabilities = vec![sure(0.0); (2 + 1) * classes];
    probabilities[GlossaryEntityKind::Person.number() as usize] = sure(0.7);
    probabilities[2 * classes + GlossaryEntityKind::Person.number() as usize] = sure(0.9);
    let entities = decode_scores(text, &tokens, &probabilities, sure(0.5)).unwrap();
    assert_eq!(
        facts(&entities),
        facts(&[
            entity(0, 6, "蒼井", GlossaryEntityKind::Person, 0.7),
            entity(0, 12, "蒼井レン", GlossaryEntityKind::Person, 0.9),
        ])
    );
}

#[test]
fn scores_need_a_threshold_and_their_number() {
    let text = "蒼井レン";
    let tokens = split_text(text);
    let probabilities = vec![sure(0.0); 18];
    assert!(matches!(
        decode_scores(text, &tokens, &probabilities, sure(1.5)),
        Err(ScoreFault::Threshold)
    ));
    assert!(matches!(
        decode_scores(text, &tokens, &vec![sure(0.0); 17], sure(0.5)),
        Err(ScoreFault::Count {
            scores: 17,
            spans: 3
        })
    ));
}

#[test]
fn overlapping_spans_resolve_deterministically() {
    let mut spans = vec![
        entity(0, 6, "蒼井", GlossaryEntityKind::Person, 0.8),
        entity(0, 12, "蒼井レン", GlossaryEntityKind::Person, 0.8),
        entity(6, 12, "レン", GlossaryEntityKind::Person, 0.9),
        entity(15, 21, "東京", GlossaryEntityKind::Place, 0.7),
        entity(15, 21, "東京", GlossaryEntityKind::Place, 0.7),
    ];
    resolve_overlaps(&mut spans);
    assert_eq!(
        facts(&spans),
        facts(&[
            entity(0, 6, "蒼井", GlossaryEntityKind::Person, 0.8),
            entity(6, 12, "レン", GlossaryEntityKind::Person, 0.9),
            entity(15, 21, "東京", GlossaryEntityKind::Place, 0.7),
        ])
    );
}

#[test]
fn entity_kinds_have_model_labels() {
    assert_eq!(GlossaryEntityKind::Person.model_label(), "person");
    assert_eq!(GlossaryEntityKind::Place.model_label(), "place");
    assert_eq!(
        GlossaryEntityKind::Organization.model_label(),
        "organization"
    );
    assert_eq!(GlossaryEntityKind::Item.model_label(), "item");
    assert_eq!(GlossaryEntityKind::Ability.model_label(), "ability");
    assert_eq!(
        GlossaryEntityKind::WorkSpecificTerm.model_label(),
        "work-specific term"
    );
}

#[test]
fn prompts_name_every_kind_before_the_words() {
    let text = "蒼井レン";
    let tokens = split_text(text);
    let words = prompt_words(text, &tokens);
    assert_eq!(words.len(), PROMPT_WORDS + 2);
    assert!(words.contains(&"person".to_owned()));
    assert_eq!(words[PROMPT_WORDS], "蒼井");
    assert_eq!(words[PROMPT_WORDS + 1], "レン");
}

fn shown(window: &EncodedWindow) -> (Vec<i64>, Vec<usize>) {
    (window.input_ids.clone(), window.first_subtokens.clone())
}

#[test]
fn a_window_points_at_the_first_piece_of_each_word() {
    let raw = RawEncoding {
        ids: vec![1, 10, 11, 12, 13, 2],
        word_ids: vec![None, Some(0), Some(0), Some(1), Some(2), None],
    };
    let window = window_of(&raw, 3).unwrap();
    assert_eq!(
        shown(&window),
        (vec![1, 10, 11, 12, 13, 2], vec![1, 3, 4])
    );
    assert!(window.fits(6));
    assert!(!window.fits(5));
    let raw = RawEncoding {
        ids: vec![1, 10, 13, 2],
        word_ids: vec![None, Some(0), Some(2), None],
    };
    assert!(matches!(
        window_of(&raw, 3),
        Err(EncodeFault::OmittedWord(1))
    ));
}

fn letters() -> tokenizers::Tokenizer {
    // A tokenizer that knows whole words by a vocabulary of its own.
    let mut vocabulary = String::new();
    let words = [
        "[UNK]",
        "<<ENT>>",
        "<<SEP>>",
        "person",
        "place",
        "organization",
        "item",
        "ability",
        "work-specific term",
        "蒼井",
        "レン",
    ];
    for (index, word) in words.iter().enumerate() {
        if index > 0 {
            vocabulary.push(',');
        }
        vocabulary.push_str(&format!("\"{word}\":{index}"));
    }
    let description = format!(
        "{{\"version\":\"1.0\",\"truncation\":null,\"padding\":null,\"added_tokens\":[],\
         \"normalizer\":null,\"pre_tokenizer\":null,\"post_processor\":null,\"decoder\":null,\
         \"model\":{{\"type\":\"WordLevel\",\"vocab\":{{{vocabulary}}},\"unk_token\":\"[UNK]\"}}}}"
    );
    tokenizers::Tokenizer::from_bytes(description.as_bytes()).unwrap()
}

#[test]
fn words_are_encoded_by_the_tokenizer() {
    let text = "蒼井レン";
    let tokens = split_text(text);
    let window = encode(&letters(), text, &tokens).unwrap();
    assert_eq!(window.input_ids.len(), PROMPT_WORDS + 2);
    assert_eq!(window.input_ids[PROMPT_WORDS], 9);
    assert_eq!(window.input_ids[PROMPT_WORDS + 1], 10);
    assert_eq!(window.input_ids[1], 3);
    assert_eq!(window.prompt_words, PROMPT_WORDS);
}

fn quiet(words: usize) -> Vec<Confidence> {
    let spans: usize = (0..words.min(12)).map(|width| words - width).sum();
    vec![sure(0.0); spans * 6]
}

#[test]
fn a_search_keeps_the_surer_of_overlapping_names() {
    let score = |window: &EncodedWindow, words: usize| -> Result<Vec<Confidence>, String> {
        assert_eq!(window.input_ids.len(), PROMPT_WORDS + 2);
        let mut scores = quiet(words);
        scores[0] = sure(0.5);
        scores[12] = sure(0.9);
        scores[7] = sure(0.2);
        Ok(scores)
    };
    let found = extract(
        &letters(),
        "蒼井レン",
        sure(0.3),
        &Cancellation::never(),
        &score,
    )
    .unwrap()
    .unwrap();
    assert_eq!(found.len(), 1);
    assert_eq!(found[0].surface, "蒼井レン");
    assert_eq!((found[0].start, found[0].end), (0, 12));
    assert!(found[0].kind == GlossaryEntityKind::Person);
    assert_eq!(found[0].confidence, sure(0.9));
}

#[test]
fn a_search_reads_every_word_of_a_long_text() {
    let text = vec!["a"; 300].join(" ");
    let calls = AtomicUsize::new(0);
    let read = AtomicUsize::new(0);
    let score = |_: &EncodedWindow, words: usize| -> Result<Vec<Confidence>, String> {
        calls.fetch_add(1, Ordering::SeqCst);
        read.fetch_add(words, Ordering::SeqCst);
        Ok(quiet(words))
    };
    let found = extract(
        &letters(),
        &text,
        sure(0.3),
        &Cancellation::never(),
        &score,
    )
    .unwrap()
    .unwrap();
    assert!(found.is_empty());
    assert_eq!(calls.load(Ordering::SeqCst), 3);
    assert_eq!(read.load(Ordering::SeqCst), 128 + 128 + 108);
}

#[test]
fn a_search_says_what_went_wrong() {
    let fails = |_: &EncodedWindow, _: usize| -> Result<Vec<Confidence>, String> {
        Err("out of memory".to_owned())
    };
    let never = Cancellation::never();
    assert!(matches!(
        extract(&letters(), "蒼井", sure(1.5), &never, &fails),
        Err(ExtractFault::Scores(ScoreFault::Threshold))
    ));
    assert!(matches!(
        extract(&letters(), "蒼井", sure(f32::NAN), &never, &fails),
        Err(ExtractFault::Scores(ScoreFault::Threshold))
    ));
    assert!(matches!(
        extract(&letters(), " \n", sure(0.3), &never, &fails),
        Ok(Some(none)) if none.is_empty()
    ));
    assert!(matches!(
        extract(&letters(), "蒼井", sure(0.3), &never, &fails),
        Err(ExtractFault::Model(error)) if error == "out of memory"
    ));
    let short = |_: &EncodedWindow, _: usize| -> Result<Vec<Confidence>, String> {
        Ok(vec![sure(0.0); 5])
    };
    assert!(matches!(
        extract(&letters(), "蒼井", sure(0.3), &never, &short),
        Err(ExtractFault::Scores(ScoreFault::Count { scores: 5, .. }))
    ));
    let stop = StopToken::new();
    stop.stop();
    let stopped = || stop.stopped();
    assert!(matches!(
        extract(&letters(), "蒼井", sure(0.3), &Cancellation::new(&stopped), &fails),
        Ok(None)
    ));
}

#[test]
fn a_cancellation_asks_anew_each_time() {
    let asked = AtomicUsize::new(0);
    let second = || asked.fetch_add(1, Ordering::Relaxed) == 1;
    let cancellation = Cancellation::new(&second);
    assert!(!cancellation.cancelled());
    assert!(cancellation.cancelled());
    assert!(!cancellation.cancelled());
    assert_eq!(asked.load(Ordering::Relaxed), 3);
}

#[test]
fn a_search_asks_before_each_window_and_each_reading() {
    let run = |raised: usize| -> Result<Option<Vec<usize>>, ()> {
        let asked = AtomicUsize::new(0);
        let flag = || asked.fetch_add(1, Ordering::Relaxed) >= raised;
        run_windowed_extraction(
            vec![0..2, 2..3],
            &Cancellation::new(&flag),
            |window: Range<usize>| {
                if window.len() > 1 {
                    let middle = window.start + 1;
                    Ok(WindowEncoding::Split(window.start..middle, middle..window.end))
                } else {
                    Ok(WindowEncoding::Ready(window))
                }
            },
            |_window: Range<usize>, encoded: Range<usize>| Ok(vec![encoded.start]),
        )
    };
    // One for the window that is split, and two for each of the three that are read.
    for raised in 0..7 {
        assert_eq!(run(raised), Ok(None));
    }
    assert_eq!(run(7), Ok(Some(vec![0, 1, 2])));
}

fn cutting(max_length: usize, stride: usize) -> tokenizers::Tokenizer {
    let mut tokenizer = letters();
    tokenizer
        .with_truncation(Some(tokenizers::TruncationParams::default()))
        .unwrap();
    let params = tokenizer.get_truncation_mut().unwrap();
    params.max_length = max_length;
    params.stride = stride;
    tokenizer
}

#[test]
fn tokenizers_that_cut_too_short_are_not_used() {
    let text = "蒼井レン";
    let tokens = split_text(text);
    assert!(matches!(
        encode(&cutting(4, 4), text, &tokens),
        Err(EncodeFault::NoRoom)
    ));
    // What was cut off is a word without tokens.
    assert!(matches!(
        encode(&cutting(5, 4), text, &tokens),
        Err(EncodeFault::OmittedWord(5))
    ));
    assert!(encode(&cutting(512, 0), text, &tokens).is_ok());
    // Where nothing has to be cut, the stride does not matter.
    let uncut = encode(&cutting(20, 20), text, &tokens).unwrap();
    let plain = encode(&letters(), text, &tokens).unwrap();
    assert_eq!(uncut.input_ids, plain.input_ids);
    assert_eq!(uncut.first_subtokens, plain.first_subtokens);
    let most = plain.input_ids.len();
    assert!(encode(&cutting(most, most), text, &tokens).is_ok());
    assert!(matches!(
        encode(&cutting(most - 1, most), text, &tokens),
        Err(EncodeFault::NoRoom)
    ));
    // Where nothing is kept, every word is without tokens.
    assert!(matches!(
        encode(&cutting(0, 3), text, &tokens),
        Err(EncodeFault::OmittedWord(0))
    ));
    let mut framed = framed("[CLS] $A [SEP]");
    framed
        .with_truncation(Some(tokenizers::TruncationParams::default()))
        .unwrap();
    framed.get_truncation_mut().unwrap().max_length = 1;
    assert!(matches!(
        encode(&framed, text, &tokens),
        Err(EncodeFault::NoRoom)
    ));
    assert_eq!(
        truncation_of(&cutting(5, 4)),
        Some(Truncation {
            max_length: 5,
            stride: 4
        })
    );
    assert_eq!(truncation_of(&letters()), None);
}

fn framed(single: &str) -> tokenizers::Tokenizer {
    let mut tokenizer = letters();
    let template = tokenizers::processors::template::TemplateProcessing::builder()
        .try_single(single)
        .unwrap()
        .special_tokens(vec![("[CLS]", 1u32), ("[SEP]", 2u32)])
        .build()
        .unwrap();
    tokenizer.with_post_processor(Some(template));
    tokenizer
}

#[test]
fn tokenizers_put_tokens_around_the_words() {
    let text = "蒼井レン";
    let tokens = split_text(text);
    let tokenizer = framed("[CLS] $A [SEP]");
    assert_eq!(added_tokens(&tokenizer), 2);
    assert_eq!(added_tokens(&letters()), 0);
    let window = encode(&tokenizer, text, &tokens).unwrap();
    assert_eq!(window.input_ids.len(), PROMPT_WORDS + 4);
    assert_eq!(window.first_subtokens[0], 1);
}

#[test]
fn templates_that_cannot_be_filled_are_not_used() {
    let text = "蒼井レン";
    let tokens = split_text(text);
    assert!(matches!(
        encode(&framed("$A $B"), text, &tokens),
        Err(EncodeFault::NoEnd)
    ));
    let mut tokenizer = framed("[CLS] $A [SEP]");
    let step = tokenizer.get_post_processor().unwrap().clone();
    let twice = tokenizers::processors::sequence::Sequence::new(vec![step.clone(), step.clone()]);
    tokenizer.with_post_processor(Some(twice));
    assert!(matches!(
        encode(&tokenizer, text, &tokens),
        Err(EncodeFault::NoEnd)
    ));
    let once = tokenizers::processors::sequence::Sequence::new(vec![step]);
    tokenizer.with_post_processor(Some(once));
    assert!(encode(&tokenizer, text, &tokens).is_ok());
}

fn in_turn(steps: Vec<tokenizers::PostProcessorWrapper>) -> tokenizers::PostProcessorWrapper {
    tokenizers::processors::sequence::Sequence::new(steps).into()
}

fn template(single: &str) -> tokenizers::PostProcessorWrapper {
    framed(single).get_post_processor().unwrap().clone()
}

#[test]
fn steps_at_the_end_are_taken_one_after_the_other() {
    let text = "蒼井レン";
    let tokens = split_text(text);
    let with = |step: tokenizers::PostProcessorWrapper| {
        let mut tokenizer = letters();
        tokenizer.with_post_processor(Some(step));
        encode(&tokenizer, text, &tokens)
    };
    let plain = encode(&letters(), text, &tokens).unwrap().input_ids.len();
    // A template of one piece makes one text, which another can be filled with.
    let twice = with(in_turn(vec![template("$A"), template("[CLS] $A [SEP]")])).unwrap();
    assert_eq!(twice.input_ids.len(), plain + 2);
    // One of two pieces makes two, for which the next has its own pieces.
    let paired = with(in_turn(vec![template("[CLS] $A"), template("$A")])).unwrap();
    assert_eq!(paired.input_ids.len(), plain + 1);
    assert!(matches!(
        with(in_turn(vec![template("[CLS] $A [SEP]"), template("$A")])),
        Err(EncodeFault::NoEnd)
    ));
    // Steps within steps.
    let within = with(in_turn(vec![in_turn(vec![template("[CLS] $A [SEP]")])])).unwrap();
    assert_eq!(within.input_ids.len(), plain + 2);
    assert_eq!(within.first_subtokens[0], 1);
    // A token that is named like a text.
    let mut tokenizer = letters();
    let named = tokenizers::processors::template::TemplateProcessing::builder()
        .try_single("B $A")
        .unwrap()
        .special_tokens(vec![("B", 1u32)])
        .build()
        .unwrap();
    tokenizer.with_post_processor(Some(named));
    assert!(encode(&tokenizer, text, &tokens).is_ok());
}
