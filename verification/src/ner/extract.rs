//! Finding the names in a text: the text is read window by window, and of names that overlap the
//! surer stay.
use crate::glossary::model::Confidence;
use crate::ner::encode;
use crate::ner::encode::{encode, EncodeFault, EncodedWindow, MAX_ENCODER_TOKENS};
use crate::ner::scores;
use crate::ner::scores::{decode_scores, ScoreFault};
use crate::ner::spans;
use crate::ner::spans::resolve_overlaps;
use crate::ner::tokens;
use crate::ner::tokens::{split_text, TextToken};
use crate::ner::types::GlossaryEntity;
use crate::ner::windows;
use crate::ner::windows::{
    fit_window, run_windowed_extraction, token_windows, Cancellation, Means, Step, WindowEncoding,
    WINDOW_OVERLAP, WINDOW_WORDS,
};
use crate::stop_flag::StopFlag;
use std::ops::Range;
use vstd::prelude::*;

verus! {

/// Why a text is not searched.
#[derive(Debug)]
pub enum ExtractFault<E> {
    /// The words of a window have no tokens.
    Encode(EncodeFault),
    /// A single word is too long for the model.
    WordTooLong,
    /// The threshold or the number of scores is wrong.
    Scores(ScoreFault),
    /// The model failed.
    Model(E),
}

/// The words of a text.
pub open spec fn words_of(s: Seq<char>) -> Seq<TextToken> {
    tokens::in_bytes(
        s,
        tokens::words_between(s, tokens::word_breaks(s), tokens::word_breaks(s).len()),
    )
}

/// The window holds a word, and no more than there are.
pub open spec fn in_bounds(window: Range<usize>, n: nat) -> bool {
    window.start < window.end && window.end <= n
}

/// The words of a window.
pub open spec fn words_in(tokens: Seq<TextToken>, window: Range<usize>) -> Seq<TextToken> {
    tokens.subrange(window.start as int, window.end as int)
}

/// These tokens were made of the words of the window.
pub open spec fn is_window_of(
    tokenizer: &tokenizers::Tokenizer,
    s: Seq<char>,
    tokens: Seq<TextToken>,
    window: Range<usize>,
    encoded: EncodedWindow,
) -> bool {
    encode::is_encoded(tokenizer, s, words_in(tokens, window), Ok(encoded))
}

/// These tokens were made of the words of the window, and the model can read them at once.
pub open spec fn is_readable(
    tokenizer: &tokenizers::Tokenizer,
    s: Seq<char>,
    tokens: Seq<TextToken>,
    window: Range<usize>,
    encoded: EncodedWindow,
) -> bool {
    &&& encoded.input_ids@.len() <= MAX_ENCODER_TOKENS
    &&& is_window_of(tokenizer, s, tokens, window, encoded)
}

/// More tokens were made of the words of the window than the model can read at once.
pub open spec fn is_too_long(
    tokenizer: &tokenizers::Tokenizer,
    s: Seq<char>,
    tokens: Seq<TextToken>,
    window: Range<usize>,
) -> bool {
    exists|encoded: EncodedWindow|
        #[trigger] is_window_of(tokenizer, s, tokens, window, encoded) && encoded.input_ids@.len()
            > MAX_ENCODER_TOKENS
}

/// What becomes of a window.
pub open spec fn is_put<E>(
    tokenizer: &tokenizers::Tokenizer,
    s: Seq<char>,
    tokens: Seq<TextToken>,
    window: Range<usize>,
    out: Result<WindowEncoding<EncodedWindow>, ExtractFault<E>>,
) -> bool {
    match out {
        Ok(WindowEncoding::Ready(encoded)) => is_readable(tokenizer, s, tokens, window, encoded),
        Ok(WindowEncoding::Split(left, right)) => {
            &&& window.end - window.start > 1
            &&& is_too_long(tokenizer, s, tokens, window)
            &&& (left, right) == windows::halves(window)
        },
        Err(ExtractFault::Encode(fault)) => encode::is_encoded(
            tokenizer,
            s,
            words_in(tokens, window),
            Err(fault),
        ),
        Err(ExtractFault::WordTooLong) => {
            &&& window.end - window.start == 1
            &&& is_too_long(tokenizer, s, tokens, window)
        },
        Err(_) => false,
    }
}

/// What is found in a window, given what the model says of it.
pub open spec fn is_searched<E, Score: Fn(&EncodedWindow, usize) -> Result<Vec<Confidence>, E>>(
    score: Score,
    s: Seq<char>,
    tokens: Seq<TextToken>,
    threshold: Confidence,
    window: Range<usize>,
    encoded: EncodedWindow,
    out: Result<Vec<GlossaryEntity>, ExtractFault<E>>,
) -> bool {
    let n = (window.end - window.start) as usize;
    match out {
        Ok(found) => exists|given: Vec<Confidence>|
            {
                &&& #[trigger] call_ensures(score, (&encoded, n), Ok(given))
                &&& scores::score_fault(n as nat, given@.len(), threshold) is None
                &&& scores::notes(found@) == scores::found_in(
                    s,
                    words_in(tokens, window),
                    given@,
                    threshold,
                    given@.len(),
                )
            },
        Err(ExtractFault::Model(error)) => call_ensures(score, (&encoded, n), Err(error)),
        Err(ExtractFault::Scores(fault)) => exists|given: Vec<Confidence>|
            {
                &&& #[trigger] call_ensures(score, (&encoded, n), Ok(given))
                &&& scores::score_fault(n as nat, given@.len(), threshold) == Some(fault)
            },
        Err(_) => false,
    }
}

/// The windows lie in a text of `n` words, the first begins at `from`, none begins after the one
/// before it has ended, and the last ends with the text.
pub open spec fn are_linked(windows: Seq<Range<usize>>, from: int, n: nat) -> bool {
    &&& windows.len() > 0
    &&& windows[0].start == from
    &&& windows.last().end == n
    &&& forall|i: int| 0 <= i < windows.len() ==> in_bounds(#[trigger] windows[i], n)
    &&& forall|i: int, j: int|
        0 <= i && j == i + 1 && j < windows.len() ==> (#[trigger] windows[j]).start <= (
        #[trigger] windows[i]).end
}

/// What a search of the words of a text goes by.
pub open spec fn search_means<
    E,
    Score: Fn(&EncodedWindow, usize) -> Result<Vec<Confidence>, E>,
    S: StopFlag,
>(
    tokenizer: &tokenizers::Tokenizer,
    score: Score,
    s: Seq<char>,
    threshold: Confidence,
    cancellation: Cancellation<'_, S>,
) -> Means<EncodedWindow, GlossaryEntity, ExtractFault<E>> {
    Means {
        put: |window: Range<usize>, out: Result<WindowEncoding<EncodedWindow>, ExtractFault<E>>|
            is_put(tokenizer, s, words_of(s), window, out),
        find: |
            window: Range<usize>,
            encoded: EncodedWindow,
            out: Result<Vec<GlossaryEntity>, ExtractFault<E>>,
        |
            is_searched(score, s, words_of(s), threshold, window, encoded, out),
        answers: |asked: nat, answer: bool| cancellation.shows(asked, answer),
    }
}

/// The windows that a text is read in.
pub open spec fn windows_in(s: Seq<char>) -> Seq<Range<usize>> {
    windows::windows_of(words_of(s).len(), WINDOW_WORDS as nat, WINDOW_OVERLAP as nat)
}

/// What comes of a search of a text with words: of all that was found the surer names, unless the
/// search is given up or fails.
pub open spec fn is_result<
    E,
    Score: Fn(&EncodedWindow, usize) -> Result<Vec<Confidence>, E>,
    S: StopFlag,
>(
    tokenizer: &tokenizers::Tokenizer,
    score: Score,
    s: Seq<char>,
    threshold: Confidence,
    cancellation: Cancellation<'_, S>,
    r: Result<Option<Vec<GlossaryEntity>>, ExtractFault<E>>,
) -> bool {
    let means = search_means(tokenizer, score, s, threshold, cancellation);
    exists|steps: Seq<Step<GlossaryEntity>>, ended: Result<
        Option<Seq<GlossaryEntity>>,
        ExtractFault<E>,
    >|
        {
            &&& #[trigger] means.comes_to(windows_in(s), steps, ended)
            &&& match ended {
                Ok(Some(found)) => r matches Ok(Some(entities)) && entities@ == spans::resolved(
                    found,
                ),
                Ok(None) => r matches Ok(None),
                Err(fault) => r == Err::<Option<Vec<GlossaryEntity>>, _>(fault),
            }
        }
}

/// The windows and their parts lie in the text.
proof fn lemma_arising_in_bounds<
    E,
    Encode: FnMut(Range<usize>) -> Result<WindowEncoding<EncodedWindow>, ExtractFault<E>>,
>(
    encode: Encode,
    tokenizer: &tokenizers::Tokenizer,
    s: Seq<char>,
    tokens: Seq<TextToken>,
    all: Seq<Range<usize>>,
    window: Range<usize>,
    steps: nat,
)
    requires
        forall|i: int| 0 <= i < all.len() ==> in_bounds(#[trigger] all[i], tokens.len()),
        forall|w: Range<usize>, out: Result<WindowEncoding<EncodedWindow>, ExtractFault<E>>|
            in_bounds(w, tokens.len()) && #[trigger] call_ensures(encode, (w,), out) ==> is_put(
                tokenizer,
                s,
                tokens,
                w,
                out,
            ),
        windows::arises_in(encode, all, window, steps),
    ensures
        in_bounds(window, tokens.len()),
    decreases steps,
{
    if !all.contains(window) {
        let (whole, left, right) = choose|
            whole: Range<usize>,
            left: Range<usize>,
            right: Range<usize>,
        |
            {
                &&& windows::arises_in(encode, all, whole, (steps - 1) as nat)
                &&& #[trigger] call_ensures(
                    encode,
                    (whole,),
                    Ok(WindowEncoding::Split(left, right)),
                )
                &&& window == left || window == right
            };
        lemma_arising_in_bounds(encode, tokenizer, s, tokens, all, whole, (steps - 1) as nat);
        windows::lemma_halves(whole);
    }
}

/// The windows that are left link on to those that were read.
proof fn lemma_stays_linked<
    E,
    Score: Fn(&EncodedWindow, usize) -> Result<Vec<Confidence>, E>,
    S: StopFlag,
>(
    tokenizer: &tokenizers::Tokenizer,
    score: Score,
    s: Seq<char>,
    threshold: Confidence,
    cancellation: Cancellation<'_, S>,
    list: Seq<Range<usize>>,
    steps: Seq<Step<GlossaryEntity>>,
)
    requires
        are_linked(list, 0, words_of(s).len()),
        search_means(tokenizer, score, s, threshold, cancellation).takes(list, steps),
    ensures
        are_linked(
            windows::read_in(list, steps) + windows::left_after(list, steps),
            0,
            words_of(s).len(),
        ),
    decreases steps.len(),
{
    let n = words_of(s).len();
    let means = search_means(tokenizer, score, s, threshold, cancellation);
    if steps.len() == 0 {
        assert(windows::read_in(list, steps) + windows::left_after(list, steps) =~= list);
    } else {
        let before = steps.drop_last();
        lemma_stays_linked(tokenizer, score, s, threshold, cancellation, list, before);
        let read = windows::read_in(list, before);
        let left = windows::left_after(list, before);
        let was = read + left;
        let now = windows::read_in(list, steps) + windows::left_after(list, steps);
        match steps.last() {
            Step::Found(_) => {
                assert(now =~= was);
            },
            Step::Split(a, b) => {
                let at = read.len() as int;
                assert(was[at] == left[0]);
                assert(in_bounds(was[at], n));
                assert((means.put)(left[0], Ok(WindowEncoding::Split(a, b))));
                assert(is_put::<E>(
                    tokenizer,
                    s,
                    words_of(s),
                    left[0],
                    Ok(WindowEncoding::Split(a, b)),
                ));
                windows::lemma_halves(left[0]);
                assert(now =~= was.take(at) + seq![a, b] + was.skip(at + 1));
                lemma_parts_link(was, 0, n, at, a, b);
            },
        }
    }
}

/// Windows link on where two that link take the place of one.
proof fn lemma_parts_link(
    list: Seq<Range<usize>>,
    from: int,
    n: nat,
    at: int,
    a: Range<usize>,
    b: Range<usize>,
)
    requires
        are_linked(list, from, n),
        0 <= at < list.len(),
        in_bounds(a, n),
        in_bounds(b, n),
        a.start == list[at].start,
        b.start <= a.end,
        b.end == list[at].end,
    ensures
        are_linked(list.take(at) + seq![a, b] + list.skip(at + 1), from, n),
{
    let now = list.take(at) + seq![a, b] + list.skip(at + 1);
    assert forall|i: int| 0 <= i < now.len() implies #[trigger] now[i] == if i < at {
        list[i]
    } else if i == at {
        a
    } else if i == at + 1 {
        b
    } else {
        list[i - 1]
    } by {}
    assert forall|i: int| 0 <= i < now.len() implies in_bounds(#[trigger] now[i], n) by {
        if i < at {
            assert(in_bounds(list[i], n));
        } else if i > at + 1 {
            assert(in_bounds(list[i - 1], n));
        }
    }
    assert forall|i: int, j: int| 0 <= i && j == i + 1 && j < now.len() implies (
    #[trigger] now[j]).start <= (#[trigger] now[i]).end by {
        if j <= at {
            assert(list[j].start <= list[i].end);
        } else if i > at {
            assert(list[j - 1].start <= list[i - 1].end);
        }
    }
}

/// A search by these calls is a search of the words of the text.
proof fn lemma_same_search<
    E,
    Score: Fn(&EncodedWindow, usize) -> Result<Vec<Confidence>, E>,
    S: StopFlag,
>(
    calls: Means<EncodedWindow, GlossaryEntity, ExtractFault<E>>,
    tokenizer: &tokenizers::Tokenizer,
    score: Score,
    s: Seq<char>,
    threshold: Confidence,
    cancellation: Cancellation<'_, S>,
    list: Seq<Range<usize>>,
    steps: Seq<Step<GlossaryEntity>>,
)
    requires
        are_linked(list, 0, words_of(s).len()),
        are_calls_of(calls, tokenizer, score, s, threshold, cancellation),
        calls.takes(list, steps),
    ensures
        search_means(tokenizer, score, s, threshold, cancellation).takes(list, steps),
    decreases steps.len(),
{
    if steps.len() > 0 {
        let means = search_means(tokenizer, score, s, threshold, cancellation);
        let before = steps.drop_last();
        lemma_same_search(calls, tokenizer, score, s, threshold, cancellation, list, before);
        lemma_stays_linked(tokenizer, score, s, threshold, cancellation, list, before);
        let read = windows::read_in(list, before);
        let left = windows::left_after(list, before);
        let asked = windows::asked_in(before);
        let w = left[0];
        assert((read + left)[read.len() as int] == w);
        assert(in_bounds(w, words_of(s).len()));
        match steps.last() {
            Step::Found(some) => {
                let (encoded, found) = choose|encoded: EncodedWindow, found: Vec<GlossaryEntity>|
                    {
                        &&& calls.readies(w, encoded)
                        &&& #[trigger] (calls.find)(w, encoded, Ok(found))
                        &&& found@ == some
                    };
                assert(means.readies(w, encoded));
                assert((means.find)(w, encoded, Ok(found)));
                assert(means.reads(w, asked, some));
            },
            Step::Split(a, b) => {
                assert(means.splits(w, asked, a, b));
            },
        }
    }
}

/// The calls do what a search of the words of the text goes by.
spec fn are_calls_of<
    E,
    Score: Fn(&EncodedWindow, usize) -> Result<Vec<Confidence>, E>,
    S: StopFlag,
>(
    calls: Means<EncodedWindow, GlossaryEntity, ExtractFault<E>>,
    tokenizer: &tokenizers::Tokenizer,
    score: Score,
    s: Seq<char>,
    threshold: Confidence,
    cancellation: Cancellation<'_, S>,
) -> bool {
    let means = search_means(tokenizer, score, s, threshold, cancellation);
    let n = words_of(s).len();
    &&& forall|w: Range<usize>, out: Result<WindowEncoding<EncodedWindow>, ExtractFault<E>>|
        in_bounds(w, n) && #[trigger] (calls.put)(w, out) ==> (means.put)(w, out)
    &&& forall|
        w: Range<usize>,
        encoded: EncodedWindow,
        out: Result<Vec<GlossaryEntity>, ExtractFault<E>>,
    |
        in_bounds(w, n) && #[trigger] (calls.find)(w, encoded, out) ==> (means.find)(
            w,
            encoded,
            out,
        )
    &&& forall|asked: nat, answer: bool| #[trigger]
        (calls.answers)(asked, answer) ==> (means.answers)(asked, answer)
}

/// What a search by these calls comes to is what a search of the words of the text comes to.
proof fn lemma_same_end<
    E,
    Score: Fn(&EncodedWindow, usize) -> Result<Vec<Confidence>, E>,
    S: StopFlag,
>(
    calls: Means<EncodedWindow, GlossaryEntity, ExtractFault<E>>,
    tokenizer: &tokenizers::Tokenizer,
    score: Score,
    s: Seq<char>,
    threshold: Confidence,
    cancellation: Cancellation<'_, S>,
    list: Seq<Range<usize>>,
    steps: Seq<Step<GlossaryEntity>>,
    ended: Result<Option<Seq<GlossaryEntity>>, ExtractFault<E>>,
)
    requires
        are_linked(list, 0, words_of(s).len()),
        are_calls_of(calls, tokenizer, score, s, threshold, cancellation),
        calls.comes_to(list, steps, ended),
    ensures
        search_means(tokenizer, score, s, threshold, cancellation).comes_to(list, steps, ended),
{
    let means = search_means(tokenizer, score, s, threshold, cancellation);
    lemma_same_search(calls, tokenizer, score, s, threshold, cancellation, list, steps);
    lemma_stays_linked(tokenizer, score, s, threshold, cancellation, list, steps);
    let read = windows::read_in(list, steps);
    let left = windows::left_after(list, steps);
    let asked = windows::asked_in(steps);
    if left.len() > 0 {
        let w = left[0];
        assert((read + left)[read.len() as int] == w);
        assert(in_bounds(w, words_of(s).len()));
        assert forall|encoded: EncodedWindow| #[trigger]
            calls.readies(w, encoded) implies means.readies(w, encoded) by {
            assert((calls.put)(w, Ok(WindowEncoding::Ready(encoded))));
        }
        match ended {
            Ok(Some(_)) => {},
            Ok(None) => {
                assert(means.gives_up(w, asked));
            },
            Err(fault) => {
                if (calls.put)(w, Err(fault)) {
                    assert((means.put)(w, Err(fault)));
                } else {
                    let encoded = choose|encoded: EncodedWindow|
                        #[trigger] calls.readies(w, encoded) && (calls.find)(
                            w,
                            encoded,
                            Err(fault),
                        );
                    assert(means.readies(w, encoded));
                    assert((means.find)(w, encoded, Err(fault)));
                }
                assert(means.fails(w, asked, fault));
            },
        }
    }
}

fn words_within(tokens: &Vec<TextToken>, window: &Range<usize>) -> (r: Vec<TextToken>)
    requires
        in_bounds(*window, tokens@.len()),
    ensures
        r@ == words_in(tokens@, *window),
{
    let mut words: Vec<TextToken> = Vec::new();
    let mut i: usize = window.start;
    while i < window.end
        invariant
            in_bounds(*window, tokens@.len()),
            window.start <= i <= window.end,
            words@ == tokens@.subrange(window.start as int, i as int),
        decreases window.end - i,
    {
        words.push(tokens[i]);
        i += 1;
    }
    words
}

proof fn lemma_words_in(s: Seq<char>, tokens: Seq<TextToken>, window: Range<usize>)
    requires
        tokens::are_tokens(s, tokens),
        in_bounds(window, tokens.len()),
    ensures
        tokens::are_tokens(s, words_in(tokens, window)),
{
}

/// The names in a text, each with the model's score if that reaches the threshold; `None` where the
/// search is given up. The model gives a score for each span of a window and each kind.
pub fn extract<
    E,
    Score: Fn(&EncodedWindow, usize) -> Result<Vec<Confidence>, E>,
    S: StopFlag,
>(
    tokenizer: &tokenizers::Tokenizer,
    text: &str,
    threshold: Confidence,
    cancellation: &Cancellation<'_, S>,
    score: &Score,
) -> (r: Result<Option<Vec<GlossaryEntity>>, ExtractFault<E>>)
    requires
        text@.len() + WINDOW_WORDS <= usize::MAX,
        cancellation.can_ask(),
        forall|encoded: EncodedWindow, n: usize| #[trigger] call_requires(*score, (&encoded, n)),
    ensures
        !threshold.in_range() ==> r == Err::<Option<Vec<GlossaryEntity>>, _>(
            ExtractFault::<E>::Scores(ScoreFault::Threshold),
        ),
        threshold.in_range() && words_of(text@).len() == 0 ==> (r matches Ok(Some(none))
            && none@.len() == 0),
        threshold.in_range() && words_of(text@).len() > 0 ==> is_result(
            tokenizer,
            *score,
            text@,
            threshold,
            *cancellation,
            r,
        ),
{
    if !threshold.is_valid() {
        return Err(ExtractFault::Scores(ScoreFault::Threshold));
    }
    let tokens = split_text(text);
    let count: usize = tokens.len();
    if count == 0 {
        return Ok(Some(Vec::new()));
    }
    let list = match token_windows(count, WINDOW_WORDS, WINDOW_OVERLAP) {
        Ok(list) => list,
        Err(_) => return Ok(None),
    };
    proof {
        windows::lemma_windows_link(
            count as nat,
            WINDOW_WORDS as nat,
            WINDOW_OVERLAP as nat,
        );
    }
    let put_in = |window: Range<usize>| -> (out: Result<
        WindowEncoding<EncodedWindow>,
        ExtractFault<E>,
    >)
        requires
            in_bounds(window, tokens@.len()),
            tokens::are_tokens(text@, tokens@),
        ensures
            is_put(tokenizer, text@, tokens@, window, out),
        {
            let words = words_within(&tokens, &window);
            proof {
                lemma_words_in(text@, tokens@, window);
            }
            match encode(tokenizer, text, &words) {
                Ok(encoded) => {
                    assert(is_window_of(tokenizer, text@, tokens@, window, encoded));
                    let fits = encoded.fits(MAX_ENCODER_TOKENS);
                    match fit_window(window, fits, encoded) {
                        Ok(step) => Ok(step),
                        Err(_) => Err(ExtractFault::WordTooLong),
                    }
                },
                Err(fault) => Err(ExtractFault::Encode(fault)),
            }
        };
    let find_in = |window: Range<usize>, encoded: EncodedWindow| -> (out: Result<
        Vec<GlossaryEntity>,
        ExtractFault<E>,
    >)
        requires
            in_bounds(window, tokens@.len()),
            tokens::are_tokens(text@, tokens@),
        ensures
            is_searched(*score, text@, tokens@, threshold, window, encoded, out),
        {
            let words = words_within(&tokens, &window);
            proof {
                lemma_words_in(text@, tokens@, window);
            }
            match score(&encoded, window.end - window.start) {
                Ok(given) => match decode_scores(text, &words, &given, threshold) {
                    Ok(found) => Ok(found),
                    Err(fault) => Err(ExtractFault::Scores(fault)),
                },
                Err(error) => Err(ExtractFault::Model(error)),
            }
        };
    proof {
        assert forall|w: Range<usize>| #[trigger]
            windows::arises(put_in, list@, w) implies in_bounds(w, count as nat) by {
            let steps = choose|steps: nat| #[trigger]
                windows::arises_in(put_in, list@, w, steps);
            lemma_arising_in_bounds(put_in, tokenizer, text@, tokens@, list@, w, steps);
        }
    }
    let ghost all = list@;
    let ghost calls = windows::means_of(put_in, find_in, *cancellation);
    let outcome = run_windowed_extraction(list, cancellation, put_in, find_in);
    let ghost ended = windows::as_found(outcome);
    let ghost means = search_means(tokenizer, *score, text@, threshold, *cancellation);
    let ghost steps = choose|steps: Seq<Step<GlossaryEntity>>| #[trigger]
        calls.comes_to(all, steps, ended);
    proof {
        lemma_same_end(
            calls,
            tokenizer,
            *score,
            text@,
            threshold,
            *cancellation,
            all,
            steps,
            ended,
        );
    }
    assert(means.comes_to(windows_in(text@), steps, ended));
    let r = match outcome {
        Ok(Some(found)) => {
            let mut entities = found;
            resolve_overlaps(&mut entities);
            Ok(Some(entities))
        },
        Ok(None) => Ok(None),
        Err(fault) => Err(fault),
    };
    assert(is_result(tokenizer, *score, text@, threshold, *cancellation, r));
    r
}

proof fn lemma_linked_cover(windows: Seq<Range<usize>>, from: int, n: nat, word: int, i: int)
    requires
        are_linked(windows, from, n),
        0 <= i < windows.len(),
        windows[i].start <= word < n,
    ensures
        windows::is_covered(windows, word),
    decreases windows.len() - i,
{
    if word >= windows[i].end {
        assert(i + 1 < windows.len());
        assert(windows[i + 1].start <= windows[i].end);
        lemma_linked_cover(windows, from, n, word, i + 1);
    }
}

/// No word of a text is passed over: in a search that comes to its end, each lies in a window that
/// was read.
pub proof fn lemma_every_word_is_read<
    E,
    Score: Fn(&EncodedWindow, usize) -> Result<Vec<Confidence>, E>,
    S: StopFlag,
>(
    tokenizer: &tokenizers::Tokenizer,
    score: Score,
    s: Seq<char>,
    threshold: Confidence,
    cancellation: Cancellation<'_, S>,
    steps: Seq<Step<GlossaryEntity>>,
    found: Seq<GlossaryEntity>,
    word: int,
)
    requires
        words_of(s).len() + WINDOW_WORDS <= usize::MAX,
        search_means(tokenizer, score, s, threshold, cancellation).comes_to(
            windows_in(s),
            steps,
            Ok(Some(found)),
        ),
        0 <= word < words_of(s).len(),
    ensures
        windows::is_covered(windows::read_in(windows_in(s), steps), word),
{
    let list = windows_in(s);
    windows::lemma_windows_link(
        words_of(s).len(),
        WINDOW_WORDS as nat,
        WINDOW_OVERLAP as nat,
    );
    lemma_stays_linked(tokenizer, score, s, threshold, cancellation, list, steps);
    let read = windows::read_in(list, steps);
    assert(read + windows::left_after(list, steps) =~= read);
    lemma_linked_cover(read, 0, words_of(s).len(), word, 0);
}

} // verus!
