//! Putting words into the tokens of the model.
use crate::ner::offsets;
use crate::ner::offsets::{byte_places, find_place};
use crate::ner::tokens;
use crate::ner::tokens::TextToken;
use crate::ner::types;
use crate::ner::types::{GlossaryEntityKind, KIND_COUNT};
use crate::text;
use vstd::prelude::*;

verus! {

/// How many tokens the model reads at once.
pub const MAX_ENCODER_TOKENS: usize = 512;

/// How many words the prompt has: a mark and a label for each kind, and a mark that ends it.
pub const PROMPT_WORDS: usize = 13;

/// `tokenizers::Tokenizer`: a tokenizer as it was read from its file. Nothing is known of what is
/// inside.
#[verifier::external_type_specification]
#[verifier::external_body]
pub struct ExTokenizer(tokenizers::Tokenizer);

/// What a tokenizer makes of words: the numbers of the tokens, and the word of each, where it has
/// one.
#[derive(Debug)]
pub struct RawEncoding {
    pub ids: Vec<u32>,
    pub word_ids: Vec<Option<u32>>,
}

/// The words of the tokens are among the first `n`.
pub open spec fn words_below(word_ids: Seq<Option<u32>>, n: nat) -> bool {
    forall|i: int|
        0 <= i < word_ids.len() && (#[trigger] word_ids[i]) is Some ==> word_ids[i]->0 < n
}

/// How a tokenizer cuts tokens that are too many: it keeps up to `max_length` at a time, and each cut
/// begins `stride` tokens before the end of the one before it.
#[derive(Clone, Copy, Debug, PartialEq, Eq, Structural)]
pub struct Truncation {
    pub max_length: usize,
    pub stride: usize,
}

/// `tokenizers::Tokenizer::get_truncation`: how the tokenizer cuts, if it does. It was read from the
/// tokenizer's file, so nothing is stated of it.
#[verifier::external_body]
pub fn truncation_of(tokenizer: &tokenizers::Tokenizer) -> (r: Option<Truncation>) {
    match tokenizer.get_truncation() {
        Some(params) => Some(
            Truncation { max_length: params.max_length, stride: params.stride },
        ),
        None => None,
    }
}

/// `tokenizers::PostProcessor::added_tokens` of the tokenizer's post-processor, for one text: how
/// many tokens it puts around those of the text. It was read from the tokenizer's file, so nothing is
/// stated of it.
#[verifier::external_body]
pub fn added_tokens(tokenizer: &tokenizers::Tokenizer) -> (r: usize) {
    match tokenizer.get_post_processor() {
        Some(processor) => tokenizers::PostProcessor::added_tokens(processor, false),
        None => 0,
    }
}

/// How many tokens of the text are kept at a time; none where the added ones alone are too many.
pub open spec fn room_in(cut: Truncation, added: usize) -> Option<nat> {
    if cut.max_length >= added {
        Some((cut.max_length - added) as nat)
    } else {
        None
    }
}

/// Tokens can be cut, however many there are: there is room beside those that are added, and each cut
/// goes on from the one before it, or nothing is kept at all.
pub open spec fn can_cut(truncation: Option<Truncation>, added: usize) -> bool {
    truncation matches Some(cut) ==> (room_in(cut, added) matches Some(room) && (room == 0 || room
        > cut.stride))
}

/// The tokenizer was asked how it cuts and what it adds, and this was the answer.
pub open spec fn cuts_so(
    tokenizer: &tokenizers::Tokenizer,
    truncation: Option<Truncation>,
    added: usize,
) -> bool {
    &&& call_ensures(truncation_of, (tokenizer,), truncation)
    &&& call_ensures(added_tokens, (tokenizer,), added)
}

/// The tokenizer was asked, and can cut any tokens.
pub open spec fn cuts_any(tokenizer: &tokenizers::Tokenizer) -> bool {
    exists|truncation: Option<Truncation>, added: usize|
        #[trigger] cuts_so(tokenizer, truncation, added) && can_cut(truncation, added)
}

/// `tokenizers::Tokenizer::with_truncation` on a clone: the tokenizer without its cut. Nothing is
/// stated of what is inside.
#[verifier::external_body]
pub fn without_cut(tokenizer: &tokenizers::Tokenizer) -> (r: tokenizers::Tokenizer) {
    let mut uncut = tokenizer.clone();
    let _ = uncut.with_truncation(None);
    uncut
}

// ---------------------------------------------------------------------------------------------
// What a tokenizer does with its tokens at the end
// ---------------------------------------------------------------------------------------------

/// `tokenizers::PostProcessorWrapper`: a step that a tokenizer takes at the end. Nothing is known of
/// what is inside.
#[verifier::external_type_specification]
#[verifier::external_body]
pub struct ExPostProcessor(tokenizers::PostProcessorWrapper);

/// `tokenizers::processors::template::Template`: the pieces that a template puts together. Nothing is
/// known of what is inside.
#[verifier::external_type_specification]
#[verifier::external_body]
pub struct ExTemplate(tokenizers::processors::template::Template);

/// A step at the end.
pub enum PostStep {
    /// Tokens are put around those of each text, or places are moved.
    Around,
    /// The texts are put into a template: which one for one text and which for two, and the tokens
    /// that it has.
    Template {
        single: tokenizers::processors::template::Template,
        pair: tokenizers::processors::template::Template,
        tokens: Vec<String>,
    },
    /// Steps one after the other.
    Steps(Vec<tokenizers::PostProcessorWrapper>),
}

/// A piece of a template: the text that it stands for, or the token that it names.
#[derive(Debug)]
pub struct TemplatePiece {
    pub text: Option<String>,
    pub token: Option<String>,
}

/// `tokenizers::Tokenizer::get_post_processor`: what the tokenizer does at the end, if anything. It
/// was read from the tokenizer's file, so nothing is stated of it.
#[verifier::external_body]
pub fn last_step(tokenizer: &tokenizers::Tokenizer) -> (r: Option<tokenizers::PostProcessorWrapper>) {
    tokenizer.get_post_processor().cloned()
}

/// The variants of `tokenizers::PostProcessorWrapper` apart: of a template `get_pair`, `single` and the
/// names of `get_special_tokens`, of a sequence its steps. They were read from the tokenizer's file, so
/// nothing is stated of them.
#[verifier::external_body]
pub fn opened(step: &tokenizers::PostProcessorWrapper) -> (r: PostStep) {
    match step {
        tokenizers::PostProcessorWrapper::Template(template) => PostStep::Template {
            single: template.single.clone(),
            pair: template.get_pair().clone(),
            tokens: template.get_special_tokens().0.keys().cloned().collect(),
        },
        tokenizers::PostProcessorWrapper::Sequence(steps) => PostStep::Steps(
            steps.as_ref().to_vec(),
        ),
        _ => PostStep::Around,
    }
}

/// `serde_json::to_value` of a template, which writes its pieces one by one: of each the text or the
/// token that it names. They were read from the tokenizer's file, so nothing is stated of them.
#[verifier::external_body]
pub fn pieces_of(template: &tokenizers::processors::template::Template) -> (r: Vec<TemplatePiece>) {
    let written = serde_json::to_value(template).unwrap_or_default();
    let pieces = written.as_array().cloned().unwrap_or_default();
    pieces.iter().map(
        |piece|
            TemplatePiece {
                text: piece["Sequence"]["id"].as_str().map(str::to_owned),
                token: piece["SpecialToken"]["id"].as_str().map(str::to_owned),
            },
    ).collect()
}

/// The piece can be put in: a token that the template has, or a text that there is. The first text is
/// named A.
pub open spec fn fits_in(piece: TemplatePiece, tokens: Seq<String>, texts: nat) -> bool {
    match piece.text {
        Some(name) => texts == 2 || name@ == "A"@,
        None => piece.token matches Some(name) && exists|i: int|
            0 <= i < tokens.len() && (#[trigger] tokens[i])@ == name@,
    }
}

/// What was seen of a step.
pub struct SeenStep {
    pub step: PostStep,
    /// The pieces of the template for as many texts as there are.
    pub pieces: Seq<TemplatePiece>,
}

/// The template was asked for its pieces, and these are they.
pub open spec fn has_pieces(
    template: tokenizers::processors::template::Template,
    pieces: Seq<TemplatePiece>,
) -> bool {
    exists|given: Vec<TemplatePiece>| #[trigger]
        call_ensures(pieces_of, (&template,), given) && given@ == pieces
}

/// The step was opened, and this was seen where it is taken with `texts` texts.
pub open spec fn is_seen(
    step: tokenizers::PostProcessorWrapper,
    texts: nat,
    seen: SeenStep,
) -> bool {
    &&& call_ensures(opened, (&step,), seen.step)
    &&& match seen.step {
        PostStep::Template { single, pair, .. } => {
            &&& texts == 1 ==> has_pieces(single, seen.pieces)
            &&& texts == 2 ==> has_pieces(pair, seen.pieces)
        },
        _ => true,
    }
}

/// The step can be taken with `texts` texts. A template is for one text or for two.
pub open spec fn can_take(seen: SeenStep, texts: nat) -> bool {
    match seen.step {
        PostStep::Template { tokens, .. } => {
            &&& texts == 1 || texts == 2
            &&& forall|i: int|
                0 <= i < seen.pieces.len() ==> fits_in(#[trigger] seen.pieces[i], tokens@, texts)
        },
        _ => true,
    }
}

/// How many texts there are after the steps, where there was one at first: a template makes one of
/// each of its pieces.
pub open spec fn texts_after(seen: Seq<SeenStep>) -> nat
    decreases seen.len(),
{
    if seen.len() == 0 {
        1
    } else {
        match seen.last().step {
            PostStep::Template { .. } => seen.last().pieces.len(),
            _ => texts_after(seen.drop_last()),
        }
    }
}

/// The steps that are left after those that were seen, the next one first.
pub open spec fn steps_after(
    first: Option<tokenizers::PostProcessorWrapper>,
    seen: Seq<SeenStep>,
) -> Seq<tokenizers::PostProcessorWrapper>
    decreases seen.len(),
{
    if seen.len() == 0 {
        match first {
            Some(step) => seq![step],
            None => Seq::empty(),
        }
    } else {
        let left = steps_after(first, seen.drop_last()).drop_first();
        match seen.last().step {
            PostStep::Steps(steps) => steps@ + left,
            _ => left,
        }
    }
}

/// The steps were seen one after the other, and each can be taken.
pub open spec fn are_taken(
    first: Option<tokenizers::PostProcessorWrapper>,
    seen: Seq<SeenStep>,
) -> bool
    decreases seen.len(),
{
    seen.len() > 0 ==> {
        let before = seen.drop_last();
        &&& are_taken(first, before)
        &&& steps_after(first, before).len() > 0
        &&& is_seen(steps_after(first, before)[0], texts_after(before), seen.last())
        &&& can_take(seen.last(), texts_after(before))
    }
}

/// The steps of the tokenizer were seen, and all can be taken.
pub open spec fn ends_well(tokenizer: &tokenizers::Tokenizer) -> bool {
    exists|first: Option<tokenizers::PostProcessorWrapper>, seen: Seq<SeenStep>|
        {
            &&& #[trigger] call_ensures(last_step, (tokenizer,), first)
            &&& #[trigger] are_taken(first, seen)
            &&& steps_after(first, seen).len() == 0
        }
}

/// A step of the tokenizer was seen that cannot be taken, or there are more steps than can be counted.
pub open spec fn ends_badly(tokenizer: &tokenizers::Tokenizer) -> bool {
    exists|first: Option<tokenizers::PostProcessorWrapper>, seen: Seq<SeenStep>|
        {
            &&& #[trigger] call_ensures(last_step, (tokenizer,), first)
            &&& #[trigger] are_taken(first, seen)
            &&& steps_after(first, seen).len() > 0
            &&& seen.len() == usize::MAX || exists|next: SeenStep|
                #[trigger] is_seen(steps_after(first, seen)[0], texts_after(seen), next)
                    && !can_take(next, texts_after(seen))
        }
}

fn has_name(tokens: &Vec<String>, name: &str) -> (r: bool)
    ensures
        r == exists|i: int| 0 <= i < tokens@.len() && (#[trigger] tokens@[i])@ == name@,
{
    let mut i: usize = 0;
    while i < tokens.len()
        invariant
            i <= tokens@.len(),
            forall|j: int| 0 <= j < i ==> (#[trigger] tokens@[j])@ != name@,
        decreases tokens@.len() - i,
    {
        if text::same(tokens[i].as_str(), name) {
            assert(tokens@[i as int]@ == name@);
            return true;
        }
        i += 1;
    }
    false
}

/// Whether every piece can be put in.
fn all_fit(pieces: &Vec<TemplatePiece>, tokens: &Vec<String>, texts: usize) -> (r: bool)
    ensures
        r == forall|i: int|
            0 <= i < pieces@.len() ==> fits_in(#[trigger] pieces@[i], tokens@, texts as nat),
{
    let mut i: usize = 0;
    while i < pieces.len()
        invariant
            i <= pieces@.len(),
            forall|j: int|
                0 <= j < i ==> fits_in(#[trigger] pieces@[j], tokens@, texts as nat),
        decreases pieces@.len() - i,
    {
        let fits = match &pieces[i].text {
            Some(name) => texts == 2 || text::same(name.as_str(), "A"),
            None => match &pieces[i].token {
                Some(name) => has_name(tokens, name.as_str()),
                None => false,
            },
        };
        assert(fits == fits_in(pieces@[i as int], tokens@, texts as nat));
        if !fits {
            return false;
        }
        i += 1;
    }
    true
}

/// Whether all steps at the end can be taken. They are seen up to the first that cannot.
fn check_end(tokenizer: &tokenizers::Tokenizer) -> (r: bool)
    ensures
        r ==> ends_well(tokenizer),
        !r ==> ends_badly(tokenizer),
{
    let first = last_step(tokenizer);
    let ghost start = first;
    let ghost mut seen: Seq<SeenStep> = Seq::empty();
    let mut left: Vec<tokenizers::PostProcessorWrapper> = Vec::new();
    match first {
        Some(step) => {
            left.push(step);
        },
        None => {},
    }
    assert(left@ =~= steps_after(start, seen));
    let mut texts: usize = 1;
    let mut count: usize = 0;
    while left.len() > 0
        invariant
            call_ensures(last_step, (tokenizer,), start),
            are_taken(start, seen),
            left@ == steps_after(start, seen),
            texts == texts_after(seen),
            count == seen.len(),
        decreases usize::MAX - count,
    {
        if count == usize::MAX {
            assert(are_taken(start, seen));
            return false;
        }
        let ghost before = left@;
        let step = left.remove(0);
        assert(step == before[0]);
        assert(left@ =~= before.drop_first());
        let kind = opened(&step);
        let ghost mut next = SeenStep { step: kind, pieces: Seq::empty() };
        match kind {
            PostStep::Around => {},
            PostStep::Template { single, pair, tokens } => {
                if texts != 1 && texts != 2 {
                    assert(is_seen(before[0], texts as nat, next));
                    assert(!can_take(next, texts as nat));
                    return false;
                }
                let pieces = if texts == 1 {
                    pieces_of(&single)
                } else {
                    pieces_of(&pair)
                };
                proof {
                    if texts == 1 {
                        assert(has_pieces(single, pieces@));
                    } else {
                        assert(has_pieces(pair, pieces@));
                    }
                    next = SeenStep { step: next.step, pieces: pieces@ };
                    assert(is_seen(before[0], texts as nat, next));
                }
                if !all_fit(&pieces, &tokens, texts) {
                    assert(!can_take(next, texts as nat));
                    return false;
                }
                texts = pieces.len();
            },
            PostStep::Steps(steps) => {
                let mut steps = steps;
                let ghost inner = steps@;
                steps.append(&mut left);
                left = steps;
                assert(left@ =~= inner + before.drop_first());
            },
        }
        proof {
            assert(is_seen(before[0], texts_after(seen), next));
            let longer = seen.push(next);
            assert(longer.drop_last() =~= seen);
            seen = longer;
        }
        count += 1;
    }
    true
}

/// `tokenizers::Tokenizer::encode` on words that are already split, with special tokens: the
/// numbers of the tokens, and for each the place of the word that it was made of. It panics where
/// tokens have to be cut and the cut leaves no room for its stride, and where a template at the end
/// lacks what it names or is for another number of texts. Which tokens they are rests on the file that
/// the tokenizer was read from, and on chance where its model drops merges, so nothing more is stated
/// of them.
#[verifier::external_body]
pub fn encode_words(tokenizer: &tokenizers::Tokenizer, words: Vec<String>) -> (r: Result<
    RawEncoding,
    String,
>)
    requires
        cuts_any(tokenizer),
        ends_well(tokenizer),
    ensures
        r matches Ok(raw) ==> words_below(raw.word_ids@, words@.len()),
{
    let input = tokenizers::InputSequence::PreTokenizedOwned(words.into());
    match tokenizer.encode(tokenizers::EncodeInput::Single(input), true) {
        Ok(encoding) => Ok(
            RawEncoding {
                ids: encoding.get_ids().to_vec(),
                word_ids: encoding.get_word_ids().to_vec(),
            },
        ),
        Err(error) => Err(error.to_string()),
    }
}

/// A window in the tokens of the model.
#[derive(Debug)]
pub struct EncodedWindow {
    pub input_ids: Vec<i64>,
    /// The first token of each word, those of the prompt first.
    pub first_subtokens: Vec<usize>,
    pub prompt_words: usize,
}

/// Why a window has no tokens.
#[derive(Debug)]
pub enum EncodeFault {
    Tokenizer(String),
    /// No token was made of the word at this place.
    OmittedWord(usize),
    /// The tokenizer cuts so short that no room is left.
    NoRoom,
    /// What the tokenizer does at the end cannot be done.
    NoEnd,
}

/// The first `n` labels, each behind its mark.
pub open spec fn labels(n: nat) -> Seq<Seq<char>>
    decreases n,
{
    if n == 0 {
        Seq::empty()
    } else {
        labels((n - 1) as nat).push("<<ENT>>"@).push(types::every_kind()[n - 1].label())
    }
}

/// The words that tell the model what to look for.
pub open spec fn prompt() -> Seq<Seq<char>> {
    labels(6).push("<<SEP>>"@)
}

/// The characters of the words of a text.
pub open spec fn surfaces(s: Seq<char>, tokens: Seq<TextToken>) -> Seq<Seq<char>> {
    Seq::new(
        tokens.len(),
        |i: int|
            s.subrange(
                offsets::place_in(s, tokens[i].start as nat),
                offsets::place_in(s, tokens[i].end as nat),
            ),
    )
}

/// The words that are put into tokens: those of the prompt, then those of the text.
pub fn prompt_words(text: &str, tokens: &Vec<TextToken>) -> (r: Vec<String>)
    requires
        tokens::are_tokens(text@, tokens@),
    ensures
        text::texts(r@) == prompt() + surfaces(text@, tokens@),
        r@.len() == PROMPT_WORDS + tokens@.len(),
{
    let kinds = GlossaryEntityKind::all();
    let mut words: Vec<String> = Vec::new();
    let mut k: usize = 0;
    assert(text::texts(words@) =~= Seq::empty());
    while k < KIND_COUNT
        invariant
            kinds@ == types::every_kind(),
            k <= KIND_COUNT,
            words@.len() == 2 * k,
            text::texts(words@) == labels(k as nat),
        decreases KIND_COUNT - k,
    {
        let ghost before = words@;
        words.push("<<ENT>>".to_owned());
        let ghost mid = words@;
        words.push(kinds[k].model_label().to_owned());
        assert(text::texts(mid) =~= text::texts(before).push("<<ENT>>"@));
        assert(text::texts(words@) =~= text::texts(mid).push(
            types::every_kind()[k as int].label(),
        ));
        k += 1;
    }
    let ghost before = words@;
    words.push("<<SEP>>".to_owned());
    assert(text::texts(words@) =~= text::texts(before).push("<<SEP>>"@));
    let v = text::chars_of(text);
    let places = byte_places(text);
    let mut i: usize = 0;
    assert(prompt() + surfaces(text@, tokens@).take(0) =~= prompt());
    while i < tokens.len()
        invariant
            i <= tokens@.len(),
            tokens::are_tokens(text@, tokens@),
            v@ == text@,
            places@.len() == text@.len() + 1,
            forall|k: int|
                0 <= k <= text@.len() ==> #[trigger] places@[k] == offsets::byte_at(text@, k),
            words@.len() == PROMPT_WORDS + i,
            text::texts(words@) == prompt() + surfaces(text@, tokens@).take(i as int),
        decreases tokens@.len() - i,
    {
        let p: usize = find_place(&places, tokens[i].start, text);
        let q: usize = find_place(&places, tokens[i].end, text);
        proof {
            if q < p {
                offsets::lemma_bytes_increase(text@, q as int, p as int);
            }
        }
        let ghost had = words@;
        let word = text::string_of_range(&v, p, q);
        words.push(word);
        proof {
            let all = surfaces(text@, tokens@);
            assert(all[i as int] == word@);
            assert(all.take(i + 1) =~= all.take(i as int).push(word@));
            assert(text::texts(words@) =~= text::texts(had).push(word@));
            assert(prompt() + all.take(i + 1) =~= (prompt() + all.take(i as int)).push(word@));
        }
        i += 1;
    }
    assert(surfaces(text@, tokens@).take(i as int) =~= surfaces(text@, tokens@));
    words
}

/// The first token that was made of word `w`, or the number of tokens.
pub open spec fn first_token(word_ids: Seq<Option<u32>>, w: int) -> int
    decreases word_ids.len(),
{
    if word_ids.len() == 0 {
        0
    } else if word_ids[0] is Some && word_ids[0]->0 == w {
        0
    } else {
        1 + first_token(word_ids.drop_first(), w)
    }
}

/// The first of the first `n` words of which no token was made.
pub open spec fn first_omitted(word_ids: Seq<Option<u32>>, n: nat) -> Option<nat>
    decreases n,
{
    if n == 0 {
        None
    } else {
        match first_omitted(word_ids, (n - 1) as nat) {
            Some(w) => Some(w),
            None => if first_token(word_ids, n - 1) < word_ids.len() {
                None
            } else {
                Some((n - 1) as nat)
            },
        }
    }
}

proof fn lemma_omitted_stays(word_ids: Seq<Option<u32>>, m: nat, n: nat)
    requires
        m <= n,
        first_omitted(word_ids, m) is Some,
    ensures
        first_omitted(word_ids, n) == first_omitted(word_ids, m),
    decreases n,
{
    if m < n {
        lemma_omitted_stays(word_ids, m, (n - 1) as nat);
    }
}

fn find_token(word_ids: &Vec<Option<u32>>, w: usize) -> (r: usize)
    ensures
        r == first_token(word_ids@, w as int),
        r <= word_ids@.len(),
{
    let mut i: usize = 0;
    assert(word_ids@.skip(0) =~= word_ids@);
    while i < word_ids.len()
        invariant
            i <= word_ids@.len(),
            first_token(word_ids@, w as int) == i + first_token(
                word_ids@.skip(i as int),
                w as int,
            ),
        decreases word_ids@.len() - i,
    {
        assert(word_ids@.skip(i as int)[0] == word_ids@[i as int]);
        match word_ids[i] {
            Some(word) => {
                if word as u64 == w as u64 {
                    return i;
                }
            },
            None => {},
        }
        assert(word_ids@.skip(i as int).drop_first() =~= word_ids@.skip(i + 1));
        i += 1;
    }
    i
}

/// The window that the tokens make: the number of each token, and the first token of each word.
pub open spec fn is_window(raw: RawEncoding, words: nat, window: EncodedWindow) -> bool {
    &&& window.prompt_words == PROMPT_WORDS
    &&& window.input_ids@.len() == raw.ids@.len()
    &&& forall|i: int| 0 <= i < raw.ids@.len() ==> #[trigger] window.input_ids@[i] == raw.ids@[i]
    &&& window.first_subtokens@.len() == words
    &&& forall|w: int|
        0 <= w < words ==> #[trigger] window.first_subtokens@[w] == first_token(raw.word_ids@, w)
}

/// What becomes of the tokens: a window, unless no token was made of a word.
pub open spec fn window_result(
    raw: RawEncoding,
    words: nat,
    r: Result<EncodedWindow, EncodeFault>,
) -> bool {
    match first_omitted(raw.word_ids@, words) {
        Some(w) => r == Err::<EncodedWindow, _>(EncodeFault::OmittedWord(w as usize)),
        None => r matches Ok(window) && is_window(raw, words, window),
    }
}

/// The window that the tokens of `words` words make.
pub fn window_of(raw: &RawEncoding, words: usize) -> (r: Result<EncodedWindow, EncodeFault>)
    requires
        words_below(raw.word_ids@, words as nat),
    ensures
        window_result(*raw, words as nat, r),
{
    let mut first_subtokens: Vec<usize> = Vec::new();
    let mut w: usize = 0;
    while w < words
        invariant
            w <= words,
            first_omitted(raw.word_ids@, w as nat) is None,
            first_subtokens@.len() == w,
            forall|k: int|
                0 <= k < w ==> #[trigger] first_subtokens@[k] == first_token(raw.word_ids@, k),
        decreases words - w,
    {
        let at: usize = find_token(&raw.word_ids, w);
        if at >= raw.word_ids.len() {
            proof {
                assert(first_omitted(raw.word_ids@, (w + 1) as nat) == Some(w as nat));
                lemma_omitted_stays(raw.word_ids@, (w + 1) as nat, words as nat);
            }
            return Err(EncodeFault::OmittedWord(w));
        }
        assert(first_omitted(raw.word_ids@, (w + 1) as nat) is None);
        first_subtokens.push(at);
        w += 1;
    }
    let mut input_ids: Vec<i64> = Vec::new();
    let mut i: usize = 0;
    while i < raw.ids.len()
        invariant
            i <= raw.ids@.len(),
            input_ids@.len() == i,
            forall|k: int| 0 <= k < i ==> #[trigger] input_ids@[k] == raw.ids@[k],
        decreases raw.ids@.len() - i,
    {
        input_ids.push(raw.ids[i] as i64);
        i += 1;
    }
    Ok(EncodedWindow { input_ids, first_subtokens, prompt_words: PROMPT_WORDS })
}

/// How many of the tokens were made of words.
pub open spec fn word_tokens(word_ids: Seq<Option<u32>>) -> nat
    decreases word_ids.len(),
{
    if word_ids.len() == 0 {
        0
    } else if word_ids.last() is Some {
        word_tokens(word_ids.drop_last()) + 1
    } else {
        word_tokens(word_ids.drop_last())
    }
}

fn count_word_tokens(word_ids: &Vec<Option<u32>>) -> (r: usize)
    ensures
        r == word_tokens(word_ids@),
{
    let mut n: usize = 0;
    let mut i: usize = 0;
    assert(word_ids@.take(0) =~= Seq::empty());
    while i < word_ids.len()
        invariant
            i <= word_ids@.len(),
            n <= i,
            n == word_tokens(word_ids@.take(i as int)),
        decreases word_ids@.len() - i,
    {
        assert(word_ids@.take(i + 1).drop_last() =~= word_ids@.take(i as int));
        assert(word_ids@.take(i + 1).last() == word_ids@[i as int]);
        if word_ids[i].is_some() {
            n += 1;
        }
        i += 1;
    }
    assert(word_ids@.take(i as int) =~= word_ids@);
    n
}

/// The tokenizer was given the prompt and these words, and gave this back.
pub open spec fn gives(
    tokenizer: &tokenizers::Tokenizer,
    s: Seq<char>,
    tokens: Seq<TextToken>,
    out: Result<RawEncoding, String>,
) -> bool {
    exists|words: Vec<String>|
        {
            &&& text::texts(words@) == prompt() + surfaces(s, tokens)
            &&& #[trigger] call_ensures(encode_words, (tokenizer, words), out)
        }
}

/// The words were put into tokens, no more than there is room for, and this was made of them.
pub open spec fn is_made(
    tokenizer: &tokenizers::Tokenizer,
    s: Seq<char>,
    tokens: Seq<TextToken>,
    room: Option<nat>,
    r: Result<EncodedWindow, EncodeFault>,
) -> bool {
    exists|raw: RawEncoding|
        {
            &&& #[trigger] gives(tokenizer, s, tokens, Ok(raw))
            &&& room matches Some(most) ==> word_tokens(raw.word_ids@) <= most
            &&& window_result(raw, (PROMPT_WORDS + tokens.len()) as nat, r)
        }
}

/// More tokens were made of the words than there is room for.
pub open spec fn is_too_much(
    tokenizer: &tokenizers::Tokenizer,
    s: Seq<char>,
    tokens: Seq<TextToken>,
    room: Option<nat>,
) -> bool {
    exists|raw: RawEncoding|
        {
            &&& #[trigger] gives(tokenizer, s, tokens, Ok(raw))
            &&& room matches Some(most) && word_tokens(raw.word_ids@) > most
        }
}

/// What comes of putting these words into the tokens of a tokenizer that can cut any tokens.
pub open spec fn is_put_by(
    tokenizer: &tokenizers::Tokenizer,
    s: Seq<char>,
    tokens: Seq<TextToken>,
    room: Option<nat>,
    r: Result<EncodedWindow, EncodeFault>,
) -> bool {
    match r {
        Err(EncodeFault::NoEnd) => ends_badly(tokenizer),
        Err(EncodeFault::NoRoom) => ends_well(tokenizer) && is_too_much(
            tokenizer,
            s,
            tokens,
            room,
        ),
        Err(EncodeFault::Tokenizer(message)) => ends_well(tokenizer) && gives(
            tokenizer,
            s,
            tokens,
            Err(message),
        ),
        _ => ends_well(tokenizer) && is_made(tokenizer, s, tokens, room, r),
    }
}

/// What comes of putting these words into the tokens of a tokenizer that can keep `room` of them, and
/// cannot cut more: it is done without the cut, and is good where nothing has to be cut.
pub open spec fn is_put_uncut(
    tokenizer: &tokenizers::Tokenizer,
    s: Seq<char>,
    tokens: Seq<TextToken>,
    room: nat,
    r: Result<EncodedWindow, EncodeFault>,
) -> bool {
    exists|uncut: tokenizers::Tokenizer|
        {
            &&& #[trigger] call_ensures(without_cut, (tokenizer,), uncut)
            &&& {
                ||| is_put_by(&uncut, s, tokens, Some(room), r)
                ||| r == Err::<EncodedWindow, _>(EncodeFault::NoRoom) && cuts_still(&uncut)
            }
        }
}

/// The tokenizer was asked, and cannot cut any tokens.
pub open spec fn cuts_still(tokenizer: &tokenizers::Tokenizer) -> bool {
    exists|truncation: Option<Truncation>, added: usize|
        #[trigger] cuts_so(tokenizer, truncation, added) && !can_cut(truncation, added)
}

/// What comes of putting these words into the tokens of the model.
pub open spec fn is_encoded(
    tokenizer: &tokenizers::Tokenizer,
    s: Seq<char>,
    tokens: Seq<TextToken>,
    r: Result<EncodedWindow, EncodeFault>,
) -> bool {
    exists|truncation: Option<Truncation>, added: usize|
        {
            &&& #[trigger] cuts_so(tokenizer, truncation, added)
            &&& if can_cut(truncation, added) {
                is_put_by(tokenizer, s, tokens, None, r)
            } else {
                match room_in(truncation->0, added) {
                    Some(room) => is_put_uncut(tokenizer, s, tokens, room, r),
                    None => r == Err::<EncodedWindow, _>(EncodeFault::NoRoom),
                }
            }
        }
}

/// How a tokenizer takes tokens that are too many.
enum Cutting {
    /// It can cut any tokens.
    Any,
    /// It keeps this many, and cannot cut more.
    UpTo(usize),
    /// It has no room at all.
    Nothing,
}

spec fn is_cutting(truncation: Option<Truncation>, added: usize, cutting: Cutting) -> bool {
    match cutting {
        Cutting::Any => can_cut(truncation, added),
        Cutting::UpTo(room) => !can_cut(truncation, added) && room_in(truncation->0, added) == Some(
            room as nat,
        ),
        Cutting::Nothing => !can_cut(truncation, added) && room_in(truncation->0, added) is None,
    }
}

fn cutting_of(tokenizer: &tokenizers::Tokenizer) -> (r: Cutting)
    ensures
        exists|truncation: Option<Truncation>, added: usize|
            #[trigger] cuts_so(tokenizer, truncation, added) && is_cutting(truncation, added, r),
{
    let truncation = truncation_of(tokenizer);
    let added: usize = added_tokens(tokenizer);
    let r = match truncation {
        Some(cut) => if cut.max_length < added {
            Cutting::Nothing
        } else if cut.max_length == added || cut.max_length - added > cut.stride {
            Cutting::Any
        } else {
            Cutting::UpTo(cut.max_length - added)
        },
        None => Cutting::Any,
    };
    assert(cuts_so(tokenizer, truncation, added) && is_cutting(truncation, added, r));
    r
}

/// Puts the words into the tokens of a tokenizer that can cut any tokens.
fn put_words(
    tokenizer: &tokenizers::Tokenizer,
    text: &str,
    tokens: &Vec<TextToken>,
    room: Option<usize>,
) -> (r: Result<EncodedWindow, EncodeFault>)
    requires
        tokens::are_tokens(text@, tokens@),
        cuts_any(tokenizer),
    ensures
        is_put_by(
            tokenizer,
            text@,
            tokens@,
            match room {
                Some(most) => Some(most as nat),
                None => None,
            },
            r,
        ),
{
    if !check_end(tokenizer) {
        return Err(EncodeFault::NoEnd);
    }
    let words = prompt_words(text, tokens);
    let n: usize = words.len();
    let ghost given = words;
    assert(text::texts(given@) == prompt() + surfaces(text@, tokens@));
    match encode_words(tokenizer, words) {
        Ok(raw) => {
            assert(call_ensures(encode_words, (tokenizer, given), Ok(raw)));
            assert(gives(tokenizer, text@, tokens@, Ok(raw)));
            match room {
                Some(most) => {
                    if count_word_tokens(&raw.word_ids) > most {
                        return Err(EncodeFault::NoRoom);
                    }
                },
                None => {},
            }
            let r = window_of(&raw, n);
            assert(window_result(raw, (PROMPT_WORDS + tokens@.len()) as nat, r));
            r
        },
        Err(message) => {
            assert(call_ensures(encode_words, (tokenizer, given), Err(message)));
            assert(gives(tokenizer, text@, tokens@, Err(message)));
            Err(EncodeFault::Tokenizer(message))
        },
    }
}

/// Puts the words of a window into the tokens of the model. What the tokens are rests on the
/// tokenizer; what is made of them is [`window_of`]. A tokenizer that keeps no more tokens than its
/// stride cannot cut: it is used where nothing has to be cut.
pub fn encode(tokenizer: &tokenizers::Tokenizer, text: &str, tokens: &Vec<TextToken>) -> (r: Result<
    EncodedWindow,
    EncodeFault,
>)
    requires
        tokens::are_tokens(text@, tokens@),
    ensures
        is_encoded(tokenizer, text@, tokens@, r),
{
    let cutting = cutting_of(tokenizer);
    let ghost (truncation, added): (Option<Truncation>, usize) = choose|
        truncation: Option<Truncation>,
        added: usize,
    | #[trigger] cuts_so(tokenizer, truncation, added) && is_cutting(truncation, added, cutting);
    match cutting {
        Cutting::Any => {
            assert(cuts_any(tokenizer));
            put_words(tokenizer, text, tokens, None)
        },
        Cutting::UpTo(room) => {
            let uncut = without_cut(tokenizer);
            assert(call_ensures(without_cut, (tokenizer,), uncut));
            match cutting_of(&uncut) {
                Cutting::Any => {
                    assert(cuts_any(&uncut));
                    let r = put_words(&uncut, text, tokens, Some(room));
                    assert(is_put_uncut(tokenizer, text@, tokens@, room as nat, r));
                    r
                },
                _ => {
                    assert(cuts_still(&uncut));
                    let r: Result<EncodedWindow, EncodeFault> = Err(EncodeFault::NoRoom);
                    assert(is_put_uncut(tokenizer, text@, tokens@, room as nat, r));
                    r
                },
            }
        },
        Cutting::Nothing => Err(EncodeFault::NoRoom),
    }
}

impl EncodedWindow {
    /// Whether the model can read the window at once.
    pub fn fits(&self, max_tokens: usize) -> (r: bool)
        ensures
            r == (self.input_ids@.len() <= max_tokens),
    {
        self.input_ids.len() <= max_tokens
    }
}

/// The words before the text: for each of the six kinds a mark and the kind's label, then the mark
/// that ends them.
pub proof fn lemma_prompt(k: int)
    requires
        0 <= k < 6,
    ensures
        prompt().len() == 13,
        prompt()[2 * k] == "<<ENT>>"@,
        prompt()[2 * k + 1] == types::every_kind()[k].label(),
        prompt()[12] == "<<SEP>>"@,
{
    reveal_with_fuel(labels, 8);
    assert(labels(0).len() == 0);
    assert(labels(1).len() == 2);
    assert(labels(2).len() == 4);
    assert(labels(3).len() == 6);
    assert(labels(4).len() == 8);
    assert(labels(5).len() == 10);
    assert(labels(6).len() == 12);
}

/// The token by which a word is known is the first that was made of it; where none was, there is no
/// such token.
pub proof fn lemma_first_token(word_ids: Seq<Option<u32>>, w: int, i: int)
    requires
        0 <= i <= word_ids.len(),
        i < word_ids.len() ==> (word_ids[i] matches Some(id) && id == w),
        forall|j: int| 0 <= j < i ==> !((#[trigger] word_ids[j]) matches Some(id) && id == w),
    ensures
        first_token(word_ids, w) == i,
    decreases word_ids.len(),
{
    if i > 0 {
        let rest = word_ids.drop_first();
        assert(!(word_ids[0] matches Some(id) && id == w));
        if i < word_ids.len() {
            assert(rest[i - 1] == word_ids[i]);
        }
        assert forall|j: int| 0 <= j < i - 1 implies !((#[trigger] rest[j]) matches Some(id) && id
            == w) by {
            assert(rest[j] == word_ids[j + 1]);
        }
        lemma_first_token(rest, w, i - 1);
    }
}

proof fn lemma_token_bound(word_ids: Seq<Option<u32>>, w: int)
    ensures
        0 <= first_token(word_ids, w) <= word_ids.len(),
        first_token(word_ids, w) < word_ids.len() ==> word_ids[first_token(word_ids, w)]
            == Some(w as u32) && 0 <= w <= u32::MAX,
    decreases word_ids.len(),
{
    if word_ids.len() > 0 && !(word_ids[0] is Some && word_ids[0]->0 == w) {
        let rest = word_ids.drop_first();
        lemma_token_bound(rest, w);
        if first_token(rest, w) < rest.len() {
            assert(rest[first_token(rest, w)] == word_ids[first_token(rest, w) + 1]);
        }
    }
}

proof fn lemma_first_omitted(word_ids: Seq<Option<u32>>, n: nat)
    ensures
        first_omitted(word_ids, n) matches Some(w) ==> w < n && first_token(word_ids, w as int)
            >= word_ids.len() && forall|v: int|
            0 <= v < w ==> #[trigger] first_token(word_ids, v) < word_ids.len(),
        first_omitted(word_ids, n) is None ==> forall|v: int|
            0 <= v < n ==> #[trigger] first_token(word_ids, v) < word_ids.len(),
    decreases n,
{
    if n > 0 {
        lemma_first_omitted(word_ids, (n - 1) as nat);
    }
}

/// Where a word has no token, the first such word is named and there is no window. Else every token
/// stands in the window, and of each word the first token that was made of it.
pub proof fn lemma_window_of_tokens(
    raw: RawEncoding,
    words: nat,
    r: Result<EncodedWindow, EncodeFault>,
    w: int,
)
    requires
        words <= u32::MAX,
        window_result(raw, words, r),
        0 <= w < words,
    ensures
        r is Ok ==> ({
            let window = r->Ok_0;
            &&& window.prompt_words == 13
            &&& window.input_ids@.len() == raw.ids@.len()
            &&& forall|i: int|
                0 <= i < raw.ids@.len() ==> #[trigger] window.input_ids@[i] == raw.ids@[i]
            &&& window.first_subtokens@.len() == words
            &&& window.first_subtokens@[w] < raw.word_ids@.len()
            &&& raw.word_ids@[window.first_subtokens@[w] as int] == Some(w as u32)
            &&& forall|j: int|
                0 <= j < window.first_subtokens@[w] ==> #[trigger] raw.word_ids@[j] != Some(
                    w as u32,
                )
        }),
        (forall|j: int| 0 <= j < raw.word_ids@.len() ==> #[trigger] raw.word_ids@[j] != Some(w as u32))
            ==> (r matches Err(EncodeFault::OmittedWord(v)) && v <= w),
        r matches Err(EncodeFault::OmittedWord(v)) ==> v < words && forall|j: int|
            0 <= j < raw.word_ids@.len() ==> #[trigger] raw.word_ids@[j] != Some(v as u32),
{
    let ids = raw.word_ids@;
    lemma_first_omitted(ids, words);
    lemma_token_bound(ids, w);
    lemma_before_first_token(ids, w);
    match first_omitted(ids, words) {
        Some(v) => {
            lemma_before_first_token(ids, v as int);
        },
        None => {
            assert(first_token(ids, w) < ids.len());
        },
    }
}

proof fn lemma_before_first_token(word_ids: Seq<Option<u32>>, w: int)
    requires
        0 <= w <= u32::MAX,
    ensures
        forall|j: int|
            0 <= j < first_token(word_ids, w) && j < word_ids.len() ==> #[trigger] word_ids[j]
                != Some(w as u32),
    decreases word_ids.len(),
{
    if word_ids.len() > 0 && !(word_ids[0] is Some && word_ids[0]->0 == w) {
        let rest = word_ids.drop_first();
        lemma_before_first_token(rest, w);
        assert forall|j: int|
            0 <= j < first_token(word_ids, w) && j < word_ids.len() implies #[trigger] word_ids[j]
            != Some(w as u32) by {
            if j > 0 {
                assert(rest[j - 1] == word_ids[j]);
            }
        }
    }
}

/// The words of the text are its characters from where a word begins to before where it ends.
pub proof fn lemma_surfaces(s: Seq<char>, tokens: Seq<TextToken>, i: int, p: int, q: int)
    requires
        0 <= i < tokens.len(),
        0 <= p <= q <= s.len(),
        vstd::utf8::encode_utf8(s.take(p)).len() == tokens[i].start,
        vstd::utf8::encode_utf8(s.take(q)).len() == tokens[i].end,
    ensures
        surfaces(s, tokens).len() == tokens.len(),
        surfaces(s, tokens)[i] == s.subrange(p, q),
{
    offsets::lemma_place_in(s, p);
    offsets::lemma_place_in(s, q);
}

} // verus!
