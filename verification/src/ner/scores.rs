//! Reading the scores of the model.
use crate::glossary::model::Confidence;
use crate::ner::offsets;
use crate::ner::offsets::{byte_places, find_place};
use crate::ner::tokens;
use crate::ner::tokens::TextToken;
use crate::ner::types;
use crate::ner::types::{GlossaryEntity, GlossaryEntityKind, KIND_COUNT};
use crate::text;
use vstd::prelude::*;

verus! {

/// How many words a name may have.
pub const MAX_SPAN_WIDTH: usize = 12;

/// Why scores are not read.
#[derive(Clone, Copy, Debug, PartialEq, Eq, Structural)]
pub enum ScoreFault {
    /// The threshold is not in the range from zero to one.
    Threshold,
    /// There is not one score for each span of words and each kind.
    Count { scores: usize, spans: u128 },
}

/// A name that was found, with its characters.
pub struct EntityNote {
    pub start: usize,
    pub end: usize,
    pub surface: Seq<char>,
    pub kind: GlossaryEntityKind,
    pub confidence: Confidence,
}

/// What the names say.
pub open spec fn notes(entities: Seq<GlossaryEntity>) -> Seq<EntityNote> {
    Seq::new(
        entities.len(),
        |i: int|
            EntityNote {
                start: entities[i].start,
                end: entities[i].end,
                surface: entities[i].surface@,
                kind: entities[i].kind,
                confidence: entities[i].confidence,
            },
    )
}

/// How many widths a name may have in a text of `n` words.
pub open spec fn width_count(n: nat) -> nat {
    if n < MAX_SPAN_WIDTH {
        n
    } else {
        MAX_SPAN_WIDTH as nat
    }
}

/// The first `count` spans of `w + 1` words, by their first and last word.
pub open spec fn spans_of_width(w: int, count: nat) -> Seq<(int, int)> {
    Seq::new(count, |i: int| (i, i + w))
}

/// The spans of a text of `n` words that have at most `widths` words: first the short ones, then by
/// where they begin.
pub open spec fn span_list(n: nat, widths: nat) -> Seq<(int, int)>
    decreases widths,
{
    if widths == 0 {
        Seq::empty()
    } else {
        span_list(n, (widths - 1) as nat) + spans_of_width(
            widths - 1,
            (n - (widths - 1)) as nat,
        )
    }
}

/// The spans that the model scores in a text of `n` words.
pub open spec fn scored_spans(n: nat) -> Seq<(int, int)> {
    span_list(n, width_count(n))
}

/// The name that a span is, of a kind.
pub open spec fn entity_of(
    s: Seq<char>,
    tokens: Seq<TextToken>,
    span: (int, int),
    kind: GlossaryEntityKind,
    confidence: Confidence,
) -> EntityNote {
    let start = tokens[span.0].start;
    let end = tokens[span.1].end;
    EntityNote {
        start,
        end,
        surface: s.subrange(
            offsets::place_in(s, start as nat),
            offsets::place_in(s, end as nat),
        ),
        kind,
        confidence,
    }
}

/// The names among the first `k` scores: those whose score reaches the threshold. The scores of a
/// span stand together, one for each kind.
pub open spec fn found_in(
    s: Seq<char>,
    tokens: Seq<TextToken>,
    scores: Seq<Confidence>,
    threshold: Confidence,
    k: nat,
) -> Seq<EntityNote>
    decreases k,
{
    if k == 0 {
        Seq::empty()
    } else {
        let head = found_in(s, tokens, scores, threshold, (k - 1) as nat);
        if scores[k - 1].at_least(threshold) {
            head.push(
                entity_of(
                    s,
                    tokens,
                    scored_spans(tokens.len())[(k - 1) / 6],
                    types::every_kind()[(k - 1) % 6],
                    scores[k - 1],
                ),
            )
        } else {
            head
        }
    }
}

/// What is wrong with the scores.
pub open spec fn score_fault(n: nat, scores: nat, threshold: Confidence) -> Option<ScoreFault> {
    if !threshold.in_range() {
        Some(ScoreFault::Threshold)
    } else if scores != scored_spans(n).len() * 6 {
        Some(
            ScoreFault::Count { scores: scores as usize, spans: scored_spans(n).len() as u128 },
        )
    } else {
        None
    }
}

proof fn lemma_span_list(n: nat, widths: nat)
    requires
        widths <= n,
        widths <= MAX_SPAN_WIDTH,
    ensures
        span_list(n, widths).len() <= widths * n,
        forall|i: int|
            0 <= i < span_list(n, widths).len() ==> 0 <= (#[trigger] span_list(n, widths)[i]).0
                <= span_list(n, widths)[i].1 < n,
    decreases widths,
{
    if widths > 0 {
        lemma_span_list(n, (widths - 1) as nat);
        let head = span_list(n, (widths - 1) as nat);
        let all = span_list(n, widths);
        assert(widths * n == (widths - 1) * n + n) by (nonlinear_arith)
            requires
                widths > 0,
        ;
        assert forall|i: int| 0 <= i < all.len() implies 0 <= (#[trigger] all[i]).0 <= all[i].1
            < n by {
            if i < head.len() {
                assert(all[i] == head[i]);
            } else {
                let w = spans_of_width(widths - 1, (n - (widths - 1)) as nat);
                assert(all[i] == w[i - head.len()]);
            }
        }
    }
}

fn count_spans(n: usize) -> (r: u128)
    ensures
        r == scored_spans(n as nat).len(),
{
    let widths: usize = if n < MAX_SPAN_WIDTH {
        n
    } else {
        MAX_SPAN_WIDTH
    };
    let mut w: usize = 0;
    let mut total: u128 = 0;
    while w < widths
        invariant
            w <= widths <= n,
            widths <= MAX_SPAN_WIDTH,
            total == span_list(n as nat, w as nat).len(),
            total <= w * n,
        decreases widths - w,
    {
        proof {
            lemma_span_list(n as nat, (w + 1) as nat);
            assert((w + 1) * n <= MAX_SPAN_WIDTH * n) by (nonlinear_arith)
                requires
                    w + 1 <= MAX_SPAN_WIDTH,
            ;
        }
        total = total + (n - w) as u128;
        w += 1;
    }
    total
}

/// The names that the scores of a text give: one score for each span of words and each kind.
pub fn decode_scores(
    text: &str,
    tokens: &Vec<TextToken>,
    probabilities: &Vec<Confidence>,
    threshold: Confidence,
) -> (r: Result<Vec<GlossaryEntity>, ScoreFault>)
    requires
        tokens::are_tokens(text@, tokens@),
    ensures
        match score_fault(tokens@.len(), probabilities@.len(), threshold) {
            Some(fault) => r == Err::<Vec<GlossaryEntity>, _>(fault),
            None => r matches Ok(entities) && notes(entities@) == found_in(
                text@,
                tokens@,
                probabilities@,
                threshold,
                probabilities@.len(),
            ),
        },
{
    if !threshold.is_valid() {
        return Err(ScoreFault::Threshold);
    }
    let n: usize = tokens.len();
    let spans: u128 = count_spans(n);
    proof {
        lemma_span_list(n as nat, width_count(n as nat));
        assert(width_count(n as nat) * n <= 12 * n) by (nonlinear_arith)
            requires
                width_count(n as nat) <= 12,
        ;
    }
    if probabilities.len() as u128 != spans * 6 {
        return Err(ScoreFault::Count { scores: probabilities.len(), spans });
    }
    let kinds = GlossaryEntityKind::all();
    let v = text::chars_of(text);
    let places = byte_places(text);
    let widths: usize = if n < MAX_SPAN_WIDTH {
        n
    } else {
        MAX_SPAN_WIDTH
    };
    let mut entities: Vec<GlossaryEntity> = Vec::new();
    assert(notes(entities@) =~= Seq::empty());
    let mut offset: usize = 0;
    let mut width: usize = 0;
    let ghost all = scored_spans(n as nat);
    while width < widths
        invariant
            n == tokens@.len(),
            width <= widths == width_count(n as nat),
            all == scored_spans(n as nat),
            probabilities.len() == all.len() * 6,
            kinds@ == types::every_kind(),
            v@ == text@,
            places@.len() == text@.len() + 1,
            forall|k: int|
                0 <= k <= text@.len() ==> #[trigger] places@[k] == offsets::byte_at(text@, k),
            tokens::are_tokens(text@, tokens@),
            offset == span_list(n as nat, width as nat).len() * 6,
            notes(entities@) == found_in(
                text@,
                tokens@,
                probabilities@,
                threshold,
                offset as nat,
            ),
        decreases widths - width,
    {
        let ghost head = span_list(n as nat, width as nat);
        proof {
            lemma_span_list_grows(n as nat, (width + 1) as nat, widths as nat);
        }
        let mut start: usize = 0;
        while start < n - width
            invariant
                n == tokens@.len(),
                width < widths == width_count(n as nat),
                widths <= n,
                start <= n - width,
                all == scored_spans(n as nat),
                head == span_list(n as nat, width as nat),
                head.len() + (n - width) <= all.len(),
                forall|i: int|
                    0 <= i < n - width ==> all[#[trigger] (head.len() + i)] == (i, i + width),
                probabilities.len() == all.len() * 6,
                kinds@ == types::every_kind(),
                v@ == text@,
                places@.len() == text@.len() + 1,
                forall|k: int|
                    0 <= k <= text@.len() ==> #[trigger] places@[k] == offsets::byte_at(text@, k),
                tokens::are_tokens(text@, tokens@),
                offset == (head.len() + start) * 6,
                notes(entities@) == found_in(
                    text@,
                    tokens@,
                    probabilities@,
                    threshold,
                    offset as nat,
                ),
            decreases n - width - start,
        {
            let end: usize = start + width;
            let byte_start: usize = tokens[start].start;
            let byte_end: usize = tokens[end].end;
            let p: usize = find_place(&places, byte_start, text);
            let q: usize = find_place(&places, byte_end, text);
            proof {
                if start < end {
                    assert(tokens@[start as int].end <= tokens@[end as int].start);
                }
                assert(byte_start < byte_end);
                if q < p {
                    offsets::lemma_bytes_increase(text@, q as int, p as int);
                }
                assert(all[head.len() + start as int] == (start as int, end as int));
            }
            let mut class: usize = 0;
            while class < KIND_COUNT
                invariant
                    n == tokens@.len(),
                    class <= KIND_COUNT,
                    start < n - width,
                    end == start + width,
                    end < n,
                    all == scored_spans(n as nat),
                    head.len() + start < all.len(),
                    all[head.len() + start as int] == (start as int, end as int),
                    probabilities.len() == all.len() * 6,
                    kinds@ == types::every_kind(),
                    v@ == text@,
                    byte_start == tokens@[start as int].start,
                    byte_end == tokens@[end as int].end,
                    p == offsets::place_in(text@, byte_start as nat),
                    q == offsets::place_in(text@, byte_end as nat),
                    p <= q <= v@.len(),
                    offset == (head.len() + start) * 6,
                    notes(entities@) == found_in(
                        text@,
                        tokens@,
                        probabilities@,
                        threshold,
                        (offset + class) as nat,
                    ),
                decreases KIND_COUNT - class,
            {
                let confidence = probabilities[offset + class];
                let ghost before = entities@;
                proof {
                    let k = offset + class;
                    assert(k / 6 == head.len() + start);
                    assert(k % 6 == class);
                }
                if confidence.reaches(threshold) {
                    let surface = text::string_of_range(&v, p, q);
                    let entity = GlossaryEntity::new(
                        byte_start,
                        byte_end,
                        surface,
                        kinds[class],
                        confidence,
                    );
                    entities.push(entity);
                    assert(notes(entities@) =~= notes(before).push(
                        entity_of(
                            text@,
                            tokens@,
                            (start as int, end as int),
                            types::every_kind()[class as int],
                            confidence,
                        ),
                    ));
                }
                class += 1;
            }
            offset = offset + KIND_COUNT;
            start += 1;
        }
        proof {
            assert(span_list(n as nat, (width + 1) as nat).len() == head.len() + (n - width));
        }
        width += 1;
    }
    Ok(entities)
}

/// Wider spans stand behind all shorter ones.
proof fn lemma_span_list_grows(n: nat, m: nat, widths: nat)
    requires
        0 < m <= widths <= n,
    ensures
        span_list(n, m).len() <= span_list(n, widths).len(),
        forall|i: int|
            0 <= i < span_list(n, m).len() ==> #[trigger] span_list(n, widths)[i] == span_list(
                n,
                m,
            )[i],
        span_list(n, m).len() == span_list(n, (m - 1) as nat).len() + (n - (m - 1)),
        forall|i: int|
            0 <= i < n - (m - 1) ==> span_list(n, widths)[#[trigger] (span_list(
                n,
                (m - 1) as nat,
            ).len() + i)] == (i, i + (m - 1)),
    decreases widths,
{
    let head = span_list(n, (m - 1) as nat);
    let mine = span_list(n, m);
    if m < widths {
        lemma_span_list_grows(n, m, (widths - 1) as nat);
    }
    assert forall|i: int| 0 <= i < n - (m - 1) implies span_list(n, widths)[#[trigger] (head.len()
        + i)] == (i, i + (m - 1)) by {
        let w = spans_of_width(m - 1, (n - (m - 1)) as nat);
        assert(mine[head.len() + i] == w[i]);
        assert(span_list(n, widths)[head.len() + i] == mine[head.len() + i]);
    }
}

proof fn lemma_place_of_span(n: nat, widths: nat, a: int, b: int) -> (i: int)
    requires
        widths <= n,
        0 <= a <= b < n,
        b - a < widths,
    ensures
        0 <= i < span_list(n, widths).len(),
        span_list(n, widths)[i] == (a, b),
    decreases widths,
{
    let head = span_list(n, (widths - 1) as nat);
    let rest = spans_of_width(widths - 1, (n - (widths - 1)) as nat);
    if b - a == widths - 1 {
        assert(rest[a] == (a, b));
        assert((head + rest)[head.len() + a] == rest[a]);
        head.len() + a
    } else {
        let i = lemma_place_of_span(n, (widths - 1) as nat, a, b);
        assert((head + rest)[i] == head[i]);
        i
    }
}

/// Every span of one to twelve words is scored, wherever it begins.
pub proof fn lemma_short_spans_are_scored(n: nat, first: int, last: int) -> (i: int)
    requires
        0 <= first <= last < n,
        last - first < 12,
    ensures
        0 <= i < scored_spans(n).len(),
        scored_spans(n)[i] == (first, last),
{
    lemma_place_of_span(n, width_count(n), first, last)
}

proof fn lemma_spans_ordered(n: nat, widths: nat, i: int, j: int)
    requires
        widths <= n,
        0 <= i < j < span_list(n, widths).len(),
    ensures
        ({
            let x = span_list(n, widths)[i];
            let y = span_list(n, widths)[j];
            &&& 0 <= y.1 - y.0 < widths
            &&& x.1 - x.0 < y.1 - y.0 || (x.1 - x.0 == y.1 - y.0 && x.0 < y.0)
        }),
    decreases widths,
{
    let head = span_list(n, (widths - 1) as nat);
    let rest = spans_of_width(widths - 1, (n - (widths - 1)) as nat);
    let all = head + rest;
    if j < head.len() {
        lemma_spans_ordered(n, (widths - 1) as nat, i, j);
        assert(all[i] == head[i] && all[j] == head[j]);
    } else {
        assert(all[j] == rest[j - head.len()]);
        if i < head.len() {
            lemma_width_bound(n, (widths - 1) as nat, i);
            assert(all[i] == head[i]);
        } else {
            assert(all[i] == rest[i - head.len()]);
        }
    }
}

proof fn lemma_width_bound(n: nat, widths: nat, i: int)
    requires
        widths <= n,
        0 <= i < span_list(n, widths).len(),
    ensures
        0 <= span_list(n, widths)[i].0 <= span_list(n, widths)[i].1 < n,
        span_list(n, widths)[i].1 - span_list(n, widths)[i].0 < widths,
    decreases widths,
{
    let head = span_list(n, (widths - 1) as nat);
    let rest = spans_of_width(widths - 1, (n - (widths - 1)) as nat);
    if i < head.len() {
        lemma_width_bound(n, (widths - 1) as nat, i);
        assert((head + rest)[i] == head[i]);
    } else {
        assert((head + rest)[i] == rest[i - head.len()]);
    }
}

/// Nothing is scored but spans of one to twelve words of the text, and none twice: the shorter stand
/// before the longer, and of one length the earlier before the later.
pub proof fn lemma_scored_spans_in_order(n: nat, i: int, j: int)
    requires
        0 <= i <= j < scored_spans(n).len(),
    ensures
        ({
            let x = scored_spans(n)[i];
            let y = scored_spans(n)[j];
            &&& 0 <= x.0 <= x.1 < n
            &&& x.1 - x.0 < 12
            &&& i < j ==> x.1 - x.0 < y.1 - y.0 || (x.1 - x.0 == y.1 - y.0 && x.0 < y.0)
        }),
{
    lemma_width_bound(n, width_count(n), i);
    if i < j {
        lemma_spans_ordered(n, width_count(n), i, j);
    }
}

/// One score more, from zero to one: where it reaches the threshold there is one name more, from the
/// beginning of the span's first word to the end of its last, of the kind that the score is for and
/// with that score; else there is none. The names before stay.
pub proof fn lemma_a_score_more(
    s: Seq<char>,
    tokens: Seq<TextToken>,
    scores: Seq<Confidence>,
    threshold: Confidence,
    k: nat,
    span: int,
    kind: GlossaryEntityKind,
)
    requires
        k < scores.len(),
        scores[k as int].0 <= 0x3f80_0000,
        threshold.0 <= 0x3f80_0000,
        k == 6 * span + kind.rank(),
        0 <= span < scored_spans(tokens.len()).len(),
    ensures
        ({
            let before = found_in(s, tokens, scores, threshold, k);
            let after = found_in(s, tokens, scores, threshold, k + 1);
            let words = scored_spans(tokens.len())[span];
            if scores[k as int].0 >= threshold.0 {
                &&& after.len() == before.len() + 1
                &&& after.take(before.len() as int) == before
                &&& after.last().start == tokens[words.0].start
                &&& after.last().end == tokens[words.1].end
                &&& after.last().kind == kind
                &&& after.last().confidence == scores[k as int]
            } else {
                after == before
            }
        }),
{
    types::lemma_kinds_have_their_places(kind, kind);
    assert(k as int / 6 == span && k as int % 6 == kind.rank());
    let before = found_in(s, tokens, scores, threshold, k);
    let after = found_in(s, tokens, scores, threshold, k + 1);
    if scores[k as int].0 >= threshold.0 {
        assert(after.take(before.len() as int) =~= before);
    }
}

/// The characters of a name are those of the text from its first byte to before its last.
pub proof fn lemma_a_name_is_its_characters(
    s: Seq<char>,
    tokens: Seq<TextToken>,
    span: (int, int),
    kind: GlossaryEntityKind,
    confidence: Confidence,
    p: int,
    q: int,
)
    requires
        0 <= p <= q <= s.len(),
        0 <= span.0 < tokens.len(),
        0 <= span.1 < tokens.len(),
        vstd::utf8::encode_utf8(s.take(p)).len() == tokens[span.0].start,
        vstd::utf8::encode_utf8(s.take(q)).len() == tokens[span.1].end,
    ensures
        entity_of(s, tokens, span, kind, confidence).surface == s.subrange(p, q),
{
    offsets::lemma_place_in(s, p);
    offsets::lemma_place_in(s, q);
}

/// Scores are read where the threshold is from zero to one and there is one score for each span and
/// each of the six kinds; else it is told which of the two is wrong, the threshold first.
pub proof fn lemma_scores_that_are_read(n: nat, scores: nat, threshold: Confidence)
    requires
        scores <= usize::MAX,
    ensures
        score_fault(n, scores, threshold) is None <==> (threshold.0 <= 0x3f80_0000 || threshold.0
            == 0x8000_0000) && scores == 6 * scored_spans(n).len(),
        threshold.0 > 0x3f80_0000 && threshold.0 != 0x8000_0000 ==> score_fault(
            n,
            scores,
            threshold,
        ) == Some(ScoreFault::Threshold),
        score_fault(n, scores, threshold) matches Some(ScoreFault::Count { scores: given, .. })
            ==> given == scores && scores != 6 * scored_spans(n).len(),
{
    crate::glossary::model::lemma_confidence(threshold, threshold);
}

} // verus!
