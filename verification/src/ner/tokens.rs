//! The words of a text.
use crate::ner::offsets;
use crate::ner::offsets::{byte_places, find_place};
use crate::text;
use vstd::prelude::*;

verus! {

/// A word: the bytes of the text from `start` to before `end`.
#[derive(Clone, Copy, Debug, PartialEq, Eq, Structural)]
pub struct TextToken {
    pub start: usize,
    pub end: usize,
}

/// The bytes at which `icu_segmenter::WordSegmenter` finds that a word may begin or end in a text.
pub uninterp spec fn word_breaks(text: Seq<char>) -> Seq<usize>;

/// The bytes are places in the text, none before the one that precedes it.
pub open spec fn are_breaks(s: Seq<char>, breaks: Seq<usize>) -> bool {
    &&& forall|i: int| 0 <= i < breaks.len() ==> offsets::is_place(s, #[trigger] breaks[i] as nat)
    &&& forall|i: int, j: int|
        0 <= i < j < breaks.len() ==> #[trigger] breaks[i] <= #[trigger] breaks[j]
}

/// `icu_segmenter::WordSegmenter::new_auto` without a locale, and `segment_str`: the bytes at which
/// words may begin or end. They are bytes at which a character begins or the text ends, in order.
/// Which of them they are is not stated.
#[verifier::external_body]
fn find_breaks(text: &str) -> (r: Vec<usize>)
    ensures
        r@ == word_breaks(text@),
        are_breaks(text@, r@),
{
    let options = icu_segmenter::options::WordBreakInvariantOptions::default();
    icu_segmenter::WordSegmenter::new_auto(options).segment_str(text).collect()
}

/// A character of the Han script.
pub open spec fn is_han_char(c: char) -> bool {
    ||| '\u{3400}' <= c <= '\u{4dbf}'
    ||| '\u{4e00}' <= c <= '\u{9fff}'
    ||| '\u{f900}' <= c <= '\u{faff}'
    ||| '\u{20000}' <= c <= '\u{2fa1f}'
}

fn is_han(c: char) -> (r: bool)
    ensures
        r == is_han_char(c),
{
    ('\u{3400}' <= c && c <= '\u{4dbf}') || ('\u{4e00}' <= c && c <= '\u{9fff}') || ('\u{f900}' <= c
        && c <= '\u{faff}') || ('\u{20000}' <= c && c <= '\u{2fa1f}')
}

/// The characters are all of the Han script.
pub open spec fn all_han(s: Seq<char>) -> bool {
    forall|i: int| 0 <= i < s.len() ==> is_han_char(#[trigger] s[i])
}

/// The characters are all whitespace.
pub open spec fn all_space(s: Seq<char>) -> bool {
    forall|i: int| 0 <= i < s.len() ==> text::is_whitespace(#[trigger] s[i])
}

/// The words with the characters from `p` to before `q`: nothing for whitespace, and Han characters
/// join a word of Han characters that they follow.
pub open spec fn with_segment(found: Seq<(int, int)>, s: Seq<char>, p: int, q: int) -> Seq<
    (int, int),
> {
    if all_space(s.subrange(p, q)) {
        found
    } else if all_han(s.subrange(p, q)) && found.len() > 0 && found.last().1 == p && all_han(
        s.subrange(found.last().0, found.last().1),
    ) {
        found.drop_last().push((found.last().0, q))
    } else {
        found.push((p, q))
    }
}

/// The words between the first `n` breaks, in characters.
pub open spec fn words_between(s: Seq<char>, breaks: Seq<usize>, n: nat) -> Seq<(int, int)>
    decreases n,
{
    if n < 2 {
        Seq::empty()
    } else {
        with_segment(
            words_between(s, breaks, (n - 1) as nat),
            s,
            offsets::place_in(s, breaks[n - 2] as nat),
            offsets::place_in(s, breaks[n - 1] as nat),
        )
    }
}

/// The words in bytes.
pub open spec fn in_bytes(s: Seq<char>, words: Seq<(int, int)>) -> Seq<TextToken> {
    Seq::new(
        words.len(),
        |i: int|
            TextToken {
                start: offsets::byte_at(s, words[i].0) as usize,
                end: offsets::byte_at(s, words[i].1) as usize,
            },
    )
}

/// The words lie in the text, one after the other.
pub open spec fn are_words(s: Seq<char>, words: Seq<(int, int)>) -> bool {
    &&& forall|i: int|
        0 <= i < words.len() ==> 0 <= (#[trigger] words[i]).0 < words[i].1 <= s.len()
    &&& forall|i: int, j: int|
        0 <= i < j < words.len() ==> (#[trigger] words[i]).1 <= (#[trigger] words[j]).0
}

fn only_han(v: &Vec<char>, p: usize, q: usize) -> (r: bool)
    requires
        p <= q <= v@.len(),
    ensures
        r == all_han(v@.subrange(p as int, q as int)),
{
    let ghost part = v@.subrange(p as int, q as int);
    let mut i: usize = p;
    while i < q
        invariant
            part == v@.subrange(p as int, q as int),
            p <= i <= q <= v@.len(),
            forall|k: int| 0 <= k < i - p ==> is_han_char(#[trigger] part[k]),
        decreases q - i,
    {
        assert(part[i - p] == v@[i as int]);
        if !is_han(v[i]) {
            return false;
        }
        i += 1;
    }
    true
}

fn only_space(v: &Vec<char>, p: usize, q: usize) -> (r: bool)
    requires
        p <= q <= v@.len(),
    ensures
        r == all_space(v@.subrange(p as int, q as int)),
{
    let ghost part = v@.subrange(p as int, q as int);
    let mut i: usize = p;
    while i < q
        invariant
            part == v@.subrange(p as int, q as int),
            p <= i <= q <= v@.len(),
            forall|k: int| 0 <= k < i - p ==> text::is_whitespace(#[trigger] part[k]),
        decreases q - i,
    {
        assert(part[i - p] == v@[i as int]);
        if !text::whitespace(v[i]) {
            return false;
        }
        i += 1;
    }
    true
}

/// A word in characters.
#[derive(Clone, Copy)]
struct Word {
    start: usize,
    end: usize,
}

spec fn pairs(words: Seq<Word>) -> Seq<(int, int)> {
    Seq::new(words.len(), |i: int| (words[i].start as int, words[i].end as int))
}

/// The words of a text, given the bytes at which words may begin or end.
pub fn tokens_between(text: &str, breaks: &Vec<usize>) -> (r: Vec<TextToken>)
    requires
        are_breaks(text@, breaks@),
    ensures
        r@ == in_bytes(text@, words_between(text@, breaks@, breaks@.len())),
{
    let v = text::chars_of(text);
    let places = byte_places(text);
    let ghost s = text@;
    let mut words: Vec<Word> = Vec::new();
    assert(pairs(words@) =~= Seq::empty());
    if breaks.len() > 1 {
        let mut p: usize = find_place(&places, breaks[0], text);
        let mut n: usize = 1;
        while n < breaks.len()
            invariant
                v@ == s,
                s == text@,
                are_breaks(s, breaks@),
                places@.len() == s.len() + 1,
                forall|k: int|
                    0 <= k <= s.len() ==> #[trigger] places@[k] == offsets::byte_at(s, k),
                1 <= n <= breaks@.len(),
                p == offsets::place_in(s, breaks@[n - 1] as nat),
                p <= s.len(),
                offsets::byte_at(s, p as int) == breaks@[n - 1],
                pairs(words@) == words_between(s, breaks@, n as nat),
                are_words(s, pairs(words@)),
                words@.len() > 0 ==> words@.last().end <= p,
            decreases breaks@.len() - n,
        {
            let q: usize = find_place(&places, breaks[n], text);
            let ghost was = pairs(words@);
            let ghost old_words = words@;
            proof {
                if q < p {
                    offsets::lemma_bytes_increase(s, q as int, p as int);
                    assert(breaks@[n - 1] <= breaks@[n as int]);
                }
                lemma_segment(was, s, p as int, q as int);
            }
            if !only_space(&v, p, q) {
                let mut joins = false;
                if words.len() > 0 {
                    let last = words[words.len() - 1];
                    assert(was.last() == (last.start as int, last.end as int));
                    assert(was[was.len() - 1] == was.last());
                    joins = last.end == p && only_han(&v, p, q) && only_han(
                        &v,
                        last.start,
                        last.end,
                    );
                }
                if joins {
                    let last = words[words.len() - 1];
                    let _ = words.pop();
                    words.push(Word { start: last.start, end: q });
                    assert(pairs(words@) =~= was.drop_last().push((last.start as int, q as int)));
                } else {
                    words.push(Word { start: p, end: q });
                    assert(pairs(words@) =~= was.push((p as int, q as int)));
                }
            }
            assert(pairs(words@) == with_segment(was, s, p as int, q as int));
            p = q;
            n += 1;
        }
    }
    let mut out: Vec<TextToken> = Vec::new();
    let mut i: usize = 0;
    while i < words.len()
        invariant
            s == text@,
            places@.len() == s.len() + 1,
            forall|k: int| 0 <= k <= s.len() ==> #[trigger] places@[k] == offsets::byte_at(s, k),
            are_words(s, pairs(words@)),
            i <= words@.len(),
            out@ == in_bytes(s, pairs(words@)).take(i as int),
        decreases words@.len() - i,
    {
        let w = words[i];
        proof {
            assert(pairs(words@)[i as int] == (w.start as int, w.end as int));
        }
        let token = TextToken { start: places[w.start], end: places[w.end] };
        out.push(token);
        proof {
            let all = in_bytes(s, pairs(words@));
            assert(places@[w.start as int] == offsets::byte_at(s, w.start as int));
            assert(places@[w.end as int] == offsets::byte_at(s, w.end as int));
            assert(all[i as int] == token);
            assert(all.take(i + 1) =~= all.take(i as int).push(token));
        }
        i += 1;
    }
    assert(out@ =~= in_bytes(s, pairs(words@)));
    out
}

proof fn lemma_segment(found: Seq<(int, int)>, s: Seq<char>, p: int, q: int)
    requires
        are_words(s, found),
        0 <= p <= q <= s.len(),
        found.len() > 0 ==> found.last().1 <= p,
    ensures
        are_words(s, with_segment(found, s, p, q)),
        with_segment(found, s, p, q).len() > 0 ==> with_segment(found, s, p, q).last().1 <= q,
{
    let next = with_segment(found, s, p, q);
    if !all_space(s.subrange(p, q)) {
        assert(p < q) by {
            if p == q {
                assert(s.subrange(p, q).len() == 0);
            }
        }
        if found.len() > 0 {
            assert(found[found.len() - 1] == found.last());
        }
        assert forall|i: int| 0 <= i < next.len() implies 0 <= (#[trigger] next[i]).0 < next[i].1
            <= s.len() by {
            if i < next.len() - 1 {
                assert(next[i] == found[i]);
            }
        }
        assert forall|i: int, j: int| 0 <= i < j < next.len() implies (#[trigger] next[i]).1 <= (
        #[trigger] next[j]).0 by {
            assert(next[i] == found[i]);
            if j < next.len() - 1 {
                assert(next[j] == found[j]);
            } else if found.len() > 0 {
                if i < found.len() - 1 {
                    assert(found[i].1 <= found[found.len() - 1].0);
                    assert(found[found.len() - 1].0 < found[found.len() - 1].1);
                }
            }
        }
    }
}

/// Words lie in the text, in order, and none reaches into the next: whatever the breaks are.
pub proof fn lemma_words_in_order(s: Seq<char>, breaks: Seq<usize>, n: nat)
    requires
        are_breaks(s, breaks),
        n <= breaks.len(),
    ensures
        are_words(s, words_between(s, breaks, n)),
        n >= 1 && words_between(s, breaks, n).len() > 0 ==> words_between(s, breaks, n).last().1
            <= offsets::place_in(s, breaks[n - 1] as nat),
    decreases n,
{
    if n >= 2 {
        lemma_words_in_order(s, breaks, (n - 1) as nat);
        let a = breaks[n - 2] as nat;
        let b = breaks[n - 1] as nat;
        assert(offsets::is_place(s, a) && offsets::is_place(s, b));
        let p = offsets::place_in(s, a);
        let q = offsets::place_in(s, b);
        assert(breaks[n - 2] <= breaks[n - 1]);
        if q < p {
            offsets::lemma_bytes_increase(s, q, p);
        }
        lemma_segment(words_between(s, breaks, (n - 1) as nat), s, p, q);
    }
}

proof fn lemma_tokens(s: Seq<char>, words: Seq<(int, int)>)
    requires
        are_words(s, words),
        vstd::utf8::encode_utf8(s).len() <= usize::MAX,
    ensures
        are_tokens(s, in_bytes(s, words)),
{
    let tokens = in_bytes(s, words);
    assert(s.take(s.len() as int) =~= s);
    assert forall|k: int| 0 <= k <= s.len() implies #[trigger] offsets::byte_at(s, k)
        <= usize::MAX by {
        if k < s.len() {
            offsets::lemma_bytes_increase(s, k, s.len() as int);
        }
    }
    assert forall|i: int| 0 <= i < tokens.len() implies offsets::is_place(
        s,
        (#[trigger] tokens[i]).start as nat,
    ) && offsets::is_place(s, tokens[i].end as nat) && tokens[i].start < tokens[i].end by {
        let w = words[i];
        offsets::lemma_place_in(s, w.0);
        offsets::lemma_place_in(s, w.1);
        offsets::lemma_bytes_increase(s, w.0, w.1);
    }
    assert forall|i: int, j: int| 0 <= i < j < tokens.len() implies (#[trigger] tokens[i]).end <= (
    #[trigger] tokens[j]).start by {
        if words[i].1 < words[j].0 {
            offsets::lemma_bytes_increase(s, words[i].1, words[j].0);
        }
    }
}

/// There are no more words than characters.
proof fn lemma_word_count(s: Seq<char>, words: Seq<(int, int)>, n: int)
    requires
        are_words(s, words),
        0 < n <= words.len(),
    ensures
        n <= words[n - 1].1,
    decreases n,
{
    if n > 1 {
        lemma_word_count(s, words, n - 1);
        assert(words[n - 2].1 <= words[n - 1].0);
    }
    assert(words[n - 1].0 < words[n - 1].1);
}

/// The words of a text.
pub fn split_text(text: &str) -> (r: Vec<TextToken>)
    ensures
        r@ == in_bytes(
            text@,
            words_between(text@, word_breaks(text@), word_breaks(text@).len()),
        ),
        are_tokens(text@, r@),
        r@.len() <= text@.len(),
{
    let breaks = find_breaks(text);
    let _bytes: usize = text::byte_len(text);
    proof {
        lemma_words_in_order(text@, breaks@, breaks@.len());
        let words = words_between(text@, breaks@, breaks@.len());
        lemma_tokens(text@, words);
        if words.len() > 0 {
            lemma_word_count(text@, words, words.len() as int);
        }
    }
    tokens_between(text, &breaks)
}

/// The tokens begin and end at places in the text, in order.
pub open spec fn are_tokens(s: Seq<char>, tokens: Seq<TextToken>) -> bool {
    &&& forall|i: int|
        0 <= i < tokens.len() ==> offsets::is_place(s, (#[trigger] tokens[i]).start as nat)
            && offsets::is_place(s, tokens[i].end as nat) && tokens[i].start < tokens[i].end
    &&& forall|i: int, j: int|
        0 <= i < j < tokens.len() ==> (#[trigger] tokens[i]).end <= (#[trigger] tokens[j]).start
}

/// The Han characters are those of the blocks of unified ideographs, of their first extension, of the
/// compatibility ideographs and of the supplementary plane.
pub proof fn lemma_han(c: char)
    ensures
        is_han_char(c) <==> (0x3400 <= c as u32 <= 0x4dbf || 0x4e00 <= c as u32 <= 0x9fff || 0xf900
            <= c as u32 <= 0xfaff || 0x20000 <= c as u32 <= 0x2fa1f),
{
}

/// One break more. Whitespace between it and the one before it is no word. Other characters are a
/// word of their own, unless they are Han characters directly behind a word of Han characters: these
/// become one word.
pub proof fn lemma_a_break_more(s: Seq<char>, breaks: Seq<usize>, n: nat, p: int, q: int)
    requires
        are_breaks(s, breaks),
        1 <= n < breaks.len(),
        0 <= p <= q <= s.len(),
        offsets::byte_at(s, p) == breaks[n - 1],
        offsets::byte_at(s, q) == breaks[n as int],
    ensures
        ({
            let before = words_between(s, breaks, n);
            let after = words_between(s, breaks, n + 1);
            let blank = forall|k: int| p <= k < q ==> text::is_whitespace(#[trigger] s[k]);
            let han = forall|k: int| p <= k < q ==> is_han_char(#[trigger] s[k]);
            let joins = han && before.len() > 0 && before.last().1 == p && forall|k: int|
                before.last().0 <= k < p ==> is_han_char(#[trigger] s[k]);
            &&& blank ==> after == before
            &&& !blank && joins ==> after == before.update(before.len() - 1, (before.last().0, q))
            &&& !blank && !joins ==> after == before.push((p, q))
        }),
{
    offsets::lemma_place_in(s, p);
    offsets::lemma_place_in(s, q);
    let before = words_between(s, breaks, n);
    let after = words_between(s, breaks, n + 1);
    let part = s.subrange(p, q);
    lemma_words_in_order(s, breaks, n);
    assert(after == with_segment(before, s, p, q));
    let blank = forall|k: int| p <= k < q ==> text::is_whitespace(#[trigger] s[k]);
    let han = forall|k: int| p <= k < q ==> is_han_char(#[trigger] s[k]);
    assert(all_space(part) == blank) by {
        if all_space(part) {
            assert forall|k: int| p <= k < q implies text::is_whitespace(#[trigger] s[k]) by {
                assert(part[k - p] == s[k]);
            }
        }
    }
    assert(all_han(part) == han) by {
        if all_han(part) {
            assert forall|k: int| p <= k < q implies is_han_char(#[trigger] s[k]) by {
                assert(part[k - p] == s[k]);
            }
        }
    }
    if before.len() > 0 && before.last().1 == p {
        let a = before.last().0;
        let last = s.subrange(a, p);
        let alike = forall|k: int| a <= k < p ==> is_han_char(#[trigger] s[k]);
        assert(all_han(last) == alike) by {
            if all_han(last) {
                assert forall|k: int| a <= k < p implies is_han_char(#[trigger] s[k]) by {
                    assert(last[k - a] == s[k]);
                }
            }
        }
        assert(before.drop_last().push((a, q)) =~= before.update(before.len() - 1, (a, q)));
    }
}

/// Every character between the first break and the last that is no whitespace lies in a word.
pub proof fn lemma_every_character_is_in_a_word(
    s: Seq<char>,
    breaks: Seq<usize>,
    n: nat,
    first: int,
    last: int,
    c: int,
) -> (i: int)
    requires
        are_breaks(s, breaks),
        2 <= n <= breaks.len(),
        0 <= first <= c < last <= s.len(),
        offsets::byte_at(s, first) == breaks[0],
        offsets::byte_at(s, last) == breaks[n - 1],
        !text::is_whitespace(s[c]),
    ensures
        0 <= i < words_between(s, breaks, n).len(),
        words_between(s, breaks, n)[i].0 <= c < words_between(s, breaks, n)[i].1,
    decreases n,
{
    offsets::lemma_place_in(s, first);
    offsets::lemma_place_in(s, last);
    assert(offsets::is_place(s, breaks[n - 2] as nat));
    let p = offsets::place_in(s, breaks[n - 2] as nat);
    let before = words_between(s, breaks, (n - 1) as nat);
    let after = words_between(s, breaks, n);
    lemma_words_in_order(s, breaks, (n - 1) as nat);
    assert(after == with_segment(before, s, p, last));
    if c < p {
        let i = lemma_every_character_is_in_a_word(s, breaks, (n - 1) as nat, first, p, c);
        assert(breaks[n - 2] <= breaks[n - 1]);
        if last < p {
            offsets::lemma_bytes_increase(s, last, p);
        }
        i
    } else {
        assert(s.subrange(p, last)[c - p] == s[c]);
        after.len() - 1
    }
}

} // verus!
