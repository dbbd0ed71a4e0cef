//! Local signs that a translation carries noise. They guide a review and change nothing.
use crate::text;
use vstd::prelude::*;

verus! {

/// The lower case of a string as `str::to_lowercase` gives it.
pub uninterp spec fn lowercase(s: Seq<char>) -> Seq<char>;

/// `str::to_lowercase`: the lower case of `s`, a function of its characters alone.
#[verifier::external_body]
pub(crate) fn lowercased(s: &str) -> (r: String)
    ensures
        r@ == lowercase(s@),
{
    s.to_lowercase()
}

/// Ideographs, their punctuation and half-width forms.
pub open spec fn is_cjk(c: char) -> bool {
    let u = c as u32;
    ||| 0x3000 <= u <= 0x303f
    ||| 0x3400 <= u <= 0x4dbf
    ||| 0x4e00 <= u <= 0x9fff
    ||| 0xff66 <= u <= 0xffdc
}

pub open spec fn is_ascii_letter(c: char) -> bool {
    'A' <= c <= 'Z' || 'a' <= c <= 'z'
}

pub open spec fn some_cjk(s: Seq<char>) -> bool {
    exists|i: int| 0 <= i < s.len() && is_cjk(#[trigger] s[i])
}

pub open spec fn some_ascii_letter(s: Seq<char>) -> bool {
    exists|i: int| 0 <= i < s.len() && is_ascii_letter(#[trigger] s[i])
}

/// A word holds both Latin letters and ideographs.
pub open spec fn mixes_scripts(s: Seq<char>) -> bool {
    exists|i: int|
        0 <= i < text::words(s).len() && some_ascii_letter(#[trigger] text::words(s)[i])
            && some_cjk(text::words(s)[i])
}

pub open spec fn ends_sentence(c: char) -> bool {
    c == '!' || c == '?' || c == '.' || c == '"' || c == '…' || c == '。' || c == '！' || c == '？'
}

/// A vowel of ASCII, which is a word of its own in Portuguese.
pub open spec fn is_vowel(c: char) -> bool {
    let l = text::ascii_lower_char(c);
    l == 'a' || l == 'e' || l == 'i' || l == 'o' || l == 'u'
}

/// A text of six characters or more ends in a lone letter behind the end of a sentence.
pub open spec fn leaves_orphan(s: Seq<char>) -> bool {
    let w = text::words(s);
    &&& s.len() >= 6
    &&& w.len() >= 2
    &&& w.last().len() == 1
    &&& is_ascii_letter(w.last()[0])
    &&& !is_vowel(w.last()[0])
    &&& ends_sentence(w[w.len() - 2].last())
}

/// A word in lower case without the punctuation behind it.
pub open spec fn bare_word(w: Seq<char>) -> Seq<char> {
    text::trim_end(lowercase(w), text::Edge::Punctuation)
}

pub open spec fn bare_words(s: Seq<char>) -> Seq<Seq<char>> {
    Seq::new(text::words(s).len(), |i: int| bare_word(text::words(s)[i]))
}

/// The second half repeats the first; four words at least.
pub open spec fn halves_repeat(w: Seq<Seq<char>>) -> bool {
    let half = (w.len() / 2) as int;
    w.len() >= 4 && w.subrange(0, half) == w.subrange(half, half * 2)
}

/// A word of twelve characters or more stands twice in a row.
pub open spec fn long_word_repeats(w: Seq<Seq<char>>) -> bool {
    exists|i: int| 0 <= i && i + 1 < w.len() && #[trigger] w[i] == w[i + 1] && w[i].len() >= 12
}

/// The second half repeats the first, or a long word repeats at once.
pub open spec fn repeats(s: Seq<char>) -> bool {
    halves_repeat(bare_words(s)) || long_word_repeats(bare_words(s))
}

/// Two marks that do not stand side by side in clean text.
pub open spec fn is_bad_pair(a: char, b: char) -> bool {
    ||| a == '!' && b == '!'
    ||| a == '?' && b == '?'
    ||| a == ',' && b == ','
    ||| a == ';' && b == ';'
    ||| a == ':' && b == ':'
    ||| a == '.' && b == ','
    ||| a == ',' && b == '.'
    ||| a == '。' && b == '。'
    ||| a == '，' && b == '，'
    ||| a == '！' && b == '！'
    ||| a == '？' && b == '？'
}

/// At `i` stand two marks that do not belong together; an ellipsis may come before `!` or `?`.
pub open spec fn bad_marks_at(s: Seq<char>, i: int) -> bool {
    ||| is_bad_pair(s[i], s[i + 1])
    ||| s[i] == '.' && (s[i + 1] == '!' || s[i + 1] == '?') && (i == 0 || s[i - 1] != '.')
    ||| (s[i] == '!' || s[i] == '?') && s[i + 1] == '.'
}

pub open spec fn has_bad_marks(s: Seq<char>) -> bool {
    exists|i: int| 0 <= i && i + 1 < s.len() && #[trigger] bad_marks_at(s, i)
}

/// The hints that a translation gives, in the order in which they are listed.
pub open spec fn hints_of(s: Seq<char>) -> Seq<Seq<char>> {
    let t = text::trim(s, text::Edge::Whitespace);
    let h0 = Seq::<Seq<char>>::empty();
    let h1 = if some_cjk(t) { h0.push("untranslated_cjk"@) } else { h0 };
    let h2 = if mixes_scripts(t) { h1.push("suspicious_mixed_script"@) } else { h1 };
    let h3 = if leaves_orphan(t) { h2.push("possible_orphan_character"@) } else { h2 };
    let h4 = if repeats(t) { h3.push("repeated_fragment"@) } else { h3 };
    if has_bad_marks(t) { h4.push("suspicious_punctuation"@) } else { h4 }
}

fn cjk(c: char) -> (r: bool)
    ensures
        r == is_cjk(c),
{
    let u: u32 = c as u32;
    (0x3000 <= u && u <= 0x303f) || (0x3400 <= u && u <= 0x4dbf) || (0x4e00 <= u && u <= 0x9fff) || (
    0xff66 <= u && u <= 0xffdc)
}

fn ascii_letter(c: char) -> (r: bool)
    ensures
        r == is_ascii_letter(c),
{
    ('A' <= c && c <= 'Z') || ('a' <= c && c <= 'z')
}

/// Ideographs are left in the text.
pub fn has_untranslated_cjk(s: &str) -> (r: bool)
    ensures
        r == some_cjk(s@),
{
    let v = text::chars_of(s);
    let mut i: usize = 0;
    while i < v.len()
        invariant
            i <= v@.len(),
            v@ == s@,
            forall|j: int| 0 <= j < i ==> !is_cjk(#[trigger] v@[j]),
        decreases v@.len() - i,
    {
        if cjk(v[i]) {
            return true;
        }
        i += 1;
    }
    false
}

fn has_ascii_letter(s: &str) -> (r: bool)
    ensures
        r == some_ascii_letter(s@),
{
    let v = text::chars_of(s);
    let mut i: usize = 0;
    while i < v.len()
        invariant
            i <= v@.len(),
            v@ == s@,
            forall|j: int| 0 <= j < i ==> !is_ascii_letter(#[trigger] v@[j]),
        decreases v@.len() - i,
    {
        if ascii_letter(v[i]) {
            return true;
        }
        i += 1;
    }
    false
}

/// A word mixes Latin letters and ideographs.
pub fn has_suspicious_mixed_script(s: &str) -> (r: bool)
    ensures
        r == mixes_scripts(s@),
{
    let words = text::words_of(s);
    let mut i: usize = 0;
    while i < words.len()
        invariant
            i <= words@.len() == text::words(s@).len(),
            forall|j: int| 0 <= j < words@.len() ==> (#[trigger] words@[j])@ == text::words(s@)[j],
            forall|j: int|
                0 <= j < i ==> !(some_ascii_letter(#[trigger] text::words(s@)[j]) && some_cjk(
                    text::words(s@)[j],
                )),
        decreases words@.len() - i,
    {
        assert(words@[i as int]@ == text::words(s@)[i as int]);
        if has_ascii_letter(words[i].as_str()) && has_untranslated_cjk(words[i].as_str()) {
            return true;
        }
        i += 1;
    }
    false
}

/// A lone letter is left behind the end of the last sentence.
pub fn has_possible_orphan_character(s: &str) -> (r: bool)
    ensures
        r == leaves_orphan(s@),
{
    if text::chars_of(s).len() < 6 {
        return false;
    }
    let words = text::words_of(s);
    let n: usize = words.len();
    if n < 2 {
        return false;
    }
    assert(words@[n - 1]@ == text::words(s@).last());
    assert(words@[n - 2]@ == text::words(s@)[n - 2]);
    let last = text::chars_of(words[n - 1].as_str());
    if last.len() != 1 || !ascii_letter(last[0]) {
        return false;
    }
    let lower: char = last[0].to_ascii_lowercase();
    if lower == 'a' || lower == 'e' || lower == 'i' || lower == 'o' || lower == 'u' {
        return false;
    }
    let before = text::chars_of(words[n - 2].as_str());
    proof {
        text::lemma_words_nonempty(s@);
        assert(text::words(s@)[n - 2].len() > 0);
    }
    let c: char = before[before.len() - 1];
    c == '!' || c == '?' || c == '.' || c == '"' || c == '…' || c == '。' || c == '！' || c == '？'
}

fn repeats_half(bare: &Vec<String>) -> (r: bool)
    ensures
        r == halves_repeat(text::texts(bare@)),
{
    let ghost w = text::texts(bare@);
    let n: usize = bare.len();
    if n < 4 {
        return false;
    }
    let half: usize = n / 2;
    let mut k: usize = 0;
    while k < half
        invariant
            k <= half,
            half == n / 2,
            n == bare@.len(),
            w == text::texts(bare@),
            forall|j: int| 0 <= j < k ==> (#[trigger] w[j]) == w[half + j],
        decreases half - k,
    {
        if !text::same(bare[k].as_str(), bare[half + k].as_str()) {
            assert(w.subrange(0, half as int)[k as int] == bare@[k as int]@);
            assert(w.subrange(half as int, half * 2)[k as int] == bare@[half + k]@);
            return false;
        }
        assert(w[k as int] == bare@[k as int]@);
        assert(w[half + k] == bare@[half + k]@);
        k += 1;
    }
    assert(w.subrange(0, half as int) =~= w.subrange(half as int, half * 2));
    true
}

fn repeats_long_word(bare: &Vec<String>) -> (r: bool)
    ensures
        r == long_word_repeats(text::texts(bare@)),
{
    let ghost w = text::texts(bare@);
    let n: usize = bare.len();
    let mut k: usize = 0;
    while k < n && n - k > 1
        invariant
            n == bare@.len(),
            k <= n,
            w == text::texts(bare@),
            forall|j: int| 0 <= j < k ==> !(#[trigger] w[j] == w[j + 1] && w[j].len() >= 12),
        decreases n - k,
    {
        assert(w[k as int] == bare@[k as int]@);
        assert(w[k + 1] == bare@[k + 1]@);
        if text::same(bare[k].as_str(), bare[k + 1].as_str()) && text::chars_of(
            bare[k].as_str(),
        ).len() >= 12 {
            return true;
        }
        k += 1;
    }
    false
}

/// Words without the marks at their ends.
pub open spec fn stripped(words: Seq<Seq<char>>) -> Seq<Seq<char>> {
    Seq::new(words.len(), |i: int| text::trim_end(words[i], text::Edge::Punctuation))
}

/// A fragment stands twice in a row, given the words in lower case.
pub fn lowered_words_repeat(lowered: &Vec<String>) -> (r: bool)
    ensures
        r == (halves_repeat(stripped(text::texts(lowered@))) || long_word_repeats(
            stripped(text::texts(lowered@)),
        )),
{
    let ghost w = stripped(text::texts(lowered@));
    let mut bare: Vec<String> = Vec::new();
    let mut i: usize = 0;
    while i < lowered.len()
        invariant
            i <= lowered@.len(),
            w == stripped(text::texts(lowered@)),
            bare@.len() == i,
            forall|j: int| 0 <= j < i ==> (#[trigger] bare@[j])@ == w[j],
        decreases lowered@.len() - i,
    {
        bare.push(text::trimmed_end(lowered[i].as_str(), text::Edge::Punctuation));
        assert(text::texts(lowered@)[i as int] == lowered@[i as int]@);
        i += 1;
    }
    assert(text::texts(bare@) =~= w);
    repeats_half(&bare) || repeats_long_word(&bare)
}

/// A fragment stands twice in a row.
pub fn has_repeated_fragment(s: &str) -> (r: bool)
    ensures
        r == repeats(s@),
{
    let words = text::words_of(s);
    let mut lowered: Vec<String> = Vec::new();
    let mut i: usize = 0;
    while i < words.len()
        invariant
            i <= words@.len() == text::words(s@).len(),
            lowered@.len() == i,
            forall|j: int| 0 <= j < words@.len() ==> (#[trigger] words@[j])@ == text::words(s@)[j],
            forall|j: int| 0 <= j < i ==> (#[trigger] lowered@[j])@ == lowercase(text::words(s@)[j]),
        decreases words@.len() - i,
    {
        assert(words@[i as int]@ == text::words(s@)[i as int]);
        lowered.push(lowercased(words[i].as_str()));
        i += 1;
    }
    assert(stripped(text::texts(lowered@)) =~= bare_words(s@));
    lowered_words_repeat(&lowered)
}

/// Marks stand side by side that do not belong together.
pub fn has_suspicious_punctuation(s: &str) -> (r: bool)
    ensures
        r == has_bad_marks(s@),
{
    let v = text::chars_of(s);
    let mut i: usize = 0;
    while i < v.len() && v.len() - i > 1
        invariant
            v@ == s@,
            i <= v@.len(),
            forall|j: int| 0 <= j < i ==> !(#[trigger] bad_marks_at(s@, j)),
        decreases v@.len() - i,
    {
        let a: char = v[i];
        let b: char = v[i + 1];
        let pair = (a == '!' && b == '!') || (a == '?' && b == '?') || (a == ',' && b == ',') || (a
            == ';' && b == ';') || (a == ':' && b == ':') || (a == '.' && b == ',') || (a == ',' && b
            == '.') || (a == '。' && b == '。') || (a == '，' && b == '，') || (a == '！' && b == '！')
            || (a == '？' && b == '？');
        let stop = a == '.' && (b == '!' || b == '?') && (i == 0 || v[i - 1] != '.');
        if pair || stop || ((a == '!' || a == '?') && b == '.') {
            assert(bad_marks_at(s@, i as int));
            return true;
        }
        i += 1;
    }
    false
}

/// The hints that a translation gives; none where there is no translation.
pub fn quality_hints(_source: &str, translation: Option<&str>) -> (r: Vec<&'static str>)
    ensures
        translation is None ==> r@.len() == 0,
        translation matches Some(s) ==> r@.len() == hints_of(s@).len() && forall|i: int|
            0 <= i < r@.len() ==> (#[trigger] r@[i])@ == hints_of(s@)[i],
{
    let mut hints: Vec<&'static str> = Vec::new();
    match translation {
        None => hints,
        Some(s) => {
            let t = text::trimmed(s, text::Edge::Whitespace);
            if has_untranslated_cjk(t.as_str()) {
                hints.push("untranslated_cjk");
            }
            if has_suspicious_mixed_script(t.as_str()) {
                hints.push("suspicious_mixed_script");
            }
            if has_possible_orphan_character(t.as_str()) {
                hints.push("possible_orphan_character");
            }
            if has_repeated_fragment(t.as_str()) {
                hints.push("repeated_fragment");
            }
            if has_suspicious_punctuation(t.as_str()) {
                hints.push("suspicious_punctuation");
            }
            hints
        },
    }
}

// ---------------------------------------------------------------------------------------------
// Laws
// ---------------------------------------------------------------------------------------------

/// The names of the hints differ.
proof fn lemma_names_differ()
    ensures
        "untranslated_cjk"@.len() == 16,
        "suspicious_mixed_script"@.len() == 23,
        "possible_orphan_character"@.len() == 25,
        "repeated_fragment"@.len() == 17,
        "suspicious_punctuation"@.len() == 22,
{
    reveal_strlit("untranslated_cjk");
    reveal_strlit("suspicious_mixed_script");
    reveal_strlit("possible_orphan_character");
    reveal_strlit("repeated_fragment");
    reveal_strlit("suspicious_punctuation");
}

/// Which hints a text gives, by what is found in it once it is trimmed.
proof fn lemma_hints_given(s: Seq<char>)
    ensures
        ({
            let t = text::trim(s, text::Edge::Whitespace);
            let h = hints_of(s);
            &&& h.contains("untranslated_cjk"@) == some_cjk(t)
            &&& h.contains("suspicious_mixed_script"@) == mixes_scripts(t)
            &&& h.contains("possible_orphan_character"@) == leaves_orphan(t)
            &&& h.contains("repeated_fragment"@) == repeats(t)
            &&& h.contains("suspicious_punctuation"@) == has_bad_marks(t)
        }),
        hints_of(s).no_duplicates(),
{
    lemma_names_differ();
    let t = text::trim(s, text::Edge::Whitespace);
    let h0 = Seq::<Seq<char>>::empty();
    let h1 = if some_cjk(t) { h0.push("untranslated_cjk"@) } else { h0 };
    let h2 = if mixes_scripts(t) { h1.push("suspicious_mixed_script"@) } else { h1 };
    let h3 = if leaves_orphan(t) { h2.push("possible_orphan_character"@) } else { h2 };
    let h4 = if repeats(t) { h3.push("repeated_fragment"@) } else { h3 };
    let h = hints_of(s);
    assert(some_cjk(t) ==> h[0] == "untranslated_cjk"@);
    assert(mixes_scripts(t) ==> h[h1.len() as int] == "suspicious_mixed_script"@);
    assert(leaves_orphan(t) ==> h[h2.len() as int] == "possible_orphan_character"@);
    assert(repeats(t) ==> h[h3.len() as int] == "repeated_fragment"@);
    assert(has_bad_marks(t) ==> h[h4.len() as int] == "suspicious_punctuation"@);
}

/// Ideographs are hinted at wherever they stand: a translation with a character of the ideographs,
/// of their marks or of the half-width forms gives the hint, and one without gives none.
pub proof fn lemma_ideographs_are_hinted_at(s: Seq<char>)
    ensures
        (exists|i: int|
            0 <= i < s.len() && {
                let u = #[trigger] s[i] as u32;
                ||| 0x3001 <= u <= 0x303f
                ||| 0x3400 <= u <= 0x4dbf
                ||| 0x4e00 <= u <= 0x9fff
                ||| 0xff66 <= u <= 0xffdc
            }) ==> hints_of(s).contains("untranslated_cjk"@),
        (forall|i: int|
            0 <= i < s.len() ==> {
                let u = #[trigger] s[i] as u32;
                &&& !(0x3000 <= u <= 0x303f)
                &&& !(0x3400 <= u <= 0x4dbf)
                &&& !(0x4e00 <= u <= 0x9fff)
                &&& !(0xff66 <= u <= 0xffdc)
            }) ==> !hints_of(s).contains("untranslated_cjk"@) && !hints_of(s).contains(
            "suspicious_mixed_script"@,
        ),
{
    lemma_hints_given(s);
    let t = text::trim(s, text::Edge::Whitespace);
    let (a, b) = text::lemma_trim_is_the_middle(s, text::Edge::Whitespace);
    if exists|i: int|
        0 <= i < s.len() && {
            let u = #[trigger] s[i] as u32;
            ||| 0x3001 <= u <= 0x303f
            ||| 0x3400 <= u <= 0x4dbf
            ||| 0x4e00 <= u <= 0x9fff
            ||| 0xff66 <= u <= 0xffdc
        } {
        let i = choose|i: int|
            0 <= i < s.len() && {
                let u = #[trigger] s[i] as u32;
                ||| 0x3001 <= u <= 0x303f
                ||| 0x3400 <= u <= 0x4dbf
                ||| 0x4e00 <= u <= 0x9fff
                ||| 0xff66 <= u <= 0xffdc
            };
        assert(!text::Edge::Whitespace.spec_has(s[i]));
        assert(a <= i < b);
        assert(t[i - a] == s[i]);
        assert(is_cjk(t[i - a]));
    }
    if forall|i: int|
        0 <= i < s.len() ==> {
            let u = #[trigger] s[i] as u32;
            &&& !(0x3000 <= u <= 0x303f)
            &&& !(0x3400 <= u <= 0x4dbf)
            &&& !(0x4e00 <= u <= 0x9fff)
            &&& !(0xff66 <= u <= 0xffdc)
        } {
        assert forall|i: int| 0 <= i < t.len() implies !is_cjk(#[trigger] t[i]) by {
            assert(t[i] == s[a + i]);
        }
        if mixes_scripts(t) {
            let k = choose|k: int|
                0 <= k < text::words(t).len() && some_ascii_letter(#[trigger] text::words(t)[k])
                    && some_cjk(text::words(t)[k]);
            let w = text::words(t)[k];
            let j = choose|j: int| 0 <= j < w.len() && is_cjk(#[trigger] w[j]);
            text::lemma_word_characters(t, k, j);
            let i = choose|i: int| 0 <= i < t.len() && #[trigger] t[i] == w[j];
            assert(!is_cjk(t[i]));
        }
    }
}

/// A word that holds a Latin letter and an ideograph is hinted at: so is a text without whitespace
/// that holds both.
pub proof fn lemma_mixed_scripts_are_hinted_at(s: Seq<char>, i: int, j: int)
    requires
        forall|k: int| 0 <= k < s.len() ==> !text::is_whitespace(#[trigger] s[k]),
        0 <= i < s.len(),
        0 <= j < s.len(),
        'A' <= s[i] <= 'Z' || 'a' <= s[i] <= 'z',
        0x4e00 <= s[j] as u32 <= 0x9fff,
    ensures
        hints_of(s).contains("suspicious_mixed_script"@),
{
    lemma_hints_given(s);
    let (a, b) = text::lemma_trim_is_the_middle(s, text::Edge::Whitespace);
    assert(a == 0) by {
        if a > 0 {
            assert(text::Edge::Whitespace.spec_has(s[0]));
        }
    }
    assert(b == s.len()) by {
        if b < s.len() {
            assert(text::Edge::Whitespace.spec_has(s[s.len() - 1]));
        }
    }
    assert(s.subrange(0, s.len() as int) =~= s);
    text::lemma_words_of_parts(Seq::empty(), ' ', s);
    assert(text::words(s)[0] == s);
    assert(is_ascii_letter(s[i]));
    assert(is_cjk(s[j]));
    assert(some_ascii_letter(text::words(s)[0]) && some_cjk(text::words(s)[0]));
}

/// A consonant that is left alone behind the end of a sentence is hinted at; a vowel is not, nor is
/// a longer word.
pub proof fn lemma_orphans_are_hinted_at(head: Seq<char>, mark: char, last: Seq<char>)
    requires
        head.len() > 0,
        !text::is_whitespace(head[0]),
        mark == '!' || mark == '?' || mark == '.' || mark == '…',
        last.len() > 0,
        forall|k: int| 0 <= k < last.len() ==> !text::is_whitespace(#[trigger] last[k]),
    ensures
        ({
            let s = head + seq![mark] + seq![' '] + last;
            &&& s.len() >= 6 && last.len() == 1 && ('b' <= last[0] <= 'd' || 'f' <= last[0] <= 'h'
                || 'j' <= last[0] <= 'n' || 'p' <= last[0] <= 't' || 'v' <= last[0] <= 'z' || 'B'
                <= last[0] <= 'D' || 'F' <= last[0] <= 'H' || 'J' <= last[0] <= 'N' || 'P'
                <= last[0] <= 'T' || 'V' <= last[0] <= 'Z') ==> hints_of(s).contains(
                "possible_orphan_character"@,
            )
            &&& last.len() > 1 || last[0] == 'a' || last[0] == 'e' || last[0] == 'i' || last[0]
                == 'o' || last[0] == 'u' || last[0] == 'A' || last[0] == 'E' || last[0] == 'I'
                || last[0] == 'O' || last[0] == 'U' || s.len() < 6 ==> !hints_of(s).contains(
                "possible_orphan_character"@,
            )
        }),
{
    let front = head + seq![mark];
    let s = front + seq![' '] + last;
    lemma_hints_given(s);
    let (a, b) = text::lemma_trim_is_the_middle(s, text::Edge::Whitespace);
    assert(a == 0) by {
        assert(s[0] == head[0]);
        if a > 0 {
            assert(text::Edge::Whitespace.spec_has(s[0]));
        }
    }
    assert(b == s.len()) by {
        assert(s[s.len() - 1] == last[last.len() - 1]);
        if b < s.len() {
            assert(text::Edge::Whitespace.spec_has(s[s.len() - 1]));
        }
    }
    assert(s.subrange(0, s.len() as int) =~= s);
    text::lemma_words_of_parts(front, ' ', last);
    assert(text::words(s) == text::words(front) + seq![last]);
    assert(!text::is_whitespace(front[front.len() - 1]));
    text::lemma_last_word(front);
    let w = text::words(s);
    assert(w[w.len() - 2] == text::words(front).last());
    assert(w.last() == last);
}

/// Marks that do not belong together are hinted at wherever they stand side by side.
pub proof fn lemma_bad_marks_are_hinted_at(s: Seq<char>, i: int)
    requires
        0 <= i,
        i + 1 < s.len(),
        (s[i] == s[i + 1] && (s[i] == '!' || s[i] == '?' || s[i] == ',' || s[i] == ';' || s[i] == ':'
            || s[i] == '。' || s[i] == '，' || s[i] == '！' || s[i] == '？')) || (s[i] == '.' && s[i
            + 1] == ',') || (s[i] == ',' && s[i + 1] == '.') || ((s[i] == '!' || s[i] == '?') && s[i
            + 1] == '.') || (i > 0 && !text::is_whitespace(s[i - 1]) && s[i - 1] != '.' && s[i]
            == '.' && (s[i + 1] == '!' || s[i + 1] == '?')),
    ensures
        hints_of(s).contains("suspicious_punctuation"@),
{
    lemma_hints_given(s);
    let t = text::trim(s, text::Edge::Whitespace);
    let (a, b) = text::lemma_trim_is_the_middle(s, text::Edge::Whitespace);
    assert(!text::is_whitespace(s[i]) && !text::is_whitespace(s[i + 1]));
    assert(a <= i && i + 1 < b);
    assert(t[i - a] == s[i] && t[i - a + 1] == s[i + 1]);
    if i > 0 && !text::is_whitespace(s[i - 1]) {
        assert(a <= i - 1);
        assert(t[i - a - 1] == s[i - 1]);
    }
    assert(bad_marks_at(t, i - a));
}

/// Three full stops before a question or an exclamation are no bad marks: a text of letters, spaces,
/// ellipses of full stops, and single marks at its end gives no hint of punctuation.
pub proof fn lemma_clean_marks(s: Seq<char>)
    requires
        forall|i: int|
            0 <= i && i + 1 < s.len() && (#[trigger] s[i] == '!' || s[i] == '?' || s[i] == ','
                || s[i] == ';' || s[i] == ':' || s[i] == '。' || s[i] == '，' || s[i] == '！' || s[i]
                == '？' || s[i] == '.') ==> s[i + 1] == ' ' || s[i] == '.' && s[i + 1] == '.' || s[i]
                == '.' && i > 0 && s[i - 1] == '.' && (s[i + 1] == '!' || s[i + 1] == '?'),
        s.len() > 0,
        !text::is_whitespace(s[0]),
        !text::is_whitespace(s.last()),
    ensures
        !hints_of(s).contains("suspicious_punctuation"@),
{
    lemma_hints_given(s);
    let t = text::trim(s, text::Edge::Whitespace);
    let (a, b) = text::lemma_trim_is_the_middle(s, text::Edge::Whitespace);
    assert(a == 0) by {
        if a > 0 {
            assert(text::Edge::Whitespace.spec_has(s[0]));
        }
    }
    assert(b == s.len()) by {
        if b < s.len() {
            assert(text::Edge::Whitespace.spec_has(s[s.len() - 1]));
        }
    }
    assert(t =~= s);
    assert forall|i: int| 0 <= i && i + 1 < t.len() implies !(#[trigger] bad_marks_at(t, i)) by {
        assert(s[i] == t[i]);
    }
}

/// A text that says its words twice is hinted at: four words or more, the second half the same as
/// the first.
pub proof fn lemma_repetition_is_hinted_at(s: Seq<char>)
    requires
        ({
            let w = text::words(text::trim(s, text::Edge::Whitespace));
            &&& w.len() >= 4
            &&& forall|i: int| 0 <= i < w.len() / 2 ==> #[trigger] w[i] == w[w.len() / 2 + i]
        }),
    ensures
        hints_of(s).contains("repeated_fragment"@),
{
    lemma_hints_given(s);
    let t = text::trim(s, text::Edge::Whitespace);
    let w = text::words(t);
    let b = bare_words(t);
    let half = (b.len() / 2) as int;
    assert forall|i: int| 0 <= i < half implies b.subrange(0, half)[i] == b.subrange(
        half,
        half * 2,
    )[i] by {
        assert(w[i] == w[half + i]);
        assert(b[i] == bare_word(w[i]));
        assert(b[half + i] == bare_word(w[half + i]));
    }
    assert(b.subrange(0, half) =~= b.subrange(half, half * 2));
}

/// A text of fewer than four words, no two of which side by side are the same in lower case and
/// without the marks behind them, gives no hint of a repetition.
pub proof fn lemma_no_repetition(s: Seq<char>)
    requires
        ({
            let w = text::words(text::trim(s, text::Edge::Whitespace));
            &&& w.len() < 4
            &&& forall|i: int|
                0 <= i && i + 1 < w.len() ==> text::trim_end(
                    lowercase(#[trigger] w[i]),
                    text::Edge::Punctuation,
                ) != text::trim_end(lowercase(w[i + 1]), text::Edge::Punctuation)
        }),
    ensures
        !hints_of(s).contains("repeated_fragment"@),
{
    lemma_hints_given(s);
    let t = text::trim(s, text::Edge::Whitespace);
    let w = text::words(t);
    let b = bare_words(t);
    assert forall|i: int| 0 <= i && i + 1 < b.len() implies #[trigger] b[i] != b[i + 1] by {
        assert(b[i] == bare_word(w[i]));
        assert(b[i + 1] == bare_word(w[i + 1]));
    }
}

/// What counts as an ideograph are the characters of four ranges: the marks, the unified ideographs
/// with their first extension, and the half-width forms. A letter is one of ASCII, and a vowel one of
/// five letters of either case. Eight marks end a sentence.
pub proof fn lemma_characters_of_hints(c: char)
    ensures
        is_cjk(c) <==> ('\u{3000}' <= c <= '\u{303f}' || '\u{3400}' <= c <= '\u{4dbf}' || '\u{4e00}'
            <= c <= '\u{9fff}' || '\u{ff66}' <= c <= '\u{ffdc}'),
        is_ascii_letter(c) <==> (0x41 <= c as u32 <= 0x5a || 0x61 <= c as u32 <= 0x7a),
        is_vowel(c) <==> (c == 'a' || c == 'e' || c == 'i' || c == 'o' || c == 'u' || c == 'A' || c
            == 'E' || c == 'I' || c == 'O' || c == 'U'),
        ends_sentence(c) <==> (c as u32 == 0x21 || c as u32 == 0x3f || c as u32 == 0x2e || c as u32
            == 0x22 || c as u32 == 0x2026 || c as u32 == 0x3002 || c as u32 == 0xff01 || c as u32
            == 0xff1f),
{
}

} // verus!
