//! Strings as sequences of characters.
//!
//! Every function here works on the characters of a string, so that a contract can speak of
//! `s@`. Where an offset counts bytes it is said so.
use vstd::prelude::*;

verus! {

/// `String::push` appends one character and leaves the others in place.
pub assume_specification[ String::push ](s: &mut String, c: char)
    ensures
        final(s)@ == old(s)@.push(c),
;

/// `char::to_ascii_lowercase` maps `A`..`Z` to `a`..`z` and keeps every other character.
pub assume_specification[ char::to_ascii_lowercase ](c: &char) -> (lower: char)
    ensures
        lower == ascii_lower_char(*c),
;

/// The characters with the Unicode property `White_Space`.
pub open spec fn is_whitespace(c: char) -> bool {
    let u = c as u32;
    ||| 0x9 <= u <= 0xd
    ||| u == 0x20
    ||| u == 0x85
    ||| u == 0xa0
    ||| u == 0x1680
    ||| 0x2000 <= u <= 0x200a
    ||| u == 0x2028
    ||| u == 0x2029
    ||| u == 0x202f
    ||| u == 0x205f
    ||| u == 0x3000
}

/// The characters of the general category `Cc`.
pub open spec fn is_control(c: char) -> bool {
    let u = c as u32;
    u <= 0x1f || 0x7f <= u <= 0x9f
}

pub open spec fn ascii_lower_char(c: char) -> char {
    if 'A' <= c <= 'Z' {
        (c as u32 + 32) as char
    } else {
        c
    }
}

/// Whether `c` has the property `White_Space`.
pub fn whitespace(c: char) -> (r: bool)
    ensures
        r == is_whitespace(c),
{
    let u: u32 = c as u32;
    (0x9 <= u && u <= 0xd) || u == 0x20 || u == 0x85 || u == 0xa0 || u == 0x1680 || (0x2000 <= u
        && u <= 0x200a) || u == 0x2028 || u == 0x2029 || u == 0x202f || u == 0x205f || u == 0x3000
}

/// Whether `c` is a control character.
pub fn control(c: char) -> (r: bool)
    ensures
        r == is_control(c),
{
    let u: u32 = c as u32;
    u <= 0x1f || (0x7f <= u && u <= 0x9f)
}

/// The characters of `s`, in order.
pub fn chars_of(s: &str) -> (v: Vec<char>)
    ensures
        v@ == s@,
{
    let mut v: Vec<char> = Vec::new();
    for c in it: s.chars()
        invariant
            it.seq() == s@,
            v@ == s@.take(it.index() as int),
    {
        v.push(c);
    }
    assert(v@ =~= s@);
    v
}

/// The string whose characters are `v`.
pub fn string_of(v: &Vec<char>) -> (s: String)
    ensures
        s@ == v@,
{
    string_of_range(v, 0, v.len())
}

/// The string whose characters are `v[start..end]`.
pub fn string_of_range(v: &Vec<char>, start: usize, end: usize) -> (s: String)
    requires
        start <= end <= v@.len(),
    ensures
        s@ == v@.subrange(start as int, end as int),
{
    let mut s = String::new();
    let mut i: usize = start;
    while i < end
        invariant
            start <= i <= end <= v@.len(),
            s@ == v@.subrange(start as int, i as int),
        decreases end - i,
    {
        s.push(v[i]);
        i += 1;
        assert(s@ =~= v@.subrange(start as int, i as int));
    }
    s
}

/// Whether `a` and `b` hold the same characters.
pub fn same(a: &str, b: &str) -> (r: bool)
    ensures
        r == (a@ == b@),
{
    let a: String = a.to_owned();
    let b: String = b.to_owned();
    a == b
}

/// How many bytes `s` takes in UTF-8.
pub fn byte_len(s: &str) -> (n: usize)
    ensures
        n == vstd::utf8::encode_utf8(s@).len(),
{
    s.as_bytes().len()
}

/// `a` followed by `b`.
pub fn joined(a: &str, b: &str) -> (s: String)
    ensures
        s@ == a@ + b@,
{
    let mut s: String = a.to_owned();
    s.append(b);
    s
}

/// The bytes of two strings in a row are the bytes of the one, then those of the other.
pub proof fn lemma_bytes_of_concat(a: Seq<char>, b: Seq<char>)
    ensures
        vstd::utf8::encode_utf8(a + b) == vstd::utf8::encode_utf8(a) + vstd::utf8::encode_utf8(b),
    decreases a.len(),
{
    if a.len() == 0 {
        assert(a + b =~= b);
        assert(vstd::utf8::encode_utf8(a) =~= Seq::empty());
        assert(Seq::empty() + vstd::utf8::encode_utf8(b) =~= vstd::utf8::encode_utf8(b));
    } else {
        lemma_bytes_of_concat(a.drop_first(), b);
        assert((a + b).drop_first() =~= a.drop_first() + b);
        assert((a + b)[0] == a[0]);
        assert(vstd::utf8::encode_utf8(a + b) =~= vstd::utf8::encode_utf8(a)
            + vstd::utf8::encode_utf8(b));
    }
}

/// ASCII characters take one byte each.
pub proof fn lemma_bytes_of_ascii(s: Seq<char>)
    requires
        vstd::utf8::is_ascii_chars(s),
    ensures
        vstd::utf8::encode_utf8(s).len() == s.len(),
{
    vstd::utf8::is_ascii_chars_encode_utf8(s);
}

// ---------------------------------------------------------------------------------------------
// Trimming
// ---------------------------------------------------------------------------------------------

/// A set of characters that is cut off the ends of a string.
#[derive(Clone, Copy)]
pub enum Edge {
    /// Whitespace.
    Whitespace,
    /// A space or a full stop.
    SpaceOrDot,
    /// A full stop or whitespace.
    DotOrWhitespace,
    /// Whitespace, or a quotation or sentence mark that may surround a term.
    Term,
    /// ASCII punctuation.
    Punctuation,
    /// A mark that joins the parts of a name.
    Joiner,
}

/// The printable ASCII characters that are neither letters, digits nor the space.
pub open spec fn is_ascii_punctuation(c: char) -> bool {
    ||| '!' <= c <= '/'
    ||| ':' <= c <= '@'
    ||| '[' <= c <= '`'
    ||| '{' <= c <= '~'
}

/// The marks of [`Edge::Term`] beside whitespace.
pub open spec fn is_term_mark(c: char) -> bool {
    ||| c == '「' || c == '」' || c == '『' || c == '』'
    ||| c == '"' || c == '\'' || c == '“' || c == '”' || c == '‘' || c == '’'
    ||| c == '。' || c == '、' || c == ',' || c == '.'
    ||| c == '!' || c == '?' || c == '！'
    ||| c == ':' || c == ';' || c == '：' || c == '；'
}

impl Edge {
    pub open spec fn spec_has(self, c: char) -> bool {
        match self {
            Edge::Whitespace => is_whitespace(c),
            Edge::SpaceOrDot => c == ' ' || c == '.',
            Edge::DotOrWhitespace => c == '.' || is_whitespace(c),
            Edge::Term => is_whitespace(c) || is_term_mark(c),
            Edge::Punctuation => is_ascii_punctuation(c),
            Edge::Joiner => c == '・' || c == '-',
        }
    }

    /// Whether `c` belongs to the set.
    pub fn holds(self, c: char) -> (r: bool)
        ensures
            r == self.spec_has(c),
    {
        match self {
            Edge::Whitespace => whitespace(c),
            Edge::SpaceOrDot => c == ' ' || c == '.',
            Edge::DotOrWhitespace => c == '.' || whitespace(c),
            Edge::Term => whitespace(c) || c == '「' || c == '」' || c == '『' || c == '』' || c == '"'
                || c == '\'' || c == '“' || c == '”' || c == '‘' || c == '’' || c == '。' || c == '、'
                || c == ',' || c == '.' || c == '!' || c == '?' || c == '！' || c == ':'
                || c == ';' || c == '：' || c == '；',
            Edge::Punctuation => ('!' <= c && c <= '/') || (':' <= c && c <= '@') || ('[' <= c && c
                <= '`') || ('{' <= c && c <= '~'),
            Edge::Joiner => c == '・' || c == '-',
        }
    }
}

/// `s` without the characters of `edge` at its start.
pub open spec fn trim_start(s: Seq<char>, edge: Edge) -> Seq<char>
    decreases s.len(),
{
    if s.len() > 0 && edge.spec_has(s[0]) {
        trim_start(s.drop_first(), edge)
    } else {
        s
    }
}

/// `s` without the characters of `edge` at its end.
pub open spec fn trim_end(s: Seq<char>, edge: Edge) -> Seq<char>
    decreases s.len(),
{
    if s.len() > 0 && edge.spec_has(s.last()) {
        trim_end(s.drop_last(), edge)
    } else {
        s
    }
}

/// `s` without the characters of `edge` at either end.
pub open spec fn trim(s: Seq<char>, edge: Edge) -> Seq<char> {
    trim_end(trim_start(s, edge), edge)
}

/// `s` with the characters of `edge` cut off its end.
pub fn trimmed_end(s: &str, edge: Edge) -> (r: String)
    ensures
        r@ == trim_end(s@, edge),
{
    let v = chars_of(s);
    let mut end: usize = v.len();
    assert(v@.take(end as int) =~= s@);
    while end > 0 && edge.holds(v[end - 1])
        invariant
            end <= v@.len(),
            trim_end(v@.take(end as int), edge) == trim_end(s@, edge),
        decreases end,
    {
        assert(v@.take(end as int).drop_last() =~= v@.take(end - 1));
        end -= 1;
    }
    assert(v@.take(end as int) =~= v@.subrange(0, end as int));
    string_of_range(&v, 0, end)
}

/// `s` with the characters of `edge` cut off both ends.
pub fn trimmed(s: &str, edge: Edge) -> (r: String)
    ensures
        r@ == trim(s@, edge),
{
    let v = chars_of(s);
    let mut start: usize = 0;
    assert(v@.skip(0) =~= s@);
    while start < v.len() && edge.holds(v[start])
        invariant
            start <= v@.len(),
            trim_start(v@.skip(start as int), edge) == trim_start(s@, edge),
        decreases v@.len() - start,
    {
        assert(v@.skip(start as int).drop_first() =~= v@.skip(start + 1));
        start += 1;
    }
    let rest = string_of_range(&v, start, v.len());
    assert(rest@ =~= v@.skip(start as int));
    trimmed_end(rest.as_str(), edge)
}

/// Whether nothing but whitespace stands in `s`.
pub open spec fn is_blank(s: Seq<char>) -> bool {
    forall|i: int| 0 <= i < s.len() ==> is_whitespace(#[trigger] s[i])
}

/// Whether nothing but whitespace stands in `s`.
pub fn blank(s: &str) -> (r: bool)
    ensures
        r == is_blank(s@),
{
    let v = chars_of(s);
    let mut i: usize = 0;
    while i < v.len()
        invariant
            i <= v@.len(),
            v@ == s@,
            forall|j: int| 0 <= j < i ==> is_whitespace(#[trigger] v@[j]),
        decreases v@.len() - i,
    {
        if !whitespace(v[i]) {
            assert(!is_whitespace(s@[i as int]));
            return false;
        }
        i += 1;
    }
    true
}

/// Trimming a string to nothing is the same as finding it blank.
pub proof fn lemma_trim_blank(s: Seq<char>)
    ensures
        (trim(s, Edge::Whitespace).len() == 0) == is_blank(s),
    decreases s.len(),
{
    if s.len() > 0 && is_whitespace(s[0]) {
        lemma_trim_blank(s.drop_first());
        assert forall|i: int| is_blank(s.drop_first()) && 0 <= i < s.len() implies is_whitespace(
            #[trigger] s[i],
        ) by {
            if i > 0 {
                assert(s[i] == s.drop_first()[i - 1]);
            }
        }
        if is_blank(s) {
            assert forall|i: int| 0 <= i < s.drop_first().len() implies is_whitespace(
                #[trigger] s.drop_first()[i],
            ) by {
                assert(s.drop_first()[i] == s[i + 1]);
            }
        }
    } else if s.len() > 0 {
        lemma_trim_end_keeps_first(s, Edge::Whitespace);
        assert(!is_whitespace(s[0]));
    }
}

/// Cutting the end off a string stops at the latest at a character that is kept.
proof fn lemma_trim_end_keeps_first(s: Seq<char>, edge: Edge)
    requires
        s.len() > 0,
        !edge.spec_has(s[0]),
    ensures
        trim_end(s, edge).len() > 0,
    decreases s.len(),
{
    if edge.spec_has(s.last()) {
        assert(s.len() > 1);
        lemma_trim_end_keeps_first(s.drop_last(), edge);
    }
}

/// What is left after trimming has no character of `edge` at either end.
pub proof fn lemma_trim_ends(s: Seq<char>, edge: Edge)
    ensures
        trim(s, edge).len() > 0 ==> !edge.spec_has(trim(s, edge)[0]) && !edge.spec_has(
            trim(s, edge).last(),
        ),
{
    lemma_trim_start_first(s, edge);
    lemma_trim_end_last(trim_start(s, edge), edge);
}

proof fn lemma_trim_start_first(s: Seq<char>, edge: Edge)
    ensures
        trim_start(s, edge).len() > 0 ==> !edge.spec_has(trim_start(s, edge)[0]),
    decreases s.len(),
{
    if s.len() > 0 && edge.spec_has(s[0]) {
        lemma_trim_start_first(s.drop_first(), edge);
    }
}

proof fn lemma_trim_end_last(s: Seq<char>, edge: Edge)
    ensures
        trim_end(s, edge).len() > 0 ==> !edge.spec_has(trim_end(s, edge).last()) && trim_end(
            s,
            edge,
        )[0] == s[0],
        trim_end(s, edge).len() <= s.len(),
    decreases s.len(),
{
    if s.len() > 0 && edge.spec_has(s.last()) {
        lemma_trim_end_last(s.drop_last(), edge);
    }
}

// ---------------------------------------------------------------------------------------------
// Words and case
// ---------------------------------------------------------------------------------------------

/// The maximal runs of characters of `s` that are not whitespace.
pub open spec fn words(s: Seq<char>) -> Seq<Seq<char>>
    decreases s.len(),
{
    if s.len() == 0 {
        Seq::empty()
    } else {
        let w = words(s.drop_last());
        if is_whitespace(s.last()) {
            w
        } else if s.len() >= 2 && !is_whitespace(s[s.len() - 2]) {
            w.drop_last().push(w.last().push(s.last()))
        } else {
            w.push(seq![s.last()])
        }
    }
}

/// The words one after the other, with one space between two.
pub open spec fn spaced(w: Seq<Seq<char>>) -> Seq<char>
    decreases w.len(),
{
    if w.len() == 0 {
        Seq::empty()
    } else if w.len() == 1 {
        w[0]
    } else {
        spaced(w.drop_last()).push(' ') + w.last()
    }
}

proof fn lemma_words_open(s: Seq<char>)
    ensures
        s.len() > 0 && !is_whitespace(s.last()) ==> words(s).len() > 0,
        forall|i: int| 0 <= i < words(s).len() ==> #[trigger] words(s)[i].len() > 0,
    decreases s.len(),
{
    if s.len() > 0 {
        lemma_words_open(s.drop_last());
        let w = words(s.drop_last());
        if !is_whitespace(s.last()) && s.len() >= 2 && !is_whitespace(s[s.len() - 2]) {
            assert(s.drop_last().last() == s[s.len() - 2]);
            assert(w.last().len() > 0);
        }
    }
}

/// No word is empty.
pub proof fn lemma_words_nonempty(s: Seq<char>)
    ensures
        forall|i: int| 0 <= i < words(s).len() ==> #[trigger] words(s)[i].len() > 0,
{
    lemma_words_open(s);
}

proof fn lemma_spaced_extend(w: Seq<Seq<char>>, c: char)
    requires
        w.len() > 0,
    ensures
        spaced(w.drop_last().push(w.last().push(c))) == spaced(w).push(c),
{
    let x = w.drop_last().push(w.last().push(c));
    assert(x.drop_last() =~= w.drop_last());
    if w.len() == 1 {
        assert(w[0] == w.last());
    } else {
        assert(spaced(x) =~= spaced(w).push(c));
    }
}

proof fn lemma_spaced_push(w: Seq<Seq<char>>, c: char)
    ensures
        spaced(w.push(seq![c])) == (if w.len() == 0 {
            seq![c]
        } else {
            spaced(w).push(' ').push(c)
        }),
{
    assert(w.push(seq![c]).drop_last() =~= w);
    if w.len() > 0 {
        assert(spaced(w).push(' ') + seq![c] =~= spaced(w).push(' ').push(c));
    }
}

proof fn lemma_spaced_empty(w: Seq<Seq<char>>)
    requires
        forall|i: int| 0 <= i < w.len() ==> #[trigger] w[i].len() > 0,
    ensures
        (spaced(w).len() == 0) == (w.len() == 0),
{
    if w.len() == 1 {
        assert(w[0].len() > 0);
    }
}

/// How a character changes a text in which every run of whitespace is one space.
proof fn lemma_collapsed_push(s: Seq<char>, c: char)
    ensures
        ({
            let x = spaced(words(s));
            let y = spaced(words(s.push(c)));
            if is_whitespace(c) {
                y == x
            } else if s.len() > 0 && !is_whitespace(s.last()) {
                x.len() > 0 && y == x.push(c)
            } else if x.len() == 0 {
                y == seq![c]
            } else {
                y == x.push(' ').push(c)
            }
        }),
{
    let w = words(s);
    assert(s.push(c).drop_last() =~= s);
    lemma_words_open(s);
    lemma_spaced_empty(w);
    if !is_whitespace(c) {
        if s.len() > 0 && !is_whitespace(s.last()) {
            assert(s.push(c)[s.push(c).len() - 2] == s.last());
            lemma_spaced_extend(w, c);
        } else {
            if s.len() > 0 {
                assert(s.push(c)[s.push(c).len() - 2] == s.last());
            }
            lemma_spaced_push(w, c);
        }
    }
}

/// The only whitespace of `s` is single spaces between other characters.
pub open spec fn is_tidy(s: Seq<char>) -> bool {
    forall|i: int|
        0 <= i < s.len() && is_whitespace(#[trigger] s[i]) ==> s[i] == ' ' && 0 < i < s.len() - 1
            && !is_whitespace(s[i - 1]) && !is_whitespace(s[i + 1])
}

/// A text in which every run of whitespace is one space, and none stands at the ends, is tidy.
pub proof fn lemma_collapsed_tidy(s: Seq<char>)
    ensures
        is_tidy(spaced(words(s))),
    decreases s.len(),
{
    if s.len() > 0 {
        let rest = s.drop_last();
        let c = s.last();
        lemma_collapsed_tidy(rest);
        lemma_collapsed_push(rest, c);
        assert(rest.push(c) =~= s);
        let x = spaced(words(rest));
        let y = spaced(words(s));
        assert(x.len() > 0 ==> !is_whitespace(x.last()));
        assert forall|i: int| 0 <= i < y.len() && is_whitespace(#[trigger] y[i]) implies y[i] == ' '
            && 0 < i < y.len() - 1 && !is_whitespace(y[i - 1]) && !is_whitespace(y[i + 1]) by {
            if i < x.len() {
                assert(y[i] == x[i]);
                assert(is_whitespace(x[i]));
            } else {
                assert(y == x.push(' ').push(c));
            }
        }
    }
}

/// A tidy text stays as it is.
pub proof fn lemma_tidy_stays(s: Seq<char>)
    requires
        is_tidy(s),
    ensures
        spaced(words(s)) == s,
    decreases s.len(),
{
    if s.len() > 0 {
        let rest = s.drop_last();
        let c = s.last();
        assert(!is_whitespace(s[s.len() - 1]));
        assert(rest.push(c) =~= s);
        lemma_collapsed_push(rest, c);
        if rest.len() > 0 && is_whitespace(s[s.len() - 2]) {
            let shorter = rest.drop_last();
            assert(rest.last() == ' ');
            assert(shorter.push(' ') =~= rest);
            assert forall|i: int| 0 <= i < shorter.len() && is_whitespace(
                #[trigger] shorter[i],
            ) implies shorter[i] == ' ' && 0 < i < shorter.len() - 1 && !is_whitespace(
                shorter[i - 1],
            ) && !is_whitespace(shorter[i + 1]) by {
                assert(is_whitespace(s[i]));
            }
            lemma_tidy_stays(shorter);
            lemma_collapsed_push(shorter, ' ');
            assert(shorter.push(' ').push(c) =~= s);
        } else if rest.len() > 0 {
            assert forall|i: int| 0 <= i < rest.len() && is_whitespace(
                #[trigger] rest[i],
            ) implies rest[i] == ' ' && 0 < i < rest.len() - 1 && !is_whitespace(rest[i - 1])
                && !is_whitespace(rest[i + 1]) by {
                assert(is_whitespace(s[i]));
            }
            lemma_tidy_stays(rest);
        } else {
            assert(seq![c] =~= s);
        }
    }
}

proof fn lemma_trim_start_part(s: Seq<char>, edge: Edge) -> (n: int)
    ensures
        0 <= n <= s.len(),
        trim_start(s, edge) == s.skip(n),
    decreases s.len(),
{
    if s.len() > 0 && edge.spec_has(s[0]) {
        let m = lemma_trim_start_part(s.drop_first(), edge);
        assert(s.drop_first().skip(m) =~= s.skip(m + 1));
        m + 1
    } else {
        assert(s.skip(0) =~= s);
        0
    }
}

proof fn lemma_trim_end_part(s: Seq<char>, edge: Edge) -> (n: int)
    ensures
        0 <= n <= s.len(),
        trim_end(s, edge) == s.take(n),
    decreases s.len(),
{
    if s.len() > 0 && edge.spec_has(s.last()) {
        let m = lemma_trim_end_part(s.drop_last(), edge);
        assert(s.drop_last().take(m) =~= s.take(m));
        m
    } else {
        assert(s.take(s.len() as int) =~= s);
        s.len() as int
    }
}

/// A tidy text without marks and whitespace at its ends is tidy, and nothing more is cut off it.
pub proof fn lemma_trim_tidy(s: Seq<char>)
    requires
        is_tidy(s),
    ensures
        is_tidy(trim(s, Edge::Term)),
        trim(trim(s, Edge::Term), Edge::Term) == trim(s, Edge::Term),
{
    let a = lemma_trim_start_part(s, Edge::Term);
    let n = lemma_trim_end_part(s.skip(a), Edge::Term);
    let t = trim(s, Edge::Term);
    lemma_trim_ends(s, Edge::Term);
    assert forall|i: int| 0 <= i < t.len() && is_whitespace(#[trigger] t[i]) implies t[i] == ' '
        && 0 < i < t.len() - 1 && !is_whitespace(t[i - 1]) && !is_whitespace(t[i + 1]) by {
        assert(t[i] == s[a + i]);
        assert(is_whitespace(s[a + i]));
        assert(t[t.len() - 1] == t.last());
        assert(t[i - 1] == s[a + i - 1] || i == 0);
        assert(t[i + 1] == s[a + i + 1] || i == t.len() - 1);
    }
}

/// What a mark in front adds to a text in which every run of whitespace is one space: itself, and
/// a space at most.
proof fn lemma_collapsed_front(c: char, s: Seq<char>) -> (gap: Seq<char>)
    requires
        !is_whitespace(c),
    ensures
        gap == Seq::<char>::empty() || gap == seq![' '],
        spaced(words(s)).len() == 0 ==> gap.len() == 0,
        spaced(words(seq![c] + s)) == seq![c] + gap + spaced(words(s)),
    decreases s.len(),
{
    if s.len() == 0 {
        lemma_collapsed_push(Seq::empty(), c);
        assert(Seq::empty().push(c) =~= seq![c] + s);
        assert(seq![c] =~= seq![c] + Seq::empty() + spaced(words(s)));
        Seq::empty()
    } else {
        let rest = s.drop_last();
        let d = s.last();
        let gap = lemma_collapsed_front(c, rest);
        lemma_collapsed_push(rest, d);
        lemma_collapsed_push(seq![c] + rest, d);
        assert(rest.push(d) =~= s);
        assert((seq![c] + rest).push(d) =~= seq![c] + s);
        assert((seq![c] + rest).last() == if rest.len() == 0 {
            c
        } else {
            rest.last()
        });
        let x = spaced(words(rest));
        let y = spaced(words(s));
        let z = spaced(words(seq![c] + s));
        if is_whitespace(d) {
            gap
        } else if rest.len() > 0 && !is_whitespace(rest.last()) {
            assert(z =~= seq![c] + gap + y);
            gap
        } else if x.len() > 0 {
            assert(z =~= seq![c] + gap + y);
            gap
        } else if rest.len() > 0 {
            assert(z =~= seq![c] + seq![' '] + y);
            seq![' ']
        } else {
            assert(z =~= seq![c] + gap + y);
            gap
        }
    }
}

proof fn lemma_trim_front(front: Seq<char>, s: Seq<char>, edge: Edge)
    requires
        forall|i: int| 0 <= i < front.len() ==> edge.spec_has(#[trigger] front[i]),
    ensures
        trim_start(front + s, edge) == trim_start(s, edge),
    decreases front.len(),
{
    if front.len() == 0 {
        assert(front + s =~= s);
    } else {
        assert(edge.spec_has(front[0]));
        assert((front + s).drop_first() =~= front.drop_first() + s);
        assert forall|i: int| 0 <= i < front.drop_first().len() implies edge.spec_has(
            #[trigger] front.drop_first()[i],
        ) by {
            assert(front.drop_first()[i] == front[i + 1]);
        }
        lemma_trim_front(front.drop_first(), s, edge);
    }
}

proof fn lemma_trim_back(s: Seq<char>, back: Seq<char>, edge: Edge)
    requires
        forall|i: int| 0 <= i < back.len() ==> edge.spec_has(#[trigger] back[i]),
    ensures
        trim(s + back, edge) == trim(s, edge),
    decreases s.len(), back.len(),
{
    if s.len() > 0 && edge.spec_has(s[0]) {
        assert((s + back).drop_first() =~= s.drop_first() + back);
        lemma_trim_back(s.drop_first(), back, edge);
    } else if s.len() == 0 {
        lemma_trim_front(back, s, edge);
        assert(back + s =~= s + back);
    } else if back.len() > 0 {
        assert(edge.spec_has(back[back.len() - 1]));
        assert((s + back).drop_last() =~= s + back.drop_last());
        assert forall|i: int| 0 <= i < back.drop_last().len() implies edge.spec_has(
            #[trigger] back.drop_last()[i],
        ) by {
            assert(back.drop_last()[i] == back[i]);
        }
        lemma_trim_back(s, back.drop_last(), edge);
        assert(trim_start(s + back, edge) == s + back);
        assert(trim_start(s + back.drop_last(), edge) == s + back.drop_last());
    } else {
        assert(s + back =~= s);
    }
}

/// Marks around a text are cut off with what they are set off by.
pub proof fn lemma_marks_are_trimmed(open: char, s: Seq<char>, close: char)
    requires
        is_term_mark(open),
        is_term_mark(close),
    ensures
        trim(spaced(words(seq![open] + s + seq![close])), Edge::Term) == trim(
            spaced(words(s)),
            Edge::Term,
        ),
{
    let x = spaced(words(s));
    let gap = lemma_collapsed_front(open, s);
    lemma_collapsed_push(seq![open] + s, close);
    assert((seq![open] + s).push(close) =~= seq![open] + s + seq![close]);
    let y = spaced(words(seq![open] + s));
    let z = spaced(words(seq![open] + s + seq![close]));
    let back = if z == y.push(close) {
        seq![close]
    } else {
        seq![' ', close]
    };
    assert(z =~= (seq![open] + gap) + (x + back));
    lemma_trim_front(seq![open] + gap, x + back, Edge::Term);
    lemma_trim_back(x, back, Edge::Term);
}

/// `s` with every run of whitespace made one space, and none at the ends.
pub fn collapsed(s: &str) -> (r: String)
    ensures
        r@ == spaced(words(s@)),
{
    let v = chars_of(s);
    let mut out = String::new();
    let mut nonempty = false;
    let mut open = false;
    let mut i: usize = 0;
    assert(v@.take(0) =~= Seq::empty());
    while i < v.len()
        invariant
            i <= v@.len(),
            out@ == spaced(words(v@.take(i as int))),
            nonempty == (words(v@.take(i as int)).len() > 0),
            open == (i > 0 && !is_whitespace(v@[i - 1])),
        decreases v@.len() - i,
    {
        let c = v[i];
        proof {
            let p = v@.take(i + 1);
            assert(p.drop_last() =~= v@.take(i as int));
            assert(p.last() == c);
            lemma_words_open(v@.take(i as int));
            if i > 0 {
                assert(p[p.len() - 2] == v@[i - 1]);
                assert(v@.take(i as int).last() == v@[i - 1]);
            }
            if !is_whitespace(c) {
                if open {
                    lemma_spaced_extend(words(v@.take(i as int)), c);
                } else {
                    lemma_spaced_push(words(v@.take(i as int)), c);
                }
            }
        }
        if whitespace(c) {
            open = false;
        } else {
            if !open && nonempty {
                out.push(' ');
            }
            out.push(c);
            assert(!open && !nonempty ==> out@ =~= seq![c]);
            open = true;
            nonempty = true;
        }
        i += 1;
    }
    assert(v@.take(i as int) =~= s@);
    out
}

/// The words of `s`.
pub fn words_of(s: &str) -> (r: Vec<String>)
    ensures
        r@.len() == words(s@).len(),
        forall|i: int| 0 <= i < r@.len() ==> (#[trigger] r@[i])@ == words(s@)[i],
{
    let v = chars_of(s);
    let mut out: Vec<String> = Vec::new();
    let mut open = false;
    let mut word = String::new();
    let mut i: usize = 0;
    assert(v@.take(0) =~= Seq::empty());
    while i < v.len()
        invariant
            i <= v@.len(),
            open == (i > 0 && !is_whitespace(v@[i - 1])),
            ({
                let w = words(v@.take(i as int));
                &&& open ==> w.len() == out@.len() + 1 && word@ == w.last()
                &&& !open ==> w.len() == out@.len() && word@.len() == 0
                &&& forall|k: int| 0 <= k < out@.len() ==> (#[trigger] out@[k])@ == w[k]
            }),
        decreases v@.len() - i,
    {
        let c = v[i];
        proof {
            let p = v@.take(i + 1);
            assert(p.drop_last() =~= v@.take(i as int));
            assert(p.last() == c);
            if i > 0 {
                assert(p[p.len() - 2] == v@[i - 1]);
            }
        }
        if whitespace(c) {
            if open {
                out.push(word);
                word = String::new();
                open = false;
            }
        } else {
            word.push(c);
            assert(!open ==> word@ =~= seq![c]);
            open = true;
        }
        i += 1;
    }
    assert(v@.take(i as int) =~= s@);
    if open {
        out.push(word);
    }
    out
}

/// A collapsed string is empty exactly where the string was blank.
pub proof fn lemma_collapsed_blank(s: Seq<char>)
    ensures
        (spaced(words(s)).len() == 0) == is_blank(s),
    decreases s.len(),
{
    lemma_words_open(s);
    lemma_spaced_empty(words(s));
    if s.len() > 0 {
        lemma_collapsed_blank(s.drop_last());
        lemma_words_open(s.drop_last());
        lemma_spaced_empty(words(s.drop_last()));
        if is_blank(s) {
            assert forall|i: int| 0 <= i < s.drop_last().len() implies is_whitespace(
                #[trigger] s.drop_last()[i],
            ) by {
                assert(s.drop_last()[i] == s[i]);
            }
            assert(is_whitespace(s.last()));
        } else if is_whitespace(s.last()) {
            assert forall|i: int| is_blank(s.drop_last()) && 0 <= i < s.len() implies is_whitespace(
                #[trigger] s[i],
            ) by {
                if i < s.len() - 1 {
                    assert(s[i] == s.drop_last()[i]);
                }
            }
        }
    }
}

/// `s` with `A`..`Z` in lower case.
pub open spec fn ascii_lower(s: Seq<char>) -> Seq<char> {
    Seq::new(s.len(), |i: int| ascii_lower_char(s[i]))
}

/// `s` with `A`..`Z` in lower case.
pub fn ascii_lowered(s: &str) -> (r: String)
    ensures
        r@ == ascii_lower(s@),
{
    let v = chars_of(s);
    let mut out = String::new();
    let mut i: usize = 0;
    while i < v.len()
        invariant
            i <= v@.len(),
            v@ == s@,
            out@ == ascii_lower(s@).take(i as int),
        decreases v@.len() - i,
    {
        out.push(v[i].to_ascii_lowercase());
        i += 1;
        assert(out@ =~= ascii_lower(s@).take(i as int));
    }
    assert(out@ =~= ascii_lower(s@));
    out
}

// ---------------------------------------------------------------------------------------------
// Search and order
// ---------------------------------------------------------------------------------------------

/// Whether `needle` stands in `s` from character `at` on.
pub open spec fn occurs_at(s: Seq<char>, needle: Seq<char>, at: int) -> bool {
    0 <= at && at + needle.len() <= s.len() && s.subrange(at, at + needle.len()) == needle
}

/// Whether `needle` stands anywhere in `s`.
pub open spec fn contains_text(s: Seq<char>, needle: Seq<char>) -> bool {
    exists|at: int| occurs_at(s, needle, at)
}

/// Whether `needle` stands in `s` from character `at` on.
pub fn stands_at(s: &Vec<char>, needle: &Vec<char>, at: usize) -> (r: bool)
    ensures
        r == occurs_at(s@, needle@, at as int),
{
    if at > s.len() || s.len() - at < needle.len() {
        return false;
    }
    let mut i: usize = 0;
    while i < needle.len()
        invariant
            i <= needle@.len(),
            at + needle@.len() <= s.len(),
            forall|j: int| 0 <= j < i ==> s@[at + j] == #[trigger] needle@[j],
        decreases needle@.len() - i,
    {
        if s[at + i] != needle[i] {
            assert(s@.subrange(at as int, at + needle@.len())[i as int] != needle@[i as int]);
            return false;
        }
        i += 1;
    }
    assert(s@.subrange(at as int, at + needle@.len()) =~= needle@);
    true
}

/// Whether `needle` stands anywhere in `s`.
pub fn contains(s: &str, needle: &str) -> (r: bool)
    ensures
        r == contains_text(s@, needle@),
{
    let v = chars_of(s);
    let n = chars_of(needle);
    let mut at: usize = 0;
    while at <= v.len()
        invariant
            at <= v@.len() + 1,
            v@ == s@,
            n@ == needle@,
            forall|j: int| 0 <= j < at ==> !occurs_at(s@, needle@, j),
        decreases v@.len() + 1 - at,
    {
        if stands_at(&v, &n, at) {
            return true;
        }
        if at == v.len() {
            assert forall|j: int| !occurs_at(s@, needle@, j) by {}
            return false;
        }
        at += 1;
    }
    false
}

/// Whether `prefix` stands at the start of `s`.
pub fn starts_with(s: &str, prefix: &str) -> (r: bool)
    ensures
        r == occurs_at(s@, prefix@, 0),
{
    stands_at(&chars_of(s), &chars_of(prefix), 0)
}

/// Whether `suffix` stands at the end of `s`.
pub open spec fn has_suffix(s: Seq<char>, suffix: Seq<char>) -> bool {
    occurs_at(s, suffix, s.len() - suffix.len())
}

/// Whether `suffix` stands at the end of `s`.
pub fn ends_with(s: &str, suffix: &str) -> (r: bool)
    ensures
        r == has_suffix(s@, suffix@),
{
    let v = chars_of(s);
    let n = chars_of(suffix);
    if n.len() > v.len() {
        return false;
    }
    stands_at(&v, &n, v.len() - n.len())
}

/// The order of strings: by the first character that differs, a prefix before what it begins.
pub open spec fn text_le(a: Seq<char>, b: Seq<char>) -> bool
    decreases a.len(),
{
    if a.len() == 0 {
        true
    } else if b.len() == 0 {
        false
    } else if a[0] != b[0] {
        a[0] < b[0]
    } else {
        text_le(a.drop_first(), b.drop_first())
    }
}

/// Of two strings one comes before the other, unless they are the same.
pub proof fn lemma_text_le_total(a: Seq<char>, b: Seq<char>)
    ensures
        text_le(a, b) || text_le(b, a),
        text_le(a, a),
        text_le(a, b) && text_le(b, a) ==> a == b,
    decreases a.len(),
{
    if a.len() > 0 {
        lemma_text_le_total(a.drop_first(), b.drop_first());
        if b.len() > 0 && a[0] == b[0] && a.drop_first() == b.drop_first() {
            assert(a =~= seq![a[0]] + a.drop_first());
            assert(b =~= seq![b[0]] + b.drop_first());
        }
    } else if b.len() == 0 {
        assert(a =~= b);
    }
}

/// What comes before a string comes before all that follow it.
pub proof fn lemma_text_le_transitive(a: Seq<char>, b: Seq<char>, c: Seq<char>)
    requires
        text_le(a, b),
        text_le(b, c),
    ensures
        text_le(a, c),
    decreases a.len(),
{
    if a.len() > 0 && b.len() > 0 && c.len() > 0 && a[0] == b[0] && b[0] == c[0] {
        lemma_text_le_transitive(a.drop_first(), b.drop_first(), c.drop_first());
    }
}

/// Whether `a` comes before `b` or equals it.
pub fn not_after(a: &str, b: &str) -> (r: bool)
    ensures
        r == text_le(a@, b@),
{
    let x = chars_of(a);
    let y = chars_of(b);
    let mut i: usize = 0;
    assert(x@.skip(0) =~= a@);
    assert(y@.skip(0) =~= b@);
    loop
        invariant
            i <= x@.len(),
            i <= y@.len(),
            text_le(a@, b@) == text_le(x@.skip(i as int), y@.skip(i as int)),
        decreases x@.len() - i,
    {
        if i == x.len() {
            return true;
        }
        if i == y.len() {
            return false;
        }
        if x[i] != y[i] {
            return x[i] < y[i];
        }
        assert(x@.skip(i as int).drop_first() =~= x@.skip(i + 1));
        assert(y@.skip(i as int).drop_first() =~= y@.skip(i + 1));
        i += 1;
    }
}

/// `a` comes before `b`.
pub open spec fn text_lt(a: Seq<char>, b: Seq<char>) -> bool {
    text_le(a, b) && a != b
}

// ---------------------------------------------------------------------------------------------
// Collections of strings
// ---------------------------------------------------------------------------------------------

/// The characters of each string.
pub open spec fn texts(v: Seq<String>) -> Seq<Seq<char>> {
    Seq::new(v.len(), |i: int| v[i]@)
}

/// Whether `v` holds a string with the characters of `s`.
pub fn among(v: &Vec<String>, s: &str) -> (r: bool)
    ensures
        r == texts(v@).contains(s@),
{
    let mut i: usize = 0;
    while i < v.len()
        invariant
            i <= v@.len(),
            forall|j: int| 0 <= j < i ==> (#[trigger] v@[j])@ != s@,
        decreases v@.len() - i,
    {
        if same(v[i].as_str(), s) {
            assert(texts(v@)[i as int] == s@);
            return true;
        }
        i += 1;
    }
    assert forall|j: int| 0 <= j < texts(v@).len() implies texts(v@)[j] != s@ by {
        assert(v@[j]@ != s@);
    }
    false
}

/// The values of `s` without those that came before.
pub open spec fn distinct<T>(s: Seq<T>) -> Seq<T>
    decreases s.len(),
{
    if s.len() == 0 {
        s
    } else if distinct(s.drop_last()).contains(s.last()) {
        distinct(s.drop_last())
    } else {
        distinct(s.drop_last()).push(s.last())
    }
}

/// Leaving out repetitions keeps every value once.
pub proof fn lemma_distinct<T>(s: Seq<T>)
    ensures
        distinct(s).no_duplicates(),
        distinct(s).len() <= s.len(),
        forall|x: T| #[trigger] distinct(s).contains(x) <==> s.contains(x),
    decreases s.len(),
{
    if s.len() > 0 {
        let d = distinct(s.drop_last());
        lemma_distinct(s.drop_last());
        assert forall|x: T| #[trigger] distinct(s).contains(x) <==> s.contains(x) by {
            if s.contains(x) {
                let i = choose|i: int| 0 <= i < s.len() && s[i] == x;
                if i < s.len() - 1 {
                    assert(s.drop_last()[i] == x);
                    assert(s.drop_last().contains(x));
                    assert(d.contains(x));
                    let k = choose|k: int| 0 <= k < d.len() && d[k] == x;
                    assert(distinct(s)[k] == x);
                } else if !d.contains(s.last()) {
                    assert(distinct(s)[d.len() as int] == x);
                }
            }
            if distinct(s).contains(x) {
                let k = choose|k: int| 0 <= k < distinct(s).len() && distinct(s)[k] == x;
                if k < d.len() {
                    assert(d[k] == x);
                    assert(d.contains(x));
                    assert(s.drop_last().contains(x));
                    let i = choose|i: int| 0 <= i < s.drop_last().len() && s.drop_last()[i] == x;
                    assert(s[i] == x);
                } else {
                    assert(s.last() == x);
                    assert(s[s.len() - 1] == x);
                }
            }
        }
    } else {
        assert forall|x: T| #[trigger] distinct(s).contains(x) <==> s.contains(x) by {}
    }
}

/// The strings one after the other, with `separator` between two.
pub open spec fn join(v: Seq<Seq<char>>, separator: Seq<char>) -> Seq<char>
    decreases v.len(),
{
    if v.len() == 0 {
        Seq::empty()
    } else if v.len() == 1 {
        v[0]
    } else {
        join(v.drop_last(), separator) + separator + v.last()
    }
}

/// The strings one after the other, with `separator` between two.
pub fn join_all(v: &Vec<String>, separator: &str) -> (r: String)
    ensures
        r@ == join(texts(v@), separator@),
{
    let mut r = String::new();
    let mut i: usize = 0;
    let ghost t = texts(v@);
    assert(t.take(0) =~= Seq::empty());
    while i < v.len()
        invariant
            i <= v@.len(),
            t == texts(v@),
            r@ == join(t.take(i as int), separator@),
        decreases v@.len() - i,
    {
        proof {
            assert(t.take(i + 1).drop_last() =~= t.take(i as int));
            assert(t.take(i + 1).last() == v@[i as int]@);
        }
        if i > 0 {
            r.append(separator);
        }
        r.append(v[i].as_str());
        assert(i == 0 ==> r@ =~= v@[0]@);
        i += 1;
    }
    assert(t.take(i as int) =~= t);
    r
}

// ---------------------------------------------------------------------------------------------
// Numbers
// ---------------------------------------------------------------------------------------------

/// The decimal digit of value `d`.
pub open spec fn digit(d: nat) -> char
    recommends
        d < 10,
{
    (48 + d) as char
}

/// `n` in decimal, without leading zeros.
pub open spec fn decimal(n: nat) -> Seq<char>
    decreases n,
{
    if n < 10 {
        seq![digit(n)]
    } else {
        decimal(n / 10).push(digit(n % 10))
    }
}

/// `s` with zeros in front up to `width` characters.
pub open spec fn zero_padded(s: Seq<char>, width: nat) -> Seq<char> {
    if s.len() >= width {
        s
    } else {
        Seq::new((width - s.len()) as nat, |i: int| '0') + s
    }
}

fn digit_char(d: usize) -> (c: char)
    requires
        d < 10,
    ensures
        c == digit(d as nat),
{
    match d {
        0 => '0',
        1 => '1',
        2 => '2',
        3 => '3',
        4 => '4',
        5 => '5',
        6 => '6',
        7 => '7',
        8 => '8',
        _ => '9',
    }
}

/// `n` in decimal, without leading zeros.
pub fn decimal_text(n: usize) -> (s: String)
    ensures
        s@ == decimal(n as nat),
    decreases n,
{
    if n < 10 {
        let mut s = String::new();
        s.push(digit_char(n));
        assert(s@ =~= seq![digit(n as nat)]);
        s
    } else {
        let mut s = decimal_text(n / 10);
        s.push(digit_char(n % 10));
        s
    }
}

/// `n` in decimal, without leading zeros.
pub fn decimal_text_u64(n: u64) -> (s: String)
    ensures
        s@ == decimal(n as nat),
    decreases n,
{
    if n < 10 {
        let mut s = String::new();
        s.push(digit_char(n as usize));
        assert(s@ =~= seq![digit(n as nat)]);
        s
    } else {
        let mut s = decimal_text_u64(n / 10);
        s.push(digit_char((n % 10) as usize));
        s
    }
}

/// `n` in decimal, with zeros in front up to `width` digits.
pub fn padded_text(n: usize, width: usize) -> (s: String)
    ensures
        s@ == zero_padded(decimal(n as nat), width as nat),
{
    let digits = decimal_text(n);
    let len: usize = chars_of(digits.as_str()).len();
    let mut s = String::new();
    let mut i: usize = len;
    while i < width
        invariant
            len <= i,
            len <= width ==> i <= width,
            width < len ==> i == len,
            s@ == Seq::new((i - len) as nat, |k: int| '0'),
        decreases width - i,
    {
        s.push('0');
        i += 1;
        assert(s@ =~= Seq::new((i - len) as nat, |k: int| '0'));
    }
    s.append(digits.as_str());
    assert(s@ =~= zero_padded(decimal(n as nat), width as nat));
    s
}

/// Different numbers are written differently.
pub proof fn lemma_decimal_injective(i: nat, j: nat)
    requires
        i != j,
    ensures
        decimal(i) != decimal(j),
    decreases i,
{
    let a = decimal(i);
    let b = decimal(j);
    lemma_decimal_len(i);
    lemma_decimal_len(j);
    if i >= 10 && j >= 10 {
        if i / 10 != j / 10 {
            lemma_decimal_injective(i / 10, j / 10);
            if a == b {
                assert(a.drop_last() =~= decimal(i / 10));
                assert(b.drop_last() =~= decimal(j / 10));
            }
        } else {
            assert(i % 10 != j % 10);
            assert(a.last() == digit(i % 10));
            assert(b.last() == digit(j % 10));
            lemma_digits_differ(i % 10, j % 10);
        }
    } else if i < 10 && j < 10 {
        lemma_digits_differ(i, j);
        assert(a[0] == digit(i) && b[0] == digit(j));
    }
}

proof fn lemma_decimal_len(n: nat)
    ensures
        decimal(n).len() >= 1,
        n < 10 <==> decimal(n).len() == 1,
    decreases n,
{
    if n >= 10 {
        lemma_decimal_len(n / 10);
    }
}

proof fn lemma_digits_differ(i: nat, j: nat)
    requires
        i < 10,
        j < 10,
        i != j,
    ensures
        digit(i) != digit(j),
{
}

pub open spec fn is_digit(c: char) -> bool {
    '0' <= c <= '9'
}

/// The number that decimal digits write.
pub open spec fn number_of(digits: Seq<char>) -> nat
    decreases digits.len(),
{
    if digits.len() == 0 {
        0
    } else {
        number_of(digits.drop_last()) * 10 + (digits.last() as u32 - 48) as nat
    }
}

/// At least one character, and all of them decimal digits.
pub open spec fn all_digits(s: Seq<char>) -> bool {
    s.len() > 0 && forall|i: int| 0 <= i < s.len() ==> is_digit(#[trigger] s[i])
}

/// A run of digits that writes a number up to `limit`.
pub open spec fn read_digits(s: Seq<char>, limit: nat) -> Option<nat> {
    if all_digits(s) && number_of(s) <= limit {
        Some(number_of(s))
    } else {
        None
    }
}

/// The unsigned number that `s` writes in decimal, with or without a plus sign.
pub open spec fn read_u64(s: Seq<char>) -> Option<nat> {
    if s.len() > 0 && s[0] == '+' {
        read_digits(s.skip(1), u64::MAX as nat)
    } else {
        read_digits(s, u64::MAX as nat)
    }
}

/// The signed number that `s` writes in decimal, with or without a sign.
pub open spec fn read_i64(s: Seq<char>) -> Option<int> {
    if s.len() > 0 && s[0] == '-' {
        match read_digits(s.skip(1), 0x8000_0000_0000_0000) {
            Some(n) => Some(-(n as int)),
            None => None,
        }
    } else if s.len() > 0 && s[0] == '+' {
        match read_digits(s.skip(1), 0x7fff_ffff_ffff_ffff) {
            Some(n) => Some(n as int),
            None => None,
        }
    } else {
        match read_digits(s, 0x7fff_ffff_ffff_ffff) {
            Some(n) => Some(n as int),
            None => None,
        }
    }
}

/// Reads the digits of `v` from `start` on, up to `limit`.
fn digits_from(v: &Vec<char>, start: usize, limit: u64) -> (r: Option<u64>)
    requires
        start <= v@.len(),
    ensures
        read_digits(v@.skip(start as int), limit as nat) == (match r {
            Some(n) => Some(n as nat),
            None => None,
        }),
{
    let ghost s = v@.skip(start as int);
    if start == v.len() {
        return None;
    }
    let mut n: u64 = 0;
    let mut over = false;
    let mut i: usize = start;
    assert(s.take(0) =~= Seq::empty());
    while i < v.len()
        invariant
            start <= i <= v@.len(),
            s == v@.skip(start as int),
            forall|j: int| 0 <= j < i - start ==> is_digit(#[trigger] s[j]),
            !over ==> n == number_of(s.take(i - start)) && n <= limit,
            over ==> number_of(s.take(i - start)) > limit,
        decreases v@.len() - i,
    {
        let c: char = v[i];
        assert(s[i - start] == c);
        if !('0' <= c && c <= '9') {
            assert(!is_digit(s[i - start]));
            return None;
        }
        proof {
            assert(s.take(i - start + 1).drop_last() =~= s.take(i - start));
            assert(s.take(i - start + 1).last() == c);
        }
        let d: u64 = (c as u32 - 48) as u64;
        if !over {
            let wide: u128 = n as u128 * 10 + d as u128;
            if wide > limit as u128 {
                over = true;
            } else {
                n = wide as u64;
            }
        }
        i += 1;
    }
    assert(s.take(i - start) =~= s);
    if over {
        None
    } else {
        Some(n)
    }
}

/// The unsigned number that `s` writes in decimal.
pub fn parse_u64(s: &str) -> (r: Option<u64>)
    ensures
        read_u64(s@) == (match r {
            Some(n) => Some(n as nat),
            None => None,
        }),
{
    let v = chars_of(s);
    if v.len() > 0 && v[0] == '+' {
        digits_from(&v, 1, u64::MAX)
    } else {
        assert(v@.skip(0) =~= v@);
        digits_from(&v, 0, u64::MAX)
    }
}

/// The signed number that `s` writes in decimal.
pub fn parse_i64(s: &str) -> (r: Option<i64>)
    ensures
        read_i64(s@) == (match r {
            Some(n) => Some(n as int),
            None => None,
        }),
{
    let v = chars_of(s);
    assert(v@.skip(0) =~= v@);
    if v.len() > 0 && v[0] == '-' {
        match digits_from(&v, 1, 0x8000_0000_0000_0000) {
            Some(n) => {
                if n == 0x8000_0000_0000_0000 {
                    Some(i64::MIN)
                } else {
                    Some(-(n as i64))
                }
            },
            None => None,
        }
    } else if v.len() > 0 && v[0] == '+' {
        match digits_from(&v, 1, 0x7fff_ffff_ffff_ffff) {
            Some(n) => Some(n as i64),
            None => None,
        }
    } else {
        match digits_from(&v, 0, 0x7fff_ffff_ffff_ffff) {
            Some(n) => Some(n as i64),
            None => None,
        }
    }
}

// ---------------------------------------------------------------------------------------------
// Laws
// ---------------------------------------------------------------------------------------------

/// Trimming takes the middle out of a text: all that is cut off, at the front and at the back, are
/// characters of the set, and what is left, if anything is, neither starts nor ends with one.
pub proof fn lemma_trim_is_the_middle(s: Seq<char>, edge: Edge) -> (r: (int, int))
    ensures
        0 <= r.0 <= r.1 <= s.len(),
        trim(s, edge) == s.subrange(r.0, r.1),
        forall|i: int| 0 <= i < r.0 ==> edge.spec_has(#[trigger] s[i]),
        forall|i: int| r.1 <= i < s.len() ==> edge.spec_has(#[trigger] s[i]),
        r.0 < r.1 ==> !edge.spec_has(s[r.0]) && !edge.spec_has(s[r.1 - 1]),
{
    let a = lemma_trim_start_cut(s, edge);
    let t = s.skip(a);
    let n = lemma_trim_end_cut(t, edge);
    assert(t.take(n) =~= s.subrange(a, a + n));
    assert forall|i: int| a + n <= i < s.len() implies edge.spec_has(#[trigger] s[i]) by {
        assert(t[i - a] == s[i]);
    }
    lemma_trim_ends(s, edge);
    (a, a + n)
}

proof fn lemma_trim_start_cut(s: Seq<char>, edge: Edge) -> (n: int)
    ensures
        0 <= n <= s.len(),
        trim_start(s, edge) == s.skip(n),
        forall|i: int| 0 <= i < n ==> edge.spec_has(#[trigger] s[i]),
    decreases s.len(),
{
    if s.len() > 0 && edge.spec_has(s[0]) {
        let m = lemma_trim_start_cut(s.drop_first(), edge);
        assert(s.drop_first().skip(m) =~= s.skip(m + 1));
        assert forall|i: int| 0 <= i < m + 1 implies edge.spec_has(#[trigger] s[i]) by {
            if i > 0 {
                assert(s.drop_first()[i - 1] == s[i]);
            }
        }
        m + 1
    } else {
        assert(s.skip(0) =~= s);
        0
    }
}

proof fn lemma_trim_end_cut(s: Seq<char>, edge: Edge) -> (n: int)
    ensures
        0 <= n <= s.len(),
        trim_end(s, edge) == s.take(n),
        forall|i: int| n <= i < s.len() ==> edge.spec_has(#[trigger] s[i]),
    decreases s.len(),
{
    if s.len() > 0 && edge.spec_has(s.last()) {
        let m = lemma_trim_end_cut(s.drop_last(), edge);
        assert(s.drop_last().take(m) =~= s.take(m));
        assert forall|i: int| m <= i < s.len() implies edge.spec_has(#[trigger] s[i]) by {
            if i < s.len() - 1 {
                assert(s.drop_last()[i] == s[i]);
            }
        }
        m
    } else {
        assert(s.take(s.len() as int) =~= s);
        s.len() as int
    }
}

/// To make every run of whitespace one space loses no other character, and changes neither their
/// order nor their number.
pub proof fn lemma_collapsed_keeps_characters(s: Seq<char>)
    ensures
        spaced(words(s)).filter(|c: char| !is_whitespace(c)) == s.filter(
            |c: char| !is_whitespace(c),
        ),
    decreases s.len(),
{
    let solid = |c: char| !is_whitespace(c);
    if s.len() == 0 {
        assert(spaced(words(s)) =~= s);
    } else {
        let rest = s.drop_last();
        let c = s.last();
        let x = spaced(words(rest));
        lemma_collapsed_keeps_characters(rest);
        lemma_collapsed_push(rest, c);
        assert(rest.push(c) =~= s);
        lemma_filter_push(rest, c, solid);
        lemma_filter_push(x, c, solid);
        lemma_filter_push(x, ' ', solid);
        lemma_filter_push(x.push(' '), c, solid);
        assert(x.len() == 0 ==> x.push(c) =~= seq![c]);
    }
}

/// What a condition keeps of a sequence that grew by one.
pub proof fn lemma_filter_push<T>(s: Seq<T>, x: T, keep: spec_fn(T) -> bool)
    ensures
        s.push(x).filter(keep) == if keep(x) {
            s.filter(keep).push(x)
        } else {
            s.filter(keep)
        },
{
    reveal(Seq::filter);
    assert(s.push(x).drop_last() =~= s);
}

/// Words are told apart by whitespace alone: the words of two texts with whitespace between them
/// are those of the one, then those of the other.
pub proof fn lemma_words_of_parts(a: Seq<char>, gap: char, b: Seq<char>)
    requires
        is_whitespace(gap),
    ensures
        words(a + seq![gap] + b) == words(a) + words(b),
        b.len() > 0 && (forall|i: int| 0 <= i < b.len() ==> !is_whitespace(#[trigger] b[i]))
            ==> words(b) == seq![b],
    decreases b.len(),
{
    let whole = a + seq![gap] + b;
    if b.len() == 0 {
        assert(whole.drop_last() =~= a);
        assert(words(whole) =~= words(a) + words(b));
    } else {
        let rest = b.drop_last();
        lemma_words_of_parts(a, gap, rest);
        lemma_words_open(rest);
        assert(whole.drop_last() =~= a + seq![gap] + rest);
        assert(whole.last() == b.last());
        let w = words(rest);
        if b.len() >= 2 {
            assert(whole[whole.len() - 2] == b[b.len() - 2]);
            assert(rest.last() == b[b.len() - 2]);
        } else {
            assert(whole[whole.len() - 2] == gap);
        }
        assert(words(whole) =~= words(a) + words(b));
        if forall|i: int| 0 <= i < b.len() ==> !is_whitespace(#[trigger] b[i]) {
            assert(!is_whitespace(b[b.len() - 1]));
            if b.len() >= 2 {
                assert(!is_whitespace(b[b.len() - 2]));
                assert forall|i: int| 0 <= i < rest.len() implies !is_whitespace(
                    #[trigger] rest[i],
                ) by {
                    assert(rest[i] == b[i]);
                }
                assert(w.last().push(b.last()) =~= b);
                assert(words(b) =~= seq![b]);
            } else {
                assert(w.len() == 0);
                assert(seq![b.last()] =~= b);
                assert(words(b) =~= seq![b]);
            }
        }
    }
}

/// Lower case changes the capital letters of ASCII alone, each to the letter that stands 32 places
/// behind it.
pub proof fn lemma_ascii_lower(s: Seq<char>, i: int)
    requires
        0 <= i < s.len(),
    ensures
        ascii_lower(s).len() == s.len(),
        'A' <= s[i] <= 'Z' ==> ascii_lower(s)[i] as u32 == s[i] as u32 + 32,
        !('A' <= s[i] <= 'Z') ==> ascii_lower(s)[i] == s[i],
        ascii_lower(ascii_lower(s)) == ascii_lower(s),
{
    assert(ascii_lower(ascii_lower(s)) =~= ascii_lower(s));
}

/// A text comes before another where it is the start of it, or where it has the smaller character
/// at the first place at which the two differ.
pub proof fn lemma_text_le_by_first_difference(a: Seq<char>, b: Seq<char>, n: int)
    requires
        0 <= n <= a.len(),
        n <= b.len(),
        a.take(n) == b.take(n),
        n < a.len() && n < b.len() ==> a[n] != b[n],
    ensures
        text_le(a, b) == (n == a.len() || n < b.len() && a[n] < b[n]),
    decreases n,
{
    if n > 0 {
        assert(a.take(n)[0] == a[0] && b.take(n)[0] == b[0]);
        assert(a.drop_first().take(n - 1) =~= a.take(n).drop_first());
        assert(b.drop_first().take(n - 1) =~= b.take(n).drop_first());
        lemma_text_le_by_first_difference(a.drop_first(), b.drop_first(), n - 1);
    }
}

/// Joined strings are the one part, the separator and the other part.
pub proof fn lemma_join_of_parts(a: Seq<Seq<char>>, b: Seq<Seq<char>>, separator: Seq<char>)
    requires
        a.len() > 0,
        b.len() > 0,
    ensures
        join(a + b, separator) == join(a, separator) + separator + join(b, separator),
        join(seq![a[0]], separator) == a[0],
        join(Seq::<Seq<char>>::empty(), separator).len() == 0,
    decreases b.len(),
{
    assert((a + b).drop_last() =~= a + b.drop_last());
    assert((a + b).last() == b.last());
    if b.len() == 1 {
        assert(a + b.drop_last() =~= a);
    } else {
        lemma_join_of_parts(a, b.drop_last(), separator);
        assert(join(a + b, separator) =~= join(a, separator) + separator + join(b, separator));
    }
}

/// What a number is written as reads as that number: it has digits alone, does not start with a
/// zero unless it is one digit, and zeros in front change nothing.
pub proof fn lemma_decimal_reads_back(n: nat, width: nat)
    ensures
        all_digits(decimal(n)),
        number_of(decimal(n)) == n,
        decimal(n).len() > 1 ==> decimal(n)[0] != '0',
        zero_padded(decimal(n), width).len() >= width,
        zero_padded(decimal(n), width).len() > width ==> zero_padded(decimal(n), width) == decimal(
            n,
        ),
        all_digits(zero_padded(decimal(n), width)),
        number_of(zero_padded(decimal(n), width)) == n,
        n <= u64::MAX ==> read_u64(decimal(n)) == Some(n),
        n <= i64::MAX ==> read_i64(decimal(n)) == Some(n as int),
        n <= 0x8000_0000_0000_0000 ==> read_i64(seq!['-'] + decimal(n)) == Some(-(n as int)),
{
    lemma_decimal_value(n);
    let d = decimal(n);
    if d.len() < width {
        let zeros = Seq::new((width - d.len()) as nat, |i: int| '0');
        lemma_leading_zeros(zeros, d);
        assert forall|i: int| 0 <= i < (zeros + d).len() implies is_digit(
            #[trigger] (zeros + d)[i],
        ) by {
            if i >= zeros.len() {
                assert((zeros + d)[i] == d[i - zeros.len()]);
            }
        }
    }
    assert(is_digit(d[0]));
    assert((seq!['-'] + d).skip(1) =~= d);
}

proof fn lemma_decimal_value(n: nat)
    ensures
        all_digits(decimal(n)),
        number_of(decimal(n)) == n,
        n > 0 ==> decimal(n)[0] != '0',
        decimal(n).len() > 1 ==> n >= 10,
    decreases n,
{
    let d = decimal(n);
    if n < 10 {
        assert(d.drop_last() =~= Seq::empty());
        assert(number_of(d.drop_last()) == 0);
    } else {
        lemma_decimal_value(n / 10);
        assert(d.drop_last() =~= decimal(n / 10));
        assert forall|i: int| 0 <= i < d.len() implies is_digit(#[trigger] d[i]) by {
            if i < d.len() - 1 {
                assert(d[i] == decimal(n / 10)[i]);
            }
        }
        assert(d[0] == decimal(n / 10)[0]);
    }
}

proof fn lemma_leading_zeros(zeros: Seq<char>, s: Seq<char>)
    requires
        forall|i: int| 0 <= i < zeros.len() ==> #[trigger] zeros[i] == '0',
    ensures
        number_of(zeros + s) == number_of(s),
    decreases zeros.len() + s.len(),
{
    if s.len() > 0 {
        assert((zeros + s).drop_last() =~= zeros + s.drop_last());
        lemma_leading_zeros(zeros, s.drop_last());
    } else if zeros.len() > 0 {
        assert((zeros + s).drop_last() =~= zeros.drop_last() + s);
        assert forall|i: int| 0 <= i < zeros.drop_last().len() implies #[trigger] zeros.drop_last()[i]
            == '0' by {
            assert(zeros.drop_last()[i] == zeros[i]);
        }
        lemma_leading_zeros(zeros.drop_last(), s);
        assert((zeros + s).last() == zeros[zeros.len() - 1]);
    }
}

/// A text that is no run of digits, but for one sign in front, is no number.
pub proof fn lemma_no_number(s: Seq<char>, i: int)
    requires
        0 <= i < s.len(),
        !('0' <= s[i] <= '9'),
        i > 0 || s.len() == 1 || s[0] != '+',
    ensures
        read_u64(s) is None,
        i > 0 || s.len() == 1 || s[0] != '-' ==> read_i64(s) is None,
        read_u64(Seq::<char>::empty()) is None,
        read_i64(Seq::<char>::empty()) is None,
{
    if i > 0 {
        assert(s.skip(1)[i - 1] == s[i]);
    }
    assert(!is_digit(s[i]));
}

/// The characters of a word are characters of the text.
pub proof fn lemma_word_characters(s: Seq<char>, k: int, j: int)
    requires
        0 <= k < words(s).len(),
        0 <= j < words(s)[k].len(),
    ensures
        exists|i: int| 0 <= i < s.len() && #[trigger] s[i] == words(s)[k][j],
        !is_whitespace(words(s)[k][j]),
    decreases s.len(),
{
    let rest = s.drop_last();
    let w = words(rest);
    lemma_words_open(rest);
    assert(s[s.len() - 1] == s.last());
    if !is_whitespace(s.last()) {
        if s.len() >= 2 && !is_whitespace(s[s.len() - 2]) {
            assert(rest.last() == s[s.len() - 2]);
            if k == words(s).len() - 1 {
                if j < w.last().len() {
                    lemma_word_characters(rest, k, j);
                    let i = choose|i: int| 0 <= i < rest.len() && #[trigger] rest[i] == w[k][j];
                    assert(s[i] == words(s)[k][j]);
                }
            } else {
                assert(words(s)[k] == w[k]);
                lemma_word_characters(rest, k, j);
                let i = choose|i: int| 0 <= i < rest.len() && #[trigger] rest[i] == w[k][j];
                assert(s[i] == words(s)[k][j]);
            }
        } else if k < w.len() {
            assert(words(s)[k] == w[k]);
            lemma_word_characters(rest, k, j);
            let i = choose|i: int| 0 <= i < rest.len() && #[trigger] rest[i] == w[k][j];
            assert(s[i] == words(s)[k][j]);
        }
    } else {
        lemma_word_characters(rest, k, j);
        let i = choose|i: int| 0 <= i < rest.len() && #[trigger] rest[i] == w[k][j];
        assert(s[i] == words(s)[k][j]);
    }
}

/// A text that does not end in whitespace ends in the end of its last word.
pub proof fn lemma_last_word(s: Seq<char>)
    requires
        s.len() > 0,
        !is_whitespace(s.last()),
    ensures
        words(s).len() > 0,
        words(s).last().len() > 0,
        words(s).last().last() == s.last(),
{
    lemma_words_open(s);
    lemma_words_open(s.drop_last());
    assert(words(s)[words(s).len() - 1].len() > 0);
}

/// What fits a condition is among what the condition keeps.
pub proof fn lemma_filter_has<T>(s: Seq<T>, keep: spec_fn(T) -> bool, i: int)
    requires
        0 <= i < s.len(),
        keep(s[i]),
    ensures
        s.filter(keep).contains(s[i]),
        s.filter(keep).len() > 0,
    decreases s.len(),
{
    let head = s.drop_last();
    assert(head.push(s.last()) =~= s);
    lemma_filter_push(head, s.last(), keep);
    if i == s.len() - 1 {
        assert(s.filter(keep)[head.filter(keep).len() as int] == s[i]);
    } else {
        lemma_filter_has(head, keep, i);
        let q = choose|q: int| 0 <= q < head.filter(keep).len() && head.filter(keep)[q] == head[i];
        assert(s.filter(keep)[q] == s[i]);
    }
}

/// The characters that are cut off the ends of texts, set by set, and the control characters.
pub proof fn lemma_characters(c: char)
    ensures
        Edge::Whitespace.spec_has(c) <==> ('\u{9}' <= c <= '\u{d}' || c == ' ' || c == '\u{85}' || c
            == '\u{a0}' || c == '\u{1680}' || '\u{2000}' <= c <= '\u{200a}' || c == '\u{2028}' || c
            == '\u{2029}' || c == '\u{202f}' || c == '\u{205f}' || c == '\u{3000}'),
        Edge::SpaceOrDot.spec_has(c) <==> (c as u32 == 0x20 || c as u32 == 0x2e),
        Edge::DotOrWhitespace.spec_has(c) <==> (c as u32 == 0x2e || is_whitespace(c)),
        Edge::Joiner.spec_has(c) <==> (c as u32 == 0x30fb || c as u32 == 0x2d),
        Edge::Punctuation.spec_has(c) <==> (0x21 <= c as u32 <= 0x7e && !(0x30 <= c as u32 <= 0x39)
            && !(0x41 <= c as u32 <= 0x5a) && !(0x61 <= c as u32 <= 0x7a)),
        Edge::Term.spec_has(c) <==> (is_whitespace(c) || 0x300c <= c as u32 <= 0x300f || c as u32
            == 0x22 || c as u32 == 0x27 || c as u32 == 0x201c || c as u32 == 0x201d || c as u32
            == 0x2018 || c as u32 == 0x2019 || c as u32 == 0x3001 || c as u32 == 0x3002 || c as u32
            == 0x2c || c as u32 == 0x2e || c as u32 == 0x21 || c as u32 == 0x3f || c as u32
            == 0xff01 || c as u32 == 0x3a || c as u32 == 0x3b || c as u32 == 0xff1a || c as u32
            == 0xff1b),
        is_control(c) <==> (c <= '\u{1f}' || '\u{7f}' <= c <= '\u{9f}'),
{
}

} // verus!
