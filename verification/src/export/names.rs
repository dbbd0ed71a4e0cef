//! The names of exported files.
use crate::text;
use crate::text::Edge;
use vstd::prelude::*;

verus! {

/// What is written.
#[derive(Clone, Copy, Debug, PartialEq, Eq, Structural)]
pub enum ExportFormat {
    Png,
    Psd,
    Cbz,
}

/// How the pages of an archive are encoded.
#[derive(Clone, Copy, Debug, PartialEq, Eq, Structural)]
pub enum ArchiveImageFormat {
    Png,
    Jpeg,
    Webp,
}

impl ArchiveImageFormat {
    pub open spec fn suffix(self) -> Seq<char> {
        match self {
            ArchiveImageFormat::Png => "png"@,
            ArchiveImageFormat::Jpeg => "jpg"@,
            ArchiveImageFormat::Webp => "webp"@,
        }
    }

    /// The end of the name of such a file.
    pub fn extension(self) -> (r: &'static str)
        ensures
            r@ == self.suffix(),
    {
        match self {
            ArchiveImageFormat::Png => "png",
            ArchiveImageFormat::Jpeg => "jpg",
            ArchiveImageFormat::Webp => "webp",
        }
    }
}

/// A character that common file systems do not take in a name.
pub open spec fn is_reserved(c: char) -> bool {
    c == '<' || c == '>' || c == ':' || c == '"' || c == '/' || c == '\\' || c == '|' || c == '?'
        || c == '*'
}

/// The name with an underscore in place of each such character.
pub open spec fn sanitized(s: Seq<char>) -> Seq<char> {
    Seq::new(
        s.len(),
        |i: int|
            if is_reserved(s[i]) {
                '_'
            } else {
                s[i]
            },
    )
}

/// The name with an underscore in place of each character that common file systems do not take.
pub fn sanitize_filename(name: &str) -> (r: String)
    ensures
        r@ == sanitized(name@),
{
    let v = text::chars_of(name);
    let mut out = String::new();
    let mut i: usize = 0;
    while i < v.len()
        invariant
            v@ == name@,
            i <= v@.len(),
            out@ == sanitized(name@).take(i as int),
        decreases v@.len() - i,
    {
        let c = v[i];
        if c == '<' || c == '>' || c == ':' || c == '"' || c == '/' || c == '\\' || c == '|' || c
            == '?' || c == '*' {
            out.push('_');
        } else {
            out.push(c);
        }
        assert(sanitized(name@).take(i + 1) =~= sanitized(name@).take(i as int).push(
            sanitized(name@)[i as int],
        ));
        i += 1;
    }
    assert(sanitized(name@).take(i as int) =~= sanitized(name@));
    out
}

/// A sanitized name can be taken as it is: it has none of those characters, and sanitizing it again
/// changes nothing.
pub proof fn lemma_sanitized(s: Seq<char>)
    ensures
        sanitized(s).len() == s.len(),
        forall|i: int| 0 <= i < s.len() ==> !is_reserved(#[trigger] sanitized(s)[i]),
        sanitized(sanitized(s)) == sanitized(s),
{
    assert(sanitized(sanitized(s)) =~= sanitized(s));
}

/// What stands before the last dot, or everything where there is none.
pub open spec fn before_last_dot(s: Seq<char>) -> Seq<char> {
    if exists|i: int| 0 <= i < s.len() && s[i] == '.' {
        cut(s)
    } else {
        s
    }
}

/// What stands before the last dot.
pub open spec fn cut(s: Seq<char>) -> Seq<char>
    decreases s.len(),
{
    if s.len() == 0 || s.last() == '.' {
        s.drop_last()
    } else {
        cut(s.drop_last())
    }
}

proof fn lemma_cut_at(s: Seq<char>, i: int)
    requires
        0 <= i < s.len(),
        s[i] == '.',
        forall|j: int| i < j < s.len() ==> s[j] != '.',
    ensures
        cut(s) == s.take(i),
    decreases s.len(),
{
    if i == s.len() - 1 {
        assert(s.drop_last() =~= s.take(i));
    } else {
        assert(s[s.len() - 1] != '.');
        lemma_cut_at(s.drop_last(), i);
        assert(s.drop_last().take(i) =~= s.take(i));
    }
}

fn stem_of(name: &str) -> (r: String)
    ensures
        r@ == before_last_dot(name@),
{
    let v = text::chars_of(name);
    let mut i: usize = v.len();
    while i > 0
        invariant
            v@ == name@,
            i <= v@.len(),
            forall|j: int| i <= j < v@.len() ==> v@[j] != '.',
        decreases i,
    {
        if v[i - 1] == '.' {
            proof {
                assert(name@[i - 1] == '.');
                lemma_cut_at(name@, i - 1);
                assert(v@.subrange(0, i - 1) =~= name@.take(i - 1));
            }
            return text::string_of_range(&v, 0, i - 1);
        }
        i -= 1;
    }
    name.to_owned()
}

/// The part of a page's label that goes into a file name.
pub open spec fn label_name(label: Seq<char>) -> Seq<char> {
    let trimmed = text::trim_end(text::trim(label, Edge::Whitespace), Edge::DotOrWhitespace);
    let name = sanitized(before_last_dot(trimmed));
    if name.len() == 0 {
        "page"@
    } else {
        name
    }
}

/// How many digits the numbers of an archive's pages have: as many as the last needs, and three at
/// least.
pub open spec fn number_width(total: nat) -> nat {
    if text::decimal(total).len() < 3 {
        3
    } else {
        text::decimal(total).len()
    }
}

/// The number of an archive's page.
pub open spec fn page_number(index: nat, total: nat) -> Seq<char> {
    "P"@ + text::zero_padded(text::decimal(index + 1), number_width(total))
}

/// The name of a page's file, without its ending. A page of an archive is known by its number alone;
/// a loose file keeps the label of the page.
pub open spec fn stem(format: ExportFormat, index: nat, total: nat, label: Seq<char>) -> Seq<char> {
    match format {
        ExportFormat::Cbz => page_number(index, total),
        ExportFormat::Png | ExportFormat::Psd => text::zero_padded(text::decimal(index + 1), 4)
            + "_"@ + label_name(label),
    }
}

fn digits(total: usize) -> (r: usize)
    ensures
        r == number_width(total as nat),
{
    let text = text::decimal_text(total);
    let n: usize = text::chars_of(text.as_str()).len();
    if n < 3 {
        3
    } else {
        n
    }
}

fn numbered(index: usize, total: usize) -> (r: String)
    requires
        index < usize::MAX,
    ensures
        r@ == page_number(index as nat, total as nat),
{
    let width: usize = digits(total);
    let number = text::padded_text(index + 1, width);
    text::joined("P", number.as_str())
}

/// The name of a page's file, without its ending.
pub fn page_stem(format: ExportFormat, index: usize, total: usize, label: &str) -> (r: String)
    requires
        index < usize::MAX,
    ensures
        r@ == stem(format, index as nat, total as nat, label@),
{
    match format {
        ExportFormat::Cbz => numbered(index, total),
        ExportFormat::Png | ExportFormat::Psd => {
            let trimmed = text::trimmed(label, Edge::Whitespace);
            let trimmed = text::trimmed_end(trimmed.as_str(), Edge::DotOrWhitespace);
            let name = stem_of(trimmed.as_str());
            let name = sanitize_filename(name.as_str());
            let number = text::padded_text(index + 1, 4);
            let head = text::joined(number.as_str(), "_");
            if text::chars_of(name.as_str()).len() == 0 {
                text::joined(head.as_str(), "page")
            } else {
                text::joined(head.as_str(), name.as_str())
            }
        },
    }
}

/// The name of a page's file with its ending. Archives of this kind hold PNG images.
pub fn page_file(format: ExportFormat, stem: &str) -> (r: String)
    ensures
        r@ == stem@ + match format {
            ExportFormat::Psd => ".psd"@,
            ExportFormat::Png | ExportFormat::Cbz => ".png"@,
        },
{
    match format {
        ExportFormat::Psd => text::joined(stem, ".psd"),
        ExportFormat::Png | ExportFormat::Cbz => text::joined(stem, ".png"),
    }
}

/// The name of a page in an archive.
pub open spec fn member(index: nat, total: nat, format: ArchiveImageFormat) -> Seq<char> {
    page_number(index, total) + "."@ + format.suffix()
}

/// The name of a page in an archive.
pub fn member_name(index: usize, total: usize, format: ArchiveImageFormat) -> (r: String)
    requires
        index < usize::MAX,
    ensures
        r@ == member(index as nat, total as nat, format),
{
    let number = numbered(index, total);
    let head = text::joined(number.as_str(), ".");
    text::joined(head.as_str(), format.extension())
}

/// The name that is proposed for an archive of a project.
pub fn archive_name(project: &str) -> (r: String)
    ensures
        r@ == ({
            let name = sanitized(text::trim(project@, Edge::Whitespace));
            if name.len() == 0 {
                "export"@
            } else {
                name
            }
        }) + ".cbz"@,
{
    let trimmed = text::trimmed(project, Edge::Whitespace);
    let name = sanitize_filename(trimmed.as_str());
    if text::chars_of(name.as_str()).len() == 0 {
        text::joined("export", ".cbz")
    } else {
        text::joined(name.as_str(), ".cbz")
    }
}

// ---------------------------------------------------------------------------------------------
// Laws
// ---------------------------------------------------------------------------------------------

/// The last `w` digits of a number.
spec fn fixed(n: nat, w: nat) -> Seq<char>
    decreases w,
{
    if w == 0 {
        Seq::empty()
    } else {
        fixed(n / 10, (w - 1) as nat).push(text::digit(n % 10))
    }
}

proof fn lemma_fixed_zero(w: nat)
    ensures
        fixed(0, w) == Seq::new(w, |i: int| '0'),
    decreases w,
{
    if w > 0 {
        lemma_fixed_zero((w - 1) as nat);
        assert(text::digit(0) == '0');
        assert(fixed(0, w) =~= Seq::new(w, |i: int| '0'));
    } else {
        assert(fixed(0, w) =~= Seq::new(w, |i: int| '0'));
    }
}

proof fn lemma_fixed(n: nat, w: nat)
    requires
        text::decimal(n).len() <= w,
    ensures
        fixed(n, w) == text::zero_padded(text::decimal(n), w),
        fixed(n, w).len() == w,
    decreases w,
{
    if n < 10 {
        lemma_fixed_zero((w - 1) as nat);
        assert(n / 10 == 0 && n % 10 == n);
        assert(fixed(n, w) =~= text::zero_padded(text::decimal(n), w));
    } else {
        lemma_fixed(n / 10, (w - 1) as nat);
        assert(fixed(n, w) =~= text::zero_padded(text::decimal(n), w));
    }
}

proof fn lemma_lt_push(x: Seq<char>, y: Seq<char>, c: char, d: char)
    requires
        x.len() == y.len(),
        text::text_lt(x, y) || x == y && c < d,
    ensures
        text::text_lt(x.push(c), y.push(d)),
    decreases x.len(),
{
    let a = x.push(c);
    let b = y.push(d);
    if x.len() == 0 {
        assert(x =~= y);
        assert(a[0] == c && b[0] == d);
    } else {
        assert(a.drop_first() =~= x.drop_first().push(c));
        assert(b.drop_first() =~= y.drop_first().push(d));
        assert(a[0] == x[0] && b[0] == y[0]);
        if x[0] == y[0] {
            if x != y {
                assert(x.drop_first() != y.drop_first()) by {
                    if x.drop_first() == y.drop_first() {
                        assert(x =~= seq![x[0]] + x.drop_first());
                        assert(y =~= seq![y[0]] + y.drop_first());
                    }
                }
            }
            lemma_lt_push(x.drop_first(), y.drop_first(), c, d);
            assert(a != b) by {
                if a == b {
                    assert(a.drop_first() == b.drop_first());
                }
            }
        } else {
            assert(a[0] != b[0]);
        }
    }
}

proof fn lemma_fixed_order(a: nat, b: nat, w: nat)
    requires
        a < b,
        fixed(b, w).len() == w,
        fits(b, w),
    ensures
        text::text_lt(fixed(a, w), fixed(b, w)),
        fixed(a, w).len() == fixed(b, w).len(),
    decreases w,
{
    if w == 0 {
    } else {
        let x = fixed(a / 10, (w - 1) as nat);
        let y = fixed(b / 10, (w - 1) as nat);
        lemma_fixed_len(a, w);
        lemma_fixed_len(b, w);
        lemma_fixed_len(a / 10, (w - 1) as nat);
        lemma_fixed_len(b / 10, (w - 1) as nat);
        if a / 10 < b / 10 {
            lemma_fixed_order(a / 10, b / 10, (w - 1) as nat);
        } else {
            assert(a / 10 == b / 10);
            assert(a % 10 < b % 10);
            assert(text::digit(a % 10) < text::digit(b % 10));
        }
        lemma_lt_push(x, y, text::digit(a % 10), text::digit(b % 10));
    }
}

/// The number has at most `w` digits.
spec fn fits(n: nat, w: nat) -> bool
    decreases w,
{
    if w == 0 {
        n == 0
    } else {
        fits(n / 10, (w - 1) as nat)
    }
}

proof fn lemma_fixed_len(n: nat, w: nat)
    ensures
        fixed(n, w).len() == w,
    decreases w,
{
    if w > 0 {
        lemma_fixed_len(n / 10, (w - 1) as nat);
    }
}

proof fn lemma_fits(n: nat, w: nat)
    requires
        text::decimal(n).len() <= w,
    ensures
        fits(n, w),
    decreases w,
{
    if n >= 10 {
        lemma_fits(n / 10, (w - 1) as nat);
    } else {
        assert(n / 10 == 0);
        lemma_zero_fits((w - 1) as nat);
    }
}

proof fn lemma_zero_fits(w: nat)
    ensures
        fits(0, w),
    decreases w,
{
    if w > 0 {
        lemma_zero_fits((w - 1) as nat);
    }
}

proof fn lemma_decimal_grows(a: nat, b: nat)
    requires
        a <= b,
    ensures
        1 <= text::decimal(a).len() <= text::decimal(b).len(),
    decreases b,
{
    if b >= 10 {
        if a >= 10 {
            lemma_decimal_grows(a / 10, b / 10);
        } else {
            lemma_decimal_grows(0, b / 10);
        }
    }
}

/// What stands around two texts of one length does not change which comes first.
proof fn lemma_lt_around(p: Seq<char>, x: Seq<char>, y: Seq<char>, s: Seq<char>)
    requires
        x.len() == y.len(),
        text::text_lt(x, y),
    ensures
        text::text_lt(p + x + s, p + y + s),
    decreases p.len() + s.len(),
{
    if s.len() > 0 {
        let head = s.drop_last();
        lemma_lt_around(p, x, y, head);
        lemma_lt_push(p + x + head, p + y + head, s.last(), s.last());
        assert((p + x + head).push(s.last()) =~= p + x + s);
        assert((p + y + head).push(s.last()) =~= p + y + s);
    } else if p.len() > 0 {
        let rest = p.drop_first();
        lemma_lt_around(rest, x, y, s);
        let a = p + x + s;
        let b = p + y + s;
        assert(a.drop_first() =~= rest + x + s);
        assert(b.drop_first() =~= rest + y + s);
        assert(a[0] == p[0] && b[0] == p[0]);
        assert(a != b) by {
            if a == b {
                assert(a.drop_first() == b.drop_first());
            }
        }
    } else {
        assert(p + x + s =~= x);
        assert(p + y + s =~= y);
    }
}

/// The pages of an archive sort by name in the order of the pages, however many there are.
pub proof fn lemma_members_sort(i: nat, j: nat, total: nat, format: ArchiveImageFormat)
    requires
        i < j < total,
    ensures
        text::text_lt(member(i, total, format), member(j, total, format)),
{
    let w = number_width(total);
    lemma_decimal_grows(i + 1, total);
    lemma_decimal_grows(j + 1, total);
    lemma_fixed(i + 1, w);
    lemma_fixed(j + 1, w);
    lemma_fits(j + 1, w);
    lemma_fixed_order(i + 1, j + 1, w);
    let s = "."@ + format.suffix();
    lemma_lt_around("P"@, fixed(i + 1, w), fixed(j + 1, w), s);
    assert(member(i, total, format) =~= "P"@ + fixed(i + 1, w) + s);
    assert(member(j, total, format) =~= "P"@ + fixed(j + 1, w) + s);
}

/// Nine characters become underscores; every other stays as it is.
pub proof fn lemma_reserved_characters(s: Seq<char>, i: int)
    requires
        0 <= i < s.len(),
    ensures
        s[i] == '<' || s[i] == '>' || s[i] == ':' || s[i] == '"' || s[i] == '/' || s[i] == '\\' || s[i]
            == '|' || s[i] == '?' || s[i] == '*' ==> sanitized(s)[i] == '_',
        !(s[i] == '<' || s[i] == '>' || s[i] == ':' || s[i] == '"' || s[i] == '/' || s[i] == '\\'
            || s[i] == '|' || s[i] == '?' || s[i] == '*') ==> sanitized(s)[i] == s[i],
{
}

/// What stands before the last dot, and everything where there is no dot.
pub proof fn lemma_before_the_last_dot(s: Seq<char>, ending: Seq<char>)
    requires
        forall|i: int| 0 <= i < ending.len() ==> #[trigger] ending[i] != '.',
    ensures
        before_last_dot(s + seq!['.'] + ending) == s,
        before_last_dot(ending) == ending,
{
    let whole = s + seq!['.'] + ending;
    let at = s.len() as int;
    assert(whole[at] == '.');
    assert forall|j: int| at < j < whole.len() implies whole[j] != '.' by {
        assert(whole[j] == ending[j - at - 1]);
    }
    lemma_cut_at(whole, at);
    assert(whole.take(at) =~= s);
}

/// A label that is the name of a file goes into the new name without its ending, and a label without
/// one goes in whole; but for the characters that no name may have.
pub proof fn lemma_label_of_a_file(name: Seq<char>, ending: Seq<char>)
    requires
        name.len() > 0,
        !text::is_whitespace(name[0]),
        ending.len() > 0,
        !text::is_whitespace(ending.last()),
        forall|i: int| 0 <= i < ending.len() ==> #[trigger] ending[i] != '.',
    ensures
        label_name(name + seq!['.'] + ending) == sanitized(name),
        !text::is_whitespace(ending[0]) ==> label_name(ending) == sanitized(ending),
{
    let whole = name + seq!['.'] + ending;
    assert(whole[0] == name[0]);
    assert(whole.last() == ending.last());
    assert(ending[ending.len() - 1] != '.');
    assert(text::trim(whole, Edge::Whitespace) == whole);
    lemma_before_the_last_dot(name, ending);
}

/// A label of which nothing is left gives the name `page`.
pub proof fn lemma_label_of_nothing(label: Seq<char>)
    requires
        forall|i: int| 0 <= i < label.len() ==> text::is_whitespace(#[trigger] label[i]),
    ensures
        label_name(label) == "page"@,
{
    let (a, b) = text::lemma_trim_is_the_middle(label, Edge::Whitespace);
    let trimmed = text::trim(label, Edge::Whitespace);
    assert(trimmed.len() == 0);
    assert(text::trim_end(trimmed, Edge::DotOrWhitespace) == trimmed);
    assert(before_last_dot(trimmed) == trimmed);
}

/// The number of an archive's page is its place, counted from one, behind a `P`: three digits, or as
/// many as the number of the last page has.
pub proof fn lemma_page_number(index: nat, total: nat)
    requires
        index < total,
    ensures
        page_number(index, total)[0] == 'P',
        text::all_digits(page_number(index, total).skip(1)),
        text::number_of(page_number(index, total).skip(1)) == index + 1,
        page_number(index, total).len() == 1 + (if text::decimal(total).len() < 3 {
            3
        } else {
            text::decimal(total).len()
        }),
{
    reveal_strlit("P");
    lemma_decimal_grows(index + 1, total);
    text::lemma_decimal_reads_back(index + 1, number_width(total));
    assert(page_number(index, total).skip(1) =~= text::zero_padded(
        text::decimal(index + 1),
        number_width(total),
    ));
}

/// A loose file begins with its place, counted from one, in four digits or more, and keeps the
/// page's label; a page of an archive has its number alone.
pub proof fn lemma_stems(index: nat, total: nat, label: Seq<char>)
    ensures
        ({
            let digits = text::zero_padded(text::decimal(index + 1), 4);
            &&& digits.len() >= 4
            &&& text::all_digits(digits)
            &&& text::number_of(digits) == index + 1
            &&& stem(ExportFormat::Png, index, total, label) == digits + "_"@ + label_name(label)
            &&& stem(ExportFormat::Psd, index, total, label) == digits + "_"@ + label_name(label)
            &&& stem(ExportFormat::Cbz, index, total, label) == page_number(index, total)
        }),
{
    text::lemma_decimal_reads_back(index + 1, 4);
}

} // verus!
