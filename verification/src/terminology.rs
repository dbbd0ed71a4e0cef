//! Proposing terms for a glossary from the texts of a project.
use crate::ids;
use crate::ids::EntityId;
use crate::normalize;
use crate::normalize::{normalize_term, normalize_text};
use crate::order;
use crate::order::Ranked;
use crate::pipeline::request::StopToken;
use crate::project_glossary::{GlossaryCandidate, GlossaryCategory};
use crate::stop_flag;
use crate::stop_flag::{next_number, StopFlag};
use crate::text;
use crate::text::Edge;
use vstd::prelude::*;

verus! {

/// How many distinct terms an analysis takes.
pub const MAX_TERMS: usize = 100_000;

/// How many terms are proposed.
pub const MAX_CANDIDATES: usize = 5000;

/// What was seen of a term.
pub struct TermStatistics {
    pub source: String,
    pub count: u32,
    /// The pages that it stands on, each once.
    pub pages: Vec<EntityId>,
    pub category: GlossaryCategory,
    pub distinctive: bool,
}

/// What was seen of a term, with its characters.
pub struct TermNote {
    pub source: Seq<char>,
    pub count: u32,
    pub pages: Seq<EntityId>,
    pub category: GlossaryCategory,
    pub distinctive: bool,
}

impl TermStatistics {
    pub open spec fn note(self) -> TermNote {
        TermNote {
            source: self.source@,
            count: self.count,
            pages: self.pages@,
            category: self.category,
            distinctive: self.distinctive,
        }
    }
}

/// What was seen of the terms.
pub open spec fn notes(terms: Seq<TermStatistics>) -> Seq<TermNote> {
    Seq::new(terms.len(), |i: int| terms[i].note())
}

/// There are more than [`MAX_TERMS`] distinct terms.
#[derive(Clone, Copy, Debug, PartialEq, Eq, Structural)]
pub struct TooManyTerms;

// ---------------------------------------------------------------------------------------------
// Runs of one script
// ---------------------------------------------------------------------------------------------

/// The script of a character that may stand in a term: Han, Katakana or Latin; 0 for any other.
pub open spec fn script_of(c: char) -> int {
    if '\u{3400}' <= c <= '\u{9fff}' || c == '々' {
        1
    } else if '\u{30a1}' <= c <= '\u{30fa}' || c == 'ー' || c == '・' {
        2
    } else if 'a' <= c <= 'z' || 'A' <= c <= 'Z' || c == '-' {
        3
    } else {
        0
    }
}

fn script(c: char) -> (r: u8)
    ensures
        r == script_of(c),
{
    if ('\u{3400}' <= c && c <= '\u{9fff}') || c == '々' {
        1
    } else if ('\u{30a1}' <= c && c <= '\u{30fa}') || c == 'ー' || c == '・' {
        2
    } else if ('a' <= c && c <= 'z') || ('A' <= c && c <= 'Z') || c == '-' {
        3
    } else {
        0
    }
}

/// Where the characters from `i` on that have the script `kind` end.
pub open spec fn run_end(t: Seq<char>, i: int, kind: int) -> int
    decreases t.len() - i,
{
    if 0 <= i < t.len() && script_of(t[i]) == kind {
        run_end(t, i + 1, kind)
    } else {
        i
    }
}

/// A stretch ends where it begins or later, within the text.
pub proof fn lemma_run_end(t: Seq<char>, i: int, kind: int)
    requires
        0 <= i <= t.len(),
    ensures
        i <= run_end(t, i, kind) <= t.len(),
    decreases t.len() - i,
{
    if i < t.len() && script_of(t[i]) == kind {
        lemma_run_end(t, i + 1, kind);
    }
}

/// The longest stretches of one script from `i` on.
pub open spec fn runs(t: Seq<char>, i: int) -> Seq<(int, int)>
    decreases t.len() - i,
{
    if i < 0 || i >= t.len() {
        Seq::empty()
    } else if script_of(t[i]) == 0 {
        runs(t, i + 1)
    } else {
        proof {
            lemma_run_end(t, i + 1, script_of(t[i]));
        }
        seq![(i, run_end(t, i + 1, script_of(t[i])))] + runs(
            t,
            run_end(t, i + 1, script_of(t[i])),
        )
    }
}

// ---------------------------------------------------------------------------------------------
// Terms
// ---------------------------------------------------------------------------------------------

/// The term that a stretch of text is.
pub open spec fn term_of(stretch: Seq<char>) -> Seq<char> {
    text::trim(normalize::term_form(stretch), Edge::Joiner)
}

/// A word that is no term.
pub open spec fn is_common(s: Seq<char>) -> bool {
    ||| s == "今日"@
    ||| s == "明日"@
    ||| s == "自分"@
    ||| s == "何処"@
    ||| s == "本当"@
    ||| s == "全部"@
    ||| s == "大丈夫"@
    ||| s == "This"@
    ||| s == "That"@
    ||| s == "The"@
}

fn common(s: &str) -> (r: bool)
    ensures
        r == is_common(s@),
{
    text::same(s, "今日") || text::same(s, "明日") || text::same(s, "自分") || text::same(s, "何処")
        || text::same(s, "本当") || text::same(s, "全部") || text::same(s, "大丈夫") || text::same(
        s,
        "This",
    ) || text::same(s, "That") || text::same(s, "The")
}

/// What follows is a form of address.
pub open spec fn addressed(following: Seq<char>) -> bool {
    ||| text::occurs_at(following, "さん"@, 0)
    ||| text::occurs_at(following, "ちゃん"@, 0)
    ||| text::occurs_at(following, "くん"@, 0)
    ||| text::occurs_at(following, "君"@, 0)
    ||| text::occurs_at(following, "様"@, 0)
    ||| text::occurs_at(following, "氏"@, 0)
    ||| text::occurs_at(following, "殿"@, 0)
}

fn is_addressed(following: &str) -> (r: bool)
    ensures
        r == addressed(following@),
{
    text::starts_with(following, "さん") || text::starts_with(following, "ちゃん")
        || text::starts_with(following, "くん") || text::starts_with(following, "君")
        || text::starts_with(following, "様") || text::starts_with(following, "氏")
        || text::starts_with(following, "殿")
}

/// A family name that is often met.
pub open spec fn is_family_name(s: Seq<char>) -> bool {
    ||| s == "高橋"@
    ||| s == "田中"@
    ||| s == "佐藤"@
    ||| s == "鈴木"@
    ||| s == "渡辺"@
    ||| s == "伊藤"@
    ||| s == "加藤"@
    ||| s == "山田"@
    ||| s == "山本"@
    ||| s == "小林"@
    ||| s == "中村"@
    ||| s == "吉田"@
}

fn family_name(s: &str) -> (r: bool)
    ensures
        r == is_family_name(s@),
{
    text::same(s, "高橋") || text::same(s, "田中") || text::same(s, "佐藤") || text::same(s, "鈴木")
        || text::same(s, "渡辺") || text::same(s, "伊藤") || text::same(s, "加藤") || text::same(
        s,
        "山田",
    ) || text::same(s, "山本") || text::same(s, "小林") || text::same(s, "中村") || text::same(
        s,
        "吉田",
    )
}

/// The category that the end of a term gives away.
pub open spec fn category_by_end(s: Seq<char>) -> Option<GlossaryCategory> {
    if text::has_suffix(s, "院"@) || text::has_suffix(s, "学園"@) || text::has_suffix(s, "会社"@)
        || text::has_suffix(s, "組合"@) || text::has_suffix(s, "協会"@) || text::has_suffix(
        s,
        "騎士団"@,
    ) || text::has_suffix(s, "軍"@) {
        Some(GlossaryCategory::Organization)
    } else if text::has_suffix(s, "隊長"@) || text::has_suffix(s, "先生"@) || text::has_suffix(
        s,
        "陛下"@,
    ) || text::has_suffix(s, "博士"@) || text::has_suffix(s, "団長"@) || text::has_suffix(s, "姫"@)
        || text::has_suffix(s, "王"@) {
        Some(GlossaryCategory::Title)
    } else if text::has_suffix(s, "市"@) || text::has_suffix(s, "町"@) || text::has_suffix(s, "村"@)
        || text::has_suffix(s, "国"@) || text::has_suffix(s, "城"@) || text::has_suffix(s, "島"@) {
        Some(GlossaryCategory::Place)
    } else if text::has_suffix(s, "術"@) || text::has_suffix(s, "法"@) || text::has_suffix(s, "斬"@)
        || text::has_suffix(s, "撃"@) {
        Some(GlossaryCategory::Skill)
    } else if text::has_suffix(s, "剣"@) || text::has_suffix(s, "杖"@) || text::has_suffix(s, "薬"@)
        || text::has_suffix(s, "鎧"@) {
        Some(GlossaryCategory::Item)
    } else {
        None
    }
}

fn end_category(s: &str) -> (r: Option<GlossaryCategory>)
    ensures
        r == category_by_end(s@),
{
    if text::ends_with(s, "院") || text::ends_with(s, "学園") || text::ends_with(s, "会社")
        || text::ends_with(s, "組合") || text::ends_with(s, "協会") || text::ends_with(s, "騎士団")
        || text::ends_with(s, "軍") {
        Some(GlossaryCategory::Organization)
    } else if text::ends_with(s, "隊長") || text::ends_with(s, "先生") || text::ends_with(s, "陛下")
        || text::ends_with(s, "博士") || text::ends_with(s, "団長") || text::ends_with(s, "姫")
        || text::ends_with(s, "王") {
        Some(GlossaryCategory::Title)
    } else if text::ends_with(s, "市") || text::ends_with(s, "町") || text::ends_with(s, "村")
        || text::ends_with(s, "国") || text::ends_with(s, "城") || text::ends_with(s, "島") {
        Some(GlossaryCategory::Place)
    } else if text::ends_with(s, "術") || text::ends_with(s, "法") || text::ends_with(s, "斬")
        || text::ends_with(s, "撃") {
        Some(GlossaryCategory::Skill)
    } else if text::ends_with(s, "剣") || text::ends_with(s, "杖") || text::ends_with(s, "薬")
        || text::ends_with(s, "鎧") {
        Some(GlossaryCategory::Item)
    } else {
        None
    }
}

/// The category of a term, and whether something sets it apart from common words.
pub open spec fn class_of(source: Seq<char>, following: Seq<char>) -> (GlossaryCategory, bool) {
    if addressed(following) || is_family_name(source) {
        (GlossaryCategory::Person, true)
    } else {
        match category_by_end(source) {
            Some(category) => (category, true),
            None => (
                GlossaryCategory::Terminology,
                (forall|i: int| 0 <= i < source.len() ==> script_of(#[trigger] source[i]) == 2) || (
                source.len() > 0 && 'A' <= source[0] <= 'Z'),
            ),
        }
    }
}

fn classify(source: &str, following: &str) -> (r: (GlossaryCategory, bool))
    ensures
        r == class_of(source@, following@),
{
    if is_addressed(following) || family_name(source) {
        return (GlossaryCategory::Person, true);
    }
    match end_category(source) {
        Some(category) => {
            return (category, true);
        },
        None => {},
    }
    let v = text::chars_of(source);
    let mut katakana = true;
    let mut i: usize = 0;
    while i < v.len()
        invariant
            i <= v@.len(),
            katakana == (forall|j: int| 0 <= j < i ==> script_of(#[trigger] v@[j]) == 2),
        decreases v@.len() - i,
    {
        if script(v[i]) != 2 {
            katakana = false;
        }
        i += 1;
    }
    let capitalized = v.len() > 0 && 'A' <= v[0] && v[0] <= 'Z';
    (GlossaryCategory::Terminology, katakana || capitalized)
}

// ---------------------------------------------------------------------------------------------
// Counting
// ---------------------------------------------------------------------------------------------

/// The place of the term, or the number of terms.
pub open spec fn place_of(seen: Seq<TermNote>, source: Seq<char>) -> int
    decreases seen.len(),
{
    if seen.len() == 0 || seen[0].source == source {
        0
    } else {
        1 + place_of(seen.drop_first(), source)
    }
}

proof fn lemma_place_of(seen: Seq<TermNote>, source: Seq<char>)
    ensures
        0 <= place_of(seen, source) <= seen.len(),
        place_of(seen, source) < seen.len() ==> seen[place_of(seen, source)].source == source,
        forall|i: int|
            0 <= i < place_of(seen, source) ==> (#[trigger] seen[i]).source != source,
    decreases seen.len(),
{
    if seen.len() > 0 && seen[0].source != source {
        lemma_place_of(seen.drop_first(), source);
        let p = place_of(seen.drop_first(), source);
        assert forall|i: int| 0 <= i < p + 1 implies (#[trigger] seen[i]).source != source by {
            if i > 0 {
                assert(seen[i] == seen.drop_first()[i - 1]);
            }
        }
    }
}

/// One occurrence more of a term, on a page. A category that is sure is not given up for one that
/// is not.
pub open spec fn once_more(
    note: TermNote,
    page: EntityId,
    category: GlossaryCategory,
    distinctive: bool,
) -> TermNote {
    TermNote {
        source: note.source,
        count: if note.count == u32::MAX {
            u32::MAX
        } else {
            (note.count + 1) as u32
        },
        pages: if note.pages.contains(page) {
            note.pages
        } else {
            note.pages.push(page)
        },
        category: if distinctive || !note.distinctive {
            category
        } else {
            note.category
        },
        distinctive: note.distinctive || distinctive,
    }
}

/// The terms with a stretch of text that is followed by `following`; none where there are too many.
pub open spec fn recorded(
    seen: Seq<TermNote>,
    stretch: Seq<char>,
    following: Seq<char>,
    page: EntityId,
) -> Option<Seq<TermNote>> {
    let source = term_of(stretch);
    let (category, distinctive) = class_of(source, following);
    let i = place_of(seen, source);
    if !(2 <= source.len() <= 32) || is_common(source) {
        Some(seen)
    } else if script_of(source[0]) == 3 && !distinctive {
        Some(seen)
    } else if i < seen.len() {
        Some(seen.update(i, once_more(seen[i], page, category, distinctive)))
    } else if seen.len() >= MAX_TERMS {
        None
    } else {
        Some(seen.push(TermNote { source, count: 1, pages: seq![page], category, distinctive }))
    }
}

/// The terms with those of the stretches of `t`.
pub open spec fn with_runs(
    seen: Seq<TermNote>,
    t: Seq<char>,
    stretches: Seq<(int, int)>,
    page: EntityId,
) -> Option<Seq<TermNote>>
    decreases stretches.len(),
{
    if stretches.len() == 0 {
        Some(seen)
    } else {
        match recorded(
            seen,
            t.subrange(stretches[0].0, stretches[0].1),
            t.skip(stretches[0].1),
            page,
        ) {
            None => None,
            Some(next) => with_runs(next, t, stretches.drop_first(), page),
        }
    }
}

/// The terms with those of a text on a page.
pub open spec fn with_text(seen: Seq<TermNote>, s: Seq<char>, page: EntityId) -> Option<
    Seq<TermNote>,
> {
    with_runs(seen, normalize::text_form(s), runs(normalize::text_form(s), 0), page)
}

fn find_term(terms: &Vec<TermStatistics>, source: &str) -> (r: usize)
    ensures
        r == place_of(notes(terms@), source@),
        r <= terms@.len(),
{
    let ghost seen = notes(terms@);
    let mut i: usize = 0;
    assert(seen.skip(0) =~= seen);
    while i < terms.len()
        invariant
            seen == notes(terms@),
            i <= terms@.len(),
            place_of(seen, source@) == i + place_of(seen.skip(i as int), source@),
        decreases terms@.len() - i,
    {
        assert(seen.skip(i as int)[0] == terms@[i as int].note());
        if text::same(terms[i].source.as_str(), source) {
            return i;
        }
        assert(seen.skip(i as int).drop_first() =~= seen.skip(i + 1));
        i += 1;
    }
    i
}

/// The terms of a project, as they are counted.
pub struct TermAnalysis {
    pub terms: Vec<TermStatistics>,
}

impl TermAnalysis {
    /// What was seen so far.
    pub open spec fn seen(self) -> Seq<TermNote> {
        notes(self.terms@)
    }

    /// Nothing was seen.
    pub fn new() -> (r: Self)
        ensures
            r.seen() == Seq::<TermNote>::empty(),
    {
        let r = TermAnalysis { terms: Vec::new() };
        assert(r.seen() =~= Seq::empty());
        r
    }

    fn record(&mut self, stretch: &str, following: &str, page: EntityId) -> (r: Result<
        (),
        TooManyTerms,
    >)
        ensures
            match recorded(old(self).seen(), stretch@, following@, page) {
                Some(next) => r is Ok && final(self).seen() == next,
                None => r is Err && final(self).seen() == old(self).seen(),
            },
    {
        let ghost seen = self.seen();
        let form = normalize_term(stretch);
        let source = text::trimmed(form.as_str(), Edge::Joiner);
        let v = text::chars_of(source.as_str());
        if v.len() < 2 || v.len() > 32 {
            return Ok(());
        }
        if common(source.as_str()) {
            return Ok(());
        }
        let (category, distinctive) = classify(source.as_str(), following);
        if script(v[0]) == 3 && !distinctive {
            return Ok(());
        }
        let at: usize = find_term(&self.terms, source.as_str());
        if at < self.terms.len() {
            let mut term = self.terms.remove(at);
            let ghost before = term.note();
            if term.count < u32::MAX {
                term.count = term.count + 1;
            }
            if !ids::has_entity(&term.pages, page) {
                term.pages.push(page);
            }
            if distinctive || !term.distinctive {
                term.category = category;
            }
            if distinctive {
                term.distinctive = true;
            }
            assert(term.note() == once_more(before, page, category, distinctive));
            self.terms.insert(at, term);
            assert(self.seen() =~= seen.update(at as int, term.note()));
        } else {
            if self.terms.len() >= MAX_TERMS {
                return Err(TooManyTerms);
            }
            let term = TermStatistics {
                source,
                count: 1,
                pages: vec![page],
                category,
                distinctive,
            };
            assert(term.pages@ =~= seq![page]);
            self.terms.push(term);
            assert(self.seen() =~= seen.push(term.note()));
        }
        Ok(())
    }

    /// Counts the terms of a text on a page.
    pub fn collect(&mut self, source: &str, page: EntityId) -> (r: Result<(), TooManyTerms>)
        ensures
            match with_text(old(self).seen(), source@, page) {
                Some(next) => r is Ok && final(self).seen() == next,
                None => r is Err,
            },
    {
        let form = normalize_text(source);
        let v = text::chars_of(form.as_str());
        let ghost t = v@;
        let mut i: usize = 0;
        while i < v.len()
            invariant
                t == v@,
                t == normalize::text_form(source@),
                i <= v@.len(),
                with_text(old(self).seen(), source@, page) == with_runs(
                    self.seen(),
                    t,
                    runs(t, i as int),
                    page,
                ),
            decreases v@.len() - i,
        {
            let kind: u8 = script(v[i]);
            if kind == 0 {
                i += 1;
                continue ;
            }
            let mut end: usize = i + 1;
            while end < v.len() && script(v[end]) == kind
                invariant
                    t == v@,
                    i < end <= v@.len(),
                    run_end(t, i + 1, kind as int) == run_end(t, end as int, kind as int),
                decreases v@.len() - end,
            {
                end += 1;
            }
            let stretch = text::string_of_range(&v, i, end);
            let following = text::string_of_range(&v, end, v.len());
            proof {
                let all = runs(t, i as int);
                assert(all == seq![(i as int, end as int)] + runs(t, end as int));
                assert(all[0] == (i as int, end as int));
                assert(all.drop_first() =~= runs(t, end as int));
                assert(t.skip(end as int) =~= t.subrange(end as int, t.len() as int));
            }
            match self.record(stretch.as_str(), following.as_str(), page) {
                Ok(()) => {},
                Err(fault) => {
                    return Err(fault);
                },
            }
            i = end;
        }
        Ok(())
    }
}

// ---------------------------------------------------------------------------------------------
// Proposing
// ---------------------------------------------------------------------------------------------

/// A term is proposed that something sets apart, or that is met twice.
pub open spec fn is_notable(term: TermStatistics) -> bool {
    term.distinctive || term.count >= 2 || term.pages@.len() >= 2
}

/// The terms that are proposed.
pub open spec fn notable(terms: Seq<TermStatistics>) -> Seq<TermStatistics>
    decreases terms.len(),
{
    if terms.len() == 0 {
        terms
    } else if is_notable(terms.last()) {
        notable(terms.drop_last()).push(terms.last())
    } else {
        notable(terms.drop_last())
    }
}

impl Ranked for TermStatistics {
    /// On more pages first, then what is set apart, then what is met more often, then by the term.
    open spec fn ranks(self, other: Self) -> bool {
        if self.pages@.len() != other.pages@.len() {
            self.pages@.len() > other.pages@.len()
        } else if self.distinctive != other.distinctive {
            self.distinctive
        } else if self.count != other.count {
            self.count > other.count
        } else {
            text::text_le(self.source@, other.source@)
        }
    }

    proof fn total(a: Self, b: Self) {
        text::lemma_text_le_total(a.source@, b.source@);
    }

    proof fn transitive(a: Self, b: Self, c: Self) {
        if text::text_le(a.source@, b.source@) && text::text_le(b.source@, c.source@) {
            text::lemma_text_le_transitive(a.source@, b.source@, c.source@);
        }
    }

    fn not_after(&self, other: &Self) -> (r: bool) {
        if self.pages.len() != other.pages.len() {
            self.pages.len() > other.pages.len()
        } else if self.distinctive != other.distinctive {
            self.distinctive
        } else if self.count != other.count {
            self.count > other.count
        } else {
            text::not_after(self.source.as_str(), other.source.as_str())
        }
    }
}

/// The proposal for a term.
pub open spec fn proposes(candidate: GlossaryCandidate, term: TermStatistics) -> bool {
    &&& candidate.source == term.source
    &&& candidate.suggested_target@.len() == 0
    &&& candidate.category == term.category
    &&& candidate.occurrences == term.count
    &&& candidate.page_count == term.pages@.len() as u32
}

/// The proposals are those for the first terms in order.
pub open spec fn proposed(terms: Seq<TermStatistics>, candidates: Seq<GlossaryCandidate>) -> bool {
    let ranked = order::arranged(notable(terms));
    &&& candidates.len() == if ranked.len() < MAX_CANDIDATES {
        ranked.len() as int
    } else {
        MAX_CANDIDATES as int
    }
    &&& forall|i: int|
        0 <= i < candidates.len() ==> proposes(#[trigger] candidates[i], ranked[i])
}

fn notable_terms(terms: Vec<TermStatistics>) -> (r: Vec<TermStatistics>)
    ensures
        r@ == notable(terms@),
{
    let ghost all = terms@;
    let mut rest = terms;
    let mut out: Vec<TermStatistics> = Vec::new();
    let ghost mut done: int = 0;
    assert(all.take(0) =~= Seq::empty());
    assert(all.skip(0) =~= all);
    while rest.len() > 0
        invariant
            0 <= done <= all.len(),
            rest@ == all.skip(done),
            out@ == notable(all.take(done)),
        decreases rest@.len(),
    {
        let term = rest.remove(0);
        proof {
            assert(term == all[done]);
            assert(rest@ =~= all.skip(done + 1));
            assert(all.take(done + 1).drop_last() =~= all.take(done));
            assert(all.take(done + 1).last() == term);
            done = done + 1;
        }
        if term.distinctive || term.count >= 2 || term.pages.len() >= 2 {
            out.push(term);
        }
    }
    assert(all.take(done) =~= all);
    out
}

impl TermAnalysis {
    /// The terms that are proposed: first those on most pages.
    pub fn candidates(self) -> (r: Vec<GlossaryCandidate>)
        ensures
            proposed(self.terms@, r@),
    {
        let mut rest = order::sorted(notable_terms(self.terms));
        let ghost ranked = rest@;
        let mut out: Vec<GlossaryCandidate> = Vec::new();
        while rest.len() > 0 && out.len() < MAX_CANDIDATES
            invariant
                out@.len() <= MAX_CANDIDATES,
                out@.len() + rest@.len() == ranked.len(),
                rest@ == ranked.skip(out@.len() as int),
                forall|i: int| 0 <= i < out@.len() ==> proposes(#[trigger] out@[i], ranked[i]),
            decreases rest@.len(),
        {
            let ghost done = out@.len() as int;
            let term = rest.remove(0);
            assert(term == ranked[done]);
            let page_count: u32 = #[verifier::truncate] (term.pages.len() as u32);
            out.push(
                GlossaryCandidate {
                    source: term.source,
                    suggested_target: String::new(),
                    category: term.category,
                    occurrences: term.count,
                    page_count,
                },
            );
            assert(rest@ =~= ranked.skip(done + 1));
        }
        out
    }
}

// ---------------------------------------------------------------------------------------------
// Whole pages
// ---------------------------------------------------------------------------------------------

/// A layer of text on a page: which text it shows, and the source of that text.
pub struct LayerText {
    pub content: EntityId,
    pub source: Option<String>,
}

/// The layers of text on a page.
pub struct PageTexts {
    pub page: EntityId,
    pub layers: Vec<LayerText>,
}

/// An earlier layer shows the same text.
pub open spec fn shown_before(layers: Seq<LayerText>, k: int) -> bool {
    exists|j: int| 0 <= j < k && (#[trigger] layers[j]).content == layers[k].content
}

/// The terms with those of the first `n` layers of a page, every text counted once.
pub open spec fn with_layers(seen: Seq<TermNote>, page: PageTexts, n: nat) -> Option<Seq<TermNote>>
    decreases n,
{
    if n == 0 {
        Some(seen)
    } else {
        match with_layers(seen, page, (n - 1) as nat) {
            None => None,
            Some(so_far) => match page.layers@[n - 1].source {
                Some(source) => if shown_before(page.layers@, n - 1) {
                    Some(so_far)
                } else {
                    with_text(so_far, source@, page.page)
                },
                None => Some(so_far),
            },
        }
    }
}

/// The terms of the first `n` pages.
pub open spec fn with_pages(pages: Seq<PageTexts>, n: nat) -> Option<Seq<TermNote>>
    decreases n,
{
    if n == 0 {
        Some(Seq::empty())
    } else {
        match with_pages(pages, (n - 1) as nat) {
            None => None,
            Some(so_far) => with_layers(so_far, pages[n - 1], pages[n - 1].layers@.len()),
        }
    }
}

proof fn lemma_layers_fail(seen: Seq<TermNote>, page: PageTexts, m: nat, n: nat)
    requires
        m <= n,
        with_layers(seen, page, m) is None,
    ensures
        with_layers(seen, page, n) is None,
    decreases n,
{
    if m < n {
        lemma_layers_fail(seen, page, m, (n - 1) as nat);
    }
}

proof fn lemma_pages_fail(pages: Seq<PageTexts>, m: nat, n: nat)
    requires
        m <= n,
        with_pages(pages, m) is None,
    ensures
        with_pages(pages, n) is None,
    decreases n,
{
    if m < n {
        lemma_pages_fail(pages, m, (n - 1) as nat);
    }
}

impl TermAnalysis {
    /// Counts the terms of layer `k` of a page, unless its text was shown before.
    pub fn add_layer(&mut self, page: &PageTexts, k: usize) -> (r: Result<(), TooManyTerms>)
        requires
            k < page.layers@.len(),
        ensures
            match page.layers@[k as int].source {
                Some(source) => if shown_before(page.layers@, k as int) {
                    r is Ok && final(self).seen() == old(self).seen()
                } else {
                    match with_text(old(self).seen(), source@, page.page) {
                        Some(next) => r is Ok && final(self).seen() == next,
                        None => r is Err,
                    }
                },
                None => r is Ok && final(self).seen() == old(self).seen(),
            },
    {
        let mut j: usize = 0;
        while j < k
            invariant
                j <= k < page.layers@.len(),
                self.seen() == old(self).seen(),
                forall|q: int|
                    0 <= q < j ==> (#[trigger] page.layers@[q]).content
                        != page.layers@[k as int].content,
            decreases k - j,
        {
            if page.layers[j].content == page.layers[k].content {
                return Ok(());
            }
            j += 1;
        }
        match &page.layers[k].source {
            Some(source) => self.collect(source.as_str(), page.page),
            None => Ok(()),
        }
    }
}

/// The terms of the pages were counted, and these are proposed of them.
pub open spec fn is_analysis(pages: Seq<PageTexts>, candidates: Seq<GlossaryCandidate>) -> bool {
    exists|terms: Seq<TermStatistics>|
        with_pages(pages, pages.len()) == Some(#[trigger] notes(terms)) && proposed(
            terms,
            candidates,
        )
}

/// The number of pages done was shown after each of the first `n` pages.
pub open spec fn shows_pages<F: FnMut(usize)>(progress: F, n: int) -> bool {
    forall|done: usize| 1 <= done <= n ==> #[trigger] call_ensures(progress, (done,), ())
}

/// How many questions come before page `n`: one for each page, and one for each of its layers.
pub open spec fn asked_before(pages: Seq<PageTexts>, n: nat) -> nat
    decreases n,
{
    if n == 0 {
        0
    } else {
        asked_before(pages, (n - 1) as nat) + 1 + pages[n - 1].layers@.len()
    }
}

/// The analysis came to layer `layer` of page `page`: every question before was answered no, every
/// page before was counted and shown, and so were the layers before on the page.
pub open spec fn came_to<S: StopFlag, F: FnMut(usize)>(
    pages: Seq<PageTexts>,
    flag: &S,
    progress: F,
    page: int,
    layer: int,
) -> bool {
    &&& 0 <= page < pages.len()
    &&& 0 <= layer <= pages[page].layers@.len()
    &&& stop_flag::all_no(flag, asked_before(pages, page as nat))
    &&& shows_pages(progress, page)
    &&& with_pages(pages, page as nat) matches Some(seen) && with_layers(
        seen,
        pages[page],
        layer as nat,
    ) is Some
}

/// The analysis was given up before page `page`.
pub open spec fn given_up_before<S: StopFlag, F: FnMut(usize)>(
    pages: Seq<PageTexts>,
    flag: &S,
    progress: F,
    page: int,
) -> bool {
    &&& came_to(pages, flag, progress, page, 0)
    &&& stop_flag::answered(flag, asked_before(pages, page as nat), true)
}

/// The analysis was given up on page `page`, before its layer `layer`.
pub open spec fn given_up_at<S: StopFlag, F: FnMut(usize)>(
    pages: Seq<PageTexts>,
    flag: &S,
    progress: F,
    page: int,
    layer: int,
) -> bool {
    let asked = asked_before(pages, page as nat) + 1 + layer;
    &&& came_to(pages, flag, progress, page, layer)
    &&& layer < pages[page].layers@.len()
    &&& stop_flag::all_no(flag, asked as nat)
    &&& stop_flag::answered(flag, asked as nat, true)
}

/// The analysis failed at layer `layer` of page `page`, after the question before it: there were too
/// many terms.
pub open spec fn failed_at<S: StopFlag, F: FnMut(usize)>(
    pages: Seq<PageTexts>,
    flag: &S,
    progress: F,
    page: int,
    layer: int,
) -> bool {
    &&& came_to(pages, flag, progress, page, layer)
    &&& layer < pages[page].layers@.len()
    &&& stop_flag::all_no(flag, (asked_before(pages, page as nat) + 2 + layer) as nat)
    &&& with_layers(
        with_pages(pages, page as nat)->0,
        pages[page],
        (layer + 1) as nat,
    ) is None
}

/// What comes of an analysis.
pub open spec fn is_outcome<S: StopFlag, F: FnMut(usize)>(
    pages: Seq<PageTexts>,
    flag: &S,
    progress: F,
    r: Result<Option<Vec<GlossaryCandidate>>, TooManyTerms>,
) -> bool {
    match r {
        Ok(Some(candidates)) => {
            &&& is_analysis(pages, candidates@)
            &&& shows_pages(progress, pages.len() as int)
            &&& stop_flag::all_no(flag, asked_before(pages, pages.len()))
        },
        Ok(None) => {
            ||| exists|page: int| #[trigger] given_up_before(pages, flag, progress, page)
            ||| exists|page: int, layer: int| #[trigger]
                given_up_at(pages, flag, progress, page, layer)
        },
        Err(_) => exists|page: int, layer: int| #[trigger]
            failed_at(pages, flag, progress, page, layer),
    }
}

/// Proposes terms from the texts of the pages. Before each page and each of its texts it is asked
/// whether to stop, and at the first yes the analysis is given up. After each page the number of
/// pages that are done is shown.
pub fn analyze_until<S: StopFlag, F: FnMut(usize)>(
    pages: &Vec<PageTexts>,
    flag: &S,
    progress: F,
) -> (r: Result<Option<Vec<GlossaryCandidate>>, TooManyTerms>)
    requires
        flag.can_ask(),
        forall|n: usize| #[trigger] call_requires(progress, (n,)),
    ensures
        is_outcome(pages@, flag, progress, r),
{
    let mut show = progress;
    let mut analysis = TermAnalysis::new();
    let mut number: usize = 0;
    let mut i: usize = 0;
    while i < pages.len()
        invariant
            i <= pages@.len(),
            with_pages(pages@, i as nat) == Some(analysis.seen()),
            flag.can_ask(),
            forall|n: usize| #[trigger] call_requires(progress, (n,)),
            show == progress,
            shows_pages(progress, i as int),
            stop_flag::all_no(flag, asked_before(pages@, i as nat)),
            number == stop_flag::number_of(asked_before(pages@, i as nat)),
        decreases pages@.len() - i,
    {
        let page = &pages[i];
        let ghost before = analysis.seen();
        let ghost asked = asked_before(pages@, i as nat);
        assert(with_layers(before, *page, 0) == Some(before));
        assert(came_to(pages@, flag, progress, i as int, 0));
        let stop = flag.raised(number);
        assert(stop_flag::answered(flag, asked, stop));
        if stop {
            assert(given_up_before(pages@, flag, progress, i as int));
            return Ok(None);
        }
        number = next_number(number, Ghost(asked));
        let mut k: usize = 0;
        while k < page.layers.len()
            invariant
                i < pages@.len(),
                *page == pages@[i as int],
                k <= page.layers@.len(),
                with_pages(pages@, i as nat) == Some(before),
                with_layers(before, *page, k as nat) == Some(analysis.seen()),
                flag.can_ask(),
                asked == asked_before(pages@, i as nat),
                shows_pages(progress, i as int),
                stop_flag::all_no(flag, asked),
                stop_flag::all_no(flag, asked + 1 + k as nat),
                number == stop_flag::number_of(asked + 1 + k as nat),
            decreases page.layers@.len() - k,
        {
            assert(came_to(pages@, flag, progress, i as int, k as int));
            let stop = flag.raised(number);
            assert(stop_flag::answered(flag, asked + 1 + k as nat, stop));
            if stop {
                assert(given_up_at(pages@, flag, progress, i as int, k as int));
                return Ok(None);
            }
            number = next_number(number, Ghost(asked + 1 + k as nat));
            match analysis.add_layer(page, k) {
                Ok(()) => {},
                Err(fault) => {
                    assert(with_layers(before, *page, (k + 1) as nat) is None);
                    assert(failed_at(pages@, flag, progress, i as int, k as int));
                    return Err(fault);
                },
            }
            assert(with_layers(before, *page, (k + 1) as nat) == Some(analysis.seen()));
            k += 1;
        }
        i += 1;
        show(i);
    }
    let ghost terms = analysis.terms@;
    let candidates = analysis.candidates();
    assert(with_pages(pages@, pages@.len()) == Some(notes(terms)));
    Ok(Some(candidates))
}

/// Proposes terms from the texts of the pages, unless a stop is asked for. Before each page and each
/// of its texts the flag is asked. After each page the number of pages that are done is shown. What
/// the flag shows rests on other threads.
pub fn analyze_terminology<F: FnMut(usize)>(
    pages: &Vec<PageTexts>,
    stop: &StopToken,
    progress: F,
) -> (r: Result<Option<Vec<GlossaryCandidate>>, TooManyTerms>)
    requires
        forall|n: usize| #[trigger] call_requires(progress, (n,)),
    ensures
        is_outcome(pages@, stop, progress, r),
{
    analyze_until(pages, stop, progress)
}

// ---------------------------------------------------------------------------------------------
// Laws
// ---------------------------------------------------------------------------------------------

/// The counts of a note fit together: a page is counted once, and only where the term was met. The
/// occurrences are counted up to a limit.
pub open spec fn fits(note: TermNote) -> bool {
    &&& note.count >= 1
    &&& note.pages.no_duplicates()
    &&& note.pages.len() >= 1
    &&& note.pages.len() <= note.count || note.count == u32::MAX
}

/// No two notes are of one term, every note is of a term, and the counts of each fit together.
pub open spec fn well_counted(seen: Seq<TermNote>) -> bool {
    &&& forall|i: int, j: int|
        0 <= i < j < seen.len() ==> (#[trigger] seen[i]).source != (#[trigger] seen[j]).source
    &&& forall|i: int|
        0 <= i < seen.len() ==> 2 <= (#[trigger] seen[i]).source.len() <= 32
            && !is_common(seen[i].source) && fits(seen[i])
    &&& seen.len() <= MAX_TERMS
}

proof fn lemma_recorded(
    seen: Seq<TermNote>,
    stretch: Seq<char>,
    following: Seq<char>,
    page: EntityId,
)
    requires
        well_counted(seen),
    ensures
        recorded(seen, stretch, following, page) matches Some(next) ==> well_counted(next),
{
    let source = term_of(stretch);
    lemma_place_of(seen, source);
    let (category, distinctive) = class_of(source, following);
    let i = place_of(seen, source);
    match recorded(seen, stretch, following, page) {
        Some(next) => {
            if next.len() == seen.len() && i < seen.len() && next != seen {
                assert forall|a: int, b: int| 0 <= a < b < next.len() implies (
                #[trigger] next[a]).source != (#[trigger] next[b]).source by {
                    assert(seen[a].source != seen[b].source);
                }
                assert(next[i] == once_more(seen[i], page, category, distinctive));
                assert(seen[i].pages.push(page).no_duplicates() || seen[i].pages.contains(page)) by {
                    let p = seen[i].pages;
                    if !p.contains(page) {
                        assert forall|x: int, y: int|
                            0 <= x < p.push(page).len() && 0 <= y < p.push(page).len() && x
                                != y implies p.push(page)[x] != p.push(page)[y] by {
                            if x < p.len() && y < p.len() {
                            } else if x < p.len() {
                                assert(p.contains(p[x]));
                            } else {
                                assert(p.contains(p[y]));
                            }
                        }
                    }
                }
                assert forall|a: int| 0 <= a < next.len() implies 2 <= (
                #[trigger] next[a]).source.len() <= 32 && !is_common(next[a].source)
                    && fits(next[a]) by {
                    assert(2 <= seen[a].source.len() <= 32);
                }
            } else if next.len() == seen.len() + 1 {
                assert forall|a: int, b: int| 0 <= a < b < next.len() implies (
                #[trigger] next[a]).source != (#[trigger] next[b]).source by {
                    if b < seen.len() {
                        assert(seen[a].source != seen[b].source);
                    } else {
                        assert(seen[a].source != source);
                    }
                }
                assert forall|a: int| 0 <= a < next.len() implies 2 <= (
                #[trigger] next[a]).source.len() <= 32 && !is_common(next[a].source)
                    && fits(next[a]) by {
                    if a < seen.len() {
                        assert(2 <= seen[a].source.len() <= 32);
                    }
                }
            }
        },
        None => {},
    }
}

proof fn lemma_with_runs(
    seen: Seq<TermNote>,
    t: Seq<char>,
    stretches: Seq<(int, int)>,
    page: EntityId,
)
    requires
        well_counted(seen),
    ensures
        with_runs(seen, t, stretches, page) matches Some(next) ==> well_counted(next),
    decreases stretches.len(),
{
    if stretches.len() > 0 {
        let stretch = t.subrange(stretches[0].0, stretches[0].1);
        let following = t.skip(stretches[0].1);
        lemma_recorded(seen, stretch, following, page);
        match recorded(seen, stretch, following, page) {
            Some(next) => lemma_with_runs(next, t, stretches.drop_first(), page),
            None => {},
        }
    }
}

proof fn lemma_with_layers(seen: Seq<TermNote>, page: PageTexts, n: nat)
    requires
        well_counted(seen),
    ensures
        with_layers(seen, page, n) matches Some(next) ==> well_counted(next),
    decreases n,
{
    if n > 0 {
        lemma_with_layers(seen, page, (n - 1) as nat);
        match (with_layers(seen, page, (n - 1) as nat), page.layers@[n - 1].source) {
            (Some(so_far), Some(source)) => {
                let t = normalize::text_form(source@);
                lemma_with_runs(so_far, t, runs(t, 0), page.page);
            },
            _ => {},
        }
    }
}

/// However the pages are, an analysis counts every term under one entry, takes no common word and
/// no word that is too short or too long, and counts a page at most once for a term.
pub proof fn lemma_analysis_is_well_counted(pages: Seq<PageTexts>, n: nat)
    ensures
        with_pages(pages, n) matches Some(seen) ==> well_counted(seen),
    decreases n,
{
    if n > 0 {
        lemma_analysis_is_well_counted(pages, (n - 1) as nat);
        match with_pages(pages, (n - 1) as nat) {
            Some(so_far) => lemma_with_layers(so_far, pages[n - 1], pages[n - 1].layers@.len()),
            None => {},
        }
    }
}

/// After `n` pages and a part of the page `page`, no term is on more pages than were seen.
spec fn within(seen: Seq<TermNote>, page: EntityId, n: nat) -> bool {
    forall|i: int|
        0 <= i < seen.len() ==> (#[trigger] seen[i]).pages.len() <= n || (seen[i].pages.len() <= n
            + 1 && seen[i].pages.contains(page))
}

proof fn lemma_recorded_within(
    seen: Seq<TermNote>,
    stretch: Seq<char>,
    following: Seq<char>,
    page: EntityId,
    n: nat,
)
    requires
        within(seen, page, n),
    ensures
        recorded(seen, stretch, following, page) matches Some(next) ==> within(next, page, n),
{
    match recorded(seen, stretch, following, page) {
        Some(next) => {
            lemma_place_of(seen, term_of(stretch));
            assert forall|i: int| 0 <= i < next.len() implies (#[trigger] next[i]).pages.len() <= n
                || (next[i].pages.len() <= n + 1 && next[i].pages.contains(page)) by {
                if i < seen.len() {
                    let old_pages = seen[i].pages;
                    if next[i] != seen[i] && !old_pages.contains(page) {
                        assert(old_pages.push(page)[old_pages.len() as int] == page);
                    }
                } else {
                    assert(next[i].pages[0] == page);
                }
            }
        },
        None => {},
    }
}

proof fn lemma_with_runs_within(
    seen: Seq<TermNote>,
    t: Seq<char>,
    stretches: Seq<(int, int)>,
    page: EntityId,
    n: nat,
)
    requires
        within(seen, page, n),
    ensures
        with_runs(seen, t, stretches, page) matches Some(next) ==> within(next, page, n),
    decreases stretches.len(),
{
    if stretches.len() > 0 {
        let stretch = t.subrange(stretches[0].0, stretches[0].1);
        let following = t.skip(stretches[0].1);
        lemma_recorded_within(seen, stretch, following, page, n);
        match recorded(seen, stretch, following, page) {
            Some(next) => lemma_with_runs_within(next, t, stretches.drop_first(), page, n),
            None => {},
        }
    }
}

proof fn lemma_with_layers_within(seen: Seq<TermNote>, page: PageTexts, k: nat, n: nat)
    requires
        within(seen, page.page, n),
    ensures
        with_layers(seen, page, k) matches Some(next) ==> within(next, page.page, n),
    decreases k,
{
    if k > 0 {
        lemma_with_layers_within(seen, page, (k - 1) as nat, n);
        match (with_layers(seen, page, (k - 1) as nat), page.layers@[k - 1].source) {
            (Some(so_far), Some(source)) => {
                let t = normalize::text_form(source@);
                lemma_with_runs_within(so_far, t, runs(t, 0), page.page, n);
            },
            _ => {},
        }
    }
}

proof fn lemma_pages_within(pages: Seq<PageTexts>, n: nat)
    ensures
        with_pages(pages, n) matches Some(seen) ==> forall|i: int|
            0 <= i < seen.len() ==> (#[trigger] seen[i]).pages.len() <= n,
    decreases n,
{
    if n > 0 {
        lemma_pages_within(pages, (n - 1) as nat);
        match with_pages(pages, (n - 1) as nat) {
            Some(so_far) => {
                let page = pages[n - 1];
                lemma_with_layers_within(so_far, page, page.layers@.len(), (n - 1) as nat);
            },
            None => {},
        }
    }
}

proof fn lemma_notable_among(terms: Seq<TermStatistics>, term: TermStatistics)
    requires
        notable(terms).contains(term),
    ensures
        terms.contains(term),
    decreases terms.len(),
{
    if terms.len() > 0 {
        let kept = notable(terms.drop_last());
        if is_notable(terms.last()) && term == terms.last() {
            assert(terms[terms.len() - 1] == term);
        } else {
            let k = choose|k: int| 0 <= k < notable(terms).len() && notable(terms)[k] == term;
            assert(kept[k] == term);
            lemma_notable_among(terms.drop_last(), term);
            let j = choose|j: int|
                0 <= j < terms.drop_last().len() && terms.drop_last()[j] == term;
            assert(terms[j] == term);
        }
    }
}

/// A term that is proposed was met, on at least one page, and on no more pages than it was met.
pub proof fn lemma_proposed_terms_were_met(
    pages: Seq<PageTexts>,
    candidates: Seq<GlossaryCandidate>,
)
    requires
        pages.len() <= u32::MAX,
        is_analysis(pages, candidates),
    ensures
        forall|i: int|
            0 <= i < candidates.len() ==> 1 <= (#[trigger] candidates[i]).page_count
                <= candidates[i].occurrences && candidates[i].page_count <= pages.len(),
{
    let terms = choose|terms: Seq<TermStatistics>|
        with_pages(pages, pages.len()) == Some(#[trigger] notes(terms)) && proposed(
            terms,
            candidates,
        );
    lemma_analysis_is_well_counted(pages, pages.len());
    lemma_pages_within(pages, pages.len());
    let ranked = order::arranged(notable(terms));
    order::lemma_arranged(notable(terms));
    assert forall|i: int| 0 <= i < candidates.len() implies 1 <= (
    #[trigger] candidates[i]).page_count <= candidates[i].occurrences && candidates[i].page_count
        <= pages.len() by {
        let term = ranked[i];
        assert(proposes(candidates[i], term));
        assert(ranked.contains(term));
        lemma_notable_among(terms, term);
        let k = choose|k: int| 0 <= k < terms.len() && terms[k] == term;
        assert(notes(terms)[k] == term.note());
        assert(fits(term.note()));
    }
}

/// An analysis that failed has too many terms on its pages, and one that was given up was given up at
/// the first question that was answered yes.
pub proof fn lemma_outcomes<S: StopFlag, F: FnMut(usize)>(
    pages: Seq<PageTexts>,
    flag: &S,
    progress: F,
    r: Result<Option<Vec<GlossaryCandidate>>, TooManyTerms>,
)
    requires
        is_outcome(pages, flag, progress, r),
    ensures
        r is Err ==> with_pages(pages, pages.len()) is None,
        r matches Ok(None) ==> exists|yes: nat|
            {
                &&& yes < asked_before(pages, pages.len())
                &&& #[trigger] stop_flag::answered(flag, yes, true)
                &&& stop_flag::all_no(flag, yes)
            },
{
    match r {
        Ok(Some(_)) => {},
        Ok(None) => {
            if exists|page: int| #[trigger] given_up_before(pages, flag, progress, page) {
                let page = choose|page: int| #[trigger]
                    given_up_before(pages, flag, progress, page);
                lemma_asked_before(pages, page as nat, pages.len());
                assert(stop_flag::answered(flag, asked_before(pages, page as nat), true));
            } else {
                let (page, layer) = choose|page: int, layer: int| #[trigger]
                    given_up_at(pages, flag, progress, page, layer);
                lemma_asked_before(pages, page as nat, pages.len());
                assert(stop_flag::answered(
                    flag,
                    (asked_before(pages, page as nat) + 1 + layer) as nat,
                    true,
                ));
            }
        },
        Err(_) => {
            let (page, layer) = choose|page: int, layer: int| #[trigger]
                failed_at(pages, flag, progress, page, layer);
            let seen = with_pages(pages, page as nat)->0;
            lemma_layers_fail(seen, pages[page], (layer + 1) as nat, pages[page].layers@.len());
            assert(with_pages(pages, (page + 1) as nat) is None);
            lemma_pages_fail(pages, (page + 1) as nat, pages.len());
        },
    }
}

proof fn lemma_asked_before(pages: Seq<PageTexts>, m: nat, n: nat)
    requires
        m < n <= pages.len(),
    ensures
        asked_before(pages, m) + 1 + pages[m as int].layers@.len() <= asked_before(pages, n),
    decreases n,
{
    if m + 1 < n {
        lemma_asked_before(pages, m, (n - 1) as nat);
    }
}

impl TooManyTerms {
    /// What is said of the fault.
    pub open spec fn says(self) -> Seq<char> {
        "terminology analysis found over 100000 distinct terms; use a smaller page scope"@
    }

    /// What is said of the fault.
    pub fn message(self) -> (r: &'static str)
        ensures
            r@ == self.says(),
    {
        "terminology analysis found over 100000 distinct terms; use a smaller page scope"
    }
}

// ---------------------------------------------------------------------------------------------
// What is counted and proposed
// ---------------------------------------------------------------------------------------------

/// Ideographs, Katakana and Latin letters each make terms of their own; Hiragana, digits, whitespace
/// and full stops end a term.
pub proof fn lemma_scripts(c: char)
    ensures
        0x3400 <= c as u32 <= 0x9fff ==> script_of(c) == 1,
        0x30a1 <= c as u32 <= 0x30fa ==> script_of(c) == 2,
        'a' <= c <= 'z' || 'A' <= c <= 'Z' ==> script_of(c) == 3,
        0x3041 <= c as u32 <= 0x309f ==> script_of(c) == 0,
        '0' <= c <= '9' || c == '.' || c == '!' || c == '?' ==> script_of(c) == 0,
        text::is_whitespace(c) ==> script_of(c) == 0,
        script_of('々') == 1,
        script_of('ー') == 2,
        script_of('・') == 2,
        script_of('-') == 3,
{
}

/// The stretches of a text from `i` on: each is of one script, none can be made longer at its end,
/// and they stand one behind the other.
pub proof fn lemma_runs(t: Seq<char>, i: int, k: int)
    requires
        0 <= i <= t.len(),
        0 <= k < runs(t, i).len(),
    ensures
        i <= runs(t, i)[k].0 < runs(t, i)[k].1 <= t.len(),
        forall|p: int|
            runs(t, i)[k].0 <= p < runs(t, i)[k].1 ==> script_of(#[trigger] t[p]) == script_of(
                t[runs(t, i)[k].0],
            ) && script_of(t[p]) != 0,
        runs(t, i)[k].1 < t.len() ==> script_of(t[runs(t, i)[k].1]) != script_of(
            t[runs(t, i)[k].0],
        ),
        k + 1 < runs(t, i).len() ==> runs(t, i)[k].1 <= runs(t, i)[k + 1].0,
    decreases t.len() - i,
{
    if script_of(t[i]) == 0 {
        lemma_runs(t, i + 1, k);
    } else {
        let end = run_end(t, i + 1, script_of(t[i]));
        lemma_run_end(t, i + 1, script_of(t[i]));
        lemma_run_of_one(t, i + 1, script_of(t[i]));
        let rest = runs(t, end);
        assert(runs(t, i) == seq![(i, end)] + rest);
        if k > 0 {
            lemma_runs(t, end, k - 1);
            assert(runs(t, i)[k] == rest[k - 1]);
            if k + 1 < runs(t, i).len() {
                assert(runs(t, i)[k + 1] == rest[k]);
            }
        } else if rest.len() > 0 {
            lemma_runs(t, end, 0);
            assert(runs(t, i)[1] == rest[0]);
        }
    }
}

proof fn lemma_run_of_one(t: Seq<char>, i: int, kind: int)
    requires
        0 <= i <= t.len(),
    ensures
        forall|p: int| i <= p < run_end(t, i, kind) ==> script_of(#[trigger] t[p]) == kind,
        run_end(t, i, kind) < t.len() ==> script_of(t[run_end(t, i, kind)]) != kind,
    decreases t.len() - i,
{
    if i < t.len() && script_of(t[i]) == kind {
        lemma_run_of_one(t, i + 1, kind);
    }
}

/// No character that may stand in a term is passed over: each stands in a stretch.
pub proof fn lemma_every_letter_is_in_a_run(t: Seq<char>, i: int, p: int) -> (k: int)
    requires
        0 <= i <= p < t.len(),
        script_of(t[p]) != 0,
    ensures
        0 <= k < runs(t, i).len(),
        runs(t, i)[k].0 <= p < runs(t, i)[k].1,
    decreases t.len() - i,
{
    if script_of(t[i]) == 0 {
        lemma_every_letter_is_in_a_run(t, i + 1, p)
    } else {
        let end = run_end(t, i + 1, script_of(t[i]));
        lemma_run_end(t, i + 1, script_of(t[i]));
        let rest = runs(t, end);
        assert(runs(t, i) == seq![(i, end)] + rest);
        if p < end {
            0
        } else {
            let k = lemma_every_letter_is_in_a_run(t, end, p);
            assert(runs(t, i)[k + 1] == rest[k]);
            k + 1
        }
    }
}

/// What one occurrence of a term does. A stretch that is a term is counted once more under that
/// term, on its page, and nothing else changes; a term that is new stands behind the others, with
/// one occurrence on one page. A stretch that is no term changes nothing.
pub proof fn lemma_an_occurrence_is_counted(
    seen: Seq<TermNote>,
    stretch: Seq<char>,
    following: Seq<char>,
    page: EntityId,
    next: Seq<TermNote>,
) -> (k: int)
    requires
        forall|a: int, b: int|
            0 <= a < b < seen.len() ==> (#[trigger] seen[a]).source != (#[trigger] seen[b]).source,
        recorded(seen, stretch, following, page) == Some(next),
    ensures
        next.len() == seen.len() || next.len() == seen.len() + 1,
        forall|i: int| 0 <= i < seen.len() && i != k ==> #[trigger] next[i] == seen[i],
        0 <= k <= seen.len(),
        ({
            let source = term_of(stretch);
            let sure = class_of(source, following).1;
            let is_term = 2 <= source.len() <= 32 && !is_common(source) && (sure || !('a'
                <= source[0] <= 'z' || 'A' <= source[0] <= 'Z' || source[0] == '-'));
            &&& !is_term ==> next == seen
            &&& is_term ==> {
                &&& k < next.len()
                &&& next[k].source == source
                &&& next[k].pages.contains(page)
                &&& next[k].distinctive == (sure || k < seen.len() && seen[k].distinctive)
                &&& sure ==> next[k].category == class_of(source, following).0
                &&& k < seen.len() ==> {
                    &&& seen[k].source == source
                    &&& seen[k].count < u32::MAX ==> next[k].count == seen[k].count + 1
                    &&& seen[k].count == u32::MAX ==> next[k].count == u32::MAX
                    &&& forall|p: EntityId|
                        p != page ==> (#[trigger] next[k].pages.contains(p)
                            <==> seen[k].pages.contains(p))
                    &&& !sure && seen[k].distinctive ==> next[k].category == seen[k].category
                    &&& !sure && !seen[k].distinctive ==> next[k].category == class_of(
                        source,
                        following,
                    ).0
                }
                &&& k == seen.len() ==> {
                    &&& next[k].count == 1
                    &&& next[k].pages == seq![page]
                    &&& next[k].category == class_of(source, following).0
                    &&& forall|i: int|
                        0 <= i < seen.len() ==> (#[trigger] seen[i]).source != source
                }
            }
        }),
{
    let source = term_of(stretch);
    lemma_place_of(seen, source);
    let i = place_of(seen, source);
    let (category, distinctive) = class_of(source, following);
    if 2 <= source.len() <= 32 {
        lemma_scripts(source[0]);
    }
    if next != seen && i < seen.len() {
        let was = seen[i].pages;
        let now = next[i].pages;
        assert(next[i] == once_more(seen[i], page, category, distinctive));
        if !was.contains(page) {
            assert(now[was.len() as int] == page);
            assert forall|p: EntityId| p != page implies (#[trigger] now.contains(p)
                <==> was.contains(p)) by {
                if was.contains(p) {
                    let q = choose|q: int| 0 <= q < was.len() && was[q] == p;
                    assert(now[q] == p);
                }
                if now.contains(p) {
                    let q = choose|q: int| 0 <= q < now.len() && now[q] == p;
                    assert(was[q] == p);
                }
            }
        }
    } else if i == seen.len() && next.len() == seen.len() + 1 {
        assert(next[i].pages[0] == page);
    }
    i
}

/// A text is counted once on a page, however many layers show it: a layer that shows a text of an
/// earlier layer adds nothing, and so does a layer without a text; any other adds what its text
/// adds.
pub proof fn lemma_a_text_is_counted_once(
    seen: Seq<TermNote>,
    page: PageTexts,
    n: nat,
    so_far: Seq<TermNote>,
)
    requires
        n < page.layers@.len(),
        with_layers(seen, page, n) == Some(so_far),
    ensures
        (exists|j: int|
            0 <= j < n && (#[trigger] page.layers@[j]).content == page.layers@[n as int].content)
            ==> with_layers(seen, page, n + 1) == Some(so_far),
        page.layers@[n as int].source is None ==> with_layers(seen, page, n + 1) == Some(so_far),
        (forall|j: int|
            0 <= j < n ==> (#[trigger] page.layers@[j]).content != page.layers@[n as int].content)
            && page.layers@[n as int].source is Some ==> with_layers(seen, page, n + 1)
            == with_text(so_far, page.layers@[n as int].source->0@, page.page),
{
}

/// The proposals. Each is for a term that was met, with its category, how often it was met and on
/// how many pages. Each such term is one that something sets apart, or that was met twice; and while
/// there are fewer than 5000 proposals, every such term is proposed.
pub proof fn lemma_what_is_proposed(terms: Seq<TermStatistics>, candidates: Seq<GlossaryCandidate>)
    requires
        proposed(terms, candidates),
    ensures
        candidates.len() <= 5000,
        forall|i: int|
            0 <= i < candidates.len() ==> exists|k: int|
                {
                    &&& 0 <= k < terms.len()
                    &&& (#[trigger] terms[k]).source == (#[trigger] candidates[i]).source
                    &&& terms[k].category == candidates[i].category
                    &&& terms[k].count == candidates[i].occurrences
                    &&& terms[k].pages@.len() <= u32::MAX ==> candidates[i].page_count
                        == terms[k].pages@.len()
                    &&& terms[k].distinctive || terms[k].count >= 2 || terms[k].pages@.len() >= 2
                    &&& candidates[i].suggested_target@.len() == 0
                },
        forall|k: int|
            0 <= k < terms.len() && ((#[trigger] terms[k]).distinctive || terms[k].count >= 2
                || terms[k].pages@.len() >= 2) && candidates.len() < 5000 ==> exists|i: int|
                {
                    &&& 0 <= i < candidates.len()
                    &&& (#[trigger] candidates[i]).source == terms[k].source
                    &&& candidates[i].category == terms[k].category
                    &&& candidates[i].occurrences == terms[k].count
                },
{
    let kept = notable(terms);
    let ranked = order::arranged(kept);
    order::lemma_arranged(kept);
    assert forall|i: int| 0 <= i < candidates.len() implies exists|k: int|
        {
            &&& 0 <= k < terms.len()
            &&& (#[trigger] terms[k]).source == (#[trigger] candidates[i]).source
            &&& terms[k].category == candidates[i].category
            &&& terms[k].count == candidates[i].occurrences
            &&& terms[k].pages@.len() <= u32::MAX ==> candidates[i].page_count
                == terms[k].pages@.len()
            &&& terms[k].distinctive || terms[k].count >= 2 || terms[k].pages@.len() >= 2
            &&& candidates[i].suggested_target@.len() == 0
        } by {
        assert(proposes(candidates[i], ranked[i]));
        assert(ranked.contains(ranked[i]));
        assert(kept.contains(ranked[i]));
        let k = lemma_notable_place(terms, ranked[i]);
        assert(terms[k].source == candidates[i].source);
    }
    assert forall|k: int|
        0 <= k < terms.len() && ((#[trigger] terms[k]).distinctive || terms[k].count >= 2
            || terms[k].pages@.len() >= 2) && candidates.len() < 5000 implies exists|i: int|
        {
            &&& 0 <= i < candidates.len()
            &&& (#[trigger] candidates[i]).source == terms[k].source
            &&& candidates[i].category == terms[k].category
            &&& candidates[i].occurrences == terms[k].count
        } by {
        lemma_notable_has(terms, k);
        assert(ranked.contains(terms[k]));
        let i = choose|i: int| 0 <= i < ranked.len() && ranked[i] == terms[k];
        assert(proposes(candidates[i], ranked[i]));
    }
}

proof fn lemma_notable_place(terms: Seq<TermStatistics>, term: TermStatistics) -> (k: int)
    requires
        notable(terms).contains(term),
    ensures
        0 <= k < terms.len(),
        terms[k] == term,
        term.distinctive || term.count >= 2 || term.pages@.len() >= 2,
    decreases terms.len(),
{
    let last = terms.len() - 1;
    if is_notable(terms.last()) && term == terms.last() {
        last
    } else {
        let q = choose|q: int| 0 <= q < notable(terms).len() && notable(terms)[q] == term;
        assert(notable(terms.drop_last())[q] == term);
        lemma_notable_place(terms.drop_last(), term)
    }
}

proof fn lemma_notable_has(terms: Seq<TermStatistics>, k: int)
    requires
        0 <= k < terms.len(),
        terms[k].distinctive || terms[k].count >= 2 || terms[k].pages@.len() >= 2,
    ensures
        notable(terms).contains(terms[k]),
    decreases terms.len(),
{
    let head = notable(terms.drop_last());
    if k == terms.len() - 1 {
        assert(notable(terms)[head.len() as int] == terms[k]);
    } else {
        lemma_notable_has(terms.drop_last(), k);
        let q = choose|q: int| 0 <= q < head.len() && head[q] == terms[k];
        assert(notable(terms)[q] == terms[k]);
    }
}

/// The proposals stand in order: a term on more pages before one on fewer; on as many pages, one
/// that something sets apart before one that nothing does, and one that was met more often before
/// one that was met less often.
pub proof fn lemma_proposals_are_ranked(
    terms: Seq<TermStatistics>,
    candidates: Seq<GlossaryCandidate>,
    i: int,
    j: int,
)
    requires
        proposed(terms, candidates),
        forall|k: int| 0 <= k < terms.len() ==> (#[trigger] terms[k]).pages@.len() <= u32::MAX,
        0 <= i < j < candidates.len(),
    ensures
        candidates[i].page_count >= candidates[j].page_count,
        exists|a: int, b: int|
            {
                &&& 0 <= a < terms.len()
                &&& 0 <= b < terms.len()
                &&& (#[trigger] terms[a]).source == candidates[i].source
                &&& (#[trigger] terms[b]).source == candidates[j].source
                &&& terms[a].pages@.len() == terms[b].pages@.len() ==> terms[a].distinctive
                    || !terms[b].distinctive
                &&& terms[a].pages@.len() == terms[b].pages@.len() && terms[a].distinctive
                    == terms[b].distinctive ==> terms[a].count >= terms[b].count
            },
{
    let kept = notable(terms);
    let ranked = order::arranged(kept);
    order::lemma_arranged(kept);
    assert(proposes(candidates[i], ranked[i]));
    assert(proposes(candidates[j], ranked[j]));
    assert(ranked.contains(ranked[i]) && ranked.contains(ranked[j]));
    let a = lemma_notable_place(terms, ranked[i]);
    let b = lemma_notable_place(terms, ranked[j]);
    assert(ranked[i].ranks(ranked[j]));
    assert(terms[a].source == candidates[i].source);
    assert(terms[b].source == candidates[j].source);
}

/// A name that is addressed is a person, whatever it ends in, and so is a family name.
pub proof fn lemma_people(source: Seq<char>, following: Seq<char>)
    ensures
        following.len() >= 1 && (following[0] == '君' || following[0] == '様' || following[0] == '氏'
            || following[0] == '殿') ==> class_of(source, following) == (
            GlossaryCategory::Person,
            true,
        ),
        following.len() >= 2 && (following[0] == 'さ' && following[1] == 'ん' || following[0] == 'く'
            && following[1] == 'ん') ==> class_of(source, following) == (
            GlossaryCategory::Person,
            true,
        ),
        following.len() >= 3 && following[0] == 'ち' && following[1] == 'ゃ' && following[2] == 'ん'
            ==> class_of(source, following) == (GlossaryCategory::Person, true),
        source == "高橋"@ || source == "田中"@ || source == "佐藤"@ || source == "鈴木"@ || source
            == "渡辺"@ || source == "伊藤"@ || source == "加藤"@ || source == "山田"@ || source
            == "山本"@ || source == "小林"@ || source == "中村"@ || source == "吉田"@ ==> class_of(
            source,
            following,
        ) == (GlossaryCategory::Person, true),
{
    reveal_strlit("さん");
    reveal_strlit("ちゃん");
    reveal_strlit("くん");
    reveal_strlit("君");
    reveal_strlit("様");
    reveal_strlit("氏");
    reveal_strlit("殿");
    if following.len() >= 1 {
        assert(following.subrange(0, 1) =~= seq![following[0]]);
        assert("君"@ =~= seq!['君']);
        assert("様"@ =~= seq!['様']);
        assert("氏"@ =~= seq!['氏']);
        assert("殿"@ =~= seq!['殿']);
    }
    if following.len() >= 2 {
        assert(following.subrange(0, 2) =~= seq![following[0], following[1]]);
        assert("さん"@ =~= seq!['さ', 'ん']);
        assert("くん"@ =~= seq!['く', 'ん']);
    }
    if following.len() >= 3 {
        assert(following.subrange(0, 3) =~= seq![following[0], following[1], following[2]]);
        assert("ちゃん"@ =~= seq!['ち', 'ゃ', 'ん']);
    }
}

proof fn lemma_suffix_last(s: Seq<char>, suffix: Seq<char>)
    requires
        suffix.len() > 0,
    ensures
        text::has_suffix(s, suffix) ==> s.len() > 0 && s.last() == suffix.last(),
        suffix.len() == 1 && s.len() > 0 && s.last() == suffix[0] ==> text::has_suffix(s, suffix),
{
    let at = s.len() - suffix.len();
    if text::has_suffix(s, suffix) {
        assert(s.subrange(at, s.len() as int)[suffix.len() - 1] == suffix.last());
    }
    if suffix.len() == 1 && s.len() > 0 && s.last() == suffix[0] {
        assert(s.subrange(at, s.len() as int) =~= suffix);
    }
}

/// What a term ends in gives its kind away, where it is no name of a person: a school, a company or
/// an army is an organization, a captain or a king a title, a town or a castle a place, an art or a
/// blow a skill, a sword or a potion an item; and such a term is set apart.
pub proof fn lemma_kinds_by_their_end(s: Seq<char>, following: Seq<char>)
    requires
        s.len() > 0,
        !addressed(following),
        !is_family_name(s),
    ensures
        s.last() == '院' || s.last() == '軍' ==> class_of(s, following) == (GlossaryCategory::Organization, true),
        text::has_suffix(s, "学園"@) || text::has_suffix(s, "会社"@) || text::has_suffix(s, "組合"@) || text::has_suffix(s, "協会"@) || text::has_suffix(s, "騎士団"@) ==> class_of(s, following) == (GlossaryCategory::Organization, true),
        s.last() == '姫' || s.last() == '王' ==> class_of(s, following) == (GlossaryCategory::Title, true),
        text::has_suffix(s, "隊長"@) || text::has_suffix(s, "先生"@) || text::has_suffix(s, "陛下"@) || text::has_suffix(s, "博士"@) || text::has_suffix(s, "団長"@) ==> class_of(s, following) == (GlossaryCategory::Title, true),
        s.last() == '市' || s.last() == '町' || s.last() == '村' || s.last() == '国' || s.last() == '城' || s.last() == '島' ==> class_of(s, following) == (GlossaryCategory::Place, true),
        s.last() == '術' || s.last() == '法' || s.last() == '斬' || s.last() == '撃' ==> class_of(s, following) == (GlossaryCategory::Skill, true),
        s.last() == '剣' || s.last() == '杖' || s.last() == '薬' || s.last() == '鎧' ==> class_of(s, following) == (GlossaryCategory::Item, true),
        (forall|i: int| 0 <= i < s.len() ==> 0x30a1 <= #[trigger] s[i] as u32 <= 0x30fa)
            ==> class_of(s, following) == (GlossaryCategory::Terminology, true),
        'a' <= s.last() <= 'z' && 'A' <= s[0] <= 'Z' ==> class_of(s, following) == (
            GlossaryCategory::Terminology,
            true,
        ),
        'a' <= s.last() <= 'z' && 'a' <= s[0] <= 'z' ==> class_of(s, following) == (
            GlossaryCategory::Terminology,
            false,
        ),
{
    reveal_strlit("院");
    lemma_suffix_last(s, "院"@);
    reveal_strlit("学園");
    lemma_suffix_last(s, "学園"@);
    reveal_strlit("会社");
    lemma_suffix_last(s, "会社"@);
    reveal_strlit("組合");
    lemma_suffix_last(s, "組合"@);
    reveal_strlit("協会");
    lemma_suffix_last(s, "協会"@);
    reveal_strlit("騎士団");
    lemma_suffix_last(s, "騎士団"@);
    reveal_strlit("軍");
    lemma_suffix_last(s, "軍"@);
    reveal_strlit("隊長");
    lemma_suffix_last(s, "隊長"@);
    reveal_strlit("先生");
    lemma_suffix_last(s, "先生"@);
    reveal_strlit("陛下");
    lemma_suffix_last(s, "陛下"@);
    reveal_strlit("博士");
    lemma_suffix_last(s, "博士"@);
    reveal_strlit("団長");
    lemma_suffix_last(s, "団長"@);
    reveal_strlit("姫");
    lemma_suffix_last(s, "姫"@);
    reveal_strlit("王");
    lemma_suffix_last(s, "王"@);
    reveal_strlit("市");
    lemma_suffix_last(s, "市"@);
    reveal_strlit("町");
    lemma_suffix_last(s, "町"@);
    reveal_strlit("村");
    lemma_suffix_last(s, "村"@);
    reveal_strlit("国");
    lemma_suffix_last(s, "国"@);
    reveal_strlit("城");
    lemma_suffix_last(s, "城"@);
    reveal_strlit("島");
    lemma_suffix_last(s, "島"@);
    reveal_strlit("術");
    lemma_suffix_last(s, "術"@);
    reveal_strlit("法");
    lemma_suffix_last(s, "法"@);
    reveal_strlit("斬");
    lemma_suffix_last(s, "斬"@);
    reveal_strlit("撃");
    lemma_suffix_last(s, "撃"@);
    reveal_strlit("剣");
    lemma_suffix_last(s, "剣"@);
    reveal_strlit("杖");
    lemma_suffix_last(s, "杖"@);
    reveal_strlit("薬");
    lemma_suffix_last(s, "薬"@);
    reveal_strlit("鎧");
    lemma_suffix_last(s, "鎧"@);
    if forall|i: int| 0 <= i < s.len() ==> 0x30a1 <= #[trigger] s[i] as u32 <= 0x30fa {
        assert(0x30a1 <= s[s.len() - 1] as u32 <= 0x30fa);
        assert forall|i: int| 0 <= i < s.len() implies script_of(#[trigger] s[i]) == 2 by {
            lemma_scripts(s[i]);
        }
    }
    assert(script_of(s[0]) == 2 || !(forall|i: int|
        0 <= i < s.len() ==> script_of(#[trigger] s[i]) == 2));
}

/// After each page the number of pages that are done was shown, from the first page on.
pub proof fn lemma_every_page_is_shown<F: FnMut(usize)>(progress: F, n: int, done: usize)
    requires
        shows_pages(progress, n),
        1 <= done <= n,
    ensures
        call_ensures(progress, (done,), ()),
{
}

} // verus!
