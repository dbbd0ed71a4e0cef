//! Grouping pages into batches by how much text they hold.
use crate::counts;
use crate::text;
use crate::text_map::TextMap;
use vstd::prelude::*;

verus! {

/// How many characters one batch may hold.
pub const BULK_INPUT_BUDGET_CHARS: usize = 20_000;

/// What an element adds to a batch beside its text.
pub const ESTIMATED_JSON_OVERHEAD_PER_ELEMENT: usize = 64;

/// What a page counts for where its text was not measured.
pub const UNMEASURED_PAGE_CHARS: usize = 1000;

/// An element of a page as the project hands it out; a field that is absent is `None`.
pub struct BulkElement {
    pub id: Option<String>,
    pub source: Option<String>,
    pub translation: Option<String>,
}

/// A page as the project hands it out.
pub struct BulkPage {
    pub id: Option<String>,
    pub label: Option<String>,
    pub elements: Vec<BulkElement>,
}

/// How much text a page holds.
#[derive(Clone, Copy, Debug, PartialEq, Eq, Structural)]
pub struct PageTextSummary {
    pub element_count: usize,
    pub source_chars: usize,
    pub translation_chars: usize,
}

/// Why the pages that the project handed out cannot be measured.
#[derive(Clone, Copy, Debug, PartialEq, Eq, Structural)]
pub enum SummaryFault {
    /// There is no list of pages.
    MissingPages,
    /// The page at this place has no id.
    MissingId(usize),
}

impl PageTextSummary {
    pub open spec fn spec_size(self) -> nat {
        (self.source_chars + self.translation_chars + self.element_count
            * ESTIMATED_JSON_OVERHEAD_PER_ELEMENT) as nat
    }
}

/// How many characters a page adds to a batch.
pub fn estimate_text_size(summary: &PageTextSummary) -> (r: usize)
    requires
        summary.spec_size() <= usize::MAX,
    ensures
        r == summary.spec_size(),
{
    summary.source_chars + summary.translation_chars + summary.element_count
        * ESTIMATED_JSON_OVERHEAD_PER_ELEMENT
}

// ---------------------------------------------------------------------------------------------
// Measuring
// ---------------------------------------------------------------------------------------------

/// The number of characters, or zero where there is no text.
pub open spec fn char_count(s: Option<String>) -> nat {
    match s {
        Some(s) => s@.len(),
        None => 0,
    }
}

pub open spec fn source_total(elements: Seq<BulkElement>) -> nat
    decreases elements.len(),
{
    if elements.len() == 0 {
        0
    } else {
        source_total(elements.drop_last()) + char_count(elements.last().source)
    }
}

pub open spec fn translation_total(elements: Seq<BulkElement>) -> nat
    decreases elements.len(),
{
    if elements.len() == 0 {
        0
    } else {
        translation_total(elements.drop_last()) + char_count(elements.last().translation)
    }
}

/// The measure of a page: its elements and their characters, each counted up to the largest
/// machine number.
pub open spec fn summary_of(page: BulkPage) -> PageTextSummary {
    PageTextSummary {
        element_count: page.elements@.len() as usize,
        source_chars: counts::clamped(source_total(page.elements@)),
        translation_chars: counts::clamped(translation_total(page.elements@)),
    }
}

/// The measures by id, of two pages with one id the later.
pub open spec fn summaries_of(pages: Seq<BulkPage>) -> Map<Seq<char>, PageTextSummary>
    decreases pages.len(),
{
    if pages.len() == 0 {
        Map::empty()
    } else {
        summaries_of(pages.drop_last()).insert(pages.last().id->0@, summary_of(pages.last()))
    }
}

/// The number of characters, or zero where there is no text.
pub(crate) fn count_chars(s: &Option<String>) -> (n: usize)
    ensures
        n == char_count(*s),
{
    match s {
        Some(s) => text::chars_of(s.as_str()).len(),
        None => 0,
    }
}

fn summarize(page: &BulkPage) -> (r: PageTextSummary)
    ensures
        r == summary_of(*page),
{
    let mut source_chars: usize = 0;
    let mut translation_chars: usize = 0;
    let mut i: usize = 0;
    let ghost e = page.elements@;
    assert(e.take(0) =~= Seq::empty());
    while i < page.elements.len()
        invariant
            e == page.elements@,
            i <= e.len(),
            source_chars == counts::clamped(source_total(e.take(i as int))),
            translation_chars == counts::clamped(translation_total(e.take(i as int))),
        decreases e.len() - i,
    {
        proof {
            assert(e.take(i + 1).drop_last() =~= e.take(i as int));
            assert(e.take(i + 1).last() == e[i as int]);
        }
        source_chars = counts::capped_sum(source_chars, count_chars(&page.elements[i].source));
        translation_chars = counts::capped_sum(translation_chars, count_chars(&page.elements[i].translation));
        i += 1;
    }
    assert(e.take(i as int) =~= e);
    PageTextSummary { element_count: page.elements.len(), source_chars, translation_chars }
}

/// The measures of the pages by id.
pub fn summaries_from_bulk(data: &Option<Vec<BulkPage>>) -> (r: Result<
    TextMap<PageTextSummary>,
    SummaryFault,
>)
    ensures
        data is None ==> r == Err::<TextMap<PageTextSummary>, _>(SummaryFault::MissingPages),
        data matches Some(pages) ==> match r {
            Ok(map) => {
                &&& forall|i: int| 0 <= i < pages@.len() ==> (#[trigger] pages@[i]).id is Some
                &&& map@ == summaries_of(pages@)
            },
            Err(SummaryFault::MissingId(i)) => {
                &&& i < pages@.len()
                &&& pages@[i as int].id is None
                &&& forall|j: int| 0 <= j < i ==> (#[trigger] pages@[j]).id is Some
            },
            Err(SummaryFault::MissingPages) => false,
        },
{
    match data {
        None => Err(SummaryFault::MissingPages),
        Some(pages) => {
            let mut map: TextMap<PageTextSummary> = TextMap::new();
            let mut i: usize = 0;
            assert(pages@.take(0) =~= Seq::empty());
            while i < pages.len()
                invariant
                    *data == Some(*pages),
                    i <= pages@.len(),
                    forall|j: int| 0 <= j < i ==> (#[trigger] pages@[j]).id is Some,
                    map@ == summaries_of(pages@.take(i as int)),
                decreases pages@.len() - i,
            {
                proof {
                    assert(pages@.take(i + 1).drop_last() =~= pages@.take(i as int));
                    assert(pages@.take(i + 1).last() == pages@[i as int]);
                }
                match &pages[i].id {
                    None => return Err(SummaryFault::MissingId(i)),
                    Some(id) => {
                        map = map.with(id.clone(), summarize(&pages[i]));
                    },
                }
                i += 1;
            }
            assert(pages@.take(i as int) =~= pages@);
            Ok(map)
        },
    }
}

// ---------------------------------------------------------------------------------------------
// Planning
// ---------------------------------------------------------------------------------------------

/// How many characters a page adds to a batch.
pub open spec fn page_size(
    summaries: Map<Seq<char>, PageTextSummary>,
    page: Seq<char>,
) -> nat {
    if summaries.contains_key(page) {
        summaries[page].spec_size()
    } else {
        UNMEASURED_PAGE_CHARS as nat
    }
}

/// How many characters a batch holds.
pub open spec fn batch_size(
    summaries: Map<Seq<char>, PageTextSummary>,
    batch: Seq<Seq<char>>,
) -> nat
    decreases batch.len(),
{
    if batch.len() == 0 {
        0
    } else {
        batch_size(summaries, batch.drop_last()) + page_size(summaries, batch.last())
    }
}

/// The page that starts the batch behind the `i`-th would have taken the `i`-th over the budget.
pub open spec fn full_at(
    summaries: Map<Seq<char>, PageTextSummary>,
    batches: Seq<Seq<Seq<char>>>,
    i: int,
) -> bool {
    batch_size(summaries, batches[i]) + page_size(summaries, batches[i + 1][0])
        > BULK_INPUT_BUDGET_CHARS
}

/// No batch is empty, one of several pages stays under the budget, and the page that starts a
/// batch would have taken the batch before it over the budget.
pub open spec fn well_planned(
    summaries: Map<Seq<char>, PageTextSummary>,
    batches: Seq<Seq<Seq<char>>>,
) -> bool {
    &&& forall|i: int| 0 <= i < batches.len() ==> (#[trigger] batches[i]).len() > 0
    &&& forall|i: int|
        0 <= i < batches.len() && (#[trigger] batches[i]).len() > 1 ==> batch_size(
            summaries,
            batches[i],
        ) <= BULK_INPUT_BUDGET_CHARS
    &&& forall|i: int| 0 <= i && i + 1 < batches.len() ==> #[trigger] full_at(summaries, batches, i)
}

/// The characters of the page names of each batch.
pub open spec fn batch_texts(batches: Seq<Vec<String>>) -> Seq<Seq<Seq<char>>> {
    Seq::new(batches.len(), |i: int| text::texts(batches[i]@))
}

/// Ends a batch.
fn flush(batches: &mut Vec<Vec<String>>, batch: Vec<String>, summaries: &TextMap<PageTextSummary>)
    requires
        well_planned(summaries@, batch_texts(old(batches)@)),
        batch@.len() > 0,
        batch@.len() > 1 ==> batch_size(summaries@, text::texts(batch@)) <= BULK_INPUT_BUDGET_CHARS,
        old(batches)@.len() > 0 ==> batch_size(summaries@, batch_texts(old(batches)@).last())
            + page_size(summaries@, batch@[0]@) > BULK_INPUT_BUDGET_CHARS,
    ensures
        well_planned(summaries@, batch_texts(final(batches)@)),
        final(batches)@.len() == old(batches)@.len() + 1,
        batch_texts(final(batches)@).last() == text::texts(batch@),
        batch_texts(final(batches)@).flatten() == batch_texts(old(batches)@).flatten()
            + text::texts(batch@),
{
    let ghost done = batch_texts(batches@);
    let ghost flushed = text::texts(batch@);
    batches.push(batch);
    proof {
        assert(batch_texts(batches@) =~= done.push(flushed));
        done.lemma_flatten_push(flushed);
        lemma_well_planned_push(summaries@, done, flushed);
    }
}

/// Groups the pages, each once and in their order, so that the batches stay under the budget.
pub fn plan_text_batches(pages: Vec<String>, summaries: &TextMap<PageTextSummary>) -> (r: Vec<
    Vec<String>,
>)
    requires
        forall|k: Seq<char>| #[trigger]
            summaries@.contains_key(k) ==> summaries@[k].spec_size() <= usize::MAX,
    ensures
        batch_texts(r@).flatten() == text::distinct(text::texts(pages@)),
        well_planned(summaries@, batch_texts(r@)),
{
    let ghost all = text::texts(pages@);
    let ghost sizes = summaries@;
    let mut batches: Vec<Vec<String>> = Vec::new();
    let mut current: Vec<String> = Vec::new();
    let mut current_size: usize = 0;
    let mut seen: Vec<String> = Vec::new();
    let mut i: usize = 0;
    proof {
        assert(all.take(0) =~= Seq::empty());
        assert(batch_texts(batches@) =~= Seq::empty());
        assert(text::texts(seen@) =~= Seq::empty());
        assert(batch_texts(batches@).flatten() + text::texts(current@) =~= Seq::empty());
    }
    while i < pages.len()
        invariant
            all == text::texts(pages@),
            sizes == summaries@,
            i <= pages@.len(),
            forall|k: Seq<char>| #[trigger]
                sizes.contains_key(k) ==> sizes[k].spec_size() <= usize::MAX,
            text::texts(seen@) == text::distinct(all.take(i as int)),
            batch_texts(batches@).flatten() + text::texts(current@) == text::texts(seen@),
            well_planned(sizes, batch_texts(batches@)),
            current_size == batch_size(sizes, text::texts(current@)),
            current_size <= BULK_INPUT_BUDGET_CHARS,
            batches@.len() > 0 ==> batch_size(sizes, batch_texts(batches@).last()) + (if current@.len()
                > 0 {
                page_size(sizes, current@[0]@)
            } else {
                0
            }) > BULK_INPUT_BUDGET_CHARS,
        decreases pages@.len() - i,
    {
        let ghost page_text = all[i as int];
        let ghost prefix = all.take(i as int);
        proof {
            assert(all.take(i + 1).drop_last() =~= prefix);
            assert(all.take(i + 1).last() == page_text);
        }
        if !text::among(&seen, pages[i].as_str()) {
            let page = pages[i].clone();
            let size: usize = match summaries.get(page.as_str()) {
                Some(summary) => estimate_text_size(summary),
                None => UNMEASURED_PAGE_CHARS,
            };
            let ghost seen_before = text::texts(seen@);
            seen.push(page.clone());
            assert(text::texts(seen@) =~= seen_before.push(page_text));
            if current.len() > 0 && counts::capped_sum(current_size, size) > BULK_INPUT_BUDGET_CHARS {
                flush(&mut batches, current, summaries);
                current = Vec::new();
                current_size = 0;
                assert(text::texts(current@) =~= Seq::empty());
                assert(batch_texts(batches@).flatten() + text::texts(current@) =~= seen_before);
            }
            let ghost done = batch_texts(batches@).flatten();
            let ghost open = text::texts(current@);
            assert(size == page_size(sizes, page_text));
            assert(current_size == batch_size(sizes, open));
            current.push(page);
            current_size = counts::capped_sum(current_size, size);
            assert(text::texts(current@).last() == page_text);
            proof {
                assert(text::texts(current@) =~= open.push(page_text));
                assert(text::texts(current@).drop_last() =~= open);
                assert(done + text::texts(current@) =~= (done + open).push(page_text));
            }
            if current.len() == 1 && current_size > BULK_INPUT_BUDGET_CHARS {
                flush(&mut batches, current, summaries);
                current = Vec::new();
                current_size = 0;
                assert(text::texts(current@) =~= Seq::empty());
                assert(batch_texts(batches@).flatten() + text::texts(current@) =~= batch_texts(
                    batches@,
                ).flatten());
            }
        }
        i += 1;
    }
    assert(all.take(i as int) =~= all);
    if current.len() > 0 {
        flush(&mut batches, current, summaries);
    } else {
        assert(batch_texts(batches@).flatten() + text::texts(current@) =~= batch_texts(
            batches@,
        ).flatten());
    }
    batches
}

proof fn lemma_well_planned_push(
    sizes: Map<Seq<char>, PageTextSummary>,
    done: Seq<Seq<Seq<char>>>,
    batch: Seq<Seq<char>>,
)
    requires
        well_planned(sizes, done),
        batch.len() > 0,
        batch.len() > 1 ==> batch_size(sizes, batch) <= BULK_INPUT_BUDGET_CHARS,
        done.len() > 0 ==> batch_size(sizes, done.last()) + page_size(sizes, batch[0])
            > BULK_INPUT_BUDGET_CHARS,
    ensures
        well_planned(sizes, done.push(batch)),
{
    let r = done.push(batch);
    assert forall|i: int| 0 <= i && i + 1 < r.len() implies #[trigger] full_at(sizes, r, i) by {
        if i + 1 == done.len() {
            assert(r[i] == done.last());
        } else {
            assert(full_at(sizes, done, i));
        }
    }
}

proof fn lemma_batch_size_concat(
    sizes: Map<Seq<char>, PageTextSummary>,
    a: Seq<Seq<char>>,
    b: Seq<Seq<char>>,
)
    ensures
        batch_size(sizes, a + b) == batch_size(sizes, a) + batch_size(sizes, b),
    decreases b.len(),
{
    if b.len() == 0 {
        assert(a + b =~= a);
    } else {
        lemma_batch_size_concat(sizes, a, b.drop_last());
        assert((a + b).drop_last() =~= a + b.drop_last());
        assert((a + b).last() == b.last());
    }
}

/// The first batch of one plan is no shorter than that of another plan of the same pages.
proof fn lemma_first_batch(
    sizes: Map<Seq<char>, PageTextSummary>,
    a: Seq<Seq<Seq<char>>>,
    b: Seq<Seq<Seq<char>>>,
)
    requires
        well_planned(sizes, a),
        well_planned(sizes, b),
        a.flatten() == b.flatten(),
        a.len() > 0,
        b.len() > 0,
    ensures
        a[0].len() >= b[0].len(),
{
    let pages = a.flatten();
    assert(pages == a[0] + a.drop_first().flatten());
    assert(pages == b[0] + b.drop_first().flatten());
    if a[0].len() < b[0].len() {
        // The page behind a[0] belongs to b[0]; a ended its batch there for want of room.
        let rest = a.drop_first();
        if rest.len() == 0 {
            assert(rest.flatten() =~= Seq::empty());
            assert(false);
        }
        assert(rest[0] == a[1]);
        assert(rest.flatten() == rest[0] + rest.drop_first().flatten());
        let n = a[0].len() as int;
        let next = a[1][0];
        assert(pages[n] == next) by {
            assert(pages[n] == rest.flatten()[0]);
        }
        assert(b[0].take(n) =~= a[0]) by {
            assert forall|i: int| 0 <= i < n implies b[0][i] == a[0][i] by {
                assert(pages[i] == a[0][i]);
                assert(pages[i] == b[0][i]);
            }
        }
        assert(b[0][n] == next);
        assert(b[0] =~= (a[0] + seq![next]) + b[0].skip(n + 1));
        lemma_batch_size_concat(sizes, a[0] + seq![next], b[0].skip(n + 1));
        lemma_batch_size_concat(sizes, a[0], seq![next]);
        assert(seq![next].drop_last() =~= Seq::empty());
        assert(batch_size(sizes, seq![next].drop_last()) == 0);
        assert(seq![next].last() == next);
        assert(batch_size(sizes, seq![next]) == page_size(sizes, next));
        assert(full_at(sizes, a, 0));
        assert(false);
    }
}

/// Two plans of the same pages begin with the same batch and go on with the same pages.
proof fn lemma_first_batch_same(
    sizes: Map<Seq<char>, PageTextSummary>,
    a: Seq<Seq<Seq<char>>>,
    b: Seq<Seq<Seq<char>>>,
)
    requires
        well_planned(sizes, a),
        well_planned(sizes, b),
        a.flatten() == b.flatten(),
        a.len() > 0,
        b.len() > 0,
    ensures
        a[0] == b[0],
        a.drop_first().flatten() == b.drop_first().flatten(),
{
    lemma_first_batch(sizes, a, b);
    lemma_first_batch(sizes, b, a);
    let pages = a.flatten();
    let n = a[0].len() as int;
    assert(pages == a[0] + a.drop_first().flatten());
    assert(pages == b[0] + b.drop_first().flatten());
    assert(a[0] =~= pages.take(n));
    assert(b[0] =~= pages.take(n));
    assert(a.drop_first().flatten() =~= pages.skip(n));
    assert(b.drop_first().flatten() =~= pages.skip(n));
}

/// The contract of [`plan_text_batches`] leaves no choice: two plans of the same pages are one.
pub proof fn lemma_plan_is_unique(
    sizes: Map<Seq<char>, PageTextSummary>,
    a: Seq<Seq<Seq<char>>>,
    b: Seq<Seq<Seq<char>>>,
)
    requires
        well_planned(sizes, a),
        well_planned(sizes, b),
        a.flatten() == b.flatten(),
    ensures
        a == b,
    decreases a.len(),
{
    if a.len() == 0 || b.len() == 0 {
        if a.len() > 0 {
            assert(a.flatten() == a[0] + a.drop_first().flatten());
        }
        if b.len() > 0 {
            assert(b.flatten() == b[0] + b.drop_first().flatten());
        }
        assert(a =~= b);
    } else {
        lemma_first_batch_same(sizes, a, b);
        lemma_well_planned_rest(sizes, a);
        lemma_well_planned_rest(sizes, b);
        lemma_plan_is_unique(sizes, a.drop_first(), b.drop_first());
        assert(a =~= seq![a[0]] + a.drop_first());
        assert(b =~= seq![b[0]] + b.drop_first());
    }
}

proof fn lemma_well_planned_rest(
    sizes: Map<Seq<char>, PageTextSummary>,
    a: Seq<Seq<Seq<char>>>,
)
    requires
        well_planned(sizes, a),
        a.len() > 0,
    ensures
        well_planned(sizes, a.drop_first()),
{
    let r = a.drop_first();
    assert forall|i: int| 0 <= i < r.len() implies (#[trigger] r[i]).len() > 0 by {
        assert(r[i] == a[i + 1]);
    }
    assert forall|i: int| 0 <= i < r.len() && (#[trigger] r[i]).len() > 1 implies batch_size(
        sizes,
        r[i],
    ) <= BULK_INPUT_BUDGET_CHARS by {
        assert(r[i] == a[i + 1]);
    }
    assert forall|i: int| 0 <= i && i + 1 < r.len() implies #[trigger] full_at(sizes, r, i) by {
        assert(full_at(sizes, a, i + 1));
    }
}

/// What a page counts for grows with what stands on it: an element more adds 64 and the characters
/// of its text and of its translation, while the counts can be written; a page without elements
/// counts for nothing.
pub proof fn lemma_an_element_adds_to_its_page(
    page: BulkPage,
    element: BulkElement,
    after: BulkPage,
)
    requires
        after.elements@ == page.elements@.push(element),
        after.elements@.len() <= usize::MAX,
        source_total(after.elements@) <= usize::MAX,
        translation_total(after.elements@) <= usize::MAX,
    ensures
        ({
            let source: nat = if element.source is Some {
                element.source->0@.len()
            } else {
                0
            };
            let translation: nat = if element.translation is Some {
                element.translation->0@.len()
            } else {
                0
            };
            &&& summary_of(after).element_count == summary_of(page).element_count + 1
            &&& summary_of(after).source_chars == summary_of(page).source_chars + source
            &&& summary_of(after).translation_chars == summary_of(page).translation_chars
                + translation
            &&& summary_of(after).spec_size() == summary_of(page).spec_size() + 64 + source
                + translation
        }),
        page.elements@.len() == 0 ==> summary_of(page).spec_size() == 0,
{
    assert(after.elements@.drop_last() =~= page.elements@);
    let n = summary_of(page).element_count as int;
    assert(summary_of(after).element_count * 64 == n * 64 + 64);
}

/// Each page is found in the measures by its name, with what it holds: a page whose name no later
/// page has is measured by its own elements.
pub proof fn lemma_each_page_is_measured(pages: Seq<BulkPage>, i: int)
    requires
        0 <= i < pages.len(),
        forall|j: int| 0 <= j < pages.len() ==> (#[trigger] pages[j]).id is Some,
        forall|j: int| i < j < pages.len() ==> (#[trigger] pages[j]).id->0@ != pages[i].id->0@,
    ensures
        summaries_of(pages).contains_key(pages[i].id->0@),
        summaries_of(pages)[pages[i].id->0@] == summary_of(pages[i]),
        pages[i].elements@.len() <= usize::MAX ==> summaries_of(pages)[pages[i].id->0@].element_count
            == pages[i].elements@.len(),
    decreases pages.len(),
{
    let last = pages.len() - 1;
    if i < last {
        let head = pages.drop_last();
        assert forall|j: int| 0 <= j < head.len() implies (#[trigger] head[j]).id is Some by {
            assert(head[j] == pages[j]);
        }
        assert forall|j: int| i < j < head.len() implies (#[trigger] head[j]).id->0@
            != head[i].id->0@ by {
            assert(head[j] == pages[j]);
        }
        lemma_each_page_is_measured(head, i);
        assert(pages[last].id->0@ != pages[i].id->0@);
    }
}

/// What a plan promises: no batch is empty; a batch of more than one page holds 20000 characters at
/// most; and no batch has room for the page that the next one starts with. A page that was not
/// measured counts for 1000 characters, and the pages of a batch add up.
pub proof fn lemma_planned_batches(
    sizes: Map<Seq<char>, PageTextSummary>,
    batches: Seq<Seq<Seq<char>>>,
    i: int,
)
    requires
        well_planned(sizes, batches),
        0 <= i < batches.len(),
    ensures
        batches[i].len() >= 1,
        batches[i].len() == 1 || batch_size(sizes, batches[i]) <= 20_000,
        i + 1 < batches.len() ==> batch_size(sizes, batches[i]) + batch_size(
            sizes,
            seq![batches[i + 1][0]],
        ) > 20_000,
        forall|page: Seq<char>|
            !sizes.contains_key(page) ==> #[trigger] batch_size(sizes, seq![page]) == 1000,
        forall|page: Seq<char>|
            sizes.contains_key(page) ==> #[trigger] batch_size(sizes, seq![page])
                == sizes[page].source_chars + sizes[page].translation_chars + 64
                * sizes[page].element_count,
        forall|a: Seq<Seq<char>>, b: Seq<Seq<char>>| #[trigger]
            batch_size(sizes, a + b) == batch_size(sizes, a) + batch_size(sizes, b),
{
    assert forall|page: Seq<char>| #[trigger] batch_size(sizes, seq![page]) == page_size(
        sizes,
        page,
    ) by {
        assert(seq![page].drop_last() =~= Seq::empty());
        assert(batch_size(sizes, seq![page].drop_last()) == 0);
        assert(seq![page].last() == page);
    }
    assert forall|a: Seq<Seq<char>>, b: Seq<Seq<char>>| #[trigger]
        batch_size(sizes, a + b) == batch_size(sizes, a) + batch_size(sizes, b) by {
        lemma_batch_size_concat(sizes, a, b);
    }
    if i + 1 < batches.len() {
        assert(full_at(sizes, batches, i));
    }
}

/// Every page is planned once: each page that is given stands in a batch, each page of a batch was
/// given, and no page stands in two places.
pub proof fn lemma_every_page_is_planned_once(pages: Seq<String>, batches: Seq<Vec<String>>)
    requires
        batch_texts(batches).flatten() == text::distinct(text::texts(pages)),
    ensures
        forall|p: int|
            0 <= p < pages.len() ==> exists|b: int, k: int|
                0 <= b < batches.len() && 0 <= k < batches[b]@.len() && (
                #[trigger] batches[b]@[k])@ == (#[trigger] pages[p])@,
        forall|b: int, k: int|
            0 <= b < batches.len() && 0 <= k < batches[b]@.len() ==> exists|p: int|
                0 <= p < pages.len() && (#[trigger] pages[p])@ == (#[trigger] batches[b]@[k])@,
        forall|b: int, k: int, c: int, m: int|
            0 <= b < batches.len() && 0 <= k < batches[b]@.len() && 0 <= c < batches.len() && 0 <= m
                < batches[c]@.len() && (#[trigger] batches[b]@[k])@ == (
            #[trigger] batches[c]@[m])@ ==> b == c && k == m,
{
    let all = text::texts(pages);
    let parts = batch_texts(batches);
    let flat = parts.flatten();
    text::lemma_distinct(all);
    assert forall|p: int| 0 <= p < pages.len() implies exists|b: int, k: int|
        0 <= b < batches.len() && 0 <= k < batches[b]@.len() && (#[trigger] batches[b]@[k])@ == (
        #[trigger] pages[p])@ by {
        assert(all[p] == pages[p]@);
        assert(all.contains(all[p]));
        assert(flat.contains(all[p]));
        let q = choose|q: int| 0 <= q < flat.len() && flat[q] == all[p];
        let (b, k) = lemma_flat_place(parts, q);
        assert(parts[b][k] == batches[b]@[k]@);
        assert(batches[b]@[k]@ == pages[p]@);
    }
    assert forall|b: int, k: int|
        0 <= b < batches.len() && 0 <= k < batches[b]@.len() implies exists|p: int|
        0 <= p < pages.len() && (#[trigger] pages[p])@ == (#[trigger] batches[b]@[k])@ by {
        let q = lemma_place_in_flat(parts, b, k);
        assert(parts[b][k] == batches[b]@[k]@);
        assert(flat.contains(flat[q]));
        assert(all.contains(flat[q]));
        let p = choose|p: int| 0 <= p < all.len() && all[p] == flat[q];
        assert(pages[p]@ == batches[b]@[k]@);
    }
    assert forall|b: int, k: int, c: int, m: int|
        0 <= b < batches.len() && 0 <= k < batches[b]@.len() && 0 <= c < batches.len() && 0 <= m
            < batches[c]@.len() && (#[trigger] batches[b]@[k])@ == (
        #[trigger] batches[c]@[m])@ implies b == c && k == m by {
        assert(parts[b][k] == batches[b]@[k]@);
        assert(parts[c][m] == batches[c]@[m]@);
        if b == c && k != m {
            lemma_flat_order(parts, b, k, m);
        } else if b < c {
            lemma_flat_apart(parts, b, k, c, m);
        } else if c < b {
            lemma_flat_apart(parts, c, m, b, k);
        }
    }
}

proof fn lemma_flat_place<T>(parts: Seq<Seq<T>>, q: int) -> (at: (int, int))
    requires
        0 <= q < parts.flatten().len(),
    ensures
        0 <= at.0 < parts.len(),
        0 <= at.1 < parts[at.0].len(),
        parts[at.0][at.1] == parts.flatten()[q],
    decreases parts.len(),
{
    if parts.len() == 0 {
        (0, 0)
    } else {
        let rest = parts.drop_first();
        assert(parts.flatten() == parts[0] + rest.flatten());
        if q < parts[0].len() {
            (0, q)
        } else {
            let (b, k) = lemma_flat_place(rest, q - parts[0].len());
            assert(rest[b] == parts[b + 1]);
            (b + 1, k)
        }
    }
}

proof fn lemma_place_in_flat<T>(parts: Seq<Seq<T>>, b: int, k: int) -> (q: int)
    requires
        0 <= b < parts.len(),
        0 <= k < parts[b].len(),
    ensures
        0 <= q < parts.flatten().len(),
        parts.flatten()[q] == parts[b][k],
        b == 0 ==> q == k,
        b > 0 ==> q >= parts[0].len(),
    decreases parts.len(),
{
    let rest = parts.drop_first();
    assert(parts.flatten() == parts[0] + rest.flatten());
    if b == 0 {
        k
    } else {
        assert(rest[b - 1] == parts[b]);
        let q = lemma_place_in_flat(rest, b - 1, k);
        q + parts[0].len()
    }
}

proof fn lemma_flat_order<T>(parts: Seq<Seq<T>>, b: int, k: int, m: int)
    requires
        parts.flatten().no_duplicates(),
        0 <= b < parts.len(),
        0 <= k < parts[b].len(),
        0 <= m < parts[b].len(),
        k != m,
    ensures
        parts[b][k] != parts[b][m],
    decreases b,
{
    let rest = parts.drop_first();
    let flat = parts.flatten();
    assert(flat == parts[0] + rest.flatten());
    if b == 0 {
        assert(flat[k] == parts[0][k]);
        assert(flat[m] == parts[0][m]);
    } else {
        assert(rest[b - 1] == parts[b]);
        assert(rest.flatten() =~= flat.skip(parts[0].len() as int));
        assert(rest.flatten().no_duplicates());
        lemma_flat_order(rest, b - 1, k, m);
    }
}

proof fn lemma_flat_apart<T>(parts: Seq<Seq<T>>, b: int, k: int, c: int, m: int)
    requires
        parts.flatten().no_duplicates(),
        0 <= b < c < parts.len(),
        0 <= k < parts[b].len(),
        0 <= m < parts[c].len(),
    ensures
        parts[b][k] != parts[c][m],
    decreases b,
{
    let rest = parts.drop_first();
    let flat = parts.flatten();
    assert(flat == parts[0] + rest.flatten());
    if b == 0 {
        assert(flat[k] == parts[0][k]);
        let q = lemma_place_in_flat(parts, c, m);
        assert(flat[q] == parts[c][m]);
    } else {
        assert(rest[b - 1] == parts[b]);
        assert(rest[c - 1] == parts[c]);
        assert(rest.flatten() =~= flat.skip(parts[0].len() as int));
        assert(rest.flatten().no_duplicates());
        lemma_flat_apart(rest, b - 1, k, c - 1, m);
    }
}

} // verus!
