//! One batch: what is handed to the model, and what is made of the answer.
use crate::bulk_review::hints::quality_hints;
use crate::bulk_review::memory::{TranslationMemory, MAX_MEMORY_BYTES};
use crate::bulk_review::plan::{count_chars, BulkElement, BulkPage};
use crate::bulk_review::validate::{
    validate_review_response, ReviewFault, ReviewResponse, TranslationChange,
};
use crate::counts;
use crate::text;
use crate::text_map::TextMap;
use vstd::prelude::*;

verus! {

/// An element as the model sees it.
pub struct ReviewElement {
    pub id: String,
    /// Its place in the reading order of the page.
    pub order: usize,
    pub source: String,
    pub translation: Option<String>,
    /// Signs of noise in the translation.
    pub quality_hints: Vec<&'static str>,
}

/// A page as the model sees it.
pub struct ReviewPage {
    pub id: String,
    pub label: String,
    pub elements: Vec<ReviewElement>,
}

/// A batch that is ready for the model.
pub struct PreparedBatch {
    pub pages: Vec<ReviewPage>,
    /// The pages of the batch.
    pub target_pages: Vec<String>,
    /// The page that each element belongs to.
    pub element_to_page: TextMap<String>,
    pub element_count: usize,
    pub hints_count: usize,
    pub source_chars: usize,
    pub translation_chars: usize,
}

/// Why a batch cannot be prepared.
#[derive(Clone, Copy, Debug, PartialEq, Eq, Structural)]
pub enum PrepareFault {
    /// The project handed out no list of pages.
    InvalidShape,
    /// The page at this place has no id.
    MissingId(usize),
}

/// The characters, or none where there is no string.
pub open spec fn chars_or_empty(s: Option<String>) -> Seq<char> {
    match s {
        Some(s) => s@,
        None => Seq::empty(),
    }
}

/// The hints that a translation gives; none where there is no translation.
pub open spec fn hints_for(translation: Option<String>) -> Seq<Seq<char>> {
    match translation {
        Some(s) => crate::bulk_review::hints::hints_of(s@),
        None => Seq::empty(),
    }
}

impl ReviewElement {
    /// This is what the model sees of `element` at place `order`.
    pub open spec fn shows(self, element: BulkElement, order: int) -> bool {
        &&& self.id@ == chars_or_empty(element.id)
        &&& self.order == order
        &&& self.source@ == chars_or_empty(element.source)
        &&& self.translation == element.translation
        &&& self.quality_hints@.len() == hints_for(element.translation).len()
        &&& forall|i: int|
            0 <= i < self.quality_hints@.len() ==> (#[trigger] self.quality_hints@[i])@ == hints_for(
                element.translation,
            )[i]
    }
}

impl ReviewPage {
    /// This is what the model sees of `page`.
    pub open spec fn shows(self, page: BulkPage) -> bool {
        &&& page.id is Some
        &&& self.id == page.id->0
        &&& self.label@ == chars_or_empty(page.label)
        &&& self.elements@.len() == page.elements@.len()
        &&& forall|i: int|
            0 <= i < self.elements@.len() ==> (#[trigger] self.elements@[i]).shows(
                page.elements@[i],
                i,
            )
    }
}

/// How many hints the elements give.
pub open spec fn hint_total(elements: Seq<BulkElement>) -> nat
    decreases elements.len(),
{
    if elements.len() == 0 {
        0
    } else {
        hint_total(elements.drop_last()) + hints_for(elements.last().translation).len()
    }
}

/// The elements of the pages, page after page.
pub open spec fn all_elements(pages: Seq<BulkPage>) -> Seq<BulkElement>
    decreases pages.len(),
{
    if pages.len() == 0 {
        Seq::empty()
    } else {
        all_elements(pages.drop_last()) + pages.last().elements@
    }
}

/// The page that owns each element id, of two pages with one id the later.
pub open spec fn owners_of(
    map: Map<Seq<char>, Seq<char>>,
    elements: Seq<BulkElement>,
    page: Seq<char>,
) -> Map<Seq<char>, Seq<char>>
    decreases elements.len(),
{
    if elements.len() == 0 {
        map
    } else {
        owners_of(map, elements.drop_last(), page).insert(
            chars_or_empty(elements.last().id),
            page,
        )
    }
}

/// The page that owns each element id of the pages.
pub open spec fn all_owners(pages: Seq<BulkPage>) -> Map<Seq<char>, Seq<char>>
    decreases pages.len(),
{
    if pages.len() == 0 {
        Map::empty()
    } else {
        owners_of(
            all_owners(pages.drop_last()),
            pages.last().elements@,
            chars_or_empty(pages.last().id),
        )
    }
}

/// The values of a map as characters.
pub open spec fn map_texts(map: Map<Seq<char>, String>) -> Map<Seq<char>, Seq<char>> {
    map.map_values(|v: String| v@)
}

fn text_or_empty(s: &Option<String>) -> (r: String)
    ensures
        r@ == chars_or_empty(*s),
{
    match s {
        Some(s) => s.clone(),
        None => String::new(),
    }
}

fn copy_option(s: &Option<String>) -> (r: Option<String>)
    ensures
        r == *s,
{
    match s {
        Some(s) => Some(s.clone()),
        None => None,
    }
}

fn review_element(element: &BulkElement, order: usize) -> (r: ReviewElement)
    ensures
        r.shows(*element, order as int),
{
    let source = text_or_empty(&element.source);
    let hints = match &element.translation {
        Some(s) => quality_hints(source.as_str(), Some(s.as_str())),
        None => quality_hints(source.as_str(), None),
    };
    ReviewElement {
        id: text_or_empty(&element.id),
        order,
        source,
        translation: copy_option(&element.translation),
        quality_hints: hints,
    }
}

/// Counts of a batch in the making.
struct Tally {
    element_count: usize,
    hints_count: usize,
    source_chars: usize,
    translation_chars: usize,
}

impl Tally {
    spec fn counts(self, elements: Seq<BulkElement>) -> bool {
        &&& self.element_count == counts::clamped(elements.len())
        &&& self.hints_count == counts::clamped(hint_total(elements))
        &&& self.source_chars == counts::clamped(
            crate::bulk_review::plan::source_total(elements),
        )
        &&& self.translation_chars == counts::clamped(
            crate::bulk_review::plan::translation_total(elements),
        )
    }

    fn with(self, element: &BulkElement, hints: usize, Ghost(before): Ghost<Seq<BulkElement>>) -> (r:
        Self)
        requires
            self.counts(before),
            hints == hints_for(element.translation).len(),
        ensures
            r.counts(before.push(*element)),
    {
        assert(before.push(*element).drop_last() =~= before);
        Tally {
            element_count: counts::capped_sum(self.element_count, 1),
            hints_count: counts::capped_sum(self.hints_count, hints),
            source_chars: counts::capped_sum(self.source_chars, count_chars(&element.source)),
            translation_chars: counts::capped_sum(
                self.translation_chars,
                count_chars(&element.translation),
            ),
        }
    }
}

/// Adds one page to the batch.
fn prepare_page(
    page: &BulkPage,
    id: &String,
    owners: TextMap<String>,
    tally: Tally,
    Ghost(before): Ghost<Seq<BulkElement>>,
) -> (r: (ReviewPage, TextMap<String>, Tally))
    requires
        page.id == Some(*id),
        tally.counts(before),
    ensures
        r.0.shows(*page),
        map_texts(r.1@) == owners_of(map_texts(owners@), page.elements@, id@),
        r.2.counts(before + page.elements@),
{
    let mut owners = owners;
    let mut tally = tally;
    let mut elements: Vec<ReviewElement> = Vec::new();
    let ghost start = map_texts(owners@);
    let ghost all = page.elements@;
    let mut i: usize = 0;
    assert(all.take(0) =~= Seq::empty());
    assert(before + all.take(0) =~= before);
    while i < page.elements.len()
        invariant
            all == page.elements@,
            i <= all.len(),
            elements@.len() == i,
            forall|j: int| 0 <= j < i ==> (#[trigger] elements@[j]).shows(all[j], j),
            map_texts(owners@) == owners_of(start, all.take(i as int), id@),
            tally.counts(before + all.take(i as int)),
        decreases all.len() - i,
    {
        let element = review_element(&page.elements[i], i);
        proof {
            assert(all.take(i + 1).drop_last() =~= all.take(i as int));
            assert(all.take(i + 1).last() == all[i as int]);
            assert(before + all.take(i + 1) =~= (before + all.take(i as int)).push(all[i as int]));
        }
        let ghost was = owners@;
        let owner = id.clone();
        owners = owners.with(element.id.clone(), owner);
        assert(map_texts(owners@) =~= map_texts(was).insert(element.id@, owner@));
        tally = tally.with(
            &page.elements[i],
            element.quality_hints.len(),
            Ghost(before + all.take(i as int)),
        );
        elements.push(element);
        i += 1;
    }
    assert(all.take(i as int) =~= all);
    (ReviewPage { id: id.clone(), label: text_or_empty(&page.label), elements }, owners, tally)
}

/// Makes a batch of the pages that the project handed out.
pub fn prepare_batch(data: &Option<Vec<BulkPage>>) -> (r: Result<PreparedBatch, PrepareFault>)
    ensures
        data is None ==> r matches Err(PrepareFault::InvalidShape),
        data matches Some(pages) ==> match r {
            Ok(batch) => {
                &&& batch.pages@.len() == pages@.len()
                &&& batch.target_pages@.len() == pages@.len()
                &&& forall|i: int|
                    0 <= i < pages@.len() ==> (#[trigger] batch.pages@[i]).shows(pages@[i])
                &&& forall|i: int|
                    0 <= i < pages@.len() ==> Some(#[trigger] batch.target_pages@[i]) == pages@[i].id
                &&& map_texts(batch.element_to_page@) == all_owners(pages@)
                &&& batch.element_count == counts::clamped(all_elements(pages@).len())
                &&& batch.hints_count == counts::clamped(hint_total(all_elements(pages@)))
                &&& batch.source_chars == counts::clamped(
                    crate::bulk_review::plan::source_total(all_elements(pages@)),
                )
                &&& batch.translation_chars == counts::clamped(
                    crate::bulk_review::plan::translation_total(all_elements(pages@)),
                )
            },
            Err(PrepareFault::MissingId(i)) => {
                &&& i < pages@.len()
                &&& pages@[i as int].id is None
                &&& forall|j: int| 0 <= j < i ==> (#[trigger] pages@[j]).id is Some
            },
            Err(PrepareFault::InvalidShape) => false,
        },
{
    let pages = match data {
        Some(pages) => pages,
        None => return Err(PrepareFault::InvalidShape),
    };
    let ghost all = pages@;
    let mut review_pages: Vec<ReviewPage> = Vec::new();
    let mut target_pages: Vec<String> = Vec::new();
    let mut owners: TextMap<String> = TextMap::new();
    let mut tally = Tally {
        element_count: 0,
        hints_count: 0,
        source_chars: 0,
        translation_chars: 0,
    };
    let mut i: usize = 0;
    proof {
        assert(all.take(0) =~= Seq::empty());
        assert(map_texts(owners@) =~= Map::empty());
        assert(all_elements(all.take(0)) =~= Seq::empty());
    }
    while i < pages.len()
        invariant
            all == pages@,
            *data == Some(*pages),
            i <= all.len(),
            review_pages@.len() == i,
            target_pages@.len() == i,
            forall|j: int| 0 <= j < i ==> (#[trigger] review_pages@[j]).shows(all[j]),
            forall|j: int| 0 <= j < i ==> Some(#[trigger] target_pages@[j]) == all[j].id,
            forall|j: int| 0 <= j < i ==> (#[trigger] all[j]).id is Some,
            map_texts(owners@) == all_owners(all.take(i as int)),
            tally.counts(all_elements(all.take(i as int))),
        decreases all.len() - i,
    {
        proof {
            assert(all.take(i + 1).drop_last() =~= all.take(i as int));
            assert(all.take(i + 1).last() == all[i as int]);
        }
        let page = &pages[i];
        match &page.id {
            None => return Err(PrepareFault::MissingId(i)),
            Some(id) => {
                target_pages.push(id.clone());
                let (review, next_owners, next_tally) = prepare_page(
                    page,
                    id,
                    owners,
                    tally,
                    Ghost(all_elements(all.take(i as int))),
                );
                review_pages.push(review);
                owners = next_owners;
                tally = next_tally;
            },
        }
        i += 1;
    }
    assert(all.take(i as int) =~= all);
    Ok(
        PreparedBatch {
            pages: review_pages,
            target_pages,
            element_to_page: owners,
            element_count: tally.element_count,
            hints_count: tally.hints_count,
            source_chars: tally.source_chars,
            translation_chars: tally.translation_chars,
        },
    )
}

/// What the model is asked, given the pages as JSON text.
pub open spec fn prompt_text(
    instruction: Seq<char>,
    batch: Seq<Seq<char>>,
    memory: Seq<char>,
    pages_json: Seq<char>,
) -> Seq<char> {
    "Objective: "@ + instruction + "\nPages in this batch: "@ + text::join(batch, ", "@)
        + "\nTranslation memory (incremental updates only, do not repeat):\n"@ + (if memory.len()
        == 0 {
        "(none)"@
    } else {
        memory
    }) + "\nReview the pages below and return ONLY the structured JSON response.\n\n"@ + pages_json
}

/// What the model is asked, given the pages as JSON text.
pub fn review_prompt(
    instruction: &str,
    batch: &Vec<String>,
    memory: &TranslationMemory,
    pages_json: &str,
) -> (r: String)
    requires
        memory.wf(),
    ensures
        r@ == prompt_text(
            instruction@,
            text::texts(batch@),
            crate::bulk_review::memory::serialized(memory.notes()),
            pages_json@,
        ),
{
    let memory_text = memory.serialize();
    let mut s = text::joined("Objective: ", instruction);
    s.append("\nPages in this batch: ");
    let names = text::join_all(batch, ", ");
    s.append(names.as_str());
    s.append("\nTranslation memory (incremental updates only, do not repeat):\n");
    if memory_text.as_str().is_empty() {
        s.append("(none)");
    } else {
        s.append(memory_text.as_str());
    }
    s.append("\nReview the pages below and return ONLY the structured JSON response.\n\n");
    s.append(pages_json);
    s
}

/// What is applied of an answer, and what is remembered of it.
pub struct AcceptedReview {
    pub updates: Vec<TranslationChange>,
    pub memory: TranslationMemory,
}

/// The memory after an answer: the updates on top of what was known, cut to the limit.
pub open spec fn remembers(
    after: TranslationMemory,
    before: TranslationMemory,
    response: ReviewResponse,
) -> bool {
    crate::bulk_review::memory::are_kept_of(
        after.notes(),
        crate::bulk_review::memory::updated(before.map(), response.memory_updates@),
        MAX_MEMORY_BYTES as nat,
    )
}

/// Takes an answer as a whole, or refuses it as a whole.
pub fn accept_review(
    response: ReviewResponse,
    batch: &PreparedBatch,
    memory: &TranslationMemory,
) -> (r: Result<AcceptedReview, (ReviewFault, ReviewResponse)>)
    requires
        memory.wf(),
    ensures
        match crate::bulk_review::validate::review_fault(
            response,
            text::texts(batch.target_pages@),
            batch.element_to_page@,
            batch.element_to_page.order().len(),
        ) {
            Some(fault) => r == Err::<AcceptedReview, _>((fault, response)),
            None => r matches Ok(accepted) && {
                &&& accepted.updates == response.changes
                &&& accepted.memory.wf()
                &&& remembers(accepted.memory, *memory, response)
            },
        },
{
    match validate_review_response(&response, &batch.target_pages, &batch.element_to_page) {
        Err(fault) => Err((fault, response)),
        Ok(()) => {
            let ghost whole_response = response;
            let ReviewResponse { changes, memory_updates } = response;
            let updated = memory.copy().apply_updates(memory_updates);
            proof {
                let map = crate::bulk_review::memory::updated(
                    memory.map(),
                    whole_response.memory_updates@,
                );
                let whole = choose|whole: Seq<crate::bulk_review::memory::Note>| #[trigger]
                    crate::bulk_review::memory::are_notes_of(whole, map) && updated.notes()
                        == crate::bulk_review::memory::kept(whole, MAX_MEMORY_BYTES as nat);
                crate::bulk_review::memory::lemma_kept_twice(whole, MAX_MEMORY_BYTES as nat);
            }
            let bounded = updated.bounded(MAX_MEMORY_BYTES);
            Ok(AcceptedReview { updates: changes, memory: bounded })
        },
    }
}

// ---------------------------------------------------------------------------------------------
// Laws
// ---------------------------------------------------------------------------------------------

/// Every element of a batch is known by the page that it stands on, whichever page of the batch
/// that is: an element whose name no later page has belongs to its own page. A name that no element
/// has belongs to none.
pub proof fn lemma_an_element_belongs_to_its_page(
    pages: Seq<BulkPage>,
    batch: PreparedBatch,
    i: int,
    k: int,
)
    requires
        map_texts(batch.element_to_page@) == all_owners(pages),
        0 <= i < pages.len(),
        0 <= k < pages[i].elements@.len(),
        pages[i].id is Some,
        pages[i].elements@[k].id is Some,
        forall|j: int, m: int|
            i < j < pages.len() && 0 <= m < pages[j].elements@.len() ==> match (
            #[trigger] pages[j].elements@[m]).id {
                Some(other) => other@ != pages[i].elements@[k].id->0@,
                None => pages[i].elements@[k].id->0@.len() > 0,
            },
    ensures
        batch.element_to_page@.contains_key(pages[i].elements@[k].id->0@),
        batch.element_to_page@[pages[i].elements@[k].id->0@]@ == pages[i].id->0@,
{
    let e = pages[i].elements@[k].id->0@;
    assert forall|j: int, m: int|
        i < j < pages.len() && 0 <= m < pages[j].elements@.len() implies chars_or_empty(
        (#[trigger] pages[j].elements@[m]).id,
    ) != e by {}
    lemma_owner(pages, i, k, e);
    assert(map_texts(batch.element_to_page@).contains_key(e));
    assert(batch.element_to_page@.contains_key(e));
    assert(map_texts(batch.element_to_page@)[e] == batch.element_to_page@[e]@);
}

/// What a batch knows of elements are the elements of its pages: a name that belongs to a page is
/// the name of an element on a page of that name.
pub proof fn lemma_known_elements_are_there(
    pages: Seq<BulkPage>,
    batch: PreparedBatch,
    name: Seq<char>,
)
    requires
        map_texts(batch.element_to_page@) == all_owners(pages),
        forall|i: int| 0 <= i < pages.len() ==> (#[trigger] pages[i]).id is Some,
        batch.element_to_page@.contains_key(name),
    ensures
        exists|i: int, k: int|
            {
                &&& 0 <= i < pages.len()
                &&& 0 <= k < pages[i].elements@.len()
                &&& pages[i].id->0@ == batch.element_to_page@[name]@
                &&& match (#[trigger] pages[i].elements@[k]).id {
                    Some(id) => id@ == name,
                    None => name.len() == 0,
                }
            },
{
    assert(map_texts(batch.element_to_page@).contains_key(name));
    assert(map_texts(batch.element_to_page@)[name] == batch.element_to_page@[name]@);
    let (i, k) = lemma_owned(pages, name);
    assert(pages[i].id is Some);
    assert(match pages[i].elements@[k].id {
        Some(id) => id@ == name,
        None => name.len() == 0,
    });
}

proof fn lemma_owner(pages: Seq<BulkPage>, i: int, k: int, e: Seq<char>)
    requires
        0 <= i < pages.len(),
        0 <= k < pages[i].elements@.len(),
        chars_or_empty(pages[i].elements@[k].id) == e,
        forall|j: int, m: int|
            i < j < pages.len() && 0 <= m < pages[j].elements@.len() ==> chars_or_empty(
                (#[trigger] pages[j].elements@[m]).id,
            ) != e,
    ensures
        all_owners(pages).contains_key(e),
        all_owners(pages)[e] == chars_or_empty(pages[i].id),
    decreases pages.len(),
{
    let last = pages.len() - 1;
    let head = pages.drop_last();
    if i == last {
        lemma_owners_has(
            all_owners(head),
            pages[last].elements@,
            chars_or_empty(pages[last].id),
            k,
        );
    } else {
        assert forall|j: int, m: int|
            i < j < head.len() && 0 <= m < head[j].elements@.len() implies chars_or_empty(
            (#[trigger] head[j].elements@[m]).id,
        ) != e by {
            assert(head[j] == pages[j]);
            assert(chars_or_empty(pages[j].elements@[m].id) != e);
        }
        lemma_owner(head, i, k, e);
        assert forall|m: int| 0 <= m < pages[last].elements@.len() implies chars_or_empty(
            (#[trigger] pages[last].elements@[m]).id,
        ) != e by {}
        lemma_owners_keeps(
            all_owners(head),
            pages[last].elements@,
            chars_or_empty(pages[last].id),
            e,
        );
    }
}

proof fn lemma_owners_has(
    map: Map<Seq<char>, Seq<char>>,
    elements: Seq<BulkElement>,
    page: Seq<char>,
    k: int,
)
    requires
        0 <= k < elements.len(),
    ensures
        owners_of(map, elements, page).contains_key(chars_or_empty(elements[k].id)),
        owners_of(map, elements, page)[chars_or_empty(elements[k].id)] == page,
    decreases elements.len(),
{
    if k < elements.len() - 1 {
        lemma_owners_has(map, elements.drop_last(), page, k);
    }
}

proof fn lemma_owners_keeps(
    map: Map<Seq<char>, Seq<char>>,
    elements: Seq<BulkElement>,
    page: Seq<char>,
    e: Seq<char>,
)
    requires
        forall|m: int|
            0 <= m < elements.len() ==> chars_or_empty((#[trigger] elements[m]).id) != e,
    ensures
        owners_of(map, elements, page).contains_key(e) == map.contains_key(e),
        map.contains_key(e) ==> owners_of(map, elements, page)[e] == map[e],
    decreases elements.len(),
{
    if elements.len() > 0 {
        assert(chars_or_empty(elements[elements.len() - 1].id) != e);
        assert forall|m: int| 0 <= m < elements.drop_last().len() implies chars_or_empty(
            (#[trigger] elements.drop_last()[m]).id,
        ) != e by {
            assert(elements.drop_last()[m] == elements[m]);
        }
        lemma_owners_keeps(map, elements.drop_last(), page, e);
    }
}

proof fn lemma_owned(pages: Seq<BulkPage>, e: Seq<char>) -> (at: (int, int))
    requires
        all_owners(pages).contains_key(e),
    ensures
        0 <= at.0 < pages.len(),
        0 <= at.1 < pages[at.0].elements@.len(),
        chars_or_empty(pages[at.0].elements@[at.1].id) == e,
        chars_or_empty(pages[at.0].id) == all_owners(pages)[e],
    decreases pages.len(),
{
    let last = pages.len() - 1;
    let head = pages.drop_last();
    let elements = pages[last].elements@;
    if exists|m: int| 0 <= m < elements.len() && chars_or_empty((#[trigger] elements[m]).id) == e {
        let m = choose|m: int|
            0 <= m < elements.len() && chars_or_empty((#[trigger] elements[m]).id) == e;
        lemma_owners_has(all_owners(head), elements, chars_or_empty(pages[last].id), m);
        (last, m)
    } else {
        lemma_owners_keeps(all_owners(head), elements, chars_or_empty(pages[last].id), e);
        let at = lemma_owned(head, e);
        at
    }
}

/// What the model sees of a page is the page: its name and label, and each of its elements in its
/// place, with its name, its text and its translation as they are.
pub proof fn lemma_model_sees_the_page(page: BulkPage, shown: ReviewPage, k: int)
    requires
        shown.shows(page),
        0 <= k < page.elements@.len(),
    ensures
        page.id is Some && shown.id@ == page.id->0@,
        page.label is Some ==> shown.label@ == page.label->0@,
        page.label is None ==> shown.label@.len() == 0,
        shown.elements@.len() == page.elements@.len(),
        shown.elements@[k].order == k,
        page.elements@[k].id is Some ==> shown.elements@[k].id@ == page.elements@[k].id->0@,
        page.elements@[k].id is None ==> shown.elements@[k].id@.len() == 0,
        page.elements@[k].source is Some ==> shown.elements@[k].source@
            == page.elements@[k].source->0@,
        page.elements@[k].source is None ==> shown.elements@[k].source@.len() == 0,
        shown.elements@[k].translation == page.elements@[k].translation,
        page.elements@[k].translation is None ==> shown.elements@[k].quality_hints@.len() == 0,
{
    assert(shown.elements@[k].shows(page.elements@[k], k));
}

/// What a batch counts: its elements are those of all its pages, and one page more adds its own to
/// each of the counts.
pub proof fn lemma_batch_counts_all_pages(pages: Seq<BulkPage>, page: BulkPage)
    ensures
        all_elements(Seq::empty()).len() == 0,
        all_elements(pages.push(page)) == all_elements(pages) + page.elements@,
        all_elements(pages.push(page)).len() == all_elements(pages).len() + page.elements@.len(),
        hint_total(all_elements(pages.push(page))) == hint_total(all_elements(pages)) + hint_total(
            page.elements@,
        ),
{
    assert(pages.push(page).drop_last() =~= pages);
    lemma_hint_total_concat(all_elements(pages), page.elements@);
}

proof fn lemma_hint_total_concat(a: Seq<BulkElement>, b: Seq<BulkElement>)
    ensures
        hint_total(a + b) == hint_total(a) + hint_total(b),
    decreases b.len(),
{
    if b.len() == 0 {
        assert(a + b =~= a);
    } else {
        lemma_hint_total_concat(a, b.drop_last());
        assert((a + b).drop_last() =~= a + b.drop_last());
        assert((a + b).last() == b.last());
    }
}

/// What the model is asked begins with what the user asked for and ends with the pages.
pub proof fn lemma_prompt_begins_and_ends(
    instruction: Seq<char>,
    batch: Seq<Seq<char>>,
    memory: Seq<char>,
    pages_json: Seq<char>,
)
    ensures
        ({
            let prompt = prompt_text(instruction, batch, memory, pages_json);
            let head = "Objective: "@ + instruction;
            &&& prompt.take(head.len() as int) == head
            &&& prompt.skip(prompt.len() - pages_json.len()) == pages_json
        }),
{
    let prompt = prompt_text(instruction, batch, memory, pages_json);
    let head = "Objective: "@ + instruction;
    assert(prompt.take(head.len() as int) =~= head);
    assert(prompt.skip(prompt.len() - pages_json.len()) =~= pages_json);
}

} // verus!
