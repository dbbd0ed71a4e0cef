//! Checking the model's answer before anything of it is applied.
use crate::bulk_review::memory::MemoryUpdate;
use crate::text;
use crate::text_map::TextMap;
use vstd::prelude::*;

verus! {

/// How many notes one answer may add to the memory.
pub const MAX_MEMORY_UPDATES: usize = 64;

/// How many characters a translation may have.
pub const MAX_CHANGE_CHARS: usize = 8192;

/// A new translation of an element.
pub struct TranslationChange {
    pub element: String,
    pub translation: String,
}

/// The model's answer: the elements that change, and what to remember.
pub struct ReviewResponse {
    pub changes: Vec<TranslationChange>,
    pub memory_updates: Vec<MemoryUpdate>,
}

/// What is wrong with a change.
#[derive(Clone, Copy, Debug, PartialEq, Eq, Structural)]
pub enum ChangeFault {
    /// It names no element.
    EmptyElement,
    /// It names an element that was not handed out.
    UnknownElement,
    /// Its element belongs to a page that is not in the batch.
    OutsideBatch,
    /// An earlier change is for the same element.
    Duplicate,
    /// Its translation is blank.
    EmptyTranslation,
    /// Its translation is too long.
    LongTranslation,
}

/// What is wrong with an answer.
#[derive(Clone, Copy, Debug, PartialEq, Eq, Structural)]
pub enum ReviewFault {
    /// There are more changes than elements.
    TooManyChanges,
    /// The change at this place is wrong.
    Change { index: usize, fault: ChangeFault },
    /// There are too many notes.
    TooManyMemoryUpdates,
    /// A note has a blank key or value.
    EmptyMemoryUpdate,
}

/// What is wrong with the change at `i`, the ones before it being right.
pub open spec fn fault_of_change(
    changes: Seq<TranslationChange>,
    i: int,
    pages: Seq<Seq<char>>,
    owners: Map<Seq<char>, String>,
) -> Option<ChangeFault> {
    let change = changes[i];
    if text::is_blank(change.element@) {
        Some(ChangeFault::EmptyElement)
    } else if !owners.contains_key(change.element@) {
        Some(ChangeFault::UnknownElement)
    } else if !pages.contains(owners[change.element@]@) {
        Some(ChangeFault::OutsideBatch)
    } else if exists|j: int| 0 <= j < i && (#[trigger] changes[j]).element@ == change.element@ {
        Some(ChangeFault::Duplicate)
    } else if text::is_blank(change.translation@) {
        Some(ChangeFault::EmptyTranslation)
    } else if change.translation@.len() > MAX_CHANGE_CHARS {
        Some(ChangeFault::LongTranslation)
    } else {
        None
    }
}

/// The first of the first `n` changes that is wrong.
pub open spec fn first_change_fault(
    changes: Seq<TranslationChange>,
    n: nat,
    pages: Seq<Seq<char>>,
    owners: Map<Seq<char>, String>,
) -> Option<ReviewFault>
    decreases n,
{
    if n == 0 {
        None
    } else {
        match first_change_fault(changes, (n - 1) as nat, pages, owners) {
            Some(fault) => Some(fault),
            None => match fault_of_change(changes, n - 1, pages, owners) {
                Some(fault) => Some(ReviewFault::Change { index: (n - 1) as usize, fault }),
                None => None,
            },
        }
    }
}

pub open spec fn some_blank_update(updates: Seq<MemoryUpdate>) -> bool {
    exists|i: int|
        0 <= i < updates.len() && (text::is_blank((#[trigger] updates[i]).key@) || text::is_blank(
            updates[i].value@,
        ))
}

/// What is wrong with an answer: the count of the changes, the first change that is wrong, the
/// count of the notes, and the notes, in that order.
pub open spec fn review_fault(
    response: ReviewResponse,
    pages: Seq<Seq<char>>,
    owners: Map<Seq<char>, String>,
    elements: nat,
) -> Option<ReviewFault> {
    if response.changes@.len() > elements {
        Some(ReviewFault::TooManyChanges)
    } else {
        match first_change_fault(response.changes@, response.changes@.len(), pages, owners) {
            Some(fault) => Some(fault),
            None => if response.memory_updates@.len() > MAX_MEMORY_UPDATES {
                Some(ReviewFault::TooManyMemoryUpdates)
            } else if some_blank_update(response.memory_updates@) {
                Some(ReviewFault::EmptyMemoryUpdate)
            } else {
                None
            },
        }
    }
}

fn change_fault(
    changes: &Vec<TranslationChange>,
    i: usize,
    target_pages: &Vec<String>,
    element_to_page: &TextMap<String>,
) -> (r: Option<ChangeFault>)
    requires
        i < changes@.len(),
    ensures
        r == fault_of_change(
            changes@,
            i as int,
            text::texts(target_pages@),
            element_to_page@,
        ),
{
    let change = &changes[i];
    if text::blank(change.element.as_str()) {
        return Some(ChangeFault::EmptyElement);
    }
    let page = match element_to_page.get(change.element.as_str()) {
        Some(page) => page,
        None => return Some(ChangeFault::UnknownElement),
    };
    if !text::among(target_pages, page.as_str()) {
        return Some(ChangeFault::OutsideBatch);
    }
    let mut j: usize = 0;
    while j < i
        invariant
            j <= i < changes@.len(),
            *change == changes@[i as int],
            !text::is_blank(change.element@),
            element_to_page@.contains_key(change.element@),
            text::texts(target_pages@).contains(element_to_page@[change.element@]@),
            forall|k: int| 0 <= k < j ==> (#[trigger] changes@[k]).element@ != change.element@,
        decreases i - j,
    {
        if text::same(changes[j].element.as_str(), change.element.as_str()) {
            return Some(ChangeFault::Duplicate);
        }
        j += 1;
    }
    if text::blank(change.translation.as_str()) {
        return Some(ChangeFault::EmptyTranslation);
    }
    if text::chars_of(change.translation.as_str()).len() > MAX_CHANGE_CHARS {
        return Some(ChangeFault::LongTranslation);
    }
    None
}

fn has_blank_update(updates: &Vec<MemoryUpdate>) -> (r: bool)
    ensures
        r == some_blank_update(updates@),
{
    let mut i: usize = 0;
    while i < updates.len()
        invariant
            i <= updates@.len(),
            forall|j: int|
                0 <= j < i ==> !text::is_blank((#[trigger] updates@[j]).key@) && !text::is_blank(
                    updates@[j].value@,
                ),
        decreases updates@.len() - i,
    {
        if text::blank(updates[i].key.as_str()) || text::blank(updates[i].value.as_str()) {
            return true;
        }
        i += 1;
    }
    false
}

/// Checks a whole answer against the elements that were handed out.
pub fn validate_review_response(
    response: &ReviewResponse,
    target_pages: &Vec<String>,
    element_to_page: &TextMap<String>,
) -> (r: Result<(), ReviewFault>)
    ensures
        r == (match review_fault(
            *response,
            text::texts(target_pages@),
            element_to_page@,
            element_to_page.order().len(),
        ) {
            Some(fault) => Err::<(), ReviewFault>(fault),
            None => Ok(()),
        }),
{
    let ghost pages = text::texts(target_pages@);
    let ghost owners = element_to_page@;
    if response.changes.len() > element_to_page.len() {
        return Err(ReviewFault::TooManyChanges);
    }
    let mut i: usize = 0;
    while i < response.changes.len()
        invariant
            i <= response.changes@.len() <= element_to_page.order().len(),
            pages == text::texts(target_pages@),
            owners == element_to_page@,
            first_change_fault(response.changes@, i as nat, pages, owners) is None,
        decreases response.changes@.len() - i,
    {
        match change_fault(&response.changes, i, target_pages, element_to_page) {
            Some(fault) => {
                let ghost at = ReviewFault::Change { index: i, fault };
                proof {
                    lemma_first_fault_stays(
                        response.changes@,
                        (i + 1) as nat,
                        response.changes@.len(),
                        pages,
                        owners,
                    );
                    assert(first_change_fault(response.changes@, (i + 1) as nat, pages, owners)
                        == Some(at));
                }
                return Err(ReviewFault::Change { index: i, fault });
            },
            None => {},
        }
        i += 1;
    }
    if response.memory_updates.len() > MAX_MEMORY_UPDATES {
        return Err(ReviewFault::TooManyMemoryUpdates);
    }
    if has_blank_update(&response.memory_updates) {
        return Err(ReviewFault::EmptyMemoryUpdate);
    }
    Ok(())
}

proof fn lemma_first_fault_stays(
    changes: Seq<TranslationChange>,
    m: nat,
    n: nat,
    pages: Seq<Seq<char>>,
    owners: Map<Seq<char>, String>,
)
    requires
        m <= n,
        first_change_fault(changes, m, pages, owners) is Some,
    ensures
        first_change_fault(changes, n, pages, owners) == first_change_fault(
            changes,
            m,
            pages,
            owners,
        ),
    decreases n,
{
    if m < n {
        lemma_first_fault_stays(changes, m, (n - 1) as nat, pages, owners);
    }
}

/// An answer that passes changes each element once, and only elements of the batch, and gives each
/// a text.
pub proof fn lemma_accepted_changes(
    response: ReviewResponse,
    pages: Seq<Seq<char>>,
    owners: Map<Seq<char>, String>,
    elements: nat,
)
    requires
        review_fault(response, pages, owners, elements) is None,
    ensures
        response.changes@.len() <= elements,
        forall|i: int|
            0 <= i < response.changes@.len() ==> {
                let change = #[trigger] response.changes@[i];
                &&& owners.contains_key(change.element@)
                &&& pages.contains(owners[change.element@]@)
                &&& !text::is_blank(change.translation@)
                &&& change.translation@.len() <= MAX_CHANGE_CHARS
            },
        forall|i: int, j: int|
            0 <= i < j < response.changes@.len() ==> (#[trigger] response.changes@[i]).element@ != (
            #[trigger] response.changes@[j]).element@,
{
    let changes = response.changes@;
    assert forall|i: int| 0 <= i < changes.len() implies fault_of_change(
        changes,
        i,
        pages,
        owners,
    ) is None by {
        lemma_no_fault(changes, changes.len(), i, pages, owners);
    }
    assert forall|i: int, j: int| 0 <= i < j < changes.len() implies (
    #[trigger] changes[i]).element@ != (#[trigger] changes[j]).element@ by {
        assert(fault_of_change(changes, j, pages, owners) is None);
    }
    assert forall|i: int| 0 <= i < changes.len() implies {
        let change = #[trigger] changes[i];
        &&& owners.contains_key(change.element@)
        &&& pages.contains(owners[change.element@]@)
        &&& !text::is_blank(change.translation@)
        &&& change.translation@.len() <= MAX_CHANGE_CHARS
    } by {
        assert(fault_of_change(changes, i, pages, owners) is None);
    }
}

proof fn lemma_no_fault(
    changes: Seq<TranslationChange>,
    n: nat,
    i: int,
    pages: Seq<Seq<char>>,
    owners: Map<Seq<char>, String>,
)
    requires
        0 <= i < n,
        first_change_fault(changes, n, pages, owners) is None,
    ensures
        fault_of_change(changes, i, pages, owners) is None,
    decreases n,
{
    if i < n - 1 {
        lemma_no_fault(changes, (n - 1) as nat, i, pages, owners);
    }
}

/// The fault as it is shown.
pub open spec fn shown_fault(
    response: ReviewResponse,
    owners: Map<Seq<char>, String>,
    fault: ReviewFault,
) -> Seq<char> {
    match fault {
        ReviewFault::TooManyChanges => "more changes than available elements"@,
        ReviewFault::TooManyMemoryUpdates => "too many memory updates"@,
        ReviewFault::EmptyMemoryUpdate => "memory updates require non-empty key and value"@,
        ReviewFault::Change { index, fault } => {
            let element = response.changes@[index as int].element@;
            match fault {
                ChangeFault::EmptyElement => "change element IDs cannot be empty"@,
                ChangeFault::UnknownElement => "unknown element ID: "@ + element,
                ChangeFault::OutsideBatch => "element "@ + element + " belongs to page "@
                    + owners[element]@ + ", which is not in the target batch"@,
                ChangeFault::Duplicate => "duplicate change for element "@ + element,
                ChangeFault::EmptyTranslation => "translation for element "@ + element
                    + " cannot be empty"@,
                ChangeFault::LongTranslation => "translation for element "@ + element
                    + " exceeds 8192 characters"@,
            }
        },
    }
}

/// The fault that [`validate_review_response`] found, as it is shown.
pub fn fault_message(
    response: &ReviewResponse,
    element_to_page: &TextMap<String>,
    fault: ReviewFault,
) -> (r: String)
    requires
        fault matches ReviewFault::Change { index, fault } ==> index < response.changes@.len() && (
        fault == ChangeFault::OutsideBatch ==> element_to_page@.contains_key(
            response.changes@[index as int].element@,
        )),
    ensures
        r@ == shown_fault(*response, element_to_page@, fault),
{
    match fault {
        ReviewFault::TooManyChanges => "more changes than available elements".to_owned(),
        ReviewFault::TooManyMemoryUpdates => "too many memory updates".to_owned(),
        ReviewFault::EmptyMemoryUpdate => "memory updates require non-empty key and value".to_owned(),
        ReviewFault::Change { index, fault } => {
            let element = response.changes[index].element.as_str();
            match fault {
                ChangeFault::EmptyElement => "change element IDs cannot be empty".to_owned(),
                ChangeFault::UnknownElement => text::joined("unknown element ID: ", element),
                ChangeFault::OutsideBatch => {
                    let mut s = text::joined("element ", element);
                    s.append(" belongs to page ");
                    match element_to_page.get(element) {
                        Some(page) => s.append(page.as_str()),
                        None => {},
                    }
                    s.append(", which is not in the target batch");
                    s
                },
                ChangeFault::Duplicate => text::joined("duplicate change for element ", element),
                ChangeFault::EmptyTranslation => {
                    let mut s = text::joined("translation for element ", element);
                    s.append(" cannot be empty");
                    s
                },
                ChangeFault::LongTranslation => {
                    let mut s = text::joined("translation for element ", element);
                    s.append(" exceeds 8192 characters");
                    s
                },
            }
        },
    }
}

/// What an answer is that passes: no more changes than elements, each to an element that stands on a
/// page of the batch, none to one element twice, each with a text of 8192 characters at most, and no
/// more than 64 notes, each with a key and a value.
pub proof fn lemma_what_passes(
    response: ReviewResponse,
    pages: Seq<Seq<char>>,
    owners: Map<Seq<char>, String>,
    elements: nat,
    i: int,
)
    requires
        review_fault(response, pages, owners, elements) is None,
    ensures
        response.changes@.len() <= elements,
        response.memory_updates@.len() <= 64,
        0 <= i < response.changes@.len() ==> {
            let change = response.changes@[i];
            &&& exists|p: int|
                0 <= p < change.element@.len() && !text::is_whitespace(#[trigger] change.element@[p])
            &&& owners.contains_key(change.element@)
            &&& pages.contains(owners[change.element@]@)
            &&& exists|p: int|
                0 <= p < change.translation@.len() && !text::is_whitespace(
                    #[trigger] change.translation@[p],
                )
            &&& change.translation@.len() <= 8192
            &&& forall|j: int|
                0 <= j < response.changes@.len() && j != i ==> (
                #[trigger] response.changes@[j]).element@ != change.element@
        },
        0 <= i < response.memory_updates@.len() ==> {
            let update = response.memory_updates@[i];
            &&& exists|p: int|
                0 <= p < update.key@.len() && !text::is_whitespace(#[trigger] update.key@[p])
            &&& exists|p: int|
                0 <= p < update.value@.len() && !text::is_whitespace(#[trigger] update.value@[p])
        },
{
    lemma_accepted_changes(response, pages, owners, elements);
    let changes = response.changes@;
    let updates = response.memory_updates@;
    if 0 <= i < changes.len() {
        lemma_no_fault(changes, changes.len(), i, pages, owners);
        assert(!text::is_blank(changes[i].element@));
        assert(!text::is_blank(changes[i].translation@));
    }
    if 0 <= i < updates.len() {
        assert(!text::is_blank(updates[i].key@));
        assert(!text::is_blank(updates[i].value@));
    }
}

/// An answer that keeps to the rules passes: it is refused for nothing else.
pub proof fn lemma_a_right_answer_passes(
    response: ReviewResponse,
    pages: Seq<Seq<char>>,
    owners: Map<Seq<char>, String>,
    elements: nat,
)
    requires
        response.changes@.len() <= elements,
        response.memory_updates@.len() <= 64,
        forall|i: int|
            0 <= i < response.changes@.len() ==> {
                let change = #[trigger] response.changes@[i];
                &&& exists|p: int|
                    0 <= p < change.element@.len() && !text::is_whitespace(
                        #[trigger] change.element@[p],
                    )
                &&& owners.contains_key(change.element@)
                &&& pages.contains(owners[change.element@]@)
                &&& exists|p: int|
                    0 <= p < change.translation@.len() && !text::is_whitespace(
                        #[trigger] change.translation@[p],
                    )
                &&& change.translation@.len() <= 8192
            },
        forall|i: int, j: int|
            0 <= i < j < response.changes@.len() ==> (#[trigger] response.changes@[i]).element@ != (
            #[trigger] response.changes@[j]).element@,
        forall|i: int|
            0 <= i < response.memory_updates@.len() ==> {
                let update = #[trigger] response.memory_updates@[i];
                &&& exists|p: int|
                    0 <= p < update.key@.len() && !text::is_whitespace(#[trigger] update.key@[p])
                &&& exists|p: int|
                    0 <= p < update.value@.len() && !text::is_whitespace(
                        #[trigger] update.value@[p],
                    )
            },
    ensures
        review_fault(response, pages, owners, elements) is None,
{
    let changes = response.changes@;
    let updates = response.memory_updates@;
    lemma_some_fault(changes, changes.len(), pages, owners);
    if first_change_fault(changes, changes.len(), pages, owners) is Some {
        let i = choose|i: int|
            0 <= i < changes.len() && #[trigger] fault_of_change(changes, i, pages, owners) is Some;
        let change = response.changes@[i];
        let p = choose|p: int|
            0 <= p < change.element@.len() && !text::is_whitespace(#[trigger] change.element@[p]);
        let q = choose|q: int|
            0 <= q < change.translation@.len() && !text::is_whitespace(
                #[trigger] change.translation@[q],
            );
        assert(!text::is_whitespace(change.element@[p]));
        assert(!text::is_whitespace(change.translation@[q]));
        assert(false);
    }
    assert forall|i: int| 0 <= i < updates.len() implies !text::is_blank(
        (#[trigger] updates[i]).key@,
    ) && !text::is_blank(updates[i].value@) by {
        let update = response.memory_updates@[i];
        let p = choose|p: int|
            0 <= p < update.key@.len() && !text::is_whitespace(#[trigger] update.key@[p]);
        let q = choose|q: int|
            0 <= q < update.value@.len() && !text::is_whitespace(#[trigger] update.value@[q]);
        assert(!text::is_whitespace(update.key@[p]));
        assert(!text::is_whitespace(update.value@[q]));
    }
}

proof fn lemma_some_fault(
    changes: Seq<TranslationChange>,
    n: nat,
    pages: Seq<Seq<char>>,
    owners: Map<Seq<char>, String>,
)
    ensures
        first_change_fault(changes, n, pages, owners) is Some ==> exists|i: int|
            0 <= i < n && #[trigger] fault_of_change(changes, i, pages, owners) is Some,
    decreases n,
{
    if n > 0 {
        lemma_some_fault(changes, (n - 1) as nat, pages, owners);
        if first_change_fault(changes, n, pages, owners) is Some && first_change_fault(
            changes,
            (n - 1) as nat,
            pages,
            owners,
        ) is None {
            assert(fault_of_change(changes, n - 1, pages, owners) is Some);
        }
    }
}

/// A change that is refused is the first that is wrong, and is refused for what is wrong with it:
/// for an element that was not handed out, for one of another page, for one that was changed
/// before, or for a text that is blank or too long.
pub proof fn lemma_refused_change(
    response: ReviewResponse,
    pages: Seq<Seq<char>>,
    owners: Map<Seq<char>, String>,
    elements: nat,
    index: usize,
    fault: ChangeFault,
)
    requires
        review_fault(response, pages, owners, elements) == Some(ReviewFault::Change { index, fault }),
        response.changes@.len() <= usize::MAX,
    ensures
        index < response.changes@.len(),
        ({
            let change = response.changes@[index as int];
            match fault {
                ChangeFault::EmptyElement => forall|p: int|
                    0 <= p < change.element@.len() ==> text::is_whitespace(
                        #[trigger] change.element@[p],
                    ),
                ChangeFault::UnknownElement => !owners.contains_key(change.element@),
                ChangeFault::OutsideBatch => owners.contains_key(change.element@)
                    && !pages.contains(owners[change.element@]@),
                ChangeFault::Duplicate => exists|j: int|
                    0 <= j < index && (#[trigger] response.changes@[j]).element@
                        == change.element@,
                ChangeFault::EmptyTranslation => forall|p: int|
                    0 <= p < change.translation@.len() ==> text::is_whitespace(
                        #[trigger] change.translation@[p],
                    ),
                ChangeFault::LongTranslation => change.translation@.len() > 8192,
            }
        }),
{
    lemma_fault_place(response.changes@, response.changes@.len(), pages, owners);
}

proof fn lemma_fault_place(
    changes: Seq<TranslationChange>,
    n: nat,
    pages: Seq<Seq<char>>,
    owners: Map<Seq<char>, String>,
)
    requires
        n <= changes.len() <= usize::MAX,
    ensures
        first_change_fault(changes, n, pages, owners) matches Some(found) ==> (found matches
            ReviewFault::Change { index, fault } && index < n && fault_of_change(
            changes,
            index as int,
            pages,
            owners,
        ) == Some(fault)),
    decreases n,
{
    if n > 0 {
        lemma_fault_place(changes, (n - 1) as nat, pages, owners);
    }
}

} // verus!
