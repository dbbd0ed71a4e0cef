//! Changes that a user makes to a glossary.
use crate::glossary::model::{
    Glossary, GlossaryEntry, GlossaryEntryId, GlossaryKind, GlossaryValueOrigin,
    ModelFault,
};
use crate::ids::{stale_message, Revision};
use crate::text;
use vstd::prelude::*;

verus! {

/// Why a change is not made.
#[derive(Clone, Copy, Debug, PartialEq, Eq, Structural)]
pub enum EditFault {
    /// The project is not at the revision that the change was made for.
    StaleRevision { expected: Revision, current: Revision },
    /// There is no such entry.
    NotFound,
    /// The glossary would not be valid.
    Invalid(ModelFault),
}

/// What a user enters for an entry.
pub struct GlossaryEntryInput {
    pub source: String,
    pub translation: Option<String>,
    pub kind: GlossaryKind,
    pub enabled: bool,
}

/// The translation of a term: for which entry, of which source.
pub struct TermTranslationResult {
    pub id: GlossaryEntryId,
    pub source: String,
    pub translation: String,
}

/// An entry as it is shown, with the revision that it was read at.
pub struct GlossaryEntryView {
    pub revision: Revision,
    pub entry: GlossaryEntry,
}

/// A glossary as it is shown.
pub struct GlossaryView {
    pub revision: Revision,
    pub enabled: bool,
    /// The texts are not those of the last scan.
    pub stale: bool,
    pub source_language: Option<String>,
    pub target_language: Option<String>,
    pub saved_source_fingerprint: Option<String>,
    pub current_source_fingerprint: String,
    pub entries: Vec<GlossaryEntryView>,
}

/// The characters of an optional string.
pub open spec fn option_text(s: Option<String>) -> Option<Seq<char>> {
    match s {
        Some(s) => Some(s@),
        None => None,
    }
}

/// All of a glossary but its entries.
pub open spec fn same_frame(a: Glossary, b: Glossary) -> bool {
    &&& a.enabled == b.enabled
    &&& a.source_language == b.source_language
    &&& a.target_language == b.target_language
    &&& a.source_fingerprint == b.source_fingerprint
}

/// What is wrong with the entries.
pub open spec fn entries_fault(entries: Seq<GlossaryEntry>) -> Option<ModelFault> {
    crate::glossary::model::first_fault(entries, entries.len())
}

/// What becomes of a change that would make `edited` of the glossary: it is refused where the
/// project has moved on, or where the entries would not be valid.
pub open spec fn outcome(
    current: Revision,
    expected: Revision,
    edited: Glossary,
    entries: Seq<GlossaryEntry>,
    r: Result<Glossary, EditFault>,
) -> bool {
    if current != expected {
        r == Err::<Glossary, _>(EditFault::StaleRevision { expected, current })
    } else {
        match entries_fault(entries) {
            Some(fault) => r == Err::<Glossary, _>(EditFault::Invalid(fault)),
            None => r matches Ok(g) && same_frame(g, edited) && g.entries@ == entries,
        }
    }
}

pub(crate) fn checked(glossary: Glossary) -> (r: Result<Glossary, EditFault>)
    ensures
        match entries_fault(glossary.entries@) {
            Some(fault) => r == Err::<Glossary, _>(EditFault::Invalid(fault)),
            None => r == Ok::<Glossary, EditFault>(glossary),
        },
{
    match glossary.validate() {
        Ok(()) => Ok(glossary),
        Err(fault) => Err(EditFault::Invalid(fault)),
    }
}

/// The glossary as it is shown, given the fingerprint of the texts as they are now.
pub fn glossary_view(glossary: Glossary, revision: Revision, current_fingerprint: String) -> (r:
    GlossaryView)
    ensures
        r.revision == revision,
        r.enabled == glossary.enabled,
        r.stale == (option_text(glossary.source_fingerprint) != Some(current_fingerprint@)),
        r.source_language == glossary.source_language,
        r.target_language == glossary.target_language,
        r.saved_source_fingerprint == glossary.source_fingerprint,
        r.current_source_fingerprint == current_fingerprint,
        r.entries@.len() == glossary.entries@.len(),
        forall|i: int|
            0 <= i < r.entries@.len() ==> (#[trigger] r.entries@[i]).revision == revision
                && r.entries@[i].entry == glossary.entries@[i],
{
    let stale = match &glossary.source_fingerprint {
        Some(saved) => !text::same(saved.as_str(), current_fingerprint.as_str()),
        None => true,
    };
    let Glossary { enabled, source_language, target_language, source_fingerprint, entries } =
        glossary;
    let ghost all = entries@;
    let mut rest = entries;
    let mut views: Vec<GlossaryEntryView> = Vec::new();
    while rest.len() > 0
        invariant
            views@.len() + rest@.len() == all.len(),
            rest@ == all.skip(views@.len() as int),
            forall|i: int|
                0 <= i < views@.len() ==> (#[trigger] views@[i]).revision == revision
                    && views@[i].entry == all[i],
        decreases rest@.len(),
    {
        let ghost done = views@.len() as int;
        let entry = rest.remove(0);
        assert(entry == all[done]);
        views.push(GlossaryEntryView { revision, entry });
        assert(rest@ =~= all.skip(done + 1));
    }
    GlossaryView {
        revision,
        enabled,
        stale,
        source_language,
        target_language,
        saved_source_fingerprint: source_fingerprint,
        current_source_fingerprint: current_fingerprint,
        entries: views,
    }
}

/// Turns the glossary on or off.
pub fn set_glossary_enabled(
    glossary: Glossary,
    current: Revision,
    expected: Revision,
    enabled: bool,
) -> (r: Result<Glossary, EditFault>)
    ensures
        outcome(
            current,
            expected,
            (Glossary { enabled, ..glossary }),
            glossary.entries@,
            r,
        ),
        current != expected ==> r == Err::<Glossary, _>(
            EditFault::StaleRevision { expected, current },
        ),
        r matches Ok(g) ==> g.enabled == enabled && g.entries@ == glossary.entries@
            && g.source_language == glossary.source_language && g.target_language
            == glossary.target_language && g.source_fingerprint == glossary.source_fingerprint,
{
    if current != expected {
        return Err(EditFault::StaleRevision { expected, current });
    }
    let mut glossary = glossary;
    glossary.enabled = enabled;
    checked(glossary)
}

/// The origin of a translation that comes from `origin`, where there is one.
pub open spec fn origin_of(
    translation: Option<String>,
    origin: GlossaryValueOrigin,
) -> Option<GlossaryValueOrigin> {
    match translation {
        Some(_) => Some(origin),
        None => None,
    }
}

pub(crate) fn translation_origin(
    translation: &Option<String>,
    origin: GlossaryValueOrigin,
) -> (r: Option<GlossaryValueOrigin>)
    ensures
        r == origin_of(*translation, origin),
{
    match translation {
        Some(_) => Some(origin),
        None => None,
    }
}

/// The entry is one that did not come of a scan, with these values.
pub open spec fn is_entered(
    entry: GlossaryEntry,
    source: String,
    translation: Option<String>,
    kind: GlossaryKind,
    enabled: bool,
    origin: GlossaryValueOrigin,
) -> bool {
    &&& entry.source == source
    &&& entry.translation == translation
    &&& entry.kind == kind
    &&& entry.enabled == enabled
    &&& entry.confidence is None
    &&& entry.occurrence_count == 0
    &&& entry.examples@.len() == 0
    &&& entry.source_origin == origin
    &&& entry.translation_origin == origin_of(translation, origin)
    &&& !entry.present_in_last_scan
}

/// An entry that did not come of a scan.
pub(crate) fn entered(
    id: GlossaryEntryId,
    source: String,
    translation: Option<String>,
    kind: GlossaryKind,
    enabled: bool,
    origin: GlossaryValueOrigin,
) -> (r: GlossaryEntry)
    ensures
        r.id == id,
        is_entered(r, source, translation, kind, enabled, origin),
{
    let translation_origin = translation_origin(&translation, origin);
    GlossaryEntry {
        id,
        source,
        translation,
        kind,
        enabled,
        confidence: None,
        occurrence_count: 0,
        examples: Vec::new(),
        source_origin: origin,
        translation_origin,
        present_in_last_scan: false,
    }
}

/// Adds an entry of the user's, under the name `id`.
pub fn add_glossary_entry(
    glossary: Glossary,
    current: Revision,
    expected: Revision,
    input: GlossaryEntryInput,
    id: GlossaryEntryId,
) -> (r: Result<Glossary, EditFault>)
    ensures
        exists|entry: GlossaryEntry|
            entry.id == id && #[trigger] is_entered(
                entry,
                input.source,
                input.translation,
                input.kind,
                input.enabled,
                GlossaryValueOrigin::User,
            ) && outcome(current, expected, glossary, glossary.entries@.push(entry), r),
        current != expected ==> r == Err::<Glossary, _>(
            EditFault::StaleRevision { expected, current },
        ),
        r matches Ok(g) ==> {
            let entry = g.entries@.last();
            &&& g.entries@.len() == glossary.entries@.len() + 1
            &&& forall|i: int|
                0 <= i < glossary.entries@.len() ==> #[trigger] g.entries@[i]
                    == glossary.entries@[i]
            &&& entry.id == id
            &&& entry.source == input.source
            &&& entry.translation == input.translation
            &&& entry.kind == input.kind
            &&& entry.enabled == input.enabled
            &&& entry.source_origin == GlossaryValueOrigin::User
            &&& input.translation is Some ==> entry.translation_origin == Some(
                GlossaryValueOrigin::User,
            )
            &&& input.translation is None ==> entry.translation_origin is None
            &&& g.enabled == glossary.enabled
            &&& g.source_language == glossary.source_language
            &&& g.target_language == glossary.target_language
        },
{
    let ghost before = glossary;
    let entry = entered(
        id,
        input.source,
        input.translation,
        input.kind,
        input.enabled,
        GlossaryValueOrigin::User,
    );
    assert(is_entered(
        entry,
        input.source,
        input.translation,
        input.kind,
        input.enabled,
        GlossaryValueOrigin::User,
    ));
    if current != expected {
        return Err(EditFault::StaleRevision { expected, current });
    }
    let mut glossary = glossary;
    glossary.entries.push(entry);
    checked(glossary)
}

/// The place of the first entry with that name, or the number of entries.
pub open spec fn place_of(entries: Seq<GlossaryEntry>, id: GlossaryEntryId) -> nat
    decreases entries.len(),
{
    if entries.len() == 0 {
        0
    } else if entries[0].id == id {
        0
    } else {
        1 + place_of(entries.drop_first(), id)
    }
}

/// The entry with what a user entered in place of what it had.
pub open spec fn edited_entry(entry: GlossaryEntry, input: GlossaryEntryInput) -> GlossaryEntry {
    GlossaryEntry {
        source: input.source,
        translation: input.translation,
        translation_origin: origin_of(input.translation, GlossaryValueOrigin::User),
        kind: input.kind,
        enabled: input.enabled,
        source_origin: GlossaryValueOrigin::User,
        ..entry
    }
}

fn find_entry(entries: &Vec<GlossaryEntry>, id: GlossaryEntryId) -> (r: usize)
    ensures
        r == place_of(entries@, id),
        r <= entries@.len(),
        r < entries@.len() ==> entries@[r as int].id == id,
        forall|j: int| 0 <= j < r ==> (#[trigger] entries@[j]).id != id,
{
    let mut i: usize = 0;
    assert(entries@.skip(0) =~= entries@);
    while i < entries.len()
        invariant
            i <= entries@.len(),
            place_of(entries@, id) == i + place_of(entries@.skip(i as int), id),
            forall|j: int| 0 <= j < i ==> (#[trigger] entries@[j]).id != id,
        decreases entries@.len() - i,
    {
        if entries[i].id == id {
            return i;
        }
        assert(entries@.skip(i as int).drop_first() =~= entries@.skip(i + 1));
        i += 1;
    }
    i
}

/// Puts what a user entered in the place of an entry.
pub fn update_glossary_entry(
    glossary: Glossary,
    current: Revision,
    expected: Revision,
    id: GlossaryEntryId,
    input: GlossaryEntryInput,
) -> (r: Result<Glossary, EditFault>)
    ensures
        ({
            let entries = glossary.entries@;
            let i = place_of(entries, id) as int;
            if current == expected && i == entries.len() {
                r == Err::<Glossary, _>(EditFault::NotFound)
            } else {
                outcome(
                    current,
                    expected,
                    glossary,
                    entries.update(i, edited_entry(entries[i], input)),
                    r,
                )
            }
        }),
        current != expected ==> r == Err::<Glossary, _>(
            EditFault::StaleRevision { expected, current },
        ),
        current == expected && (forall|i: int|
            0 <= i < glossary.entries@.len() ==> (#[trigger] glossary.entries@[i]).id != id) ==> r
            == Err::<Glossary, _>(EditFault::NotFound),
        r matches Ok(g) ==> exists|i: int|
            {
                let entry = #[trigger] g.entries@[i];
                &&& 0 <= i < glossary.entries@.len()
                &&& g.entries@.len() == glossary.entries@.len()
                &&& glossary.entries@[i].id == id
                &&& entry.id == id
                &&& entry.source == input.source
                &&& entry.translation == input.translation
                &&& entry.kind == input.kind
                &&& entry.enabled == input.enabled
                &&& entry.source_origin == GlossaryValueOrigin::User
                &&& entry.translation is Some ==> entry.translation_origin == Some(
                    GlossaryValueOrigin::User,
                )
                &&& entry.translation is None ==> entry.translation_origin is None
                &&& entry.confidence == glossary.entries@[i].confidence
                &&& entry.occurrence_count == glossary.entries@[i].occurrence_count
                &&& entry.examples == glossary.entries@[i].examples
                &&& entry.present_in_last_scan == glossary.entries@[i].present_in_last_scan
                &&& forall|j: int|
                    0 <= j < glossary.entries@.len() && j != i ==> #[trigger] g.entries@[j]
                        == glossary.entries@[j]
            },
{
    if current != expected {
        return Err(EditFault::StaleRevision { expected, current });
    }
    let mut glossary = glossary;
    let ghost all = glossary.entries@;
    let i: usize = find_entry(&glossary.entries, id);
    if i == glossary.entries.len() {
        return Err(EditFault::NotFound);
    }
    let mut entry = glossary.entries.remove(i);
    entry.translation_origin = translation_origin(&input.translation, GlossaryValueOrigin::User);
    entry.source = input.source;
    entry.translation = input.translation;
    entry.kind = input.kind;
    entry.enabled = input.enabled;
    entry.source_origin = GlossaryValueOrigin::User;
    glossary.entries.insert(i, entry);
    assert(glossary.entries@ =~= all.update(i as int, edited_entry(all[i as int], input)));
    assert(glossary.entries@[i as int].id == id);
    checked(glossary)
}

/// The entries but those with that name.
pub open spec fn without(entries: Seq<GlossaryEntry>, id: GlossaryEntryId) -> Seq<GlossaryEntry>
    decreases entries.len(),
{
    if entries.len() == 0 {
        entries
    } else {
        let head = without(entries.drop_last(), id);
        if entries.last().id == id {
            head
        } else {
            head.push(entries.last())
        }
    }
}

/// Takes an entry out.
pub fn delete_glossary_entry(
    glossary: Glossary,
    current: Revision,
    expected: Revision,
    id: GlossaryEntryId,
) -> (r: Result<Glossary, EditFault>)
    ensures
        if current == expected && place_of(glossary.entries@, id) == glossary.entries@.len() {
            r == Err::<Glossary, _>(EditFault::NotFound)
        } else {
            outcome(current, expected, glossary, without(glossary.entries@, id), r)
        },
        current != expected ==> r == Err::<Glossary, _>(
            EditFault::StaleRevision { expected, current },
        ),
        r matches Ok(g) ==> {
            &&& exists|i: int|
                0 <= i < glossary.entries@.len() && (#[trigger] glossary.entries@[i]).id == id
            &&& forall|i: int| 0 <= i < g.entries@.len() ==> (#[trigger] g.entries@[i]).id != id
            &&& forall|i: int|
                0 <= i < glossary.entries@.len() && (#[trigger] glossary.entries@[i]).id != id
                    ==> g.entries@.contains(glossary.entries@[i])
            &&& forall|i: int|
                0 <= i < g.entries@.len() ==> glossary.entries@.contains(#[trigger] g.entries@[i])
        },
{
    if current != expected {
        return Err(EditFault::StaleRevision { expected, current });
    }
    let ghost before = glossary;
    let ghost all = glossary.entries@;
    let at: usize = find_entry(&glossary.entries, id);
    if at == glossary.entries.len() {
        return Err(EditFault::NotFound);
    }
    let Glossary { enabled, source_language, target_language, source_fingerprint, entries } =
        glossary;
    let mut rest = entries;
    let mut kept: Vec<GlossaryEntry> = Vec::new();
    let ghost mut done: int = 0;
    assert(all.skip(0) =~= all);
    assert(all.take(0) =~= Seq::empty());
    while rest.len() > 0
        invariant
            0 <= done <= all.len(),
            rest@ == all.skip(done),
            kept@ == without(all.take(done), id),
        decreases rest@.len(),
    {
        let entry = rest.remove(0);
        proof {
            assert(entry == all[done]);
            assert(rest@ =~= all.skip(done + 1));
            assert(all.take(done + 1).drop_last() =~= all.take(done));
            assert(all.take(done + 1).last() == entry);
        }
        if entry.id != id {
            kept.push(entry);
        }
        proof {
            done = done + 1;
        }
    }
    assert(all.take(done) =~= all);
    proof {
        lemma_without(all, id);
        assert(all[at as int].id == id);
    }
    checked(Glossary { enabled, source_language, target_language, source_fingerprint, entries: kept })
}

/// The last of the first `n` results for that entry.
pub open spec fn result_for(
    results: Seq<TermTranslationResult>,
    n: nat,
    id: GlossaryEntryId,
) -> Option<TermTranslationResult>
    decreases n,
{
    if n == 0 {
        None
    } else if results[n - 1].id == id {
        Some(results[n - 1])
    } else {
        result_for(results, (n - 1) as nat, id)
    }
}

/// The entry with the translation of its term. One that changed meanwhile, or whose translation is
/// not automatic, stays as it is.
pub open spec fn translated_entry(
    entry: GlossaryEntry,
    results: Seq<TermTranslationResult>,
) -> GlossaryEntry {
    match result_for(results, results.len(), entry.id) {
        None => entry,
        Some(result) => if entry.source@ == result.source@ && (entry.translation_origin is None
            || entry.translation_origin == Some(GlossaryValueOrigin::Automatic)) {
            GlossaryEntry {
                translation: Some(result.translation),
                translation_origin: Some(GlossaryValueOrigin::Automatic),
                ..entry
            }
        } else {
            entry
        },
    }
}

fn find_result(results: &Vec<TermTranslationResult>, id: GlossaryEntryId) -> (r: Option<usize>)
    ensures
        result_for(results@, results@.len(), id) == (match r {
            Some(i) => Some(results@[i as int]),
            None => None,
        }),
        r matches Some(i) ==> i < results@.len(),
{
    let mut n: usize = results.len();
    while n > 0
        invariant
            n <= results@.len(),
            result_for(results@, results@.len(), id) == result_for(results@, n as nat, id),
        decreases n,
    {
        if results[n - 1].id == id {
            return Some(n - 1);
        }
        n -= 1;
    }
    None
}

/// Fills in the translations of terms.
pub fn apply_term_translations(
    glossary: Glossary,
    current: Revision,
    expected: Revision,
    translations: &Vec<TermTranslationResult>,
) -> (r: Result<Glossary, EditFault>)
    ensures
        outcome(
            current,
            expected,
            glossary,
            Seq::new(
                glossary.entries@.len(),
                |i: int| translated_entry(glossary.entries@[i], translations@),
            ),
            r,
        ),
{
    if current != expected {
        return Err(EditFault::StaleRevision { expected, current });
    }
    let mut glossary = glossary;
    let ghost before = glossary;
    let ghost all = glossary.entries@;
    let ghost goal = Seq::new(
        all.len(),
        |i: int| translated_entry(all[i], translations@),
    );
    let mut i: usize = 0;
    while i < glossary.entries.len()
        invariant
            i <= all.len(),
            goal == Seq::new(all.len(), |i: int| translated_entry(all[i], translations@)),
            glossary.entries@.len() == all.len(),
            same_frame(glossary, before),
            forall|j: int| 0 <= j < i ==> #[trigger] glossary.entries@[j] == goal[j],
            forall|j: int| i <= j < all.len() ==> #[trigger] glossary.entries@[j] == all[j],
        decreases all.len() - i,
    {
        let ghost was = glossary.entries@;
        match find_result(translations, glossary.entries[i].id) {
            None => {},
            Some(k) => {
                let automatic = match glossary.entries[i].translation_origin {
                    None => true,
                    Some(origin) => origin == GlossaryValueOrigin::Automatic,
                };
                if automatic && text::same(
                    glossary.entries[i].source.as_str(),
                    translations[k].source.as_str(),
                ) {
                    let mut entry = glossary.entries.remove(i);
                    entry.translation = Some(translations[k].translation.clone());
                    entry.translation_origin = Some(GlossaryValueOrigin::Automatic);
                    glossary.entries.insert(i, entry);
                    assert(glossary.entries@ =~= was.update(i as int, entry));
                }
            },
        }
        i += 1;
    }
    assert(glossary.entries@ =~= goal);
    checked(glossary)
}

/// A change that is taken was made to the glossary as it is, and leaves it valid: no entry has a
/// fault, and no two share a name, nor a source and kind.
pub proof fn lemma_taken_change_is_valid(
    current: Revision,
    expected: Revision,
    edited: Glossary,
    entries: Seq<GlossaryEntry>,
    r: Result<Glossary, EditFault>,
)
    requires
        outcome(current, expected, edited, entries, r),
        r is Ok,
    ensures
        current == expected,
        entries_fault(r->Ok_0.entries@) is None,
        forall|i: int|
            0 <= i < entries.len() ==> crate::glossary::model::fault_of_entry(
                #[trigger] r->Ok_0.entries@[i],
            ) is None,
        forall|i: int, j: int|
            0 <= i < j < entries.len() ==> (#[trigger] r->Ok_0.entries@[i]).id != (
            #[trigger] r->Ok_0.entries@[j]).id,
        forall|i: int, j: int|
            0 <= i < j < entries.len() ==> crate::glossary::model::key_of(
                #[trigger] r->Ok_0.entries@[i],
            ) != crate::glossary::model::key_of(#[trigger] r->Ok_0.entries@[j]),
{
    crate::glossary::model::lemma_valid_glossary(entries, entries.len());
}

/// A translation that a user or an import gave stays when terms are translated, and so does that
/// of an entry whose source changed meanwhile.
pub proof fn lemma_translations_keep_edits(
    entry: GlossaryEntry,
    results: Seq<TermTranslationResult>,
)
    ensures
        entry.translation_origin == Some(GlossaryValueOrigin::User) || entry.translation_origin
            == Some(GlossaryValueOrigin::Imported) ==> translated_entry(entry, results) == entry,
        (forall|i: int|
            0 <= i < results.len() && (#[trigger] results[i]).id == entry.id
                ==> results[i].source@ != entry.source@) ==> translated_entry(entry, results)
            == entry,
        translated_entry(entry, results).id == entry.id,
        translated_entry(entry, results).source == entry.source,
{
    lemma_result_for(results, results.len(), entry.id);
}

proof fn lemma_result_for(results: Seq<TermTranslationResult>, n: nat, id: GlossaryEntryId)
    requires
        n <= results.len(),
    ensures
        result_for(results, n, id) matches Some(r) ==> exists|i: int|
            0 <= i < n && #[trigger] results[i] == r && r.id == id,
    decreases n,
{
    if n > 0 && results[n - 1].id != id {
        lemma_result_for(results, (n - 1) as nat, id);
    }
}

impl EditFault {
    /// What is said of the fault.
    pub open spec fn says(self) -> Seq<char> {
        match self {
            EditFault::StaleRevision { expected, current } => crate::ids::moved_on(
                "glossary edit"@,
                expected,
                current,
            ),
            EditFault::NotFound => "glossary entry was not found"@,
            EditFault::Invalid(fault) => fault.says(),
        }
    }

    /// What is said of the fault.
    pub fn message(self) -> (r: String)
        ensures
            r@ == self.says(),
    {
        match self {
            EditFault::StaleRevision { expected, current } => stale_message(
                "glossary edit",
                expected,
                current,
            ),
            EditFault::NotFound => "glossary entry was not found".to_owned(),
            EditFault::Invalid(fault) => fault.message().to_owned(),
        }
    }
}

/// To take a name out takes out the entries with that name, and those alone, and leaves the order of
/// the others.
pub proof fn lemma_without(entries: Seq<GlossaryEntry>, id: GlossaryEntryId)
    ensures
        without(entries, id) == entries.filter(|entry: GlossaryEntry| entry.id != id),
        forall|i: int| 0 <= i < without(entries, id).len() ==> (#[trigger] without(entries, id)[i]).id
            != id,
        forall|i: int|
            0 <= i < entries.len() && (#[trigger] entries[i]).id != id ==> without(
                entries,
                id,
            ).contains(entries[i]),
        forall|i: int|
            0 <= i < without(entries, id).len() ==> entries.contains(
                #[trigger] without(entries, id)[i],
            ),
    decreases entries.len(),
{
    let other = |entry: GlossaryEntry| entry.id != id;
    if entries.len() == 0 {
        assert(entries.filter(other) =~= entries) by {
            reveal(Seq::filter);
        }
    } else {
        let head = entries.drop_last();
        lemma_without(head, id);
        assert(head.push(entries.last()) =~= entries);
        text::lemma_filter_push(head, entries.last(), other);
        let kept = without(head, id);
        let all = without(entries, id);
        assert forall|i: int| 0 <= i < entries.len() && (#[trigger] entries[i]).id
            != id implies all.contains(entries[i]) by {
            if i < head.len() {
                assert(head[i] == entries[i]);
                let q = choose|q: int| 0 <= q < kept.len() && kept[q] == head[i];
                assert(all[q] == entries[i]);
            } else {
                assert(all[kept.len() as int] == entries[i]);
            }
        }
        assert forall|i: int| 0 <= i < all.len() implies entries.contains(#[trigger] all[i]) by {
            if i < kept.len() {
                assert(all[i] == kept[i]);
                assert(head.contains(kept[i]));
                let q = choose|q: int| 0 <= q < head.len() && head[q] == kept[i];
                assert(entries[q] == all[i]);
            } else {
                assert(entries[entries.len() - 1] == all[i]);
            }
        }
    }
}

/// A translation of a term is filled in where it belongs: the entry with its name whose source it was
/// made of, and whose translation is missing or automatic, has the text of the last result for it,
/// and is marked as automatic. An entry for which there is no result stays as it is.
pub proof fn lemma_a_translation_is_filled_in(
    entry: GlossaryEntry,
    results: Seq<TermTranslationResult>,
    k: int,
)
    requires
        0 <= k < results.len(),
        results[k].id == entry.id,
        forall|j: int| k < j < results.len() ==> (#[trigger] results[j]).id != entry.id,
    ensures
        results[k].source@ == entry.source@ && (entry.translation_origin is None
            || entry.translation_origin == Some(GlossaryValueOrigin::Automatic)) ==> {
            let after = translated_entry(entry, results);
            &&& after.translation == Some(results[k].translation)
            &&& after.translation_origin == Some(GlossaryValueOrigin::Automatic)
            &&& after.id == entry.id
            &&& after.source == entry.source
            &&& after.kind == entry.kind
            &&& after.enabled == entry.enabled
            &&& after.source_origin == entry.source_origin
            &&& after.confidence == entry.confidence
            &&& after.examples == entry.examples
            &&& after.occurrence_count == entry.occurrence_count
        },
        results[k].source@ != entry.source@ || entry.translation_origin == Some(
            GlossaryValueOrigin::User,
        ) || entry.translation_origin == Some(GlossaryValueOrigin::Imported) ==> translated_entry(
            entry,
            results,
        ) == entry,
{
    lemma_result_at(results, results.len(), entry.id, k);
}

proof fn lemma_result_at(
    results: Seq<TermTranslationResult>,
    n: nat,
    id: GlossaryEntryId,
    k: int,
)
    requires
        0 <= k < n <= results.len(),
        results[k].id == id,
        forall|j: int| k < j < n ==> (#[trigger] results[j]).id != id,
    ensures
        result_for(results, n, id) == Some(results[k]),
    decreases n,
{
    if k < n - 1 {
        assert(results[n - 1].id != id);
        lemma_result_at(results, (n - 1) as nat, id, k);
    }
}

/// What an edit of the entries leaves as it was: whether the glossary is on, its two languages and
/// the fingerprint of the texts that it was made of.
pub proof fn lemma_what_edits_leave(a: Glossary, b: Glossary)
    ensures
        same_frame(a, b) <==> a.enabled == b.enabled && a.source_language == b.source_language
            && a.target_language == b.target_language && a.source_fingerprint
            == b.source_fingerprint,
{
}

} // verus!
