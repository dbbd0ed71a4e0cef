//! The terms of a project as they are edited: what may be saved, and what an imported file adds.
use crate::ids::ProjectId;
use crate::normalize;
use crate::normalize::normalize_term;
use crate::processing::{Job, JobKind, JobState};
use crate::project_glossary;
use crate::project_glossary::{GlossaryCandidate, GlossaryEntry, GlossaryFault, ProjectGlossary};
use crate::text;
use vstd::prelude::*;

verus! {

/// How many bytes an imported file may take.
pub const MAX_IMPORT_BYTES: u64 = 4_194_304;

/// The terms of a project, with the project that they belong to.
#[derive(Debug)]
pub struct GlossaryDocument {
    pub project: ProjectId,
    pub glossary: ProjectGlossary,
}

/// The two terms are the same in all that they say.
pub open spec fn same_entry(a: GlossaryEntry, b: GlossaryEntry) -> bool {
    &&& a.source@ == b.source@
    &&& a.target@ == b.target@
    &&& a.category == b.category
    &&& a.notes@ == b.notes@
    &&& a.enabled == b.enabled
}

/// The two proposals are the same in all that they say.
pub open spec fn same_candidate(a: GlossaryCandidate, b: GlossaryCandidate) -> bool {
    &&& a.source@ == b.source@
    &&& a.suggested_target@ == b.suggested_target@
    &&& a.category == b.category
    &&& a.occurrences == b.occurrences
    &&& a.page_count == b.page_count
}

/// The two hold the same terms in the same order.
pub open spec fn same_glossary(a: ProjectGlossary, b: ProjectGlossary) -> bool {
    &&& a.entries@.len() == b.entries@.len()
    &&& forall|i: int|
        0 <= i < a.entries@.len() ==> same_entry(#[trigger] a.entries@[i], b.entries@[i])
    &&& a.candidates@.len() == b.candidates@.len()
    &&& forall|i: int|
        0 <= i < a.candidates@.len() ==> same_candidate(
            #[trigger] a.candidates@[i],
            b.candidates@[i],
        )
    &&& a.ignored@.len() == b.ignored@.len()
    &&& forall|i: int| 0 <= i < a.ignored@.len() ==> (#[trigger] a.ignored@[i])@ == b.ignored@[i]@
}

fn entries_match(a: &GlossaryEntry, b: &GlossaryEntry) -> (r: bool)
    ensures
        r == same_entry(*a, *b),
{
    text::same(a.source.as_str(), b.source.as_str()) && text::same(
        a.target.as_str(),
        b.target.as_str(),
    ) && a.category == b.category && text::same(a.notes.as_str(), b.notes.as_str()) && a.enabled
        == b.enabled
}

fn candidates_match(a: &GlossaryCandidate, b: &GlossaryCandidate) -> (r: bool)
    ensures
        r == same_candidate(*a, *b),
{
    text::same(a.source.as_str(), b.source.as_str()) && text::same(
        a.suggested_target.as_str(),
        b.suggested_target.as_str(),
    ) && a.category == b.category && a.occurrences == b.occurrences && a.page_count == b.page_count
}

/// Whether the two hold the same terms in the same order.
pub fn glossaries_match(a: &ProjectGlossary, b: &ProjectGlossary) -> (r: bool)
    ensures
        r == same_glossary(*a, *b),
{
    if a.entries.len() != b.entries.len() || a.candidates.len() != b.candidates.len()
        || a.ignored.len() != b.ignored.len() {
        return false;
    }
    let mut i: usize = 0;
    while i < a.entries.len()
        invariant
            i <= a.entries@.len() == b.entries@.len(),
            forall|k: int| 0 <= k < i ==> same_entry(#[trigger] a.entries@[k], b.entries@[k]),
        decreases a.entries@.len() - i,
    {
        if !entries_match(&a.entries[i], &b.entries[i]) {
            return false;
        }
        i += 1;
    }
    let mut i: usize = 0;
    while i < a.candidates.len()
        invariant
            i <= a.candidates@.len() == b.candidates@.len(),
            forall|k: int|
                0 <= k < i ==> same_candidate(#[trigger] a.candidates@[k], b.candidates@[k]),
        decreases a.candidates@.len() - i,
    {
        if !candidates_match(&a.candidates[i], &b.candidates[i]) {
            return false;
        }
        i += 1;
    }
    let mut i: usize = 0;
    while i < a.ignored.len()
        invariant
            i <= a.ignored@.len() == b.ignored@.len(),
            forall|k: int| 0 <= k < i ==> (#[trigger] a.ignored@[k])@ == b.ignored@[k]@,
        decreases a.ignored@.len() - i,
    {
        if !text::same(a.ignored[i].as_str(), b.ignored[i].as_str()) {
            return false;
        }
        i += 1;
    }
    true
}

/// A job runs that works on the project's texts.
pub open spec fn some_processing(jobs: Seq<Job>) -> bool {
    exists|i: int|
        0 <= i < jobs.len() && (#[trigger] jobs[i]).kind != JobKind::Export && jobs[i].state
            == JobState::Running
}

/// Whether a job runs that works on the project's texts. An export only reads them.
pub fn processing_runs(jobs: &Vec<Job>) -> (r: bool)
    ensures
        r == some_processing(jobs@),
{
    let mut i: usize = 0;
    while i < jobs.len()
        invariant
            i <= jobs@.len(),
            forall|k: int|
                0 <= k < i ==> !((#[trigger] jobs@[k]).kind != JobKind::Export && jobs@[k].state
                    == JobState::Running),
        decreases jobs@.len() - i,
    {
        if jobs[i].kind != JobKind::Export && jobs[i].state == JobState::Running {
            assert(jobs@[i as int].kind != JobKind::Export);
            return true;
        }
        i += 1;
    }
    false
}

/// Why the terms are not saved, or not translated.
#[derive(Clone, Copy, Debug, PartialEq, Eq, Structural)]
pub enum DocumentFault {
    /// The terms are not in order.
    Invalid(GlossaryFault),
    /// A job works on the project's texts.
    Processing,
    /// Another project was opened.
    ProjectChanged,
    /// The terms were changed since they were read.
    GlossaryChanged,
}

/// What stands against saving the terms.
pub open spec fn save_fault(
    expected: GlossaryDocument,
    glossary: ProjectGlossary,
    jobs: Seq<Job>,
    current: GlossaryDocument,
) -> Option<DocumentFault> {
    match project_glossary::glossary_fault(glossary) {
        Some(fault) => Some(DocumentFault::Invalid(fault)),
        None => if some_processing(jobs) {
            Some(DocumentFault::Processing)
        } else if current.project != expected.project {
            Some(DocumentFault::ProjectChanged)
        } else if !same_glossary(current.glossary, expected.glossary) {
            Some(DocumentFault::GlossaryChanged)
        } else {
            None
        },
    }
}

/// Whether the terms may be saved: they are in order, nothing works on the project's texts, and the
/// project still holds the terms that were edited.
pub fn check_save(
    expected: &GlossaryDocument,
    glossary: &ProjectGlossary,
    jobs: &Vec<Job>,
    current: &GlossaryDocument,
) -> (r: Result<(), DocumentFault>)
    ensures
        r == match save_fault(*expected, *glossary, jobs@, *current) {
            Some(fault) => Err::<(), _>(fault),
            None => Ok(()),
        },
{
    match glossary.validate_entries() {
        Ok(()) => {},
        Err(fault) => return Err(DocumentFault::Invalid(fault)),
    }
    if processing_runs(jobs) {
        return Err(DocumentFault::Processing);
    }
    if current.project != expected.project {
        return Err(DocumentFault::ProjectChanged);
    }
    if !glossaries_match(&current.glossary, &expected.glossary) {
        return Err(DocumentFault::GlossaryChanged);
    }
    Ok(())
}

/// What is wrong with settled terms that stand alone.
pub open spec fn entries_fault(entries: Seq<GlossaryEntry>) -> Option<GlossaryFault> {
    if entries.len() > project_glossary::MAX_TERMS {
        Some(GlossaryFault::TooMany)
    } else {
        project_glossary::first_entry_fault(entries, entries.len())
    }
}

/// Whether translations of terms may be asked for: the settled terms are in order, the project is
/// still the open one, and nothing works on its texts.
pub fn check_suggestion(
    entries: Vec<GlossaryEntry>,
    project: ProjectId,
    current: ProjectId,
    jobs: &Vec<Job>,
) -> (r: Result<(), DocumentFault>)
    ensures
        ({
            let fault = entries_fault(entries@);
            r == if fault is Some {
                Err::<(), _>(DocumentFault::Invalid(fault->0))
            } else if current != project {
                Err(DocumentFault::ProjectChanged)
            } else if some_processing(jobs@) {
                Err(DocumentFault::Processing)
            } else {
                Ok(())
            }
        }),
{
    let glossary = ProjectGlossary { entries, candidates: Vec::new(), ignored: Vec::new() };
    match glossary.validate_entries() {
        Ok(()) => {},
        Err(fault) => return Err(DocumentFault::Invalid(fault)),
    }
    if current != project {
        return Err(DocumentFault::ProjectChanged);
    }
    if processing_runs(jobs) {
        return Err(DocumentFault::Processing);
    }
    Ok(())
}

/// Why a file is not imported.
#[derive(Clone, Copy, Debug, PartialEq, Eq, Structural)]
pub enum ImportFault {
    /// The file is too large.
    TooLarge,
    /// The terms of the file are not in order.
    Invalid(GlossaryFault),
    /// The term at this place of the file differs from one that the project has.
    Conflict(usize),
}

/// The form by which terms are told apart.
pub open spec fn key(entry: GlossaryEntry) -> Seq<char> {
    normalize::term_form(entry.source@)
}

/// The first term of `entries` with that key.
pub open spec fn first_with_key(entries: Seq<GlossaryEntry>, wanted: Seq<char>) -> Option<int>
    decreases entries.len(),
{
    if entries.len() == 0 {
        None
    } else {
        match first_with_key(entries.drop_last(), wanted) {
            Some(i) => Some(i),
            None => if key(entries.last()) == wanted {
                Some(entries.len() - 1)
            } else {
                None
            },
        }
    }
}

proof fn lemma_first_with_key(entries: Seq<GlossaryEntry>, wanted: Seq<char>)
    ensures
        match first_with_key(entries, wanted) {
            Some(i) => 0 <= i < entries.len() && key(entries[i]) == wanted && forall|k: int|
                0 <= k < i ==> key(#[trigger] entries[k]) != wanted,
            None => forall|k: int| 0 <= k < entries.len() ==> key(#[trigger] entries[k]) != wanted,
        },
    decreases entries.len(),
{
    if entries.len() > 0 {
        let head = entries.drop_last();
        lemma_first_with_key(head, wanted);
        match first_with_key(head, wanted) {
            Some(i) => {
                assert forall|k: int| 0 <= k < i implies key(#[trigger] entries[k]) != wanted by {
                    assert(head[k] == entries[k]);
                }
            },
            None => {
                assert forall|k: int| 0 <= k < head.len() implies key(#[trigger] entries[k])
                    != wanted by {
                    assert(head[k] == entries[k]);
                }
            },
        }
    }
}

/// The terms after `n` terms of the file, or the place of the first that differs from one known. A
/// term whose key is new is added; one that the project has just so changes nothing.
pub open spec fn imported_after(
    known: Seq<GlossaryEntry>,
    file: Seq<GlossaryEntry>,
    n: nat,
) -> Result<Seq<GlossaryEntry>, int>
    decreases n,
{
    if n == 0 {
        Ok(known)
    } else {
        match imported_after(known, file, (n - 1) as nat) {
            Err(i) => Err(i),
            Ok(entries) => match first_with_key(entries, key(file[n - 1])) {
                Some(i) => if same_entry(entries[i], file[n - 1]) {
                    Ok(entries)
                } else {
                    Err(n - 1)
                },
                None => Ok(entries.push(file[n - 1])),
            },
        }
    }
}

proof fn lemma_conflict_stays(
    known: Seq<GlossaryEntry>,
    file: Seq<GlossaryEntry>,
    n: nat,
    m: nat,
)
    requires
        n <= m,
        imported_after(known, file, n) is Err,
    ensures
        imported_after(known, file, m) == imported_after(known, file, n),
    decreases m,
{
    if n < m {
        lemma_conflict_stays(known, file, n, (m - 1) as nat);
    }
}

fn find_key(entries: &Vec<GlossaryEntry>, wanted: &str) -> (r: Option<usize>)
    ensures
        first_with_key(entries@, wanted@) == match r {
            Some(i) => Some(i as int),
            None => None,
        },
        r matches Some(i) ==> i < entries@.len(),
{
    proof {
        lemma_first_with_key(entries@, wanted@);
    }
    let mut i: usize = 0;
    while i < entries.len()
        invariant
            i <= entries@.len(),
            forall|k: int| 0 <= k < i ==> key(#[trigger] entries@[k]) != wanted@,
            match first_with_key(entries@, wanted@) {
                Some(f) => 0 <= f < entries@.len() && key(entries@[f]) == wanted@ && forall|k: int|
                    0 <= k < f ==> key(#[trigger] entries@[k]) != wanted@,
                None => forall|k: int|
                    0 <= k < entries@.len() ==> key(#[trigger] entries@[k]) != wanted@,
            },
        decreases entries@.len() - i,
    {
        let form = normalize_term(entries[i].source.as_str());
        if text::same(form.as_str(), wanted) {
            assert(key(entries@[i as int]) == wanted@);
            return Some(i);
        }
        assert(key(entries@[i as int]) != wanted@);
        i += 1;
    }
    None
}

/// A settled term or one to leave alone has that key.
pub open spec fn is_settled(
    entries: Seq<GlossaryEntry>,
    ignored: Seq<String>,
    wanted: Seq<char>,
) -> bool {
    ||| exists|i: int| 0 <= i < entries.len() && key(#[trigger] entries[i]) == wanted
    ||| exists|i: int| 0 <= i < ignored.len() && normalize::term_form((#[trigger] ignored[i])@)
        == wanted
}

/// The first `n` proposals without those that are settled and those that were there before.
pub open spec fn remaining(
    entries: Seq<GlossaryEntry>,
    ignored: Seq<String>,
    candidates: Seq<GlossaryCandidate>,
    n: nat,
) -> Seq<GlossaryCandidate>
    decreases n,
{
    if n == 0 {
        Seq::empty()
    } else {
        let head = remaining(entries, ignored, candidates, (n - 1) as nat);
        if is_settled(entries, ignored, normalize::term_form(candidates[n - 1].source@))
            || project_glossary::seen_before(candidates, n - 1) {
            head
        } else {
            head.push(candidates[n - 1])
        }
    }
}

proof fn lemma_remaining(
    bare: ProjectGlossary,
    candidates: Seq<GlossaryCandidate>,
    n: nat,
)
    requires
        bare.candidates@.len() == 0,
    ensures
        project_glossary::fresh(bare, candidates, n) == remaining(
            bare.entries@,
            bare.ignored@,
            candidates,
            n,
        ),
    decreases n,
{
    if n > 0 {
        lemma_remaining(bare, candidates, (n - 1) as nat);
        let wanted = normalize::term_form(candidates[n - 1].source@);
        assert(project_glossary::is_excluded(bare, wanted) == is_settled(
            bare.entries@,
            bare.ignored@,
            wanted,
        )) by {
            if is_settled(bare.entries@, bare.ignored@, wanted) {
                if exists|i: int|
                    0 <= i < bare.entries@.len() && key(#[trigger] bare.entries@[i]) == wanted {
                    let i = choose|i: int|
                        0 <= i < bare.entries@.len() && key(#[trigger] bare.entries@[i]) == wanted;
                    assert(normalize::term_form(bare.entries@[i].source@) == wanted);
                }
            }
        }
    }
}

/// The terms of the project with those of a file. Where they agree the file adds what is new; the
/// proposals that are settled by it go. `size` is how many bytes the file takes.
pub fn import_glossary(size: u64, glossary: ProjectGlossary, file: ProjectGlossary) -> (r: Result<
    ProjectGlossary,
    ImportFault,
>)
    ensures
        if size > MAX_IMPORT_BYTES {
            r == Err::<ProjectGlossary, _>(ImportFault::TooLarge)
        } else {
            match project_glossary::glossary_fault(file) {
                Some(fault) => r == Err::<ProjectGlossary, _>(ImportFault::Invalid(fault)),
                None => match imported_after(
                    glossary.entries@,
                    file.entries@,
                    file.entries@.len(),
                ) {
                    Err(at) => r matches Err(ImportFault::Conflict(i)) && i == at,
                    Ok(entries) => r matches Ok(merged) && merged.entries@ == entries
                        && merged.ignored == glossary.ignored && merged.candidates@ == remaining(
                        entries,
                        glossary.ignored@,
                        glossary.candidates@,
                        glossary.candidates@.len(),
                    ),
                },
            }
        },
{
    if size > MAX_IMPORT_BYTES {
        return Err(ImportFault::TooLarge);
    }
    match file.validate_entries() {
        Ok(()) => {},
        Err(fault) => return Err(ImportFault::Invalid(fault)),
    }
    let ProjectGlossary { entries, candidates, ignored } = glossary;
    let ghost known = entries@;
    let mut entries = entries;
    let mut rest = file.entries;
    let ghost added = rest@;
    let total: usize = rest.len();
    let mut done: usize = 0;
    assert(added.skip(0) =~= added);
    while rest.len() > 0
        invariant
            size <= MAX_IMPORT_BYTES,
            project_glossary::glossary_fault(file) is None,
            known == glossary.entries@,
            added == file.entries@,
            total == added.len(),
            done + rest.len() == total,
            rest@ == added.skip(done as int),
            imported_after(known, added, done as nat) == Ok::<Seq<GlossaryEntry>, int>(entries@),
        decreases rest@.len(),
    {
        let entry = rest.remove(0);
        proof {
            assert(entry == added[done as int]);
            assert(added.skip(done as int).remove(0) =~= added.skip(done + 1));
        }
        let form = normalize_term(entry.source.as_str());
        match find_key(&entries, form.as_str()) {
            Some(i) => {
                if !entries_match(&entries[i], &entry) {
                    proof {
                        lemma_conflict_stays(known, added, (done + 1) as nat, added.len());
                    }
                    return Err(ImportFault::Conflict(done));
                }
            },
            None => {
                entries.push(entry);
            },
        }
        done += 1;
    }
    let mut merged = ProjectGlossary { entries, candidates: Vec::new(), ignored };
    proof {
        lemma_remaining(merged, candidates@, candidates@.len());
    }
    merged.replace_candidates(candidates);
    Ok(merged)
}

/// What an import has found or added stays found.
proof fn lemma_imported(known: Seq<GlossaryEntry>, file: Seq<GlossaryEntry>, n: nat)
    requires
        n <= file.len(),
        imported_after(known, file, n) is Ok,
    ensures
        ({
            let entries = imported_after(known, file, n)->Ok_0;
            &&& known.len() <= entries.len()
            &&& entries.take(known.len() as int) == known
            &&& forall|i: int|
                known.len() <= i < entries.len() ==> file.contains(#[trigger] entries[i])
            &&& forall|j: int|
                0 <= j < n ==> match first_with_key(entries, key(#[trigger] file[j])) {
                    Some(i) => same_entry(entries[i], file[j]),
                    None => false,
                }
        }),
    decreases n,
{
    let entries = imported_after(known, file, n)->Ok_0;
    if n == 0 {
        assert(entries.take(known.len() as int) =~= known);
    } else {
        lemma_imported(known, file, (n - 1) as nat);
        let before = imported_after(known, file, (n - 1) as nat)->Ok_0;
        let entry = file[n - 1];
        lemma_first_with_key(before, key(entry));
        if first_with_key(before, key(entry)) is None {
            assert(entries == before.push(entry));
            assert(entries.drop_last() =~= before);
            assert(entries.take(known.len() as int) =~= before.take(known.len() as int));
            assert forall|j: int| 0 <= j < n implies match first_with_key(
                entries,
                key(#[trigger] file[j]),
            ) {
                Some(i) => same_entry(entries[i], file[j]),
                None => false,
            } by {
                if j < n - 1 {
                    lemma_first_with_key(before, key(file[j]));
                }
            }
        }
    }
}

/// An import keeps every term of the project and adds none but those of the file, and each term of
/// the file is there afterwards.
pub proof fn lemma_import_adds(known: Seq<GlossaryEntry>, file: Seq<GlossaryEntry>)
    requires
        imported_after(known, file, file.len()) is Ok,
    ensures
        ({
            let entries = imported_after(known, file, file.len())->Ok_0;
            &&& known.len() <= entries.len()
            &&& entries.take(known.len() as int) == known
            &&& forall|i: int|
                known.len() <= i < entries.len() ==> file.contains(#[trigger] entries[i])
            &&& forall|j: int|
                0 <= j < file.len() ==> exists|i: int|
                    0 <= i < entries.len() && same_entry(#[trigger] entries[i], #[trigger] file[j])
        }),
{
    lemma_imported(known, file, file.len());
    let entries = imported_after(known, file, file.len())->Ok_0;
    assert forall|j: int| 0 <= j < file.len() implies exists|i: int|
        0 <= i < entries.len() && same_entry(#[trigger] entries[i], #[trigger] file[j]) by {
        lemma_first_with_key(entries, key(file[j]));
        let i = first_with_key(entries, key(file[j]))->0;
        assert(same_entry(entries[i], file[j]));
    }
}

/// To import a file a second time changes nothing.
pub proof fn lemma_import_twice(known: Seq<GlossaryEntry>, file: Seq<GlossaryEntry>)
    requires
        imported_after(known, file, file.len()) is Ok,
    ensures
        ({
            let entries = imported_after(known, file, file.len())->Ok_0;
            imported_after(entries, file, file.len()) == Ok::<Seq<GlossaryEntry>, int>(entries)
        }),
{
    lemma_imported(known, file, file.len());
    lemma_nothing_new(imported_after(known, file, file.len())->Ok_0, file, file.len());
}

proof fn lemma_nothing_new(entries: Seq<GlossaryEntry>, file: Seq<GlossaryEntry>, n: nat)
    requires
        n <= file.len(),
        forall|j: int|
            0 <= j < file.len() ==> match first_with_key(entries, key(#[trigger] file[j])) {
                Some(i) => same_entry(entries[i], file[j]),
                None => false,
            },
    ensures
        imported_after(entries, file, n) == Ok::<Seq<GlossaryEntry>, int>(entries),
    decreases n,
{
    if n > 0 {
        lemma_nothing_new(entries, file, (n - 1) as nat);
        assert(file[n - 1] == file[n - 1]);
    }
}

impl DocumentFault {
    /// What is said where terms are not saved.
    pub open spec fn says_of_save(self) -> Seq<char> {
        match self {
            DocumentFault::Invalid(fault) => fault.says(),
            DocumentFault::Processing =>
                "edit the glossary during review or after stopping processing"@,
            DocumentFault::ProjectChanged => "the active project changed"@,
            DocumentFault::GlossaryChanged => "the glossary changed; reload before saving"@,
        }
    }

    /// What is said where terms are not translated.
    pub open spec fn says_of_suggestion(self) -> Seq<char> {
        match self {
            DocumentFault::Processing =>
                "wait for glossary review or stop processing before translating candidates"@,
            _ => self.says_of_save(),
        }
    }

    /// What is said where terms are not saved.
    pub fn save_message(self) -> (r: &'static str)
        ensures
            r@ == self.says_of_save(),
    {
        match self {
            DocumentFault::Invalid(fault) => fault.message(),
            DocumentFault::Processing =>
                "edit the glossary during review or after stopping processing",
            DocumentFault::ProjectChanged => "the active project changed",
            DocumentFault::GlossaryChanged => "the glossary changed; reload before saving",
        }
    }

    /// What is said where terms are not translated.
    pub fn suggestion_message(self) -> (r: &'static str)
        ensures
            r@ == self.says_of_suggestion(),
    {
        match self {
            DocumentFault::Processing =>
                "wait for glossary review or stop processing before translating candidates",
            _ => self.save_message(),
        }
    }
}

impl ImportFault {
    /// What is said of the fault of a file.
    pub open spec fn says(self, file: ProjectGlossary) -> Seq<char> {
        match self {
            ImportFault::TooLarge => "glossary JSON exceeds 4 MiB"@,
            ImportFault::Invalid(fault) => fault.says(),
            ImportFault::Conflict(at) => "conflicting imported term: "@ + (if at < file.entries@.len() {
                file.entries@[at as int].source@
            } else {
                Seq::empty()
            }),
        }
    }

    /// What is said of the fault of a file.
    pub fn message(self, file: &ProjectGlossary) -> (r: String)
        ensures
            r@ == self.says(*file),
    {
        match self {
            ImportFault::TooLarge => "glossary JSON exceeds 4 MiB".to_owned(),
            ImportFault::Invalid(fault) => fault.message().to_owned(),
            ImportFault::Conflict(at) => {
                if at < file.entries.len() {
                    text::joined("conflicting imported term: ", file.entries[at].source.as_str())
                } else {
                    let message = "conflicting imported term: ".to_owned();
                    assert(message@ + Seq::empty() =~= message@);
                    message
                }
            },
        }
    }
}

/// What is imported is there afterwards, and nothing that was there is lost: each term of the file
/// has one among the settled terms with its source, target, category, notes and switch; each settled
/// term stands where it stood; and a term that no settled one has the form of is added as it is.
pub proof fn lemma_imported_terms_are_there(
    known: Seq<GlossaryEntry>,
    file: Seq<GlossaryEntry>,
    entries: Seq<GlossaryEntry>,
    j: int,
) -> (i: int)
    requires
        imported_after(known, file, file.len()) == Ok::<Seq<GlossaryEntry>, int>(entries),
        0 <= j < file.len(),
    ensures
        0 <= i < entries.len(),
        entries[i].source@ == file[j].source@,
        entries[i].target@ == file[j].target@,
        entries[i].category == file[j].category,
        entries[i].notes@ == file[j].notes@,
        entries[i].enabled == file[j].enabled,
        forall|k: int| 0 <= k < known.len() ==> #[trigger] entries[k] == known[k],
        known.len() <= entries.len() <= known.len() + file.len(),
{
    lemma_imported(known, file, file.len());
    lemma_import_grows(known, file, file.len());
    lemma_first_with_key(entries, key(file[j]));
    let i = first_with_key(entries, key(file[j]))->0;
    assert(same_entry(entries[i], file[j]));
    assert forall|k: int| 0 <= k < known.len() implies #[trigger] entries[k] == known[k] by {
        assert(entries.take(known.len() as int)[k] == entries[k]);
    }
    i
}

proof fn lemma_import_grows(known: Seq<GlossaryEntry>, file: Seq<GlossaryEntry>, n: nat)
    ensures
        imported_after(known, file, n) matches Ok(entries) ==> entries.len() <= known.len() + n,
    decreases n,
{
    if n > 0 {
        lemma_import_grows(known, file, (n - 1) as nat);
    }
}

/// A file is refused for a term that the project settled otherwise: where a settled term has the
/// form of a term of the file, stands before any other of that form, and differs from it in source,
/// target, category, notes or switch, the import is refused, at that term or at one before it.
pub proof fn lemma_a_conflict_is_refused(
    known: Seq<GlossaryEntry>,
    file: Seq<GlossaryEntry>,
    i: int,
    j: int,
)
    requires
        0 <= i < known.len(),
        0 <= j < file.len(),
        normalize::term_form(known[i].source@) == normalize::term_form(file[j].source@),
        forall|k: int|
            0 <= k < i ==> normalize::term_form((#[trigger] known[k]).source@)
                != normalize::term_form(file[j].source@),
        known[i].source@ != file[j].source@ || known[i].target@ != file[j].target@
            || known[i].category != file[j].category || known[i].notes@ != file[j].notes@
            || known[i].enabled != file[j].enabled,
    ensures
        imported_after(known, file, file.len()) matches Err(at) && 0 <= at <= j,
{
    lemma_conflict_place(known, file, (j + 1) as nat);
    match imported_after(known, file, j as nat) {
        Ok(entries) => {
            lemma_imported(known, file, j as nat);
            lemma_first_with_key(entries, key(file[j]));
            assert(entries.take(known.len() as int)[i] == entries[i]);
            assert forall|k: int| 0 <= k < i implies key(#[trigger] entries[k]) != key(
                file[j],
            ) by {
                assert(entries.take(known.len() as int)[k] == entries[k]);
                assert(normalize::term_form(known[k].source@) != normalize::term_form(
                    file[j].source@,
                ));
            }
            assert(first_with_key(entries, key(file[j])) == Some(i));
        },
        Err(_) => {
            lemma_conflict_stays(known, file, j as nat, (j + 1) as nat);
        },
    }
    assert(imported_after(known, file, (j + 1) as nat) is Err);
    lemma_conflict_stays(known, file, (j + 1) as nat, file.len());
}

proof fn lemma_conflict_place(known: Seq<GlossaryEntry>, file: Seq<GlossaryEntry>, n: nat)
    ensures
        imported_after(known, file, n) matches Err(at) ==> 0 <= at < n,
    decreases n,
{
    if n > 0 {
        lemma_conflict_place(known, file, (n - 1) as nat);
    }
}

/// Terms may be saved only over the terms that were read: where the project holds another term, a
/// term more or less, or belongs to another project, the edit is refused.
pub proof fn lemma_saved_over_what_was_read(
    expected: GlossaryDocument,
    glossary: ProjectGlossary,
    jobs: Seq<Job>,
    current: GlossaryDocument,
)
    requires
        save_fault(expected, glossary, jobs, current) is None,
    ensures
        current.project == expected.project,
        project_glossary::glossary_fault(glossary) is None,
        forall|i: int|
            0 <= i < jobs.len() ==> (#[trigger] jobs[i]).kind == JobKind::Export || jobs[i].state
                != JobState::Running,
        current.glossary.entries@.len() == expected.glossary.entries@.len(),
        current.glossary.candidates@.len() == expected.glossary.candidates@.len(),
        current.glossary.ignored@.len() == expected.glossary.ignored@.len(),
        forall|i: int|
            0 <= i < current.glossary.entries@.len() ==> {
                let a = #[trigger] current.glossary.entries@[i];
                let b = expected.glossary.entries@[i];
                &&& a.source@ == b.source@
                &&& a.target@ == b.target@
                &&& a.category == b.category
                &&& a.notes@ == b.notes@
                &&& a.enabled == b.enabled
            },
        forall|i: int|
            0 <= i < current.glossary.candidates@.len() ==> {
                let a = #[trigger] current.glossary.candidates@[i];
                let b = expected.glossary.candidates@[i];
                &&& a.source@ == b.source@
                &&& a.suggested_target@ == b.suggested_target@
                &&& a.category == b.category
                &&& a.occurrences == b.occurrences
                &&& a.page_count == b.page_count
            },
        forall|i: int|
            0 <= i < current.glossary.ignored@.len() ==> (
            #[trigger] current.glossary.ignored@[i])@ == expected.glossary.ignored@[i]@,
{
    assert forall|i: int| 0 <= i < current.glossary.entries@.len() implies {
        let a = #[trigger] current.glossary.entries@[i];
        let b = expected.glossary.entries@[i];
        &&& a.source@ == b.source@
        &&& a.target@ == b.target@
        &&& a.category == b.category
        &&& a.notes@ == b.notes@
        &&& a.enabled == b.enabled
    } by {
        assert(same_entry(current.glossary.entries@[i], expected.glossary.entries@[i]));
    }
    assert forall|i: int| 0 <= i < current.glossary.candidates@.len() implies {
        let a = #[trigger] current.glossary.candidates@[i];
        let b = expected.glossary.candidates@[i];
        &&& a.source@ == b.source@
        &&& a.suggested_target@ == b.suggested_target@
        &&& a.category == b.category
        &&& a.occurrences == b.occurrences
        &&& a.page_count == b.page_count
    } by {
        assert(same_candidate(
            current.glossary.candidates@[i],
            expected.glossary.candidates@[i],
        ));
    }
}

/// Valid terms of a project that nothing works on may be saved over themselves.
pub proof fn lemma_an_edit_can_be_saved(
    current: GlossaryDocument,
    glossary: ProjectGlossary,
    jobs: Seq<Job>,
)
    requires
        project_glossary::glossary_fault(glossary) is None,
        forall|i: int|
            0 <= i < jobs.len() ==> (#[trigger] jobs[i]).kind == JobKind::Export || jobs[i].state
                != JobState::Running,
    ensures
        save_fault(current, glossary, jobs, current) is None,
{
}

/// An import leaves of the proposals those that nothing settles: a proposal whose form no settled
/// term, no term to leave alone and no earlier proposal has stays as it is.
pub proof fn lemma_open_proposals_stay(
    entries: Seq<GlossaryEntry>,
    ignored: Seq<String>,
    candidates: Seq<GlossaryCandidate>,
    n: nat,
    i: int,
)
    requires
        n <= candidates.len(),
        0 <= i < n,
    ensures
        (forall|k: int|
            0 <= k < entries.len() ==> normalize::term_form((#[trigger] entries[k]).source@)
                != normalize::term_form(candidates[i].source@)) && (forall|k: int|
            0 <= k < ignored.len() ==> normalize::term_form((#[trigger] ignored[k])@)
                != normalize::term_form(candidates[i].source@)) && (forall|k: int|
            0 <= k < i ==> normalize::term_form((#[trigger] candidates[k]).source@)
                != normalize::term_form(candidates[i].source@)) ==> remaining(
            entries,
            ignored,
            candidates,
            n,
        ).contains(candidates[i]),
        forall|q: int, k: int|
            0 <= q < remaining(entries, ignored, candidates, n).len() && 0 <= k < entries.len()
                ==> normalize::term_form((#[trigger] entries[k]).source@) != normalize::term_form(
                (#[trigger] remaining(entries, ignored, candidates, n)[q]).source@,
            ),
    decreases n,
{
    let head = remaining(entries, ignored, candidates, (n - 1) as nat);
    let all = remaining(entries, ignored, candidates, n);
    if n > 1 {
        lemma_open_proposals_stay(
            entries,
            ignored,
            candidates,
            (n - 1) as nat,
            if i < n - 1 {
                i
            } else {
                0
            },
        );
    }
    if i < n - 1 {
        if head.contains(candidates[i]) {
            let q = choose|q: int| 0 <= q < head.len() && head[q] == candidates[i];
            assert(all[q] == candidates[i]);
        }
    } else if (forall|k: int|
        0 <= k < entries.len() ==> normalize::term_form((#[trigger] entries[k]).source@)
            != normalize::term_form(candidates[i].source@)) && (forall|k: int|
        0 <= k < ignored.len() ==> normalize::term_form((#[trigger] ignored[k])@)
            != normalize::term_form(candidates[i].source@)) && (forall|k: int|
        0 <= k < i ==> normalize::term_form((#[trigger] candidates[k]).source@)
            != normalize::term_form(candidates[i].source@)) {
        assert(all[head.len() as int] == candidates[i]);
    }
    assert forall|q: int, k: int|
        0 <= q < all.len() && 0 <= k < entries.len() implies normalize::term_form(
        (#[trigger] entries[k]).source@,
    ) != normalize::term_form((#[trigger] all[q]).source@) by {
        if q < head.len() {
            assert(all[q] == head[q]);
        } else {
            assert(key(entries[k]) != normalize::term_form(candidates[n - 1].source@));
        }
    }
}

/// A glossary is the same as itself; and of two that are the same the terms, the proposals and the
/// terms to leave alone are as many, and say the same at each place.
pub proof fn lemma_same_glossaries(a: ProjectGlossary, b: ProjectGlossary, i: int)
    ensures
        same_glossary(a, a),
        same_glossary(a, b) ==> a.entries@.len() == b.entries@.len() && a.candidates@.len()
            == b.candidates@.len() && a.ignored@.len() == b.ignored@.len(),
        same_glossary(a, b) && 0 <= i < a.entries@.len() ==> a.entries@[i].source@
            == b.entries@[i].source@ && a.entries@[i].target@ == b.entries@[i].target@
            && a.entries@[i].category == b.entries@[i].category && a.entries@[i].notes@
            == b.entries@[i].notes@ && a.entries@[i].enabled == b.entries@[i].enabled,
        same_glossary(a, b) && 0 <= i < a.candidates@.len() ==> a.candidates@[i].source@
            == b.candidates@[i].source@ && a.candidates@[i].suggested_target@
            == b.candidates@[i].suggested_target@ && a.candidates@[i].category
            == b.candidates@[i].category && a.candidates@[i].occurrences
            == b.candidates@[i].occurrences && a.candidates@[i].page_count
            == b.candidates@[i].page_count,
        same_glossary(a, b) && 0 <= i < a.ignored@.len() ==> a.ignored@[i]@ == b.ignored@[i]@,
{
}

/// Translations are asked for ten thousand terms at most, and of terms without fault.
pub proof fn lemma_terms_that_are_suggested_for(entries: Seq<GlossaryEntry>)
    ensures
        entries.len() > 10_000 ==> entries_fault(entries) == Some(GlossaryFault::TooMany),
        entries.len() <= 10_000 ==> entries_fault(entries) == project_glossary::first_entry_fault(
            entries,
            entries.len(),
        ),
{
}

/// Work on the texts is any job but an export that is running.
pub proof fn lemma_jobs_that_process(jobs: Seq<Job>, i: int)
    requires
        0 <= i < jobs.len(),
    ensures
        jobs[i].state is Running && !(jobs[i].kind is Export) ==> some_processing(jobs),
        (forall|k: int|
            0 <= k < jobs.len() ==> !((#[trigger] jobs[k]).state is Running) || jobs[k].kind is Export)
            ==> !some_processing(jobs),
{
}

} // verus!
