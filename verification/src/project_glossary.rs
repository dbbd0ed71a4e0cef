//! The terms of a project: those that are settled, those that are proposed, those to leave alone.
pub mod document;

use crate::normalize;
use crate::normalize::{normalize_term, normalize_text};
use crate::order::Ranked;
use crate::text;
use vstd::prelude::*;

verus! {

/// How many terms of each sort a project may have.
pub const MAX_TERMS: usize = 10_000;

/// How many bytes a source term may take.
pub const MAX_SOURCE_BYTES: usize = 1024;

/// How many bytes a target or a note may take.
pub const MAX_TARGET_BYTES: usize = 4096;

/// What a term names.
#[derive(Clone, Copy, Debug, PartialEq, Eq, Structural)]
pub enum GlossaryCategory {
    Person,
    Place,
    Organization,
    Title,
    Skill,
    Item,
    Terminology,
    Other,
}

impl Default for GlossaryCategory {
    /// A term of which nothing is known.
    fn default() -> (r: Self)
        ensures
            r == GlossaryCategory::Other,
    {
        GlossaryCategory::Other
    }
}

/// A settled term.
#[derive(Debug)]
pub struct GlossaryEntry {
    pub source: String,
    pub target: String,
    pub category: GlossaryCategory,
    pub notes: String,
    pub enabled: bool,
}

impl Clone for GlossaryEntry {
    /// The same term once more.
    fn clone(&self) -> (r: Self)
        ensures
            r == *self,
    {
        GlossaryEntry {
            source: self.source.clone(),
            target: self.target.clone(),
            category: self.category,
            notes: self.notes.clone(),
            enabled: self.enabled,
        }
    }
}

/// A proposed term.
#[derive(Debug)]
pub struct GlossaryCandidate {
    pub source: String,
    pub suggested_target: String,
    pub category: GlossaryCategory,
    pub occurrences: u32,
    pub page_count: u32,
}

impl Clone for GlossaryCandidate {
    /// The same proposal once more.
    fn clone(&self) -> (r: Self)
        ensures
            r == *self,
    {
        GlossaryCandidate {
            source: self.source.clone(),
            suggested_target: self.suggested_target.clone(),
            category: self.category,
            occurrences: self.occurrences,
            page_count: self.page_count,
        }
    }
}

/// The terms of a project.
#[derive(Debug)]
pub struct ProjectGlossary {
    pub entries: Vec<GlossaryEntry>,
    pub candidates: Vec<GlossaryCandidate>,
    /// Terms that are not to be proposed.
    pub ignored: Vec<String>,
}

/// What is wrong with the terms of a project.
#[derive(Clone, Copy, Debug, PartialEq, Eq, Structural)]
pub enum GlossaryFault {
    /// There are too many of one sort.
    TooMany,
    /// The entry at this place has an empty or oversized field.
    Entry(usize),
    /// The entry at this place has the source of one before it.
    DuplicateEntry(usize),
    /// The candidate at this place is empty, oversized, or there twice.
    Candidate(usize),
    /// An ignored term is too long.
    LongIgnored,
}

/// How many bytes `s` takes.
pub open spec fn bytes(s: Seq<char>) -> nat {
    vstd::utf8::encode_utf8(s).len()
}

/// What is wrong with the entry at `i`, the ones before it being right.
pub open spec fn entry_fault(entries: Seq<GlossaryEntry>, i: int) -> Option<GlossaryFault> {
    let entry = entries[i];
    let key = normalize::term_form(entry.source@);
    if key.len() == 0 || bytes(entry.source@) > MAX_SOURCE_BYTES || bytes(entry.target@)
        > MAX_TARGET_BYTES || bytes(entry.notes@) > MAX_TARGET_BYTES || (entry.enabled
        && text::is_blank(entry.target@)) {
        Some(GlossaryFault::Entry(i as usize))
    } else if exists|j: int|
        0 <= j < i && normalize::term_form((#[trigger] entries[j]).source@) == key {
        Some(GlossaryFault::DuplicateEntry(i as usize))
    } else {
        None
    }
}

/// The first of the first `n` entries that is wrong.
pub open spec fn first_entry_fault(entries: Seq<GlossaryEntry>, n: nat) -> Option<GlossaryFault>
    decreases n,
{
    if n == 0 {
        None
    } else {
        match first_entry_fault(entries, (n - 1) as nat) {
            Some(fault) => Some(fault),
            None => entry_fault(entries, n - 1),
        }
    }
}

/// Whether the candidate at `i` is wrong, the ones before it being right.
pub open spec fn bad_candidate(candidates: Seq<GlossaryCandidate>, i: int) -> bool {
    let candidate = candidates[i];
    let key = normalize::term_form(candidate.source@);
    ||| key.len() == 0
    ||| bytes(candidate.source@) > MAX_SOURCE_BYTES
    ||| bytes(candidate.suggested_target@) > MAX_TARGET_BYTES
    ||| exists|j: int| 0 <= j < i && normalize::term_form((#[trigger] candidates[j]).source@) == key
}

/// The first of the first `n` candidates that is wrong.
pub open spec fn first_bad_candidate(
    candidates: Seq<GlossaryCandidate>,
    n: nat,
) -> Option<GlossaryFault>
    decreases n,
{
    if n == 0 {
        None
    } else {
        match first_bad_candidate(candidates, (n - 1) as nat) {
            Some(fault) => Some(fault),
            None => if bad_candidate(candidates, n - 1) {
                Some(GlossaryFault::Candidate((n - 1) as usize))
            } else {
                None
            },
        }
    }
}

pub open spec fn some_long_ignored(ignored: Seq<String>) -> bool {
    exists|i: int| 0 <= i < ignored.len() && bytes((#[trigger] ignored[i])@) > MAX_SOURCE_BYTES
}

/// What is wrong with the terms of a project: their number, the entries, the candidates, the terms
/// to leave alone, in that order.
pub open spec fn glossary_fault(glossary: ProjectGlossary) -> Option<GlossaryFault> {
    if glossary.entries@.len() > MAX_TERMS || glossary.candidates@.len() > MAX_TERMS
        || glossary.ignored@.len() > MAX_TERMS {
        Some(GlossaryFault::TooMany)
    } else {
        match first_entry_fault(glossary.entries@, glossary.entries@.len()) {
            Some(fault) => Some(fault),
            None => match first_bad_candidate(glossary.candidates@, glossary.candidates@.len()) {
                Some(fault) => Some(fault),
                None => if some_long_ignored(glossary.ignored@) {
                    Some(GlossaryFault::LongIgnored)
                } else {
                    None
                },
            },
        }
    }
}

proof fn lemma_entry_fault_stays(entries: Seq<GlossaryEntry>, m: nat, n: nat)
    requires
        m <= n,
        first_entry_fault(entries, m) is Some,
    ensures
        first_entry_fault(entries, n) == first_entry_fault(entries, m),
    decreases n,
{
    if m < n {
        lemma_entry_fault_stays(entries, m, (n - 1) as nat);
    }
}

proof fn lemma_candidate_fault_stays(candidates: Seq<GlossaryCandidate>, m: nat, n: nat)
    requires
        m <= n,
        first_bad_candidate(candidates, m) is Some,
    ensures
        first_bad_candidate(candidates, n) == first_bad_candidate(candidates, m),
    decreases n,
{
    if m < n {
        lemma_candidate_fault_stays(candidates, m, (n - 1) as nat);
    }
}

fn check_entries(entries: &Vec<GlossaryEntry>) -> (r: Option<GlossaryFault>)
    ensures
        r == first_entry_fault(entries@, entries@.len()),
{
    let mut keys: Vec<String> = Vec::new();
    let mut i: usize = 0;
    while i < entries.len()
        invariant
            i <= entries@.len(),
            keys@.len() == i,
            forall|j: int|
                0 <= j < i ==> (#[trigger] keys@[j])@ == normalize::term_form(entries@[j].source@),
            first_entry_fault(entries@, i as nat) is None,
        decreases entries@.len() - i,
    {
        let entry = &entries[i];
        let key = normalize_term(entry.source.as_str());
        if key.as_str().is_empty() || text::byte_len(entry.source.as_str()) > MAX_SOURCE_BYTES
            || text::byte_len(entry.target.as_str()) > MAX_TARGET_BYTES || text::byte_len(
            entry.notes.as_str(),
        ) > MAX_TARGET_BYTES || (entry.enabled && text::blank(entry.target.as_str())) {
            proof {
                lemma_entry_fault_stays(entries@, (i + 1) as nat, entries@.len());
            }
            return Some(GlossaryFault::Entry(i));
        }
        if text::among(&keys, key.as_str()) {
            proof {
                let j = choose|j: int|
                    0 <= j < text::texts(keys@).len() && text::texts(keys@)[j] == key@;
                assert(keys@[j]@ == key@);
                assert(normalize::term_form(entries@[j].source@) == key@);
                lemma_entry_fault_stays(entries@, (i + 1) as nat, entries@.len());
            }
            return Some(GlossaryFault::DuplicateEntry(i));
        }
        proof {
            assert forall|j: int| 0 <= j < i implies normalize::term_form(
                (#[trigger] entries@[j]).source@,
            ) != key@ by {
                assert(text::texts(keys@)[j] == keys@[j]@);
                assert(keys@[j]@ == normalize::term_form(entries@[j].source@));
            }
        }
        keys.push(key);
        i += 1;
    }
    None
}

fn check_candidates(candidates: &Vec<GlossaryCandidate>) -> (r: Option<GlossaryFault>)
    ensures
        r == first_bad_candidate(candidates@, candidates@.len()),
{
    let mut keys: Vec<String> = Vec::new();
    let mut i: usize = 0;
    while i < candidates.len()
        invariant
            i <= candidates@.len(),
            keys@.len() == i,
            forall|j: int|
                0 <= j < i ==> (#[trigger] keys@[j])@ == normalize::term_form(
                    candidates@[j].source@,
                ),
            first_bad_candidate(candidates@, i as nat) is None,
        decreases candidates@.len() - i,
    {
        let candidate = &candidates[i];
        let key = normalize_term(candidate.source.as_str());
        let known = text::among(&keys, key.as_str());
        proof {
            if known {
                let j = choose|j: int|
                    0 <= j < text::texts(keys@).len() && text::texts(keys@)[j] == key@;
                assert(keys@[j]@ == key@);
                assert(normalize::term_form(candidates@[j].source@) == key@);
            } else {
                assert forall|j: int| 0 <= j < i implies normalize::term_form(
                    (#[trigger] candidates@[j]).source@,
                ) != key@ by {
                    assert(text::texts(keys@)[j] == keys@[j]@);
                    assert(keys@[j]@ == normalize::term_form(candidates@[j].source@));
                }
            }
        }
        if key.as_str().is_empty() || text::byte_len(candidate.source.as_str()) > MAX_SOURCE_BYTES
            || text::byte_len(candidate.suggested_target.as_str()) > MAX_TARGET_BYTES || known {
            proof {
                lemma_candidate_fault_stays(candidates@, (i + 1) as nat, candidates@.len());
            }
            return Some(GlossaryFault::Candidate(i));
        }
        keys.push(key);
        i += 1;
    }
    None
}

fn has_long_ignored(ignored: &Vec<String>) -> (r: bool)
    ensures
        r == some_long_ignored(ignored@),
{
    let mut i: usize = 0;
    while i < ignored.len()
        invariant
            i <= ignored@.len(),
            forall|j: int| 0 <= j < i ==> bytes((#[trigger] ignored@[j])@) <= MAX_SOURCE_BYTES,
        decreases ignored@.len() - i,
    {
        if text::byte_len(ignored[i].as_str()) > MAX_SOURCE_BYTES {
            return true;
        }
        i += 1;
    }
    false
}

// ---------------------------------------------------------------------------------------------
// Candidates
// ---------------------------------------------------------------------------------------------

/// The term is settled or to be left alone.
pub open spec fn is_excluded(glossary: ProjectGlossary, key: Seq<char>) -> bool {
    ||| exists|i: int|
        0 <= i < glossary.entries@.len() && normalize::term_form(
            (#[trigger] glossary.entries@[i]).source@,
        ) == key
    ||| exists|i: int|
        0 <= i < glossary.ignored@.len() && normalize::term_form((#[trigger] glossary.ignored@[i])@)
            == key
}

/// The last of the first `n` candidates with that key.
pub open spec fn last_with_key(
    candidates: Seq<GlossaryCandidate>,
    n: nat,
    key: Seq<char>,
) -> Option<GlossaryCandidate>
    decreases n,
{
    if n == 0 {
        None
    } else if normalize::term_form(candidates[n - 1].source@) == key {
        Some(candidates[n - 1])
    } else {
        last_with_key(candidates, (n - 1) as nat, key)
    }
}

/// A new candidate keeps the target and category of the one that it takes the place of.
pub open spec fn merged(
    glossary: ProjectGlossary,
    candidate: GlossaryCandidate,
) -> GlossaryCandidate {
    match last_with_key(
        glossary.candidates@,
        glossary.candidates@.len(),
        normalize::term_form(candidate.source@),
    ) {
        Some(known) => GlossaryCandidate {
            suggested_target: known.suggested_target,
            category: known.category,
            ..candidate
        },
        None => candidate,
    }
}

/// An earlier candidate has that key.
pub open spec fn seen_before(candidates: Seq<GlossaryCandidate>, i: int) -> bool {
    exists|j: int|
        0 <= j < i && normalize::term_form((#[trigger] candidates[j]).source@)
            == normalize::term_form(candidates[i].source@)
}

/// The candidates of `found` that are neither excluded nor there before, each merged.
pub open spec fn fresh(
    glossary: ProjectGlossary,
    found: Seq<GlossaryCandidate>,
    n: nat,
) -> Seq<GlossaryCandidate>
    decreases n,
{
    if n == 0 {
        Seq::empty()
    } else {
        let head = fresh(glossary, found, (n - 1) as nat);
        if is_excluded(glossary, normalize::term_form(found[n - 1].source@)) || seen_before(
            found,
            n - 1,
        ) {
            head
        } else {
            head.push(merged(glossary, found[n - 1]))
        }
    }
}

fn find_last(candidates: &Vec<GlossaryCandidate>, key: &str) -> (r: Option<usize>)
    ensures
        last_with_key(candidates@, candidates@.len(), key@) == (match r {
            Some(i) => Some(candidates@[i as int]),
            None => None,
        }),
        r matches Some(i) ==> i < candidates@.len(),
{
    let mut n: usize = candidates.len();
    while n > 0
        invariant
            n <= candidates@.len(),
            last_with_key(candidates@, candidates@.len(), key@) == last_with_key(
                candidates@,
                n as nat,
                key@,
            ),
        decreases n,
    {
        let form = normalize_term(candidates[n - 1].source.as_str());
        if text::same(form.as_str(), key) {
            return Some(n - 1);
        }
        n -= 1;
    }
    None
}

impl ProjectGlossary {
    /// No terms.
    pub fn new() -> (r: Self)
        ensures
            r.entries@.len() == 0,
            r.candidates@.len() == 0,
            r.ignored@.len() == 0,
    {
        ProjectGlossary { entries: Vec::new(), candidates: Vec::new(), ignored: Vec::new() }
    }

    /// Checks the terms of a project.
    pub fn validate_entries(&self) -> (r: Result<(), GlossaryFault>)
        ensures
            r == (match glossary_fault(*self) {
                Some(fault) => Err::<(), GlossaryFault>(fault),
                None => Ok(()),
            }),
    {
        if self.entries.len() > MAX_TERMS || self.candidates.len() > MAX_TERMS || self.ignored.len()
            > MAX_TERMS {
            return Err(GlossaryFault::TooMany);
        }
        match check_entries(&self.entries) {
            Some(fault) => return Err(fault),
            None => {},
        }
        match check_candidates(&self.candidates) {
            Some(fault) => return Err(fault),
            None => {},
        }
        if has_long_ignored(&self.ignored) {
            return Err(GlossaryFault::LongIgnored);
        }
        Ok(())
    }

    fn excludes(&self, key: &str) -> (r: bool)
        ensures
            r == is_excluded(*self, key@),
    {
        let mut i: usize = 0;
        while i < self.entries.len()
            invariant
                i <= self.entries@.len(),
                forall|j: int|
                    0 <= j < i ==> normalize::term_form((#[trigger] self.entries@[j]).source@)
                        != key@,
            decreases self.entries@.len() - i,
        {
            let form = normalize_term(self.entries[i].source.as_str());
            if text::same(form.as_str(), key) {
                return true;
            }
            i += 1;
        }
        let mut i: usize = 0;
        while i < self.ignored.len()
            invariant
                i <= self.ignored@.len(),
                forall|j: int|
                    0 <= j < self.entries@.len() ==> normalize::term_form(
                        (#[trigger] self.entries@[j]).source@,
                    ) != key@,
                forall|j: int|
                    0 <= j < i ==> normalize::term_form((#[trigger] self.ignored@[j])@) != key@,
            decreases self.ignored@.len() - i,
        {
            let form = normalize_term(self.ignored[i].as_str());
            if text::same(form.as_str(), key) {
                return true;
            }
            i += 1;
        }
        false
    }

    /// Puts the candidates of a new search in the place of the old ones. What is settled or to be
    /// left alone is not proposed again, and what was decided on a candidate stays.
    pub fn replace_candidates(&mut self, candidates: Vec<GlossaryCandidate>)
        ensures
            final(self).entries == old(self).entries,
            final(self).ignored == old(self).ignored,
            final(self).candidates@ == fresh(*old(self), candidates@, candidates@.len()),
    {
        let ghost before = *self;
        let mut keys: Vec<String> = Vec::new();
        let mut out: Vec<GlossaryCandidate> = Vec::new();
        let mut i: usize = 0;
        while i < candidates.len()
            invariant
                i <= candidates@.len(),
                *self == before,
                keys@.len() == i,
                forall|j: int|
                    0 <= j < i ==> (#[trigger] keys@[j])@ == normalize::term_form(
                        candidates@[j].source@,
                    ),
                out@ == fresh(before, candidates@, i as nat),
            decreases candidates@.len() - i,
        {
            let key = normalize_term(candidates[i].source.as_str());
            let seen = text::among(&keys, key.as_str());
            proof {
                if seen {
                    let j = choose|j: int|
                        0 <= j < text::texts(keys@).len() && text::texts(keys@)[j] == key@;
                    assert(keys@[j]@ == key@);
                    assert(normalize::term_form(candidates@[j].source@) == key@);
                } else {
                    assert forall|j: int| 0 <= j < i implies normalize::term_form(
                        (#[trigger] candidates@[j]).source@,
                    ) != key@ by {
                        assert(text::texts(keys@)[j] == keys@[j]@);
                        assert(keys@[j]@ == normalize::term_form(candidates@[j].source@));
                    }
                }
                assert(seen == seen_before(candidates@, i as int));
            }
            if !self.excludes(key.as_str()) && !seen {
                let mut candidate = candidates[i].clone();
                match find_last(&self.candidates, key.as_str()) {
                    Some(k) => {
                        candidate.suggested_target = self.candidates[k].suggested_target.clone();
                        candidate.category = self.candidates[k].category;
                    },
                    None => {},
                }
                assert(candidate == merged(before, candidates@[i as int]));
                out.push(candidate);
            }
            keys.push(key);
            i += 1;
        }
        self.candidates = out;
    }
}

/// After a search no candidate is a settled term, and none is there twice.
pub proof fn lemma_candidates_are_separate(
    glossary: ProjectGlossary,
    found: Seq<GlossaryCandidate>,
    n: nat,
)
    requires
        n <= found.len(),
    ensures
        forall|i: int|
            0 <= i < fresh(glossary, found, n).len() ==> !is_excluded(
                glossary,
                normalize::term_form((#[trigger] fresh(glossary, found, n)[i]).source@),
            ),
        forall|i: int, j: int|
            0 <= i < j < fresh(glossary, found, n).len() ==> normalize::term_form(
                (#[trigger] fresh(glossary, found, n)[i]).source@,
            ) != normalize::term_form((#[trigger] fresh(glossary, found, n)[j]).source@),
{
    lemma_fresh_keys(glossary, found, n);
}

proof fn lemma_fresh_keys(glossary: ProjectGlossary, found: Seq<GlossaryCandidate>, n: nat)
    requires
        n <= found.len(),
    ensures
        forall|i: int|
            0 <= i < fresh(glossary, found, n).len() ==> !is_excluded(
                glossary,
                normalize::term_form((#[trigger] fresh(glossary, found, n)[i]).source@),
            ),
        forall|i: int|
            0 <= i < fresh(glossary, found, n).len() ==> exists|k: int|
                0 <= k < n && normalize::term_form((#[trigger] found[k]).source@)
                    == normalize::term_form((#[trigger] fresh(glossary, found, n)[i]).source@),
        forall|i: int, j: int|
            0 <= i < j < fresh(glossary, found, n).len() ==> normalize::term_form(
                (#[trigger] fresh(glossary, found, n)[i]).source@,
            ) != normalize::term_form((#[trigger] fresh(glossary, found, n)[j]).source@),
    decreases n,
{
    if n > 0 {
        let m = (n - 1) as nat;
        lemma_fresh_keys(glossary, found, m);
        let head = fresh(glossary, found, m);
        let all = fresh(glossary, found, n);
        assert forall|i: int| 0 <= i < all.len() implies exists|k: int|
            0 <= k < n && normalize::term_form((#[trigger] found[k]).source@)
                == normalize::term_form((#[trigger] all[i]).source@) by {
            if i < head.len() {
                assert(all[i] == head[i]);
                let k = choose|k: int|
                    0 <= k < m && normalize::term_form((#[trigger] found[k]).source@)
                        == normalize::term_form(head[i].source@);
                assert(normalize::term_form(found[k].source@) == normalize::term_form(
                    all[i].source@,
                ));
            } else {
                assert(normalize::term_form(found[n - 1].source@) == normalize::term_form(
                    all[i].source@,
                ));
            }
        }
        assert forall|i: int, j: int| 0 <= i < j < all.len() implies normalize::term_form(
            (#[trigger] all[i]).source@,
        ) != normalize::term_form((#[trigger] all[j]).source@) by {
            assert(all[i] == head[i]);
            if j < head.len() {
                assert(all[j] == head[j]);
            } else {
                let k = choose|k: int|
                    0 <= k < m && normalize::term_form((#[trigger] found[k]).source@)
                        == normalize::term_form(head[i].source@);
                assert(!seen_before(found, n - 1));
                assert(normalize::term_form(found[k].source@) != normalize::term_form(
                    found[n - 1].source@,
                ));
            }
        }
        assert forall|i: int| 0 <= i < all.len() implies !is_excluded(
            glossary,
            normalize::term_form((#[trigger] all[i]).source@),
        ) by {
            if i < head.len() {
                assert(all[i] == head[i]);
            }
        }
    }
}

proof fn lemma_fresh_grows(
    glossary: ProjectGlossary,
    found: Seq<GlossaryCandidate>,
    m: nat,
    n: nat,
)
    requires
        m <= n <= found.len(),
    ensures
        fresh(glossary, found, m).len() <= fresh(glossary, found, n).len(),
        fresh(glossary, found, n).take(fresh(glossary, found, m).len() as int) == fresh(
            glossary,
            found,
            m,
        ),
    decreases n,
{
    let short = fresh(glossary, found, m);
    if m < n {
        lemma_fresh_grows(glossary, found, m, (n - 1) as nat);
        let head = fresh(glossary, found, (n - 1) as nat);
        assert(fresh(glossary, found, n).take(short.len() as int) =~= head.take(
            short.len() as int,
        ));
    } else {
        assert(short.take(short.len() as int) =~= short);
    }
}

proof fn lemma_only_with_key(candidates: Seq<GlossaryCandidate>, n: nat, at: int)
    requires
        0 <= at < n <= candidates.len(),
        forall|i: int|
            at < i < n ==> normalize::term_form((#[trigger] candidates[i]).source@)
                != normalize::term_form(candidates[at].source@),
    ensures
        last_with_key(candidates, n, normalize::term_form(candidates[at].source@)) == Some(
            candidates[at],
        ),
    decreases n,
{
    if at < n - 1 {
        lemma_only_with_key(candidates, (n - 1) as nat, at);
    }
}

proof fn lemma_fresh_again(
    glossary: ProjectGlossary,
    after: ProjectGlossary,
    found: Seq<GlossaryCandidate>,
    n: nat,
)
    requires
        n <= found.len(),
        after.entries == glossary.entries,
        after.ignored == glossary.ignored,
        after.candidates@ == fresh(glossary, found, found.len()),
    ensures
        fresh(after, found, n) == fresh(glossary, found, n),
    decreases n,
{
    if n > 0 {
        let m = (n - 1) as nat;
        lemma_fresh_again(glossary, after, found, m);
        let key = normalize::term_form(found[n - 1].source@);
        assert(is_excluded(after, key) == is_excluded(glossary, key));
        if !is_excluded(glossary, key) && !seen_before(found, n - 1) {
            let all = fresh(glossary, found, found.len());
            let at = fresh(glossary, found, m).len() as int;
            lemma_fresh_grows(glossary, found, n, found.len());
            lemma_fresh_keys(glossary, found, found.len());
            assert(all[at] == all.take(at + 1)[at]);
            assert(all[at] == merged(glossary, found[n - 1]));
            lemma_only_with_key(all, all.len(), at);
            assert(merged(after, found[n - 1]) == merged(glossary, found[n - 1]));
        }
    }
}

/// A search that finds the same candidates again changes nothing.
pub proof fn lemma_replacing_again(
    glossary: ProjectGlossary,
    after: ProjectGlossary,
    found: Seq<GlossaryCandidate>,
)
    requires
        after.entries == glossary.entries,
        after.ignored == glossary.ignored,
        after.candidates@ == fresh(glossary, found, found.len()),
    ensures
        fresh(after, found, found.len()) == after.candidates@,
{
    lemma_fresh_again(glossary, after, found, found.len());
}

// ---------------------------------------------------------------------------------------------
// Matches
// ---------------------------------------------------------------------------------------------

/// A term found in a text: the bytes from `start` to `end` of the normalized text.
#[derive(Clone, Copy, Debug, PartialEq, Eq, Structural)]
pub struct GlossaryMatch {
    pub start: usize,
    pub end: usize,
    pub entry: usize,
}

pub open spec fn is_word_char(c: char) -> bool {
    'A' <= c <= 'Z' || 'a' <= c <= 'z' || '0' <= c <= '9' || c == '_'
}

/// The term does not begin or end inside a Latin word.
pub open spec fn stands_alone(text: Seq<char>, at: int, term: Seq<char>) -> bool {
    let end = at + term.len();
    &&& !(term.len() > 0 && is_word_char(term[0]) && at > 0 && is_word_char(text[at - 1]))
    &&& !(term.len() > 0 && is_word_char(term.last()) && end < text.len() && is_word_char(text[end]))
}

/// The term that an entry stands for in a text: none where it is off or has no target.
pub open spec fn active_term(entry: GlossaryEntry) -> Seq<char> {
    if entry.enabled && !text::is_blank(entry.target@) {
        normalize::term_form(entry.source@)
    } else {
        Seq::empty()
    }
}

/// The terms of the entries.
pub open spec fn active_terms(entries: Seq<GlossaryEntry>) -> Seq<Seq<char>> {
    Seq::new(entries.len(), |i: int| active_term(entries[i]))
}

/// Term `i` stands at `at`, on its own.
pub open spec fn found_at(terms: Seq<Seq<char>>, text: Seq<char>, at: int, i: int) -> bool {
    &&& 0 <= i < terms.len()
    &&& terms[i].len() > 0
    &&& text::occurs_at(text, terms[i], at)
    &&& stands_alone(text, at, terms[i])
}

/// Term `i` is the longest that stands at `at`, and of several as long the first.
pub open spec fn longest_at(terms: Seq<Seq<char>>, text: Seq<char>, at: int, i: int) -> bool {
    &&& found_at(terms, text, at, i)
    &&& forall|j: int| #[trigger]
        found_at(terms, text, at, j) ==> terms[j].len() < terms[i].len() || (terms[j].len()
            == terms[i].len() && i <= j)
}

/// A term found in a text, by characters.
pub struct Span {
    pub start: int,
    pub end: int,
    pub entry: int,
}

/// The terms found from `at` on: at each place the longest, and the search goes on behind it.
pub open spec fn spans_from(terms: Seq<Seq<char>>, text: Seq<char>, at: int) -> Seq<Span>
    decreases text.len() - at,
{
    if at < 0 || at >= text.len() {
        Seq::empty()
    } else if exists|i: int| longest_at(terms, text, at, i) {
        let i = choose|i: int| longest_at(terms, text, at, i);
        let end = at + terms[i].len();
        seq![Span { start: at, end, entry: i }] + spans_from(terms, text, end)
    } else {
        spans_from(terms, text, at + 1)
    }
}

/// How many bytes stand before character `at`.
pub open spec fn bytes_before(text: Seq<char>, at: int) -> nat {
    bytes(text.take(at))
}

impl GlossaryMatch {
    /// This is the span, by bytes.
    pub open spec fn marks(self, text: Seq<char>, span: Span) -> bool {
        &&& self.start == bytes_before(text, span.start)
        &&& self.end == bytes_before(text, span.end)
        &&& self.entry == span.entry
    }
}

fn word_char(c: char) -> (r: bool)
    ensures
        r == is_word_char(c),
{
    ('A' <= c && c <= 'Z') || ('a' <= c && c <= 'z') || ('0' <= c && c <= '9') || c == '_'
}

fn word_boundary(text: &Vec<char>, at: usize, term: &Vec<char>) -> (r: bool)
    requires
        at + term@.len() <= text.len(),
        term@.len() > 0,
    ensures
        r == stands_alone(text@, at as int, term@),
{
    let end: usize = at + term.len();
    let joins_left = word_char(term[0]) && at > 0 && word_char(text[at - 1]);
    let joins_right = word_char(term[term.len() - 1]) && end < text.len() && word_char(text[end]);
    !joins_left && !joins_right
}

/// The longest term at `at`, or the number of terms where none stands there.
fn find_longest(terms: &Vec<Vec<char>>, text: &Vec<char>, at: usize) -> (r: usize)
    requires
        at < text@.len(),
    ensures
        ({
            let t = Seq::new(terms@.len(), |i: int| terms@[i]@);
            &&& r <= terms@.len()
            &&& r < terms@.len() ==> longest_at(t, text@, at as int, r as int)
            &&& r == terms@.len() ==> forall|i: int| !#[trigger] found_at(t, text@, at as int, i)
        }),
{
    let ghost t = Seq::new(terms@.len(), |i: int| terms@[i]@);
    let mut best: usize = terms.len();
    let mut i: usize = 0;
    while i < terms.len()
        invariant
            t == Seq::new(terms@.len(), |i: int| terms@[i]@),
            i <= terms@.len(),
            at < text@.len(),
            best < i || best == terms@.len(),
            best < terms@.len() ==> found_at(t, text@, at as int, best as int),
            forall|j: int| 0 <= j < i && #[trigger]
                found_at(t, text@, at as int, j) ==> best < terms@.len() && (t[j].len()
                < t[best as int].len() || (t[j].len() == t[best as int].len() && best <= j)),
        decreases terms@.len() - i,
    {
        let ghost was = best;
        assert(t[i as int] == terms@[i as int]@);
        if terms[i].len() > 0 && text::stands_at(text, &terms[i], at) && word_boundary(
            text,
            at,
            &terms[i],
        ) {
            assert(found_at(t, text@, at as int, i as int));
            if best == terms.len() || terms[best].len() < terms[i].len() {
                best = i;
            }
        } else {
            assert(!found_at(t, text@, at as int, i as int));
        }
        i += 1;
    }
    best
}

proof fn lemma_longest_unique(terms: Seq<Seq<char>>, text: Seq<char>, at: int, i: int, j: int)
    requires
        longest_at(terms, text, at, i),
        longest_at(terms, text, at, j),
    ensures
        i == j,
{
    assert(found_at(terms, text, at, i));
    assert(found_at(terms, text, at, j));
}

fn terms_of(entries: &Vec<GlossaryEntry>) -> (r: Vec<Vec<char>>)
    ensures
        r@.len() == entries@.len(),
        forall|i: int| 0 <= i < r@.len() ==> (#[trigger] r@[i])@ == active_terms(entries@)[i],
{
    let mut terms: Vec<Vec<char>> = Vec::new();
    let mut i: usize = 0;
    while i < entries.len()
        invariant
            i <= entries@.len(),
            terms@.len() == i,
            forall|j: int| 0 <= j < i ==> (#[trigger] terms@[j])@ == active_terms(entries@)[j],
        decreases entries@.len() - i,
    {
        let entry = &entries[i];
        if entry.enabled && !text::blank(entry.target.as_str()) {
            let term = normalize_term(entry.source.as_str());
            terms.push(text::chars_of(term.as_str()));
        } else {
            let none: Vec<char> = Vec::new();
            assert(none@ =~= Seq::empty());
            terms.push(none);
        }
        i += 1;
    }
    terms
}

proof fn lemma_bytes_grow(text: Seq<char>, a: int, b: int)
    requires
        0 <= a <= b <= text.len(),
    ensures
        bytes_before(text, b) == bytes_before(text, a) + bytes(text.subrange(a, b)),
        bytes_before(text, b) <= bytes(text),
{
    text::lemma_bytes_of_concat(text.take(a), text.subrange(a, b));
    assert(text.take(b) =~= text.take(a) + text.subrange(a, b));
    text::lemma_bytes_of_concat(text.take(b), text.skip(b));
    assert(text =~= text.take(b) + text.skip(b));
}

/// Where the terms stand in a text that is already normalized.
pub fn matches_in(text: &str, entries: &Vec<GlossaryEntry>) -> (r: Vec<GlossaryMatch>)
    ensures
        ({
            let spans = spans_from(active_terms(entries@), text@, 0);
            &&& r@.len() == spans.len()
            &&& forall|i: int| 0 <= i < r@.len() ==> (#[trigger] r@[i]).marks(text@, spans[i])
        }),
{
    let v = text::chars_of(text);
    let limit: usize = text::byte_len(text);
    let terms = terms_of(entries);
    let ghost t = active_terms(entries@);
    let ghost all = spans_from(t, text@, 0);
    let mut out: Vec<GlossaryMatch> = Vec::new();
    let mut at: usize = 0;
    let mut offset: usize = 0;
    proof {
        assert(Seq::new(terms@.len(), |i: int| terms@[i]@) =~= t);
        assert(text@.take(0) =~= Seq::empty());
        assert(Seq::<Span>::empty() + all =~= all);
        assert(all.take(0) =~= Seq::empty());
    }
    while at < v.len()
        invariant
            v@ == text@,
            limit == bytes(text@),
            t == active_terms(entries@),
            Seq::new(terms@.len(), |i: int| terms@[i]@) == t,
            terms@.len() == entries@.len(),
            all == spans_from(t, text@, 0),
            at <= v@.len(),
            offset == bytes_before(text@, at as int),
            out@.len() <= all.len(),
            all == all.take(out@.len() as int) + spans_from(t, text@, at as int),
            forall|i: int| 0 <= i < out@.len() ==> (#[trigger] out@[i]).marks(text@, all[i]),
        decreases v@.len() - at,
    {
        let i: usize = find_longest(&terms, &v, at);
        if i < terms.len() {
            proof {
                let k = choose|k: int| longest_at(t, text@, at as int, k);
                lemma_longest_unique(t, text@, at as int, k, i as int);
                assert(t[i as int] == terms@[i as int]@);
                lemma_bytes_grow(text@, at as int, at + t[i as int].len());
            }
            let end: usize = at + terms[i].len();
            let term = text::string_of(&terms[i]);
            let end_offset: usize = offset + text::byte_len(term.as_str());
            out.push(GlossaryMatch { start: offset, end: end_offset, entry: i });
            proof {
                let n = out@.len() as int - 1;
                let rest = spans_from(t, text@, at as int);
                let span = Span { start: at as int, end: end as int, entry: i as int };
                assert(rest == seq![span] + spans_from(t, text@, end as int));
                assert(all[n] == rest[0]);
                assert(all.take(n + 1) =~= all.take(n).push(span));
                assert(all =~= all.take(n + 1) + spans_from(t, text@, end as int));
            }
            at = end;
            offset = end_offset;
        } else {
            proof {
                assert forall|k: int| !longest_at(t, text@, at as int, k) by {}
                lemma_bytes_grow(text@, at as int, at + 1);
            }
            let step = text::string_of_range(&v, at, at + 1);
            offset = offset + text::byte_len(step.as_str());
            at += 1;
        }
    }
    proof {
        assert(spans_from(t, text@, at as int) =~= Seq::empty());
        assert(all =~= all.take(out@.len() as int));
    }
    out
}

/// The normalized text, and where the terms stand in it.
pub fn glossary_matches(source: &str, entries: &Vec<GlossaryEntry>) -> (r: (
    String,
    Vec<GlossaryMatch>,
))
    ensures
        r.0@ == normalize::text_form(source@),
        ({
            let spans = spans_from(active_terms(entries@), r.0@, 0);
            &&& r.1@.len() == spans.len()
            &&& forall|i: int| 0 <= i < r.1@.len() ==> (#[trigger] r.1@[i]).marks(r.0@, spans[i])
        }),
{
    let text = normalize_text(source);
    let matches = matches_in(text.as_str(), entries);
    (text, matches)
}

/// The terms found do not overlap, stand in the order of the text, and are what the text holds
/// there.
pub proof fn lemma_spans(terms: Seq<Seq<char>>, text: Seq<char>, at: int)
    requires
        0 <= at <= text.len(),
    ensures
        forall|i: int|
            0 <= i < spans_from(terms, text, at).len() ==> {
                let span = #[trigger] spans_from(terms, text, at)[i];
                &&& at <= span.start < span.end <= text.len()
                &&& longest_at(terms, text, span.start, span.entry)
                &&& text.subrange(span.start, span.end) == terms[span.entry]
            },
        forall|i: int, j: int|
            0 <= i < j < spans_from(terms, text, at).len() ==> (#[trigger] spans_from(
                terms,
                text,
                at,
            )[i]).end <= (#[trigger] spans_from(terms, text, at)[j]).start,
    decreases text.len() - at,
{
    if at < text.len() {
        if exists|i: int| longest_at(terms, text, at, i) {
            let i = choose|i: int| longest_at(terms, text, at, i);
            let end = at + terms[i].len();
            lemma_spans(terms, text, end);
            let rest = spans_from(terms, text, end);
            let all = spans_from(terms, text, at);
            assert(all == seq![Span { start: at, end, entry: i }] + rest);
            assert forall|k: int| 0 <= k < all.len() implies {
                let span = #[trigger] all[k];
                &&& at <= span.start < span.end <= text.len()
                &&& longest_at(terms, text, span.start, span.entry)
                &&& text.subrange(span.start, span.end) == terms[span.entry]
            } by {
                if k > 0 {
                    assert(all[k] == rest[k - 1]);
                }
            }
            assert forall|a: int, b: int| 0 <= a < b < all.len() implies (#[trigger] all[a]).end <= (
            #[trigger] all[b]).start by {
                assert(all[b] == rest[b - 1]);
                if a > 0 {
                    assert(all[a] == rest[a - 1]);
                }
            }
        } else {
            lemma_spans(terms, text, at + 1);
            assert(spans_from(terms, text, at) == spans_from(terms, text, at + 1));
        }
    } else {
        assert(spans_from(terms, text, at).len() == 0);
    }
}

// ---------------------------------------------------------------------------------------------
// Selection
// ---------------------------------------------------------------------------------------------

impl Ranked for GlossaryEntry {
    /// Longer terms first, and terms as long by their source.
    open spec fn ranks(self, other: Self) -> bool {
        let a = bytes(normalize::term_form(self.source@));
        let b = bytes(normalize::term_form(other.source@));
        a > b || (a == b && text::text_le(self.source@, other.source@))
    }

    proof fn total(a: Self, b: Self) {
        text::lemma_text_le_total(a.source@, b.source@);
    }

    proof fn transitive(a: Self, b: Self, c: Self) {
        if text::text_le(a.source@, b.source@) && text::text_le(b.source@, c.source@) {
            text::lemma_text_le_transitive(a.source@, b.source@, c.source@);
        }
    }

    fn not_after(&self, other: &Self) -> (r: bool) {
        let a: usize = text::byte_len(normalize_term(self.source.as_str()).as_str());
        let b: usize = text::byte_len(normalize_term(other.source.as_str()).as_str());
        a > b || (a == b && text::not_after(self.source.as_str(), other.source.as_str()))
    }
}

/// Entry `i` is found in a segment.
pub open spec fn is_used(entries: Seq<GlossaryEntry>, segments: Seq<String>, i: int) -> bool {
    exists|s: int, k: int|
        0 <= s < segments.len() && 0 <= k < spans_from(
            active_terms(entries),
            normalize::text_form(segments[s]@),
            0,
        ).len() && (#[trigger] spans_from(
            active_terms(entries),
            normalize::text_form(segments[s]@),
            0,
        )[k]).entry == i
}

/// The first `n` entries that are found in a segment.
pub open spec fn used_entries(
    entries: Seq<GlossaryEntry>,
    segments: Seq<String>,
    n: nat,
) -> Seq<GlossaryEntry>
    decreases n,
{
    if n == 0 {
        Seq::empty()
    } else if is_used(entries, segments, n - 1) {
        used_entries(entries, segments, (n - 1) as nat).push(entries[n - 1])
    } else {
        used_entries(entries, segments, (n - 1) as nat)
    }
}

/// Notes which entries the matches are of.
fn mark_used(matches: &Vec<GlossaryMatch>, used: &mut Vec<bool>)
    requires
        forall|k: int| 0 <= k < matches@.len() ==> (#[trigger] matches@[k]).entry < old(used)@.len(),
    ensures
        final(used)@.len() == old(used)@.len(),
        forall|i: int|
            0 <= i < final(used)@.len() ==> #[trigger] final(used)@[i] == (old(used)@[i] || exists|
                k: int,
            |
                0 <= k < matches@.len() && (#[trigger] matches@[k]).entry == i),
{
    let ghost before = used@;
    let mut k: usize = 0;
    while k < matches.len()
        invariant
            k <= matches@.len(),
            used@.len() == before.len(),
            forall|j: int| 0 <= j < matches@.len() ==> (#[trigger] matches@[j]).entry < used@.len(),
            forall|i: int|
                0 <= i < used@.len() ==> #[trigger] used@[i] == (before[i] || exists|j: int|
                    0 <= j < k && (#[trigger] matches@[j]).entry == i),
        decreases matches@.len() - k,
    {
        let ghost was = used@;
        let entry: usize = matches[k].entry;
        used.set(entry, true);
        proof {
            assert forall|i: int| 0 <= i < used@.len() implies #[trigger] used@[i] == (before[i]
                || exists|j: int| 0 <= j < k + 1 && (#[trigger] matches@[j]).entry == i) by {
                if i == entry {
                    assert(matches@[k as int].entry == i);
                } else {
                    assert(used@[i] == was[i]);
                }
            }
        }
        k += 1;
    }
}

/// The entries found in a segment, longer terms first, and terms as long by their source.
pub fn relevant_glossary(segments: &Vec<String>, entries: &Vec<GlossaryEntry>) -> (r: Vec<
    GlossaryEntry,
>)
    ensures
        r@ == crate::order::arranged(used_entries(entries@, segments@, entries@.len())),
{
    let ghost t = active_terms(entries@);
    let mut used: Vec<bool> = Vec::new();
    let mut i: usize = 0;
    while i < entries.len()
        invariant
            i <= entries@.len(),
            used@.len() == i,
            forall|j: int| 0 <= j < i ==> !#[trigger] used@[j],
        decreases entries@.len() - i,
    {
        used.push(false);
        i += 1;
    }
    let mut s: usize = 0;
    while s < segments.len()
        invariant
            s <= segments@.len(),
            t == active_terms(entries@),
            used@.len() == entries@.len(),
            forall|i: int|
                0 <= i < used@.len() ==> #[trigger] used@[i] == exists|q: int, k: int|
                    0 <= q < s && 0 <= k < spans_from(
                        t,
                        normalize::text_form(segments@[q]@),
                        0,
                    ).len() && (#[trigger] spans_from(
                        t,
                        normalize::text_form(segments@[q]@),
                        0,
                    )[k]).entry == i,
        decreases segments@.len() - s,
    {
        let (form, matches) = glossary_matches(segments[s].as_str(), entries);
        let ghost spans = spans_from(t, normalize::text_form(segments@[s as int]@), 0);
        let ghost was = used@;
        proof {
            lemma_spans(t, form@, 0);
            assert forall|k: int| 0 <= k < matches@.len() implies (#[trigger] matches@[k]).entry
                < used@.len() by {
                assert(matches@[k].marks(form@, spans[k]));
                assert(longest_at(t, form@, spans[k].start, spans[k].entry));
            }
        }
        mark_used(&matches, &mut used);
        proof {
            assert forall|i: int| 0 <= i < used@.len() implies #[trigger] used@[i] == exists|
                q: int,
                k: int,
            |
                0 <= q < s + 1 && 0 <= k < spans_from(
                    t,
                    normalize::text_form(segments@[q]@),
                    0,
                ).len() && (#[trigger] spans_from(
                    t,
                    normalize::text_form(segments@[q]@),
                    0,
                )[k]).entry == i by {
                if was[i] {
                    let (q, k) = choose|q: int, k: int|
                        0 <= q < s && 0 <= k < spans_from(
                            t,
                            normalize::text_form(segments@[q]@),
                            0,
                        ).len() && (#[trigger] spans_from(
                            t,
                            normalize::text_form(segments@[q]@),
                            0,
                        )[k]).entry == i;
                    assert(spans_from(t, normalize::text_form(segments@[q]@), 0)[k].entry == i);
                } else if used@[i] {
                    let k = choose|k: int| 0 <= k < matches@.len() && (#[trigger] matches@[k]).entry == i;
                    assert(matches@[k].marks(form@, spans[k]));
                    assert(spans_from(t, normalize::text_form(segments@[s as int]@), 0)[k].entry
                        == i);
                } else {
                    assert forall|k: int| 0 <= k < spans.len() implies (#[trigger] spans[k]).entry
                        != i by {
                        assert(matches@[k].marks(form@, spans[k]));
                        assert(matches@[k].entry != i);
                    }
                }
            }
        }
        s += 1;
    }
    let mut selected: Vec<GlossaryEntry> = Vec::new();
    let mut i: usize = 0;
    while i < entries.len()
        invariant
            i <= entries@.len(),
            t == active_terms(entries@),
            used@.len() == entries@.len(),
            forall|i: int|
                0 <= i < used@.len() ==> #[trigger] used@[i] == is_used(entries@, segments@, i),
            selected@ == used_entries(entries@, segments@, i as nat),
        decreases entries@.len() - i,
    {
        if used[i] {
            selected.push(entries[i].clone());
        }
        i += 1;
    }
    crate::order::sorted(selected)
}

impl GlossaryFault {
    /// What is said of the fault.
    pub open spec fn says(self) -> Seq<char> {
        match self {
            GlossaryFault::TooMany => "glossary exceeds 10000 entries"@,
            GlossaryFault::Entry(_) => "glossary entry has an empty or oversized field"@,
            GlossaryFault::DuplicateEntry(_) => "glossary contains duplicate source terms"@,
            GlossaryFault::Candidate(_) => "invalid or duplicate glossary candidate"@,
            GlossaryFault::LongIgnored => "ignored glossary term is too long"@,
        }
    }

    /// What is said of the fault.
    pub fn message(self) -> (r: &'static str)
        ensures
            r@ == self.says(),
    {
        match self {
            GlossaryFault::TooMany => "glossary exceeds 10000 entries",
            GlossaryFault::Entry(_) => "glossary entry has an empty or oversized field",
            GlossaryFault::DuplicateEntry(_) => "glossary contains duplicate source terms",
            GlossaryFault::Candidate(_) => "invalid or duplicate glossary candidate",
            GlossaryFault::LongIgnored => "ignored glossary term is too long",
        }
    }
}

// ---------------------------------------------------------------------------------------------
// Laws
// ---------------------------------------------------------------------------------------------

/// The terms of a project that pass: no more than 10000 of each sort; every settled term has a source
/// that is not blank once normalized and takes 1024 bytes at most, a target and notes of 4096 bytes
/// at most, and a target that is not blank where it is on; no two have one source; and so for the
/// candidates.
pub proof fn lemma_valid_terms(glossary: ProjectGlossary, i: int)
    requires
        glossary_fault(glossary) is None,
    ensures
        glossary.entries@.len() <= 10_000,
        glossary.candidates@.len() <= 10_000,
        glossary.ignored@.len() <= 10_000,
        0 <= i < glossary.entries@.len() ==> {
            let entry = glossary.entries@[i];
            &&& normalize::term_form(entry.source@).len() > 0
            &&& vstd::utf8::encode_utf8(entry.source@).len() <= 1024
            &&& vstd::utf8::encode_utf8(entry.target@).len() <= 4096
            &&& vstd::utf8::encode_utf8(entry.notes@).len() <= 4096
            &&& entry.enabled ==> exists|p: int|
                0 <= p < entry.target@.len() && !text::is_whitespace(#[trigger] entry.target@[p])
            &&& forall|j: int|
                0 <= j < glossary.entries@.len() && j != i ==> normalize::term_form(
                    (#[trigger] glossary.entries@[j]).source@,
                ) != normalize::term_form(entry.source@)
        },
        0 <= i < glossary.candidates@.len() ==> {
            let candidate = glossary.candidates@[i];
            &&& normalize::term_form(candidate.source@).len() > 0
            &&& vstd::utf8::encode_utf8(candidate.source@).len() <= 1024
            &&& vstd::utf8::encode_utf8(candidate.suggested_target@).len() <= 4096
            &&& forall|j: int|
                0 <= j < glossary.candidates@.len() && j != i ==> normalize::term_form(
                    (#[trigger] glossary.candidates@[j]).source@,
                ) != normalize::term_form(candidate.source@)
        },
        0 <= i < glossary.ignored@.len() ==> vstd::utf8::encode_utf8(
            glossary.ignored@[i]@,
        ).len() <= 1024,
{
    let entries = glossary.entries@;
    let candidates = glossary.candidates@;
    if 0 <= i < entries.len() {
        lemma_entry_right(entries, entries.len(), i);
        assert forall|j: int| 0 <= j < entries.len() && j != i implies normalize::term_form(
            (#[trigger] entries[j]).source@,
        ) != normalize::term_form(entries[i].source@) by {
            if j > i {
                lemma_entry_right(entries, entries.len(), j);
            }
        }
    }
    if 0 <= i < candidates.len() {
        lemma_candidate_right(candidates, candidates.len(), i);
        assert forall|j: int| 0 <= j < candidates.len() && j != i implies normalize::term_form(
            (#[trigger] candidates[j]).source@,
        ) != normalize::term_form(candidates[i].source@) by {
            if j > i {
                lemma_candidate_right(candidates, candidates.len(), j);
            }
        }
    }
}

proof fn lemma_entry_right(entries: Seq<GlossaryEntry>, n: nat, i: int)
    requires
        0 <= i < n,
        first_entry_fault(entries, n) is None,
    ensures
        entry_fault(entries, i) is None,
    decreases n,
{
    if i < n - 1 {
        lemma_entry_right(entries, (n - 1) as nat, i);
    }
}

proof fn lemma_candidate_right(candidates: Seq<GlossaryCandidate>, n: nat, i: int)
    requires
        0 <= i < n,
        first_bad_candidate(candidates, n) is None,
    ensures
        !bad_candidate(candidates, i),
    decreases n,
{
    if i < n - 1 {
        lemma_candidate_right(candidates, (n - 1) as nat, i);
    }
}

/// Terms that keep to the rules pass: they are refused for nothing else.
pub proof fn lemma_right_terms_pass(glossary: ProjectGlossary)
    requires
        glossary.entries@.len() <= 10_000,
        glossary.candidates@.len() <= 10_000,
        glossary.ignored@.len() <= 10_000,
        forall|i: int|
            0 <= i < glossary.entries@.len() ==> {
                let entry = #[trigger] glossary.entries@[i];
                &&& normalize::term_form(entry.source@).len() > 0
                &&& vstd::utf8::encode_utf8(entry.source@).len() <= 1024
                &&& vstd::utf8::encode_utf8(entry.target@).len() <= 4096
                &&& vstd::utf8::encode_utf8(entry.notes@).len() <= 4096
                &&& entry.enabled ==> !text::is_blank(entry.target@)
            },
        forall|i: int, j: int|
            0 <= i < j < glossary.entries@.len() ==> normalize::term_form(
                (#[trigger] glossary.entries@[i]).source@,
            ) != normalize::term_form((#[trigger] glossary.entries@[j]).source@),
        forall|i: int|
            0 <= i < glossary.candidates@.len() ==> {
                let candidate = #[trigger] glossary.candidates@[i];
                &&& normalize::term_form(candidate.source@).len() > 0
                &&& vstd::utf8::encode_utf8(candidate.source@).len() <= 1024
                &&& vstd::utf8::encode_utf8(candidate.suggested_target@).len() <= 4096
            },
        forall|i: int, j: int|
            0 <= i < j < glossary.candidates@.len() ==> normalize::term_form(
                (#[trigger] glossary.candidates@[i]).source@,
            ) != normalize::term_form((#[trigger] glossary.candidates@[j]).source@),
        forall|i: int|
            0 <= i < glossary.ignored@.len() ==> vstd::utf8::encode_utf8(
                (#[trigger] glossary.ignored@[i])@,
            ).len() <= 1024,
    ensures
        glossary_fault(glossary) is None,
{
    lemma_entries_pass(glossary.entries@, glossary.entries@.len());
    lemma_candidates_pass(glossary.candidates@, glossary.candidates@.len());
}

proof fn lemma_entries_pass(entries: Seq<GlossaryEntry>, n: nat)
    requires
        n <= entries.len(),
        forall|i: int|
            0 <= i < entries.len() ==> {
                let entry = #[trigger] entries[i];
                &&& normalize::term_form(entry.source@).len() > 0
                &&& vstd::utf8::encode_utf8(entry.source@).len() <= 1024
                &&& vstd::utf8::encode_utf8(entry.target@).len() <= 4096
                &&& vstd::utf8::encode_utf8(entry.notes@).len() <= 4096
                &&& entry.enabled ==> !text::is_blank(entry.target@)
            },
        forall|i: int, j: int|
            0 <= i < j < entries.len() ==> normalize::term_form((#[trigger] entries[i]).source@)
                != normalize::term_form((#[trigger] entries[j]).source@),
    ensures
        first_entry_fault(entries, n) is None,
    decreases n,
{
    if n > 0 {
        lemma_entries_pass(entries, (n - 1) as nat);
        let entry = entries[n - 1];
        assert(normalize::term_form(entry.source@).len() > 0);
    }
}

proof fn lemma_candidates_pass(candidates: Seq<GlossaryCandidate>, n: nat)
    requires
        n <= candidates.len(),
        forall|i: int|
            0 <= i < candidates.len() ==> {
                let candidate = #[trigger] candidates[i];
                &&& normalize::term_form(candidate.source@).len() > 0
                &&& vstd::utf8::encode_utf8(candidate.source@).len() <= 1024
                &&& vstd::utf8::encode_utf8(candidate.suggested_target@).len() <= 4096
            },
        forall|i: int, j: int|
            0 <= i < j < candidates.len() ==> normalize::term_form(
                (#[trigger] candidates[i]).source@,
            ) != normalize::term_form((#[trigger] candidates[j]).source@),
    ensures
        first_bad_candidate(candidates, n) is None,
    decreases n,
{
    if n > 0 {
        lemma_candidates_pass(candidates, (n - 1) as nat);
        let candidate = candidates[n - 1];
        assert(normalize::term_form(candidate.source@).len() > 0);
    }
}

/// What a search finds is proposed: a term that is neither settled nor to be left alone, and that the
/// search did not name before, is a candidate, with its source and its counts. A target and a
/// category that were chosen for it stay; without them it has its own.
pub proof fn lemma_what_is_found_is_proposed(
    glossary: ProjectGlossary,
    found: Seq<GlossaryCandidate>,
    i: int,
) -> (k: int)
    requires
        0 <= i < found.len(),
        forall|j: int|
            0 <= j < glossary.entries@.len() ==> normalize::term_form(
                (#[trigger] glossary.entries@[j]).source@,
            ) != normalize::term_form(found[i].source@),
        forall|j: int|
            0 <= j < glossary.ignored@.len() ==> normalize::term_form(
                (#[trigger] glossary.ignored@[j])@,
            ) != normalize::term_form(found[i].source@),
        forall|j: int|
            0 <= j < i ==> normalize::term_form((#[trigger] found[j]).source@)
                != normalize::term_form(found[i].source@),
    ensures
        0 <= k < fresh(glossary, found, found.len()).len(),
        ({
            let candidate = fresh(glossary, found, found.len())[k];
            &&& candidate.source == found[i].source
            &&& candidate.occurrences == found[i].occurrences
            &&& candidate.page_count == found[i].page_count
            &&& (forall|j: int|
                0 <= j < glossary.candidates@.len() ==> normalize::term_form(
                    (#[trigger] glossary.candidates@[j]).source@,
                ) != normalize::term_form(found[i].source@)) ==> candidate.suggested_target
                == found[i].suggested_target && candidate.category == found[i].category
            &&& forall|j: int|
                0 <= j < glossary.candidates@.len() && normalize::term_form(
                    (#[trigger] glossary.candidates@[j]).source@,
                ) == normalize::term_form(found[i].source@) && (forall|m: int|
                    j < m < glossary.candidates@.len() ==> normalize::term_form(
                        (#[trigger] glossary.candidates@[m]).source@,
                    ) != normalize::term_form(found[i].source@)) ==> candidate.suggested_target
                    == glossary.candidates@[j].suggested_target && candidate.category
                    == glossary.candidates@[j].category
        }),
{
    let n = found.len();
    let key = normalize::term_form(found[i].source@);
    let head = fresh(glossary, found, i as nat);
    let k = head.len() as int;
    assert(!is_excluded(glossary, key));
    assert(!seen_before(found, i));
    lemma_fresh_grows(glossary, found, (i + 1) as nat, n);
    let all = fresh(glossary, found, n);
    assert(all[k] == all.take(k + 1)[k]);
    assert(all[k] == merged(glossary, found[i]));
    let known = glossary.candidates@;
    if forall|j: int|
        0 <= j < known.len() ==> normalize::term_form((#[trigger] known[j]).source@) != key {
        lemma_none_with_key(known, known.len(), key);
    }
    assert forall|j: int|
        0 <= j < known.len() && normalize::term_form((#[trigger] known[j]).source@) == key && (
        forall|m: int|
            j < m < known.len() ==> normalize::term_form((#[trigger] known[m]).source@)
                != key) implies all[k].suggested_target == known[j].suggested_target
        && all[k].category == known[j].category by {
        lemma_only_with_key(known, known.len(), j);
    }
    k
}

proof fn lemma_none_with_key(candidates: Seq<GlossaryCandidate>, n: nat, key: Seq<char>)
    requires
        n <= candidates.len(),
        forall|i: int|
            0 <= i < n ==> normalize::term_form((#[trigger] candidates[i]).source@) != key,
    ensures
        last_with_key(candidates, n, key) is None,
    decreases n,
{
    if n > 0 {
        assert(normalize::term_form(candidates[n - 1].source@) != key);
        lemma_none_with_key(candidates, (n - 1) as nat, key);
    }
}

/// What is found in a text. Each place is of a term that is on and has a target; it holds that term,
/// and does not begin or end inside a Latin word; and no longer term stands there on its own.
pub proof fn lemma_a_match_is_a_term(entries: Seq<GlossaryEntry>, text: Seq<char>, k: int)
    requires
        0 <= k < spans_from(active_terms(entries), text, 0).len(),
    ensures
        ({
            let span = spans_from(active_terms(entries), text, 0)[k];
            &&& 0 <= span.entry < entries.len()
            &&& 0 <= span.start < span.end <= text.len()
            &&& entries[span.entry].enabled
            &&& !text::is_blank(entries[span.entry].target@)
            &&& text.subrange(span.start, span.end) == normalize::term_form(
                entries[span.entry].source@,
            )
            &&& span.start > 0 && ('a' <= text[span.start] <= 'z' || 'A' <= text[span.start] <= 'Z'
                || '0' <= text[span.start] <= '9' || text[span.start] == '_') ==> !('a'
                <= text[span.start - 1] <= 'z' || 'A' <= text[span.start - 1] <= 'Z' || '0'
                <= text[span.start - 1] <= '9' || text[span.start - 1] == '_')
            &&& span.end < text.len() && ('a' <= text[span.end - 1] <= 'z' || 'A' <= text[span.end
                - 1] <= 'Z' || '0' <= text[span.end - 1] <= '9' || text[span.end - 1] == '_') ==> !(
            'a' <= text[span.end] <= 'z' || 'A' <= text[span.end] <= 'Z' || '0' <= text[span.end]
                <= '9' || text[span.end] == '_')
        }),
{
    let terms = active_terms(entries);
    lemma_spans(terms, text, 0);
    let span = spans_from(terms, text, 0)[k];
    assert(longest_at(terms, text, span.start, span.entry));
    assert(found_at(terms, text, span.start, span.entry));
    let term = terms[span.entry];
    assert(term == active_term(entries[span.entry]));
    assert(text.subrange(span.start, span.end)[0] == term[0]);
    assert(text.subrange(span.start, span.end)[term.len() - 1] == term.last());
}

/// No term is overlooked: where a term that is on and has a target stands in a text, with no Latin
/// letter, digit or underscore on either side, a match covers the place at which it begins; and
/// where a match begins there, it is as long at least.
pub proof fn lemma_no_term_is_overlooked(entries: Seq<GlossaryEntry>, text: Seq<char>, i: int, p: int)
    requires
        0 <= i < entries.len(),
        entries[i].enabled,
        !text::is_blank(entries[i].target@),
        normalize::term_form(entries[i].source@).len() > 0,
        0 <= p,
        p + normalize::term_form(entries[i].source@).len() <= text.len(),
        text.subrange(p, p + normalize::term_form(entries[i].source@).len())
            == normalize::term_form(entries[i].source@),
        p > 0 ==> !('a' <= text[p - 1] <= 'z' || 'A' <= text[p - 1] <= 'Z' || '0' <= text[p - 1]
            <= '9' || text[p - 1] == '_'),
        p + normalize::term_form(entries[i].source@).len() < text.len() ==> ({
            let c = text[p + normalize::term_form(entries[i].source@).len()];
            !('a' <= c <= 'z' || 'A' <= c <= 'Z' || '0' <= c <= '9' || c == '_')
        }),
    ensures
        exists|k: int|
            {
                let span = #[trigger] spans_from(active_terms(entries), text, 0)[k];
                &&& 0 <= k < spans_from(active_terms(entries), text, 0).len()
                &&& span.start <= p < span.end
                &&& span.start == p ==> span.end >= p + normalize::term_form(
                    entries[i].source@,
                ).len()
            },
{
    let terms = active_terms(entries);
    assert(terms[i] == active_term(entries[i]));
    assert(found_at(terms, text, p, i));
    lemma_longest_exists(terms, text, p, i, terms.len());
    let k = lemma_place_is_covered(terms, text, 0, p, i);
    let spans = spans_from(terms, text, 0);
    assert(spans[k].start <= p < spans[k].end);
}

/// Of the first `n` terms that stand at a place, one is the longest.
proof fn lemma_longest_of(
    terms: Seq<Seq<char>>,
    text: Seq<char>,
    at: int,
    i: int,
    n: nat,
) -> (best: int)
    requires
        n <= terms.len(),
        0 <= i < n,
        found_at(terms, text, at, i),
    ensures
        0 <= best < n,
        found_at(terms, text, at, best),
        forall|j: int|
            0 <= j < n && #[trigger] found_at(terms, text, at, j) ==> terms[j].len()
                < terms[best].len() || (terms[j].len() == terms[best].len() && best <= j),
    decreases n,
{
    let last = n - 1;
    if forall|j: int| 0 <= j < last ==> !#[trigger] found_at(terms, text, at, j) {
        i
    } else {
        let j = choose|j: int| 0 <= j < last && #[trigger] found_at(terms, text, at, j);
        let best = lemma_longest_of(terms, text, at, j, (n - 1) as nat);
        if found_at(terms, text, at, last) && terms[last].len() > terms[best].len() {
            last
        } else {
            best
        }
    }
}

proof fn lemma_longest_exists(
    terms: Seq<Seq<char>>,
    text: Seq<char>,
    at: int,
    i: int,
    n: nat,
)
    requires
        n == terms.len(),
        found_at(terms, text, at, i),
    ensures
        exists|k: int| longest_at(terms, text, at, k),
        forall|k: int| longest_at(terms, text, at, k) ==> terms[k].len() >= terms[i].len(),
{
    let best = lemma_longest_of(terms, text, at, i, n);
    assert(longest_at(terms, text, at, best));
}

proof fn lemma_place_is_covered(
    terms: Seq<Seq<char>>,
    text: Seq<char>,
    at: int,
    p: int,
    i: int,
) -> (k: int)
    requires
        0 <= at <= p < text.len(),
        found_at(terms, text, p, i),
        exists|k: int| longest_at(terms, text, p, k),
        forall|k: int| longest_at(terms, text, p, k) ==> terms[k].len() >= terms[i].len(),
    ensures
        0 <= k < spans_from(terms, text, at).len(),
        spans_from(terms, text, at)[k].start <= p < spans_from(terms, text, at)[k].end,
        spans_from(terms, text, at)[k].start == p ==> spans_from(terms, text, at)[k].end >= p
            + terms[i].len(),
    decreases text.len() - at,
{
    if exists|q: int| longest_at(terms, text, at, q) {
        let q = choose|q: int| longest_at(terms, text, at, q);
        let end = at + terms[q].len();
        let rest = spans_from(terms, text, end);
        assert(spans_from(terms, text, at) == seq![Span { start: at, end, entry: q }] + rest);
        if p < end {
            0
        } else {
            let k = lemma_place_is_covered(terms, text, end, p, i);
            assert(spans_from(terms, text, at)[k + 1] == rest[k]);
            k + 1
        }
    } else {
        lemma_place_is_covered(terms, text, at + 1, p, i)
    }
}

/// A match says where its term stands by bytes: these bytes of the text are those of the term.
pub proof fn lemma_match_bytes(text: Seq<char>, span: Span, found: GlossaryMatch)
    requires
        0 <= span.start <= span.end <= text.len(),
        found.marks(text, span),
    ensures
        found.entry == span.entry,
        found.start <= found.end <= vstd::utf8::encode_utf8(text).len(),
        vstd::utf8::encode_utf8(text).subrange(found.start as int, found.end as int)
            == vstd::utf8::encode_utf8(text.subrange(span.start, span.end)),
        found.start == vstd::utf8::encode_utf8(text.take(span.start)).len(),
{
    let a = text.take(span.start);
    let b = text.subrange(span.start, span.end);
    let c = text.skip(span.end);
    lemma_bytes_grow(text, span.start, span.end);
    text::lemma_bytes_of_concat(a, b);
    text::lemma_bytes_of_concat(a + b, c);
    assert(a + b + c =~= text);
    assert(vstd::utf8::encode_utf8(text).subrange(found.start as int, found.end as int)
        =~= vstd::utf8::encode_utf8(b));
}

/// The terms that are handed on for some segments: every one was found in a segment, every one that
/// was found is there, and a term that takes more bytes stands before one that takes fewer.
pub proof fn lemma_relevant_terms(entries: Seq<GlossaryEntry>, segments: Seq<String>, i: int)
    requires
        0 <= i < entries.len(),
    ensures
        ({
            let r = crate::order::arranged(used_entries(entries, segments, entries.len()));
            &&& (exists|s: int, k: int|
                0 <= s < segments.len() && 0 <= k < spans_from(
                    active_terms(entries),
                    normalize::text_form(segments[s]@),
                    0,
                ).len() && (#[trigger] spans_from(
                    active_terms(entries),
                    normalize::text_form(segments[s]@),
                    0,
                )[k]).entry == i) ==> r.contains(entries[i])
            &&& forall|a: int| 0 <= a < r.len() ==> (#[trigger] r[a]).enabled && entries.contains(
                r[a],
            )
            &&& forall|a: int, b: int|
                0 <= a < b < r.len() ==> vstd::utf8::encode_utf8(
                    normalize::term_form((#[trigger] r[a]).source@),
                ).len() >= vstd::utf8::encode_utf8(
                    normalize::term_form((#[trigger] r[b]).source@),
                ).len()
        }),
{
    let used = used_entries(entries, segments, entries.len());
    let r = crate::order::arranged(used);
    crate::order::lemma_arranged(used);
    if is_used(entries, segments, i) {
        lemma_used_has(entries, segments, entries.len(), i);
    }
    assert forall|a: int| 0 <= a < r.len() implies (#[trigger] r[a]).enabled && entries.contains(
        r[a],
    ) by {
        assert(r.contains(r[a]));
        assert(used.contains(r[a]));
        let q = choose|q: int| 0 <= q < used.len() && used[q] == r[a];
        lemma_used_are(entries, segments, entries.len(), q);
    }
    assert forall|a: int, b: int| 0 <= a < b < r.len() implies vstd::utf8::encode_utf8(
        normalize::term_form((#[trigger] r[a]).source@),
    ).len() >= vstd::utf8::encode_utf8(normalize::term_form((#[trigger] r[b]).source@)).len() by {
        assert(r[a].ranks(r[b]));
    }
}

proof fn lemma_used_has(entries: Seq<GlossaryEntry>, segments: Seq<String>, n: nat, i: int)
    requires
        0 <= i < n <= entries.len(),
        is_used(entries, segments, i),
    ensures
        used_entries(entries, segments, n).contains(entries[i]),
    decreases n,
{
    let head = used_entries(entries, segments, (n - 1) as nat);
    let all = used_entries(entries, segments, n);
    if i == n - 1 {
        assert(all[head.len() as int] == entries[i]);
    } else {
        lemma_used_has(entries, segments, (n - 1) as nat, i);
        let q = choose|q: int| 0 <= q < head.len() && head[q] == entries[i];
        assert(all[q] == entries[i]);
    }
}

proof fn lemma_used_are(entries: Seq<GlossaryEntry>, segments: Seq<String>, n: nat, q: int)
    requires
        n <= entries.len(),
        0 <= q < used_entries(entries, segments, n).len(),
    ensures
        entries.contains(used_entries(entries, segments, n)[q]),
        used_entries(entries, segments, n)[q].enabled,
    decreases n,
{
    let head = used_entries(entries, segments, (n - 1) as nat);
    if q < head.len() {
        lemma_used_are(entries, segments, (n - 1) as nat, q);
    } else {
        let i = n - 1;
        let (s, k) = choose|s: int, k: int|
            0 <= s < segments.len() && 0 <= k < spans_from(
                active_terms(entries),
                normalize::text_form(segments[s]@),
                0,
            ).len() && (#[trigger] spans_from(
                active_terms(entries),
                normalize::text_form(segments[s]@),
                0,
            )[k]).entry == i;
        lemma_a_match_is_a_term(entries, normalize::text_form(segments[s]@), k);
        assert(entries[i] == used_entries(entries, segments, n)[q]);
    }
}

} // verus!
