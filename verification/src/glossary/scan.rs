//! Bringing the terms that a scan found into a glossary.
use crate::glossary::edit::{checked, EditFault};
use crate::glossary::model::{
    Confidence, Glossary, GlossaryEntry, GlossaryEntryId, GlossaryKind, GlossaryValueOrigin,
    GLOSSARY_MAX_EXAMPLES,
};
use crate::ids::Revision;
use crate::normalize;
use crate::normalize::normalize_glossary_source;
use crate::text;
use vstd::prelude::*;

verus! {

/// A term that a scan found in a text.
pub struct ScanCandidate {
    pub source: String,
    pub kind: GlossaryKind,
    pub confidence: Confidence,
    pub example: Option<String>,
}

/// What a scan found of one term.
pub struct Aggregate {
    pub source: String,
    pub kind: GlossaryKind,
    pub confidence: Confidence,
    pub occurrence_count: u32,
    pub examples: Vec<String>,
}

/// What a scan found of one term, with its strings as characters.
pub struct Finding {
    pub source: Seq<char>,
    pub kind: GlossaryKind,
    pub confidence: Confidence,
    pub occurrence_count: u32,
    pub examples: Seq<Seq<char>>,
}

impl Aggregate {
    pub open spec fn finding(self) -> Finding {
        Finding {
            source: self.source@,
            kind: self.kind,
            confidence: self.confidence,
            occurrence_count: self.occurrence_count,
            examples: text::texts(self.examples@),
        }
    }
}

impl Finding {
    /// The source and kind by which terms are told apart.
    pub open spec fn key(self) -> (Seq<char>, GlossaryKind) {
        (normalize::source_form(self.source), self.kind)
    }
}

impl ScanCandidate {
    /// The source and kind by which terms are told apart.
    pub open spec fn key(self) -> (Seq<char>, GlossaryKind) {
        (normalize::source_form(self.source@), self.kind)
    }
}

/// The findings of aggregates.
pub open spec fn findings(aggregates: Seq<Aggregate>) -> Seq<Finding> {
    Seq::new(aggregates.len(), |i: int| aggregates[i].finding())
}

/// The place of the first finding with that key, or the number of findings.
pub open spec fn finding_place(found: Seq<Finding>, key: (Seq<char>, GlossaryKind)) -> nat
    decreases found.len(),
{
    if found.len() == 0 {
        0
    } else if found[0].key() == key {
        0
    } else {
        1 + finding_place(found.drop_first(), key)
    }
}

/// A finding of one candidate.
pub open spec fn first_finding(candidate: ScanCandidate) -> Finding {
    Finding {
        source: candidate.source@,
        kind: candidate.kind,
        confidence: candidate.confidence,
        occurrence_count: 1,
        examples: match candidate.example {
            Some(example) => seq![example@],
            None => Seq::empty(),
        },
    }
}

/// A finding with one candidate more: the larger confidence, or one that is out of range; one
/// occurrence more; and the example, where there is room and it is new.
pub open spec fn joined_finding(finding: Finding, candidate: ScanCandidate) -> Finding {
    Finding {
        confidence: if !candidate.confidence.in_range() || candidate.confidence.above(
            finding.confidence,
        ) {
            candidate.confidence
        } else {
            finding.confidence
        },
        occurrence_count: if finding.occurrence_count == u32::MAX {
            u32::MAX
        } else {
            (finding.occurrence_count + 1) as u32
        },
        examples: match candidate.example {
            Some(example) => if finding.examples.len() < GLOSSARY_MAX_EXAMPLES
                && !finding.examples.contains(example@) {
                finding.examples.push(example@)
            } else {
                finding.examples
            },
            None => finding.examples,
        },
        ..finding
    }
}

/// The findings of the candidates, in the order of their first occurrence.
pub open spec fn aggregated(candidates: Seq<ScanCandidate>) -> Seq<Finding>
    decreases candidates.len(),
{
    if candidates.len() == 0 {
        Seq::empty()
    } else {
        let found = aggregated(candidates.drop_last());
        let candidate = candidates.last();
        let i = finding_place(found, candidate.key()) as int;
        if i < found.len() {
            found.update(i, joined_finding(found[i], candidate))
        } else {
            found.push(first_finding(candidate))
        }
    }
}

/// No two findings have one key.
pub open spec fn distinct_keys(found: Seq<Finding>) -> bool {
    forall|i: int, j: int|
        0 <= i < j < found.len() ==> (#[trigger] found[i]).key() != (#[trigger] found[j]).key()
}

proof fn lemma_finding_place(found: Seq<Finding>, key: (Seq<char>, GlossaryKind))
    ensures
        finding_place(found, key) <= found.len(),
        finding_place(found, key) < found.len() ==> found[finding_place(found, key) as int].key()
            == key,
        forall|i: int|
            0 <= i < finding_place(found, key) ==> (#[trigger] found[i]).key() != key,
    decreases found.len(),
{
    if found.len() > 0 && found[0].key() != key {
        lemma_finding_place(found.drop_first(), key);
        let p = finding_place(found.drop_first(), key);
        assert forall|i: int| 0 <= i < p + 1 implies (#[trigger] found[i]).key() != key by {
            if i > 0 {
                assert(found[i] == found.drop_first()[i - 1]);
            }
        }
    }
}

/// Candidates of one term are brought together: no two findings have one key.
pub proof fn lemma_aggregated_keys(candidates: Seq<ScanCandidate>)
    ensures
        distinct_keys(aggregated(candidates)),
        forall|i: int|
            0 <= i < aggregated(candidates).len() ==> (#[trigger] aggregated(
                candidates,
            )[i]).examples.len() <= GLOSSARY_MAX_EXAMPLES,
    decreases candidates.len(),
{
    if candidates.len() > 0 {
        lemma_aggregated_keys(candidates.drop_last());
        let found = aggregated(candidates.drop_last());
        lemma_finding_place(found, candidates.last().key());
    }
}

fn find_aggregate(aggregates: &Vec<Aggregate>, key: &str, kind: GlossaryKind) -> (r: usize)
    ensures
        r <= aggregates@.len(),
        forall|form: (Seq<char>, GlossaryKind)|
            form == (key@, kind) ==> #[trigger] finding_place(findings(aggregates@), form) == r,
{
    let ghost form = (key@, kind);
    let ghost found = findings(aggregates@);
    let mut i: usize = 0;
    assert(found.skip(0) =~= found);
    while i < aggregates.len()
        invariant
            i <= aggregates@.len(),
            form == (key@, kind),
            found == findings(aggregates@),
            finding_place(found, form) == i + finding_place(found.skip(i as int), form),
        decreases aggregates@.len() - i,
    {
        let other = normalize_glossary_source(aggregates[i].source.as_str());
        assert(found.skip(i as int)[0] == aggregates@[i as int].finding());
        if aggregates[i].kind == kind && text::same(other.as_str(), key) {
            return i;
        }
        assert(found.skip(i as int).drop_first() =~= found.skip(i + 1));
        i += 1;
    }
    i
}

/// Brings the candidates of one term together.
pub fn aggregate(candidates: Vec<ScanCandidate>) -> (r: Vec<Aggregate>)
    ensures
        findings(r@) == aggregated(candidates@),
{
    let ghost all = candidates@;
    let mut rest = candidates;
    let mut out: Vec<Aggregate> = Vec::new();
    let ghost mut done: int = 0;
    assert(all.skip(0) =~= all);
    assert(all.take(0) =~= Seq::empty());
    assert(findings(out@) =~= Seq::empty());
    while rest.len() > 0
        invariant
            0 <= done <= all.len(),
            rest@ == all.skip(done),
            findings(out@) == aggregated(all.take(done)),
        decreases rest@.len(),
    {
        let candidate = rest.remove(0);
        proof {
            assert(candidate == all[done]);
            assert(rest@ =~= all.skip(done + 1));
            assert(all.take(done + 1).drop_last() =~= all.take(done));
            assert(all.take(done + 1).last() == candidate);
        }
        let ghost found = findings(out@);
        let key = normalize_glossary_source(candidate.source.as_str());
        let at: usize = find_aggregate(&out, key.as_str(), candidate.kind);
        assert(finding_place(found, candidate.key()) == at);
        if at < out.len() {
            let mut entry = out.remove(at);
            let ghost before = entry.finding();
            if !candidate.confidence.is_valid() || candidate.confidence.exceeds(entry.confidence) {
                entry.confidence = candidate.confidence;
            }
            if entry.occurrence_count < u32::MAX {
                entry.occurrence_count = entry.occurrence_count + 1;
            }
            match candidate.example {
                Some(example) => {
                    if entry.examples.len() < GLOSSARY_MAX_EXAMPLES && !text::among(
                        &entry.examples,
                        example.as_str(),
                    ) {
                        let ghost known = text::texts(entry.examples@);
                        entry.examples.push(example);
                        assert(text::texts(entry.examples@) =~= known.push(example@));
                    }
                },
                None => {},
            }
            assert(entry.finding() == joined_finding(before, all[done]));
            out.insert(at, entry);
            assert(findings(out@) =~= found.update(at as int, entry.finding()));
        } else {
            let mut examples: Vec<String> = Vec::new();
            match candidate.example {
                Some(example) => {
                    examples.push(example);
                    assert(text::texts(examples@) =~= seq![example@]);
                },
                None => {
                    assert(text::texts(examples@) =~= Seq::empty());
                },
            }
            let entry = Aggregate {
                source: candidate.source,
                kind: candidate.kind,
                confidence: candidate.confidence,
                occurrence_count: 1,
                examples,
            };
            assert(entry.finding() == first_finding(all[done]));
            out.push(entry);
            assert(findings(out@) =~= found.push(entry.finding()));
        }
        proof {
            done = done + 1;
        }
    }
    assert(all.take(done) =~= all);
    out
}

// ---------------------------------------------------------------------------------------------
// Merging
// ---------------------------------------------------------------------------------------------

/// No later entry has the key of entry `i`.
pub open spec fn is_last_with_key(entries: Seq<GlossaryEntry>, i: int) -> bool {
    forall|j: int|
        i < j < entries.len() ==> crate::glossary::model::key_of(#[trigger] entries[j])
            != crate::glossary::model::key_of(entries[i])
}

/// Finding `k` is of entry `i`.
pub open spec fn hits(entries: Seq<GlossaryEntry>, found: Seq<Finding>, i: int, k: int) -> bool {
    &&& 0 <= k < found.len()
    &&& found[k].key() == crate::glossary::model::key_of(entries[i])
    &&& is_last_with_key(entries, i)
}

/// An entry that a scan found again. What a user or an import gave stays, and so do the
/// translation, the kind and whether it is on.
pub open spec fn is_found(after: GlossaryEntry, before: GlossaryEntry, finding: Finding) -> bool {
    &&& after.id == before.id
    &&& after.translation == before.translation
    &&& after.kind == before.kind
    &&& after.enabled == before.enabled
    &&& after.source_origin == before.source_origin
    &&& after.translation_origin == before.translation_origin
    &&& if before.source_origin == GlossaryValueOrigin::User || before.source_origin
        == GlossaryValueOrigin::Imported {
        after.source == before.source
    } else {
        after.source@ == finding.source
    }
    &&& after.confidence == Some(finding.confidence)
    &&& after.occurrence_count == finding.occurrence_count
    &&& text::texts(after.examples@) == finding.examples
    &&& after.present_in_last_scan
}

/// An entry for a term that the glossary did not have.
pub open spec fn is_detected(entry: GlossaryEntry, finding: Finding) -> bool {
    &&& entry.source@ == finding.source
    &&& entry.translation is None
    &&& entry.kind == finding.kind
    &&& entry.enabled
    &&& entry.confidence == Some(finding.confidence)
    &&& entry.occurrence_count == finding.occurrence_count
    &&& text::texts(entry.examples@) == finding.examples
    &&& entry.source_origin == GlossaryValueOrigin::Detected
    &&& entry.translation_origin is None
    &&& entry.present_in_last_scan
}

/// An entry has that key.
pub open spec fn has_key(entries: Seq<GlossaryEntry>, key: (Seq<char>, GlossaryKind)) -> bool {
    exists|i: int|
        0 <= i < entries.len() && crate::glossary::model::key_of(#[trigger] entries[i]) == key
}

/// The findings for which the glossary has no entry.
pub open spec fn new_findings(entries: Seq<GlossaryEntry>, found: Seq<Finding>) -> Seq<Finding>
    decreases found.len(),
{
    if found.len() == 0 {
        Seq::empty()
    } else {
        let head = new_findings(entries, found.drop_last());
        if has_key(entries, found.last().key()) {
            head
        } else {
            head.push(found.last())
        }
    }
}

/// The entry at `i` after a scan: found, or marked as not found.
pub open spec fn entry_after(
    entries: Seq<GlossaryEntry>,
    found: Seq<Finding>,
    i: int,
    after: GlossaryEntry,
) -> bool {
    if exists|k: int| hits(entries, found, i, k) {
        exists|k: int| #[trigger] hits(entries, found, i, k) && is_found(after, entries[i], found[k])
    } else {
        after == (GlossaryEntry { present_in_last_scan: false, ..entries[i] })
    }
}

/// The entries after a scan: those that were there, then those for new terms.
pub open spec fn scanned(
    entries: Seq<GlossaryEntry>,
    found: Seq<Finding>,
    after: Seq<GlossaryEntry>,
) -> bool {
    let n = entries.len() as int;
    let new = new_findings(entries, found);
    &&& after.len() == n + new.len()
    &&& forall|i: int| 0 <= i < n ==> entry_after(entries, found, i, #[trigger] after[i])
    &&& forall|j: int| n <= j < after.len() ==> is_detected(#[trigger] after[j], new[j - n])
}

/// The place of the last of the first `n` entries with that key, or `n`.
pub(crate) fn find_last_key(entries: &Vec<GlossaryEntry>, n: usize, key: &str, kind: GlossaryKind) -> (r: usize)
    requires
        n <= entries@.len(),
    ensures
        r <= n,
        r < n ==> crate::glossary::model::key_of(entries@[r as int]) == (key@, kind),
        r < n ==> forall|j: int|
            r < j < n ==> crate::glossary::model::key_of(#[trigger] entries@[j]) != (key@, kind),
        r == n ==> forall|j: int|
            0 <= j < n ==> crate::glossary::model::key_of(#[trigger] entries@[j]) != (key@, kind),
{
    let mut i: usize = n;
    while i > 0
        invariant
            i <= n <= entries@.len(),
            forall|j: int|
                i <= j < n ==> crate::glossary::model::key_of(#[trigger] entries@[j]) != (
                    key@,
                    kind,
                ),
        decreases i,
    {
        if entries[i - 1].kind == kind {
            let other = normalize_glossary_source(entries[i - 1].source.as_str());
            if text::same(other.as_str(), key) {
                return i - 1;
            }
        }
        i -= 1;
    }
    n
}

/// Marks every entry as not found.
fn unmark(entries: Vec<GlossaryEntry>) -> (r: Vec<GlossaryEntry>)
    ensures
        r@.len() == entries@.len(),
        forall|i: int|
            0 <= i < r@.len() ==> #[trigger] r@[i] == (GlossaryEntry {
                present_in_last_scan: false,
                ..entries@[i]
            }),
{
    let ghost all = entries@;
    let mut entries = entries;
    let mut i: usize = 0;
    while i < entries.len()
        invariant
            i <= entries@.len() == all.len(),
            forall|j: int|
                0 <= j < i ==> #[trigger] entries@[j] == (GlossaryEntry {
                    present_in_last_scan: false,
                    ..all[j]
                }),
            forall|j: int| i <= j < all.len() ==> #[trigger] entries@[j] == all[j],
        decreases all.len() - i,
    {
        let mut entry = entries.remove(i);
        entry.present_in_last_scan = false;
        entries.insert(i, entry);
        i += 1;
    }
    entries
}

/// Brings the aggregates of a scan into the entries. The names of new entries are drawn anew.
pub fn merge_scan(entries: Vec<GlossaryEntry>, aggregates: Vec<Aggregate>) -> (r: Vec<
    GlossaryEntry,
>)
    requires
        distinct_keys(findings(aggregates@)),
    ensures
        scanned(entries@, findings(aggregates@), r@),
{
    let ghost all = entries@;
    let ghost found = findings(aggregates@);
    let n: usize = entries.len();
    let mut cur = unmark(entries);
    let mut rest = aggregates;
    let ghost mut k: int = 0;
    proof {
        assert(rest@ =~= aggregates@.skip(0));
        assert(found.take(0) =~= Seq::empty());
    }
    while rest.len() > 0
        invariant
            0 <= k <= found.len(),
            found == findings(aggregates@),
            distinct_keys(found),
            rest@ == aggregates@.skip(k),
            n == all.len(),
            scanned(all, found.take(k), cur@),
        decreases rest@.len(),
    {
        let aggregate = rest.remove(0);
        let ghost finding = found[k];
        let ghost was = cur@;
        let ghost head = found.take(k);
        let ghost next = found.take(k + 1);
        proof {
            assert(aggregate == aggregates@[k]);
            assert(aggregate.finding() == finding);
            assert(rest@ =~= aggregates@.skip(k + 1));
            assert(next.drop_last() =~= head);
            assert(next.last() == finding);
            assert forall|i: int| 0 <= i < n implies crate::glossary::model::key_of(
                #[trigger] was[i],
            ) == crate::glossary::model::key_of(all[i]) by {
                assert(entry_after(all, head, i, was[i]));
            }
        }
        let key = normalize_glossary_source(aggregate.source.as_str());
        let at: usize = find_last_key(&cur, n, key.as_str(), aggregate.kind);
        if at < n {
            proof {
                assert(crate::glossary::model::key_of(was[at as int]) == finding.key());
                assert(is_last_with_key(all, at as int)) by {
                    assert forall|j: int| at < j < all.len() implies crate::glossary::model::key_of(
                        #[trigger] all[j],
                    ) != crate::glossary::model::key_of(all[at as int]) by {
                        assert(crate::glossary::model::key_of(was[j]) != finding.key());
                    }
                }
                assert(hits(all, next, at as int, k));
                assert(entry_after(all, head, at as int, was[at as int]));
                assert(!exists|q: int| hits(all, head, at as int, q)) by {
                    assert forall|q: int| !hits(all, head, at as int, q) by {
                        if hits(all, head, at as int, q) {
                            assert(found[q].key() == found[k].key());
                        }
                    }
                }
            }
            let mut entry = cur.remove(at);
            if entry.source_origin != GlossaryValueOrigin::User && entry.source_origin
                != GlossaryValueOrigin::Imported {
                entry.source = aggregate.source;
            }
            entry.confidence = Some(aggregate.confidence);
            entry.occurrence_count = aggregate.occurrence_count;
            entry.examples = aggregate.examples;
            entry.present_in_last_scan = true;
            cur.insert(at, entry);
            proof {
                assert(cur@ =~= was.update(at as int, entry));
                assert(is_found(entry, all[at as int], finding));
                assert(has_key(all, finding.key())) by {
                    assert(crate::glossary::model::key_of(all[at as int]) == finding.key());
                }
                assert forall|i: int| 0 <= i < n implies entry_after(
                    all,
                    next,
                    i,
                    #[trigger] cur@[i],
                ) by {
                    if i != at {
                        lemma_entry_after_grows(all, found, k, i, was[i], at as int);
                    }
                }
                assert(scanned(all, next, cur@));
            }
        } else {
            proof {
                assert(!has_key(all, finding.key())) by {
                    if has_key(all, finding.key()) {
                        let i = choose|i: int|
                            0 <= i < all.len() && crate::glossary::model::key_of(#[trigger] all[i])
                                == finding.key();
                        assert(crate::glossary::model::key_of(was[i]) != finding.key());
                    }
                }
            }
            let entry = GlossaryEntry {
                id: GlossaryEntryId::new(),
                source: aggregate.source,
                translation: None,
                kind: aggregate.kind,
                enabled: true,
                confidence: Some(aggregate.confidence),
                occurrence_count: aggregate.occurrence_count,
                examples: aggregate.examples,
                source_origin: GlossaryValueOrigin::Detected,
                translation_origin: None,
                present_in_last_scan: true,
            };
            cur.push(entry);
            proof {
                assert(is_detected(entry, finding));
                assert forall|i: int| 0 <= i < n implies entry_after(
                    all,
                    next,
                    i,
                    #[trigger] cur@[i],
                ) by {
                    lemma_entry_after_grows(all, found, k, i, was[i], -1);
                }
                let new = new_findings(all, next);
                assert(new == new_findings(all, head).push(finding));
                assert forall|j: int| n <= j < cur@.len() implies is_detected(
                    #[trigger] cur@[j],
                    new[j - n],
                ) by {
                    if j < was.len() {
                        assert(cur@[j] == was[j]);
                    }
                }
                assert(scanned(all, next, cur@));
            }
        }
        proof {
            k = k + 1;
        }
    }
    assert(found.take(k) =~= found);
    cur
}

/// One finding more leaves an entry as it is, unless the finding is of that entry.
proof fn lemma_entry_after_grows(
    entries: Seq<GlossaryEntry>,
    found: Seq<Finding>,
    k: int,
    i: int,
    after: GlossaryEntry,
    at: int,
)
    requires
        0 <= k < found.len(),
        0 <= i < entries.len(),
        i != at,
        entry_after(entries, found.take(k), i, after),
        0 <= at < entries.len() ==> crate::glossary::model::key_of(entries[at]) == found[k].key()
            && is_last_with_key(entries, at),
        !(0 <= at < entries.len()) ==> !has_key(entries, found[k].key()),
    ensures
        entry_after(entries, found.take(k + 1), i, after),
{
    let head = found.take(k);
    let next = found.take(k + 1);
    assert forall|q: int| hits(entries, next, i, q) <==> hits(entries, head, i, q) by {
        if hits(entries, next, i, q) && q == k {
            assert(crate::glossary::model::key_of(entries[i]) == found[k].key());
            if 0 <= at < entries.len() {
                if i < at {
                    assert(crate::glossary::model::key_of(entries[at])
                        != crate::glossary::model::key_of(entries[i]));
                } else {
                    assert(crate::glossary::model::key_of(entries[i])
                        != crate::glossary::model::key_of(entries[at]));
                }
            } else {
                assert(has_key(entries, found[k].key()));
            }
        }
    }
    if exists|q: int| hits(entries, head, i, q) {
        let q = choose|q: int| #[trigger]
            hits(entries, head, i, q) && is_found(after, entries[i], head[q]);
        assert(hits(entries, next, i, q));
        assert(next[q] == head[q]);
    } else {
        assert(!exists|q: int| hits(entries, next, i, q)) by {
            assert forall|q: int| !hits(entries, next, i, q) by {}
        }
    }
}

/// Brings a scan into a glossary: the languages and the fingerprint of the texts that it read, and
/// the terms that it found.
pub fn apply_glossary_scan(
    glossary: Glossary,
    current: Revision,
    expected: Revision,
    source_language: Option<String>,
    target_language: Option<String>,
    source_fingerprint: String,
    candidates: Vec<ScanCandidate>,
) -> (r: Result<Glossary, EditFault>)
    ensures
        exists|after: Seq<GlossaryEntry>|
            {
                &&& #[trigger] scanned(glossary.entries@, aggregated(candidates@), after)
                &&& crate::glossary::edit::outcome(
                    current,
                    expected,
                    (Glossary {
                        source_language,
                        target_language,
                        source_fingerprint: Some(source_fingerprint),
                        ..glossary
                    }),
                    after,
                    r,
                )
            },
        current != expected ==> r == Err::<Glossary, _>(
            EditFault::StaleRevision { expected, current },
        ),
        r matches Ok(g) ==> g.source_language == source_language && g.target_language
            == target_language && g.source_fingerprint == Some(source_fingerprint) && g.enabled
            == glossary.enabled,
{
    let ghost before = glossary;
    let ghost all = candidates@;
    let aggregates = aggregate(candidates);
    proof {
        lemma_aggregated_keys(all);
    }
    let Glossary { enabled, entries, .. } = glossary;
    let entries = merge_scan(entries, aggregates);
    assert(scanned(before.entries@, aggregated(all), entries@));
    if current != expected {
        return Err(EditFault::StaleRevision { expected, current });
    }
    checked(
        Glossary {
            enabled,
            source_language,
            target_language,
            source_fingerprint: Some(source_fingerprint),
            entries,
        },
    )
}

/// A scan takes nothing away: every entry keeps its name, its translation, its kind and whether it
/// is on, and one that a user or an import gave keeps its source.
pub proof fn lemma_scan_keeps_entries(
    entries: Seq<GlossaryEntry>,
    found: Seq<Finding>,
    after: Seq<GlossaryEntry>,
    i: int,
)
    requires
        scanned(entries, found, after),
        0 <= i < entries.len(),
    ensures
        after.len() >= entries.len(),
        after[i].id == entries[i].id,
        after[i].translation == entries[i].translation,
        after[i].translation_origin == entries[i].translation_origin,
        after[i].kind == entries[i].kind,
        after[i].enabled == entries[i].enabled,
        entries[i].source_origin == GlossaryValueOrigin::User || entries[i].source_origin
            == GlossaryValueOrigin::Imported ==> after[i].source == entries[i].source,
        !after[i].present_in_last_scan ==> after[i].examples == entries[i].examples
            && after[i].confidence == entries[i].confidence && after[i].occurrence_count
            == entries[i].occurrence_count,
{
    assert(entry_after(entries, found, i, after[i]));
}

/// What one candidate more adds. Where no finding has its normalized source and its kind, it is a
/// finding of its own, behind the others, that counts once. Where one has them, that one counts once
/// more, becomes as sure as the candidate where it was less sure, and has its example, where that is
/// new and there is room; its source stays, and so do all other findings.
pub proof fn lemma_a_candidate_more(
    candidates: Seq<ScanCandidate>,
    candidate: ScanCandidate,
    i: int,
)
    requires
        0 <= i <= aggregated(candidates).len(),
        i < aggregated(candidates).len() ==> aggregated(candidates)[i].kind == candidate.kind
            && normalize::source_form(aggregated(candidates)[i].source) == normalize::source_form(
            candidate.source@,
        ),
        i == aggregated(candidates).len() ==> forall|j: int|
            0 <= j < aggregated(candidates).len() ==> (#[trigger] aggregated(candidates)[j]).kind
                != candidate.kind || normalize::source_form(aggregated(candidates)[j].source)
                != normalize::source_form(candidate.source@),
    ensures
        aggregated(Seq::empty()).len() == 0,
        ({
            let was = aggregated(candidates);
            let now = aggregated(candidates.push(candidate));
            &&& forall|j: int| 0 <= j < was.len() && j != i ==> #[trigger] now[j] == was[j]
            &&& now[i].kind == candidate.kind
            &&& i == was.len() ==> {
                &&& now.len() == was.len() + 1
                &&& now[i].source == candidate.source@
                &&& now[i].confidence == candidate.confidence
                &&& now[i].occurrence_count == 1
                &&& candidate.example is None ==> now[i].examples.len() == 0
                &&& candidate.example matches Some(example) ==> now[i].examples == seq![example@]
            }
            &&& i < was.len() ==> {
                &&& now.len() == was.len()
                &&& now[i].source == was[i].source
                &&& was[i].occurrence_count < u32::MAX ==> now[i].occurrence_count
                    == was[i].occurrence_count + 1
                &&& was[i].occurrence_count == u32::MAX ==> now[i].occurrence_count == u32::MAX
                &&& candidate.confidence.0 <= 0x3f80_0000 && was[i].confidence.0 <= 0x3f80_0000
                    ==> now[i].confidence.0 == if candidate.confidence.0 > was[i].confidence.0 {
                    candidate.confidence.0
                } else {
                    was[i].confidence.0
                }
                &&& candidate.confidence.0 > 0x3f80_0000 && candidate.confidence.0 != 0x8000_0000
                    ==> now[i].confidence == candidate.confidence
                &&& candidate.example is None ==> now[i].examples == was[i].examples
                &&& candidate.example matches Some(example) ==> {
                    &&& was[i].examples.contains(example@) || was[i].examples.len()
                        >= GLOSSARY_MAX_EXAMPLES ==> now[i].examples == was[i].examples
                    &&& !was[i].examples.contains(example@) && was[i].examples.len()
                        < GLOSSARY_MAX_EXAMPLES ==> now[i].examples == was[i].examples.push(
                        example@,
                    )
                }
            }
        }),
{
    let was = aggregated(candidates);
    let key = candidate.key();
    assert(candidates.push(candidate).drop_last() =~= candidates);
    lemma_aggregated_keys(candidates);
    lemma_finding_place(was, key);
    let p = finding_place(was, key) as int;
    assert(p == i) by {
        if p < was.len() {
            assert(was[p].key() == key);
            if i < was.len() && p != i {
                assert(was[i].key() == key);
                if p < i {
                    assert(was[p].key() != was[i].key());
                } else {
                    assert(was[i].key() != was[p].key());
                }
            }
        } else if i < was.len() {
            assert(was[i].key() == key);
        }
    }
}

/// What a scan found is in the glossary afterwards. The entry with the normalized source and the
/// kind of a finding that stands last has its confidence, its count and its examples, and is marked
/// as met. Where there was no such entry it is new: it is on, has the source that was found and no
/// translation, and stands behind all that was there.
pub proof fn lemma_a_finding_arrives(
    entries: Seq<GlossaryEntry>,
    found: Seq<Finding>,
    after: Seq<GlossaryEntry>,
    k: int,
) -> (j: int)
    requires
        scanned(entries, found, after),
        forall|a: int, b: int|
            0 <= a < b < found.len() ==> (#[trigger] found[a]).kind != (#[trigger] found[b]).kind
                || normalize::source_form(found[a].source) != normalize::source_form(
                found[b].source,
            ),
        0 <= k < found.len(),
    ensures
        0 <= j < after.len(),
        normalize::source_form(after[j].source@) == normalize::source_form(found[k].source),
        after[j].kind == found[k].kind,
        after[j].confidence == Some(found[k].confidence),
        after[j].occurrence_count == found[k].occurrence_count,
        after[j].examples@.len() == found[k].examples.len(),
        forall|e: int|
            0 <= e < after[j].examples@.len() ==> (#[trigger] after[j].examples@[e])@
                == found[k].examples[e],
        after[j].present_in_last_scan,
        j < entries.len() ==> {
            &&& after[j].id == entries[j].id
            &&& after[j].translation == entries[j].translation
            &&& after[j].translation_origin == entries[j].translation_origin
            &&& after[j].enabled == entries[j].enabled
            &&& after[j].source_origin == entries[j].source_origin
            &&& entries[j].source_origin == GlossaryValueOrigin::User || entries[j].source_origin
                == GlossaryValueOrigin::Imported ==> after[j].source == entries[j].source
            &&& entries[j].source_origin != GlossaryValueOrigin::User && entries[j].source_origin
                != GlossaryValueOrigin::Imported ==> after[j].source@ == found[k].source
        },
        j >= entries.len() ==> {
            &&& after[j].source@ == found[k].source
            &&& after[j].translation is None
            &&& after[j].translation_origin is None
            &&& after[j].enabled
            &&& after[j].source_origin == GlossaryValueOrigin::Detected
            &&& forall|i: int|
                0 <= i < entries.len() ==> (#[trigger] entries[i]).kind != found[k].kind
                    || normalize::source_form(entries[i].source@) != normalize::source_form(
                    found[k].source,
                )
        },
{
    let n = entries.len() as int;
    let key = found[k].key();
    let new = new_findings(entries, found);
    if has_key(entries, key) {
        let at = lemma_last_of(entries, key);
        assert(hits(entries, found, at, k));
        assert(entry_after(entries, found, at, after[at]));
        let q = choose|q: int| #[trigger]
            hits(entries, found, at, q) && is_found(after[at], entries[at], found[q]);
        assert(found[q].key() == found[k].key());
        assert(q == k) by {
            if q < k {
                assert(found[q].kind != found[k].kind || normalize::source_form(found[q].source)
                    != normalize::source_form(found[k].source));
            } else if k < q {
                assert(found[k].kind != found[q].kind || normalize::source_form(found[k].source)
                    != normalize::source_form(found[q].source));
            }
        }
        assert forall|e: int| 0 <= e < after[at].examples@.len() implies (
        #[trigger] after[at].examples@[e])@ == found[k].examples[e] by {
            assert(text::texts(after[at].examples@)[e] == after[at].examples@[e]@);
        }
        assert(text::texts(after[at].examples@).len() == after[at].examples@.len());
        at
    } else {
        let q = lemma_new_finding_place(entries, found, k);
        assert(is_detected(after[n + q], new[q]));
        assert forall|i: int| 0 <= i < entries.len() implies (#[trigger] entries[i]).kind
            != found[k].kind || normalize::source_form(entries[i].source@)
            != normalize::source_form(found[k].source) by {
            if crate::glossary::model::key_of(entries[i]) == key {
                assert(has_key(entries, key));
            }
        }
        assert forall|e: int| 0 <= e < after[n + q].examples@.len() implies (
        #[trigger] after[n + q].examples@[e])@ == found[k].examples[e] by {
            assert(text::texts(after[n + q].examples@)[e] == after[n + q].examples@[e]@);
        }
        assert(text::texts(after[n + q].examples@).len() == after[n + q].examples@.len());
        n + q
    }
}

proof fn lemma_last_of(entries: Seq<GlossaryEntry>, key: (Seq<char>, GlossaryKind)) -> (at: int)
    requires
        has_key(entries, key),
    ensures
        0 <= at < entries.len(),
        crate::glossary::model::key_of(entries[at]) == key,
        is_last_with_key(entries, at),
    decreases entries.len(),
{
    let i = choose|i: int|
        0 <= i < entries.len() && crate::glossary::model::key_of(#[trigger] entries[i]) == key;
    let last = entries.len() - 1;
    if crate::glossary::model::key_of(entries[last]) == key {
        last
    } else {
        let rest = entries.drop_last();
        assert(crate::glossary::model::key_of(rest[i]) == key);
        let at = lemma_last_of(rest, key);
        assert forall|j: int| at < j < entries.len() implies crate::glossary::model::key_of(
            #[trigger] entries[j],
        ) != crate::glossary::model::key_of(entries[at]) by {
            if j < last {
                assert(crate::glossary::model::key_of(rest[j]) != crate::glossary::model::key_of(
                    rest[at],
                ));
            }
        }
        at
    }
}

proof fn lemma_new_finding_place(
    entries: Seq<GlossaryEntry>,
    found: Seq<Finding>,
    k: int,
) -> (q: int)
    requires
        0 <= k < found.len(),
        !has_key(entries, found[k].key()),
    ensures
        0 <= q < new_findings(entries, found).len(),
        new_findings(entries, found)[q] == found[k],
    decreases found.len(),
{
    let head = found.drop_last();
    if k == found.len() - 1 {
        new_findings(entries, head).len() as int
    } else {
        assert(head[k] == found[k]);
        lemma_new_finding_place(entries, head, k)
    }
}

/// What a scan did not find is marked so and stays as it is: an entry whose normalized source and
/// kind no finding has changes in nothing but the mark.
pub proof fn lemma_what_is_not_found(
    entries: Seq<GlossaryEntry>,
    found: Seq<Finding>,
    after: Seq<GlossaryEntry>,
    i: int,
)
    requires
        scanned(entries, found, after),
        0 <= i < entries.len(),
        forall|k: int|
            0 <= k < found.len() ==> (#[trigger] found[k]).kind != entries[i].kind
                || normalize::source_form(found[k].source) != normalize::source_form(
                entries[i].source@,
            ),
    ensures
        i < after.len(),
        !after[i].present_in_last_scan,
        after[i] == (GlossaryEntry { present_in_last_scan: false, ..entries[i] }),
{
    assert(entry_after(entries, found, i, after[i]));
    assert forall|k: int| !hits(entries, found, i, k) by {
        if hits(entries, found, i, k) {
            assert(found[k].kind == entries[i].kind);
        }
    }
}

} // verus!
