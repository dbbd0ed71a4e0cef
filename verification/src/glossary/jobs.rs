//! The jobs that scan a project for terms and that translate terms.
use crate::glossary::edit::TermTranslationResult;
use crate::glossary::model::{
    Glossary, GlossaryEntry, GlossaryEntryId, GlossaryKind, GLOSSARY_EXAMPLE_MAX_CHARS,
};
use crate::glossary::scan::ScanCandidate;
use crate::ids::Revision;
use crate::ner::types::{GlossaryEntity, GlossaryEntityKind};
use crate::processing::{JobPhase, JobState};
use crate::text;
use vstd::prelude::*;

verus! {

/// How a job ended that did not fail.
#[derive(Clone, Copy, Debug, PartialEq, Eq, Structural)]
pub enum ScanOutcome {
    Finished,
    Stopped,
}

impl ScanOutcome {
    /// The state that the job is left in.
    pub fn job_state(self) -> (r: JobState)
        ensures
            r == match self {
                ScanOutcome::Finished => JobState::Finished,
                ScanOutcome::Stopped => JobState::Stopped,
            },
    {
        match self {
            ScanOutcome::Finished => JobState::Finished,
            ScanOutcome::Stopped => JobState::Stopped,
        }
    }
}

// ---------------------------------------------------------------------------------------------
// Scanning
// ---------------------------------------------------------------------------------------------

/// What a scan reads.
pub struct ScanInput {
    pub revision: Revision,
    pub fingerprint: String,
    pub source_language: Option<String>,
    pub target_language: Option<String>,
    pub texts: Vec<String>,
}

/// How sure a scan has to be of a term: 0.3, as the bits of a single-precision number.
pub const SCAN_THRESHOLD: u32 = 0x3e99_999a;

/// A text of the project, with its language where it is known.
pub struct SourceRecord {
    pub text: String,
    pub language: Option<String>,
}

/// What happened last in a scan.
pub enum ScanEvent<'a> {
    Begin,
    /// The texts were read from the pages.
    OcrRan { outcome: ScanOutcome, stopped: bool },
    SourcesRead { texts: &'a Vec<String> },
    /// The terms were looked for.
    Extracted { stopped: bool },
    Committed,
}

/// What a scan does next.
#[derive(Clone, Copy, Debug, PartialEq, Eq, Structural)]
pub enum ScanAction {
    /// Read the texts from the pages.
    RunOcr,
    ReadSources,
    ExtractTerms,
    Commit,
    Done(ScanOutcome),
    /// The project has no text.
    NoText,
}

/// All texts are blank.
pub open spec fn all_blank(texts: Seq<String>) -> bool {
    forall|i: int| 0 <= i < texts.len() ==> text::is_blank((#[trigger] texts[i])@)
}

/// What a scan does after an event.
pub open spec fn scan_step(event: ScanEvent) -> ScanAction {
    match event {
        ScanEvent::Begin => ScanAction::RunOcr,
        ScanEvent::OcrRan { outcome, stopped } => if outcome == ScanOutcome::Stopped || stopped {
            ScanAction::Done(ScanOutcome::Stopped)
        } else {
            ScanAction::ReadSources
        },
        ScanEvent::SourcesRead { texts } => if all_blank(texts@) {
            ScanAction::NoText
        } else {
            ScanAction::ExtractTerms
        },
        ScanEvent::Extracted { stopped } => if stopped {
            ScanAction::Done(ScanOutcome::Stopped)
        } else {
            ScanAction::Commit
        },
        ScanEvent::Committed => ScanAction::Done(ScanOutcome::Finished),
    }
}

/// What a scan does next.
pub fn next_scan_step(event: ScanEvent) -> (r: ScanAction)
    ensures
        r == scan_step(event),
{
    match event {
        ScanEvent::Begin => ScanAction::RunOcr,
        ScanEvent::OcrRan { outcome, stopped } => {
            if outcome == ScanOutcome::Stopped || stopped {
                ScanAction::Done(ScanOutcome::Stopped)
            } else {
                ScanAction::ReadSources
            }
        },
        ScanEvent::SourcesRead { texts } => {
            let mut i: usize = 0;
            while i < texts.len()
                invariant
                    i <= texts@.len(),
                    event == (ScanEvent::SourcesRead { texts }),
                    forall|j: int| 0 <= j < i ==> text::is_blank((#[trigger] texts@[j])@),
                decreases texts@.len() - i,
            {
                if !text::blank(texts[i].as_str()) {
                    return ScanAction::ExtractTerms;
                }
                i += 1;
            }
            ScanAction::NoText
        },
        ScanEvent::Extracted { stopped } => {
            if stopped {
                ScanAction::Done(ScanOutcome::Stopped)
            } else {
                ScanAction::Commit
            }
        },
        ScanEvent::Committed => ScanAction::Done(ScanOutcome::Finished),
    }
}

/// The phase that is shown while an action is done, where it begins one.
pub fn scan_phase(action: ScanAction) -> (r: Option<JobPhase>)
    ensures
        r == match action {
            ScanAction::RunOcr => Some(JobPhase::PreparingOcr),
            ScanAction::ExtractTerms => Some(JobPhase::ExtractingTerms),
            _ => None,
        },
{
    match action {
        ScanAction::RunOcr => Some(JobPhase::PreparingOcr),
        ScanAction::ExtractTerms => Some(JobPhase::ExtractingTerms),
        _ => None,
    }
}

/// A scan changes the glossary only after it looked for terms and no stop was asked for, and looks
/// for terms only where there is text.
pub proof fn lemma_scan_commits_last(event: ScanEvent)
    ensures
        scan_step(event) == ScanAction::Commit <==> event == (ScanEvent::Extracted {
            stopped: false,
        }),
        scan_step(event) == ScanAction::ExtractTerms ==> (event matches ScanEvent::SourcesRead {
            texts,
        } && !all_blank(texts@)),
        scan_step(event) == ScanAction::Done(ScanOutcome::Finished) <==> event
            == ScanEvent::Committed,
{
}

/// The texts that are not blank.
pub open spec fn filled_texts(records: Seq<SourceRecord>) -> Seq<String>
    decreases records.len(),
{
    if records.len() == 0 {
        Seq::empty()
    } else if text::is_blank(records.last().text@) {
        filled_texts(records.drop_last())
    } else {
        filled_texts(records.drop_last()).push(records.last().text)
    }
}

/// The record has a text, and its language is known.
pub open spec fn speaks(record: SourceRecord) -> bool {
    !text::is_blank(record.text@) && record.language is Some
}

/// The language of the first text whose language is known.
pub open spec fn first_language(records: Seq<SourceRecord>) -> Option<String>
    decreases records.len(),
{
    if records.len() == 0 {
        None
    } else {
        match first_language(records.drop_last()) {
            Some(language) => Some(language),
            None => if speaks(records.last()) {
                records.last().language
            } else {
                None
            },
        }
    }
}

/// Two texts are in different languages.
pub open spec fn mixed(records: Seq<SourceRecord>) -> bool {
    first_language(records) matches Some(language) && exists|i: int|
        0 <= i < records.len() && speaks(#[trigger] records[i]) && records[i].language->0@
            != language@
}

/// The language of the texts: the one that they are all in; else the one that the glossary has.
pub open spec fn language_of(records: Seq<SourceRecord>, known: Option<String>) -> Option<String> {
    if mixed(records) || first_language(records) is None {
        known
    } else {
        first_language(records)
    }
}

proof fn lemma_first_language(records: Seq<SourceRecord>)
    ensures
        first_language(records) is None ==> forall|i: int|
            0 <= i < records.len() ==> !speaks(#[trigger] records[i]),
    decreases records.len(),
{
    if records.len() > 0 {
        let head = records.drop_last();
        lemma_first_language(head);
        if first_language(records) is None {
            assert forall|i: int| 0 <= i < records.len() implies !speaks(#[trigger] records[i]) by {
                if i < head.len() {
                    assert(!speaks(head[i]));
                }
            }
        }
    }
}

/// What a scan reads: the texts that are not blank, and their language.
pub fn collect_sources(
    records: Vec<SourceRecord>,
    revision: Revision,
    fingerprint: String,
    known_source: Option<String>,
    known_target: Option<String>,
    default_target: String,
) -> (r: ScanInput)
    ensures
        r.revision == revision,
        r.fingerprint == fingerprint,
        r.texts@ == filled_texts(records@),
        r.source_language == language_of(records@, known_source),
        r.target_language == match known_target {
            Some(language) => Some(language),
            None => Some(default_target),
        },
{
    let ghost all = records@;
    let mut rest = records;
    let mut texts: Vec<String> = Vec::new();
    let mut language: Option<String> = None;
    let mut is_mixed = false;
    let ghost mut done: int = 0;
    assert(all.take(0) =~= Seq::empty());
    assert(all.skip(0) =~= all);
    while rest.len() > 0
        invariant
            0 <= done <= all.len(),
            rest@ == all.skip(done),
            texts@ == filled_texts(all.take(done)),
            language == first_language(all.take(done)),
            is_mixed == mixed(all.take(done)),
        decreases rest@.len(),
    {
        let record = rest.remove(0);
        let ghost head = all.take(done);
        let ghost next = all.take(done + 1);
        proof {
            assert(record == all[done]);
            assert(rest@ =~= all.skip(done + 1));
            assert(next.drop_last() =~= head);
            assert(next.last() == record);
            assert(next =~= head.push(record));
            lemma_first_language(head);
        }
        if !text::blank(record.text.as_str()) {
            match record.language {
                Some(found) => {
                    match &language {
                        None => {
                            proof {
                                assert(!mixed(next)) by {
                                    if mixed(next) {
                                        let i = choose|i: int|
                                            0 <= i < next.len() && speaks(#[trigger] next[i])
                                                && next[i].language->0@ != first_language(next)->0@;
                                        if i < head.len() {
                                            assert(!speaks(head[i]));
                                        }
                                    }
                                }
                            }
                            language = Some(found);
                        },
                        Some(current) => {
                            let same = text::same(current.as_str(), found.as_str());
                            proof {
                                lemma_mixed_step(head, record);
                            }
                            if !same {
                                is_mixed = true;
                            }
                        },
                    }
                },
                None => {
                    proof {
                        lemma_mixed_step(head, record);
                    }
                },
            }
            texts.push(record.text);
        } else {
            proof {
                lemma_mixed_step(head, record);
            }
        }
        proof {
            done = done + 1;
        }
    }
    assert(all.take(done) =~= all);
    let source_language = if is_mixed {
        known_source
    } else {
        match language {
            Some(language) => Some(language),
            None => known_source,
        }
    };
    let target_language = match known_target {
        Some(language) => Some(language),
        None => Some(default_target),
    };
    ScanInput { revision, fingerprint, source_language, target_language, texts }
}

proof fn lemma_mixed_step(head: Seq<SourceRecord>, record: SourceRecord)
    requires
        first_language(head) is Some || !speaks(record),
    ensures
        first_language(head.push(record)) == first_language(head),
        mixed(head.push(record)) == (mixed(head) || (speaks(record) && record.language->0@
            != first_language(head)->0@)),
{
    let next = head.push(record);
    assert(next.drop_last() =~= head);
    if first_language(head) is Some {
        let language = first_language(head)->0;
        if mixed(head) {
            let i = choose|i: int|
                0 <= i < head.len() && speaks(#[trigger] head[i]) && head[i].language->0@
                    != language@;
            assert(next[i] == head[i]);
        }
        if speaks(record) && record.language->0@ != language@ {
            assert(next[head.len() as int] == record);
        }
        if mixed(next) {
            let i = choose|i: int|
                0 <= i < next.len() && speaks(#[trigger] next[i]) && next[i].language->0@
                    != language@;
            if i < head.len() {
                assert(head[i] == next[i]);
            }
        }
    }
}

/// The example that a text gives of its terms: its first characters, in one line.
pub open spec fn example_text(s: Seq<char>) -> Seq<char> {
    let line = text::spaced(text::words(s));
    if line.len() <= GLOSSARY_EXAMPLE_MAX_CHARS {
        line
    } else {
        line.take(GLOSSARY_EXAMPLE_MAX_CHARS as int)
    }
}

/// The example that a text gives of its terms, where it is not blank.
pub fn example_of(source: &str) -> (r: Option<String>)
    ensures
        match r {
            Some(example) => example@ == example_text(source@) && example@.len() > 0,
            None => example_text(source@).len() == 0,
        },
{
    let line = text::collapsed(source);
    let v = text::chars_of(line.as_str());
    let n: usize = if v.len() <= GLOSSARY_EXAMPLE_MAX_CHARS {
        v.len()
    } else {
        GLOSSARY_EXAMPLE_MAX_CHARS
    };
    if n == 0 {
        return None;
    }
    let example = text::string_of_range(&v, 0, n);
    proof {
        if v@.len() <= GLOSSARY_EXAMPLE_MAX_CHARS {
            assert(v@.subrange(0, n as int) =~= v@);
        } else {
            assert(v@.subrange(0, n as int) =~= v@.take(n as int));
        }
    }
    Some(example)
}

/// The kind of entry for what a name is the name of.
pub open spec fn kind_for(kind: GlossaryEntityKind) -> GlossaryKind {
    match kind {
        GlossaryEntityKind::Person => GlossaryKind::Person,
        GlossaryEntityKind::Place => GlossaryKind::Place,
        GlossaryEntityKind::Organization => GlossaryKind::Organization,
        GlossaryEntityKind::Item => GlossaryKind::Item,
        GlossaryEntityKind::Ability => GlossaryKind::Ability,
        GlossaryEntityKind::WorkSpecificTerm => GlossaryKind::Term,
    }
}

fn glossary_kind(kind: GlossaryEntityKind) -> (r: GlossaryKind)
    ensures
        r == kind_for(kind),
{
    match kind {
        GlossaryEntityKind::Person => GlossaryKind::Person,
        GlossaryEntityKind::Place => GlossaryKind::Place,
        GlossaryEntityKind::Organization => GlossaryKind::Organization,
        GlossaryEntityKind::Item => GlossaryKind::Item,
        GlossaryEntityKind::Ability => GlossaryKind::Ability,
        GlossaryEntityKind::WorkSpecificTerm => GlossaryKind::Term,
    }
}

/// The candidate for a name that was found in a text.
pub open spec fn is_candidate(
    candidate: ScanCandidate,
    entity: GlossaryEntity,
    source: Seq<char>,
) -> bool {
    &&& candidate.source == entity.surface
    &&& candidate.kind == kind_for(entity.kind)
    &&& candidate.confidence == entity.confidence
    &&& match candidate.example {
        Some(example) => example@ == example_text(source) && example@.len() > 0,
        None => example_text(source).len() == 0,
    }
}

/// Adds the candidates for the names that were found in a text, with the text as their example.
pub fn add_candidates(
    candidates: &mut Vec<ScanCandidate>,
    source: &str,
    entities: Vec<GlossaryEntity>,
)
    ensures
        final(candidates)@.len() == old(candidates)@.len() + entities@.len(),
        forall|i: int|
            0 <= i < old(candidates)@.len() ==> #[trigger] final(candidates)@[i]
                == old(candidates)@[i],
        forall|i: int|
            0 <= i < entities@.len() ==> is_candidate(
                #[trigger] final(candidates)@[old(candidates)@.len() + i],
                entities@[i],
                source@,
            ),
{
    let example = example_of(source);
    let ghost all = entities@;
    let ghost had = candidates@;
    let mut rest = entities;
    let ghost mut done: int = 0;
    assert(all.skip(0) =~= all);
    while rest.len() > 0
        invariant
            had == old(candidates)@,
            0 <= done <= all.len(),
            rest@ == all.skip(done),
            match example {
                Some(example) => example@ == example_text(source@) && example@.len() > 0,
                None => example_text(source@).len() == 0,
            },
            candidates@.len() == had.len() + done,
            forall|i: int| 0 <= i < had.len() ==> #[trigger] candidates@[i] == had[i],
            forall|i: int|
                0 <= i < done ==> is_candidate(
                    #[trigger] candidates@[had.len() + i],
                    all[i],
                    source@,
                ),
        decreases rest@.len(),
    {
        let entity = rest.remove(0);
        assert(entity == all[done]);
        assert(rest@ =~= all.skip(done + 1));
        let candidate = ScanCandidate {
            source: entity.surface,
            kind: glossary_kind(entity.kind),
            confidence: entity.confidence,
            example: match &example {
                Some(example) => Some(example.clone()),
                None => None,
            },
        };
        assert(is_candidate(candidate, all[done], source@));
        let ghost before = candidates@;
        candidates.push(candidate);
        proof {
            assert forall|i: int| 0 <= i < done + 1 implies is_candidate(
                #[trigger] candidates@[had.len() + i],
                all[i],
                source@,
            ) by {
                if i < done {
                    assert(candidates@[had.len() + i] == before[had.len() + i]);
                }
            }
            done = done + 1;
        }
    }
}

/// Why what a scan found is not kept.
#[derive(Clone, Copy, Debug, PartialEq, Eq, Structural)]
pub enum CommitFault {
    ProjectChanged,
    TextChanged,
    StaleRevision { expected: Revision, current: Revision },
}

/// Whether what a scan found can be kept: in the same project, with the same texts, at the same
/// revision.
pub fn verify_scan(
    same_project: bool,
    fingerprint: &str,
    revision: Revision,
    input: &ScanInput,
) -> (r: Result<(), CommitFault>)
    ensures
        r == if !same_project {
            Err(CommitFault::ProjectChanged)
        } else if fingerprint@ != input.fingerprint@ {
            Err(CommitFault::TextChanged)
        } else if revision != input.revision {
            Err(CommitFault::StaleRevision { expected: input.revision, current: revision })
        } else {
            Ok::<(), CommitFault>(())
        },
{
    if !same_project {
        return Err(CommitFault::ProjectChanged);
    }
    if !text::same(fingerprint, input.fingerprint.as_str()) {
        return Err(CommitFault::TextChanged);
    }
    if revision != input.revision {
        return Err(CommitFault::StaleRevision { expected: input.revision, current: revision });
    }
    Ok(())
}

// ---------------------------------------------------------------------------------------------
// Translating terms
// ---------------------------------------------------------------------------------------------

/// A term that is to be translated.
#[derive(Debug)]
pub struct TermSource {
    pub id: GlossaryEntryId,
    pub source: String,
}

/// Why terms are not translated.
#[derive(Clone, Copy, Debug, PartialEq, Eq, Structural)]
pub enum SelectFault {
    StaleRevision { expected: Revision, current: Revision },
    NoTargetLanguage,
    NothingSelected,
}

/// The language that terms are translated into, at the revision that the request was made for.
pub fn translation_target(glossary: &Glossary, current: Revision, expected: Revision) -> (r: Result<
    String,
    SelectFault,
>)
    ensures
        r == if current != expected {
            Err(SelectFault::StaleRevision { expected, current })
        } else {
            match glossary.target_language {
                Some(language) => Ok(language),
                None => Err(SelectFault::NoTargetLanguage),
            }
        },
{
    if current != expected {
        return Err(SelectFault::StaleRevision { expected, current });
    }
    match &glossary.target_language {
        Some(language) => Ok(language.clone()),
        None => Err(SelectFault::NoTargetLanguage),
    }
}

/// The entry is on, has no translation and is among those that were selected.
pub open spec fn is_wanted(entry: GlossaryEntry, ids: Option<Vec<GlossaryEntryId>>) -> bool {
    &&& entry.enabled
    &&& entry.translation is None
    &&& ids matches Some(ids) ==> ids@.contains(entry.id)
}

/// The terms that are to be translated.
pub open spec fn wanted(entries: Seq<GlossaryEntry>, ids: Option<Vec<GlossaryEntryId>>) -> Seq<
    TermSource,
>
    decreases entries.len(),
{
    if entries.len() == 0 {
        Seq::empty()
    } else if is_wanted(entries.last(), ids) {
        wanted(entries.drop_last(), ids).push(
            TermSource { id: entries.last().id, source: entries.last().source },
        )
    } else {
        wanted(entries.drop_last(), ids)
    }
}

fn has_id(ids: &Vec<GlossaryEntryId>, id: GlossaryEntryId) -> (r: bool)
    ensures
        r == ids@.contains(id),
{
    let mut i: usize = 0;
    while i < ids.len()
        invariant
            i <= ids@.len(),
            forall|j: int| 0 <= j < i ==> #[trigger] ids@[j] != id,
        decreases ids@.len() - i,
    {
        if ids[i] == id {
            return true;
        }
        i += 1;
    }
    false
}

/// The terms that are to be translated, of which there has to be one.
pub fn select_terms(glossary: &Glossary, ids: &Option<Vec<GlossaryEntryId>>) -> (r: Result<
    Vec<TermSource>,
    SelectFault,
>)
    ensures
        wanted(glossary.entries@, *ids).len() == 0 ==> r == Err::<Vec<TermSource>, _>(
            SelectFault::NothingSelected,
        ),
        wanted(glossary.entries@, *ids).len() > 0 ==> (r matches Ok(terms) && terms@ == wanted(
            glossary.entries@,
            *ids,
        )),
{
    let entries = &glossary.entries;
    let mut out: Vec<TermSource> = Vec::new();
    let mut i: usize = 0;
    assert(entries@.take(0) =~= Seq::empty());
    while i < entries.len()
        invariant
            i <= entries@.len(),
            out@ == wanted(entries@.take(i as int), *ids),
        decreases entries@.len() - i,
    {
        let entry = &entries[i];
        proof {
            assert(entries@.take(i + 1).drop_last() =~= entries@.take(i as int));
            assert(entries@.take(i + 1).last() == *entry);
        }
        let selected = match ids {
            Some(ids) => has_id(ids, entry.id),
            None => true,
        };
        if entry.enabled && entry.translation.is_none() && selected {
            out.push(TermSource { id: entry.id, source: entry.source.clone() });
        }
        i += 1;
    }
    assert(entries@.take(i as int) =~= entries@);
    if out.len() == 0 {
        return Err(SelectFault::NothingSelected);
    }
    Ok(out)
}

/// What happened last in the translation of terms.
#[derive(Clone, Copy, Debug, PartialEq, Eq, Structural)]
pub enum TermEvent {
    Begin { stopped: bool },
    /// The provider gave so many translations.
    Translated { translations: usize, stopped: bool },
    Committed,
}

/// What is done next in the translation of terms.
#[derive(Clone, Copy, Debug, PartialEq, Eq, Structural)]
pub enum TermAction {
    Translate,
    Commit,
    Done(ScanOutcome),
    /// There is not one translation for each term.
    WrongCount { translations: usize, terms: usize },
}

/// What is done next in the translation of `terms` terms.
pub fn next_term_step(event: TermEvent, terms: usize) -> (r: TermAction)
    ensures
        r == match event {
            TermEvent::Begin { stopped } => if stopped {
                TermAction::Done(ScanOutcome::Stopped)
            } else {
                TermAction::Translate
            },
            TermEvent::Translated { translations, stopped } => if translations != terms {
                TermAction::WrongCount { translations, terms }
            } else if stopped {
                TermAction::Done(ScanOutcome::Stopped)
            } else {
                TermAction::Commit
            },
            TermEvent::Committed => TermAction::Done(ScanOutcome::Finished),
        },
{
    match event {
        TermEvent::Begin { stopped } => {
            if stopped {
                TermAction::Done(ScanOutcome::Stopped)
            } else {
                TermAction::Translate
            }
        },
        TermEvent::Translated { translations, stopped } => {
            if translations != terms {
                TermAction::WrongCount { translations, terms }
            } else if stopped {
                TermAction::Done(ScanOutcome::Stopped)
            } else {
                TermAction::Commit
            }
        },
        TermEvent::Committed => TermAction::Done(ScanOutcome::Finished),
    }
}

/// The translations, each with its term.
pub fn term_results(terms: Vec<TermSource>, translations: Vec<String>) -> (r: Vec<
    TermTranslationResult,
>)
    requires
        terms@.len() == translations@.len(),
    ensures
        r@.len() == terms@.len(),
        forall|i: int|
            0 <= i < r@.len() ==> #[trigger] r@[i] == (TermTranslationResult {
                id: terms@[i].id,
                source: terms@[i].source,
                translation: translations@[i],
            }),
{
    let ghost all = terms@;
    let ghost given = translations@;
    let mut rest = terms;
    let mut texts = translations;
    let mut out: Vec<TermTranslationResult> = Vec::new();
    assert(all.skip(0) =~= all);
    assert(given.skip(0) =~= given);
    while rest.len() > 0
        invariant
            all.len() == given.len(),
            out@.len() + rest@.len() == all.len(),
            rest@ == all.skip(out@.len() as int),
            texts@ == given.skip(out@.len() as int),
            forall|i: int|
                0 <= i < out@.len() ==> #[trigger] out@[i] == (TermTranslationResult {
                    id: all[i].id,
                    source: all[i].source,
                    translation: given[i],
                }),
        decreases rest@.len(),
    {
        let ghost done = out@.len() as int;
        let term = rest.remove(0);
        let translation = texts.remove(0);
        assert(term == all[done]);
        assert(translation == given[done]);
        out.push(TermTranslationResult { id: term.id, source: term.source, translation });
        assert(rest@ =~= all.skip(done + 1));
        assert(texts@ =~= given.skip(done + 1));
    }
    out
}

impl CommitFault {
    /// What is said of the fault.
    pub open spec fn says(self) -> Seq<char> {
        match self {
            CommitFault::ProjectChanged => "project changed during glossary scan"@,
            CommitFault::TextChanged =>
                "project OCR text changed during glossary extraction; rescan the glossary"@,
            CommitFault::StaleRevision { expected, current } => crate::ids::moved_on(
                "glossary scan"@,
                expected,
                current,
            ),
        }
    }

    /// What is said of the fault.
    pub fn message(self) -> (r: String)
        ensures
            r@ == self.says(),
    {
        match self {
            CommitFault::ProjectChanged => "project changed during glossary scan".to_owned(),
            CommitFault::TextChanged =>
                "project OCR text changed during glossary extraction; rescan the glossary".to_owned(),
            CommitFault::StaleRevision { expected, current } => crate::ids::stale_message(
                "glossary scan",
                expected,
                current,
            ),
        }
    }
}

impl SelectFault {
    /// What is said of the fault.
    pub open spec fn says(self) -> Seq<char> {
        match self {
            SelectFault::StaleRevision { expected, current } => crate::ids::moved_on(
                "glossary translation"@,
                expected,
                current,
            ),
            SelectFault::NoTargetLanguage =>
                "glossary target language is required before translating entries"@,
            SelectFault::NothingSelected =>
                "no enabled untranslated glossary entries were selected"@,
        }
    }

    /// What is said of the fault.
    pub fn message(self) -> (r: String)
        ensures
            r@ == self.says(),
    {
        match self {
            SelectFault::StaleRevision { expected, current } => crate::ids::stale_message(
                "glossary translation",
                expected,
                current,
            ),
            SelectFault::NoTargetLanguage =>
                "glossary target language is required before translating entries".to_owned(),
            SelectFault::NothingSelected =>
                "no enabled untranslated glossary entries were selected".to_owned(),
        }
    }
}

/// One text more: it is read unless it is blank, behind those before it.
pub proof fn lemma_a_text_more(records: Seq<SourceRecord>, record: SourceRecord)
    ensures
        (forall|i: int| 0 <= i < record.text@.len() ==> text::is_whitespace(#[trigger] record.text@[i]))
            ==> filled_texts(records.push(record)) == filled_texts(records),
        !(forall|i: int| 0 <= i < record.text@.len() ==> text::is_whitespace(#[trigger] record.text@[i]))
            ==> filled_texts(records.push(record)) == filled_texts(records).push(record.text),
{
    assert(records.push(record).drop_last() =~= records);
}

proof fn lemma_first_language_speaks(records: Seq<SourceRecord>)
    ensures
        first_language(records) matches Some(language) ==> exists|i: int|
            0 <= i < records.len() && speaks(#[trigger] records[i]) && records[i].language == Some(
                language,
            ),
    decreases records.len(),
{
    if records.len() > 0 {
        let head = records.drop_last();
        lemma_first_language_speaks(head);
        if first_language(head) is Some {
            let i = choose|i: int|
                0 <= i < head.len() && speaks(#[trigger] head[i]) && head[i].language
                    == first_language(head);
            assert(records[i] == head[i]);
        } else if speaks(records.last()) {
            assert(speaks(records[records.len() - 1]));
        }
    }
}

/// Texts that are all in one language, where their language is known, are in that language. Blank
/// texts say nothing of it.
pub proof fn lemma_texts_in_one_language(
    records: Seq<SourceRecord>,
    known: Option<String>,
    language: Seq<char>,
    i: int,
)
    requires
        0 <= i < records.len(),
        !text::is_blank(records[i].text@),
        records[i].language is Some,
        forall|k: int|
            0 <= k < records.len() && !text::is_blank((#[trigger] records[k]).text@)
                && records[k].language is Some ==> records[k].language->0@ == language,
    ensures
        language_of(records, known) matches Some(found) && found@ == language,
{
    lemma_first_language(records);
    lemma_first_language_speaks(records);
    assert(speaks(records[i]));
    let first = first_language(records);
    let k = choose|k: int|
        0 <= k < records.len() && speaks(#[trigger] records[k]) && records[k].language == first;
    assert(records[k].language->0@ == language);
}

/// Texts in different languages, or without a known one, are in the language that the glossary has.
pub proof fn lemma_texts_in_no_one_language(
    records: Seq<SourceRecord>,
    known: Option<String>,
    i: int,
    j: int,
)
    requires
        ({
            ||| forall|k: int|
                0 <= k < records.len() ==> text::is_blank((#[trigger] records[k]).text@)
                    || records[k].language is None
            ||| {
                &&& 0 <= i < records.len() && 0 <= j < records.len()
                &&& !text::is_blank(records[i].text@) && !text::is_blank(records[j].text@)
                &&& records[i].language is Some && records[j].language is Some
                &&& records[i].language->0@ != records[j].language->0@
            }
        }),
    ensures
        language_of(records, known) == known,
{
    lemma_first_language(records);
    lemma_first_language_speaks(records);
    if first_language(records) is Some {
        assert(speaks(records[i]) && speaks(records[j]));
    }
}

/// One entry more: it is translated where it is on, has no translation and, if some were selected,
/// is one of them; and nothing else is.
pub proof fn lemma_an_entry_more(
    entries: Seq<GlossaryEntry>,
    entry: GlossaryEntry,
    ids: Option<Vec<GlossaryEntryId>>,
)
    ensures
        ({
            let before = wanted(entries, ids);
            let after = wanted(entries.push(entry), ids);
            if entry.enabled && entry.translation is None && (ids is None || ids->0@.contains(
                entry.id,
            )) {
                &&& after.len() == before.len() + 1
                &&& after.take(before.len() as int) == before
                &&& after.last().id == entry.id
                &&& after.last().source == entry.source
            } else {
                after == before
            }
        }),
{
    assert(entries.push(entry).drop_last() =~= entries);
    let before = wanted(entries, ids);
    let after = wanted(entries.push(entry), ids);
    if is_wanted(entry, ids) {
        assert(after.take(before.len() as int) =~= before);
    }
}

/// An example has 512 characters at most, the first of its text in one line; the text of an example
/// that is shorter stands in it whole.
pub proof fn lemma_an_example_is_short(s: Seq<char>)
    ensures
        example_text(s).len() <= 512,
        example_text(s) == text::spaced(text::words(s)).take(example_text(s).len() as int),
        example_text(s).len() < 512 ==> example_text(s) == text::spaced(text::words(s)),
{
    let line = text::spaced(text::words(s));
    assert(line.take(line.len() as int) =~= line);
}

/// A name becomes an entry of the kind that it was found as.
pub proof fn lemma_kinds_of_names(kind: GlossaryEntityKind)
    ensures
        kind is Person <==> kind_for(kind) is Person,
        kind is Place <==> kind_for(kind) is Place,
        kind is Organization <==> kind_for(kind) is Organization,
        kind is Item <==> kind_for(kind) is Item,
        kind is Ability <==> kind_for(kind) is Ability,
        kind is WorkSpecificTerm <==> kind_for(kind) is Term,
{
}

/// A scan reads the pages, then the texts, looks for terms and commits them. It ends where a stop was
/// seen or there is no text.
pub proof fn lemma_steps_of_a_scan(event: ScanEvent)
    ensures
        event is Begin ==> scan_step(event) is RunOcr,
        event == (ScanEvent::OcrRan { outcome: ScanOutcome::Finished, stopped: false })
            ==> scan_step(event) is ReadSources,
        event matches ScanEvent::OcrRan { outcome, stopped } ==> (outcome is Stopped || stopped)
            ==> scan_step(event) == ScanAction::Done(ScanOutcome::Stopped),
        event matches ScanEvent::SourcesRead { texts } ==> (scan_step(event) is NoText
            <==> forall|i: int, k: int|
            0 <= i < texts@.len() && 0 <= k < texts@[i]@.len() ==> text::is_whitespace(
                #[trigger] texts@[i]@[k],
            )) && (scan_step(event) is NoText || scan_step(event) is ExtractTerms),
        event == (ScanEvent::Extracted { stopped: true }) ==> scan_step(event) == ScanAction::Done(
            ScanOutcome::Stopped,
        ),
        event == (ScanEvent::Extracted { stopped: false }) ==> scan_step(event) is Commit,
        event is Committed ==> scan_step(event) == ScanAction::Done(ScanOutcome::Finished),
{
    if let ScanEvent::SourcesRead { texts } = event {
        if all_blank(texts@) {
            assert forall|i: int, k: int|
                0 <= i < texts@.len() && 0 <= k < texts@[i]@.len() implies text::is_whitespace(
                #[trigger] texts@[i]@[k],
            ) by {
                assert(text::is_blank(texts@[i]@));
            }
        } else {
            let i = choose|i: int|
                0 <= i < texts@.len() && !text::is_blank((#[trigger] texts@[i])@);
            let k = choose|k: int|
                0 <= k < texts@[i]@.len() && !text::is_whitespace(#[trigger] texts@[i]@[k]);
            assert(!text::is_whitespace(texts@[i]@[k]));
        }
    }
}

} // verus!
