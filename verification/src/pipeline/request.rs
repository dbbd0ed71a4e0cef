//! What a run of the pipeline is asked to do.
use crate::glossary::model::{Glossary, GlossaryEntry, GlossaryEntryId, GlossaryKind};
use crate::ids::EntityId;
use crate::normalize;
use crate::normalize::normalize_glossary_source;
use crate::order;
use crate::order::Ranked;
use crate::text;
use std::sync::atomic::AtomicBool;
use std::sync::Arc;
use vstd::prelude::*;

verus! {

/// A step that a page goes through.
#[derive(Clone, Copy, Debug, PartialEq, Eq, Structural, Hash)]
pub enum Stage {
    Detection,
    Ocr,
    Translation,
    Inpainting,
}

impl Stage {
    /// The place of the stage among all stages.
    pub open spec fn rank(self) -> int {
        match self {
            Stage::Detection => 0,
            Stage::Ocr => 1,
            Stage::Translation => 2,
            Stage::Inpainting => 3,
        }
    }

    /// All stages, in the order in which a page goes through them.
    pub fn all() -> (r: Vec<Stage>)
        ensures
            r@ == every_stage(),
    {
        vec![Stage::Detection, Stage::Ocr, Stage::Translation, Stage::Inpainting]
    }

    /// Whether the stage stands before the other.
    pub fn precedes(self, other: Stage) -> (r: bool)
        ensures
            r == (self.rank() < other.rank()),
    {
        let a: u8 = self.number();
        let b: u8 = other.number();
        a < b
    }

    fn number(self) -> (r: u8)
        ensures
            r == self.rank(),
    {
        match self {
            Stage::Detection => 0,
            Stage::Ocr => 1,
            Stage::Translation => 2,
            Stage::Inpainting => 3,
        }
    }
}

/// All stages, in the order in which a page goes through them.
pub open spec fn every_stage() -> Seq<Stage> {
    seq![Stage::Detection, Stage::Ocr, Stage::Translation, Stage::Inpainting]
}

/// Which stages a run goes through.
#[derive(Debug)]
pub enum Operation {
    Full,
    /// What is needed for the stage, and the stage.
    Through { stage: Stage },
    Only { stage: Stage },
    Stages { stages: Vec<Stage> },
    /// The stages one after the other, each over all pages.
    StageMajor { stages: Vec<Stage> },
}

impl Default for Operation {
    fn default() -> (r: Self)
        ensures
            r is Full,
    {
        Operation::Full
    }
}

/// No stage was selected.
#[derive(Clone, Copy, Debug, PartialEq, Eq, Structural)]
pub struct NoStage;

/// The stages of `all` that are among `given`.
pub open spec fn picked(all: Seq<Stage>, given: Seq<Stage>) -> Seq<Stage>
    decreases all.len(),
{
    if all.len() == 0 {
        all
    } else if given.contains(all.last()) {
        picked(all.drop_last(), given).push(all.last())
    } else {
        picked(all.drop_last(), given)
    }
}

/// The stages of an operation.
pub open spec fn stages_of(operation: Operation) -> Seq<Stage> {
    match operation {
        Operation::Full => every_stage(),
        Operation::Through { stage } => match stage {
            Stage::Detection => seq![Stage::Detection],
            Stage::Ocr => seq![Stage::Detection, Stage::Ocr],
            Stage::Translation => seq![Stage::Detection, Stage::Ocr, Stage::Translation],
            Stage::Inpainting => seq![Stage::Detection, Stage::Inpainting],
        },
        Operation::Only { stage } => seq![stage],
        Operation::Stages { stages } => picked(every_stage(), stages@),
        Operation::StageMajor { stages } => picked(every_stage(), stages@),
    }
}

/// The stages stand in the order in which a page goes through them, each at most once.
pub open spec fn in_stage_order(stages: Seq<Stage>) -> bool {
    forall|i: int, j: int|
        0 <= i < j < stages.len() ==> (#[trigger] stages[i]).rank() < (#[trigger] stages[j]).rank()
}

/// Every operation goes through its stages in order, each once.
pub proof fn lemma_stages_in_order(operation: Operation)
    ensures
        in_stage_order(stages_of(operation)),
{
    match operation {
        Operation::Stages { stages } => lemma_picked(every_stage(), stages@),
        Operation::StageMajor { stages } => lemma_picked(every_stage(), stages@),
        _ => {},
    }
}

proof fn lemma_picked(all: Seq<Stage>, given: Seq<Stage>)
    requires
        in_stage_order(all),
    ensures
        in_stage_order(picked(all, given)),
        forall|s: Stage| #[trigger]
            picked(all, given).contains(s) <==> all.contains(s) && given.contains(s),
    decreases all.len(),
{
    if all.len() > 0 {
        let head = all.drop_last();
        assert forall|i: int, j: int| 0 <= i < j < head.len() implies (#[trigger] head[i]).rank()
            < (#[trigger] head[j]).rank() by {
            assert(all[i].rank() < all[j].rank());
        }
        lemma_picked(head, given);
        let r = picked(all, given);
        let p = picked(head, given);
        assert(all =~= head.push(all.last()));
        assert forall|s: Stage| #[trigger] r.contains(s) <==> all.contains(s) && given.contains(
            s,
        ) by {
            assert(p.contains(s) <==> head.contains(s) && given.contains(s));
            if all.contains(s) {
                let k = choose|k: int| 0 <= k < all.len() && all[k] == s;
                if k < head.len() {
                    assert(head[k] == s);
                }
            }
            if head.contains(s) {
                let k = choose|k: int| 0 <= k < head.len() && head[k] == s;
                assert(all[k] == s);
            }
            assert(all[all.len() - 1] == all.last());
            if given.contains(all.last()) {
                if r.contains(s) {
                    let k = choose|k: int| 0 <= k < r.len() && r[k] == s;
                    if k < p.len() {
                        assert(p[k] == s);
                    }
                }
                if p.contains(s) {
                    let k = choose|k: int| 0 <= k < p.len() && p[k] == s;
                    assert(r[k] == s);
                }
                assert(r[r.len() - 1] == all.last());
            }
        }
        assert forall|i: int, j: int| 0 <= i < j < r.len() implies (#[trigger] r[i]).rank() < (
        #[trigger] r[j]).rank() by {
            if j == p.len() {
                assert(r[i] == p[i]);
                assert(p.contains(p[i]));
                assert(head.contains(p[i]));
                let k = choose|k: int| 0 <= k < head.len() && head[k] == p[i];
                assert(all[k].rank() < all[all.len() - 1].rank());
            } else {
                assert(r[i] == p[i] && r[j] == p[j]);
            }
        }
    }
}

/// A run of selected stages goes through those that were selected, and through no others.
pub proof fn lemma_selected_stages(given: Seq<Stage>)
    ensures
        forall|s: Stage| #[trigger]
            picked(every_stage(), given).contains(s) <==> given.contains(s),
        picked(every_stage(), given).len() == 0 <==> given.len() == 0,
{
    lemma_picked(every_stage(), given);
    let r = picked(every_stage(), given);
    assert forall|s: Stage| #[trigger] r.contains(s) <==> given.contains(s) by {
        let all = every_stage();
        assert(all[0] == Stage::Detection && all[1] == Stage::Ocr && all[2] == Stage::Translation
            && all[3] == Stage::Inpainting);
        assert(all.contains(s));
    }
    if given.len() > 0 {
        assert(given.contains(given[0]));
        assert(r.contains(given[0]));
    }
    if r.len() > 0 {
        assert(r.contains(r[0]));
    }
}

fn pick(given: &Vec<Stage>) -> (r: Vec<Stage>)
    ensures
        r@ == picked(every_stage(), given@),
{
    let all = Stage::all();
    let mut out: Vec<Stage> = Vec::new();
    let mut i: usize = 0;
    assert(all@.take(0) =~= Seq::empty());
    while i < all.len()
        invariant
            i <= all@.len(),
            out@ == picked(all@.take(i as int), given@),
        decreases all@.len() - i,
    {
        let stage = all[i];
        let mut found = false;
        let mut k: usize = 0;
        while k < given.len()
            invariant
                k <= given@.len(),
                found == given@.take(k as int).contains(stage),
            decreases given@.len() - k,
        {
            assert(given@.take(k + 1) =~= given@.take(k as int).push(given@[k as int]));
            assert(given@.take(k + 1).contains(stage) == (given@.take(k as int).contains(stage)
                || given@[k as int] == stage)) by {
                let a = given@.take(k as int);
                let b = given@.take(k + 1);
                if a.contains(stage) {
                    let q = choose|q: int| 0 <= q < a.len() && a[q] == stage;
                    assert(b[q] == stage);
                }
                assert(b[k as int] == given@[k as int]);
                if b.contains(stage) {
                    let q = choose|q: int| 0 <= q < b.len() && b[q] == stage;
                    if q < k {
                        assert(a[q] == stage);
                    }
                }
            }
            if given[k] == stage {
                found = true;
            }
            k += 1;
        }
        assert(given@.take(k as int) =~= given@);
        assert(all@.take(i + 1).drop_last() =~= all@.take(i as int));
        assert(all@.take(i + 1).last() == stage);
        if found {
            out.push(stage);
        }
        i += 1;
    }
    assert(all@.take(i as int) =~= all@);
    out
}

impl Operation {
    /// The stages of the operation: at least one.
    pub fn stages(&self) -> (r: Result<Vec<Stage>, NoStage>)
        ensures
            stages_of(*self).len() == 0 <==> r is Err,
            r matches Ok(stages) ==> stages@ == stages_of(*self),
    {
        let stages = match self {
            Operation::Full => Stage::all(),
            Operation::Through { stage } => match stage {
                Stage::Detection => vec![Stage::Detection],
                Stage::Ocr => vec![Stage::Detection, Stage::Ocr],
                Stage::Translation => vec![Stage::Detection, Stage::Ocr, Stage::Translation],
                Stage::Inpainting => vec![Stage::Detection, Stage::Inpainting],
            },
            Operation::Only { stage } => vec![*stage],
            Operation::Stages { stages } => pick(stages),
            Operation::StageMajor { stages } => pick(stages),
        };
        assert(stages@ =~= stages_of(*self));
        if stages.len() == 0 {
            return Err(NoStage);
        }
        Ok(stages)
    }
}

/// Which pages a run is over.
#[derive(Debug)]
pub enum Scope {
    Project,
    Pages(Vec<EntityId>),
}

/// A mask that was drawn by hand for a page, as a PNG image.
#[derive(Clone, Debug)]
pub struct InpaintingMask {
    pub page: EntityId,
    pub png: Vec<u8>,
}

/// A flag that asks a run to stop. Clones share the flag.
pub struct StopToken(Arc<AtomicBool>);

impl StopToken {
    /// A flag that is not raised. What a flag is at a moment rests on other threads, so nothing is
    /// stated of what it shows: what is done on either answer is stated where the answer is used.
    pub fn new() -> Self {
        StopToken(Arc::new(AtomicBool::new(false)))
    }

    /// Raises the flag.
    pub fn stop(&self) {
        self.0.store(true, std::sync::atomic::Ordering::Release);
    }

    /// Whether the flag is raised.
    #[must_use]
    pub fn stopped(&self) -> bool {
        self.0.load(std::sync::atomic::Ordering::Acquire)
    }

    /// Whether the flag is raised, asked in the course of a work that has put `asked` other questions
    /// to it.
    #[must_use]
    pub fn stopped_after(&self, asked: usize) -> bool {
        self.stopped()
    }
}

impl Clone for StopToken {
    fn clone(&self) -> (r: Self)
        ensures
            r == *self,
    {
        StopToken(self.0.clone())
    }
}

impl Default for StopToken {
    fn default() -> Self {
        StopToken::new()
    }
}

// ---------------------------------------------------------------------------------------------
// Terminology
// ---------------------------------------------------------------------------------------------

/// What a term of a translation names, in the order in which terms are listed.
#[derive(Clone, Copy, Debug, PartialEq, Eq, Structural, Hash)]
pub enum TerminologyKind {
    Person,
    Place,
    Organization,
    Item,
    Ability,
    Term,
    Other,
}

impl TerminologyKind {
    pub open spec fn rank(self) -> int {
        match self {
            TerminologyKind::Person => 0,
            TerminologyKind::Place => 1,
            TerminologyKind::Organization => 2,
            TerminologyKind::Item => 3,
            TerminologyKind::Ability => 4,
            TerminologyKind::Term => 5,
            TerminologyKind::Other => 6,
        }
    }

    fn number(self) -> (r: u8)
        ensures
            r == self.rank(),
    {
        match self {
            TerminologyKind::Person => 0,
            TerminologyKind::Place => 1,
            TerminologyKind::Organization => 2,
            TerminologyKind::Item => 3,
            TerminologyKind::Ability => 4,
            TerminologyKind::Term => 5,
            TerminologyKind::Other => 6,
        }
    }
}

/// A term that a translation has to keep to.
#[derive(Debug)]
pub struct TerminologyEntry {
    pub source: String,
    pub translation: String,
    pub kind: TerminologyKind,
}

/// A term with what it is sorted by.
pub struct RankedTerm {
    pub kind: TerminologyKind,
    pub form: String,
    pub id: GlossaryEntryId,
    pub entry: TerminologyEntry,
}

impl Ranked for RankedTerm {
    open spec fn ranks(self, other: Self) -> bool {
        ||| self.kind.rank() < other.kind.rank()
        ||| {
            &&& self.kind == other.kind
            &&& {
                ||| text::text_lt(self.form@, other.form@)
                ||| self.form@ == other.form@ && self.id.0 <= other.id.0
            }
        }
    }

    proof fn total(a: Self, b: Self) {
        text::lemma_text_le_total(a.form@, b.form@);
    }

    proof fn transitive(a: Self, b: Self, c: Self) {
        if a.kind == b.kind && b.kind == c.kind {
            text::lemma_text_le_total(a.form@, b.form@);
            text::lemma_text_le_total(b.form@, c.form@);
            text::lemma_text_le_transitive(a.form@, b.form@, c.form@);
        }
    }

    fn not_after(&self, other: &Self) -> (r: bool) {
        let a: u8 = self.kind.number();
        let b: u8 = other.kind.number();
        if a != b {
            return a < b;
        }
        if text::same(self.form.as_str(), other.form.as_str()) {
            return self.id.0 <= other.id.0;
        }
        text::not_after(self.form.as_str(), other.form.as_str())
    }
}

/// The kind of term for a kind of entry.
pub open spec fn kind_of(kind: GlossaryKind) -> TerminologyKind {
    match kind {
        GlossaryKind::Person => TerminologyKind::Person,
        GlossaryKind::Place => TerminologyKind::Place,
        GlossaryKind::Organization => TerminologyKind::Organization,
        GlossaryKind::Item => TerminologyKind::Item,
        GlossaryKind::Ability => TerminologyKind::Ability,
        GlossaryKind::Term => TerminologyKind::Term,
        GlossaryKind::Other => TerminologyKind::Other,
    }
}

fn terminology_kind(kind: GlossaryKind) -> (r: TerminologyKind)
    ensures
        r == kind_of(kind),
{
    match kind {
        GlossaryKind::Person => TerminologyKind::Person,
        GlossaryKind::Place => TerminologyKind::Place,
        GlossaryKind::Organization => TerminologyKind::Organization,
        GlossaryKind::Item => TerminologyKind::Item,
        GlossaryKind::Ability => TerminologyKind::Ability,
        GlossaryKind::Term => TerminologyKind::Term,
        GlossaryKind::Other => TerminologyKind::Other,
    }
}

/// The entries that a translation has to keep to: those that are on and have a translation.
pub open spec fn eligible(entries: Seq<GlossaryEntry>) -> Seq<GlossaryEntry>
    decreases entries.len(),
{
    if entries.len() == 0 {
        entries
    } else if entries.last().enabled && entries.last().translation is Some {
        eligible(entries.drop_last()).push(entries.last())
    } else {
        eligible(entries.drop_last())
    }
}

/// The term of an entry, sorted by its kind, its normalized source and the name of the entry.
pub open spec fn is_term_of(term: RankedTerm, entry: GlossaryEntry) -> bool {
    &&& term.kind == kind_of(entry.kind)
    &&& term.form@ == normalize::source_form(entry.source@)
    &&& term.id == entry.id
    &&& term.entry.source == entry.source
    &&& entry.translation == Some(term.entry.translation)
    &&& term.entry.kind == term.kind
}

/// The terms of the entries, one for each.
pub open spec fn are_terms_of(terms: Seq<RankedTerm>, entries: Seq<GlossaryEntry>) -> bool {
    &&& terms.len() == entries.len()
    &&& forall|i: int| 0 <= i < terms.len() ==> is_term_of(#[trigger] terms[i], entries[i])
}

/// The terms alone.
pub open spec fn bare(terms: Seq<RankedTerm>) -> Seq<TerminologyEntry> {
    Seq::new(terms.len(), |i: int| terms[i].entry)
}

/// The terms that a translation has to keep to, by kind, then by normalized source, then by the
/// name of the entry. A glossary that is off has none.
#[must_use]
pub fn terminology_from_glossary(glossary: &Glossary) -> (r: Vec<TerminologyEntry>)
    ensures
        !glossary.enabled ==> r@.len() == 0,
        glossary.enabled ==> exists|terms: Seq<RankedTerm>| #[trigger]
            are_terms_of(terms, eligible(glossary.entries@)) && r@ == bare(order::arranged(terms)),
{
    if !glossary.enabled {
        return Vec::new();
    }
    let entries = &glossary.entries;
    let mut terms: Vec<RankedTerm> = Vec::new();
    let mut i: usize = 0;
    assert(entries@.take(0) =~= Seq::empty());
    while i < entries.len()
        invariant
            i <= entries@.len(),
            are_terms_of(terms@, eligible(entries@.take(i as int))),
        decreases entries@.len() - i,
    {
        let entry = &entries[i];
        proof {
            assert(entries@.take(i + 1).drop_last() =~= entries@.take(i as int));
            assert(entries@.take(i + 1).last() == *entry);
        }
        if entry.enabled {
            match &entry.translation {
                Some(translation) => {
                    let kind = terminology_kind(entry.kind);
                    let term = RankedTerm {
                        kind,
                        form: normalize_glossary_source(entry.source.as_str()),
                        id: entry.id,
                        entry: TerminologyEntry {
                            source: entry.source.clone(),
                            translation: translation.clone(),
                            kind,
                        },
                    };
                    assert(is_term_of(term, *entry));
                    terms.push(term);
                },
                None => {},
            }
        }
        i += 1;
    }
    assert(entries@.take(i as int) =~= entries@);
    let ghost all = terms@;
    let mut rest = order::sorted(terms);
    let ghost arranged = rest@;
    let mut out: Vec<TerminologyEntry> = Vec::new();
    while rest.len() > 0
        invariant
            out@.len() + rest@.len() == arranged.len(),
            rest@ == arranged.skip(out@.len() as int),
            forall|k: int| 0 <= k < out@.len() ==> #[trigger] out@[k] == arranged[k].entry,
        decreases rest@.len(),
    {
        let ghost done = out@.len() as int;
        let term = rest.remove(0);
        assert(term == arranged[done]);
        out.push(term.entry);
        assert(rest@ =~= arranged.skip(done + 1));
    }
    assert(out@ =~= bare(order::arranged(all)));
    out
}

/// What a run is asked to do.
pub struct Request {
    pub operation: Operation,
    pub scope: Scope,
    pub stop: StopToken,
    pub inpainting_mask: Option<InpaintingMask>,
    pub terminology: Vec<TerminologyEntry>,
}

impl Default for Request {
    fn default() -> (r: Self)
        ensures
            r.operation is Full,
            r.scope is Project,
            r.inpainting_mask is None,
            r.terminology@.len() == 0,
    {
        Request {
            operation: Operation::Full,
            scope: Scope::Project,
            stop: StopToken::new(),
            inpainting_mask: None,
            terminology: Vec::new(),
        }
    }
}

impl Request {
    /// The request with these terms.
    #[must_use]
    pub fn with_terminology(self, terminology: Vec<TerminologyEntry>) -> (r: Self)
        ensures
            r == (Request { terminology, ..self }),
    {
        let mut request = self;
        request.terminology = terminology;
        request
    }
}

impl NoStage {
    /// What is said of the fault.
    pub open spec fn says(self) -> Seq<char> {
        "at least one pipeline stage must be selected"@
    }

    /// What is said of the fault.
    pub fn message(self) -> (r: &'static str)
        ensures
            r@ == self.says(),
    {
        "at least one pipeline stage must be selected"
    }
}

/// What each operation runs: all stages; a stage with those that it needs, which are the detection
/// and, for the translation, the reading; one stage alone; or the stages that were given, whatever
/// their order.
pub proof fn lemma_what_an_operation_runs(operation: Operation, s: Stage)
    ensures
        ({
            let runs = stages_of(operation).contains(s);
            &&& operation is Full ==> runs
            &&& operation matches Operation::Through { stage } ==> (runs <==> (s == stage || s
                == Stage::Detection || (s == Stage::Ocr && stage == Stage::Translation)))
            &&& operation matches Operation::Only { stage } ==> (runs <==> s == stage)
            &&& operation matches Operation::Stages { stages } ==> (runs <==> stages@.contains(s))
            &&& operation matches Operation::StageMajor { stages } ==> (runs <==> stages@.contains(
                s,
            ))
        }),
{
    let all = every_stage();
    assert(all[0] == Stage::Detection && all[1] == Stage::Ocr);
    assert(all[2] == Stage::Translation && all[3] == Stage::Inpainting);
    match operation {
        Operation::Full => {
            match s {
                Stage::Detection => {
                    assert(all.contains(all[0]));
                },
                Stage::Ocr => {
                    assert(all.contains(all[1]));
                },
                Stage::Translation => {
                    assert(all.contains(all[2]));
                },
                Stage::Inpainting => {
                    assert(all.contains(all[3]));
                },
            }
        },
        Operation::Through { stage } => {
            let run = stages_of(operation);
            assert(run[0] == Stage::Detection && run.contains(run[0]));
            if stage != Stage::Detection {
                assert(run.contains(run[1]));
            }
            if stage == Stage::Translation {
                assert(run.contains(run[2]));
            }
        },
        Operation::Only { stage } => {
            assert(stages_of(operation)[0] == stage);
        },
        Operation::Stages { stages } => {
            lemma_selected_stages(stages@);
        },
        Operation::StageMajor { stages } => {
            lemma_selected_stages(stages@);
        },
    }
}

/// A page is detected, read, translated and painted, in this order.
pub proof fn lemma_order_of_stages(a: Stage, b: Stage)
    ensures
        a is Detection ==> a.rank() == 0,
        a is Ocr ==> a.rank() == 1,
        a is Translation ==> a.rank() == 2,
        a is Inpainting ==> a.rank() == 3,
        every_stage().len() == 4,
        every_stage()[a.rank()] == a,
        a.rank() == b.rank() ==> a == b,
{
}

proof fn lemma_eligible_places(entries: Seq<GlossaryEntry>, i: int) -> (k: int)
    requires
        0 <= i < entries.len(),
        entries[i].enabled,
        entries[i].translation is Some,
    ensures
        0 <= k < eligible(entries).len(),
        eligible(entries)[k] == entries[i],
    decreases entries.len(),
{
    if i == entries.len() - 1 {
        eligible(entries).len() - 1
    } else {
        let k = lemma_eligible_places(entries.drop_last(), i);
        k
    }
}

proof fn lemma_eligible_origin(entries: Seq<GlossaryEntry>, k: int) -> (i: int)
    requires
        0 <= k < eligible(entries).len(),
    ensures
        0 <= i < entries.len(),
        entries[i] == eligible(entries)[k],
        entries[i].enabled,
        entries[i].translation is Some,
    decreases entries.len(),
{
    let head = entries.drop_last();
    if k < eligible(head).len() {
        let i = lemma_eligible_origin(head, k);
        assert(head[i] == entries[i]);
        i
    } else {
        entries.len() - 1
    }
}

/// The term of an entry says what the entry says.
pub open spec fn says_the_same(term: TerminologyEntry, entry: GlossaryEntry) -> bool {
    &&& term.source@ == entry.source@
    &&& entry.translation matches Some(translation) && term.translation@ == translation@
    &&& (term.kind is Person <==> entry.kind is Person)
    &&& (term.kind is Place <==> entry.kind is Place)
    &&& (term.kind is Organization <==> entry.kind is Organization)
    &&& (term.kind is Item <==> entry.kind is Item)
    &&& (term.kind is Ability <==> entry.kind is Ability)
    &&& (term.kind is Term <==> entry.kind is Term)
}

/// Every entry that is on and has a translation is among the terms, with its source, its translation
/// and its kind.
pub proof fn lemma_an_entry_becomes_a_term(
    entries: Seq<GlossaryEntry>,
    terms: Seq<RankedTerm>,
    result: Seq<TerminologyEntry>,
    i: int,
) -> (k: int)
    requires
        are_terms_of(terms, eligible(entries)),
        result == bare(order::arranged(terms)),
        0 <= i < entries.len(),
        entries[i].enabled,
        entries[i].translation is Some,
    ensures
        0 <= k < result.len(),
        says_the_same(result[k], entries[i]),
{
    let at = lemma_eligible_places(entries, i);
    order::lemma_arranged(terms);
    let sorted = order::arranged(terms);
    assert(is_term_of(terms[at], eligible(entries)[at]));
    assert(terms.contains(terms[at]));
    assert(sorted.contains(terms[at]));
    let k = choose|k: int| 0 <= k < sorted.len() && sorted[k] == terms[at];
    k
}

/// Every term is that of an entry that is on and has a translation; there is one for each such entry;
/// and the terms stand by their kinds.
pub proof fn lemma_terms_come_of_entries(
    entries: Seq<GlossaryEntry>,
    terms: Seq<RankedTerm>,
    result: Seq<TerminologyEntry>,
    k: int,
    later: int,
) -> (i: int)
    requires
        are_terms_of(terms, eligible(entries)),
        result == bare(order::arranged(terms)),
        0 <= k < later <= result.len(),
    ensures
        0 <= i < entries.len(),
        entries[i].enabled,
        says_the_same(result[k], entries[i]),
        result.len() <= entries.len(),
        later < result.len() ==> result[k].kind.rank() <= result[later].kind.rank(),
{
    order::lemma_arranged(terms);
    let sorted = order::arranged(terms);
    assert(sorted.contains(sorted[k]));
    assert(terms.contains(sorted[k]));
    let at = choose|at: int| 0 <= at < terms.len() && terms[at] == sorted[k];
    assert(is_term_of(terms[at], eligible(entries)[at]));
    lemma_eligible_len(entries);
    if later < result.len() {
        assert(sorted[k].ranks(sorted[later]));
        assert(terms.contains(sorted[later])) by {
            assert(sorted.contains(sorted[later]));
        }
        let other = choose|other: int| 0 <= other < terms.len() && terms[other] == sorted[later];
        assert(is_term_of(terms[other], eligible(entries)[other]));
    }
    lemma_eligible_origin(entries, at)
}

proof fn lemma_eligible_len(entries: Seq<GlossaryEntry>)
    ensures
        eligible(entries).len() <= entries.len(),
    decreases entries.len(),
{
    if entries.len() > 0 {
        lemma_eligible_len(entries.drop_last());
    }
}

} // verus!
