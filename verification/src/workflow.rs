//! Taking a whole project through the stages, with a pause to review its terms.
pub mod reviews;
pub mod run;

use crate::ids;
use crate::ids::{EntityId, JobId};
use crate::pipeline::request::{Operation, Scope, Stage};
use crate::processing::JobState;
use crate::text;
use crate::text::Edge;
use vstd::prelude::*;

verus! {

/// Whether a page goes through all stages before the next page, or all pages through a stage before
/// the next stage.
#[derive(Clone, Copy, Debug, PartialEq, Eq, Structural)]
pub enum Scheduling {
    PageMajor,
    StageMajor,
}

impl Default for Scheduling {
    fn default() -> (r: Self)
        ensures
            r == Scheduling::PageMajor,
    {
        Scheduling::PageMajor
    }
}

/// A step of a workflow: a stage, or the analysis of the terms.
#[derive(Clone, Copy, Debug, PartialEq, Eq, Structural)]
pub enum WorkflowStep {
    Detection,
    Ocr,
    Terminology,
    Translation,
    Inpainting,
}

/// Which pages a workflow is for.
#[derive(Clone, Copy, Debug, PartialEq, Eq, Structural)]
pub enum WorkflowScope {
    Project,
    SelectedPages,
}

impl Default for WorkflowScope {
    fn default() -> (r: Self)
        ensures
            r == WorkflowScope::Project,
    {
        WorkflowScope::Project
    }
}

impl WorkflowStep {
    /// The place of the step in a workflow.
    pub open spec fn rank(self) -> int {
        match self {
            WorkflowStep::Detection => 0,
            WorkflowStep::Ocr => 1,
            WorkflowStep::Terminology => 2,
            WorkflowStep::Translation => 3,
            WorkflowStep::Inpainting => 4,
        }
    }

    fn number(self) -> (r: u8)
        ensures
            r == self.rank(),
    {
        match self {
            WorkflowStep::Detection => 0,
            WorkflowStep::Ocr => 1,
            WorkflowStep::Terminology => 2,
            WorkflowStep::Translation => 3,
            WorkflowStep::Inpainting => 4,
        }
    }

    /// The stage of the step. The analysis of the terms is none.
    pub open spec fn stage_of(self) -> Option<Stage> {
        match self {
            WorkflowStep::Detection => Some(Stage::Detection),
            WorkflowStep::Ocr => Some(Stage::Ocr),
            WorkflowStep::Terminology => None,
            WorkflowStep::Translation => Some(Stage::Translation),
            WorkflowStep::Inpainting => Some(Stage::Inpainting),
        }
    }

    /// The stage of the step. The analysis of the terms is none.
    pub fn stage(self) -> (r: Option<Stage>)
        ensures
            r == self.stage_of(),
    {
        match self {
            WorkflowStep::Detection => Some(Stage::Detection),
            WorkflowStep::Ocr => Some(Stage::Ocr),
            WorkflowStep::Terminology => None,
            WorkflowStep::Translation => Some(Stage::Translation),
            WorkflowStep::Inpainting => Some(Stage::Inpainting),
        }
    }
}

/// A workflow that a user has set up.
#[derive(Debug)]
pub struct WorkflowPreset {
    pub name: String,
    pub scheduling: Scheduling,
    pub scope: WorkflowScope,
    pub stages: Vec<WorkflowStep>,
    pub review_glossary: bool,
}

/// What is wrong with a preset.
#[derive(Clone, Copy, Debug, PartialEq, Eq, Structural)]
pub enum PresetFault {
    /// The name is blank or takes more than 128 bytes.
    Name,
    /// There are no stages, or they are not in order.
    Order,
    /// The terms can be analyzed only stage by stage.
    Terminology,
    /// Nothing is left to do.
    Empty,
}

/// What a preset says, with its name as characters.
pub struct PresetNote {
    pub name: Seq<char>,
    pub scheduling: Scheduling,
    pub scope: WorkflowScope,
    pub stages: Seq<WorkflowStep>,
    pub review_glossary: bool,
}

/// The steps that are done: without the analysis of the terms where it is not to be reviewed.
pub open spec fn enabled_steps(stages: Seq<WorkflowStep>, review: bool) -> Seq<WorkflowStep>
    decreases stages.len(),
{
    if stages.len() == 0 {
        stages
    } else if stages.last() != WorkflowStep::Terminology || review {
        enabled_steps(stages.drop_last(), review).push(stages.last())
    } else {
        enabled_steps(stages.drop_last(), review)
    }
}

/// Every step stands before the ones that follow it.
pub open spec fn in_step_order(stages: Seq<WorkflowStep>) -> bool {
    forall|i: int, j: int|
        0 <= i < j < stages.len() ==> (#[trigger] stages[i]).rank() < (#[trigger] stages[j]).rank()
}

impl WorkflowPreset {
    pub open spec fn note(self) -> PresetNote {
        PresetNote {
            name: self.name@,
            scheduling: self.scheduling,
            scope: self.scope,
            stages: self.stages@,
            review_glossary: self.review_glossary,
        }
    }

    /// What is wrong with the preset: its name, the order of its stages, their scheduling, or that
    /// nothing is left of them, in that order.
    pub open spec fn fault(self) -> Option<PresetFault> {
        if text::is_blank(self.name@) || vstd::utf8::encode_utf8(self.name@).len() > 128 {
            Some(PresetFault::Name)
        } else if self.stages@.len() == 0 || !in_step_order(self.stages@) {
            Some(PresetFault::Order)
        } else if self.scheduling != Scheduling::StageMajor && self.stages@.contains(
            WorkflowStep::Terminology,
        ) {
            Some(PresetFault::Terminology)
        } else if enabled_steps(self.stages@, self.review_glossary).len() == 0 {
            Some(PresetFault::Empty)
        } else {
            None
        }
    }

    /// The preset once more.
    pub fn copy(&self) -> (r: Self)
        ensures
            r.note() == self.note(),
            r.name == self.name,
    {
        let stages = copy_steps(&self.stages);
        WorkflowPreset {
            name: self.name.clone(),
            scheduling: self.scheduling,
            scope: self.scope,
            stages,
            review_glossary: self.review_glossary,
        }
    }

    /// The steps of the workflow.
    pub fn steps(&self) -> (r: Result<Vec<WorkflowStep>, PresetFault>)
        ensures
            match self.fault() {
                Some(fault) => r == Err::<Vec<WorkflowStep>, _>(fault),
                None => r matches Ok(steps) && steps@ == enabled_steps(
                    self.stages@,
                    self.review_glossary,
                ),
            },
    {
        if text::blank(self.name.as_str()) || text::byte_len(self.name.as_str()) > 128 {
            return Err(PresetFault::Name);
        }
        if self.stages.len() == 0 || !ordered(&self.stages) {
            return Err(PresetFault::Order);
        }
        if self.scheduling != Scheduling::StageMajor && has_terminology(&self.stages) {
            return Err(PresetFault::Terminology);
        }
        let mut out: Vec<WorkflowStep> = Vec::new();
        let mut i: usize = 0;
        assert(self.stages@.take(0) =~= Seq::empty());
        while i < self.stages.len()
            invariant
                i <= self.stages@.len(),
                out@ == enabled_steps(self.stages@.take(i as int), self.review_glossary),
            decreases self.stages@.len() - i,
        {
            let step = self.stages[i];
            proof {
                assert(self.stages@.take(i + 1).drop_last() =~= self.stages@.take(i as int));
                assert(self.stages@.take(i + 1).last() == step);
            }
            if step != WorkflowStep::Terminology || self.review_glossary {
                out.push(step);
            }
            i += 1;
        }
        assert(self.stages@.take(i as int) =~= self.stages@);
        if out.len() == 0 {
            return Err(PresetFault::Empty);
        }
        Ok(out)
    }
}

fn copy_steps(steps: &Vec<WorkflowStep>) -> (r: Vec<WorkflowStep>)
    ensures
        r@ == steps@,
{
    let mut out: Vec<WorkflowStep> = Vec::new();
    let mut i: usize = 0;
    while i < steps.len()
        invariant
            i <= steps@.len(),
            out@ == steps@.take(i as int),
        decreases steps@.len() - i,
    {
        out.push(steps[i]);
        assert(steps@.take(i + 1) =~= steps@.take(i as int).push(steps@[i as int]));
        i += 1;
    }
    assert(steps@.take(i as int) =~= steps@);
    out
}

fn ordered(steps: &Vec<WorkflowStep>) -> (r: bool)
    ensures
        r == in_step_order(steps@),
{
    let mut i: usize = 1;
    while i < steps.len()
        invariant
            1 <= i,
            i <= steps@.len() || steps@.len() == 0,
            forall|a: int, b: int|
                0 <= a < b < i && b < steps@.len() ==> (#[trigger] steps@[a]).rank() < (
                #[trigger] steps@[b]).rank(),
        decreases steps@.len() - i,
    {
        let a: u8 = steps[i - 1].number();
        let b: u8 = steps[i].number();
        if a >= b {
            assert(steps@[i - 1].rank() >= steps@[i as int].rank());
            return false;
        }
        i += 1;
    }
    true
}

fn has_terminology(steps: &Vec<WorkflowStep>) -> (r: bool)
    ensures
        r == steps@.contains(WorkflowStep::Terminology),
{
    let mut i: usize = 0;
    while i < steps.len()
        invariant
            i <= steps@.len(),
            forall|j: int| 0 <= j < i ==> #[trigger] steps@[j] != WorkflowStep::Terminology,
        decreases steps@.len() - i,
    {
        if steps[i] == WorkflowStep::Terminology {
            return true;
        }
        i += 1;
    }
    false
}

/// The steps of a workflow are in order, and without a review there is no analysis of terms.
pub proof fn lemma_steps_in_order(stages: Seq<WorkflowStep>, review: bool)
    requires
        in_step_order(stages),
    ensures
        in_step_order(enabled_steps(stages, review)),
        !review ==> !enabled_steps(stages, review).contains(WorkflowStep::Terminology),
        forall|k: int|
            0 <= k < enabled_steps(stages, review).len() ==> stages.contains(
                #[trigger] enabled_steps(stages, review)[k],
            ),
    decreases stages.len(),
{
    if stages.len() > 0 {
        let head = stages.drop_last();
        assert forall|i: int, j: int| 0 <= i < j < head.len() implies (#[trigger] head[i]).rank()
            < (#[trigger] head[j]).rank() by {
            assert(stages[i].rank() < stages[j].rank());
        }
        lemma_steps_in_order(head, review);
        let p = enabled_steps(head, review);
        let r = enabled_steps(stages, review);
        assert forall|k: int| 0 <= k < r.len() implies stages.contains(#[trigger] r[k]) by {
            if k < p.len() {
                assert(r[k] == p[k]);
                assert(head.contains(p[k]));
                let q = choose|q: int| 0 <= q < head.len() && head[q] == p[k];
                assert(stages[q] == r[k]);
            } else {
                assert(stages[stages.len() - 1] == r[k]);
            }
        }
        assert forall|i: int, j: int| 0 <= i < j < r.len() implies (#[trigger] r[i]).rank() < (
        #[trigger] r[j]).rank() by {
            assert(r[i] == p[i]);
            if j < p.len() {
                assert(r[j] == p[j]);
            } else {
                assert(head.contains(p[i]));
                let q = choose|q: int| 0 <= q < head.len() && head[q] == p[i];
                assert(stages[q].rank() < stages[stages.len() - 1].rank());
            }
        }
        if !review {
            assert forall|k: int| 0 <= k < r.len() implies r[k] != WorkflowStep::Terminology by {
                if k < p.len() {
                    assert(r[k] == p[k]);
                    assert(p.contains(p[k]));
                }
            }
        }
    }
}

/// The stages of a preset that nobody has changed.
pub open spec fn standard_steps() -> Seq<WorkflowStep> {
    seq![
        WorkflowStep::Detection,
        WorkflowStep::Ocr,
        WorkflowStep::Translation,
        WorkflowStep::Inpainting,
    ]
}

impl Default for WorkflowPreset {
    fn default() -> (r: Self)
        ensures
            r.note() == (PresetNote {
                name: "Standard"@,
                scheduling: Scheduling::PageMajor,
                scope: WorkflowScope::Project,
                stages: standard_steps(),
                review_glossary: true,
            }),
    {
        WorkflowPreset {
            name: "Standard".to_owned(),
            scheduling: Scheduling::PageMajor,
            scope: WorkflowScope::Project,
            stages: vec![
                WorkflowStep::Detection,
                WorkflowStep::Ocr,
                WorkflowStep::Translation,
                WorkflowStep::Inpainting,
            ],
            review_glossary: true,
        }
    }
}

/// The workflows of a user.
#[derive(Debug)]
pub struct WorkflowSettings {
    pub enabled: bool,
    pub active_preset: String,
    pub presets: Vec<WorkflowPreset>,
}

impl Default for WorkflowSettings {
    /// The standard workflow, and one that analyzes the terms before it translates. Neither is on.
    fn default() -> (r: Self)
        ensures
            !r.enabled,
            r.active_preset@ == "Consistent Project Translation"@,
            r.presets@.len() == 2,
            r.presets@[0].note() == (PresetNote {
                name: "Standard"@,
                scheduling: Scheduling::PageMajor,
                scope: WorkflowScope::Project,
                stages: standard_steps(),
                review_glossary: true,
            }),
            r.presets@[1].note() == (PresetNote {
                name: "Consistent Project Translation"@,
                scheduling: Scheduling::StageMajor,
                scope: WorkflowScope::Project,
                stages: standard_steps().insert(2, WorkflowStep::Terminology),
                review_glossary: true,
            }),
    {
        let mut consistent = WorkflowPreset::default();
        consistent.name = "Consistent Project Translation".to_owned();
        consistent.scheduling = Scheduling::StageMajor;
        let mut stages = consistent.stages;
        stages.insert(2, WorkflowStep::Terminology);
        consistent.stages = stages;
        WorkflowSettings {
            enabled: false,
            active_preset: consistent.name.clone(),
            presets: vec![WorkflowPreset::default(), consistent],
        }
    }
}

/// There is no such preset.
#[derive(Clone, Copy, Debug, PartialEq, Eq, Structural)]
pub struct NoPreset;

/// Why presets are not saved.
#[derive(Clone, Copy, Debug, PartialEq, Eq, Structural)]
pub enum SaveFault {
    /// There are none, or more than fifty.
    Count,
    /// The preset at this place is wrong.
    Preset { index: usize, fault: PresetFault },
    /// The preset at this place has the name of one before it.
    Name(usize),
}

/// The place of the first preset with that name, or the number of presets.
pub open spec fn preset_place(presets: Seq<WorkflowPreset>, name: Seq<char>) -> int
    decreases presets.len(),
{
    if presets.len() == 0 || presets[0].name@ == name {
        0
    } else {
        1 + preset_place(presets.drop_first(), name)
    }
}

fn find_preset(presets: &Vec<WorkflowPreset>, name: &str) -> (r: usize)
    ensures
        r == preset_place(presets@, name@),
        r <= presets@.len(),
{
    let mut i: usize = 0;
    assert(presets@.skip(0) =~= presets@);
    while i < presets.len()
        invariant
            i <= presets@.len(),
            preset_place(presets@, name@) == i + preset_place(presets@.skip(i as int), name@),
        decreases presets@.len() - i,
    {
        assert(presets@.skip(i as int)[0] == presets@[i as int]);
        if text::same(presets[i].name.as_str(), name) {
            return i;
        }
        assert(presets@.skip(i as int).drop_first() =~= presets@.skip(i + 1));
        i += 1;
    }
    i
}

/// A run is over several pages.
pub open spec fn is_multiple(scope: Scope) -> bool {
    match scope {
        Scope::Project => true,
        Scope::Pages(pages) => pages@.len() > 1,
    }
}

/// What is wrong with the first `n` presets.
pub open spec fn presets_fault(presets: Seq<WorkflowPreset>, n: nat) -> Option<SaveFault>
    decreases n,
{
    if n == 0 {
        None
    } else {
        match presets_fault(presets, (n - 1) as nat) {
            Some(fault) => Some(fault),
            None => match presets[n - 1].fault() {
                Some(fault) => Some(SaveFault::Preset { index: (n - 1) as usize, fault }),
                None => if exists|j: int|
                    0 <= j < n - 1 && text::trim((#[trigger] presets[j]).name@, Edge::Whitespace)
                        == text::trim(presets[n - 1].name@, Edge::Whitespace) {
                    Some(SaveFault::Name((n - 1) as usize))
                } else {
                    None
                },
            },
        }
    }
}

proof fn lemma_presets_fault_stays(presets: Seq<WorkflowPreset>, m: nat, n: nat)
    requires
        m <= n,
        presets_fault(presets, m) is Some,
    ensures
        presets_fault(presets, n) == presets_fault(presets, m),
    decreases n,
{
    if m < n {
        lemma_presets_fault_stays(presets, m, (n - 1) as nat);
    }
}

/// Why presets are not saved: their number, or the first that is wrong.
pub open spec fn save_fault(presets: Seq<WorkflowPreset>) -> Option<SaveFault> {
    if presets.len() == 0 || presets.len() > 50 {
        Some(SaveFault::Count)
    } else {
        presets_fault(presets, presets.len())
    }
}

/// Whether presets can be saved.
pub fn check_presets(presets: &Vec<WorkflowPreset>) -> (r: Result<(), SaveFault>)
    ensures
        match save_fault(presets@) {
            Some(fault) => r == Err::<(), _>(fault),
            None => r == Ok::<(), SaveFault>(()),
        },
{
    if presets.len() == 0 || presets.len() > 50 {
        return Err(SaveFault::Count);
    }
    let mut i: usize = 0;
    while i < presets.len()
        invariant
            0 < presets@.len() <= 50,
            i <= presets@.len(),
            presets_fault(presets@, i as nat) is None,
        decreases presets@.len() - i,
    {
        match presets[i].steps() {
            Ok(_) => {},
            Err(fault) => {
                proof {
                    assert(presets_fault(presets@, (i + 1) as nat) is Some);
                    lemma_presets_fault_stays(presets@, (i + 1) as nat, presets@.len());
                }
                return Err(SaveFault::Preset { index: i, fault });
            },
        }
        let name = text::trimmed(presets[i].name.as_str(), Edge::Whitespace);
        let mut j: usize = 0;
        while j < i
            invariant
                j <= i < presets@.len(),
                0 < presets@.len() <= 50,
                presets_fault(presets@, i as nat) is None,
                presets@[i as int].fault() is None,
                name@ == text::trim(presets@[i as int].name@, Edge::Whitespace),
                forall|q: int|
                    0 <= q < j ==> text::trim((#[trigger] presets@[q]).name@, Edge::Whitespace)
                        != name@,
            decreases i - j,
        {
            let other = text::trimmed(presets[j].name.as_str(), Edge::Whitespace);
            if text::same(other.as_str(), name.as_str()) {
                proof {
                    assert(text::trim(presets@[j as int].name@, Edge::Whitespace) == name@);
                    assert(presets_fault(presets@, (i + 1) as nat) is Some);
                    lemma_presets_fault_stays(presets@, (i + 1) as nat, presets@.len());
                }
                return Err(SaveFault::Name(i));
            }
            j += 1;
        }
        assert(presets_fault(presets@, (i + 1) as nat) is None);
        i += 1;
    }
    Ok(())
}

impl WorkflowSettings {
    /// The settings with another preset that is active, where there is such a preset.
    pub fn configure(self, enabled: bool, active_preset: String) -> (r: Result<
        WorkflowSettings,
        NoPreset,
    >)
        ensures
            preset_place(self.presets@, active_preset@) < self.presets@.len() ==> r == Ok::<
                _,
                NoPreset,
            >(WorkflowSettings { enabled, active_preset, presets: self.presets }),
            preset_place(self.presets@, active_preset@) >= self.presets@.len() ==> r == Err::<
                WorkflowSettings,
                _,
            >(NoPreset),
    {
        if find_preset(&self.presets, active_preset.as_str()) >= self.presets.len() {
            return Err(NoPreset);
        }
        Ok(WorkflowSettings { enabled, active_preset, presets: self.presets })
    }

    /// The preset that a run follows: the active one, for a full run over several pages, where
    /// workflows are on.
    pub fn for_run(&self, scope: &Scope, operation: &Operation) -> (r: Result<
        Option<WorkflowPreset>,
        NoPreset,
    >)
        ensures
            ({
                let at = preset_place(self.presets@, self.active_preset@);
                if !self.enabled || !is_multiple(*scope) || !(operation is Full) {
                    r == Ok::<Option<WorkflowPreset>, NoPreset>(None)
                } else if at >= self.presets@.len() {
                    r == Err::<Option<WorkflowPreset>, _>(NoPreset)
                } else {
                    r matches Ok(Some(preset)) && preset.note() == (PresetNote {
                        scope: if scope is Project {
                            WorkflowScope::Project
                        } else {
                            WorkflowScope::SelectedPages
                        },
                        ..self.presets@[at].note()
                    })
                }
            }),
    {
        let multiple = match scope {
            Scope::Project => true,
            Scope::Pages(pages) => pages.len() > 1,
        };
        let full = match operation {
            Operation::Full => true,
            _ => false,
        };
        if !self.enabled || !multiple || !full {
            return Ok(None);
        }
        let at: usize = find_preset(&self.presets, self.active_preset.as_str());
        if at >= self.presets.len() {
            return Err(NoPreset);
        }
        let mut preset = self.presets[at].copy();
        preset.scope = match scope {
            Scope::Project => WorkflowScope::Project,
            Scope::Pages(_) => WorkflowScope::SelectedPages,
        };
        Ok(Some(preset))
    }

    /// The settings with these presets. Where the active one is not among them, the first becomes
    /// active, and workflows are off.
    pub fn save_presets(self, presets: Vec<WorkflowPreset>) -> (r: Result<
        WorkflowSettings,
        SaveFault,
    >)
        ensures
            match save_fault(presets@) {
                Some(fault) => r == Err::<WorkflowSettings, _>(fault),
                None => r matches Ok(settings) && settings.presets == presets && if preset_place(
                    presets@,
                    self.active_preset@,
                ) < presets@.len() {
                    settings.enabled == self.enabled && settings.active_preset
                        == self.active_preset
                } else {
                    !settings.enabled && settings.active_preset == presets@[0].name
                },
            },
    {
        match check_presets(&presets) {
            Ok(()) => {},
            Err(fault) => {
                return Err(fault);
            },
        }
        let mut settings = self;
        if find_preset(&presets, settings.active_preset.as_str()) >= presets.len() {
            settings.active_preset = presets[0].name.clone();
            settings.enabled = false;
        }
        settings.presets = presets;
        Ok(settings)
    }
}

// ---------------------------------------------------------------------------------------------
// Pages
// ---------------------------------------------------------------------------------------------

/// Why a workflow does not begin.
#[derive(Clone, Copy, Debug, PartialEq, Eq, Structural)]
pub enum PageFault {
    /// The project has no such page.
    Unknown(EntityId),
    NoPages,
}

/// The pages of the project that are among `wanted`.
pub open spec fn pages_among(project: Seq<EntityId>, wanted: Seq<EntityId>) -> Seq<EntityId>
    decreases project.len(),
{
    if project.len() == 0 {
        project
    } else if wanted.contains(project.last()) {
        pages_among(project.drop_last(), wanted).push(project.last())
    } else {
        pages_among(project.drop_last(), wanted)
    }
}

/// The first of the first `n` pages that the project does not have.
pub open spec fn first_unknown(project: Seq<EntityId>, wanted: Seq<EntityId>, n: nat) -> Option<
    EntityId,
>
    decreases n,
{
    if n == 0 {
        None
    } else {
        match first_unknown(project, wanted, (n - 1) as nat) {
            Some(page) => Some(page),
            None => if project.contains(wanted[n - 1]) {
                None
            } else {
                Some(wanted[n - 1])
            },
        }
    }
}

proof fn lemma_unknown_stays(project: Seq<EntityId>, wanted: Seq<EntityId>, m: nat, n: nat)
    requires
        m <= n,
        first_unknown(project, wanted, m) is Some,
    ensures
        first_unknown(project, wanted, n) == first_unknown(project, wanted, m),
    decreases n,
{
    if m < n {
        lemma_unknown_stays(project, wanted, m, (n - 1) as nat);
    }
}

/// The pages that a workflow is over, in the order of the project: all, or those that were selected.
pub open spec fn pages_in_scope(project: Seq<EntityId>, scope: Scope) -> Seq<EntityId> {
    match scope {
        Scope::Project => project,
        Scope::Pages(pages) => pages_among(project, pages@),
    }
}

/// Why a workflow over the scope does not begin.
pub open spec fn page_fault(project: Seq<EntityId>, scope: Scope) -> Option<PageFault> {
    match scope {
        Scope::Pages(pages) if first_unknown(project, pages@, pages@.len()) is Some => Some(
            PageFault::Unknown(first_unknown(project, pages@, pages@.len())->0),
        ),
        _ => if pages_in_scope(project, scope).len() == 0 {
            Some(PageFault::NoPages)
        } else {
            None
        },
    }
}

/// The pages that a workflow is over.
pub fn scoped_pages(project: &Vec<EntityId>, scope: &Scope) -> (r: Result<Vec<EntityId>, PageFault>)
    ensures
        match page_fault(project@, *scope) {
            Some(fault) => r == Err::<Vec<EntityId>, _>(fault),
            None => r matches Ok(pages) && pages@ == pages_in_scope(project@, *scope),
        },
{
    match scope {
        Scope::Pages(pages) => {
            let mut i: usize = 0;
            while i < pages.len()
                invariant
                    *scope == Scope::Pages(*pages),
                    i <= pages@.len(),
                    first_unknown(project@, pages@, i as nat) is None,
                decreases pages@.len() - i,
            {
                if !ids::has_entity(project, pages[i]) {
                    proof {
                        assert(first_unknown(project@, pages@, (i + 1) as nat) == Some(
                            pages@[i as int],
                        ));
                        lemma_unknown_stays(project@, pages@, (i + 1) as nat, pages@.len());
                    }
                    return Err(PageFault::Unknown(pages[i]));
                }
                assert(first_unknown(project@, pages@, (i + 1) as nat) is None);
                i += 1;
            }
        },
        Scope::Project => {},
    }
    let mut out: Vec<EntityId> = Vec::new();
    let mut i: usize = 0;
    assert(project@.take(0) =~= Seq::empty());
    while i < project.len()
        invariant
            i <= project@.len(),
            match *scope {
                Scope::Project => out@ == project@.take(i as int),
                Scope::Pages(pages) => out@ == pages_among(project@.take(i as int), pages@),
            },
        decreases project@.len() - i,
    {
        let page = project[i];
        proof {
            assert(project@.take(i + 1).drop_last() =~= project@.take(i as int));
            assert(project@.take(i + 1).last() == page);
            assert(project@.take(i + 1) =~= project@.take(i as int).push(page));
        }
        let wanted = match scope {
            Scope::Project => true,
            Scope::Pages(pages) => ids::has_entity(pages, page),
        };
        if wanted {
            out.push(page);
        }
        i += 1;
    }
    assert(project@.take(i as int) =~= project@);
    if out.len() == 0 {
        return Err(PageFault::NoPages);
    }
    Ok(out)
}

/// The pages follow the order of the project: however they were selected, what is taken is taken in
/// the project's order, each page as often as the project has it.
pub proof fn lemma_pages_follow_project(project: Seq<EntityId>, a: Seq<EntityId>, b: Seq<EntityId>)
    requires
        forall|page: EntityId| a.contains(page) <==> b.contains(page),
    ensures
        pages_among(project, a) == pages_among(project, b),
    decreases project.len(),
{
    if project.len() > 0 {
        lemma_pages_follow_project(project.drop_last(), a, b);
    }
}

// ---------------------------------------------------------------------------------------------
// Progress
// ---------------------------------------------------------------------------------------------

/// Where a step of a workflow is.
#[derive(Clone, Copy, Debug, PartialEq, Eq, Structural)]
pub enum WorkflowStageState {
    Pending,
    Running,
    AwaitingReview,
    Complete,
    Failed,
    Stopped,
}

/// How far a step is.
#[derive(Clone, Copy, Debug, PartialEq, Eq, Structural)]
pub struct WorkflowStageProgress {
    pub stage: WorkflowStep,
    pub state: WorkflowStageState,
    pub completed: u32,
    pub total: u32,
}

/// How far a workflow is.
#[derive(Debug)]
pub struct WorkflowProgress {
    pub name: String,
    pub stages: Vec<WorkflowStageProgress>,
}

/// The job of a workflow, as it is shown.
#[derive(Debug)]
pub struct WorkflowJob {
    pub id: JobId,
    pub state: JobState,
    pub completed: usize,
    pub total: usize,
    pub page: Option<EntityId>,
    pub stage: Option<Stage>,
    pub model: Option<String>,
    pub error: Option<String>,
    pub workflow: WorkflowProgress,
}

/// How many pages are done, over all steps.
pub open spec fn sum_completed(stages: Seq<WorkflowStageProgress>) -> nat
    decreases stages.len(),
{
    if stages.len() == 0 {
        0
    } else {
        sum_completed(stages.drop_last()) + stages.last().completed as nat
    }
}

/// Every step is over `total` pages, and no more than these are done.
pub open spec fn evenly(stages: Seq<WorkflowStageProgress>, total: u32) -> bool {
    forall|i: int|
        0 <= i < stages.len() ==> (#[trigger] stages[i]).total == total && stages[i].completed
            <= total
}

proof fn lemma_sum_bound(stages: Seq<WorkflowStageProgress>, total: u32, n: nat)
    requires
        evenly(stages, total),
        n <= stages.len(),
    ensures
        sum_completed(stages.take(n as int)) <= n * total,
    decreases n,
{
    if n > 0 {
        lemma_sum_bound(stages, total, (n - 1) as nat);
        assert(stages.take(n as int).drop_last() =~= stages.take(n - 1));
        assert(stages.take(n as int).last() == stages[n - 1]);
        assert(n * total == (n - 1) * total + total) by (nonlinear_arith);
    }
}

impl WorkflowJob {
    /// The counts are those of the steps, each of which is over `pages` pages.
    pub open spec fn wf(self, pages: u32) -> bool {
        &&& evenly(self.workflow.stages@, pages)
        &&& self.workflow.stages@.len() * pages <= usize::MAX
        &&& self.completed == sum_completed(self.workflow.stages@)
        &&& self.total == self.workflow.stages@.len() * pages
    }

    /// The job but for its counts, its state and what it is at.
    pub open spec fn same_job(self, other: Self) -> bool {
        &&& self.id == other.id
        &&& self.workflow.name == other.workflow.name
        &&& self.total == other.total
        &&& self.workflow.stages@.len() == other.workflow.stages@.len()
        &&& forall|i: int|
            0 <= i < self.workflow.stages@.len() ==> (
            #[trigger] self.workflow.stages@[i]).stage == other.workflow.stages@[i].stage
    }

    /// A job over `pages` pages of which nothing is done.
    pub fn new(id: JobId, name: String, steps: &Vec<WorkflowStep>, pages: u32) -> (r: Self)
        requires
            steps@.len() * pages <= usize::MAX,
        ensures
            r.wf(pages),
            r.id == id,
            r.state == JobState::Running,
            r.completed == 0,
            r.page is None,
            r.stage is None,
            r.model is None,
            r.error is None,
            r.workflow.name == name,
            r.workflow.stages@.len() == steps@.len(),
            forall|i: int|
                0 <= i < steps@.len() ==> #[trigger] r.workflow.stages@[i]
                    == (WorkflowStageProgress {
                    stage: steps@[i],
                    state: WorkflowStageState::Pending,
                    completed: 0,
                    total: pages,
                }),
    {
        let mut stages: Vec<WorkflowStageProgress> = Vec::new();
        let mut total: usize = 0;
        let mut i: usize = 0;
        while i < steps.len()
            invariant
                i <= steps@.len(),
                steps@.len() * pages <= usize::MAX,
                stages@.len() == i,
                total == i * pages,
                sum_completed(stages@) == 0,
                forall|k: int|
                    0 <= k < i ==> #[trigger] stages@[k] == (WorkflowStageProgress {
                        stage: steps@[k],
                        state: WorkflowStageState::Pending,
                        completed: 0,
                        total: pages,
                    }),
            decreases steps@.len() - i,
        {
            proof {
                let n = steps@.len() as int;
                let m = i as int;
                let p = pages as int;
                assert((m + 1) * p == m * p + p) by (nonlinear_arith);
                assert((m + 1) * p <= n * p) by (nonlinear_arith)
                    requires
                        m + 1 <= n,
                        0 <= p,
                ;
                assert(pages <= usize::MAX);
            }
            let ghost before = stages@;
            stages.push(
                WorkflowStageProgress {
                    stage: steps[i],
                    state: WorkflowStageState::Pending,
                    completed: 0,
                    total: pages,
                },
            );
            assert(stages@.drop_last() =~= before);
            total = total + pages as usize;
            i += 1;
        }
        WorkflowJob {
            id,
            state: JobState::Running,
            completed: 0,
            total,
            page: None,
            stage: None,
            model: None,
            error: None,
            workflow: WorkflowProgress { name, stages },
        }
    }

    /// Counts anew what is done.
    fn recount(&mut self, Ghost(pages): Ghost<u32>)
        requires
            evenly(old(self).workflow.stages@, pages),
            old(self).workflow.stages@.len() * pages <= usize::MAX,
            old(self).total == old(self).workflow.stages@.len() * pages,
        ensures
            final(self).wf(pages),
            *final(self) == (WorkflowJob {
                completed: final(self).completed,
                ..*old(self)
            }),
    {
        let ghost stages = self.workflow.stages@;
        let mut sum: usize = 0;
        let mut i: usize = 0;
        assert(stages.take(0) =~= Seq::empty());
        while i < self.workflow.stages.len()
            invariant
                stages == self.workflow.stages@,
                evenly(stages, pages),
                stages.len() * pages <= usize::MAX,
                i <= stages.len(),
                sum == sum_completed(stages.take(i as int)),
                *self == *old(self),
            decreases stages.len() - i,
        {
            proof {
                assert(stages.take(i + 1).drop_last() =~= stages.take(i as int));
                assert(stages.take(i + 1).last() == stages[i as int]);
                lemma_sum_bound(stages, pages, (i + 1) as nat);
                let n = stages.len() as int;
                let m = i as int;
                let p = pages as int;
                assert((m + 1) * p <= n * p) by (nonlinear_arith)
                    requires
                        m + 1 <= n,
                        0 <= p,
                ;
            }
            sum = sum + self.workflow.stages[i].completed as usize;
            i += 1;
        }
        assert(stages.take(i as int) =~= stages);
        self.completed = sum;
    }
}

impl PresetFault {
    /// What is said of the fault.
    pub open spec fn says(self) -> Seq<char> {
        match self {
            PresetFault::Name => "preset name must contain 1–128 bytes"@,
            PresetFault::Order => "choose unique workflow stages in pipeline order"@,
            PresetFault::Terminology => "terminology requires stage-major scheduling"@,
            PresetFault::Empty => "at least one workflow stage must be enabled"@,
        }
    }

    /// What is said of the fault.
    pub fn message(self) -> (r: &'static str)
        ensures
            r@ == self.says(),
    {
        match self {
            PresetFault::Name => "preset name must contain 1–128 bytes",
            PresetFault::Order => "choose unique workflow stages in pipeline order",
            PresetFault::Terminology => "terminology requires stage-major scheduling",
            PresetFault::Empty => "at least one workflow stage must be enabled",
        }
    }
}

impl SaveFault {
    /// What is said of the fault.
    pub open spec fn says(self) -> Seq<char> {
        match self {
            SaveFault::Count => "save between 1 and 50 presets"@,
            SaveFault::Preset { fault, .. } => fault.says(),
            SaveFault::Name(_) => "preset names must be unique"@,
        }
    }

    /// What is said of the fault.
    pub fn message(self) -> (r: &'static str)
        ensures
            r@ == self.says(),
    {
        match self {
            SaveFault::Count => "save between 1 and 50 presets",
            SaveFault::Preset { fault, .. } => fault.message(),
            SaveFault::Name(_) => "preset names must be unique",
        }
    }
}

// ---------------------------------------------------------------------------------------------
// Laws
// ---------------------------------------------------------------------------------------------

/// The order of the steps: texts are found, then read, then their terms are analyzed, then they are
/// translated, then the images are painted over. Each but the analysis of the terms is the stage of
/// that name.
pub proof fn lemma_order_of_steps()
    ensures
        WorkflowStep::Detection.rank() < WorkflowStep::Ocr.rank(),
        WorkflowStep::Ocr.rank() < WorkflowStep::Terminology.rank(),
        WorkflowStep::Terminology.rank() < WorkflowStep::Translation.rank(),
        WorkflowStep::Translation.rank() < WorkflowStep::Inpainting.rank(),
        WorkflowStep::Detection.stage_of() == Some(Stage::Detection),
        WorkflowStep::Ocr.stage_of() == Some(Stage::Ocr),
        WorkflowStep::Terminology.stage_of() is None,
        WorkflowStep::Translation.stage_of() == Some(Stage::Translation),
        WorkflowStep::Inpainting.stage_of() == Some(Stage::Inpainting),
{
}

/// A workflow does the steps that are set up, in their order; without a review the analysis of the
/// terms is left out, and nothing else.
pub proof fn lemma_steps_that_are_done(stages: Seq<WorkflowStep>, review: bool)
    ensures
        enabled_steps(stages, true) == stages,
        enabled_steps(stages, false) == stages.filter(
            |step: WorkflowStep| step != WorkflowStep::Terminology,
        ),
    decreases stages.len(),
{
    let other = |step: WorkflowStep| step != WorkflowStep::Terminology;
    if stages.len() == 0 {
        assert(stages.filter(other) =~= stages) by {
            reveal(Seq::filter);
        }
    } else {
        let head = stages.drop_last();
        lemma_steps_that_are_done(head, review);
        assert(head.push(stages.last()) =~= stages);
        text::lemma_filter_push(head, stages.last(), other);
    }
}

/// What a preset without fault is: its name is not blank and takes 128 bytes at most; it has stages,
/// each once and in the order of the steps; it analyzes terms only stage by stage; and there is
/// something to do.
pub proof fn lemma_preset_without_fault(preset: WorkflowPreset)
    requires
        preset.fault() is None,
    ensures
        exists|p: int|
            0 <= p < preset.name@.len() && !text::is_whitespace(#[trigger] preset.name@[p]),
        vstd::utf8::encode_utf8(preset.name@).len() <= 128,
        preset.stages@.len() > 0,
        forall|i: int, j: int|
            0 <= i < j < preset.stages@.len() ==> (#[trigger] preset.stages@[i]).rank() < (
            #[trigger] preset.stages@[j]).rank(),
        preset.stages@.contains(WorkflowStep::Terminology) ==> preset.scheduling
            == Scheduling::StageMajor,
        preset.review_glossary || exists|i: int|
            0 <= i < preset.stages@.len() && #[trigger] preset.stages@[i]
                != WorkflowStep::Terminology,
{
    assert(!text::is_blank(preset.name@));
    if !preset.review_glossary {
        let stages = preset.stages@;
        let kept = enabled_steps(stages, false);
        lemma_steps_in_order(stages, false);
        assert(stages.contains(kept[0]));
        assert(kept.contains(kept[0]));
        let i = choose|i: int| 0 <= i < stages.len() && stages[i] == kept[0];
        assert(stages[i] != WorkflowStep::Terminology);
    }
}

/// A preset is refused for nothing else.
pub proof fn lemma_a_right_preset_passes(preset: WorkflowPreset, i: int)
    requires
        !text::is_blank(preset.name@),
        vstd::utf8::encode_utf8(preset.name@).len() <= 128,
        forall|i: int, j: int|
            0 <= i < j < preset.stages@.len() ==> (#[trigger] preset.stages@[i]).rank() < (
            #[trigger] preset.stages@[j]).rank(),
        preset.stages@.contains(WorkflowStep::Terminology) ==> preset.scheduling
            == Scheduling::StageMajor,
        0 <= i < preset.stages@.len(),
        preset.review_glossary || preset.stages@[i] != WorkflowStep::Terminology,
    ensures
        preset.fault() is None,
{
    let stages = preset.stages@;
    lemma_steps_that_are_done(stages, false);
    if !preset.review_glossary {
        let other = |step: WorkflowStep| step != WorkflowStep::Terminology;
        text::lemma_filter_has(stages, other, i);
    }
}

/// Presets that can be saved: from one to fifty, each without fault, and no two with one name but
/// for the whitespace around it. Presets like these are refused for nothing.
pub proof fn lemma_presets_that_can_be_saved(presets: Seq<WorkflowPreset>)
    ensures
        save_fault(presets) is None ==> {
            &&& 1 <= presets.len() <= 50
            &&& forall|i: int| 0 <= i < presets.len() ==> (#[trigger] presets[i]).fault() is None
            &&& forall|i: int, j: int|
                0 <= i < j < presets.len() ==> text::trim(
                    (#[trigger] presets[i]).name@,
                    Edge::Whitespace,
                ) != text::trim((#[trigger] presets[j]).name@, Edge::Whitespace)
        },
        1 <= presets.len() <= 50 && (forall|i: int|
            0 <= i < presets.len() ==> (#[trigger] presets[i]).fault() is None) && (forall|
            i: int,
            j: int,
        |
            0 <= i < j < presets.len() ==> text::trim((#[trigger] presets[i]).name@, Edge::Whitespace)
                != text::trim((#[trigger] presets[j]).name@, Edge::Whitespace)) ==> save_fault(
            presets,
        ) is None,
{
    let n = presets.len();
    if save_fault(presets) is None {
        lemma_presets_right(presets, n);
    }
    if 1 <= n <= 50 && (forall|i: int|
        0 <= i < n ==> (#[trigger] presets[i]).fault() is None) && (forall|i: int, j: int|
        0 <= i < j < n ==> text::trim((#[trigger] presets[i]).name@, Edge::Whitespace)
            != text::trim((#[trigger] presets[j]).name@, Edge::Whitespace)) {
        lemma_presets_pass(presets, n);
    }
}

proof fn lemma_presets_right(presets: Seq<WorkflowPreset>, n: nat)
    requires
        n <= presets.len(),
        presets_fault(presets, n) is None,
    ensures
        forall|i: int| 0 <= i < n ==> (#[trigger] presets[i]).fault() is None,
        forall|i: int, j: int|
            0 <= i < j < n ==> text::trim((#[trigger] presets[i]).name@, Edge::Whitespace)
                != text::trim((#[trigger] presets[j]).name@, Edge::Whitespace),
    decreases n,
{
    if n > 0 {
        lemma_presets_right(presets, (n - 1) as nat);
    }
}

proof fn lemma_presets_pass(presets: Seq<WorkflowPreset>, n: nat)
    requires
        n <= presets.len(),
        forall|i: int| 0 <= i < n ==> (#[trigger] presets[i]).fault() is None,
        forall|i: int, j: int|
            0 <= i < j < n ==> text::trim((#[trigger] presets[i]).name@, Edge::Whitespace)
                != text::trim((#[trigger] presets[j]).name@, Edge::Whitespace),
    ensures
        presets_fault(presets, n) is None,
    decreases n,
{
    if n > 0 {
        lemma_presets_pass(presets, (n - 1) as nat);
        assert(presets[n - 1].fault() is None);
    }
}

/// A preset is found by its name: the place is that of the first that has it, or behind all where
/// none has it. A run is over several pages where it is over the project, or over two pages at
/// least.
pub proof fn lemma_preset_place(presets: Seq<WorkflowPreset>, name: Seq<char>, scope: Scope)
    ensures
        0 <= preset_place(presets, name) <= presets.len(),
        preset_place(presets, name) < presets.len() ==> presets[preset_place(presets, name)].name@
            == name,
        forall|i: int|
            0 <= i < preset_place(presets, name) ==> (#[trigger] presets[i]).name@ != name,
        scope is Project ==> is_multiple(scope),
        scope matches Scope::Pages(pages) ==> (is_multiple(scope) <==> pages@.len() >= 2),
    decreases presets.len(),
{
    if presets.len() > 0 && presets[0].name@ != name {
        lemma_preset_place(presets.drop_first(), name, scope);
        let p = preset_place(presets.drop_first(), name);
        assert forall|i: int| 0 <= i < p + 1 implies (#[trigger] presets[i]).name@ != name by {
            if i > 0 {
                assert(presets[i] == presets.drop_first()[i - 1]);
            }
        }
    }
}

/// The pages of a workflow are those of the project that were selected, in the order of the project;
/// over the whole project they are all its pages. It begins where there is a page, and every
/// selected page is one of the project; else it says which page is not, the first of them.
pub proof fn lemma_pages_of_a_workflow(project: Seq<EntityId>, wanted: Vec<EntityId>)
    ensures
        pages_in_scope(project, Scope::Project) == project,
        pages_in_scope(project, Scope::Pages(wanted)) == project.filter(
            |page: EntityId| wanted@.contains(page),
        ),
        page_fault(project, Scope::Project) is None <==> project.len() > 0,
        page_fault(project, Scope::Pages(wanted)) is None ==> forall|i: int|
            0 <= i < wanted@.len() ==> project.contains(#[trigger] wanted@[i]),
        wanted@.len() > 0 && (forall|i: int|
            0 <= i < wanted@.len() ==> project.contains(#[trigger] wanted@[i])) ==> page_fault(
            project,
            Scope::Pages(wanted),
        ) is None,
        page_fault(project, Scope::Pages(wanted)) matches Some(PageFault::Unknown(page)) ==> exists|
            i: int,
        |
            0 <= i < wanted@.len() && #[trigger] wanted@[i] == page && !project.contains(page)
                && forall|j: int| 0 <= j < i ==> project.contains(#[trigger] wanted@[j]),
{
    let n = wanted@.len();
    lemma_pages_filtered(project, wanted@);
    lemma_first_unknown(project, wanted@, n);
    if n > 0 && (forall|i: int| 0 <= i < n ==> project.contains(#[trigger] wanted@[i])) {
        let page = wanted@[0];
        assert(project.contains(page));
        let k = choose|k: int| 0 <= k < project.len() && project[k] == page;
        text::lemma_filter_has(project, |p: EntityId| wanted@.contains(p), k);
    }
}

proof fn lemma_pages_filtered(project: Seq<EntityId>, wanted: Seq<EntityId>)
    ensures
        pages_among(project, wanted) == project.filter(|page: EntityId| wanted.contains(page)),
    decreases project.len(),
{
    let selected = |page: EntityId| wanted.contains(page);
    if project.len() == 0 {
        assert(project.filter(selected) =~= project) by {
            reveal(Seq::filter);
        }
    } else {
        let head = project.drop_last();
        lemma_pages_filtered(head, wanted);
        assert(head.push(project.last()) =~= project);
        text::lemma_filter_push(head, project.last(), selected);
    }
}

proof fn lemma_first_unknown(project: Seq<EntityId>, wanted: Seq<EntityId>, n: nat)
    requires
        n <= wanted.len(),
    ensures
        first_unknown(project, wanted, n) is None <==> forall|i: int|
            0 <= i < n ==> project.contains(#[trigger] wanted[i]),
        first_unknown(project, wanted, n) matches Some(page) ==> exists|i: int|
            0 <= i < n && #[trigger] wanted[i] == page && !project.contains(page) && forall|j: int|
                0 <= j < i ==> project.contains(#[trigger] wanted[j]),
    decreases n,
{
    if n > 0 {
        lemma_first_unknown(project, wanted, (n - 1) as nat);
        if first_unknown(project, wanted, (n - 1) as nat) is None && !project.contains(
            wanted[n - 1],
        ) {
            assert(wanted[n - 1] == first_unknown(project, wanted, n)->0);
        }
    }
}

/// A job that is the same has its name, its total and its steps, each in its place.
pub proof fn lemma_a_job_stays_the_same(a: WorkflowJob, b: WorkflowJob, i: int)
    ensures
        a.same_job(a),
        a.same_job(b) ==> a.id == b.id && a.workflow.name == b.workflow.name && a.total == b.total
            && a.workflow.stages@.len() == b.workflow.stages@.len(),
        a.same_job(b) && 0 <= i < a.workflow.stages@.len() ==> a.workflow.stages@[i].stage
            == b.workflow.stages@[i].stage,
{
}

} // verus!
