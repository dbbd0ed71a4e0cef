//! What the model finds.
use crate::glossary::model::Confidence;
use vstd::prelude::*;

verus! {

/// What a name is the name of.
#[derive(Clone, Copy, Debug, PartialEq, Eq, Structural, Hash, PartialOrd, Ord)]
pub enum GlossaryEntityKind {
    Person,
    Place,
    Organization,
    Item,
    Ability,
    WorkSpecificTerm,
}

/// All kinds, in the order in which the model scores them.
pub open spec fn every_kind() -> Seq<GlossaryEntityKind> {
    seq![
        GlossaryEntityKind::Person,
        GlossaryEntityKind::Place,
        GlossaryEntityKind::Organization,
        GlossaryEntityKind::Item,
        GlossaryEntityKind::Ability,
        GlossaryEntityKind::WorkSpecificTerm,
    ]
}

/// How many kinds there are.
pub const KIND_COUNT: usize = 6;

impl GlossaryEntityKind {
    /// The place of the kind among all kinds.
    pub open spec fn rank(self) -> int {
        match self {
            GlossaryEntityKind::Person => 0,
            GlossaryEntityKind::Place => 1,
            GlossaryEntityKind::Organization => 2,
            GlossaryEntityKind::Item => 3,
            GlossaryEntityKind::Ability => 4,
            GlossaryEntityKind::WorkSpecificTerm => 5,
        }
    }

    /// The place of the kind among all kinds.
    pub fn number(self) -> (r: u8)
        ensures
            r == self.rank(),
    {
        match self {
            GlossaryEntityKind::Person => 0,
            GlossaryEntityKind::Place => 1,
            GlossaryEntityKind::Organization => 2,
            GlossaryEntityKind::Item => 3,
            GlossaryEntityKind::Ability => 4,
            GlossaryEntityKind::WorkSpecificTerm => 5,
        }
    }

    /// All kinds, in the order in which the model scores them.
    pub fn all() -> (r: Vec<GlossaryEntityKind>)
        ensures
            r@ == every_kind(),
    {
        vec![
            GlossaryEntityKind::Person,
            GlossaryEntityKind::Place,
            GlossaryEntityKind::Organization,
            GlossaryEntityKind::Item,
            GlossaryEntityKind::Ability,
            GlossaryEntityKind::WorkSpecificTerm,
        ]
    }

    /// The word by which the model knows the kind.
    pub open spec fn label(self) -> Seq<char> {
        match self {
            GlossaryEntityKind::Person => "person"@,
            GlossaryEntityKind::Place => "place"@,
            GlossaryEntityKind::Organization => "organization"@,
            GlossaryEntityKind::Item => "item"@,
            GlossaryEntityKind::Ability => "ability"@,
            GlossaryEntityKind::WorkSpecificTerm => "work-specific term"@,
        }
    }

    /// The word by which the model knows the kind.
    #[must_use]
    pub fn model_label(self) -> (r: &'static str)
        ensures
            r@ == self.label(),
    {
        match self {
            GlossaryEntityKind::Person => "person",
            GlossaryEntityKind::Place => "place",
            GlossaryEntityKind::Organization => "organization",
            GlossaryEntityKind::Item => "item",
            GlossaryEntityKind::Ability => "ability",
            GlossaryEntityKind::WorkSpecificTerm => "work-specific term",
        }
    }
}

/// A name that was found: the bytes of the text from `start` to before `end`.
#[derive(Debug)]
pub struct GlossaryEntity {
    pub start: usize,
    pub end: usize,
    pub surface: String,
    pub kind: GlossaryEntityKind,
    pub confidence: Confidence,
}

impl GlossaryEntity {
    pub fn new(
        start: usize,
        end: usize,
        surface: String,
        kind: GlossaryEntityKind,
        confidence: Confidence,
    ) -> (r: Self)
        ensures
            r == (GlossaryEntity { start, end, surface, kind, confidence }),
    {
        GlossaryEntity { start, end, surface, kind, confidence }
    }
}

/// The model scores six kinds in one order, each once: every kind stands at its own number. It knows
/// each by a word of its own.
pub proof fn lemma_kinds_have_their_places(kind: GlossaryEntityKind, other: GlossaryEntityKind)
    ensures
        every_kind().len() == 6,
        0 <= kind.rank() < 6,
        every_kind()[kind.rank()] == kind,
        kind.rank() == other.rank() ==> kind == other,
        kind.label() == other.label() ==> kind == other,
        kind is Person ==> kind.rank() == 0 && kind.label() == "person"@,
        kind is Place ==> kind.rank() == 1 && kind.label() == "place"@,
        kind is Organization ==> kind.rank() == 2 && kind.label() == "organization"@,
        kind is Item ==> kind.rank() == 3 && kind.label() == "item"@,
        kind is Ability ==> kind.rank() == 4 && kind.label() == "ability"@,
        kind is WorkSpecificTerm ==> kind.rank() == 5 && kind.label() == "work-specific term"@,
{
    reveal_strlit("person");
    reveal_strlit("place");
    reveal_strlit("organization");
    reveal_strlit("item");
    reveal_strlit("ability");
    reveal_strlit("work-specific term");
    assert("person"@.len() == 6 && "place"@.len() == 5 && "organization"@.len() == 12);
    assert("item"@.len() == 4 && "ability"@.len() == 7 && "work-specific term"@.len() == 18);
}

} // verus!
