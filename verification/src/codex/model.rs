//! The models that the assistant offers and how hard they may think.
use vstd::prelude::*;

verus! {

/// How much effort a model spends on an answer, least first.
#[derive(Clone, Copy, Debug, PartialEq, Eq, Structural)]
pub enum Reasoning {
    Low,
    Medium,
    High,
    Xhigh,
    Max,
    Ultra,
}

/// A model of the assistant.
#[derive(Clone, Debug)]
pub struct CodexModel {
    pub id: String,
    pub name: String,
    pub reasoning: Vec<Reasoning>,
}

impl Reasoning {
    /// The place of an effort in the order of efforts.
    pub open spec fn spec_rank(self) -> nat {
        match self {
            Reasoning::Low => 0,
            Reasoning::Medium => 1,
            Reasoning::High => 2,
            Reasoning::Xhigh => 3,
            Reasoning::Max => 4,
            Reasoning::Ultra => 5,
        }
    }
}

/// The place of an effort in the order of efforts.
pub fn reasoning_rank(reasoning: Reasoning) -> (rank: usize)
    ensures
        rank == reasoning.spec_rank(),
{
    match reasoning {
        Reasoning::Low => 0,
        Reasoning::Medium => 1,
        Reasoning::High => 2,
        Reasoning::Xhigh => 3,
        Reasoning::Max => 4,
        Reasoning::Ultra => 5,
    }
}

/// The least effort that the model supports, or `Low` where it lists none.
pub fn lowest_reasoning(model: &CodexModel) -> (r: Reasoning)
    ensures
        model.reasoning@.len() == 0 ==> r == Reasoning::Low,
        model.reasoning@.len() > 0 ==> model.reasoning@.contains(r),
        forall|i: int|
            0 <= i < model.reasoning@.len() ==> r.spec_rank() <= (
            #[trigger] model.reasoning@[i]).spec_rank(),
{
    if model.reasoning.len() == 0 {
        return Reasoning::Low;
    }
    let mut best: Reasoning = model.reasoning[0];
    let mut i: usize = 1;
    while i < model.reasoning.len()
        invariant
            1 <= i <= model.reasoning@.len(),
            model.reasoning@.contains(best),
            forall|j: int|
                0 <= j < i ==> best.spec_rank() <= (#[trigger] model.reasoning@[j]).spec_rank(),
        decreases model.reasoning@.len() - i,
    {
        let next: Reasoning = model.reasoning[i];
        if reasoning_rank(next) < reasoning_rank(best) {
            best = next;
        }
        i += 1;
    }
    best
}

/// The efforts from the lowest to the highest.
pub proof fn lemma_order_of_efforts(a: Reasoning, b: Reasoning)
    ensures
        Reasoning::Low.spec_rank() < Reasoning::Medium.spec_rank() < Reasoning::High.spec_rank(),
        Reasoning::High.spec_rank() < Reasoning::Xhigh.spec_rank() < Reasoning::Max.spec_rank(),
        Reasoning::Max.spec_rank() < Reasoning::Ultra.spec_rank(),
        a.spec_rank() == b.spec_rank() ==> a == b,
{
}

} // verus!
