//! What the model's files have to say of themselves.
use crate::text;
use vstd::prelude::*;

verus! {

/// What the model's file says of itself.
#[derive(Debug)]
pub struct CheckpointConfig {
    pub max_width: usize,
    pub max_len: usize,
    pub hidden_size: usize,
    pub model_name: String,
    pub span_mode: String,
    pub subtoken_pooling: String,
}

/// The model is not the one that the code is made for.
#[derive(Clone, Copy, Debug, PartialEq, Eq, Structural)]
pub struct OtherArchitecture;

impl CheckpointConfig {
    /// The model is the one that the code is made for.
    pub open spec fn fits(self) -> bool {
        &&& self.max_width == 12
        &&& self.max_len == 384
        &&& self.hidden_size == 512
        &&& self.model_name@ == "microsoft/mdeberta-v3-base"@
        &&& self.span_mode@ == "markerV0"@
        &&& self.subtoken_pooling@ == "first"@
    }

    /// Whether the model is the one that the code is made for.
    pub fn check(&self) -> (r: Result<(), OtherArchitecture>)
        ensures
            self.fits() <==> r is Ok,
    {
        if self.max_width == 12 && self.max_len == 384 && self.hidden_size == 512 && text::same(
            self.model_name.as_str(),
            "microsoft/mdeberta-v3-base",
        ) && text::same(self.span_mode.as_str(), "markerV0") && text::same(
            self.subtoken_pooling.as_str(),
            "first",
        ) {
            Ok(())
        } else {
            Err(OtherArchitecture)
        }
    }
}

/// Whether the tokenizer numbers the two marks of the prompt as the model expects.
pub fn marks_fit(entity_mark: Option<u32>, separator_mark: Option<u32>) -> (r: bool)
    ensures
        r == (entity_mark == Some(250_102u32) && separator_mark == Some(250_103u32)),
{
    match (entity_mark, separator_mark) {
        (Some(a), Some(b)) => a == 250_102 && b == 250_103,
        _ => false,
    }
}

} // verus!
