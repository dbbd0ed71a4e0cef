//! What a batch and a job took.
use crate::counts;
use crate::text;
use vstd::prelude::*;

verus! {

/// What one batch took. The token counts are there where the service reported them.
#[derive(Clone, Copy, Debug, PartialEq, Eq, Structural)]
pub struct BatchMetrics {
    pub batch_index: usize,
    pub page_count: usize,
    pub element_count: usize,
    pub hints_count: usize,
    pub source_chars: usize,
    pub translation_chars: usize,
    pub payload_bytes: usize,
    pub model_requests: usize,
    pub response_bytes: usize,
    pub changes_applied: usize,
    pub elapsed_ms: u64,
    pub input_tokens: Option<usize>,
    pub cached_input_tokens: Option<usize>,
    pub output_tokens: Option<usize>,
    pub reasoning_tokens: Option<usize>,
}

/// What the batches of a job took in all.
#[derive(Clone, Copy, Debug, PartialEq, Eq, Structural)]
pub struct JobMetrics {
    pub total_batches: usize,
    pub total_pages: usize,
    pub total_elements: usize,
    pub total_hints: usize,
    pub total_changes: usize,
    pub total_model_requests: usize,
    pub total_elapsed_ms: u64,
    pub total_input_tokens: usize,
    pub total_cached_input_tokens: usize,
    pub total_output_tokens: usize,
    pub total_reasoning_tokens: usize,
}

pub open spec fn sum_with(total: usize, tokens: Option<usize>) -> usize {
    match tokens {
        Some(n) => counts::clamped((total + n) as nat),
        None => total,
    }
}

fn add_tokens(total: usize, tokens: Option<usize>) -> (r: usize)
    ensures
        r == sum_with(total, tokens),
{
    match tokens {
        Some(n) => counts::capped_sum(total, n),
        None => total,
    }
}

/// The line that sums a batch up.
pub open spec fn summary_line(m: BatchMetrics) -> Seq<char> {
    "batch "@ + text::decimal(m.batch_index as nat) + ": "@ + text::decimal(m.page_count as nat)
        + " pages, "@ + text::decimal(m.element_count as nat) + " elements, "@ + text::decimal(
        m.changes_applied as nat,
    ) + " changes, "@ + text::decimal(m.hints_count as nat) + " hints, "@ + text::decimal(
        m.model_requests as nat,
    ) + " request(s), "@ + text::decimal(m.elapsed_ms as nat) + " ms"@
}

impl BatchMetrics {
    /// The line that sums the batch up.
    pub fn log_summary(&self) -> (r: String)
        ensures
            r@ == summary_line(*self),
    {
        let mut s = text::joined("batch ", text::decimal_text(self.batch_index).as_str());
        s.append(": ");
        s.append(text::decimal_text(self.page_count).as_str());
        s.append(" pages, ");
        s.append(text::decimal_text(self.element_count).as_str());
        s.append(" elements, ");
        s.append(text::decimal_text(self.changes_applied).as_str());
        s.append(" changes, ");
        s.append(text::decimal_text(self.hints_count).as_str());
        s.append(" hints, ");
        s.append(text::decimal_text(self.model_requests).as_str());
        s.append(" request(s), ");
        s.append(text::decimal_text_u64(self.elapsed_ms).as_str());
        s.append(" ms");
        s
    }
}

impl JobMetrics {
    /// All sums are zero.
    pub open spec fn is_empty(self) -> bool {
        self == JobMetrics {
            total_batches: 0,
            total_pages: 0,
            total_elements: 0,
            total_hints: 0,
            total_changes: 0,
            total_model_requests: 0,
            total_elapsed_ms: 0,
            total_input_tokens: 0,
            total_cached_input_tokens: 0,
            total_output_tokens: 0,
            total_reasoning_tokens: 0,
        }
    }

    /// Nothing yet.
    pub fn new() -> (r: Self)
        ensures
            r.is_empty(),
    {
        JobMetrics {
            total_batches: 0,
            total_pages: 0,
            total_elements: 0,
            total_hints: 0,
            total_changes: 0,
            total_model_requests: 0,
            total_elapsed_ms: 0,
            total_input_tokens: 0,
            total_cached_input_tokens: 0,
            total_output_tokens: 0,
            total_reasoning_tokens: 0,
        }
    }

    /// The sums with one batch more, each up to the largest machine number.
    pub open spec fn plus(self, batch: BatchMetrics) -> JobMetrics {
        JobMetrics {
            total_batches: counts::clamped((self.total_batches + 1) as nat),
            total_pages: counts::clamped((self.total_pages + batch.page_count) as nat),
            total_elements: counts::clamped((self.total_elements + batch.element_count) as nat),
            total_hints: counts::clamped((self.total_hints + batch.hints_count) as nat),
            total_changes: counts::clamped((self.total_changes + batch.changes_applied) as nat),
            total_model_requests: counts::clamped(
                (self.total_model_requests + batch.model_requests) as nat,
            ),
            total_elapsed_ms: counts::clamped_u64(
                (self.total_elapsed_ms + batch.elapsed_ms) as nat,
            ),
            total_input_tokens: sum_with(self.total_input_tokens, batch.input_tokens),
            total_cached_input_tokens: sum_with(
                self.total_cached_input_tokens,
                batch.cached_input_tokens,
            ),
            total_output_tokens: sum_with(self.total_output_tokens, batch.output_tokens),
            total_reasoning_tokens: sum_with(self.total_reasoning_tokens, batch.reasoning_tokens),
        }
    }

    /// Adds a batch to the sums.
    pub fn add_batch(&mut self, batch: &BatchMetrics)
        ensures
            *final(self) == old(self).plus(*batch),
    {
        self.total_batches = counts::capped_sum(self.total_batches, 1);
        self.total_pages = counts::capped_sum(self.total_pages, batch.page_count);
        self.total_elements = counts::capped_sum(self.total_elements, batch.element_count);
        self.total_hints = counts::capped_sum(self.total_hints, batch.hints_count);
        self.total_changes = counts::capped_sum(self.total_changes, batch.changes_applied);
        self.total_model_requests = counts::capped_sum(
            self.total_model_requests,
            batch.model_requests,
        );
        self.total_elapsed_ms = counts::capped_sum_u64(self.total_elapsed_ms, batch.elapsed_ms);
        self.total_input_tokens = add_tokens(self.total_input_tokens, batch.input_tokens);
        self.total_cached_input_tokens = add_tokens(
            self.total_cached_input_tokens,
            batch.cached_input_tokens,
        );
        self.total_output_tokens = add_tokens(self.total_output_tokens, batch.output_tokens);
        self.total_reasoning_tokens = add_tokens(self.total_reasoning_tokens, batch.reasoning_tokens);
    }
}

/// A batch more adds what it took to every sum, and one to the number of batches, while the sums can
/// be written; a number of tokens that the service did not report adds nothing.
pub proof fn lemma_a_batch_adds_up(total: JobMetrics, batch: BatchMetrics)
    ensures
        total.total_batches < usize::MAX ==> total.plus(batch).total_batches == total.total_batches
            + 1,
        total.total_pages + batch.page_count <= usize::MAX ==> total.plus(batch).total_pages
            == total.total_pages + batch.page_count,
        total.total_elements + batch.element_count <= usize::MAX ==> total.plus(
            batch,
        ).total_elements == total.total_elements + batch.element_count,
        total.total_hints + batch.hints_count <= usize::MAX ==> total.plus(batch).total_hints
            == total.total_hints + batch.hints_count,
        total.total_changes + batch.changes_applied <= usize::MAX ==> total.plus(
            batch,
        ).total_changes == total.total_changes + batch.changes_applied,
        total.total_model_requests + batch.model_requests <= usize::MAX ==> total.plus(
            batch,
        ).total_model_requests == total.total_model_requests + batch.model_requests,
        total.total_elapsed_ms + batch.elapsed_ms <= u64::MAX ==> total.plus(
            batch,
        ).total_elapsed_ms == total.total_elapsed_ms + batch.elapsed_ms,
        batch.input_tokens is None ==> total.plus(batch).total_input_tokens
            == total.total_input_tokens,
        batch.input_tokens matches Some(n) ==> total.total_input_tokens + n <= usize::MAX
            ==> total.plus(batch).total_input_tokens == total.total_input_tokens + n,
        batch.cached_input_tokens is None ==> total.plus(batch).total_cached_input_tokens
            == total.total_cached_input_tokens,
        batch.cached_input_tokens matches Some(n) ==> total.total_cached_input_tokens + n
            <= usize::MAX ==> total.plus(batch).total_cached_input_tokens
            == total.total_cached_input_tokens + n,
        batch.output_tokens is None ==> total.plus(batch).total_output_tokens
            == total.total_output_tokens,
        batch.output_tokens matches Some(n) ==> total.total_output_tokens + n <= usize::MAX
            ==> total.plus(batch).total_output_tokens == total.total_output_tokens + n,
        batch.reasoning_tokens is None ==> total.plus(batch).total_reasoning_tokens
            == total.total_reasoning_tokens,
        batch.reasoning_tokens matches Some(n) ==> total.total_reasoning_tokens + n <= usize::MAX
            ==> total.plus(batch).total_reasoning_tokens == total.total_reasoning_tokens + n,
        total.plus(batch).total_changes >= total.total_changes,
        total.plus(batch).total_changes >= batch.changes_applied,
{
}

/// A job of which nothing was run has zeros alone.
pub proof fn lemma_empty_sums(m: JobMetrics)
    ensures
        m.is_empty() <==> m.total_batches == 0 && m.total_pages == 0 && m.total_elements == 0
            && m.total_hints == 0 && m.total_changes == 0 && m.total_model_requests == 0
            && m.total_elapsed_ms == 0 && m.total_input_tokens == 0 && m.total_cached_input_tokens
            == 0 && m.total_output_tokens == 0 && m.total_reasoning_tokens == 0,
{
}

} // verus!
