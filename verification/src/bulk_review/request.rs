//! The request that a batch makes, and what a job reports.
use crate::bulk_review::batch::PreparedBatch;
use crate::bulk_review::job::{FailedPage, PageJob};
use crate::bulk_review::metrics::BatchMetrics;
use crate::codex::model::{lowest_reasoning, CodexModel};
use crate::codex::protocol::{message, Request, Tool};
use crate::codex::stream::Usage;
use crate::counts;
use crate::json::{member, Json, Member};
use crate::text;
use vstd::prelude::*;

verus! {

/// What the model is told to do.
pub const BULK_REVIEW_INSTRUCTIONS: &'static str = "You are a specialized bulk translation proofreader for manga pages (source text in Japanese, translation into Portuguese).\nYou receive minimal textual data: page labels, element IDs, source text, current translations, and optional local quality hints on an element.\nReview every provided translation in this order:\n1. SOURCE FIDELITY — does the translation carry the source meaning? Check for lost or added information, wrong subject/object, inverted negation, wrong verb tense, and swapped pronouns or relationships. Accuracy failures are the most serious errors to fix.\n2. OCR/TEXT NOISE — translation pipelines leave OCR artifacts. Look for isolated single letters after sentence punctuation (\"Me dá aquilo! M\"), duplicated or cut fragments, misplaced punctuation (doubled marks, commas next to periods), and CJK characters left untranslated in the Portuguese text. Do not preserve a character just because it exists. Do NOT remove real initials (\"K.\", \"J.\"), acronyms, units, or onomatopoeia.\n3. NAMES/TERMINOLOGY — keep names and terms consistent. The provided translation memory is your canonical glossary: reuse existing keys and spellings and prefer them over new variants. If two spellings of the same name appear in one batch, normalize them to one. Add durable decisions (names, pronouns, relationships, tone) to \"memory_updates\" only when they are genuinely useful for later batches.\n4. NATURAL PORTUGUESE — only after steps 1–3, fix flow, register, and readability. Do not restyle translations that are already accurate.\nLocal \"hints\" are conservative advisory flags for possible OCR noise or untranslated text. Verify each one against the source before acting; some hints are false positives and identical text is not necessarily an error.\nOutput ONLY a structured JSON response — no conversational text, no explanations outside the response object.\nIn \"changes\" include ONLY elements that need updating. If a translation is already correct, do NOT echo it.\nIn \"memory_updates\" provide incremental additions or replacements for terminology, names, pronouns, relationships, tone decisions — not a full memory dump.";

/// A JSON schema of a string.
pub open spec fn string_schema() -> crate::json::Tree {
    crate::json::Tree::Object(seq![("type"@, crate::json::Tree::Text("string"@))])
}

/// A JSON schema of a list.
pub open spec fn list_schema(items: crate::json::Tree) -> crate::json::Tree {
    crate::json::Tree::Object(
        seq![("type"@, crate::json::Tree::Text("array"@)), ("items"@, items)],
    )
}

/// A JSON schema of an object with two members and no others.
pub open spec fn closed_schema(
    first: Seq<char>,
    one: crate::json::Tree,
    second: Seq<char>,
    two: crate::json::Tree,
) -> crate::json::Tree {
    crate::json::Tree::Object(
        seq![
            ("type"@, crate::json::Tree::Text("object"@)),
            ("properties"@, crate::json::Tree::Object(seq![(first, one), (second, two)])),
            (
                "required"@,
                crate::json::Tree::Array(
                    seq![crate::json::Tree::Text(first), crate::json::Tree::Text(second)],
                ),
            ),
            ("additionalProperties"@, crate::json::Tree::Bool(false)),
        ],
    )
}

fn string_type() -> (r: Json)
    ensures
        r.tree() == string_schema(),
{
    let members: Vec<Member> = vec![member("type", Json::string("string"))];
    assert(crate::json::member_trees(members@) =~= string_schema()->Object_0);
    Json::object(members)
}

fn list_type(items: Json) -> (r: Json)
    ensures
        r.tree() == list_schema(items.tree()),
{
    let members: Vec<Member> = vec![member("type", Json::string("array")), member("items", items)];
    assert(crate::json::member_trees(members@) =~= list_schema(items.tree())->Object_0);
    Json::object(members)
}

fn closed_type(first: &str, one: Json, second: &str, two: Json) -> (r: Json)
    ensures
        r.tree() == closed_schema(first@, one.tree(), second@, two.tree()),
{
    let properties: Vec<Member> = vec![member(first, one), member(second, two)];
    assert(crate::json::member_trees(properties@) =~= seq![
        (first@, one.tree()),
        (second@, two.tree()),
    ]);
    let properties = Json::object(properties);
    let required: Vec<Json> = vec![Json::string(first), Json::string(second)];
    assert(crate::json::trees(required@) =~= seq![
        crate::json::Tree::Text(first@),
        crate::json::Tree::Text(second@),
    ]);
    let required = Json::array(required);
    let closed = Json::Bool(false);
    assert(closed.tree() == crate::json::Tree::Bool(false));
    let members: Vec<Member> = vec![
        member("type", Json::string("object")),
        member("properties", properties),
        member("required", required),
        member("additionalProperties", closed),
    ];
    assert(crate::json::member_trees(members@) =~= closed_schema(
        first@,
        one.tree(),
        second@,
        two.tree(),
    )->Object_0);
    Json::object(members)
}

/// The form of the model's answer: a list of changes and a list of notes.
pub open spec fn response_schema() -> crate::json::Tree {
    closed_schema(
        "changes"@,
        list_schema(
            closed_schema("element"@, string_schema(), "translation"@, string_schema()),
        ),
        "memory_updates"@,
        list_schema(closed_schema("key"@, string_schema(), "value"@, string_schema())),
    )
}

/// The form of the model's answer.
pub fn review_response_schema() -> (r: Json)
    ensures
        r.tree() == response_schema(),
{
    let change = closed_type("element", string_type(), "translation", string_type());
    let update = closed_type("key", string_type(), "value", string_type());
    closed_type("changes", list_type(change), "memory_updates", list_type(update))
}

/// What the tool that works through many pages says of itself.
pub const PAGE_JOB_DESCRIPTION: &'static str = "Process a large ordered set of pages autonomously in small sequential batches. Use for tasks spanning more than five pages; the user does not need to request each batch.";

/// The tool that starts a job: it takes a list of at least one page, and an instruction.
pub fn page_job_tool() -> (r: Tool)
    ensures
        r.name@ == "process_pages_job"@,
        r.description@ == PAGE_JOB_DESCRIPTION@,
        r.parameters.tree() == closed_schema(
            "pages"@,
            crate::json::Tree::Object(
                seq![
                    ("type"@, crate::json::Tree::Text("array"@)),
                    ("items"@, string_schema()),
                    ("minItems"@, crate::json::Tree::Unsigned(1)),
                ],
            ),
            "instruction"@,
            string_schema(),
        ),
{
    let one = Json::Unsigned(1);
    assert(one.tree() == crate::json::Tree::Unsigned(1));
    let members: Vec<Member> = vec![
        member("type", Json::string("array")),
        member("items", string_type()),
        member("minItems", one),
    ];
    assert(crate::json::member_trees(members@) =~= seq![
        ("type"@, crate::json::Tree::Text("array"@)),
        ("items"@, string_schema()),
        ("minItems"@, crate::json::Tree::Unsigned(1)),
    ]);
    let pages = Json::object(members);
    Tool {
        name: "process_pages_job".to_owned(),
        description: PAGE_JOB_DESCRIPTION.to_owned(),
        parameters: closed_type("pages", pages, "instruction", string_type()),
    }
}

/// The request of a batch: one message, the least effort, and an answer in the form of
/// [`review_response_schema`].
pub fn review_request(model: &CodexModel, session: &str, prompt: &str) -> (r: Request)
    ensures
        r.model == model.id,
        r.instructions@ == BULK_REVIEW_INSTRUCTIONS@,
        r.input@.len() == 1,
        r.input@[0].tree() == crate::codex::protocol::message_tree("user"@, prompt@),
        r.tools@.len() == 0,
        exists|effort: crate::codex::model::Reasoning|
            {
                &&& r.reasoning.effort@ == #[trigger] effort.spec_name()
                &&& model.reasoning@.len() > 0 ==> model.reasoning@.contains(effort)
                &&& model.reasoning@.len() == 0 ==> effort == crate::codex::model::Reasoning::Low
                &&& forall|i: int|
                    0 <= i < model.reasoning@.len() ==> effort.spec_rank() <= (
                    #[trigger] model.reasoning@[i]).spec_rank()
            },
        r.tool_choice@ == "auto"@,
        !r.parallel_tool_calls,
        r.reasoning.summary@ == "auto"@,
        r.included@.len() == 1,
        r.included@[0]@ == "reasoning.encrypted_content"@,
        r.stream,
        !r.store,
        r.prompt_cache_key@ == session@,
        r.text.verbosity@ == "low"@,
        r.text.format matches Some(format) && {
            &&& format.kind@ == "json_schema"@
            &&& format.name@ == "review_response"@
            &&& format.strict
            &&& format.schema.tree() == response_schema()
        },
{
    let effort = lowest_reasoning(model);
    let input: Vec<Json> = vec![message("user", prompt)];
    let request = Request::new(
        model.id.clone(),
        BULK_REVIEW_INSTRUCTIONS.to_owned(),
        input,
        Vec::new(),
        effort,
        session.to_owned(),
    );
    request.with_json_schema(Some(review_response_schema()), "review_response")
}

/// The key under which the service keeps what the batches of a job share.
pub fn session_key(call_id: &str) -> (r: String)
    ensures
        r@ == "bulk-review:"@ + call_id@,
{
    text::joined("bulk-review:", call_id)
}

/// The name of a batch in the events of its job.
pub fn batch_call_id(call_id: &str, sequence: usize) -> (r: String)
    ensures
        r@ == call_id@ + "-batch-"@ + text::decimal(sequence as nat),
{
    let mut s = text::joined(call_id, "-batch-");
    let n = text::decimal_text(sequence);
    s.append(n.as_str());
    s
}

/// What a batch took, given what was sent, how often, and what came back.
pub fn batch_metrics(
    batch_index: usize,
    page_count: usize,
    batch: &PreparedBatch,
    attempt: usize,
    payload_bytes: usize,
    response_bytes: usize,
    changes_applied: usize,
    elapsed_ms: u64,
    usage: Option<Usage>,
) -> (r: BatchMetrics)
    ensures
        r == (BatchMetrics {
            batch_index,
            page_count,
            element_count: batch.element_count,
            hints_count: batch.hints_count,
            source_chars: batch.source_chars,
            translation_chars: batch.translation_chars,
            payload_bytes,
            model_requests: counts::clamped((attempt + 1) as nat),
            response_bytes,
            changes_applied,
            elapsed_ms,
            input_tokens: match usage {
                Some(u) => Some(u.input_tokens),
                None => None,
            },
            cached_input_tokens: match usage {
                Some(u) => Some(u.cached_input_tokens),
                None => None,
            },
            output_tokens: match usage {
                Some(u) => Some(u.output_tokens),
                None => None,
            },
            reasoning_tokens: match usage {
                Some(u) => Some(u.reasoning_tokens),
                None => None,
            },
        }),
{
    let (input_tokens, cached_input_tokens, output_tokens, reasoning_tokens) = match usage {
        Some(u) => (
            Some(u.input_tokens),
            Some(u.cached_input_tokens),
            Some(u.output_tokens),
            Some(u.reasoning_tokens),
        ),
        None => (None, None, None, None),
    };
    BatchMetrics {
        batch_index,
        page_count,
        element_count: batch.element_count,
        hints_count: batch.hints_count,
        source_chars: batch.source_chars,
        translation_chars: batch.translation_chars,
        payload_bytes,
        model_requests: counts::capped_sum(attempt, 1),
        response_bytes,
        changes_applied,
        elapsed_ms,
        input_tokens,
        cached_input_tokens,
        output_tokens,
        reasoning_tokens,
    }
}

/// The pages that failed, each with its error.
pub open spec fn failure_trees(failed: Seq<FailedPage>) -> Seq<crate::json::Tree> {
    Seq::new(
        failed.len(),
        |i: int|
            crate::json::Tree::Object(
                seq![
                    ("page"@, crate::json::Tree::Text(failed[i].page@)),
                    ("error"@, crate::json::Tree::Text(failed[i].error@)),
                ],
            ),
    )
}

/// What a job reports at its end.
pub open spec fn report_tree(job: PageJob) -> crate::json::Tree {
    crate::json::Tree::Object(
        seq![
            ("total"@, crate::json::Tree::Unsigned(job.total as u64)),
            ("completed"@, crate::json::Tree::Unsigned(job.completed@.len() as u64)),
            (
                "completed_pages"@,
                crate::json::Tree::Array(
                    Seq::new(
                        job.completed@.len(),
                        |i: int| crate::json::Tree::Text(job.completed@[i]@),
                    ),
                ),
            ),
            ("failed"@, crate::json::Tree::Array(failure_trees(job.failed@))),
            (
                "memory"@,
                crate::json::Tree::Text(
                    crate::bulk_review::memory::serialized(job.memory.notes()),
                ),
            ),
            (
                "metrics"@,
                crate::json::Tree::Object(
                    seq![
                        (
                            "batches"@,
                            crate::json::Tree::Unsigned(job.metrics.total_batches as u64),
                        ),
                        (
                            "changes"@,
                            crate::json::Tree::Unsigned(job.metrics.total_changes as u64),
                        ),
                        ("hints"@, crate::json::Tree::Unsigned(job.metrics.total_hints as u64)),
                        (
                            "model_requests"@,
                            crate::json::Tree::Unsigned(job.metrics.total_model_requests as u64),
                        ),
                        ("elapsed_ms"@, crate::json::Tree::Unsigned(job.metrics.total_elapsed_ms)),
                    ],
                ),
            ),
        ],
    )
}

fn number(n: usize) -> (r: Json)
    ensures
        r.tree() == crate::json::Tree::Unsigned(n as u64),
{
    Json::Unsigned(n as u64)
}

fn number_u64(n: u64) -> (r: Json)
    ensures
        r.tree() == crate::json::Tree::Unsigned(n),
{
    Json::Unsigned(n)
}

fn page_list(pages: &Vec<String>) -> (r: Json)
    ensures
        r.tree() == crate::json::Tree::Array(
            Seq::new(pages@.len(), |i: int| crate::json::Tree::Text(pages@[i]@)),
        ),
{
    let mut items: Vec<Json> = Vec::new();
    let mut i: usize = 0;
    while i < pages.len()
        invariant
            i <= pages@.len(),
            items@.len() == i,
            forall|j: int|
                0 <= j < i ==> (#[trigger] items@[j]).tree() == crate::json::Tree::Text(pages@[j]@),
        decreases pages@.len() - i,
    {
        items.push(Json::string(pages[i].as_str()));
        i += 1;
    }
    assert(crate::json::trees(items@) =~= Seq::new(
        pages@.len(),
        |i: int| crate::json::Tree::Text(pages@[i]@),
    ));
    Json::array(items)
}

fn failure_list(failed: &Vec<FailedPage>) -> (r: Json)
    ensures
        r.tree() == crate::json::Tree::Array(failure_trees(failed@)),
{
    let mut items: Vec<Json> = Vec::new();
    let mut i: usize = 0;
    while i < failed.len()
        invariant
            i <= failed@.len(),
            items@.len() == i,
            forall|j: int| 0 <= j < i ==> (#[trigger] items@[j]).tree() == failure_trees(failed@)[j],
        decreases failed@.len() - i,
    {
        let members: Vec<Member> = vec![
            member("page", Json::string(failed[i].page.as_str())),
            member("error", Json::string(failed[i].error.as_str())),
        ];
        assert(crate::json::member_trees(members@)
            =~= failure_trees(failed@)[i as int]->Object_0);
        items.push(Json::object(members));
        i += 1;
    }
    assert(crate::json::trees(items@) =~= failure_trees(failed@));
    Json::array(items)
}

/// What a job reports at its end.
pub fn job_report(job: &PageJob) -> (r: Json)
    requires
        job.wf(),
    ensures
        r.tree() == report_tree(*job),
{
    let metrics: Vec<Member> = vec![
        member("batches", number(job.metrics.total_batches)),
        member("changes", number(job.metrics.total_changes)),
        member("hints", number(job.metrics.total_hints)),
        member("model_requests", number(job.metrics.total_model_requests)),
        member("elapsed_ms", number_u64(job.metrics.total_elapsed_ms)),
    ];
    assert(crate::json::member_trees(metrics@) =~= report_tree(*job)->Object_0[5].1->Object_0);
    let metrics = Json::object(metrics);
    let memory = job.memory.serialize();
    let members: Vec<Member> = vec![
        member("total", number(job.total)),
        member("completed", number(job.completed.len())),
        member("completed_pages", page_list(&job.completed)),
        member("failed", failure_list(&job.failed)),
        member("memory", Json::string(memory.as_str())),
        member("metrics", metrics),
    ];
    assert(crate::json::member_trees(members@) =~= report_tree(*job)->Object_0);
    Json::object(members)
}

} // verus!
