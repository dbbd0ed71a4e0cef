//! Reading the event stream of an answer.
use crate::counts;
use crate::json::Json;
use crate::text;
use vstd::prelude::*;

verus! {

/// How many bytes of events an answer may take.
pub const MAX_STREAM_BYTES: usize = 16_777_216;

/// A piece of an answer that is shown while it arrives.
pub enum Delta {
    Text(String),
    Reasoning(String),
}

/// What an answer cost.
#[derive(Clone, Copy, Debug, PartialEq, Eq, Structural)]
pub struct Usage {
    pub input_tokens: usize,
    pub cached_input_tokens: usize,
    pub output_tokens: usize,
    pub reasoning_tokens: usize,
}

/// A tool that the model wants to have called.
pub struct ToolCall {
    pub call_id: String,
    pub name: String,
    pub arguments: String,
}

/// An answer.
pub struct Turn {
    pub output: Vec<Json>,
    pub calls: Vec<ToolCall>,
    pub text: String,
    pub usage: Option<Usage>,
}

/// An event whose data is JSON: its value, and the value written out again.
pub struct ParsedEvent {
    pub value: Json,
    pub rendered: String,
}

/// Why an answer could not be read.
pub enum StreamFault {
    /// The events take too many bytes.
    TooLong,
    /// The data of an event is not JSON.
    InvalidJson,
    /// The service broke the answer off, with this reason.
    Incomplete(String),
    /// The service failed to answer, with this reason.
    Failed(String),
    /// The service reported an error.
    Error(String),
    /// The stream ended before the answer did.
    Unfinished,
}

/// What follows an event.
pub enum StreamStep {
    /// Read on.
    Continue,
    /// Show this, and read on.
    Publish(Delta),
    /// The answer is complete.
    Done,
    /// The answer cannot be read.
    Fail(StreamFault),
}

/// An answer whose stream has ended.
pub struct Finished {
    pub turn: Turn,
    /// Text that was not shown while it arrived.
    pub delta: Option<Delta>,
}

/// What an event is about.
#[derive(Clone, Copy, Debug, PartialEq, Eq, Structural)]
pub enum EventKind {
    TextDelta,
    ReasoningDelta,
    Item,
    Completed,
    Incomplete,
    Failed,
    Error,
    Other,
}

/// What an event of that type is about.
pub open spec fn kind_of(name: Seq<char>) -> EventKind {
    if name == "response.output_text.delta"@ {
        EventKind::TextDelta
    } else if name == "response.reasoning_summary_text.delta"@ || name
        == "response.reasoning_text.delta"@ {
        EventKind::ReasoningDelta
    } else if name == "response.output_item.done"@ {
        EventKind::Item
    } else if name == "response.completed"@ || name == "response.done"@ {
        EventKind::Completed
    } else if name == "response.incomplete"@ {
        EventKind::Incomplete
    } else if name == "response.failed"@ {
        EventKind::Failed
    } else if name == "error"@ {
        EventKind::Error
    } else {
        EventKind::Other
    }
}

/// What an event is about; one without a type is about nothing.
pub open spec fn event_kind(value: Json) -> EventKind {
    match value.field_text("type"@) {
        Some(name) => kind_of(name),
        None => kind_of(Seq::empty()),
    }
}

/// The counts of an answer; without a count of its input there are none.
pub open spec fn usage_of(value: Option<Json>) -> Option<Usage> {
    match value {
        None => None,
        Some(usage) => match usage.field_count("input_tokens"@) {
            None => None,
            Some(input_tokens) => Some(
                Usage {
                    input_tokens,
                    cached_input_tokens: nested_count(usage, "input_tokens_details"@, "cached_tokens"@),
                    output_tokens: match usage.field_count("output_tokens"@) {
                        Some(n) => n,
                        None => 0,
                    },
                    reasoning_tokens: nested_count(usage, "reasoning"@, "total_tokens"@),
                },
            ),
        },
    }
}

pub open spec fn nested_count(value: Json, outer: Seq<char>, inner: Seq<char>) -> usize {
    match value.field(outer) {
        Some(details) => match details.field_count(inner) {
            Some(n) => n,
            None => 0,
        },
        None => 0,
    }
}

/// The texts of the parts of a message.
pub open spec fn content_text(parts: Seq<Json>) -> Seq<char>
    decreases parts.len(),
{
    if parts.len() == 0 {
        Seq::empty()
    } else {
        let head = content_text(parts.drop_last());
        let part = parts.last();
        if part.field_text("type"@) == Some("output_text"@) && part.field_text("text"@) is Some {
            head + part.field_text("text"@)->0
        } else {
            head
        }
    }
}

/// The texts of the messages among the items.
pub open spec fn message_text(output: Seq<Json>) -> Seq<char>
    decreases output.len(),
{
    if output.len() == 0 {
        Seq::empty()
    } else {
        let head = message_text(output.drop_last());
        let item = output.last();
        match item.field("content"@) {
            Some(Json::Array(parts)) => if item.field_text("type"@) == Some("message"@) {
                head + content_text(parts@)
            } else {
                head
            },
            _ => head,
        }
    }
}

pub open spec fn is_call(item: Json) -> bool {
    item.field_text("type"@) == Some("function_call"@)
}

/// The ids of the calls among the items.
pub open spec fn call_ids(output: Seq<Json>) -> Set<Seq<char>>
    decreases output.len(),
{
    if output.len() == 0 {
        Set::empty()
    } else {
        let ids = call_ids(output.drop_last());
        match output.last().field_text("call_id"@) {
            Some(id) => if is_call(output.last()) {
                ids.insert(id)
            } else {
                ids
            },
            None => ids,
        }
    }
}

/// The calls among the items as id, name and arguments: each id once, the first item with it, and
/// only where that item is whole.
pub open spec fn calls_of(output: Seq<Json>) -> Seq<(Seq<char>, Seq<char>, Seq<char>)>
    decreases output.len(),
{
    if output.len() == 0 {
        Seq::empty()
    } else {
        let calls = calls_of(output.drop_last());
        let item = output.last();
        match (item.field_text("call_id"@), item.field_text("name"@), item.field_text(
            "arguments"@,
        )) {
            (Some(id), Some(name), Some(arguments)) => if is_call(item) && !call_ids(
                output.drop_last(),
            ).contains(id) {
                calls.push((id, name, arguments))
            } else {
                calls
            },
            _ => calls,
        }
    }
}

impl ToolCall {
    pub open spec fn texts(self) -> (Seq<char>, Seq<char>, Seq<char>) {
        (self.call_id@, self.name@, self.arguments@)
    }
}

/// The reason in an event: its message, that of its error, or the whole event.
pub open spec fn reason_of(event: ParsedEvent) -> Seq<char> {
    let message = match event.value.field("message"@) {
        Some(m) => Some(m),
        None => match event.value.field("error"@) {
            Some(error) => error.field("message"@),
            None => None,
        },
    };
    match message {
        Some(Json::Text(s)) => s@,
        _ => event.rendered@,
    }
}

impl StreamFault {
    /// The fault as it is shown.
    pub open spec fn shown(self) -> Seq<char> {
        match self {
            StreamFault::TooLong => "Codex response stream exceeded 16777216 bytes"@,
            StreamFault::InvalidJson => "invalid JSON in Codex response stream"@,
            StreamFault::Incomplete(reason) => "Codex response was incomplete: "@ + reason@,
            StreamFault::Failed(reason) => "Codex response failed: "@ + reason@,
            StreamFault::Error(reason) => "Codex returned an error: "@ + reason@,
            StreamFault::Unfinished => "Codex response stream ended before completion"@,
        }
    }

    /// The fault as it is shown.
    pub fn message(&self) -> (r: String)
        ensures
            r@ == self.shown(),
    {
        match self {
            StreamFault::TooLong => "Codex response stream exceeded 16777216 bytes".to_owned(),
            StreamFault::InvalidJson => "invalid JSON in Codex response stream".to_owned(),
            StreamFault::Incomplete(reason) => text::joined(
                "Codex response was incomplete: ",
                reason.as_str(),
            ),
            StreamFault::Failed(reason) => text::joined("Codex response failed: ", reason.as_str()),
            StreamFault::Error(reason) => text::joined("Codex returned an error: ", reason.as_str()),
            StreamFault::Unfinished => "Codex response stream ended before completion".to_owned(),
        }
    }
}

/// A stream that ended early is worth another attempt.
pub proof fn lemma_unfinished_is_transient()
    ensures
        crate::codex::retry::names_lost_connection(StreamFault::Unfinished.shown()),
{
    reveal_strlit("Codex response stream ended before completion");
    reveal_strlit("response stream ended before completion");
    let m = text::ascii_lower(StreamFault::Unfinished.shown());
    let needle = "response stream ended before completion"@;
    assert(m.subrange(6, 6int + needle.len()) =~= needle);
    assert(text::occurs_at(m, needle, 6));
}

fn classify(name: &str) -> (r: EventKind)
    ensures
        r == kind_of(name@),
{
    if text::same(name, "response.output_text.delta") {
        EventKind::TextDelta
    } else if text::same(name, "response.reasoning_summary_text.delta") || text::same(
        name,
        "response.reasoning_text.delta",
    ) {
        EventKind::ReasoningDelta
    } else if text::same(name, "response.output_item.done") {
        EventKind::Item
    } else if text::same(name, "response.completed") || text::same(name, "response.done") {
        EventKind::Completed
    } else if text::same(name, "response.incomplete") {
        EventKind::Incomplete
    } else if text::same(name, "response.failed") {
        EventKind::Failed
    } else if text::same(name, "error") {
        EventKind::Error
    } else {
        EventKind::Other
    }
}

/// The counts of an answer.
pub fn parse_usage(value: Option<&Json>) -> (r: Option<Usage>)
    ensures
        r == usage_of(match value {
            Some(v) => Some(*v),
            None => None,
        }),
{
    let usage = match value {
        Some(usage) => usage,
        None => return None,
    };
    match usage.get_count("input_tokens") {
        None => None,
        Some(input_tokens) => {
            let output_tokens: usize = match usage.get_count("output_tokens") {
                Some(n) => n,
                None => 0,
            };
            let cached_input_tokens: usize = count_in(usage, "input_tokens_details", "cached_tokens");
            let reasoning_tokens: usize = count_in(usage, "reasoning", "total_tokens");
            Some(Usage { input_tokens, cached_input_tokens, output_tokens, reasoning_tokens })
        },
    }
}

fn count_in(value: &Json, outer: &str, inner: &str) -> (n: usize)
    ensures
        n == nested_count(*value, outer@, inner@),
{
    match value.get(outer) {
        Some(details) => match details.get_count(inner) {
            Some(n) => n,
            None => 0,
        },
        None => 0,
    }
}

fn is_of_type(item: &Json, name: &str) -> (r: bool)
    ensures
        r == (item.field_text("type"@) == Some(name@)),
{
    match item.get_str("type") {
        Some(kind) => text::same(kind, name),
        None => false,
    }
}

fn parts_text(parts: &Vec<Json>) -> (r: String)
    ensures
        r@ == content_text(parts@),
{
    let mut r = String::new();
    let mut i: usize = 0;
    assert(parts@.take(0) =~= Seq::empty());
    while i < parts.len()
        invariant
            i <= parts@.len(),
            r@ == content_text(parts@.take(i as int)),
        decreases parts@.len() - i,
    {
        proof {
            assert(parts@.take(i + 1).drop_last() =~= parts@.take(i as int));
            assert(parts@.take(i + 1).last() == parts@[i as int]);
        }
        if is_of_type(&parts[i], "output_text") {
            match parts[i].get_str("text") {
                Some(s) => r.append(s),
                None => {},
            }
        }
        i += 1;
    }
    assert(parts@.take(i as int) =~= parts@);
    r
}

/// The texts of the messages among the items.
pub fn output_text(output: &Vec<Json>) -> (r: String)
    ensures
        r@ == message_text(output@),
{
    let mut r = String::new();
    let mut i: usize = 0;
    assert(output@.take(0) =~= Seq::empty());
    while i < output.len()
        invariant
            i <= output@.len(),
            r@ == message_text(output@.take(i as int)),
        decreases output@.len() - i,
    {
        proof {
            assert(output@.take(i + 1).drop_last() =~= output@.take(i as int));
            assert(output@.take(i + 1).last() == output@[i as int]);
        }
        if is_of_type(&output[i], "message") {
            match output[i].get("content") {
                Some(content) => match content.as_array() {
                    Some(parts) => {
                        let s = parts_text(parts);
                        r.append(s.as_str());
                    },
                    None => {},
                },
                None => {},
            }
        }
        i += 1;
    }
    assert(output@.take(i as int) =~= output@);
    r
}

/// The calls among the items.
pub fn tool_calls(output: &Vec<Json>) -> (r: Vec<ToolCall>)
    ensures
        r@.len() == calls_of(output@).len(),
        forall|i: int| 0 <= i < r@.len() ==> (#[trigger] r@[i]).texts() == calls_of(output@)[i],
{
    let mut calls: Vec<ToolCall> = Vec::new();
    let mut seen: Vec<String> = Vec::new();
    let mut i: usize = 0;
    assert(output@.take(0) =~= Seq::empty());
    assert(text::texts(seen@) =~= Seq::empty());
    while i < output.len()
        invariant
            i <= output@.len(),
            calls@.len() == calls_of(output@.take(i as int)).len(),
            forall|k: int|
                0 <= k < calls@.len() ==> (#[trigger] calls@[k]).texts() == calls_of(
                    output@.take(i as int),
                )[k],
            forall|id: Seq<char>| #[trigger]
                text::texts(seen@).contains(id) <==> call_ids(output@.take(i as int)).contains(id),
        decreases output@.len() - i,
    {
        proof {
            assert(output@.take(i + 1).drop_last() =~= output@.take(i as int));
            assert(output@.take(i + 1).last() == output@[i as int]);
        }
        let item = &output[i];
        if is_of_type(item, "function_call") {
            match item.get_str("call_id") {
                Some(id) => {
                    let ghost before = text::texts(seen@);
                    if !text::among(&seen, id) {
                        seen.push(id.to_owned());
                        proof {
                            assert(text::texts(seen@) =~= before.push(id@));
                            assert forall|x: Seq<char>| #[trigger]
                                text::texts(seen@).contains(x) <==> before.contains(x) || x
                                    == id@ by {
                                if before.contains(x) {
                                    let k = choose|k: int| 0 <= k < before.len() && before[k] == x;
                                    assert(text::texts(seen@)[k] == x);
                                }
                                if x == id@ {
                                    assert(text::texts(seen@)[before.len() as int] == x);
                                }
                            }
                        }
                        match (item.get_str("name"), item.get_str("arguments")) {
                            (Some(name), Some(arguments)) => {
                                calls.push(
                                    ToolCall {
                                        call_id: id.to_owned(),
                                        name: name.to_owned(),
                                        arguments: arguments.to_owned(),
                                    },
                                );
                            },
                            _ => {},
                        }
                    }
                },
                None => {},
            }
        }
        i += 1;
    }
    assert(output@.take(i as int) =~= output@);
    calls
}

/// The reason in an event.
pub fn provider_error(event: &ParsedEvent) -> (r: String)
    ensures
        r@ == reason_of(*event),
{
    let message = match event.value.get("message") {
        Some(message) => Some(message),
        None => match event.value.get("error") {
            Some(error) => error.get("message"),
            None => None,
        },
    };
    match message {
        Some(message) => match message.as_str() {
            Some(s) => s.to_owned(),
            None => event.rendered.clone(),
        },
        None => event.rendered.clone(),
    }
}

/// An answer that is being read.
pub struct StreamReader {
    pub bytes: usize,
    pub output: Vec<Json>,
    pub text: String,
    pub usage: Option<Usage>,
    pub completed: bool,
}

/// The event is passed over: the mark at the end of a stream, or nothing at all.
pub open spec fn is_empty_event(data: Seq<char>) -> bool {
    data == "[DONE]"@ || text::is_blank(data)
}

/// The bytes of the events so far.
pub open spec fn bytes_after(bytes: usize, data: Seq<char>) -> usize {
    counts::clamped((bytes + vstd::utf8::encode_utf8(data).len()) as nat)
}

impl StreamReader {
    /// Nothing is known of the answer but the bytes read.
    pub open spec fn unchanged_but_bytes(self, before: StreamReader) -> bool {
        &&& self.output == before.output
        &&& self.text@ == before.text@
        &&& self.usage == before.usage
        &&& self.completed == before.completed
    }

    /// How an event changes the answer, and what follows.
    pub open spec fn takes(
        self,
        before: StreamReader,
        event: ParsedEvent,
        step: StreamStep,
    ) -> bool {
        let value = event.value;
        match event_kind(value) {
            EventKind::TextDelta => match value.field_text("delta"@) {
                Some(delta) => {
                    &&& self.text@ == before.text@ + delta
                    &&& self.output == before.output
                    &&& self.usage == before.usage
                    &&& self.completed == before.completed
                    &&& step matches StreamStep::Publish(Delta::Text(s)) && s@ == delta
                },
                None => self.unchanged_but_bytes(before) && step is Continue,
            },
            EventKind::ReasoningDelta => {
                &&& self.unchanged_but_bytes(before)
                &&& match value.field_text("delta"@) {
                    Some(delta) => step matches StreamStep::Publish(Delta::Reasoning(s)) && s@
                        == delta,
                    None => step is Continue,
                }
            },
            EventKind::Item => {
                &&& self.text@ == before.text@
                &&& self.usage == before.usage
                &&& self.completed == before.completed
                &&& step is Continue
                &&& match value.field("item"@) {
                    Some(item) => self.output@ == before.output@.push(item),
                    None => self.output@ == before.output@,
                }
            },
            EventKind::Completed => {
                &&& self.text@ == before.text@
                &&& self.completed
                &&& step is Done
                &&& match value.field("response"@) {
                    Some(response) => {
                        &&& self.usage == (match usage_of(response.field("usage"@)) {
                            Some(usage) => Some(usage),
                            None => before.usage,
                        })
                        &&& self.output@ == (match response.field("output"@) {
                            Some(Json::Array(items)) => if before.output@.len() == 0 {
                                items@
                            } else {
                                before.output@
                            },
                            _ => before.output@,
                        })
                    },
                    None => self.usage == before.usage && self.output@ == before.output@,
                }
            },
            EventKind::Incomplete => {
                &&& self.unchanged_but_bytes(before)
                &&& step matches StreamStep::Fail(StreamFault::Incomplete(s)) && s@ == reason_of(event)
            },
            EventKind::Failed => {
                &&& self.unchanged_but_bytes(before)
                &&& step matches StreamStep::Fail(StreamFault::Failed(s)) && s@ == reason_of(event)
            },
            EventKind::Error => {
                &&& self.unchanged_but_bytes(before)
                &&& step matches StreamStep::Fail(StreamFault::Error(s)) && s@ == reason_of(event)
            },
            EventKind::Other => self.unchanged_but_bytes(before) && step is Continue,
        }
    }

    /// An answer of which nothing has been read.
    pub fn new() -> (r: Self)
        ensures
            r.bytes == 0,
            r.output@.len() == 0,
            r.text@.len() == 0,
            r.usage is None,
            !r.completed,
    {
        StreamReader {
            bytes: 0,
            output: Vec::new(),
            text: String::new(),
            usage: None,
            completed: false,
        }
    }

    /// Takes in the next event. `parsed` is what its data holds, where it is JSON.
    pub fn on_event(&mut self, data: &str, parsed: Option<ParsedEvent>) -> (step: StreamStep)
        ensures
            final(self).bytes == bytes_after(old(self).bytes, data@),
            final(self).bytes > MAX_STREAM_BYTES ==> {
                &&& step matches StreamStep::Fail(StreamFault::TooLong)
                &&& final(self).unchanged_but_bytes(*old(self))
            },
            final(self).bytes <= MAX_STREAM_BYTES && is_empty_event(data@) ==> {
                &&& step is Continue
                &&& final(self).unchanged_but_bytes(*old(self))
            },
            final(self).bytes <= MAX_STREAM_BYTES && !is_empty_event(data@) ==> match parsed {
                None => {
                    &&& step matches StreamStep::Fail(StreamFault::InvalidJson)
                    &&& final(self).unchanged_but_bytes(*old(self))
                },
                Some(event) => final(self).takes(*old(self), event, step),
            },
    {
        self.bytes = counts::capped_sum(self.bytes, text::byte_len(data));
        if self.bytes > MAX_STREAM_BYTES {
            return StreamStep::Fail(StreamFault::TooLong);
        }
        if text::same(data, "[DONE]") || text::blank(data) {
            return StreamStep::Continue;
        }
        let event = match parsed {
            Some(event) => event,
            None => return StreamStep::Fail(StreamFault::InvalidJson),
        };
        let kind: EventKind = match event.value.get_str("type") {
            Some(name) => classify(name),
            None => {
                proof {
                    reveal_strlit("");
                    assert(""@ =~= Seq::<char>::empty());
                }
                classify("")
            },
        };
        match kind {
            EventKind::TextDelta => {
                match event.value.get_str("delta") {
                    Some(delta) => {
                        self.text.append(delta);
                        StreamStep::Publish(Delta::Text(delta.to_owned()))
                    },
                    None => StreamStep::Continue,
                }
            },
            EventKind::ReasoningDelta => {
                match event.value.get_str("delta") {
                    Some(delta) => StreamStep::Publish(Delta::Reasoning(delta.to_owned())),
                    None => StreamStep::Continue,
                }
            },
            EventKind::Item => {
                match event.value.take("item") {
                    Some(item) => {
                        self.output.push(item);
                    },
                    None => {},
                }
                StreamStep::Continue
            },
            EventKind::Completed => {
                match event.value.take("response") {
                    Some(response) => {
                        let usage = parse_usage(response.get("usage"));
                        if usage.is_some() {
                            self.usage = usage;
                        }
                        if self.output.len() == 0 {
                            match response.take("output") {
                                Some(Json::Array(items)) => {
                                    self.output = items;
                                },
                                _ => {},
                            }
                        }
                    },
                    None => {},
                }
                self.completed = true;
                StreamStep::Done
            },
            EventKind::Incomplete => StreamStep::Fail(
                StreamFault::Incomplete(provider_error(&event)),
            ),
            EventKind::Failed => StreamStep::Fail(StreamFault::Failed(provider_error(&event))),
            EventKind::Error => StreamStep::Fail(StreamFault::Error(provider_error(&event))),
            EventKind::Other => StreamStep::Continue,
        }
    }

    /// The answer at the end of its stream. Where no text arrived piece by piece, the text of the
    /// messages is the answer's, and is still to be shown.
    pub fn finish(self) -> (r: Result<Finished, StreamFault>)
        ensures
            !self.completed ==> r matches Err(StreamFault::Unfinished),
            self.completed ==> r is Ok,
            r matches Ok(done) ==> {
                let whole = if self.text@.len() > 0 {
                    self.text@
                } else {
                    message_text(self.output@)
                };
                &&& done.turn.output == self.output
                &&& done.turn.usage == self.usage
                &&& done.turn.text@ == whole
                &&& done.turn.calls@.len() == calls_of(self.output@).len()
                &&& forall|i: int|
                    0 <= i < done.turn.calls@.len() ==> (#[trigger] done.turn.calls@[i]).texts()
                        == calls_of(self.output@)[i]
                &&& match done.delta {
                    Some(Delta::Text(s)) => self.text@.len() == 0 && s@ == whole && whole.len() > 0,
                    Some(Delta::Reasoning(_)) => false,
                    None => self.text@.len() > 0 || whole.len() == 0,
                }
            },
    {
        if !self.completed {
            return Err(StreamFault::Unfinished);
        }
        let StreamReader { bytes: _, output, text, usage, completed: _ } = self;
        let mut text = text;
        let mut delta: Option<Delta> = None;
        if text.as_str().is_empty() {
            text = output_text(&output);
            if !text.as_str().is_empty() {
                delta = Some(Delta::Text(text.clone()));
            }
        }
        let calls = tool_calls(&output);
        Ok(Finished { turn: Turn { output, calls, text, usage }, delta })
    }
}

// ---------------------------------------------------------------------------------------------
// Laws
// ---------------------------------------------------------------------------------------------

/// One item more of an answer. A message adds the text of its parts, behind what was there; any other
/// item adds no text. A call that names an id for the first time, and is whole, is one call more,
/// with its id, name and arguments; any other item adds no call.
pub proof fn lemma_an_item_more(output: Seq<Json>, item: Json)
    ensures
        message_text(Seq::empty()).len() == 0,
        calls_of(Seq::empty()).len() == 0,
        item.field_text("type"@) == Some("message"@) && item.field("content"@) is Some ==> (
        item.field("content"@)->0 matches Json::Array(parts) ==> message_text(output.push(item))
            == message_text(output) + content_text(parts@)),
        item.field_text("type"@) != Some("message"@) ==> message_text(output.push(item))
            == message_text(output),
        item.field_text("type"@) == Some("function_call"@) && item.field_text("call_id"@) is Some
            && item.field_text("name"@) is Some && item.field_text("arguments"@) is Some && (forall|
            i: int,
        |
            0 <= i < output.len() && (#[trigger] output[i]).field_text("type"@) == Some(
                "function_call"@,
            ) ==> output[i].field_text("call_id"@) != item.field_text("call_id"@)) ==> calls_of(
            output.push(item),
        ) == calls_of(output).push(
            (
                item.field_text("call_id"@)->0,
                item.field_text("name"@)->0,
                item.field_text("arguments"@)->0,
            ),
        ),
        item.field_text("type"@) != Some("function_call"@) || item.field_text("call_id"@) is None
            || item.field_text("name"@) is None || item.field_text("arguments"@) is None || (exists|
            i: int,
        |
            0 <= i < output.len() && (#[trigger] output[i]).field_text("type"@) == Some(
                "function_call"@,
            ) && output[i].field_text("call_id"@) == item.field_text("call_id"@)) ==> calls_of(
            output.push(item),
        ) == calls_of(output),
{
    assert(output.push(item).drop_last() =~= output);
    if item.field_text("call_id"@) is Some {
        lemma_call_ids(output, item.field_text("call_id"@)->0);
    }
}

proof fn lemma_call_ids(output: Seq<Json>, id: Seq<char>)
    ensures
        call_ids(output).contains(id) <==> exists|i: int|
            0 <= i < output.len() && (#[trigger] output[i]).field_text("type"@) == Some(
                "function_call"@,
            ) && output[i].field_text("call_id"@) == Some(id),
    decreases output.len(),
{
    if output.len() > 0 {
        let head = output.drop_last();
        lemma_call_ids(head, id);
        if call_ids(head).contains(id) {
            let i = choose|i: int|
                0 <= i < head.len() && (#[trigger] head[i]).field_text("type"@) == Some(
                    "function_call"@,
                ) && head[i].field_text("call_id"@) == Some(id);
            assert(output[i] == head[i]);
        }
        if exists|i: int|
            0 <= i < output.len() && (#[trigger] output[i]).field_text("type"@) == Some(
                "function_call"@,
            ) && output[i].field_text("call_id"@) == Some(id) {
            let i = choose|i: int|
                0 <= i < output.len() && (#[trigger] output[i]).field_text("type"@) == Some(
                    "function_call"@,
                ) && output[i].field_text("call_id"@) == Some(id);
            if i < head.len() {
                assert(head[i] == output[i]);
            }
        }
        assert(output[output.len() - 1] == output.last());
    }
}

/// One part more of a message: a part that is output text adds its text, behind what was there, and
/// any other part adds nothing.
pub proof fn lemma_a_part_more(parts: Seq<Json>, part: Json)
    ensures
        content_text(Seq::empty()).len() == 0,
        part.field_text("type"@) == Some("output_text"@) && part.field_text("text"@) is Some
            ==> content_text(parts.push(part)) == content_text(parts) + part.field_text(
            "text"@,
        )->0,
        part.field_text("type"@) != Some("output_text"@) || part.field_text("text"@) is None
            ==> content_text(parts.push(part)) == content_text(parts),
{
    assert(parts.push(part).drop_last() =~= parts);
}

/// What an answer cost is what the service says of it: without a count of its input nothing is known,
/// and any other count that is not given is zero.
pub proof fn lemma_usage(usage: Json)
    ensures
        usage_of(None) is None,
        usage.field_count("input_tokens"@) is None <==> usage_of(Some(usage)) is None,
        usage_of(Some(usage)) matches Some(u) ==> {
            &&& usage.field_count("input_tokens"@) == Some(u.input_tokens)
            &&& usage.field_count("output_tokens"@) == Some(u.output_tokens) || usage.field_count(
                "output_tokens"@,
            ) is None && u.output_tokens == 0
            &&& usage.field("input_tokens_details"@) is None ==> u.cached_input_tokens == 0
            &&& usage.field("input_tokens_details"@) matches Some(d) ==> d.field_count(
                "cached_tokens"@,
            ) == Some(u.cached_input_tokens) || d.field_count("cached_tokens"@) is None
                && u.cached_input_tokens == 0
            &&& usage.field("reasoning"@) is None ==> u.reasoning_tokens == 0
            &&& usage.field("reasoning"@) matches Some(d) ==> d.field_count("total_tokens"@) == Some(
                u.reasoning_tokens,
            ) || d.field_count("total_tokens"@) is None && u.reasoning_tokens == 0
        },
{
}

/// What is shown of a failure is the reason that the service gives, on the event or on its error, and
/// the whole event where it gives none.
pub proof fn lemma_reason(event: ParsedEvent)
    ensures
        event.value.field("message"@) matches Some(Json::Text(s)) ==> reason_of(event) == s@,
        event.value.field("message"@) is None ==> (event.value.field("error"@) matches Some(error)
            ==> (error.field("message"@) matches Some(Json::Text(s)) ==> reason_of(event) == s@)),
        event.value.field("message"@) is None && event.value.field("error"@) is None ==> reason_of(
            event,
        ) == event.rendered@,
{
}

/// The text of an answer is what was shown of it: after a piece of text has arrived, the text is what
/// it was with the piece behind it, and the piece is shown; pieces of reasoning are shown and are no
/// part of the text.
pub proof fn lemma_text_grows_by_what_is_shown(
    before: StreamReader,
    after: StreamReader,
    event: ParsedEvent,
    step: StreamStep,
)
    requires
        after.takes(before, event, step),
    ensures
        step matches StreamStep::Publish(Delta::Text(s)) ==> after.text@ == before.text@ + s@,
        !(step matches StreamStep::Publish(Delta::Text(_))) ==> after.text@ == before.text@,
        step is Done <==> (event.value.field_text("type"@) == Some("response.completed"@)
            || event.value.field_text("type"@) == Some("response.done"@)),
        step is Done ==> after.completed,
        !(step is Done) ==> after.completed == before.completed,
        event.value.field_text("type"@) == Some("response.output_text.delta"@)
            && event.value.field_text("delta"@) is Some ==> (step matches StreamStep::Publish(
            Delta::Text(s),
        ) && s@ == event.value.field_text("delta"@)->0),
        event.value.field_text("type"@) == Some("response.output_item.done"@) && event.value.field(
            "item"@,
        ) is Some ==> after.output@ == before.output@.push(event.value.field("item"@)->0),
        event.value.field_text("type"@) == Some("response.failed"@) || event.value.field_text(
            "type"@,
        ) == Some("response.incomplete"@) || event.value.field_text("type"@) == Some("error"@)
            ==> step is Fail,
        step is Fail ==> event.value.field_text("type"@) == Some("response.failed"@)
            || event.value.field_text("type"@) == Some("response.incomplete"@)
            || event.value.field_text("type"@) == Some("error"@),
{
    lemma_event_names();
}

/// The names of the events differ, and none is empty.
proof fn lemma_event_names()
    ensures
        "response.output_text.delta"@.len() == 26,
        "response.reasoning_summary_text.delta"@.len() == 37,
        "response.reasoning_text.delta"@.len() == 29,
        "response.output_item.done"@.len() == 25,
        "response.completed"@.len() == 18,
        "response.done"@.len() == 13,
        "response.incomplete"@.len() == 19,
        "response.failed"@.len() == 15,
        "error"@.len() == 5,
{
    reveal_strlit("response.output_text.delta");
    reveal_strlit("response.reasoning_summary_text.delta");
    reveal_strlit("response.reasoning_text.delta");
    reveal_strlit("response.output_item.done");
    reveal_strlit("response.completed");
    reveal_strlit("response.done");
    reveal_strlit("response.incomplete");
    reveal_strlit("response.failed");
    reveal_strlit("error");
}

/// An answer that is complete has the counts that came with it, and the items that came one by one;
/// only where none came does it have those of its end. Pieces of reasoning are shown as such. An
/// event of any other type is passed over.
pub proof fn lemma_what_completes_an_answer(
    before: StreamReader,
    after: StreamReader,
    event: ParsedEvent,
    step: StreamStep,
    response: Json,
    items: Vec<Json>,
)
    requires
        after.takes(before, event, step),
    ensures
        step is Done && event.value.field("response"@) == Some(response) ==> (usage_of(
            response.field("usage"@),
        ) is Some ==> after.usage == usage_of(response.field("usage"@))) && (usage_of(
            response.field("usage"@),
        ) is None ==> after.usage == before.usage) && (before.output@.len() > 0 ==> after.output@
            == before.output@) && (before.output@.len() == 0 && response.field("output"@) == Some(
            Json::Array(items),
        ) ==> after.output@ == items@),
        step is Done && event.value.field("response"@) is None ==> after.usage == before.usage
            && after.output@ == before.output@,
        !(step is Done) ==> after.usage == before.usage,
        (event.value.field_text("type"@) == Some("response.reasoning_summary_text.delta"@)
            || event.value.field_text("type"@) == Some("response.reasoning_text.delta"@))
            && event.value.field_text("delta"@) is Some ==> (step matches StreamStep::Publish(
            Delta::Reasoning(s),
        ) && s@ == event.value.field_text("delta"@)->0),
        step matches StreamStep::Publish(Delta::Reasoning(s)) ==> event.value.field_text("type"@)
            == Some("response.reasoning_summary_text.delta"@) || event.value.field_text("type"@)
            == Some("response.reasoning_text.delta"@),
        step matches StreamStep::Fail(StreamFault::Incomplete(s)) ==> event.value.field_text(
            "type"@,
        ) == Some("response.incomplete"@) && s@ == reason_of(event),
        step matches StreamStep::Fail(StreamFault::Failed(s)) ==> event.value.field_text("type"@)
            == Some("response.failed"@) && s@ == reason_of(event),
        step matches StreamStep::Fail(StreamFault::Error(s)) ==> event.value.field_text("type"@)
            == Some("error"@) && s@ == reason_of(event),
        event.value.field_text("type"@) is None ==> step is Continue && after.output
            == before.output,
{
    lemma_event_names();
}

/// An event without anything but blanks, and the mark at the end, are passed over; the bytes of the
/// others add up.
pub proof fn lemma_events_that_count(data: Seq<char>, bytes: usize)
    ensures
        is_empty_event(data) <==> data == "[DONE]"@ || forall|i: int|
            0 <= i < data.len() ==> text::is_whitespace(#[trigger] data[i]),
        bytes + vstd::utf8::encode_utf8(data).len() <= usize::MAX ==> bytes_after(bytes, data)
            == bytes + vstd::utf8::encode_utf8(data).len(),
{
}

} // verus!
