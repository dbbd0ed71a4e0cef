//! Requests to the service.
use crate::codex::model::Reasoning;
use crate::json::{member, Json, Member};
use crate::text;
use vstd::prelude::*;

verus! {

/// A tool that a model may call.
pub struct Tool {
    pub name: String,
    pub description: String,
    pub parameters: Json,
}

/// A picture that goes with the result of a tool.
pub struct ToolImage {
    pub label: String,
    pub data_url: String,
}

/// A request to the service.
pub struct Request {
    pub model: String,
    pub instructions: String,
    pub input: Vec<Json>,
    pub tools: Vec<Tool>,
    pub tool_choice: &'static str,
    pub parallel_tool_calls: bool,
    pub reasoning: ReasoningOptions,
    pub text: TextOptions,
    pub included: Vec<&'static str>,
    pub stream: bool,
    pub store: bool,
    pub prompt_cache_key: String,
}

pub struct ReasoningOptions {
    pub effort: &'static str,
    pub summary: &'static str,
}

pub struct TextOptions {
    pub verbosity: &'static str,
    pub format: Option<TextFormat>,
}

/// The form that the service has to give its answer. It belongs under the options of the text.
pub struct TextFormat {
    pub kind: &'static str,
    pub name: &'static str,
    pub strict: bool,
    pub schema: Json,
}

impl Reasoning {
    pub open spec fn spec_name(self) -> Seq<char> {
        match self {
            Reasoning::Low => "low"@,
            Reasoning::Medium => "medium"@,
            Reasoning::High => "high"@,
            Reasoning::Xhigh => "xhigh"@,
            Reasoning::Max => "max"@,
            Reasoning::Ultra => "ultra"@,
        }
    }

    /// The effort as the service calls it.
    pub fn as_str(self) -> (r: &'static str)
        ensures
            r@ == self.spec_name(),
    {
        match self {
            Reasoning::Low => "low",
            Reasoning::Medium => "medium",
            Reasoning::High => "high",
            Reasoning::Xhigh => "xhigh",
            Reasoning::Max => "max",
            Reasoning::Ultra => "ultra",
        }
    }
}

impl Request {
    /// A request for plain text, streamed and not kept by the service.
    pub fn new(
        model: String,
        instructions: String,
        input: Vec<Json>,
        tools: Vec<Tool>,
        reasoning: Reasoning,
        session: String,
    ) -> (r: Self)
        ensures
            r.model == model,
            r.instructions == instructions,
            r.input == input,
            r.tools == tools,
            r.tool_choice@ == "auto"@,
            !r.parallel_tool_calls,
            r.reasoning.effort@ == reasoning.spec_name(),
            r.reasoning.summary@ == "auto"@,
            r.text.verbosity@ == "low"@,
            r.text.format is None,
            r.included@.len() == 1,
            r.included@[0]@ == "reasoning.encrypted_content"@,
            r.stream,
            !r.store,
            r.prompt_cache_key == session,
    {
        Request {
            model,
            instructions,
            input,
            tools,
            tool_choice: "auto",
            parallel_tool_calls: false,
            reasoning: ReasoningOptions { effort: reasoning.as_str(), summary: "auto" },
            text: TextOptions { verbosity: "low", format: None },
            included: vec!["reasoning.encrypted_content"],
            stream: true,
            store: false,
            prompt_cache_key: session,
        }
    }

    /// The request with an answer in the form of `schema`, or in plain text without one.
    pub fn with_json_schema(self, schema: Option<Json>, name: &'static str) -> (r: Self)
        ensures
            match (schema, r.text.format) {
                (None, None) => true,
                (Some(schema), Some(format)) => {
                    &&& format.kind@ == "json_schema"@
                    &&& format.name == name
                    &&& format.strict
                    &&& format.schema == schema
                },
                _ => false,
            },
            (Request { text: TextOptions { format: self.text.format, ..r.text }, ..r }) == self,
    {
        let mut request = self;
        request.text.format = match schema {
            Some(schema) => Some(TextFormat { kind: "json_schema", name, strict: true, schema }),
            None => None,
        };
        request
    }
}

/// A part of a message that is text.
pub open spec fn text_part(s: Seq<char>) -> crate::json::Tree {
    crate::json::Tree::Object(
        seq![
            ("type"@, crate::json::Tree::Text("input_text"@)),
            ("text"@, crate::json::Tree::Text(s)),
        ],
    )
}

/// A message of one part.
pub open spec fn message_tree(role: Seq<char>, s: Seq<char>) -> crate::json::Tree {
    crate::json::Tree::Object(
        seq![
            ("type"@, crate::json::Tree::Text("message"@)),
            ("role"@, crate::json::Tree::Text(role)),
            ("content"@, crate::json::Tree::Array(seq![text_part(s)])),
        ],
    )
}

fn text_value(s: &str) -> (r: Json)
    ensures
        r.tree() == text_part(s@),
{
    let members: Vec<Member> = vec![
        member("type", Json::string("input_text")),
        member("text", Json::string(s)),
    ];
    assert(crate::json::member_trees(members@) =~= text_part(s@)->Object_0);
    Json::object(members)
}

/// A message to the model.
pub fn message(role: &str, text: &str) -> (r: Json)
    ensures
        r.tree() == message_tree(role@, text@),
{
    let part = text_value(text);
    let parts: Vec<Json> = vec![part];
    assert(crate::json::trees(parts@) =~= seq![text_part(text@)]);
    let content = Json::array(parts);
    let members: Vec<Member> = vec![
        member("type", Json::string("message")),
        member("role", Json::string(role)),
        member("content", content),
    ];
    assert(crate::json::member_trees(members@) =~= message_tree(role@, text@)->Object_0);
    Json::object(members)
}

/// The message that tells the model of the project, given the project's data as JSON text.
pub fn project_context(data: &str) -> (r: Json)
    ensures
        r.tree() == message_tree(
            "user"@,
            "<koharu_project_context>\n"@ + data@ + "\n</koharu_project_context>"@,
        ),
{
    let mut s = text::joined("<koharu_project_context>\n", data);
    s.append("\n</koharu_project_context>");
    message("user", s.as_str())
}

pub open spec fn image_part(data_url: Seq<char>) -> crate::json::Tree {
    crate::json::Tree::Object(
        seq![
            ("type"@, crate::json::Tree::Text("input_image"@)),
            ("image_url"@, crate::json::Tree::Text(data_url)),
            ("detail"@, crate::json::Tree::Text("high"@)),
        ],
    )
}

/// The text of a result, then each picture behind its label.
pub open spec fn result_parts(output: Seq<char>, images: Seq<ToolImage>) -> Seq<crate::json::Tree>
    decreases images.len(),
{
    if images.len() == 0 {
        seq![text_part(output)]
    } else {
        result_parts(output, images.drop_last()).push(text_part(images.last().label@)).push(
            image_part(images.last().data_url@),
        )
    }
}

/// The result of a tool: its text, or a list of parts where pictures go with it.
pub open spec fn result_tree(
    call_id: Seq<char>,
    output: Seq<char>,
    images: Seq<ToolImage>,
) -> crate::json::Tree {
    crate::json::Tree::Object(
        seq![
            ("type"@, crate::json::Tree::Text("function_call_output"@)),
            ("call_id"@, crate::json::Tree::Text(call_id)),
            (
                "output"@,
                if images.len() == 0 {
                    crate::json::Tree::Text(output)
                } else {
                    crate::json::Tree::Array(result_parts(output, images))
                },
            ),
        ],
    )
}

fn image_value(data_url: &str) -> (r: Json)
    ensures
        r.tree() == image_part(data_url@),
{
    let members: Vec<Member> = vec![
        member("type", Json::string("input_image")),
        member("image_url", Json::string(data_url)),
        member("detail", Json::string("high")),
    ];
    assert(crate::json::member_trees(members@) =~= image_part(data_url@)->Object_0);
    Json::object(members)
}

/// The result of a tool, given its value as JSON text.
pub fn function_output(call_id: &str, output: &str, images: &Vec<ToolImage>) -> (r: Json)
    ensures
        r.tree() == result_tree(call_id@, output@, images@),
{
    let value = if images.len() == 0 {
        Json::string(output)
    } else {
        let first = text_value(output);
        let mut content: Vec<Json> = vec![first];
        let mut i: usize = 0;
        assert(images@.take(0) =~= Seq::empty());
        assert(crate::json::trees(content@) =~= seq![text_part(output@)]);
        while i < images.len()
            invariant
                i <= images@.len(),
                crate::json::trees(content@) == result_parts(output@, images@.take(i as int)),
            decreases images@.len() - i,
        {
            proof {
                assert(images@.take(i + 1).drop_last() =~= images@.take(i as int));
                assert(images@.take(i + 1).last() == images@[i as int]);
            }
            let ghost before = crate::json::trees(content@);
            let label = text_value(images[i].label.as_str());
            content.push(label);
            let image = image_value(images[i].data_url.as_str());
            content.push(image);
            assert(crate::json::trees(content@) =~= before.push(label.tree()).push(image.tree()));
            i += 1;
        }
        assert(images@.take(i as int) =~= images@);
        Json::array(content)
    };
    let members: Vec<Member> = vec![
        member("type", Json::string("function_call_output")),
        member("call_id", Json::string(call_id)),
        member("output", value),
    ];
    assert(crate::json::member_trees(members@) =~= result_tree(
        call_id@,
        output@,
        images@,
    )->Object_0);
    Json::object(members)
}

/// The parts of a result: its text first, then for each picture its label and the picture, in the
/// order of the pictures. Nothing is left out.
pub proof fn lemma_parts_of_a_result(output: Seq<char>, images: Seq<ToolImage>, k: int)
    requires
        0 <= k < images.len(),
    ensures
        result_parts(output, images).len() == 2 * images.len() + 1,
        result_parts(output, images)[0] == text_part(output),
        result_parts(output, images)[2 * k + 1] == text_part(images[k].label@),
        result_parts(output, images)[2 * k + 2] == image_part(images[k].data_url@),
    decreases images.len(),
{
    let head = images.drop_last();
    if head.len() == 0 {
        assert(result_parts(output, head).len() == 1);
    } else if k < head.len() {
        lemma_parts_of_a_result(output, head, k);
    } else {
        lemma_parts_of_a_result(output, head, 0);
    }
}

/// Parts that differ in their text or their picture differ, and no text is a picture; messages that
/// differ in their role or their text differ.
pub proof fn lemma_parts_hold_what_they_are_made_of(a: Seq<char>, b: Seq<char>, role: Seq<char>)
    ensures
        text_part(a) matches crate::json::Tree::Object(members) && members.len() == 2 && members[0]
            == ("type"@, crate::json::Tree::Text("input_text"@)) && members[1] == (
            "text"@,
            crate::json::Tree::Text(a),
        ),
        image_part(a) matches crate::json::Tree::Object(members) && members.len() == 3 && members[0]
            == ("type"@, crate::json::Tree::Text("input_image"@)) && members[1] == (
            "image_url"@,
            crate::json::Tree::Text(a),
        ) && members[2] == ("detail"@, crate::json::Tree::Text("high"@)),
        message_tree(role, a) matches crate::json::Tree::Object(members) && members.len() == 3
            && members[0] == ("type"@, crate::json::Tree::Text("message"@)) && members[1] == (
            "role"@,
            crate::json::Tree::Text(role),
        ) && members[2].0 == "content"@ && (
        members[2].1 matches crate::json::Tree::Array(parts) && parts.len() == 1 && parts[0]
            == text_part(a)),
        text_part(a) == text_part(b) ==> a == b,
        image_part(a) == image_part(b) ==> a == b,
{
    if text_part(a) == text_part(b) {
        assert(text_part(a)->Object_0[1] == text_part(b)->Object_0[1]);
    }
    if image_part(a) == image_part(b) {
        assert(image_part(a)->Object_0[1] == image_part(b)->Object_0[1]);
    }
}

} // verus!
