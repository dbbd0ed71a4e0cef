use koharu::codex::model::Reasoning;
use koharu::codex::protocol::{
    function_output, message, project_context, Request, ToolImage,
};
use koharu::codex::retry::{
    backoff, is_transient_error, is_transient_status, is_unauthorized, next_step, retry_after,
    should_retry, shown_body, Failure, NextStep, Reply,
};
use koharu::codex::stream::{
    output_text, parse_usage, tool_calls, Delta, ParsedEvent, StreamFault, StreamReader, StreamStep,
};
use koharu::json::{member, Json};

fn object(members: Vec<(&str, Json)>) -> Json {
    Json::Object(
        members
            .into_iter()
            .map(|(key, value)| member(key, value))
            .collect(),
    )
}

fn string(text: &str) -> Json {
    Json::Text(text.to_owned())
}

fn other(message: &str) -> Failure {
    Failure {
        transport: false,
        message: message.to_owned(),
    }
}

#[test]
fn retries_only_transient_failures_with_a_fixed_limit() {
    assert!(is_transient_error(&other(
        "connection reset by peer (os error 10054)"
    )));
    assert!(!is_transient_error(&other("invalid request")));
    assert!(should_retry(0, true));
    assert!(should_retry(1, true));
    assert!(!should_retry(2, true));
    assert!(!should_retry(0, false));
}

#[test]
fn retries_only_supported_http_statuses() {
    for status in [429, 500, 502, 503, 504] {
        assert!(is_transient_status(status));
    }
    for status in [400, 401, 403, 404] {
        assert!(!is_transient_status(status));
    }
}

#[test]
fn waits_follow_the_service_or_double() {
    assert_eq!(retry_after(Some("7")), Some(7));
    assert_eq!(retry_after(Some("600")), Some(60));
    assert_eq!(retry_after(Some("soon")), None);
    assert_eq!(retry_after(None), None);
    assert!(backoff(1) >= backoff(0));
    let refused = Reply::Refused {
        status: 503,
        retry_after: Some(9),
    };
    assert!(matches!(
        next_step(0, &refused),
        NextStep::Retry { after_secs: 9 }
    ));
    assert!(matches!(next_step(2, &refused), NextStep::GiveUp));
    let failed = Reply::Failed(other("connection reset by peer"));
    match next_step(1, &failed) {
        NextStep::Retry { after_secs } => assert_eq!(after_secs, backoff(1)),
        _ => panic!("retry"),
    }
    assert!(matches!(
        next_step(0, &Reply::Failed(other("invalid request"))),
        NextStep::GiveUp
    ));
    let denied = Reply::Refused {
        status: 404,
        retry_after: None,
    };
    assert!(matches!(next_step(0, &denied), NextStep::GiveUp));
    assert!(matches!(next_step(0, &Reply::Answered), NextStep::Done));
    assert!(is_unauthorized(401));
    assert!(!is_unauthorized(403));
}

#[test]
fn long_refusals_are_cut() {
    assert_eq!(shown_body("short".to_owned()), "short");
    assert_eq!(shown_body("x".repeat(20_000)).len(), 16 * 1024);
}

#[test]
fn structured_output_lives_in_text_format() {
    let schema = object(vec![("type", string("object"))]);
    let request = Request::new(
        "codex".to_owned(),
        "instructions".to_owned(),
        Vec::new(),
        Vec::new(),
        Reasoning::Low,
        "session".to_owned(),
    )
    .with_json_schema(Some(schema), "review_response");
    assert_eq!(request.text.verbosity, "low");
    let format = request.text.format.as_ref().unwrap();
    assert_eq!(format.kind, "json_schema");
    assert_eq!(format.name, "review_response");
    assert!(format.strict);
    assert_eq!(format.schema.get_str("type"), Some("object"));
    assert_eq!(request.instructions, "instructions");
    assert_eq!(request.reasoning.effort, "low");
    assert!(request.tools.is_empty());
}

#[test]
fn plain_request_has_no_text_format() {
    let request = Request::new(
        "codex".to_owned(),
        "i".to_owned(),
        Vec::new(),
        Vec::new(),
        Reasoning::High,
        "s".to_owned(),
    );
    assert!(request.text.format.is_none());
    assert_eq!(request.text.verbosity, "low");
    assert_eq!(request.reasoning.effort, "high");
}

#[test]
fn messages_have_their_shape() {
    let said = message("assistant", "done");
    assert_eq!(said.get_str("role"), Some("assistant"));
    let context = project_context("data");
    assert!(context.get_str("role").is_some());
    let output = function_output(
        "call-1",
        "result",
        &vec![ToolImage {
            label: "page".to_owned(),
            data_url: "data:image/png;base64,AA==".to_owned(),
        }],
    );
    assert_eq!(output.get_str("call_id"), Some("call-1"));
}

fn event(kind: &str, rest: Vec<(&str, Json)>) -> Option<ParsedEvent> {
    let mut members = vec![("type", string(kind))];
    members.extend(rest);
    Some(ParsedEvent {
        value: object(members),
        rendered: format!("<{kind}>"),
    })
}

#[test]
fn a_turn_is_read_event_by_event() {
    let mut reader = StreamReader::new();
    let step = reader.on_event(
        "1",
        event("response.output_text.delta", vec![("delta", string("Hel"))]),
    );
    assert!(matches!(step, StreamStep::Publish(Delta::Text(text)) if text == "Hel"));
    let step = reader.on_event(
        "2",
        event("response.output_text.delta", vec![("delta", string("lo"))]),
    );
    assert!(matches!(step, StreamStep::Publish(Delta::Text(_))));
    let item = object(vec![
        ("type", string("function_call")),
        ("call_id", string("c1")),
        ("name", string("review")),
        ("arguments", string("{}")),
    ]);
    let step = reader.on_event(
        "3",
        event("response.output_item.done", vec![("item", item)]),
    );
    assert!(matches!(step, StreamStep::Continue));
    let usage = object(vec![
        ("input_tokens", Json::Unsigned(12)),
        ("output_tokens", Json::Unsigned(3)),
    ]);
    let response = object(vec![("usage", usage)]);
    let step = reader.on_event(
        "4",
        event("response.completed", vec![("response", response)]),
    );
    assert!(matches!(step, StreamStep::Done));
    let finished = match reader.finish() {
        Ok(finished) => finished,
        Err(_) => panic!("finished"),
    };
    assert_eq!(finished.turn.text, "Hello");
    assert_eq!(finished.turn.calls.len(), 1);
    assert_eq!(finished.turn.calls[0].name, "review");
    let usage = finished.turn.usage.unwrap();
    assert_eq!(usage.input_tokens, 12);
    assert_eq!(usage.output_tokens, 3);
}

#[test]
fn each_stream_fault_is_told_apart() {
    let mut reader = StreamReader::new();
    assert!(matches!(
        reader.on_event("not json", None),
        StreamStep::Fail(StreamFault::InvalidJson)
    ));

    let mut reader = StreamReader::new();
    let long = "x".repeat(16 * 1024 * 1024 + 1);
    assert!(matches!(
        reader.on_event(&long, None),
        StreamStep::Fail(StreamFault::TooLong)
    ));

    for (kind, expected) in [
        ("response.incomplete", 0),
        ("response.failed", 1),
        ("error", 2),
    ] {
        let mut reader = StreamReader::new();
        let step = reader.on_event("x", event(kind, vec![("message", string("why"))]));
        let found = match step {
            StreamStep::Fail(StreamFault::Incomplete(_)) => 0,
            StreamStep::Fail(StreamFault::Failed(_)) => 1,
            StreamStep::Fail(StreamFault::Error(_)) => 2,
            _ => 9,
        };
        assert_eq!(found, expected);
    }

    let reader = StreamReader::new();
    assert!(matches!(reader.finish(), Err(StreamFault::Unfinished)));
    assert!(!StreamFault::Unfinished.message().is_empty());
}

#[test]
fn usage_needs_its_counts() {
    assert!(parse_usage(None).is_none());
    let items = vec![object(vec![
        ("type", string("message")),
        (
            "content",
            Json::Array(vec![object(vec![
                ("type", string("output_text")),
                ("text", string("whole")),
            ])]),
        ),
    ])];
    assert_eq!(output_text(&items), "whole");
    assert!(tool_calls(&items).is_empty());
}
