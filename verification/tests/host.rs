use koharu::agent::{settle_models, AgentFault, AgentSlots, LoginEvent};
use koharu::codex::model::CodexModel;
use koharu::host::form::{assemble_form, field_value, is_multipart, is_upload, FormField};
use koharu::host::socket::{
    complete, envelope, error_envelope, posted_channel, socket_step, SessionSlot, SocketEvent,
    SocketStep,
};
use koharu::host::{
    check_import_paths, disposition_filename, envelope_channel, numbered_name, safe_filename,
    shown_download, DownloadEvent, DownloadState, HttpFile, ParentPath, PathPart,
};
use koharu::ids::RunId;
use koharu::json::Json;
use koharu::linux_cef::{command_line_args, gdk_backend_default};

#[test]
fn envelopes_match_browser_channel_names() {
    assert_eq!(
        envelope_channel("subscribe", "on_canvas").unwrap(),
        "canvas"
    );
    assert_eq!(envelope_channel("subscribe", "on_job").unwrap(), "job");
    assert_eq!(
        envelope_channel("subscribe", "on_download").unwrap(),
        "download"
    );
    assert_eq!(
        envelope_channel("subscribe", "on_resources").unwrap(),
        "resources"
    );
    assert_eq!(
        envelope_channel("subscribe", "on_project").unwrap(),
        "project"
    );
    assert_eq!(
        envelope_channel("login_agent", "on_event").unwrap(),
        "agent_login"
    );
    assert_eq!(
        envelope_channel("run_agent", "on_event").unwrap(),
        "agent_event"
    );
    assert!(envelope_channel("login_agent", "on_canvas").is_err());
}

#[test]
fn unknown_channels_are_named() {
    let error = envelope_channel("login_agent", "on_canvas").unwrap_err();
    assert_eq!(error.0, "unknown channel login_agent/on_canvas");
}

#[test]
fn linux_cef_command_line_args_enable_webgpu_angle_vulkan_and_ozone_x11() {
    let args = command_line_args();
    assert!(
        args.iter().any(|(name, value)| {
            name.trim_start_matches('-') == "enable-unsafe-webgpu" && value.is_none()
        }),
        "missing enable-unsafe-webgpu"
    );
    assert!(
        args.iter().any(|(name, value)| {
            name.trim_start_matches('-') == "use-angle" && *value == Some("vulkan")
        }),
        "missing use-angle=vulkan"
    );
    assert!(
        args.iter().any(|(name, value)| {
            name.trim_start_matches('-') == "ozone-platform" && *value == Some("x11")
        }),
        "missing ozone-platform=x11"
    );
}

#[test]
fn linux_cef_enable_unsafe_webgpu_is_not_a_flag_only_name_without_dash() {
    let args = command_line_args();
    let webgpu = args
        .iter()
        .find(|(name, _)| name.trim_start_matches('-') == "enable-unsafe-webgpu")
        .expect("enable-unsafe-webgpu must be present");
    assert_ne!(
        webgpu.0, "enable-unsafe-webgpu",
        "flag-only names without a leading '-' become append_argument, not append_switch"
    );
    assert!(
        webgpu.0.starts_with('-'),
        "enable-unsafe-webgpu must be passed as a switch name with a leading dash"
    );
    assert!(webgpu.1.is_none());
}

#[test]
fn linux_cef_gdk_helper_does_not_overwrite_existing_gdk_backend() {
    assert_eq!(
        gdk_backend_default(Some("wayland")),
        None,
        "must not override an explicit GDK_BACKEND"
    );
    assert_eq!(
        gdk_backend_default(Some("x11")),
        None,
        "must not override an explicit GDK_BACKEND"
    );
    assert_eq!(gdk_backend_default(None), Some("x11"));
}

#[test]
fn files_are_named_in_a_header() {
    assert_eq!(
        disposition_filename("demo.zip").unwrap(),
        "attachment; filename=\"demo.zip\""
    );
    assert_eq!(
        disposition_filename("a\"b\\c\r\nd").unwrap(),
        "attachment; filename=\"a_b_c__d\""
    );
    assert_eq!(
        disposition_filename("章.zip").unwrap(),
        "attachment; filename=\"章.zip\""
    );
    assert!(disposition_filename("bell\u{7}").is_none());
    assert!(disposition_filename("del\u{7f}").is_none());
    let file = HttpFile {
        bytes: vec![1],
        content_type: "application/zip",
        filename: Some("demo.zip".to_owned()),
    };
    let headers = file.headers();
    assert_eq!(headers.content_type, "application/zip");
    assert_eq!(
        headers.disposition.as_deref(),
        Some("attachment; filename=\"demo.zip\"")
    );
}

#[test]
fn uploads_have_safe_and_free_names() {
    assert_eq!(safe_filename(Some("page.png".to_owned())), "page.png");
    assert_eq!(safe_filename(Some("..".to_owned())), "upload");
    assert_eq!(safe_filename(Some(String::new())), "upload");
    assert_eq!(safe_filename(None), "upload");
    assert_eq!(numbered_name("page", "png", 1), "page-1.png");
    assert_eq!(numbered_name("page", "", 12), "page-12");
    assert_ne!(
        numbered_name("page", "png", 1),
        numbered_name("page", "png", 11)
    );
}

#[test]
fn imports_do_not_lead_upwards() {
    let plain = vec![PathPart::Other, PathPart::Other];
    let upwards = vec![PathPart::Other, PathPart::Parent];
    assert_eq!(check_import_paths(&vec![plain.clone()]), Ok(()));
    assert_eq!(
        check_import_paths(&vec![plain, upwards]),
        Err(ParentPath(1))
    );
}

#[test]
fn downloads_are_shown_as_they_go() {
    let started = shown_download(DownloadEvent::Started {
        id: 3,
        name: "model".to_owned(),
    });
    assert_eq!(started.state, DownloadState::Running);
    assert_eq!(started.name.as_deref(), Some("model"));
    let progress = shown_download(DownloadEvent::Progress {
        id: 3,
        name: "model".to_owned(),
        completed: 5,
        total: 9,
    });
    assert_eq!((progress.completed, progress.total), (5, 9));
    let finished = shown_download(DownloadEvent::Finished { id: 3 });
    assert_eq!(finished.state, DownloadState::Finished);
    assert_eq!(finished.name, None);
    let failed = shown_download(DownloadEvent::Failed {
        id: 3,
        name: "model".to_owned(),
        error: "offline".to_owned(),
    });
    assert_eq!(failed.state, DownloadState::Failed);
    assert_eq!(failed.error.as_deref(), Some("offline"));
}

#[test]
fn a_new_session_takes_the_place_of_the_old() {
    let mut slot = SessionSlot::new();
    assert!(posted_channel(&slot, "login_agent", "on_event")
        .unwrap_err()
        .0
        .contains("no active subscribe session"));
    let (first, none) = slot.begin();
    assert_eq!(none, None);
    let (second, previous) = slot.begin();
    assert_eq!(previous, Some(first));
    slot.end(first);
    assert_eq!(slot.open, Some(second));
    assert_eq!(
        posted_channel(&slot, "login_agent", "on_event").unwrap(),
        "agent_login"
    );
    slot.end(second);
    assert_eq!(slot.open, None);
    assert_eq!(
        posted_channel(&slot, "login_agent", "on_canvas")
            .unwrap_err()
            .0,
        "unknown channel login_agent/on_canvas"
    );
}

#[test]
fn sessions_begin_with_the_state_or_an_error() {
    let sent = envelope("job", Json::Bool(true));
    assert_eq!(sent.get_str("channel"), Some("job"));
    assert!(matches!(sent.get("payload"), Some(Json::Bool(true))));
    let error = error_envelope("broken");
    assert_eq!(error.get_str("channel"), Some("startup"));
    assert_eq!(error.get_str("error"), Some("broken"));
    let start = complete(Ok(Some(Json::Null)));
    assert!(!start.ends);
    assert_eq!(start.message.get_str("channel"), Some("startup"));
    let unwritten = complete(Ok(None));
    assert!(unwritten.ends);
    assert_eq!(
        unwritten.message.get_str("error"),
        Some("failed to serialize startup state")
    );
    let refused = complete(Err("no".to_owned()));
    assert!(refused.ends);
    assert_eq!(refused.message.get_str("error"), Some("no"));
}

#[test]
fn sockets_answer_pings_and_end() {
    assert_eq!(socket_step(SocketEvent::Outbound), SocketStep::SendValue);
    assert_eq!(socket_step(SocketEvent::Ping), SocketStep::SendPong);
    assert_eq!(socket_step(SocketEvent::Sent(true)), SocketStep::Wait);
    assert_eq!(socket_step(SocketEvent::Unwritable), SocketStep::Wait);
    assert_eq!(socket_step(SocketEvent::OtherMessage), SocketStep::Wait);
    for event in [
        SocketEvent::Sent(false),
        SocketEvent::Closed,
        SocketEvent::ReceiveFailed,
        SocketEvent::OutboundClosed,
    ] {
        assert_eq!(socket_step(event), SocketStep::End);
    }
}

#[test]
fn forms_list_their_files_as_paths() {
    assert!(is_multipart("multipart/form-data; boundary=x"));
    assert!(!is_multipart("application/json"));
    assert!(is_upload("files"));
    assert!(!is_upload("source"));
    let text = field_value(None, "files".to_owned());
    assert_eq!(text.as_str(), Some("files"));
    let form = assemble_form(vec![
        FormField::Value {
            name: "source".to_owned(),
            value: Json::Text("old".to_owned()),
        },
        FormField::Upload("/tmp/page.png".to_owned()),
        FormField::Value {
            name: "source".to_owned(),
            value: text,
        },
        FormField::Value {
            name: "paths".to_owned(),
            value: Json::Null,
        },
        FormField::Upload("/tmp/two.png".to_owned()),
    ]);
    assert_eq!(form.len(), 2);
    assert_eq!(form.get("source").unwrap().as_str(), Some("files"));
    let paths = form.get("paths").unwrap().as_array().unwrap();
    assert_eq!(paths.len(), 2);
    assert_eq!(paths[0].as_str(), Some("/tmp/page.png"));
    assert_eq!(paths[1].as_str(), Some("/tmp/two.png"));
    assert!(assemble_form(vec![]).get("paths").is_none());
}

#[test]
fn one_request_and_one_login_at_a_time() {
    let mut slots = AgentSlots::new();
    assert!(slots.idle());
    assert_eq!(slots.begin_login(), Ok(()));
    assert_eq!(slots.begin_login(), Err(AgentFault::LoginRunning));
    slots.end_login();
    assert_eq!(
        slots.begin_run("  ", true, RunId(1)),
        Err(AgentFault::EmptyMessage)
    );
    assert_eq!(
        slots.begin_run("go", false, RunId(1)),
        Err(AgentFault::NotSignedIn)
    );
    assert_eq!(
        slots.begin_run(" go ", true, RunId(1)),
        Ok("go".to_owned())
    );
    assert_eq!(
        slots.begin_run("go", true, RunId(2)),
        Err(AgentFault::AnotherRequest)
    );
    assert_eq!(
        slots.cancel(RunId(2)),
        Err(AgentFault::NotActive(RunId(2)))
    );
    assert_eq!(slots.cancel(RunId(1)), Ok(()));
    slots.end_run(RunId(2));
    assert!(!slots.idle());
    slots.end_run(RunId(1));
    assert!(slots.idle());
    assert!(slots.begin_login().is_ok());
    assert_eq!(slots.cancel_all(), (true, None));
    assert!(slots.idle());
    assert_ne!(RunId::new(), RunId::new());
}

#[test]
fn models_vanish_with_the_account() {
    let models = || {
        vec![CodexModel {
            id: "a".to_owned(),
            name: "A".to_owned(),
            reasoning: Vec::new(),
        }]
    };
    assert_eq!(settle_models(Ok::<_, ()>(models()), true).unwrap().len(), 1);
    assert!(settle_models(Err::<Vec<CodexModel>, _>("x"), false)
        .unwrap()
        .is_empty());
    assert_eq!(
        settle_models(Err::<Vec<CodexModel>, _>("x"), true).unwrap_err(),
        "x"
    );
    let code = LoginEvent::DeviceCode {
        verification_url: "https://example.org".to_owned(),
        user_code: "A".to_owned(),
    };
    assert_eq!(code.page().unwrap(), "https://example.org");
    let progress = LoginEvent::Progress {
        message: "waiting".to_owned(),
    };
    assert!(progress.page().is_none());
}

#[test]
fn faults_of_the_agent_have_their_words() {
    assert_eq!(
        AgentFault::LoginRunning.message(),
        "Codex sign-in is already running"
    );
    assert_eq!(AgentFault::EmptyMessage.message(), "message cannot be empty");
    assert_eq!(AgentFault::NotSignedIn.message(), "Codex is not signed in");
    assert_eq!(
        AgentFault::AnotherRequest.message(),
        "another agent request is already running"
    );
    let run = RunId(0x0123_4567_89ab_cdef_0f1e_2d3c_4b5a_6978);
    assert_eq!(
        AgentFault::NotActive(run).message(),
        "agent run 01234567-89ab-cdef-0f1e-2d3c4b5a6978 is not active"
    );
    let name = uuid::Uuid::from_u128(run.0).to_string();
    assert_eq!(koharu::ids::written_name(run.0), name);
}
