use koharu::command::{
    attribute_role, classify, host_state_field_name, plan_command, route_module_path,
    to_pascal_case, Argument, Arguments, AttributeRole, CommandFault, HttpSource, OkType,
    ParamClass, PayloadForm, ProtocolResult, Reply, TypeShape,
};

fn path(name: &str) -> TypeShape {
    TypeShape::Path {
        name: name.to_owned(),
        arguments: Arguments::Absent,
    }
}

fn of(name: &str, inner: TypeShape) -> TypeShape {
    TypeShape::Path {
        name: name.to_owned(),
        arguments: Arguments::Angle(Some(Box::new(inner))),
    }
}

fn named(name: &str, ty: TypeShape) -> Argument {
    Argument::Named {
        name: name.to_owned(),
        mutable: false,
        ty,
    }
}

#[test]
fn parameters_are_told_apart_by_their_types() {
    let class = |ty: TypeShape| classify(&ty).map(|classified| classified.class);
    assert_eq!(class(path("Pipeline")), Some(ParamClass::State));
    assert_eq!(class(path("Host")), Some(ParamClass::State));
    assert_eq!(class(path("JobChannel")), Some(ParamClass::State));
    assert_eq!(
        class(of("Channel", path("Job"))),
        Some(ParamClass::Channel)
    );
    assert_eq!(
        class(of("WebviewWindow", path("CefRuntime"))),
        Some(ParamClass::Window)
    );
    assert_eq!(class(path("String")), Some(ParamClass::Payload));
    assert_eq!(class(TypeShape::Other), Some(ParamClass::Payload));
    assert_eq!(class(path("AppHandle")), None);
    let wrapped = TypeShape::Wrapped(Box::new(path("Desktop")));
    assert_eq!(class(wrapped), Some(ParamClass::State));
    let optional = classify(&of("Option", path("WebviewWindow"))).unwrap();
    assert_eq!(optional.class, ParamClass::Window);
    assert!(optional.window_already_option);
}

#[test]
fn states_are_fields_of_the_host() {
    assert_eq!(host_state_field_name("CurrentProject"), Some("project"));
    assert_eq!(host_state_field_name("AgentState"), Some("state"));
    assert_eq!(
        host_state_field_name("ProjectChannel"),
        Some("project_channel")
    );
    assert_eq!(host_state_field_name("Host"), None);
}

#[test]
fn a_posted_command_is_planned() {
    let arguments = vec![
        named("pipeline", path("Pipeline")),
        named("host", path("Host")),
        named("window", of("WebviewWindow", path("CefRuntime"))),
        named("on_event", of("Channel", path("LoginEvent"))),
        named("scope", path("Scope")),
    ];
    let output = Some(of("Result", path("JobId")));
    let plan = match plan_command(false, "login_agent", &arguments, &output) {
        Ok(plan) => plan,
        Err(_) => panic!("planned"),
    };
    assert!(!plan.socket);
    assert_eq!(plan.payload_name, "LoginAgentPayload");
    assert_eq!(plan.private_name, "__login_agent");
    assert_eq!(plan.http_name, "login_agent_http");
    assert_eq!(plan.route_name, "__login_agent_route");
    assert_eq!(plan.path, "/rpc/login_agent");
    assert!(matches!(
        plan.params[0].source,
        HttpSource::Field("pipeline")
    ));
    assert!(matches!(plan.params[1].source, HttpSource::Host));
    assert!(matches!(plan.params[2].source, HttpSource::Window));
    assert!(plan.params[2].made_optional);
    assert!(matches!(plan.params[3].source, HttpSource::NamedChannel));
    assert!(plan.params[3].in_protocol() && !plan.params[3].in_payload());
    assert!(matches!(plan.params[4].source, HttpSource::Payload));
    assert!(plan.params[4].in_protocol() && plan.params[4].in_payload());
    assert_eq!(plan.payload, PayloadForm::Json);
    assert_eq!(plan.ok, OkType::Argument);
    assert_eq!(plan.reply, Reply::Json);
    assert_eq!(
        plan.protocol_result,
        ProtocolResult::Success(OkType::Argument)
    );
}

#[test]
fn subscribing_opens_a_socket() {
    let arguments = vec![
        named("on_job", of("Channel", path("Job"))),
        named("token", path("String")),
    ];
    let plan = plan_command(
        false,
        "subscribe",
        &arguments,
        &Some(of("Result", path("StartupState"))),
    )
    .unwrap();
    assert!(plan.socket);
    assert!(matches!(plan.params[0].source, HttpSource::SocketChannel));
    assert_eq!(plan.payload, PayloadForm::Query);
    assert_eq!(plan.reply, Reply::Socket);
}

#[test]
fn replies_follow_the_result() {
    let plan = |name: &str, arguments: Vec<Argument>, output: Option<TypeShape>| {
        match plan_command(false, name, &arguments, &output) {
            Ok(plan) => plan,
            Err(_) => panic!("planned"),
        }
    };
    let bytes = plan(
        "get_thumbnail",
        vec![],
        Some(of("Result", path("ThumbnailBytes"))),
    );
    assert_eq!(bytes.reply, Reply::Bytes);
    assert_eq!(bytes.payload, PayloadForm::Absent);
    let file = plan(
        "export",
        vec![named("paths", path("Vec"))],
        Some(of("Result", of("Option", path("ExportBytes")))),
    );
    assert_eq!(file.reply, Reply::OptionalFile);
    assert_eq!(file.protocol_result, ProtocolResult::Unit);
    assert_eq!(file.payload, PayloadForm::JsonOrMultipart);
    let nothing = plan("stop", vec![], None);
    assert_eq!(nothing.reply, Reply::Json);
    assert_eq!(nothing.ok, OkType::Absent);
    assert_eq!(nothing.protocol_result, ProtocolResult::AsWritten);
    let plain = plan("ping", vec![], Some(path("String")));
    assert_eq!(plain.ok, OkType::Written);
    let bare = plan("bare", vec![], Some(path("Result")));
    assert_eq!(bare.ok, OkType::Written);
}

#[test]
fn each_fault_of_a_command_is_named() {
    let fault = |attributes: bool, arguments: Vec<Argument>| {
        let found = plan_command(attributes, "x", &arguments, &None).unwrap_err();
        (found, found.message(&arguments))
    };
    assert_eq!(
        fault(true, vec![Argument::Receiver]),
        (
            CommandFault::Attributes,
            "#[command] does not take attributes".to_owned()
        )
    );
    assert_eq!(
        fault(false, vec![Argument::Receiver]).0,
        CommandFault::Receiver(0)
    );
    assert_eq!(
        fault(false, vec![named("a", path("String")), Argument::Unnamed]).0,
        CommandFault::Unnamed(1)
    );
    assert_eq!(
        fault(
            false,
            vec![
                named("c", path("OtherChannel")),
                named("a", path("AppHandle"))
            ]
        )
        .0,
        CommandFault::AppHandle(1)
    );
    assert_eq!(
        fault(false, vec![named("c", path("OtherChannel"))]),
        (
            CommandFault::UnknownState(0),
            "unknown Host state type `OtherChannel`".to_owned()
        )
    );
}

#[test]
fn names_are_made_of_names() {
    assert_eq!(to_pascal_case("get_agent_status"), "GetAgentStatus");
    assert_eq!(to_pascal_case("_x__y"), "XY");
    assert_eq!(to_pascal_case("ßa"), "SSa");
    assert_eq!(
        route_module_path(vec!["agent".to_owned(), "run_agent".to_owned()]),
        vec!["agent", "__run_agent_route"]
    );
    assert_eq!(
        attribute_role(&vec!["doc".to_owned()], false),
        AttributeRole::Doc
    );
    assert_eq!(
        attribute_role(&vec!["command".to_owned()], true),
        AttributeRole::Marker
    );
    assert_eq!(
        attribute_role(&vec!["tracing".to_owned(), "instrument".to_owned()], false),
        AttributeRole::Body
    );
}
