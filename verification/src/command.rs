//! How a command function becomes a call over HTTP: what its parameters are taken from, what it
//! answers, and the names of all that is made for it.
use crate::text;
use vstd::prelude::*;

verus! {

// ---------------------------------------------------------------------------------------------
// Types as they are written
// ---------------------------------------------------------------------------------------------

/// A type as it is written, as far as it decides what a command is.
#[derive(Debug)]
pub enum TypeShape {
    /// A path, by its last segment.
    Path { name: String, arguments: Arguments },
    /// A group, a type in brackets, or a reference.
    Wrapped(Box<TypeShape>),
    /// Any other type.
    Other,
}

/// The arguments of a segment.
#[derive(Debug)]
pub enum Arguments {
    /// There are no angle brackets.
    Absent,
    /// The first type in the angle brackets, if there is one.
    Angle(Option<Box<TypeShape>>),
}

impl TypeShape {
    /// The name of the last segment, seen through groups, brackets and references.
    pub open spec fn label(self) -> Option<Seq<char>>
        decreases self,
    {
        match self {
            TypeShape::Path { name, .. } => Some(name@),
            TypeShape::Wrapped(inner) => inner.label(),
            TypeShape::Other => None,
        }
    }

    /// The type is named `name`.
    pub open spec fn is_named(self, name: Seq<char>) -> bool {
        self.label() == Some(name)
    }

    /// The name of the first type in the angle brackets of a type that is named `wrapper`.
    pub open spec fn peeled_label(self, wrapper: Seq<char>) -> Option<Seq<char>>
        decreases self,
    {
        match self {
            TypeShape::Path { name, arguments } => match arguments {
                Arguments::Angle(Some(inner)) => if name@ == wrapper {
                    inner.label()
                } else {
                    None
                },
                _ => None,
            },
            TypeShape::Wrapped(inner) => inner.peeled_label(wrapper),
            TypeShape::Other => None,
        }
    }

    /// The name of the last segment.
    pub fn last_name(&self) -> (r: Option<&String>)
        ensures
            match r {
                Some(name) => self.label() == Some(name@),
                None => self.label() is None,
            },
        decreases self,
    {
        match self {
            TypeShape::Path { name, .. } => Some(name),
            TypeShape::Wrapped(inner) => inner.last_name(),
            TypeShape::Other => None,
        }
    }

    /// The name of the first type in the angle brackets of a type that is named `wrapper`.
    pub fn peeled_name(&self, wrapper: &str) -> (r: Option<&String>)
        ensures
            match r {
                Some(name) => self.peeled_label(wrapper@) == Some(name@),
                None => self.peeled_label(wrapper@) is None,
            },
        decreases self,
    {
        match self {
            TypeShape::Path { name, arguments } => match arguments {
                Arguments::Angle(Some(inner)) => {
                    if text::same(name.as_str(), wrapper) {
                        inner.last_name()
                    } else {
                        None
                    }
                },
                _ => None,
            },
            TypeShape::Wrapped(inner) => inner.peeled_name(wrapper),
            TypeShape::Other => None,
        }
    }

    fn named(&self, name: &str) -> (r: bool)
        ensures
            r == self.is_named(name@),
    {
        match self.last_name() {
            Some(last) => text::same(last.as_str(), name),
            None => false,
        }
    }
}

// ---------------------------------------------------------------------------------------------
// Parameters
// ---------------------------------------------------------------------------------------------

/// What a parameter is, by the name of its type.
#[derive(Clone, Copy, Debug, PartialEq, Eq, Structural)]
pub enum ParamClass {
    /// A part of the application's state.
    State,
    /// The window, where there is one.
    Window,
    /// A way to send events.
    Channel,
    /// A value that the caller sends.
    Payload,
}

/// A parameter's class, and whether a window is already optional.
#[derive(Clone, Copy, Debug, PartialEq, Eq, Structural)]
pub struct Classified {
    pub class: ParamClass,
    pub window_already_option: bool,
}

/// A type of this name is a part of the application's state.
pub open spec fn names_state(name: Seq<char>) -> bool {
    ||| name == "Pipeline"@
    ||| name == "Desktop"@
    ||| name == "CurrentProject"@
    ||| name == "Processing"@
    ||| name == "AgentState"@
    ||| name == "ProjectLibrary"@
    ||| name == "Initialization"@
    ||| name == "Host"@
    ||| name != "Channel"@ && text::has_suffix(name, "Channel"@)
}

/// Whether a type of this name is a part of the application's state.
pub fn is_state_name(name: &str) -> (r: bool)
    ensures
        r == names_state(name@),
{
    text::same(name, "Pipeline") || text::same(name, "Desktop") || text::same(
        name,
        "CurrentProject",
    ) || text::same(name, "Processing") || text::same(name, "AgentState") || text::same(
        name,
        "ProjectLibrary",
    ) || text::same(name, "Initialization") || text::same(name, "Host") || (!text::same(
        name,
        "Channel",
    ) && text::ends_with(name, "Channel"))
}

/// What a parameter of this type is. `None` stands for the application's handle, which no command can
/// be given.
pub open spec fn class_of(ty: TypeShape) -> Option<Classified> {
    if ty.is_named("AppHandle"@) {
        None
    } else if ty.is_named("WebviewWindow"@) {
        Some(Classified { class: ParamClass::Window, window_already_option: false })
    } else if ty.peeled_label("Option"@) == Some("WebviewWindow"@) {
        Some(Classified { class: ParamClass::Window, window_already_option: true })
    } else if ty.is_named("Channel"@) {
        Some(Classified { class: ParamClass::Channel, window_already_option: false })
    } else if ty.label() is Some && names_state(ty.label()->0) {
        Some(Classified { class: ParamClass::State, window_already_option: false })
    } else {
        Some(Classified { class: ParamClass::Payload, window_already_option: false })
    }
}

/// What a parameter of this type is.
pub fn classify(ty: &TypeShape) -> (r: Option<Classified>)
    ensures
        r == class_of(*ty),
{
    if ty.named("AppHandle") {
        return None;
    }
    if ty.named("WebviewWindow") {
        return Some(Classified { class: ParamClass::Window, window_already_option: false });
    }
    match ty.peeled_name("Option") {
        Some(inner) => {
            if text::same(inner.as_str(), "WebviewWindow") {
                return Some(Classified { class: ParamClass::Window, window_already_option: true });
            }
        },
        None => {},
    }
    if ty.named("Channel") {
        return Some(Classified { class: ParamClass::Channel, window_already_option: false });
    }
    match ty.last_name() {
        Some(name) => {
            if is_state_name(name.as_str()) {
                return Some(Classified { class: ParamClass::State, window_already_option: false });
            }
        },
        None => {},
    }
    Some(Classified { class: ParamClass::Payload, window_already_option: false })
}

/// The part of the host that holds a state of this type.
pub open spec fn host_field(name: Seq<char>) -> Option<Seq<char>> {
    if name == "CurrentProject"@ {
        Some("project"@)
    } else if name == "ProjectLibrary"@ {
        Some("library"@)
    } else if name == "Processing"@ {
        Some("processing"@)
    } else if name == "CanvasChannel"@ {
        Some("canvas"@)
    } else if name == "JobChannel"@ {
        Some("jobs"@)
    } else if name == "DownloadChannel"@ {
        Some("downloads"@)
    } else if name == "ResourceChannel"@ {
        Some("resources"@)
    } else if name == "ProjectChannel"@ {
        Some("project_channel"@)
    } else if name == "Initialization"@ {
        Some("initialization"@)
    } else if name == "Desktop"@ {
        Some("desktop"@)
    } else if name == "AgentState"@ {
        Some("state"@)
    } else if name == "Pipeline"@ {
        Some("pipeline"@)
    } else {
        None
    }
}

/// The part of the host that holds a state of this type.
pub fn host_state_field_name(state: &str) -> (r: Option<&'static str>)
    ensures
        match r {
            Some(field) => host_field(state@) == Some(field@),
            None => host_field(state@) is None,
        },
{
    if text::same(state, "CurrentProject") {
        Some("project")
    } else if text::same(state, "ProjectLibrary") {
        Some("library")
    } else if text::same(state, "Processing") {
        Some("processing")
    } else if text::same(state, "CanvasChannel") {
        Some("canvas")
    } else if text::same(state, "JobChannel") {
        Some("jobs")
    } else if text::same(state, "DownloadChannel") {
        Some("downloads")
    } else if text::same(state, "ResourceChannel") {
        Some("resources")
    } else if text::same(state, "ProjectChannel") {
        Some("project_channel")
    } else if text::same(state, "Initialization") {
        Some("initialization")
    } else if text::same(state, "Desktop") {
        Some("desktop")
    } else if text::same(state, "AgentState") {
        Some("state")
    } else if text::same(state, "Pipeline") {
        Some("pipeline")
    } else {
        None
    }
}

/// A parameter as it is written.
#[derive(Debug)]
pub enum Argument {
    /// `self` in any form.
    Receiver,
    /// A pattern that is no name.
    Unnamed,
    Named { name: String, mutable: bool, ty: TypeShape },
}

/// What a parameter is taken from when the command is called over HTTP.
#[derive(Clone, Copy, Debug)]
pub enum HttpSource {
    /// The host as a whole.
    Host,
    /// A part of the host.
    Field(&'static str),
    /// The host's window.
    Window,
    /// The socket that the call opens.
    SocketChannel,
    /// The socket that was opened before.
    NamedChannel,
    /// A field of what the caller sent.
    Payload,
}

/// What is made of a parameter.
#[derive(Debug)]
pub struct ParamPlan {
    pub name: String,
    pub mutable: bool,
    pub class: ParamClass,
    /// The body takes an option of the type that is written.
    pub made_optional: bool,
    pub source: HttpSource,
}

impl ParamPlan {
    /// The plan of a parameter that has a class and, if it is state, a place.
    pub open spec fn is_of(self, argument: Argument, socket: bool) -> bool {
        match argument {
            Argument::Named { name, mutable, ty } => {
                &&& self.name == name
                &&& self.mutable == mutable
                &&& match class_of(ty) {
                    Some(classified) => {
                        &&& self.class == classified.class
                        &&& self.made_optional == (classified.class == ParamClass::Window
                            && !classified.window_already_option)
                        &&& match classified.class {
                            ParamClass::State => if ty.is_named("Host"@) {
                                self.source is Host
                            } else {
                                self.source matches HttpSource::Field(field) && host_field(
                                    ty.label()->0,
                                ) == Some(field@)
                            },
                            ParamClass::Window => self.source is Window,
                            ParamClass::Channel => if socket {
                                self.source is SocketChannel
                            } else {
                                self.source is NamedChannel
                            },
                            ParamClass::Payload => self.source is Payload,
                        }
                    },
                    None => false,
                }
            },
            _ => false,
        }
    }

    /// Whether the parameter is a field of what the caller sends.
    pub fn in_payload(&self) -> (r: bool)
        ensures
            r == (self.class == ParamClass::Payload),
    {
        self.class == ParamClass::Payload
    }

    /// Whether the parameter is one of the command as callers see it.
    pub fn in_protocol(&self) -> (r: bool)
        ensures
            r == (self.class == ParamClass::Payload || self.class == ParamClass::Channel),
    {
        self.class == ParamClass::Payload || self.class == ParamClass::Channel
    }
}

// ---------------------------------------------------------------------------------------------
// Faults
// ---------------------------------------------------------------------------------------------

/// Why no call can be made of a function.
#[derive(Clone, Copy, Debug, PartialEq, Eq, Structural)]
pub enum CommandFault {
    /// The marker was given attributes.
    Attributes,
    /// The parameter at this place is the receiver of a method.
    Receiver(usize),
    /// The parameter at this place has no name.
    Unnamed(usize),
    /// The parameter at this place is the application's handle.
    AppHandle(usize),
    /// The parameter at this place is state that the host does not hold.
    UnknownState(usize),
}

/// What is wrong with the parameter at `i` as it is written.
pub open spec fn written_fault(arguments: Seq<Argument>, i: int) -> Option<CommandFault> {
    match arguments[i] {
        Argument::Receiver => Some(CommandFault::Receiver(i as usize)),
        Argument::Unnamed => Some(CommandFault::Unnamed(i as usize)),
        Argument::Named { ty, .. } => if class_of(ty) is None {
            Some(CommandFault::AppHandle(i as usize))
        } else {
            None
        },
    }
}

/// The parameter is state that the host does not hold.
pub open spec fn is_unknown_state(argument: Argument) -> bool {
    match argument {
        Argument::Named { ty, .. } => match class_of(ty) {
            Some(classified) => classified.class == ParamClass::State && !ty.is_named("Host"@)
                && host_field(ty.label()->0) is None,
            None => false,
        },
        _ => false,
    }
}

/// What is wrong with the first of the parameters that is written wrongly, up to `n`.
pub open spec fn first_written_fault(arguments: Seq<Argument>, n: nat) -> Option<CommandFault>
    decreases n,
{
    if n == 0 {
        None
    } else {
        match first_written_fault(arguments, (n - 1) as nat) {
            Some(fault) => Some(fault),
            None => written_fault(arguments, n - 1),
        }
    }
}

/// The first of the parameters that is state that the host does not hold, up to `n`.
pub open spec fn first_unknown_state(arguments: Seq<Argument>, n: nat) -> Option<CommandFault>
    decreases n,
{
    if n == 0 {
        None
    } else {
        match first_unknown_state(arguments, (n - 1) as nat) {
            Some(fault) => Some(fault),
            None => if is_unknown_state(arguments[n - 1]) {
                Some(CommandFault::UnknownState((n - 1) as usize))
            } else {
                None
            },
        }
    }
}

/// What stands against making a call of the function.
pub open spec fn command_fault(attributes: bool, arguments: Seq<Argument>) -> Option<CommandFault> {
    if attributes {
        Some(CommandFault::Attributes)
    } else {
        match first_written_fault(arguments, arguments.len()) {
            Some(fault) => Some(fault),
            None => first_unknown_state(arguments, arguments.len()),
        }
    }
}

proof fn lemma_written_fault_stays(arguments: Seq<Argument>, n: nat, m: nat)
    requires
        n <= m,
        first_written_fault(arguments, n) is Some,
    ensures
        first_written_fault(arguments, m) == first_written_fault(arguments, n),
    decreases m,
{
    if n < m {
        lemma_written_fault_stays(arguments, n, (m - 1) as nat);
    }
}

proof fn lemma_unknown_state_stays(arguments: Seq<Argument>, n: nat, m: nat)
    requires
        n <= m,
        first_unknown_state(arguments, n) is Some,
    ensures
        first_unknown_state(arguments, m) == first_unknown_state(arguments, n),
    decreases m,
{
    if n < m {
        lemma_unknown_state_stays(arguments, n, (m - 1) as nat);
    }
}

/// No parameter is written wrongly.
proof fn lemma_all_written(arguments: Seq<Argument>, n: nat, i: int)
    requires
        first_written_fault(arguments, n) is None,
        0 <= i < n,
    ensures
        written_fault(arguments, i) is None,
    decreases n,
{
    if i < n - 1 {
        lemma_all_written(arguments, (n - 1) as nat, i);
    }
}

impl CommandFault {
    /// What is said of the fault to the command's author.
    pub open spec fn says(self, arguments: Seq<Argument>) -> Seq<char> {
        match self {
            CommandFault::Attributes => "#[command] does not take attributes"@,
            CommandFault::Receiver(_) => "#[command] does not support method receivers"@,
            CommandFault::Unnamed(_) => "#[command] requires named parameters"@,
            CommandFault::AppHandle(_) =>
                "Host has no AppHandle; #[command] cannot inject AppHandle"@,
            CommandFault::UnknownState(at) => "unknown Host state type `"@ + type_label(
                arguments,
                at as int,
            ) + "`"@,
        }
    }

    /// What is said of the fault to the command's author.
    pub fn message(self, arguments: &Vec<Argument>) -> (r: String)
        ensures
            r@ == self.says(arguments@),
    {
        match self {
            CommandFault::Attributes => "#[command] does not take attributes".to_owned(),
            CommandFault::Receiver(_) => "#[command] does not support method receivers".to_owned(),
            CommandFault::Unnamed(_) => "#[command] requires named parameters".to_owned(),
            CommandFault::AppHandle(_) =>
                "Host has no AppHandle; #[command] cannot inject AppHandle".to_owned(),
            CommandFault::UnknownState(at) => {
                let mut name = String::new();
                if at < arguments.len() {
                    match &arguments[at] {
                        Argument::Named { ty, .. } => match ty.last_name() {
                            Some(last) => {
                                name = last.clone();
                            },
                            None => {},
                        },
                        _ => {},
                    }
                }
                assert(name@ =~= type_label(arguments@, at as int));
                let mut message = text::joined("unknown Host state type `", name.as_str());
                message.append("`");
                message
            },
        }
    }
}

/// The name of the type of the parameter at `at`, empty where it has none.
pub open spec fn type_label(arguments: Seq<Argument>, at: int) -> Seq<char> {
    if 0 <= at < arguments.len() {
        match arguments[at] {
            Argument::Named { ty, .. } => match ty.label() {
                Some(name) => name,
                None => Seq::empty(),
            },
            _ => Seq::empty(),
        }
    } else {
        Seq::empty()
    }
}

// ---------------------------------------------------------------------------------------------
// Results
// ---------------------------------------------------------------------------------------------

/// What a command's success holds.
#[derive(Clone, Copy, Debug, PartialEq, Eq, Structural)]
pub enum OkType {
    /// No type can be named.
    Absent,
    /// The type that is written.
    Written,
    /// The first type in the angle brackets of the type that is written.
    Argument,
}

/// What a command's success holds, given the type that it is written to return.
pub open spec fn ok_type(output: Option<TypeShape>) -> OkType {
    match output {
        Some(TypeShape::Path { name, arguments }) => if name@ != "Result"@ {
            OkType::Written
        } else {
            match arguments {
                Arguments::Absent => OkType::Written,
                Arguments::Angle(Some(_)) => OkType::Argument,
                Arguments::Angle(None) => OkType::Absent,
            }
        },
        _ => OkType::Absent,
    }
}

/// What a command's success holds, as a type.
pub open spec fn ok_shape(output: Option<TypeShape>) -> Option<TypeShape> {
    match ok_type(output) {
        OkType::Absent => None,
        OkType::Written => output,
        OkType::Argument => match output {
            Some(TypeShape::Path { arguments: Arguments::Angle(Some(inner)), .. }) => Some(*inner),
            _ => None,
        },
    }
}

/// The type holds bytes, by its name.
pub open spec fn is_binary(label: Option<Seq<char>>) -> bool {
    match label {
        Some(name) => text::has_suffix(name, "Bytes"@),
        None => false,
    }
}

fn binary_name(label: Option<&String>) -> (r: bool)
    ensures
        r == is_binary(
            match label {
                Some(name) => Some(name@),
                None => None,
            },
        ),
{
    match label {
        Some(name) => text::ends_with(name.as_str(), "Bytes"),
        None => false,
    }
}

/// What a command answers.
#[derive(Clone, Copy, Debug, PartialEq, Eq, Structural)]
pub enum Reply {
    /// It holds a socket open.
    Socket,
    /// Bytes.
    Bytes,
    /// A file, or nothing.
    OptionalFile,
    /// A value.
    Json,
}

/// How callers see a command's result.
#[derive(Clone, Copy, Debug, PartialEq, Eq, Structural)]
pub enum ProtocolResult {
    Unit,
    /// What the success holds.
    Success(OkType),
    /// The result as it is written.
    AsWritten,
}

/// How a caller sends a command's values.
#[derive(Clone, Copy, Debug, PartialEq, Eq, Structural)]
pub enum PayloadForm {
    /// There are none.
    Absent,
    /// In the address.
    Query,
    /// In the body.
    Json,
    /// In the body, or in a form with files.
    JsonOrMultipart,
}

// ---------------------------------------------------------------------------------------------
// Names
// ---------------------------------------------------------------------------------------------

/// The upper case of a character as `char::to_uppercase` gives it.
pub uninterp spec fn uppercase(c: char) -> Seq<char>;

/// `char::to_uppercase`: the upper case of `c`, a function of the character alone.
#[verifier::external_body]
fn uppercased(c: char) -> (r: String)
    ensures
        r@ == uppercase(c),
{
    c.to_uppercase().to_string()
}

/// The character at `i` begins a word: it is the first, or an underscore stands before it.
pub open spec fn begins_word(name: Seq<char>, i: int) -> bool {
    i == 0 || name[i - 1] == '_'
}

/// The name with each word begun in upper case, and without underscores.
pub open spec fn pascal_case(name: Seq<char>) -> Seq<char>
    decreases name.len(),
{
    if name.len() == 0 {
        Seq::empty()
    } else {
        let head = pascal_case(name.drop_last());
        if name.last() == '_' {
            head
        } else if begins_word(name, name.len() - 1) {
            head + uppercase(name.last())
        } else {
            head.push(name.last())
        }
    }
}

/// The name with each word begun in upper case, and without underscores.
pub fn to_pascal_case(name: &str) -> (r: String)
    ensures
        r@ == pascal_case(name@),
{
    let v = text::chars_of(name);
    let mut out = String::new();
    let mut capitalize = true;
    let mut i: usize = 0;
    assert(name@.take(0) =~= Seq::empty());
    while i < v.len()
        invariant
            v@ == name@,
            i <= v@.len(),
            out@ == pascal_case(name@.take(i as int)),
            capitalize == begins_word(name@, i as int),
        decreases v@.len() - i,
    {
        let c = v[i];
        proof {
            assert(name@.take(i + 1).drop_last() =~= name@.take(i as int));
            assert(name@.take(i + 1).last() == c);
            if i > 0 {
                assert(name@.take(i + 1)[i - 1] == name@[i - 1]);
            }
        }
        if c == '_' {
            capitalize = true;
        } else if capitalize {
            let upper = uppercased(c);
            out.append(upper.as_str());
            capitalize = false;
        } else {
            out.push(c);
        }
        i += 1;
    }
    assert(name@.take(i as int) =~= name@);
    out
}

/// The address of a command.
pub open spec fn path_of(name: Seq<char>) -> Seq<char> {
    "/rpc/"@ + name
}

/// The name of the module that holds a command's route.
pub open spec fn route_of(name: Seq<char>) -> Seq<char> {
    "__"@ + name + "_route"@
}

/// The name of the module that holds a command's route.
pub fn route_module_name(name: &str) -> (r: String)
    ensures
        r@ == route_of(name@),
{
    let mut route = text::joined("__", name);
    route.append("_route");
    route
}

/// Different commands have different addresses and different modules.
pub proof fn lemma_commands_apart(a: Seq<char>, b: Seq<char>)
    requires
        a != b,
    ensures
        path_of(a) != path_of(b),
        route_of(a) != route_of(b),
{
    assert(path_of(a).skip("/rpc/"@.len() as int) =~= a);
    assert(path_of(b).skip("/rpc/"@.len() as int) =~= b);
    let head: int = "__"@.len() as int;
    let tail: int = "_route"@.len() as int;
    assert(route_of(a).subrange(head, route_of(a).len() - tail) =~= a);
    assert(route_of(b).subrange(head, route_of(b).len() - tail) =~= b);
}

/// The path of the module that holds the route of the command at `path`.
pub fn route_module_path(path: Vec<String>) -> (r: Vec<String>)
    requires
        path@.len() > 0,
    ensures
        r@.len() == path@.len(),
        r@.drop_last() == path@.drop_last(),
        r@.last()@ == route_of(path@.last()@),
{
    let mut path = path;
    let ghost before = path@;
    match path.pop() {
        Some(last) => {
            path.push(route_module_name(last.as_str()));
        },
        None => {},
    }
    assert(path@.drop_last() =~= before.drop_last());
    path
}

/// What becomes of an attribute of the function.
#[derive(Clone, Copy, Debug, PartialEq, Eq, Structural)]
pub enum AttributeRole {
    /// It is a comment and goes to what callers see.
    Doc,
    /// It is the command's marker and goes.
    Marker,
    /// It stays with the body.
    Body,
}

/// What becomes of an attribute, given its path and whether that begins at the root.
pub fn attribute_role(path: &Vec<String>, rooted: bool) -> (r: AttributeRole)
    ensures
        r == if path@.len() == 1 && !rooted && path@[0]@ == "doc"@ {
            AttributeRole::Doc
        } else if path@.len() == 1 && path@[0]@ == "command"@ {
            AttributeRole::Marker
        } else {
            AttributeRole::Body
        },
{
    if path.len() == 1 && !rooted && text::same(path[0].as_str(), "doc") {
        AttributeRole::Doc
    } else if path.len() == 1 && text::same(path[0].as_str(), "command") {
        AttributeRole::Marker
    } else {
        AttributeRole::Body
    }
}

// ---------------------------------------------------------------------------------------------
// The plan
// ---------------------------------------------------------------------------------------------

/// What is made of a command function.
#[derive(Debug)]
pub struct CommandPlan {
    /// The call opens a socket and is fetched; all other calls are posted.
    pub socket: bool,
    pub params: Vec<ParamPlan>,
    pub payload: PayloadForm,
    pub ok: OkType,
    pub reply: Reply,
    pub protocol_result: ProtocolResult,
    /// The name of the type of what the caller sends.
    pub payload_name: String,
    /// The name of the function that keeps the body.
    pub private_name: String,
    /// The name of the function that answers over HTTP.
    pub http_name: String,
    /// The name of the module that holds the route.
    pub route_name: String,
    /// The command's address.
    pub path: String,
}

/// Some parameter is one that the caller sends.
pub open spec fn some_payload(params: Seq<ParamPlan>) -> bool {
    exists|i: int| 0 <= i < params.len() && (#[trigger] params[i]).class == ParamClass::Payload
}

/// Some parameter is one that the caller sends and is named `paths`: files may come with it.
pub open spec fn some_paths(params: Seq<ParamPlan>) -> bool {
    exists|i: int|
        0 <= i < params.len() && (#[trigger] params[i]).class == ParamClass::Payload
            && params[i].name@ == "paths"@
}

/// How the caller sends the values of these parameters.
pub open spec fn payload_form(params: Seq<ParamPlan>, socket: bool) -> PayloadForm {
    if !some_payload(params) {
        PayloadForm::Absent
    } else if socket {
        PayloadForm::Query
    } else if some_paths(params) {
        PayloadForm::JsonOrMultipart
    } else {
        PayloadForm::Json
    }
}

/// The success holds bytes.
pub open spec fn replies_bytes(output: Option<TypeShape>) -> bool {
    match ok_shape(output) {
        Some(ok) => is_binary(ok.label()),
        None => false,
    }
}

/// The success holds bytes or nothing.
pub open spec fn replies_optional(output: Option<TypeShape>) -> bool {
    match ok_shape(output) {
        Some(ok) => is_binary(ok.peeled_label("Option"@)),
        None => false,
    }
}

/// What a command answers.
pub open spec fn reply_of(output: Option<TypeShape>, socket: bool) -> Reply {
    if socket {
        Reply::Socket
    } else if replies_bytes(output) {
        Reply::Bytes
    } else if replies_optional(output) {
        Reply::OptionalFile
    } else {
        Reply::Json
    }
}

/// How callers see a command's result.
pub open spec fn protocol_of(output: Option<TypeShape>) -> ProtocolResult {
    if replies_optional(output) {
        ProtocolResult::Unit
    } else if ok_type(output) != OkType::Absent {
        ProtocolResult::Success(ok_type(output))
    } else {
        ProtocolResult::AsWritten
    }
}

impl CommandPlan {
    /// The plan of a function whose parameters are in order.
    pub open spec fn is_of(
        self,
        name: Seq<char>,
        arguments: Seq<Argument>,
        output: Option<TypeShape>,
    ) -> bool {
        &&& self.socket == (name == "subscribe"@)
        &&& self.params@.len() == arguments.len()
        &&& forall|i: int|
            0 <= i < arguments.len() ==> (#[trigger] self.params@[i]).is_of(
                arguments[i],
                self.socket,
            )
        &&& self.payload == payload_form(self.params@, self.socket)
        &&& self.ok == ok_type(output)
        &&& self.reply == reply_of(output, self.socket)
        &&& self.protocol_result == protocol_of(output)
        &&& self.payload_name@ == pascal_case(name) + "Payload"@
        &&& self.private_name@ == "__"@ + name
        &&& self.http_name@ == name + "_http"@
        &&& self.route_name@ == route_of(name)
        &&& self.path@ == path_of(name)
    }
}

fn find_written_fault(arguments: &Vec<Argument>) -> (r: Option<CommandFault>)
    ensures
        r == first_written_fault(arguments@, arguments@.len()),
{
    let mut i: usize = 0;
    while i < arguments.len()
        invariant
            i <= arguments@.len(),
            first_written_fault(arguments@, i as nat) is None,
        decreases arguments@.len() - i,
    {
        let fault = match &arguments[i] {
            Argument::Receiver => Some(CommandFault::Receiver(i)),
            Argument::Unnamed => Some(CommandFault::Unnamed(i)),
            Argument::Named { ty, .. } => match classify(ty) {
                Some(_) => None,
                None => Some(CommandFault::AppHandle(i)),
            },
        };
        assert(fault == written_fault(arguments@, i as int));
        if fault.is_some() {
            proof {
                lemma_written_fault_stays(arguments@, (i + 1) as nat, arguments@.len());
            }
            return fault;
        }
        i += 1;
    }
    None
}

/// The place that a parameter is taken from; `None` where it is state that the host does not hold.
fn http_source(ty: &TypeShape, class: ParamClass, socket: bool) -> (r: Option<HttpSource>)
    requires
        class == ParamClass::State ==> ty.label() is Some,
    ensures
        match class {
            ParamClass::State => if ty.is_named("Host"@) {
                r matches Some(source) && source is Host
            } else {
                match host_field(ty.label()->0) {
                    Some(name) => r matches Some(HttpSource::Field(field)) && field@ == name,
                    None => r is None,
                }
            },
            ParamClass::Window => r matches Some(source) && source is Window,
            ParamClass::Channel => r matches Some(source) && if socket {
                source is SocketChannel
            } else {
                source is NamedChannel
            },
            ParamClass::Payload => r matches Some(source) && source is Payload,
        },
{
    match class {
        ParamClass::State => match ty.last_name() {
            Some(name) => {
                if text::same(name.as_str(), "Host") {
                    Some(HttpSource::Host)
                } else {
                    match host_state_field_name(name.as_str()) {
                        Some(field) => Some(HttpSource::Field(field)),
                        None => None,
                    }
                }
            },
            None => None,
        },
        ParamClass::Window => Some(HttpSource::Window),
        ParamClass::Channel => Some(
            if socket {
                HttpSource::SocketChannel
            } else {
                HttpSource::NamedChannel
            },
        ),
        ParamClass::Payload => Some(HttpSource::Payload),
    }
}

fn plan_params(arguments: &Vec<Argument>, socket: bool) -> (r: Result<Vec<ParamPlan>, CommandFault>)
    requires
        first_written_fault(arguments@, arguments@.len()) is None,
    ensures
        match first_unknown_state(arguments@, arguments@.len()) {
            Some(fault) => r == Err::<Vec<ParamPlan>, _>(fault),
            None => r matches Ok(params) && params@.len() == arguments@.len() && forall|i: int|
                0 <= i < params@.len() ==> (#[trigger] params@[i]).is_of(arguments@[i], socket),
        },
{
    let mut params: Vec<ParamPlan> = Vec::new();
    let mut i: usize = 0;
    while i < arguments.len()
        invariant
            first_written_fault(arguments@, arguments@.len()) is None,
            i <= arguments@.len(),
            params@.len() == i,
            first_unknown_state(arguments@, i as nat) is None,
            forall|k: int|
                0 <= k < i ==> (#[trigger] params@[k]).is_of(arguments@[k], socket),
        decreases arguments@.len() - i,
    {
        proof {
            lemma_all_written(arguments@, arguments@.len(), i as int);
        }
        match &arguments[i] {
            Argument::Named { name, mutable, ty } => match classify(ty) {
                Some(classified) => {
                    match http_source(ty, classified.class, socket) {
                        Some(source) => {
                            assert(!is_unknown_state(arguments@[i as int]));
                            params.push(
                                ParamPlan {
                                    name: name.clone(),
                                    mutable: *mutable,
                                    class: classified.class,
                                    made_optional: classified.class == ParamClass::Window
                                        && !classified.window_already_option,
                                    source,
                                },
                            );
                        },
                        None => {
                            assert(is_unknown_state(arguments@[i as int]));
                            proof {
                                lemma_unknown_state_stays(
                                    arguments@,
                                    (i + 1) as nat,
                                    arguments@.len(),
                                );
                            }
                            return Err(CommandFault::UnknownState(i));
                        },
                    }
                },
                None => {},
            },
            _ => {},
        }
        i += 1;
    }
    Ok(params)
}

fn form_of(params: &Vec<ParamPlan>, socket: bool) -> (r: PayloadForm)
    ensures
        r == payload_form(params@, socket),
{
    let mut sends = false;
    let mut paths = false;
    let mut i: usize = 0;
    while i < params.len()
        invariant
            i <= params@.len(),
            sends == (exists|k: int|
                0 <= k < i && (#[trigger] params@[k]).class == ParamClass::Payload),
            paths == (exists|k: int|
                0 <= k < i && (#[trigger] params@[k]).class == ParamClass::Payload
                    && params@[k].name@ == "paths"@),
        decreases params@.len() - i,
    {
        if params[i].class == ParamClass::Payload {
            assert(params@[i as int].class == ParamClass::Payload);
            sends = true;
            if text::same(params[i].name.as_str(), "paths") {
                paths = true;
            }
        }
        i += 1;
    }
    if !sends {
        PayloadForm::Absent
    } else if socket {
        PayloadForm::Query
    } else if paths {
        PayloadForm::JsonOrMultipart
    } else {
        PayloadForm::Json
    }
}

/// What the success holds, and whether that is bytes, or bytes or nothing.
fn examine_output(output: &Option<TypeShape>) -> (r: (OkType, bool, bool))
    ensures
        r == (ok_type(*output), replies_bytes(*output), replies_optional(*output)),
{
    match output {
        Some(written) => match written {
            TypeShape::Path { name, arguments } => {
                if !text::same(name.as_str(), "Result") {
                    return (
                        OkType::Written,
                        binary_name(written.last_name()),
                        binary_name(written.peeled_name("Option")),
                    );
                }
                match arguments {
                    Arguments::Absent => (
                        OkType::Written,
                        binary_name(written.last_name()),
                        binary_name(written.peeled_name("Option")),
                    ),
                    Arguments::Angle(first) => match first {
                        Some(inner) => (
                            OkType::Argument,
                            binary_name(inner.last_name()),
                            binary_name(inner.peeled_name("Option")),
                        ),
                        None => (OkType::Absent, false, false),
                    },
                }
            },
            _ => (OkType::Absent, false, false),
        },
        None => (OkType::Absent, false, false),
    }
}

/// What is made of a command function, given whether its marker has attributes, its name, its
/// parameters and the type that it returns.
pub fn plan_command(
    attributes: bool,
    name: &str,
    arguments: &Vec<Argument>,
    output: &Option<TypeShape>,
) -> (r: Result<CommandPlan, CommandFault>)
    ensures
        match command_fault(attributes, arguments@) {
            Some(fault) => r == Err::<CommandPlan, _>(fault),
            None => r matches Ok(plan) && plan.is_of(name@, arguments@, *output),
        },
{
    if attributes {
        return Err(CommandFault::Attributes);
    }
    match find_written_fault(arguments) {
        Some(fault) => return Err(fault),
        None => {},
    }
    let socket = text::same(name, "subscribe");
    let params = match plan_params(arguments, socket) {
        Ok(params) => params,
        Err(fault) => return Err(fault),
    };
    let payload = form_of(&params, socket);
    let (ok, bytes, optional) = examine_output(output);
    let reply = if socket {
        Reply::Socket
    } else if bytes {
        Reply::Bytes
    } else if optional {
        Reply::OptionalFile
    } else {
        Reply::Json
    };
    let protocol_result = if optional {
        ProtocolResult::Unit
    } else if ok != OkType::Absent {
        ProtocolResult::Success(ok)
    } else {
        ProtocolResult::AsWritten
    };
    let pascal = to_pascal_case(name);
    Ok(
        CommandPlan {
            socket,
            params,
            payload,
            ok,
            reply,
            protocol_result,
            payload_name: text::joined(pascal.as_str(), "Payload"),
            private_name: text::joined("__", name),
            http_name: text::joined(name, "_http"),
            route_name: route_module_name(name),
            path: text::joined("/rpc/", name),
        },
    )
}

/// The states that the application is made of are held by the host.
pub proof fn lemma_known_states_are_held(name: Seq<char>)
    requires
        names_state(name),
        !text::has_suffix(name, "Channel"@),
        name != "Host"@,
    ensures
        host_field(name) is Some,
{
}

/// What events go through is never a part of what the caller sends.
pub proof fn lemma_channels_are_not_sent(ty: TypeShape)
    requires
        ty.is_named("Channel"@),
    ensures
        class_of(ty) == Some(
            (Classified { class: ParamClass::Channel, window_already_option: false }),
        ),
{
    reveal_strlit("Channel");
    reveal_strlit("AppHandle");
    reveal_strlit("WebviewWindow");
    assert("Channel"@.len() == 7);
    assert("AppHandle"@.len() == 9);
    assert("WebviewWindow"@.len() == 13);
    lemma_peeled_is_named(ty, "Option"@);
    reveal_strlit("Option");
    assert("Option"@.len() == 6);
}

/// Only a type that is named `wrapper` has something to peel from it.
proof fn lemma_peeled_is_named(ty: TypeShape, wrapper: Seq<char>)
    ensures
        ty.peeled_label(wrapper) is Some ==> ty.is_named(wrapper),
    decreases ty,
{
    match ty {
        TypeShape::Wrapped(inner) => lemma_peeled_is_named(*inner, wrapper),
        _ => {},
    }
}

// ---------------------------------------------------------------------------------------------
// Laws
// ---------------------------------------------------------------------------------------------

/// The names that decide what a parameter is all differ.
proof fn lemma_names_differ()
    ensures
        "AppHandle"@.len() == 9 && "AppHandle"@[0] == 'A' && "AppHandle"@[1] == 'p' && "AppHandle"@[2] == 'p',
        "WebviewWindow"@.len() == 13 && "WebviewWindow"@[0] == 'W' && "WebviewWindow"@[1] == 'e' && "WebviewWindow"@[2] == 'b',
        "Option"@.len() == 6 && "Option"@[0] == 'O' && "Option"@[1] == 'p' && "Option"@[2] == 't',
        "Channel"@.len() == 7 && "Channel"@[0] == 'C' && "Channel"@[1] == 'h' && "Channel"@[2] == 'a',
        "Host"@.len() == 4 && "Host"@[0] == 'H' && "Host"@[1] == 'o' && "Host"@[2] == 's',
        "CurrentProject"@.len() == 14 && "CurrentProject"@[0] == 'C' && "CurrentProject"@[1] == 'u' && "CurrentProject"@[2] == 'r',
        "ProjectLibrary"@.len() == 14 && "ProjectLibrary"@[0] == 'P' && "ProjectLibrary"@[1] == 'r' && "ProjectLibrary"@[2] == 'o',
        "Processing"@.len() == 10 && "Processing"@[0] == 'P' && "Processing"@[1] == 'r' && "Processing"@[2] == 'o',
        "CanvasChannel"@.len() == 13 && "CanvasChannel"@[0] == 'C' && "CanvasChannel"@[1] == 'a' && "CanvasChannel"@[2] == 'n',
        "JobChannel"@.len() == 10 && "JobChannel"@[0] == 'J' && "JobChannel"@[1] == 'o' && "JobChannel"@[2] == 'b',
        "DownloadChannel"@.len() == 15 && "DownloadChannel"@[0] == 'D' && "DownloadChannel"@[1] == 'o' && "DownloadChannel"@[2] == 'w',
        "ResourceChannel"@.len() == 15 && "ResourceChannel"@[0] == 'R' && "ResourceChannel"@[1] == 'e' && "ResourceChannel"@[2] == 's',
        "ProjectChannel"@.len() == 14 && "ProjectChannel"@[0] == 'P' && "ProjectChannel"@[1] == 'r' && "ProjectChannel"@[2] == 'o',
        "Initialization"@.len() == 14 && "Initialization"@[0] == 'I' && "Initialization"@[1] == 'n' && "Initialization"@[2] == 'i',
        "Desktop"@.len() == 7 && "Desktop"@[0] == 'D' && "Desktop"@[1] == 'e' && "Desktop"@[2] == 's',
        "AgentState"@.len() == 10 && "AgentState"@[0] == 'A' && "AgentState"@[1] == 'g' && "AgentState"@[2] == 'e',
        "Pipeline"@.len() == 8 && "Pipeline"@[0] == 'P' && "Pipeline"@[1] == 'i' && "Pipeline"@[2] == 'p',
{
    reveal_strlit("AppHandle");
    assert("AppHandle"@.len() == 9);
    assert("AppHandle"@[0] == 'A' && "AppHandle"@[1] == 'p' && "AppHandle"@[2] == 'p');
    reveal_strlit("WebviewWindow");
    assert("WebviewWindow"@.len() == 13);
    assert("WebviewWindow"@[0] == 'W' && "WebviewWindow"@[1] == 'e' && "WebviewWindow"@[2] == 'b');
    reveal_strlit("Option");
    assert("Option"@.len() == 6);
    assert("Option"@[0] == 'O' && "Option"@[1] == 'p' && "Option"@[2] == 't');
    reveal_strlit("Channel");
    assert("Channel"@.len() == 7);
    assert("Channel"@[0] == 'C' && "Channel"@[1] == 'h' && "Channel"@[2] == 'a');
    reveal_strlit("Host");
    assert("Host"@.len() == 4);
    assert("Host"@[0] == 'H' && "Host"@[1] == 'o' && "Host"@[2] == 's');
    reveal_strlit("CurrentProject");
    assert("CurrentProject"@.len() == 14);
    assert("CurrentProject"@[0] == 'C' && "CurrentProject"@[1] == 'u' && "CurrentProject"@[2] == 'r');
    reveal_strlit("ProjectLibrary");
    assert("ProjectLibrary"@.len() == 14);
    assert("ProjectLibrary"@[0] == 'P' && "ProjectLibrary"@[1] == 'r' && "ProjectLibrary"@[2] == 'o');
    reveal_strlit("Processing");
    assert("Processing"@.len() == 10);
    assert("Processing"@[0] == 'P' && "Processing"@[1] == 'r' && "Processing"@[2] == 'o');
    reveal_strlit("CanvasChannel");
    assert("CanvasChannel"@.len() == 13);
    assert("CanvasChannel"@[0] == 'C' && "CanvasChannel"@[1] == 'a' && "CanvasChannel"@[2] == 'n');
    reveal_strlit("JobChannel");
    assert("JobChannel"@.len() == 10);
    assert("JobChannel"@[0] == 'J' && "JobChannel"@[1] == 'o' && "JobChannel"@[2] == 'b');
    reveal_strlit("DownloadChannel");
    assert("DownloadChannel"@.len() == 15);
    assert("DownloadChannel"@[0] == 'D' && "DownloadChannel"@[1] == 'o' && "DownloadChannel"@[2] == 'w');
    reveal_strlit("ResourceChannel");
    assert("ResourceChannel"@.len() == 15);
    assert("ResourceChannel"@[0] == 'R' && "ResourceChannel"@[1] == 'e' && "ResourceChannel"@[2] == 's');
    reveal_strlit("ProjectChannel");
    assert("ProjectChannel"@.len() == 14);
    assert("ProjectChannel"@[0] == 'P' && "ProjectChannel"@[1] == 'r' && "ProjectChannel"@[2] == 'o');
    reveal_strlit("Initialization");
    assert("Initialization"@.len() == 14);
    assert("Initialization"@[0] == 'I' && "Initialization"@[1] == 'n' && "Initialization"@[2] == 'i');
    reveal_strlit("Desktop");
    assert("Desktop"@.len() == 7);
    assert("Desktop"@[0] == 'D' && "Desktop"@[1] == 'e' && "Desktop"@[2] == 's');
    reveal_strlit("AgentState");
    assert("AgentState"@.len() == 10);
    assert("AgentState"@[0] == 'A' && "AgentState"@[1] == 'g' && "AgentState"@[2] == 'e');
    reveal_strlit("Pipeline");
    assert("Pipeline"@.len() == 8);
    assert("Pipeline"@[0] == 'P' && "Pipeline"@[1] == 'i' && "Pipeline"@[2] == 'p');
}

/// Where the host holds each part of the application's state, and that it holds no other.
pub proof fn lemma_where_state_is_held(name: Seq<char>)
    ensures
        host_field("CurrentProject"@) == Some("project"@),
        host_field("ProjectLibrary"@) == Some("library"@),
        host_field("Processing"@) == Some("processing"@),
        host_field("CanvasChannel"@) == Some("canvas"@),
        host_field("JobChannel"@) == Some("jobs"@),
        host_field("DownloadChannel"@) == Some("downloads"@),
        host_field("ResourceChannel"@) == Some("resources"@),
        host_field("ProjectChannel"@) == Some("project_channel"@),
        host_field("Initialization"@) == Some("initialization"@),
        host_field("Desktop"@) == Some("desktop"@),
        host_field("AgentState"@) == Some("state"@),
        host_field("Pipeline"@) == Some("pipeline"@),
        name != "CurrentProject"@ && name != "ProjectLibrary"@ && name != "Processing"@ && name != "CanvasChannel"@ && name != "JobChannel"@ && name != "DownloadChannel"@ && name != "ResourceChannel"@ && name != "ProjectChannel"@ && name != "Initialization"@ && name != "Desktop"@ && name != "AgentState"@ && name != "Pipeline"@
            ==> host_field(name) is None,
{
    lemma_names_differ();
    reveal_strlit("ProjectChannel");
    reveal_strlit("ProjectLibrary");
    assert("ProjectChannel"@[7] == 'C');
    assert("ProjectLibrary"@[7] == 'L');
}

/// What a parameter is does not change with what its type is wrapped in, and is decided by the name
/// of the type: the application's handle is refused, a window is the window, also where it is
/// optional, `Channel` is a way to send events, a part of the application's state is state, and so
/// is any other type whose name ends in `Channel`; all else is sent by the caller.
pub proof fn lemma_what_a_parameter_is(name: String, arguments: Arguments, inner: TypeShape)
    ensures
        class_of(TypeShape::Wrapped(Box::new(inner))) == class_of(inner),
        class_of(TypeShape::Other) == Some(
            (Classified { class: ParamClass::Payload, window_already_option: false }),
        ),
        ({
            let ty = TypeShape::Path { name, arguments };
            let state = Some(
                (Classified { class: ParamClass::State, window_already_option: false }),
            );
            &&& name@ == "AppHandle"@ ==> class_of(ty) is None
            &&& name@ == "WebviewWindow"@ ==> class_of(ty) == Some(
                (Classified { class: ParamClass::Window, window_already_option: false }),
            )
            &&& name@ == "Option"@ ==> class_of(ty) == Some(
                (if arguments is Angle && arguments->Angle_0 is Some
                    && arguments->Angle_0->0.label() == Some("WebviewWindow"@) {
                    Classified { class: ParamClass::Window, window_already_option: true }
                } else {
                    Classified { class: ParamClass::Payload, window_already_option: false }
                }),
            )
            &&& name@ == "Channel"@ ==> class_of(ty) == Some(
                (Classified { class: ParamClass::Channel, window_already_option: false }),
            )
            &&& name@ == "Host"@ || name@ == "Pipeline"@ || name@ == "Desktop"@ || name@
                == "CurrentProject"@ || name@ == "Processing"@ || name@ == "AgentState"@ || name@
                == "ProjectLibrary"@ || name@ == "Initialization"@ ==> class_of(ty) == state
            &&& name@ != "Channel"@ && text::has_suffix(name@, "Channel"@) ==> class_of(ty) == state
        }),
{
    lemma_names_differ();
    let ty = TypeShape::Path { name, arguments };
    assert(ty.label() == Some(name@));
    let wrapped = TypeShape::Wrapped(Box::new(inner));
    assert(wrapped.label() == inner.label());
    assert(wrapped.peeled_label("Option"@) == inner.peeled_label("Option"@));
    assert(TypeShape::Other.label() is None);
    assert(TypeShape::Other.peeled_label("Option"@) is None);
    if name@ == "Option"@ {
        lemma_option_is_no_channel();
    }
    if text::has_suffix(name@, "Channel"@) {
        lemma_channel_suffix(name@);
    }
    match arguments {
        Arguments::Angle(Some(first)) => {
            assert(ty.peeled_label("Option"@) == if name@ == "Option"@ {
                first.label()
            } else {
                None
            });
        },
        _ => {
            assert(ty.peeled_label("Option"@) is None);
        },
    }
}

proof fn lemma_channel_suffix(name: Seq<char>)
    requires
        text::has_suffix(name, "Channel"@),
    ensures
        name.last() == 'l',
        name != "AppHandle"@,
        name != "WebviewWindow"@,
        name != "Option"@,
{
    reveal_strlit("Channel");
    reveal_strlit("AppHandle");
    reveal_strlit("WebviewWindow");
    reveal_strlit("Option");
    let at = name.len() - 7;
    assert(name.subrange(at, name.len() as int)[6] == 'l');
    assert("AppHandle"@.last() == 'e');
    assert("WebviewWindow"@.last() == 'w');
    assert("Option"@.last() == 'n');
}

proof fn lemma_option_is_no_channel()
    ensures
        !text::has_suffix("Option"@, "Channel"@),
{
    reveal_strlit("Channel");
    reveal_strlit("Option");
}

/// A plan has a parameter for each that is written, in their order, with its name; what the caller
/// sends is what is of no other class; a window that is not optional is made so; and state is taken
/// from where the host holds it.
pub proof fn lemma_planned_parameters(
    plan: CommandPlan,
    name: Seq<char>,
    arguments: Seq<Argument>,
    output: Option<TypeShape>,
    i: int,
)
    requires
        plan.is_of(name, arguments, output),
        0 <= i < arguments.len(),
    ensures
        plan.params@.len() == arguments.len(),
        arguments[i] matches Argument::Named { name: written, mutable, ty } && {
            let param = plan.params@[i];
            &&& param.name == written
            &&& param.mutable == mutable
            &&& class_of(ty) is Some
            &&& param.class == class_of(ty)->0.class
            &&& param.class == ParamClass::Payload <==> param.source is Payload
            &&& param.class == ParamClass::Window <==> param.source is Window
            &&& param.made_optional ==> param.class == ParamClass::Window
            &&& param.class == ParamClass::Window ==> param.made_optional
                == !class_of(ty)->0.window_already_option
            &&& param.class == ParamClass::Channel && name == "subscribe"@
                ==> param.source is SocketChannel
            &&& param.class == ParamClass::Channel && name != "subscribe"@
                ==> param.source is NamedChannel
            &&& param.class == ParamClass::State && ty.label() == Some("Host"@)
                ==> param.source is Host
            &&& param.class == ParamClass::State && ty.label() != Some("Host"@) ==> (param.source
                matches HttpSource::Field(field) && ty.label() is Some && host_field(ty.label()->0)
                == Some(field@))
        },
{
    assert(plan.params@[i].is_of(arguments[i], plan.socket));
}

/// How a command is called: `subscribe` alone opens a socket; a caller sends nothing where no
/// parameter is his to send, in the address where a socket is opened, and else in the body, with
/// files where one of these parameters is named `paths`.
pub proof fn lemma_how_a_command_is_called(
    plan: CommandPlan,
    name: Seq<char>,
    arguments: Seq<Argument>,
    output: Option<TypeShape>,
)
    requires
        plan.is_of(name, arguments, output),
    ensures
        plan.socket <==> name == "subscribe"@,
        plan.payload == PayloadForm::Absent <==> forall|i: int|
            0 <= i < plan.params@.len() ==> (#[trigger] plan.params@[i]).class
                != ParamClass::Payload,
        plan.payload == PayloadForm::Query ==> plan.socket,
        plan.payload == PayloadForm::Json || plan.payload == PayloadForm::JsonOrMultipart
            ==> !plan.socket,
        !plan.socket ==> (plan.payload == PayloadForm::JsonOrMultipart <==> exists|i: int|
            0 <= i < plan.params@.len() && (#[trigger] plan.params@[i]).class
                == ParamClass::Payload && plan.params@[i].name@ == "paths"@),
        plan.path@ == "/rpc/"@ + name,
        plan.http_name@ == name + "_http"@,
        plan.private_name@ == "__"@ + name,
        plan.route_name@ == "__"@ + name + "_route"@,
{
}

/// What a command answers: the success of a `Result` is what is in its angle brackets; bytes are
/// answered as bytes, bytes or nothing as a file or nothing, which callers see as no value, and all
/// else as a value.
pub proof fn lemma_what_a_command_answers(ok: TypeShape, result: String)
    requires
        result@ == "Result"@,
    ensures
        ({
            let output = Some(
                TypeShape::Path { name: result, arguments: Arguments::Angle(Some(Box::new(ok))) },
            );
            let bytes = ok.label() is Some && text::has_suffix(ok.label()->0, "Bytes"@);
            let optional = ok.peeled_label("Option"@) is Some && text::has_suffix(
                ok.peeled_label("Option"@)->0,
                "Bytes"@,
            );
            &&& ok_type(output) == OkType::Argument
            &&& ok_shape(output) == Some(ok)
            &&& reply_of(output, true) == Reply::Socket
            &&& bytes ==> reply_of(output, false) == Reply::Bytes
            &&& !bytes && optional ==> reply_of(output, false) == Reply::OptionalFile
            &&& !bytes && !optional ==> reply_of(output, false) == Reply::Json
            &&& optional ==> protocol_of(output) == ProtocolResult::Unit
            &&& !optional ==> protocol_of(output) == ProtocolResult::Success(OkType::Argument)
        }),
        ok_type(None) == OkType::Absent,
        reply_of(None, false) == Reply::Json,
        protocol_of(None) == ProtocolResult::AsWritten,
        ok matches TypeShape::Path { name, .. } && name@ != "Result"@ ==> ok_type(Some(ok))
            == OkType::Written,
{
}

/// A name is put together of its words: an underscore ends a word and is left out, and a word has
/// its first character in upper case and the others as they are.
pub proof fn lemma_pascal_case(a: Seq<char>, b: Seq<char>)
    ensures
        pascal_case(a + seq!['_'] + b) == pascal_case(a) + pascal_case(b),
        b.len() > 0 && (forall|i: int| 0 <= i < b.len() ==> #[trigger] b[i] != '_') ==> pascal_case(
            b,
        ) == uppercase(b[0]) + b.skip(1),
    decreases b.len(),
{
    let whole = a + seq!['_'] + b;
    if b.len() == 0 {
        assert(whole.drop_last() =~= a);
        assert(pascal_case(whole) =~= pascal_case(a) + pascal_case(b));
    } else {
        let rest = b.drop_last();
        lemma_pascal_case(a, rest);
        assert(whole.drop_last() =~= a + seq!['_'] + rest);
        assert(whole.last() == b.last());
        if b.len() > 1 {
            assert(whole[whole.len() - 2] == b[b.len() - 2]);
        } else {
            assert(whole[whole.len() - 2] == '_');
        }
        assert(begins_word(whole, whole.len() - 1) == begins_word(b, b.len() - 1));
        assert(pascal_case(whole) =~= pascal_case(a) + pascal_case(b));
        if forall|i: int| 0 <= i < b.len() ==> #[trigger] b[i] != '_' {
            assert(b[b.len() - 1] != '_');
            if b.len() > 1 {
                assert(b[b.len() - 2] != '_');
                assert forall|i: int| 0 <= i < rest.len() implies #[trigger] rest[i] != '_' by {
                    assert(rest[i] == b[i]);
                }
                assert(b.skip(1) =~= rest.skip(1).push(b.last()));
                assert(pascal_case(b) =~= uppercase(b[0]) + b.skip(1));
            } else {
                assert(rest =~= Seq::empty());
                assert(pascal_case(rest) =~= Seq::empty());
                assert(b.skip(1) =~= Seq::empty());
                assert(pascal_case(b) =~= uppercase(b[0]) + b.skip(1));
            }
        }
    }
}

/// What stands against a command: attributes, the first parameter that is a receiver, has no name or
/// is the application's handle, and then the first that is state that the host does not hold. A
/// command against which nothing stands has none of these.
pub proof fn lemma_commands_without_fault(arguments: Seq<Argument>, i: int)
    requires
        command_fault(false, arguments) is None,
        0 <= i < arguments.len(),
    ensures
        arguments[i] is Named,
        class_of(arguments[i]->ty) is Some,
        class_of(arguments[i]->ty)->0.class == ParamClass::State && arguments[i]->ty.label() != Some(
            "Host"@,
        ) ==> host_field(arguments[i]->ty.label()->0) is Some,
        command_fault(true, arguments) == Some(CommandFault::Attributes),
{
    lemma_all_written(arguments, arguments.len(), i);
    lemma_all_known(arguments, arguments.len(), i);
}

proof fn lemma_all_known(arguments: Seq<Argument>, n: nat, i: int)
    requires
        first_unknown_state(arguments, n) is None,
        0 <= i < n,
    ensures
        !is_unknown_state(arguments[i]),
    decreases n,
{
    if i < n - 1 {
        lemma_all_known(arguments, (n - 1) as nat, i);
    }
}

/// A command without attributes whose parameters are all without fault passes; one with attributes
/// never does.
pub proof fn lemma_a_right_command_passes(arguments: Seq<Argument>)
    requires
        forall|i: int|
            0 <= i < arguments.len() ==> #[trigger] written_fault(arguments, i) is None
                && !is_unknown_state(arguments[i]),
    ensures
        command_fault(false, arguments) is None,
        command_fault(true, arguments) == Some(CommandFault::Attributes),
{
    lemma_nothing_is_found(arguments, arguments.len());
}

proof fn lemma_nothing_is_found(arguments: Seq<Argument>, n: nat)
    requires
        n <= arguments.len(),
        forall|i: int|
            0 <= i < arguments.len() ==> #[trigger] written_fault(arguments, i) is None
                && !is_unknown_state(arguments[i]),
    ensures
        first_written_fault(arguments, n) is None,
        first_unknown_state(arguments, n) is None,
    decreases n,
{
    if n > 0 {
        lemma_nothing_is_found(arguments, (n - 1) as nat);
        assert(written_fault(arguments, n - 1) is None);
    }
}

} // verus!
