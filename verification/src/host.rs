//! What the local server decides: where events go, which file names are taken, what is shown of
//! downloads.
pub mod form;
pub mod socket;

use crate::text;
use vstd::prelude::*;

verus! {

/// Why a call failed.
#[derive(Debug)]
pub struct ApiError(pub String);

/// A file that a call gives back.
#[derive(Debug)]
pub struct HttpFile {
    pub bytes: Vec<u8>,
    pub content_type: &'static str,
    pub filename: Option<String>,
}

/// How a file is answered: its type, and the header that names it where it has a name that a header
/// can hold.
#[derive(Debug)]
pub struct FileHeaders {
    pub content_type: &'static str,
    pub disposition: Option<String>,
}

impl HttpFile {
    /// How the file is answered.
    pub fn headers(&self) -> (r: FileHeaders)
        ensures
            r.content_type == self.content_type,
            match self.filename {
                Some(name) => match disposition(name@) {
                    Some(value) => r.disposition matches Some(header) && header@ == value,
                    None => r.disposition is None,
                },
                None => r.disposition is None,
            },
    {
        FileHeaders {
            content_type: self.content_type,
            disposition: match &self.filename {
                Some(name) => disposition_filename(name.as_str()),
                None => None,
            },
        }
    }
}

/// The channel that the events of a command's parameter go to.
pub open spec fn channel_of(command: Seq<char>, param: Seq<char>) -> Option<Seq<char>> {
    if command == "subscribe"@ {
        if param == "on_canvas"@ {
            Some("canvas"@)
        } else if param == "on_job"@ {
            Some("job"@)
        } else if param == "on_download"@ {
            Some("download"@)
        } else if param == "on_resources"@ {
            Some("resources"@)
        } else if param == "on_project"@ {
            Some("project"@)
        } else {
            None
        }
    } else if command == "login_agent"@ && param == "on_event"@ {
        Some("agent_login"@)
    } else if command == "run_agent"@ && param == "on_event"@ {
        Some("agent_event"@)
    } else {
        None
    }
}

/// The channel that the events of a command's parameter go to.
pub fn envelope_channel(command: &str, param: &str) -> (r: Result<&'static str, ApiError>)
    ensures
        match channel_of(command@, param@) {
            Some(channel) => r matches Ok(name) && name@ == channel,
            None => r matches Err(ApiError(message)) && message@ == "unknown channel "@ + command@
                + "/"@ + param@,
        },
{
    if text::same(command, "subscribe") {
        if text::same(param, "on_canvas") {
            return Ok("canvas");
        }
        if text::same(param, "on_job") {
            return Ok("job");
        }
        if text::same(param, "on_download") {
            return Ok("download");
        }
        if text::same(param, "on_resources") {
            return Ok("resources");
        }
        if text::same(param, "on_project") {
            return Ok("project");
        }
    } else if text::same(command, "login_agent") && text::same(param, "on_event") {
        return Ok("agent_login");
    } else if text::same(command, "run_agent") && text::same(param, "on_event") {
        return Ok("agent_event");
    }
    let mut message = text::joined("unknown channel ", command);
    message.append("/");
    message.append(param);
    Err(ApiError(message))
}

// ---------------------------------------------------------------------------------------------
// File names
// ---------------------------------------------------------------------------------------------

/// A character that would end or break the quoted name in a header.
pub open spec fn breaks_header(c: char) -> bool {
    c == '"' || c == '\\' || c == '\r' || c == '\n'
}

/// A character that a header takes.
pub open spec fn header_takes_char(c: char) -> bool {
    c == '\t' || (c >= ' ' && c != '\u{7f}')
}

/// `axum::http::HeaderValue::from_str`: a text can be the value of a header where every byte of it is
/// a tab, or is neither a control character nor the delete character. All bytes of a character
/// beyond ASCII are taken.
#[verifier::external_body]
fn header_takes(text: &str) -> (r: bool)
    ensures
        r == (forall|i: int| 0 <= i < text@.len() ==> header_takes_char(#[trigger] text@[i])),
{
    axum::http::HeaderValue::from_str(text).is_ok()
}

/// The name with an underscore in place of each character that would break the header.
pub open spec fn header_name(s: Seq<char>) -> Seq<char> {
    Seq::new(
        s.len(),
        |i: int|
            if breaks_header(s[i]) {
                '_'
            } else {
                s[i]
            },
    )
}

/// The header that names a file, where a header can hold the name.
pub open spec fn disposition(name: Seq<char>) -> Option<Seq<char>> {
    let value = "attachment; filename=\""@ + header_name(name) + "\""@;
    if forall|i: int| 0 <= i < value.len() ==> header_takes_char(#[trigger] value[i]) {
        Some(value)
    } else {
        None
    }
}

/// The header that names a file, where a header can hold the name.
pub fn disposition_filename(name: &str) -> (r: Option<String>)
    ensures
        match disposition(name@) {
            Some(value) => r matches Some(header) && header@ == value,
            None => r is None,
        },
{
    let v = text::chars_of(name);
    let mut safe = String::new();
    let mut i: usize = 0;
    while i < v.len()
        invariant
            v@ == name@,
            i <= v@.len(),
            safe@ == header_name(name@).take(i as int),
        decreases v@.len() - i,
    {
        let c = v[i];
        if c == '"' || c == '\\' || c == '\r' || c == '\n' {
            safe.push('_');
        } else {
            safe.push(c);
        }
        assert(header_name(name@).take(i + 1) =~= header_name(name@).take(i as int).push(
            header_name(name@)[i as int],
        ));
        i += 1;
    }
    assert(header_name(name@).take(i as int) =~= header_name(name@));
    let mut value = text::joined("attachment; filename=\"", safe.as_str());
    value.append("\"");
    if header_takes(value.as_str()) {
        Some(value)
    } else {
        None
    }
}

/// The name that an uploaded file is kept under: its own, where it is the name of a file.
pub fn safe_filename(file_name: Option<String>) -> (r: String)
    ensures
        match file_name {
            Some(name) => if name@.len() == 0 || name@ == "."@ || name@ == ".."@ {
                r@ == "upload"@
            } else {
                r == name
            },
            None => r@ == "upload"@,
        },
{
    match file_name {
        Some(name) => {
            if name.as_str().is_empty() || text::same(name.as_str(), ".") || text::same(
                name.as_str(),
                "..",
            ) {
                "upload".to_owned()
            } else {
                name
            }
        },
        None => "upload".to_owned(),
    }
}

/// The name that is tried for a file whose name is taken, the `index`-th time.
pub open spec fn other_name(stem: Seq<char>, ext: Seq<char>, index: nat) -> Seq<char> {
    let numbered = stem + "-"@ + text::decimal(index);
    if ext.len() == 0 {
        numbered
    } else {
        numbered + "."@ + ext
    }
}

/// The name that is tried for a file whose name is taken, the `index`-th time.
pub fn numbered_name(stem: &str, ext: &str, index: usize) -> (r: String)
    ensures
        r@ == other_name(stem@, ext@, index as nat),
{
    let number = text::decimal_text(index);
    let mut name = text::joined(stem, "-");
    name.append(number.as_str());
    if !ext.is_empty() {
        name.append(".");
        name.append(ext);
    }
    name
}

/// Different tries give different names, so that a free one is found.
pub proof fn lemma_numbered_names_differ(stem: Seq<char>, ext: Seq<char>, i: nat, j: nat)
    requires
        i != j,
    ensures
        other_name(stem, ext, i) != other_name(stem, ext, j),
{
    let a = text::decimal(i);
    let b = text::decimal(j);
    text::lemma_decimal_injective(i, j);
    let head = stem + "-"@;
    let tail = if ext.len() == 0 {
        Seq::empty()
    } else {
        "."@ + ext
    };
    assert(other_name(stem, ext, i) =~= head + a + tail);
    assert(other_name(stem, ext, j) =~= head + b + tail);
    if head + a + tail == head + b + tail {
        assert(a.len() == b.len()) by {
            assert((head + a + tail).len() == (head + b + tail).len());
        }
        assert forall|k: int| 0 <= k < a.len() implies a[k] == b[k] by {
            assert((head + a + tail)[head.len() + k] == a[k]);
            assert((head + b + tail)[head.len() + k] == b[k]);
        }
        assert(a =~= b);
    }
}

/// A part of a path.
#[derive(Clone, Copy, Debug, PartialEq, Eq, Structural)]
pub enum PathPart {
    /// The directory above.
    Parent,
    Other,
}

/// The path at this place leads upwards.
#[derive(Clone, Copy, Debug, PartialEq, Eq, Structural)]
pub struct ParentPath(pub usize);

/// The path leads upwards.
pub open spec fn leads_up(parts: Seq<PathPart>) -> bool {
    parts.contains(PathPart::Parent)
}

/// Whether files may be imported from these paths: none may lead upwards.
pub fn check_import_paths(paths: &Vec<Vec<PathPart>>) -> (r: Result<(), ParentPath>)
    ensures
        match r {
            Ok(()) => forall|i: int| 0 <= i < paths@.len() ==> !leads_up((#[trigger] paths@[i])@),
            Err(ParentPath(at)) => at < paths@.len() && leads_up(paths@[at as int]@) && forall|
                i: int,
            |
                0 <= i < at ==> !leads_up((#[trigger] paths@[i])@),
        },
{
    let mut i: usize = 0;
    while i < paths.len()
        invariant
            i <= paths@.len(),
            forall|k: int| 0 <= k < i ==> !leads_up((#[trigger] paths@[k])@),
        decreases paths@.len() - i,
    {
        let parts = &paths[i];
        let mut k: usize = 0;
        while k < parts.len()
            invariant
                i < paths@.len(),
                *parts == paths@[i as int],
                k <= parts@.len(),
                forall|q: int| 0 <= q < i ==> !leads_up((#[trigger] paths@[q])@),
                forall|q: int| 0 <= q < k ==> #[trigger] parts@[q] != PathPart::Parent,
            decreases parts@.len() - k,
        {
            if parts[k] == PathPart::Parent {
                assert(parts@.contains(parts@[k as int]));
                return Err(ParentPath(i));
            }
            k += 1;
        }
        i += 1;
    }
    Ok(())
}

// ---------------------------------------------------------------------------------------------
// Downloads
// ---------------------------------------------------------------------------------------------

/// What a download tells of itself.
#[derive(Debug)]
pub enum DownloadEvent {
    Started { id: u64, name: String },
    Progress { id: u64, name: String, completed: u64, total: u64 },
    Finished { id: u64 },
    Failed { id: u64, name: String, error: String },
}

/// Whether a download runs, and how it ended.
#[derive(Clone, Copy, Debug, PartialEq, Eq, Structural)]
pub enum DownloadState {
    Running,
    Finished,
    Failed,
}

/// A download as it is shown.
#[derive(Debug)]
pub struct Download {
    pub id: u64,
    pub state: DownloadState,
    pub name: Option<String>,
    pub completed: u64,
    pub total: u64,
    pub error: Option<String>,
}

/// A download as it is shown after an event.
pub fn shown_download(event: DownloadEvent) -> (r: Download)
    ensures
        r == match event {
            DownloadEvent::Started { id, name } => Download {
                id,
                state: DownloadState::Running,
                name: Some(name),
                completed: 0,
                total: 0,
                error: None,
            },
            DownloadEvent::Progress { id, name, completed, total } => Download {
                id,
                state: DownloadState::Running,
                name: Some(name),
                completed,
                total,
                error: None,
            },
            DownloadEvent::Finished { id } => Download {
                id,
                state: DownloadState::Finished,
                name: None,
                completed: 0,
                total: 0,
                error: None,
            },
            DownloadEvent::Failed { id, name, error } => Download {
                id,
                state: DownloadState::Failed,
                name: Some(name),
                completed: 0,
                total: 0,
                error: Some(error),
            },
        },
{
    match event {
        DownloadEvent::Started { id, name } => Download {
            id,
            state: DownloadState::Running,
            name: Some(name),
            completed: 0,
            total: 0,
            error: None,
        },
        DownloadEvent::Progress { id, name, completed, total } => Download {
            id,
            state: DownloadState::Running,
            name: Some(name),
            completed,
            total,
            error: None,
        },
        DownloadEvent::Finished { id } => Download {
            id,
            state: DownloadState::Finished,
            name: None,
            completed: 0,
            total: 0,
            error: None,
        },
        DownloadEvent::Failed { id, name, error } => Download {
            id,
            state: DownloadState::Failed,
            name: Some(name),
            completed: 0,
            total: 0,
            error: Some(error),
        },
    }
}

/// Each parameter has a channel of its own, and nothing else has one.
pub proof fn lemma_channels(command: Seq<char>, param: Seq<char>)
    ensures
        ({
            let channel = channel_of(command, param);
            let subscribes = command == "subscribe"@;
            &&& subscribes && param == "on_canvas"@ ==> channel == Some("canvas"@)
            &&& subscribes && param == "on_job"@ ==> channel == Some("job"@)
            &&& subscribes && param == "on_download"@ ==> channel == Some("download"@)
            &&& subscribes && param == "on_resources"@ ==> channel == Some("resources"@)
            &&& subscribes && param == "on_project"@ ==> channel == Some("project"@)
            &&& command == "login_agent"@ && param == "on_event"@ ==> channel == Some(
                "agent_login"@,
            )
            &&& command == "run_agent"@ && param == "on_event"@ ==> channel == Some("agent_event"@)
            &&& !subscribes && param != "on_event"@ ==> channel is None
            &&& !subscribes && command != "login_agent"@ && command != "run_agent"@
                ==> channel is None
            &&& subscribes && param != "on_canvas"@ && param != "on_job"@ && param
                != "on_download"@ && param != "on_resources"@ && param != "on_project"@
                ==> channel is None
        }),
{
    reveal_strlit("subscribe");
    reveal_strlit("login_agent");
    reveal_strlit("run_agent");
    assert("subscribe"@.len() == 9 && "login_agent"@.len() == 11 && "run_agent"@.len() == 9);
    assert("subscribe"@[0] == 's' && "run_agent"@[0] == 'r');
    reveal_strlit("on_canvas");
    reveal_strlit("on_job");
    reveal_strlit("on_download");
    reveal_strlit("on_resources");
    reveal_strlit("on_project");
    assert("on_canvas"@.len() == 9 && "on_job"@.len() == 6 && "on_download"@.len() == 11);
    assert("on_resources"@.len() == 12 && "on_project"@.len() == 10);
}

/// The header that names a file holds the name in quotes, with an underscore for each character that
/// would end them; every other character stays. A name with a control character is not held.
pub proof fn lemma_a_named_file(name: Seq<char>, i: int)
    requires
        0 <= i < name.len(),
    ensures
        header_name(name).len() == name.len(),
        name[i] == '"' || name[i] == '\\' || name[i] == '\r' || name[i] == '\n' ==> header_name(
            name,
        )[i] == '_',
        !(name[i] == '"' || name[i] == '\\' || name[i] == '\r' || name[i] == '\n') ==> header_name(
            name,
        )[i] == name[i],
        disposition(name) matches Some(value) ==> value == "attachment; filename=\""@ + header_name(
            name,
        ) + "\""@,
        (name[i] < ' ' && name[i] != '\t' && name[i] != '\r' && name[i] != '\n') || name[i]
            == '\u{7f}' ==> disposition(name) is None,
{
    let head = "attachment; filename=\""@;
    let value = head + header_name(name) + "\""@;
    let at = head.len() + i;
    assert(value[at] == header_name(name)[i]);
    if (name[i] < ' ' && name[i] != '\t' && name[i] != '\r' && name[i] != '\n') || name[i]
        == '\u{7f}' {
        assert(0 <= at < value.len() && !header_takes_char(value[at]));
    }
}

} // verus!
