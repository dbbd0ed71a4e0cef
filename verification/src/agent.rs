//! The agent: who is signed in, and the one request that runs.
use crate::codex::model::CodexModel;
use crate::ids::RunId;
use crate::text;
use crate::text::Edge;
use vstd::prelude::*;

verus! {

/// What is shown while a user signs in.
#[derive(Debug)]
pub enum LoginEvent {
    Progress { message: String },
    DeviceCode { verification_url: String, user_code: String },
}

impl LoginEvent {
    /// The page that is opened for the user.
    pub fn page(&self) -> (r: Option<&String>)
        ensures
            r == match *self {
                LoginEvent::Progress { .. } => None,
                LoginEvent::DeviceCode { verification_url, .. } => Some(&verification_url),
            },
    {
        match self {
            LoginEvent::Progress { .. } => None,
            LoginEvent::DeviceCode { verification_url, .. } => Some(verification_url),
        }
    }
}

/// The agent as it is shown: the account `A` and the settings `C` are carried through.
#[derive(Debug)]
pub struct AgentStatus<A, C> {
    pub account: Option<A>,
    pub models: Vec<CodexModel>,
    pub config: C,
    pub running: Option<RunId>,
}

/// Why the agent does not do what it is asked to.
#[derive(Clone, Copy, Debug, PartialEq, Eq, Structural)]
pub enum AgentFault {
    LoginRunning,
    EmptyMessage,
    NotSignedIn,
    AnotherRequest,
    NotActive(RunId),
}

/// The sign-in and the request that run: at most one of each.
#[derive(Debug)]
pub struct AgentSlots {
    pub login: bool,
    pub run: Option<RunId>,
}

impl AgentSlots {
    /// Nothing runs.
    pub fn new() -> (r: Self)
        ensures
            r.is_idle(),
    {
        AgentSlots { login: false, run: None }
    }

    /// Nothing runs.
    pub open spec fn is_idle(self) -> bool {
        !self.login && self.run is None
    }

    /// Whether nothing runs.
    pub fn idle(&self) -> (r: bool)
        ensures
            r == self.is_idle(),
    {
        !self.login && self.run.is_none()
    }

    /// Begins a sign-in, unless one runs.
    pub fn begin_login(&mut self) -> (r: Result<(), AgentFault>)
        ensures
            old(self).login ==> r == Err::<(), _>(AgentFault::LoginRunning) && *final(self) == *old(self),
            !old(self).login ==> r is Ok && *final(self) == (AgentSlots {
                login: true,
                ..*old(self)
            }),
    {
        if self.login {
            return Err(AgentFault::LoginRunning);
        }
        self.login = true;
        Ok(())
    }

    /// The sign-in has ended.
    pub fn end_login(&mut self)
        ensures
            *final(self) == (AgentSlots { login: false, ..*old(self) }),
    {
        self.login = false;
    }

    /// Begins a request: of a message that is not blank, by a user who is signed in, where no other
    /// runs. It gives the message without the whitespace around it.
    pub fn begin_run(&mut self, prompt: &str, signed_in: bool, run: RunId) -> (r: Result<
        String,
        AgentFault,
    >)
        ensures
            ({
                let message = text::trim(prompt@, Edge::Whitespace);
                if message.len() == 0 {
                    r == Err::<String, _>(AgentFault::EmptyMessage) && *final(self) == *old(self)
                } else if !signed_in {
                    r == Err::<String, _>(AgentFault::NotSignedIn) && *final(self) == *old(self)
                } else if old(self).run is Some {
                    r == Err::<String, _>(AgentFault::AnotherRequest) && *final(self) == *old(self)
                } else {
                    (r matches Ok(sent) && sent@ == message) && *final(self) == (AgentSlots {
                        run: Some(run),
                        ..*old(self)
                    })
                }
            }),
    {
        let message = text::trimmed(prompt, Edge::Whitespace);
        if message.as_str().is_empty() {
            return Err(AgentFault::EmptyMessage);
        }
        if !signed_in {
            return Err(AgentFault::NotSignedIn);
        }
        if self.run.is_some() {
            return Err(AgentFault::AnotherRequest);
        }
        self.run = Some(run);
        Ok(message)
    }

    /// A request has ended.
    pub fn end_run(&mut self, run: RunId)
        ensures
            *final(self) == (AgentSlots {
                run: if old(self).run == Some(run) {
                    None
                } else {
                    old(self).run
                },
                ..*old(self)
            }),
    {
        match self.run {
            Some(active) => {
                if active == run {
                    self.run = None;
                }
            },
            None => {},
        }
    }

    /// Whether a request can be given up: it is the one that runs.
    pub fn cancel(&self, run: RunId) -> (r: Result<(), AgentFault>)
        ensures
            self.run == Some(run) ==> r is Ok,
            self.run != Some(run) ==> r == Err::<(), _>(AgentFault::NotActive(run)),
    {
        match self.run {
            Some(active) => {
                if active == run {
                    return Ok(());
                }
            },
            None => {},
        }
        Err(AgentFault::NotActive(run))
    }

    /// Gives up everything that runs. It says what has to be told: the sign-in, and a request.
    pub fn cancel_all(&mut self) -> (r: (bool, Option<RunId>))
        ensures
            final(self).is_idle(),
            r == (old(self).login, old(self).run),
    {
        let told = (self.login, self.run);
        self.login = false;
        self.run = None;
        told
    }
}

/// The models that are shown, given what came of asking for them: where asking failed since the
/// user is no longer signed in, there are none.
pub fn settle_models<E>(models: Result<Vec<CodexModel>, E>, still_signed_in: bool) -> (r: Result<
    Vec<CodexModel>,
    E,
>)
    ensures
        match models {
            Ok(models) => r == Ok::<Vec<CodexModel>, E>(models),
            Err(error) => if still_signed_in {
                r == Err::<Vec<CodexModel>, E>(error)
            } else {
                r matches Ok(none) && none@.len() == 0
            },
        },
{
    match models {
        Ok(models) => Ok(models),
        Err(error) => {
            if still_signed_in {
                Err(error)
            } else {
                Ok(Vec::new())
            }
        },
    }
}

impl AgentFault {
    /// What is said of the fault.
    pub open spec fn says(self) -> Seq<char> {
        match self {
            AgentFault::LoginRunning => "Codex sign-in is already running"@,
            AgentFault::EmptyMessage => "message cannot be empty"@,
            AgentFault::NotSignedIn => "Codex is not signed in"@,
            AgentFault::AnotherRequest => "another agent request is already running"@,
            AgentFault::NotActive(run) => "agent run "@ + crate::ids::uuid_text(run.0)
                + " is not active"@,
        }
    }

    /// What is said of the fault.
    pub fn message(self) -> (r: String)
        ensures
            r@ == self.says(),
    {
        match self {
            AgentFault::LoginRunning => "Codex sign-in is already running".to_owned(),
            AgentFault::EmptyMessage => "message cannot be empty".to_owned(),
            AgentFault::NotSignedIn => "Codex is not signed in".to_owned(),
            AgentFault::AnotherRequest => "another agent request is already running".to_owned(),
            AgentFault::NotActive(run) => {
                let mut message = text::joined(
                    "agent run ",
                    crate::ids::written_name(run.0).as_str(),
                );
                message.append(" is not active");
                message
            },
        }
    }
}

} // verus!
