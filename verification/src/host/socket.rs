//! The socket that events are sent through.
use crate::host;
use crate::host::{envelope_channel, ApiError};
use crate::json;
use crate::json::{Json, Member};
use vstd::prelude::*;

verus! {

/// The session that events are sent to. A new one takes the place of the one before it.
#[derive(Clone, Copy, Debug, PartialEq, Eq, Structural)]
pub struct SessionSlot {
    /// The session that is open.
    pub open: Option<u64>,
    /// The last session that was opened.
    pub last: u64,
}

impl SessionSlot {
    /// No session was opened after the last.
    pub open spec fn wf(self) -> bool {
        self.open matches Some(session) ==> session <= self.last
    }

    /// The slot after a session has ended. One that was opened since is left open.
    pub open spec fn after_end(self, session: u64) -> SessionSlot {
        SessionSlot {
            open: if self.open == Some(session) {
                None
            } else {
                self.open
            },
            ..self
        }
    }

    /// No session was opened yet.
    pub fn new() -> (r: Self)
        ensures
            r.wf(),
            r.open is None,
            r.last == 0,
    {
        SessionSlot { open: None, last: 0 }
    }

    /// Opens a session. It gives its number, and the session that has to be ended.
    pub fn begin(&mut self) -> (r: (u64, Option<u64>))
        requires
            old(self).wf(),
            old(self).last < u64::MAX,
        ensures
            final(self).wf(),
            r == ((old(self).last + 1) as u64, old(self).open),
            *final(self) == (SessionSlot { open: Some(r.0), last: r.0 }),
            old(self).open != Some(r.0),
    {
        let previous = self.open;
        let session: u64 = self.last + 1;
        self.last = session;
        self.open = Some(session);
        (session, previous)
    }

    /// A session has ended. One that was opened since is left open.
    pub fn end(&mut self, session: u64)
        requires
            old(self).wf(),
        ensures
            final(self).wf(),
            *final(self) == old(self).after_end(session),
    {
        match self.open {
            Some(open) => {
                if open == session {
                    self.open = None;
                }
            },
            None => {},
        }
    }
}

// ---------------------------------------------------------------------------------------------
// What is sent
// ---------------------------------------------------------------------------------------------

/// A value that is sent on a channel.
pub fn envelope(channel: &str, payload: Json) -> (r: Json)
    ensures
        r matches Json::Object(members) && members@.len() == 2 && members@[0].key@ == "channel"@
            && members@[0].value.text() == Some(channel@) && members@[1].key@ == "payload"@
            && members@[1].value == payload,
{
    let channel = Json::Text(channel.to_owned());
    let members: Vec<Member> = vec![
        json::member("channel", channel),
        json::member("payload", payload),
    ];
    Json::Object(members)
}

/// A failure to begin, as it is sent.
pub fn error_envelope(error: &str) -> (r: Json)
    ensures
        r matches Json::Object(members) && members@.len() == 2 && members@[0].key@ == "channel"@
            && members@[0].value.text() == Some("startup"@) && members@[1].key@ == "error"@
            && members@[1].value.text() == Some(error@),
{
    let channel = Json::Text("startup".to_owned());
    let error = Json::Text(error.to_owned());
    let members: Vec<Member> = vec![json::member("channel", channel), json::member("error", error)];
    Json::Object(members)
}

/// The channel that a posted command sends its events on. It needs a session that was opened before.
pub fn posted_channel(slot: &SessionSlot, command: &str, param: &str) -> (r: Result<
    &'static str,
    ApiError,
>)
    ensures
        match host::channel_of(command@, param@) {
            Some(channel) => if slot.open is Some {
                r matches Ok(name) && name@ == channel
            } else {
                r matches Err(ApiError(message)) && message@ == "no active subscribe session"@
            },
            None => r matches Err(ApiError(message)) && message@ == "unknown channel "@ + command@
                + "/"@ + param@,
        },
{
    match envelope_channel(command, param) {
        Ok(channel) => {
            if slot.open.is_some() {
                Ok(channel)
            } else {
                Err(ApiError("no active subscribe session".to_owned()))
            }
        },
        Err(error) => Err(error),
    }
}

/// What a session begins with: what is sent, and whether the session ends.
pub struct SessionStart {
    pub message: Json,
    pub ends: bool,
}

/// How a session begins, given the state that it is to show: `Ok(None)` where the state could not be
/// written down, `Err` where there is none.
pub fn complete(result: Result<Option<Json>, String>) -> (r: SessionStart)
    ensures
        r.message is Object,
        match result {
            Ok(Some(state)) => !r.ends && r.message.field_text("channel"@) == Some("startup"@)
                && r.message.field("payload"@) == Some(state),
            Ok(None) => r.ends && r.message.field_text("channel"@) == Some("startup"@)
                && r.message.field_text("error"@) == Some("failed to serialize startup state"@),
            Err(error) => r.ends && r.message.field_text("channel"@) == Some("startup"@)
                && r.message.field_text("error"@) == Some(error@),
        },
{
    proof {
        reveal_strlit("channel");
        reveal_strlit("payload");
        reveal_strlit("error");
        assert("channel"@[0] != "payload"@[0]);
        assert("channel"@.len() != "error"@.len());
        reveal_with_fuel(json::member_value, 3);
    }
    match result {
        Ok(Some(state)) => {
            let message = envelope("startup", state);
            SessionStart { message, ends: false }
        },
        Ok(None) => {
            let message = error_envelope("failed to serialize startup state");
            SessionStart { message, ends: true }
        },
        Err(error) => {
            let message = error_envelope(error.as_str());
            SessionStart { message, ends: true }
        },
    }
}

// ---------------------------------------------------------------------------------------------
// The loop
// ---------------------------------------------------------------------------------------------

/// What happens at a socket.
#[derive(Clone, Copy, Debug, PartialEq, Eq, Structural)]
pub enum SocketEvent {
    /// A value is to be sent, and can be written down.
    Outbound,
    /// A value is to be sent that cannot be written down.
    Unwritable,
    /// Nothing will be sent any more.
    OutboundClosed,
    Ping,
    /// The other side closed the socket, or it is gone.
    Closed,
    /// Anything else came in.
    OtherMessage,
    ReceiveFailed,
    /// What was asked for was sent, or not.
    Sent(bool),
}

/// What is done at a socket.
#[derive(Clone, Copy, Debug, PartialEq, Eq, Structural)]
pub enum SocketStep {
    SendValue,
    SendPong,
    Wait,
    /// The session has ended.
    End,
}

/// What is done after an event: values are sent, pings are answered, and the session ends with the
/// socket, with the sender, or when something could not be sent.
pub fn socket_step(event: SocketEvent) -> (r: SocketStep)
    ensures
        r == match event {
            SocketEvent::Outbound => SocketStep::SendValue,
            SocketEvent::Ping => SocketStep::SendPong,
            SocketEvent::Unwritable | SocketEvent::OtherMessage | SocketEvent::Sent(true) =>
                SocketStep::Wait,
            SocketEvent::OutboundClosed | SocketEvent::Closed | SocketEvent::ReceiveFailed
            | SocketEvent::Sent(false) => SocketStep::End,
        },
{
    match event {
        SocketEvent::Outbound => SocketStep::SendValue,
        SocketEvent::Ping => SocketStep::SendPong,
        SocketEvent::Unwritable => SocketStep::Wait,
        SocketEvent::OtherMessage => SocketStep::Wait,
        SocketEvent::Sent(sent) => if sent {
            SocketStep::Wait
        } else {
            SocketStep::End
        },
        SocketEvent::OutboundClosed => SocketStep::End,
        SocketEvent::Closed => SocketStep::End,
        SocketEvent::ReceiveFailed => SocketStep::End,
    }
}

/// A session that has ended takes nothing from the one that was opened after it.
pub proof fn lemma_old_session_ends_alone(slot: SessionSlot, begun: u64, later: u64)
    requires
        slot.wf(),
        slot.open == Some(later),
        begun < later,
    ensures
        slot.after_end(begun) == slot,
{
}

} // verus!
