//! Which failures of the service are worth another attempt, and when.
use crate::text;
use vstd::prelude::*;

verus! {

/// How many attempts one request gets before its failure is final.
pub const MAX_ATTEMPTS: usize = 3;

/// The longest wait that the service may ask for, in seconds.
pub const MAX_RETRY_AFTER_SECS: u64 = 60;

/// How many bytes of a refusal are shown.
pub const MAX_BODY_BYTES: usize = 16384;

/// A failure as the application reports it.
pub struct Failure {
    /// A source of the failure is a transport error: a timeout, a lost connection or a lost body.
    pub transport: bool,
    /// The failure with its causes, as it is shown.
    pub message: String,
}

/// What came of an attempt.
pub enum Reply {
    /// The request could not be sent, or its answer not be read.
    Failed(Failure),
    /// The service refused with this status and, where it said so, a time to wait in seconds.
    Refused { status: u16, retry_after: Option<u64> },
    /// The service answered.
    Answered,
}

/// What follows an attempt.
#[derive(Clone, Copy, Debug, PartialEq, Eq, Structural)]
pub enum NextStep {
    /// Another attempt after that many seconds.
    Retry { after_secs: u64 },
    /// The failure is final.
    GiveUp,
    /// The request is answered.
    Done,
}

/// Whether attempt number `attempt` is followed by another.
pub open spec fn retries(attempt: int, transient: bool) -> bool {
    transient && attempt + 1 < MAX_ATTEMPTS
}

/// The wait before the attempt behind number `attempt`, in seconds.
pub open spec fn wait_secs(attempt: int) -> u64 {
    if attempt == 0 {
        2
    } else {
        5
    }
}

/// One of the words of a lost connection stands in the message.
pub open spec fn names_lost_connection(message: Seq<char>) -> bool {
    let m = text::ascii_lower(message);
    ||| text::contains_text(m, "connection reset"@)
    ||| text::contains_text(m, "connection error"@)
    ||| text::contains_text(m, "os error 10054"@)
    ||| text::contains_text(m, "timed out"@)
    ||| text::contains_text(m, "response stream ended before completion"@)
}

impl Failure {
    pub open spec fn transient(self) -> bool {
        self.transport || names_lost_connection(self.message@)
    }
}

pub open spec fn status_is_transient(status: u16) -> bool {
    status == 429 || status == 500 || status == 502 || status == 503 || status == 504
}

/// What follows attempt number `attempt`.
pub open spec fn step_after(attempt: int, reply: Reply) -> NextStep {
    match reply {
        Reply::Answered => NextStep::Done,
        Reply::Failed(failure) => if retries(attempt, failure.transient()) {
            NextStep::Retry { after_secs: wait_secs(attempt) }
        } else {
            NextStep::GiveUp
        },
        Reply::Refused { status, retry_after } => if retries(attempt, status_is_transient(status)) {
            NextStep::Retry {
                after_secs: match retry_after {
                    Some(secs) => secs,
                    None => wait_secs(attempt),
                },
            }
        } else {
            NextStep::GiveUp
        },
    }
}

/// Whether a failure of attempt number `attempt` is followed by another attempt.
pub fn should_retry(attempt: usize, transient: bool) -> (r: bool)
    ensures
        r == retries(attempt as int, transient),
{
    transient && attempt < MAX_ATTEMPTS - 1
}

/// The wait before the attempt behind number `attempt`, in seconds.
pub fn backoff(attempt: usize) -> (secs: u64)
    ensures
        secs == wait_secs(attempt as int),
{
    if attempt == 0 {
        2
    } else {
        5
    }
}

/// The wait that the service asks for, in seconds: the number in its header, cut to a minute.
pub fn retry_after(header: Option<&str>) -> (r: Option<u64>)
    ensures
        r == (match header {
            None => None,
            Some(s) => match text::read_u64(s@) {
                None => None,
                Some(n) => Some(
                    if n > MAX_RETRY_AFTER_SECS {
                        MAX_RETRY_AFTER_SECS
                    } else {
                        n as u64
                    },
                ),
            },
        }),
{
    match header {
        None => None,
        Some(s) => match text::parse_u64(s) {
            None => None,
            Some(secs) => if secs > MAX_RETRY_AFTER_SECS {
                Some(MAX_RETRY_AFTER_SECS)
            } else {
                Some(secs)
            },
        },
    }
}

/// Whether a status says that the service may answer later.
pub fn is_transient_status(status: u16) -> (r: bool)
    ensures
        r == status_is_transient(status),
{
    status == 429 || status == 500 || status == 502 || status == 503 || status == 504
}

/// Whether a status says that the session has to be renewed, which is tried once.
pub fn is_unauthorized(status: u16) -> (r: bool)
    ensures
        r == (status == 401),
{
    status == 401
}

/// Whether a failure comes of a connection that may hold the next time.
pub fn is_transient_error(failure: &Failure) -> (r: bool)
    ensures
        r == failure.transient(),
{
    if failure.transport {
        return true;
    }
    let message = text::ascii_lowered(failure.message.as_str());
    text::contains(message.as_str(), "connection reset") || text::contains(
        message.as_str(),
        "connection error",
    ) || text::contains(message.as_str(), "os error 10054") || text::contains(
        message.as_str(),
        "timed out",
    ) || text::contains(message.as_str(), "response stream ended before completion")
}

/// What follows attempt number `attempt`.
pub fn next_step(attempt: usize, reply: &Reply) -> (r: NextStep)
    ensures
        r == step_after(attempt as int, *reply),
{
    match reply {
        Reply::Answered => NextStep::Done,
        Reply::Failed(failure) => {
            if should_retry(attempt, is_transient_error(failure)) {
                NextStep::Retry { after_secs: backoff(attempt) }
            } else {
                NextStep::GiveUp
            }
        },
        Reply::Refused { status, retry_after } => {
            if should_retry(attempt, is_transient_status(*status)) {
                match retry_after {
                    Some(secs) => NextStep::Retry { after_secs: *secs },
                    None => NextStep::Retry { after_secs: backoff(attempt) },
                }
            } else {
                NextStep::GiveUp
            }
        },
    }
}

/// The last attempt is never followed by another: a request ends after three attempts at most.
pub proof fn lemma_last_attempt_ends(attempt: int, reply: Reply)
    requires
        attempt >= MAX_ATTEMPTS - 1,
    ensures
        !(step_after(attempt, reply) is Retry),
{
}

/// What is shown of a refusal: its first bytes.
pub fn shown_body(body: String) -> (r: String)
    requires
        body@.len() > 0 && vstd::utf8::encode_utf8(body@).len() > MAX_BODY_BYTES
            ==> vstd::utf8::is_char_boundary(
            vstd::utf8::encode_utf8(body@),
            MAX_BODY_BYTES as int,
        ),
    ensures
        vstd::utf8::encode_utf8(body@).len() <= MAX_BODY_BYTES ==> r@ == body@,
        vstd::utf8::encode_utf8(body@).len() > MAX_BODY_BYTES ==> vstd::utf8::encode_utf8(r@)
            == vstd::utf8::encode_utf8(body@).take(MAX_BODY_BYTES as int),
{
    if text::byte_len(body.as_str()) <= MAX_BODY_BYTES {
        return body;
    }
    let (head, _rest) = body.as_str().split_at(MAX_BODY_BYTES);
    head.to_owned()
}

/// What follows each attempt. An answer ends the request. A failure of the transport, one whose
/// message tells of a lost connection, and a refusal that will pass are tried again twice, after two
/// seconds and after five, or after the time that the service asks for. Any other failure is final.
pub proof fn lemma_what_follows_an_attempt(attempt: int, reply: Reply)
    requires
        0 <= attempt,
    ensures
        reply is Answered <==> step_after(attempt, reply) is Done,
        reply matches Reply::Failed(failure) ==> (step_after(attempt, reply) is Retry <==> attempt
            < 2 && (failure.transport || names_lost_connection(failure.message@))),
        reply matches Reply::Refused { status, .. } ==> (step_after(attempt, reply) is Retry
            <==> attempt < 2 && (status == 429 || status == 500 || status == 502 || status == 503
            || status == 504)),
        step_after(attempt, reply) matches NextStep::Retry { after_secs } ==> (
        reply matches Reply::Refused { retry_after: Some(secs), .. } && after_secs == secs) || (!(
        reply matches Reply::Refused { retry_after: Some(_), .. }) && after_secs == (if attempt
            == 0 {
            2u64
        } else {
            5u64
        })),
{
}

/// What tells of a lost connection, in letters of either case.
pub proof fn lemma_words_of_a_lost_connection(message: Seq<char>)
    ensures
        ({
            let lower = text::ascii_lower(message);
            names_lost_connection(message) <==> text::contains_text(lower, "connection reset"@)
                || text::contains_text(lower, "connection error"@) || text::contains_text(
                lower,
                "os error 10054"@,
            ) || text::contains_text(lower, "timed out"@) || text::contains_text(
                lower,
                "response stream ended before completion"@,
            )
        }),
{
}

} // verus!
