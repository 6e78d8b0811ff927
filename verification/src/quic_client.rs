//! The client's side of the transport: when a connection attempt is made
//! again, and how a failure is named.

use vstd::prelude::*;
use vstd::utf8::{decode_utf8, valid_utf8};
use crate::dispatch::{json_field_present, json_has_field};
use crate::text::utf8_text;

verus! {

/// How sending a request can fail.
#[derive(Debug, Clone, Copy, PartialEq, Eq, Structural)]
pub enum TransportError {
    /// No connection came about in time, at any attempt.
    ConnectTimeout,
    /// The connection was refused or broke while it was set up.
    ConnectError,
    /// The stream failed while the request was sent or the response read.
    StreamError,
    /// The response is not of the kind that was asked for.
    DeserializeError,
}

/// How an attempt to connect ended.
#[derive(Debug, Clone, Copy, PartialEq, Eq, Structural)]
pub enum ConnectOutcome {
    /// The connection stands.
    Connected,
    /// Nothing came in time.
    TimedOut,
    /// The attempt failed.
    Failed,
}

/// What to do after an attempt to connect.
#[derive(Debug, Clone, Copy, PartialEq, Eq, Structural)]
pub enum ConnectStep {
    /// Go on and open the stream.
    Proceed,
    /// Make a fresh attempt.
    Retry,
    /// Give up with this failure.
    GiveUp(TransportError),
}

/// How often a connection is attempted and how long each attempt may take.
#[derive(Debug, Clone, Copy, PartialEq, Eq, Structural)]
pub struct RetryPolicy {
    /// The number of attempts in all, the first one counted.
    pub max_attempts: u32,
    /// The seconds after which an attempt has timed out.
    pub timeout_secs: u64,
}

/// The step after the attempt with the number `attempt`, counted from one:
/// a connection is used; after a timeout or a failure a new attempt is made
/// as long as the policy allows one more, and else the last outcome names
/// the failure.
pub open spec fn step_after(policy: RetryPolicy, attempt: u32, outcome: ConnectOutcome) -> ConnectStep {
    match outcome {
        ConnectOutcome::Connected => ConnectStep::Proceed,
        ConnectOutcome::TimedOut => if attempt < policy.max_attempts {
            ConnectStep::Retry
        } else {
            ConnectStep::GiveUp(TransportError::ConnectTimeout)
        },
        ConnectOutcome::Failed => if attempt < policy.max_attempts {
            ConnectStep::Retry
        } else {
            ConnectStep::GiveUp(TransportError::ConnectError)
        },
    }
}

/// How connecting ends when the attempts from the number `attempt` on have
/// the outcomes `outcomes`, in order: the number of the attempt that
/// connected, or the failure. Outcomes behind the one that decides are not
/// looked at; where the outcomes run out before a decision, the answer is
/// `None`.
pub open spec fn connect_result(policy: RetryPolicy, attempt: u32, outcomes: Seq<ConnectOutcome>) -> Option<
    Result<u32, TransportError>,
>
    decreases outcomes.len(),
{
    if outcomes.len() == 0 {
        None
    } else {
        match step_after(policy, attempt, outcomes[0]) {
            ConnectStep::Proceed => Some(Ok(attempt)),
            ConnectStep::GiveUp(e) => Some(Err(e)),
            ConnectStep::Retry => connect_result(policy, (attempt + 1) as u32, outcomes.skip(1)),
        }
    }
}

impl RetryPolicy {
    /// The policy of the client: a first attempt and up to two more, each
    /// with twenty seconds.
    pub fn standard() -> (r: RetryPolicy)
        ensures
            r == (RetryPolicy { max_attempts: 3, timeout_secs: 20 }),
    {
        RetryPolicy { max_attempts: 3, timeout_secs: 20 }
    }

    /// Decides what follows the attempt with the number `attempt`, counted
    /// from one.
    pub fn after_attempt(&self, attempt: u32, outcome: ConnectOutcome) -> (r: ConnectStep)
        ensures
            r == step_after(*self, attempt, outcome),
    {
        match outcome {
            ConnectOutcome::Connected => ConnectStep::Proceed,
            ConnectOutcome::TimedOut => {
                if attempt < self.max_attempts {
                    ConnectStep::Retry
                } else {
                    ConnectStep::GiveUp(TransportError::ConnectTimeout)
                }
            },
            ConnectOutcome::Failed => {
                if attempt < self.max_attempts {
                    ConnectStep::Retry
                } else {
                    ConnectStep::GiveUp(TransportError::ConnectError)
                }
            },
        }
    }

    /// Runs the policy over the outcomes of the attempts, in order, from the
    /// first attempt on.
    pub fn connect(&self, outcomes: &[ConnectOutcome]) -> (r: Option<Result<u32, TransportError>>)
        ensures
            r == connect_result(*self, 1, outcomes@),
    {
        let mut attempt: u32 = 1;
        let mut i: usize = 0;
        assert(outcomes@.skip(0) =~= outcomes@);
        while i < outcomes.len()
            invariant
                0 <= i <= outcomes.len(),
                attempt >= 1,
                connect_result(*self, 1, outcomes@) == connect_result(
                    *self,
                    attempt,
                    outcomes@.skip(i as int),
                ),
            decreases outcomes.len() - i,
        {
            let ghost rest = outcomes@.skip(i as int);
            assert(rest[0] == outcomes@[i as int]);
            assert(rest.skip(1) =~= outcomes@.skip(i + 1));
            match self.after_attempt(attempt, outcomes[i]) {
                ConnectStep::Proceed => {
                    return Some(Ok(attempt));
                },
                ConnectStep::GiveUp(e) => {
                    return Some(Err(e));
                },
                ConnectStep::Retry => {
                    attempt = attempt + 1;
                },
            }
            i += 1;
        }
        None
    }
}

/// Connecting never takes more attempts than the policy allows: whatever the
/// outcomes are, the attempt that connects has a number up to the maximum,
/// and once as many outcomes are known as the policy allows attempts, the
/// result is decided.
pub proof fn lemma_attempts_bounded(policy: RetryPolicy, attempt: u32, outcomes: Seq<ConnectOutcome>)
    requires
        1 <= attempt,
    ensures
        connect_result(policy, attempt, outcomes) matches Some(Ok(n)) ==> attempt <= n && (n
            <= policy.max_attempts || n == attempt),
        outcomes.len() > 0 && attempt + outcomes.len() > policy.max_attempts ==> connect_result(
            policy,
            attempt,
            outcomes,
        ) is Some,
        connect_result(policy, attempt, outcomes) matches Some(Err(e)) ==> e
            == TransportError::ConnectTimeout || e == TransportError::ConnectError,
    decreases outcomes.len(),
{
    if outcomes.len() > 0 {
        if step_after(policy, attempt, outcomes[0]) is Retry {
            lemma_attempts_bounded(policy, (attempt + 1) as u32, outcomes.skip(1));
        }
    }
}

/// The failure of a stream that broke after the connection stood. Such a
/// failure ends the request: no new attempt is made.
pub fn stream_failure() -> (r: TransportError)
    ensures
        r == TransportError::StreamError,
{
    TransportError::StreamError
}

/// The text of a response. Bytes that are not text are no response of any
/// kind.
pub fn response_text(buffer: &[u8]) -> (r: Result<String, TransportError>)
    ensures
        match r {
            Ok(text) => valid_utf8(buffer@) && text@ == decode_utf8(buffer@),
            Err(e) => !valid_utf8(buffer@) && e == TransportError::DeserializeError,
        },
{
    match utf8_text(buffer) {
        Some(text) => Ok(text),
        None => Err(TransportError::DeserializeError),
    }
}

/// The name under which a response is logged when it is known which members
/// it has. The shapes are tried in a fixed order and the first that fits
/// decides: the answer to an announce has peers and an interval, a file
/// response data and a file name, an AI response an answer and metadata, a
/// failure an error.
pub open spec fn response_name_of(
    peers: bool,
    interval: bool,
    data: bool,
    filename: bool,
    answer: bool,
    metadata: bool,
    error: bool,
) -> Seq<char> {
    if peers && interval {
        "TrackerAnnounceResponse"@
    } else if data && filename {
        "FileResponse"@
    } else if answer && metadata {
        "AiResponse"@
    } else if error {
        "ErrorResponse"@
    } else {
        "UnknownResponse"@
    }
}

/// The name under which a response is logged, by the members that it has as
/// a JSON object.
pub open spec fn response_type_name(json: Seq<char>) -> Seq<char> {
    response_name_of(
        json_field_present(json, "peers"@),
        json_field_present(json, "interval"@),
        json_field_present(json, "data"@),
        json_field_present(json, "filename"@),
        json_field_present(json, "answer"@),
        json_field_present(json, "metadata"@),
        json_field_present(json, "error"@),
    )
}

/// The name under which a response is logged when it is known which members
/// it has.
pub fn response_type_label(
    peers: bool,
    interval: bool,
    data: bool,
    filename: bool,
    answer: bool,
    metadata: bool,
    error: bool,
) -> (r: &'static str)
    ensures
        r@ == response_name_of(peers, interval, data, filename, answer, metadata, error),
{
    if peers && interval {
        "TrackerAnnounceResponse"
    } else if data && filename {
        "FileResponse"
    } else if answer && metadata {
        "AiResponse"
    } else if error {
        "ErrorResponse"
    } else {
        "UnknownResponse"
    }
}

/// The name under which a response is logged.
pub fn detect_response_type(json: &str) -> (r: &'static str)
    ensures
        r@ == response_type_name(json@),
{
    response_type_label(
        json_has_field(json, "peers"),
        json_has_field(json, "interval"),
        json_has_field(json, "data"),
        json_has_field(json, "filename"),
        json_has_field(json, "answer"),
        json_has_field(json, "metadata"),
        json_has_field(json, "error"),
    )
}

} // verus!
