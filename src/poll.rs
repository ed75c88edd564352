//! Decisions of the polling loop and of a degree query.
use crate::config::RoomConfig;
use crate::degree::Degree;
use crate::error::CSError;
use vstd::prelude::*;

verus! {

/// What a query of the external site answered, as far as the engine reads it.
#[derive(Clone, Copy, Debug, PartialEq, Eq, Structural)]
pub enum QueryOutcome {
    /// The balance.
    Value(Degree),
    /// The site does not accept the session.
    NotLoggedIn,
    /// Any other failure: the network, or an answer of the wrong shape.
    Failed,
}

/// Reads the answer of a balance query: a non-JSON answer, or one whose code
/// is not 0 or whose message is not the success message, means the session
/// is not accepted; a successful answer without a balance is a failure.
pub fn classify_answer(
    is_json: bool,
    code: i32,
    message_ok: bool,
    degree: Option<Degree>,
) -> (r: QueryOutcome)
    ensures
        !is_json ==> r == QueryOutcome::NotLoggedIn,
        is_json && (code != 0 || !message_ok) ==> r == QueryOutcome::NotLoggedIn,
        is_json && code == 0 && message_ok ==> r == match degree {
            Some(d) => QueryOutcome::Value(d),
            None => QueryOutcome::Failed,
        },
{
    if !is_json || code != 0 || !message_ok {
        QueryOutcome::NotLoggedIn
    } else {
        match degree {
            Some(d) => QueryOutcome::Value(d),
            None => QueryOutcome::Failed,
        }
    }
}

/// Whether the loop is quiet about a session that is not accepted.
#[derive(Clone, Copy, Debug, PartialEq, Eq, Structural)]
pub enum LoopState {
    Normal,
    NotLoggedIn,
}

/// What the loop does with one outcome.
#[derive(Clone, Copy, Debug, PartialEq, Eq, Structural)]
pub struct PollDecision {
    /// The value to record, if any.
    pub record: Option<Degree>,
    /// Whether to log the failure.
    pub log_error: bool,
    /// The state for the next tick.
    pub next: LoopState,
}

/// One tick of the polling loop: a value is recorded and the loop returns
/// to `Normal`; a session that is not accepted is logged once, then the
/// loop stays quiet about it; any other failure is always logged and leaves
/// the state as it is.
pub fn poll_step(state: LoopState, outcome: QueryOutcome) -> (r: PollDecision)
    ensures
        r == (match outcome {
            QueryOutcome::Value(d) => PollDecision {
                record: Some(d),
                log_error: false,
                next: LoopState::Normal,
            },
            QueryOutcome::NotLoggedIn => PollDecision {
                record: None,
                log_error: state == LoopState::Normal,
                next: LoopState::NotLoggedIn,
            },
            QueryOutcome::Failed => PollDecision { record: None, log_error: true, next: state },
        }),
{
    match outcome {
        QueryOutcome::Value(d) => PollDecision {
            record: Some(d),
            log_error: false,
            next: LoopState::Normal,
        },
        QueryOutcome::NotLoggedIn => PollDecision {
            record: None,
            log_error: match state {
                LoopState::Normal => true,
                LoopState::NotLoggedIn => false,
            },
            next: LoopState::NotLoggedIn,
        },
        QueryOutcome::Failed => PollDecision { record: None, log_error: true, next: state },
    }
}

/// The answer to a client asking for the balance: a room must be set, and
/// a session that is not accepted is reported as such.
pub fn degree_reply(room: &RoomConfig, outcome: QueryOutcome) -> (r: Result<Degree, CSError>)
    ensures
        room.spec_is_invalid() ==> r == Err::<Degree, CSError>(CSError::RoomConfigMissing),
        !room.spec_is_invalid() ==> r == match outcome {
            QueryOutcome::Value(d) => Ok(d),
            QueryOutcome::NotLoggedIn => Err(CSError::EcnuNotLogin),
            QueryOutcome::Failed => Err(CSError::QueryDegree),
        },
{
    if room.is_invalid() {
        return Err(CSError::RoomConfigMissing);
    }
    match outcome {
        QueryOutcome::Value(d) => Ok(d),
        QueryOutcome::NotLoggedIn => Err(CSError::EcnuNotLogin),
        QueryOutcome::Failed => Err(CSError::QueryDegree),
    }
}

} // verus!
