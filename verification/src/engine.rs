//! The interactive caller's side of the correlation engine: the one-time
//! handshake gate that decides whether the command loop may start, and the
//! per-turn classification of whatever the result queue hands back.
//!
//! The caller reads one value from the result queue before the loop (the
//! handshake reply, by protocol construction the first thing ever
//! delivered), then alternates: submit one command, await one result. A
//! closed queue is the terminal "connection lost" signal.

use vstd::prelude::*;

use crate::messages::{RespModel, Response};

verus! {

/// What the caller must do with the first value read from the result queue.
#[derive(Debug, Clone, PartialEq)]
pub enum GateOutcome {
    /// Handshake succeeded: enter the interactive loop.
    Proceed { version: Vec<u8>, info: Vec<u8> },
    /// The server refused the handshake: report its message, never start
    /// the loop. Handshake failure is fatal to the session, never retried.
    Refused { message: Vec<u8> },
    /// The first response was well-formed but no handshake reply: this is
    /// not the server we were looking for; do not start the loop.
    WrongServer,
    /// The channel was already closed: the connection attempt failed.
    ConnectionLost,
}

/// The handshake gate. `first` is the first value read from the result
/// queue after the connection attempt, `None` if the channel was closed
/// before anything arrived. The loop may start only on `Proceed`, so no
/// command is ever submitted — and hence none ever written to the socket —
/// unless the server's first reply was a handshake success.
pub fn handshake_gate(first: Option<Response>) -> (g: GateOutcome)
    ensures
        first is None ==> g is ConnectionLost,
        first matches Some(r) ==> match r@ {
            RespModel::HandshakeOk { version, info } => (g matches GateOutcome::Proceed {
                version: gv,
                info: gi,
            } && gv@ == version && gi@ == info),
            RespModel::HandshakeError { message } => (g matches GateOutcome::Refused {
                message: gm,
            } && gm@ == message),
            _ => g is WrongServer,
        },
{
    match first {
        None => GateOutcome::ConnectionLost,
        Some(Response::HandshakeOk { version, info }) => GateOutcome::Proceed { version, info },
        Some(Response::HandshakeError { message }) => GateOutcome::Refused { message },
        Some(_) => GateOutcome::WrongServer,
    }
}

/// Does this response answer an execute-code request?
pub open spec fn is_execute_response(m: RespModel) -> bool {
    ||| m is ExecuteSuccess
    ||| m is ExecuteError
    ||| m is ExecuteFailure
}

/// How one command turn ended for the interactive caller.
#[derive(Debug, Clone, PartialEq)]
pub enum TurnOutcome {
    /// The matching execute-code result: show it and prompt again.
    Executed(Response),
    /// Well-formed but not an execute-code reply: report the anomaly; the
    /// turn still counts as completed and the loop advances.
    Anomaly(Response),
    /// The channel closed before a result arrived: the connection is gone
    /// and the loop must end.
    ConnectionLost,
}

/// Classify what the result queue handed back for one submitted command.
/// `received` is `None` when the queue's peer is gone.
pub fn classify_turn(received: Option<Response>) -> (t: TurnOutcome)
    ensures
        received is None ==> t is ConnectionLost,
        received matches Some(r) ==> (if is_execute_response(r@) {
            t matches TurnOutcome::Executed(x) && x == r
        } else {
            t matches TurnOutcome::Anomaly(x) && x == r
        }),
{
    match received {
        None => TurnOutcome::ConnectionLost,
        Some(r) => match r {
            Response::ExecuteSuccess { message } => TurnOutcome::Executed(
                Response::ExecuteSuccess { message },
            ),
            Response::ExecuteError { message } => TurnOutcome::Executed(
                Response::ExecuteError { message },
            ),
            Response::ExecuteFailure { message } => TurnOutcome::Executed(
                Response::ExecuteFailure { message },
            ),
            other => TurnOutcome::Anomaly(other),
        },
    }
}

} // verus!
