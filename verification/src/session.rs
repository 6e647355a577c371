//! The transport session's protocol discipline, as a pure state machine:
//! one duplex socket, a one-time handshake sent on open, then strict
//! one-request-per-one-response alternation with the command queue.
//!
//! The surrounding event loop owns the socket and the two channels; it hands
//! each happening to [`Session::step`] and performs the returned action. All
//! decisions — what to write, what to forward, when to close — are made here,
//! so the whole discipline is verified against [`spec_step`].

use vstd::prelude::*;

use crate::codec::{decode_response, encode_request, request_bytes, spec_decode_response};
use crate::messages::{ReqModel, Request, RespModel, Response};

verus! {

/// Where the session stands in the handshake-then-alternate discipline.
#[derive(Debug, Clone, Copy, PartialEq, Eq, Structural)]
pub enum SessionState {
    /// The connection attempt has started; the socket is not open yet.
    Connecting,
    /// A request is on the wire; the next binary frame answers it.
    AwaitingFrame,
    /// A response was forwarded; the next user command completes the turn.
    AwaitingCommand,
    /// The session is over; every further event is ignored.
    Closed,
}

/// One happening that the surrounding event loop hands to the session.
pub enum SessionEvent {
    /// The socket opened.
    Opened,
    /// A binary frame arrived on the socket.
    Frame(Vec<u8>),
    /// A text frame arrived: not part of the protocol, a non-fatal anomaly.
    TextFrame,
    /// The next user command was taken from the command queue.
    Command(Vec<u8>),
    /// The command queue's producer is gone.
    CommandsClosed,
    /// The result queue's consumer is gone.
    ResultsClosed,
    /// The socket reported closure or a transport-level error.
    SocketClosed,
}

/// Mathematical model of a `SessionEvent`.
pub enum EventModel {
    Opened,
    Frame(Seq<u8>),
    TextFrame,
    Command(Seq<u8>),
    CommandsClosed,
    ResultsClosed,
    SocketClosed,
}

impl View for SessionEvent {
    type V = EventModel;

    open spec fn view(&self) -> EventModel {
        match self {
            SessionEvent::Opened => EventModel::Opened,
            SessionEvent::Frame(b) => EventModel::Frame(b@),
            SessionEvent::TextFrame => EventModel::TextFrame,
            SessionEvent::Command(c) => EventModel::Command(c@),
            SessionEvent::CommandsClosed => EventModel::CommandsClosed,
            SessionEvent::ResultsClosed => EventModel::ResultsClosed,
            SessionEvent::SocketClosed => EventModel::SocketClosed,
        }
    }
}

/// What the event loop must do right after a step.
#[derive(Debug, Clone, PartialEq)]
pub enum SessionAction {
    /// Write these bytes to the socket.
    Send(Vec<u8>),
    /// Push this response onto the result queue.
    Deliver(Response),
    /// Close the socket gracefully.
    Close,
    /// Do nothing.
    Pass,
}

/// Mathematical model of a `SessionAction`.
pub enum ActionModel {
    Send(Seq<u8>),
    Deliver(RespModel),
    Close,
    Pass,
}

impl View for SessionAction {
    type V = ActionModel;

    open spec fn view(&self) -> ActionModel {
        match self {
            SessionAction::Send(b) => ActionModel::Send(b@),
            SessionAction::Deliver(r) => ActionModel::Deliver(r@),
            SessionAction::Close => ActionModel::Close,
            SessionAction::Pass => ActionModel::Pass,
        }
    }
}

/// The transition relation the session obeys, one event at a time.
///
/// On open, the handshake request is written unprompted. Each decodable
/// frame received while a request is outstanding is forwarded, after which
/// the session waits on the command queue; each command becomes the next
/// request on the wire. A frame that does not decode is dropped without
/// changing state. Either queue's peer going away closes the socket; a
/// closed or failed socket ends the session. Everything else is ignored.
pub open spec fn spec_step(s: SessionState, e: EventModel) -> (SessionState, ActionModel) {
    match (s, e) {
        (SessionState::Connecting, EventModel::Opened) => (
            SessionState::AwaitingFrame,
            ActionModel::Send(request_bytes(ReqModel::Handshake)),
        ),
        (SessionState::AwaitingFrame, EventModel::Frame(b)) => match spec_decode_response(b) {
            Ok(m) => (SessionState::AwaitingCommand, ActionModel::Deliver(m)),
            Err(_) => (SessionState::AwaitingFrame, ActionModel::Pass),
        },
        (SessionState::AwaitingCommand, EventModel::Command(c)) => (
            SessionState::AwaitingFrame,
            ActionModel::Send(request_bytes(ReqModel::ExecuteCode(c))),
        ),
        (SessionState::AwaitingCommand, EventModel::CommandsClosed) => (
            SessionState::Closed,
            ActionModel::Close,
        ),
        (SessionState::AwaitingCommand, EventModel::ResultsClosed) => (
            SessionState::Closed,
            ActionModel::Close,
        ),
        (_, EventModel::SocketClosed) => (SessionState::Closed, ActionModel::Pass),
        _ => (s, ActionModel::Pass),
    }
}

/// The live session state owned by the event loop.
pub struct Session {
    pub state: SessionState,
}

impl Session {
    /// A session begins before its socket has opened.
    pub fn new() -> (s: Session)
        ensures
            s.state == SessionState::Connecting,
    {
        Session { state: SessionState::Connecting }
    }

    /// Advance by one event; the caller must perform the returned action.
    pub fn step(&mut self, e: SessionEvent) -> (a: SessionAction)
        ensures
            (final(self).state, a@) == spec_step(old(self).state, e@),
    {
        match e {
            SessionEvent::Opened => {
                if self.state == SessionState::Connecting {
                    self.state = SessionState::AwaitingFrame;
                    SessionAction::Send(encode_request(&Request::Handshake))
                } else {
                    SessionAction::Pass
                }
            },
            SessionEvent::Frame(b) => {
                if self.state == SessionState::AwaitingFrame {
                    match decode_response(&b) {
                        Ok(r) => {
                            self.state = SessionState::AwaitingCommand;
                            SessionAction::Deliver(r)
                        },
                        Err(_) => SessionAction::Pass,
                    }
                } else {
                    SessionAction::Pass
                }
            },
            SessionEvent::TextFrame => SessionAction::Pass,
            SessionEvent::Command(c) => {
                if self.state == SessionState::AwaitingCommand {
                    self.state = SessionState::AwaitingFrame;
                    SessionAction::Send(encode_request(&Request::ExecuteCode { code: c }))
                } else {
                    SessionAction::Pass
                }
            },
            SessionEvent::CommandsClosed => {
                if self.state == SessionState::AwaitingCommand {
                    self.state = SessionState::Closed;
                    SessionAction::Close
                } else {
                    SessionAction::Pass
                }
            },
            SessionEvent::ResultsClosed => {
                if self.state == SessionState::AwaitingCommand {
                    self.state = SessionState::Closed;
                    SessionAction::Close
                } else {
                    SessionAction::Pass
                }
            },
            SessionEvent::SocketClosed => {
                self.state = SessionState::Closed;
                SessionAction::Pass
            },
        }
    }
}

/// Run the machine over a whole event sequence, collecting every action.
pub open spec fn run_from(s: SessionState, evs: Seq<EventModel>) -> (
    SessionState,
    Seq<ActionModel>,
)
    decreases evs.len(),
{
    if evs.len() == 0 {
        (s, Seq::empty())
    } else {
        let first = spec_step(s, evs[0]);
        let rest = run_from(first.0, evs.drop_first());
        (rest.0, seq![first.1] + rest.1)
    }
}

/// The responses a run hands to the result queue, in order.
pub open spec fn delivered(acts: Seq<ActionModel>) -> Seq<RespModel>
    decreases acts.len(),
{
    if acts.len() == 0 {
        Seq::empty()
    } else {
        let rest = delivered(acts.drop_first());
        match acts[0] {
            ActionModel::Deliver(m) => seq![m] + rest,
            _ => rest,
        }
    }
}

/// The frames a run writes to the socket, in order.
pub open spec fn sent(acts: Seq<ActionModel>) -> Seq<Seq<u8>>
    decreases acts.len(),
{
    if acts.len() == 0 {
        Seq::empty()
    } else {
        let rest = sent(acts.drop_first());
        match acts[0] {
            ActionModel::Send(b) => seq![b] + rest,
            _ => rest,
        }
    }
}

/// Running one event sequence after another runs them end to end.
pub proof fn lemma_run_append(s: SessionState, xs: Seq<EventModel>, ys: Seq<EventModel>)
    ensures
        ({
            let rx = run_from(s, xs);
            let ry = run_from(rx.0, ys);
            run_from(s, xs + ys) == (ry.0, rx.1 + ry.1)
        }),
    decreases xs.len(),
{
    if xs.len() == 0 {
        assert(xs + ys =~= ys);
        assert(run_from(s, xs).1 + run_from(run_from(s, xs).0, ys).1 =~= run_from(s, ys).1);
    } else {
        let first = spec_step(s, xs[0]);
        lemma_run_append(first.0, xs.drop_first(), ys);
        assert((xs + ys).drop_first() =~= xs.drop_first() + ys);
        assert((xs + ys)[0] == xs[0]);
        let ra = run_from(first.0, xs.drop_first());
        let rb = run_from(ra.0, ys);
        assert(seq![first.1] + (ra.1 + rb.1) =~= (seq![first.1] + ra.1) + rb.1);
    }
}

/// Deliveries of concatenated action lists concatenate.
pub proof fn lemma_delivered_append(xs: Seq<ActionModel>, ys: Seq<ActionModel>)
    ensures
        delivered(xs + ys) == delivered(xs) + delivered(ys),
    decreases xs.len(),
{
    if xs.len() == 0 {
        assert(xs + ys =~= ys);
        assert(delivered(xs) + delivered(ys) =~= delivered(ys));
    } else {
        lemma_delivered_append(xs.drop_first(), ys);
        assert((xs + ys).drop_first() =~= xs.drop_first() + ys);
        assert((xs + ys)[0] == xs[0]);
        match xs[0] {
            ActionModel::Deliver(m) => {
                assert(seq![m] + (delivered(xs.drop_first()) + delivered(ys)) =~= (seq![m]
                    + delivered(xs.drop_first())) + delivered(ys));
            },
            _ => {},
        }
    }
}

/// Sends of concatenated action lists concatenate.
pub proof fn lemma_sent_append(xs: Seq<ActionModel>, ys: Seq<ActionModel>)
    ensures
        sent(xs + ys) == sent(xs) + sent(ys),
    decreases xs.len(),
{
    if xs.len() == 0 {
        assert(xs + ys =~= ys);
        assert(sent(xs) + sent(ys) =~= sent(ys));
    } else {
        lemma_sent_append(xs.drop_first(), ys);
        assert((xs + ys).drop_first() =~= xs.drop_first() + ys);
        assert((xs + ys)[0] == xs[0]);
        match xs[0] {
            ActionModel::Send(b) => {
                assert(seq![b] + (sent(xs.drop_first()) + sent(ys)) =~= (seq![b] + sent(
                    xs.drop_first(),
                )) + sent(ys));
            },
            _ => {},
        }
    }
}

/// How many requests are outstanding (written but unanswered) in a state.
pub open spec fn turns_outstanding(s: SessionState) -> int {
    match s {
        SessionState::Connecting => 0,
        SessionState::AwaitingFrame => 1,
        SessionState::AwaitingCommand => 0,
        SessionState::Closed => 0,
    }
}

/// Balance bookkeeping for `lemma_one_turn_in_flight`, generalized over the
/// starting state so that it can be proved by induction.
proof fn lemma_turn_balance(s: SessionState, evs: Seq<EventModel>)
    ensures
        ({
            let r = run_from(s, evs);
            let d = sent(r.1).len() - delivered(r.1).len() + turns_outstanding(s);
            if r.0 is Closed {
                0 <= d <= 1
            } else {
                d == turns_outstanding(r.0)
            }
        }),
    decreases evs.len(),
{
    reveal_with_fuel(run_from, 2);
    reveal_with_fuel(delivered, 2);
    reveal_with_fuel(sent, 2);
    if evs.len() == 0 {
    } else {
        let first = spec_step(s, evs[0]);
        let rest = run_from(first.0, evs.drop_first());
        let r = run_from(s, evs);
        assert(r.1 == seq![first.1] + rest.1);
        lemma_delivered_append(seq![first.1], rest.1);
        lemma_sent_append(seq![first.1], rest.1);
        assert(seq![first.1].drop_first() =~= Seq::<ActionModel>::empty());
        if first.0 is Closed {
            lemma_closed_inert(evs.drop_first());
        } else {
            lemma_turn_balance(first.0, evs.drop_first());
        }
    }
}

/// The alternation invariant: the engine never has more than one turn in
/// flight. In every run from the start, whatever events arrive, the number
/// of frames written to the socket and the number of results handed to the
/// caller never differ by more than one.
pub proof fn lemma_one_turn_in_flight(evs: Seq<EventModel>)
    ensures
        ({
            let r = run_from(SessionState::Connecting, evs);
            delivered(r.1).len() <= sent(r.1).len() <= delivered(r.1).len() + 1
        }),
{
    lemma_turn_balance(SessionState::Connecting, evs);
}


/// The events of `cmds.len()` command turns: each command, then the frame
/// that answers it.
pub open spec fn turn_events(cmds: Seq<Seq<u8>>, frames: Seq<Seq<u8>>) -> Seq<EventModel>
    decreases cmds.len(),
{
    if cmds.len() == 0 {
        Seq::empty()
    } else {
        seq![EventModel::Command(cmds[0]), EventModel::Frame(frames[0])] + turn_events(
            cmds.drop_first(),
            frames.drop_first(),
        )
    }
}

/// Strict alternation: against a server that answers every request with a
/// decodable frame before the next command is taken, a run of N command
/// turns delivers exactly N results, in submission order, and writes exactly
/// the N encoded commands, in submission order — no reordering, no
/// duplication, no loss.
pub proof fn lemma_alternation(cmds: Seq<Seq<u8>>, frames: Seq<Seq<u8>>)
    requires
        cmds.len() == frames.len(),
        forall|i: int| 0 <= i < frames.len() ==> (#[trigger] spec_decode_response(frames[i]))
            is Ok,
    ensures
        ({
            let r = run_from(SessionState::AwaitingCommand, turn_events(cmds, frames));
            &&& r.0 == SessionState::AwaitingCommand
            &&& delivered(r.1).len() == cmds.len()
            &&& forall|i: int|
                0 <= i < cmds.len() ==> delivered(r.1)[i] == spec_decode_response(
                    frames[i],
                )->Ok_0
            &&& sent(r.1).len() == cmds.len()
            &&& forall|i: int|
                0 <= i < cmds.len() ==> sent(r.1)[i] == request_bytes(
                    ReqModel::ExecuteCode(cmds[i]),
                )
        }),
    decreases cmds.len(),
{
    reveal_with_fuel(run_from, 5);
    reveal_with_fuel(delivered, 5);
    reveal_with_fuel(sent, 5);
    let evs = turn_events(cmds, frames);
    if cmds.len() == 0 {
    } else {
        let head = seq![EventModel::Command(cmds[0]), EventModel::Frame(frames[0])];
        let tail = turn_events(cmds.drop_first(), frames.drop_first());
        assert(evs == head + tail);
        lemma_run_append(SessionState::AwaitingCommand, head, tail);
        let rh = run_from(SessionState::AwaitingCommand, head);
        assert(head.drop_first() =~= seq![EventModel::Frame(frames[0])]);
        assert(seq![EventModel::Frame(frames[0])].drop_first() =~= Seq::<EventModel>::empty());
        let m0 = spec_decode_response(frames[0])->Ok_0;
        assert(rh.0 == SessionState::AwaitingCommand);
        assert(rh.1 =~= seq![
            ActionModel::Send(request_bytes(ReqModel::ExecuteCode(cmds[0]))),
            ActionModel::Deliver(m0),
        ]);
        assert(forall|i: int|
            0 <= i < frames.drop_first().len() ==> (#[trigger] spec_decode_response(
                frames.drop_first()[i],
            )) is Ok);
        lemma_alternation(cmds.drop_first(), frames.drop_first());
        let rt = run_from(SessionState::AwaitingCommand, tail);
        lemma_delivered_append(rh.1, rt.1);
        lemma_sent_append(rh.1, rt.1);
        assert(delivered(rh.1) =~= seq![m0]);
        assert(sent(rh.1) =~= seq![request_bytes(ReqModel::ExecuteCode(cmds[0]))]);
        let r = run_from(SessionState::AwaitingCommand, evs);
        assert(r.1 == rh.1 + rt.1);
        assert(delivered(r.1) == seq![m0] + delivered(rt.1));
        assert(sent(r.1) == seq![request_bytes(ReqModel::ExecuteCode(cmds[0]))] + sent(rt.1));
        assert forall|i: int| 0 <= i < cmds.len() implies delivered(r.1)[i]
            == spec_decode_response(frames[i])->Ok_0 by {
            if i > 0 {
                assert(delivered(rt.1)[i - 1] == spec_decode_response(
                    frames.drop_first()[i - 1],
                )->Ok_0);
                assert(frames.drop_first()[i - 1] == frames[i]);
            }
        }
        assert forall|i: int| 0 <= i < cmds.len() implies sent(r.1)[i] == request_bytes(
            ReqModel::ExecuteCode(cmds[i]),
        ) by {
            if i > 0 {
                assert(sent(rt.1)[i - 1] == request_bytes(
                    ReqModel::ExecuteCode(cmds.drop_first()[i - 1]),
                ));
                assert(cmds.drop_first()[i - 1] == cmds[i]);
            }
        }
    }
}

/// Correlation for a whole session: opened socket, handshake exchange, then
/// N command turns. The caller reads the handshake response first and then
/// exactly one result per command, in order; the wire carries the handshake
/// request first and then exactly the encoded commands, in order.
pub proof fn lemma_session_correlation(hs: Seq<u8>, cmds: Seq<Seq<u8>>, frames: Seq<Seq<u8>>)
    requires
        spec_decode_response(hs) is Ok,
        cmds.len() == frames.len(),
        forall|i: int| 0 <= i < frames.len() ==> (#[trigger] spec_decode_response(frames[i]))
            is Ok,
    ensures
        ({
            let evs = seq![EventModel::Opened, EventModel::Frame(hs)] + turn_events(cmds, frames);
            let r = run_from(SessionState::Connecting, evs);
            &&& r.0 == SessionState::AwaitingCommand
            &&& delivered(r.1).len() == 1 + cmds.len()
            &&& delivered(r.1)[0] == spec_decode_response(hs)->Ok_0
            &&& forall|i: int|
                0 <= i < cmds.len() ==> delivered(r.1)[i + 1] == spec_decode_response(
                    frames[i],
                )->Ok_0
            &&& sent(r.1).len() == 1 + cmds.len()
            &&& sent(r.1)[0] == request_bytes(ReqModel::Handshake)
            &&& forall|i: int|
                0 <= i < cmds.len() ==> sent(r.1)[i + 1] == request_bytes(
                    ReqModel::ExecuteCode(cmds[i]),
                )
        }),
{
    reveal_with_fuel(run_from, 5);
    reveal_with_fuel(delivered, 5);
    reveal_with_fuel(sent, 5);
    let pre = seq![EventModel::Opened, EventModel::Frame(hs)];
    let tail = turn_events(cmds, frames);
    lemma_run_append(SessionState::Connecting, pre, tail);
    let rp = run_from(SessionState::Connecting, pre);
    assert(pre.drop_first() =~= seq![EventModel::Frame(hs)]);
    assert(seq![EventModel::Frame(hs)].drop_first() =~= Seq::<EventModel>::empty());
    let h = spec_decode_response(hs)->Ok_0;
    assert(rp.0 == SessionState::AwaitingCommand);
    assert(rp.1 =~= seq![
        ActionModel::Send(request_bytes(ReqModel::Handshake)),
        ActionModel::Deliver(h),
    ]);
    lemma_alternation(cmds, frames);
    let rt = run_from(SessionState::AwaitingCommand, tail);
    lemma_delivered_append(rp.1, rt.1);
    lemma_sent_append(rp.1, rt.1);
    assert(delivered(rp.1) =~= seq![h]);
    assert(sent(rp.1) =~= seq![request_bytes(ReqModel::Handshake)]);
}

/// After the session closes, it is inert: whatever further events arrive,
/// nothing more is delivered, sent, or changed.
pub proof fn lemma_closed_inert(evs: Seq<EventModel>)
    ensures
        run_from(SessionState::Closed, evs).0 == SessionState::Closed,
        delivered(run_from(SessionState::Closed, evs).1) == Seq::<RespModel>::empty(),
        sent(run_from(SessionState::Closed, evs).1) == Seq::<Seq<u8>>::empty(),
    decreases evs.len(),
{
    reveal_with_fuel(run_from, 5);
    reveal_with_fuel(delivered, 5);
    reveal_with_fuel(sent, 5);
    if evs.len() == 0 {
    } else {
        let first = spec_step(SessionState::Closed, evs[0]);
        assert(first.0 == SessionState::Closed && first.1 == ActionModel::Pass);
        lemma_closed_inert(evs.drop_first());
        let r = run_from(SessionState::Closed, evs);
        assert(r.1.drop_first() == run_from(SessionState::Closed, evs.drop_first()).1);
        assert(r.1[0] == ActionModel::Pass);
    }
}

/// Connection lost right after the handshake: if the socket closes before
/// any command is taken, the handshake response is the only thing ever
/// delivered and the handshake request the only thing ever sent, whatever
/// happens afterwards — a later submit meets a closed session, it never
/// hangs the protocol state.
pub proof fn lemma_close_after_handshake(hs: Seq<u8>, later: Seq<EventModel>)
    requires
        spec_decode_response(hs) is Ok,
    ensures
        ({
            let evs = seq![EventModel::Opened, EventModel::Frame(hs), EventModel::SocketClosed]
                + later;
            let r = run_from(SessionState::Connecting, evs);
            &&& r.0 == SessionState::Closed
            &&& delivered(r.1) == seq![spec_decode_response(hs)->Ok_0]
            &&& sent(r.1) == seq![request_bytes(ReqModel::Handshake)]
        }),
{
    reveal_with_fuel(run_from, 5);
    reveal_with_fuel(delivered, 5);
    reveal_with_fuel(sent, 5);
    let pre = seq![EventModel::Opened, EventModel::Frame(hs), EventModel::SocketClosed];
    lemma_run_append(SessionState::Connecting, pre, later);
    let rp = run_from(SessionState::Connecting, pre);
    assert(pre.drop_first() =~= seq![EventModel::Frame(hs), EventModel::SocketClosed]);
    assert(seq![EventModel::Frame(hs), EventModel::SocketClosed].drop_first() =~= seq![
        EventModel::SocketClosed,
    ]);
    assert(seq![EventModel::SocketClosed].drop_first() =~= Seq::<EventModel>::empty());
    let h = spec_decode_response(hs)->Ok_0;
    assert(rp.0 == SessionState::Closed);
    assert(rp.1 =~= seq![
        ActionModel::Send(request_bytes(ReqModel::Handshake)),
        ActionModel::Deliver(h),
        ActionModel::Pass,
    ]);
    lemma_closed_inert(later);
    let rt = run_from(SessionState::Closed, later);
    lemma_delivered_append(rp.1, rt.1);
    lemma_sent_append(rp.1, rt.1);
    assert(delivered(rp.1) =~= seq![h]);
    assert(sent(rp.1) =~= seq![request_bytes(ReqModel::Handshake)]);
    assert(delivered(rp.1) + delivered(rt.1) =~= seq![h]);
    assert(sent(rp.1) + sent(rt.1) =~= seq![request_bytes(ReqModel::Handshake)]);
}

/// If no command is ever submitted, nothing but the handshake request is
/// ever written to the socket: every frame a command-free run sends is the
/// handshake frame, whatever else happens.
pub proof fn lemma_no_command_no_send(s: SessionState, evs: Seq<EventModel>)
    requires
        forall|i: int| 0 <= i < evs.len() ==> !((#[trigger] evs[i]) is Command),
    ensures
        forall|j: int|
            0 <= j < sent(run_from(s, evs).1).len() ==> #[trigger] sent(run_from(s, evs).1)[j]
                == request_bytes(ReqModel::Handshake),
    decreases evs.len(),
{
    reveal_with_fuel(run_from, 5);
    reveal_with_fuel(delivered, 5);
    reveal_with_fuel(sent, 5);
    if evs.len() == 0 {
    } else {
        let first = spec_step(s, evs[0]);
        lemma_no_command_no_send(first.0, evs.drop_first());
        let r = run_from(s, evs);
        let rt = run_from(first.0, evs.drop_first());
        assert(seq![first.1] + rt.1 == r.1);
        lemma_sent_append(seq![first.1], rt.1);
        assert(seq![first.1].drop_first() =~= Seq::<ActionModel>::empty());
        match first.1 {
            ActionModel::Send(b) => {
                assert(b == request_bytes(ReqModel::Handshake));
                assert(sent(seq![first.1]) =~= seq![b]);
            },
            _ => {
                assert(sent(seq![first.1]) =~= Seq::<Seq<u8>>::empty());
            },
        }
    }
}

/// A malformed frame is dropped without a trace: a run with one undecodable
/// frame inserted anywhere delivers and sends exactly what the run without
/// it does, and ends in the same state.
pub proof fn lemma_malformed_frame_dropped(
    s: SessionState,
    pre: Seq<EventModel>,
    junk: Seq<u8>,
    post: Seq<EventModel>,
)
    requires
        spec_decode_response(junk) is Err,
    ensures
        ({
            let with_junk = run_from(s, pre + seq![EventModel::Frame(junk)] + post);
            let without = run_from(s, pre + post);
            &&& with_junk.0 == without.0
            &&& delivered(with_junk.1) == delivered(without.1)
            &&& sent(with_junk.1) == sent(without.1)
        }),
{
    reveal_with_fuel(run_from, 5);
    reveal_with_fuel(delivered, 5);
    reveal_with_fuel(sent, 5);
    let j = seq![EventModel::Frame(junk)];
    let rp = run_from(s, pre);
    lemma_run_append(s, pre, j);
    lemma_run_append(s, pre + j, post);
    lemma_run_append(s, pre, post);
    let sj = spec_step(rp.0, EventModel::Frame(junk));
    assert(sj.0 == rp.0 && sj.1 == ActionModel::Pass);
    let rj = run_from(rp.0, j);
    assert(j.drop_first() =~= Seq::<EventModel>::empty());
    assert(rj.0 == rp.0 && rj.1 =~= seq![ActionModel::Pass]);
    let rt = run_from(rp.0, post);
    let with_junk = run_from(s, pre + j + post);
    let without = run_from(s, pre + post);
    assert(with_junk.0 == rt.0 && without.0 == rt.0);
    assert(with_junk.1 == (rp.1 + rj.1) + rt.1);
    assert(without.1 == rp.1 + rt.1);
    lemma_delivered_append(rp.1 + rj.1, rt.1);
    lemma_delivered_append(rp.1, rj.1);
    lemma_delivered_append(rp.1, rt.1);
    lemma_sent_append(rp.1 + rj.1, rt.1);
    lemma_sent_append(rp.1, rj.1);
    lemma_sent_append(rp.1, rt.1);
    assert(delivered(rj.1) =~= Seq::<RespModel>::empty());
    assert(sent(rj.1) =~= Seq::<Seq<u8>>::empty());
    assert(delivered(rp.1) + delivered(rj.1) =~= delivered(rp.1));
    assert(sent(rp.1) + sent(rj.1) =~= sent(rp.1));
}

} // verus!
