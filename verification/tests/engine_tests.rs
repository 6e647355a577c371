use nia_console_client::codec::encode_response;
use nia_console_client::engine::{classify_turn, handshake_gate, GateOutcome, TurnOutcome};
use nia_console_client::messages::{Request, Response};
use nia_console_client::session::{Session, SessionAction, SessionEvent, SessionState};

#[test]
fn gate_proceeds_on_handshake_success() {
    let first = Response::HandshakeOk { version: b"1.0".to_vec(), info: b"nia".to_vec() };
    let outcome = handshake_gate(Some(first));
    assert_eq!(
        outcome,
        GateOutcome::Proceed { version: b"1.0".to_vec(), info: b"nia".to_vec() }
    );
}

#[test]
fn gate_refuses_on_handshake_error() {
    let first = Response::HandshakeError { message: b"version mismatch".to_vec() };
    let outcome = handshake_gate(Some(first));
    assert_eq!(outcome, GateOutcome::Refused { message: b"version mismatch".to_vec() });
}

#[test]
fn gate_rejects_wrong_server() {
    assert_eq!(handshake_gate(Some(Response::GetDevices)), GateOutcome::WrongServer);
    assert_eq!(
        handshake_gate(Some(Response::ExecuteSuccess { message: b"odd".to_vec() })),
        GateOutcome::WrongServer
    );
}

#[test]
fn gate_reports_closed_channel() {
    assert_eq!(handshake_gate(None), GateOutcome::ConnectionLost);
}

#[test]
fn turn_is_lost_when_channel_closes() {
    assert_eq!(classify_turn(None), TurnOutcome::ConnectionLost);
}

#[test]
fn turn_delivers_execute_results() {
    let ok = Response::ExecuteSuccess { message: b"42".to_vec() };
    assert_eq!(classify_turn(Some(ok.clone())), TurnOutcome::Executed(ok));
    let err = Response::ExecuteError { message: b"nope".to_vec() };
    assert_eq!(classify_turn(Some(err.clone())), TurnOutcome::Executed(err));
    let fail = Response::ExecuteFailure { message: b"boom".to_vec() };
    assert_eq!(classify_turn(Some(fail.clone())), TurnOutcome::Executed(fail));
}

#[test]
fn turn_flags_unexpected_responses() {
    let odd = Response::GetDeviceInfo;
    assert_eq!(classify_turn(Some(odd.clone())), TurnOutcome::Anomaly(odd));
    let hs = Response::HandshakeOk { version: b"1".to_vec(), info: b"n".to_vec() };
    assert_eq!(classify_turn(Some(hs.clone())), TurnOutcome::Anomaly(hs));
}

#[test]
fn six_times_seven_session_scenario() {
    // server sequence: handshake success, then ExecuteCodeSuccess("42")
    // for the single input "6*7"; afterwards the simulator closes the
    // socket and the loop terminates cleanly.
    let mut session = Session::new();

    let open_action = session.step(SessionEvent::Opened);
    assert!(matches!(open_action, SessionAction::Send(_)));

    let handshake =
        Response::HandshakeOk { version: b"0.1".to_vec(), info: b"simulator".to_vec() };
    let first = match session.step(SessionEvent::Frame(encode_response(&handshake))) {
        SessionAction::Deliver(r) => Some(r),
        _ => None,
    };
    assert!(matches!(handshake_gate(first), GateOutcome::Proceed { .. }));

    let send = session.step(SessionEvent::Command(b"6*7".to_vec()));
    assert_eq!(
        send,
        SessionAction::Send(nia_console_client::codec::encode_request(
            &Request::ExecuteCode { code: b"6*7".to_vec() }
        ))
    );

    let answer = Response::ExecuteSuccess { message: b"42".to_vec() };
    let result = match session.step(SessionEvent::Frame(encode_response(&answer))) {
        SessionAction::Deliver(r) => Some(r),
        _ => None,
    };
    match classify_turn(result) {
        TurnOutcome::Executed(Response::ExecuteSuccess { message }) => {
            let text = String::from_utf8(message).unwrap();
            assert!(text.contains("42"));
        },
        other => panic!("expected a success result, got {:?}", other),
    }

    // the simulator closes the connection; the loop sees a closed channel
    session.step(SessionEvent::SocketClosed);
    assert_eq!(session.state, SessionState::Closed);
    assert_eq!(classify_turn(None), TurnOutcome::ConnectionLost);
}
