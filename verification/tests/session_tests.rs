use nia_console_client::codec::{encode_request, encode_response};
use nia_console_client::messages::{Request, Response};
use nia_console_client::session::{Session, SessionAction, SessionEvent, SessionState};

fn ok_handshake() -> Response {
    Response::HandshakeOk { version: b"1.0".to_vec(), info: b"nia".to_vec() }
}

/// Drive a session over a whole event sequence, collecting every action.
fn run_events(session: &mut Session, events: Vec<SessionEvent>) -> Vec<SessionAction> {
    let mut actions = Vec::new();
    for e in events {
        actions.push(session.step(e));
    }
    actions
}

fn delivered_of(actions: &[SessionAction]) -> Vec<Response> {
    actions
        .iter()
        .filter_map(|a| match a {
            SessionAction::Deliver(r) => Some(r.clone()),
            _ => None,
        })
        .collect()
}

fn sent_of(actions: &[SessionAction]) -> Vec<Vec<u8>> {
    actions
        .iter()
        .filter_map(|a| match a {
            SessionAction::Send(b) => Some(b.clone()),
            _ => None,
        })
        .collect()
}

#[test]
fn open_sends_handshake_unprompted() {
    let mut session = Session::new();
    let action = session.step(SessionEvent::Opened);
    assert_eq!(action, SessionAction::Send(encode_request(&Request::Handshake)));
    assert_eq!(session.state, SessionState::AwaitingFrame);
}

#[test]
fn commands_alternate_with_results_in_order() {
    // A server-simulator answers each request with a response before the
    // next command is taken: three commands yield exactly three results,
    // in submission order.
    let replies = vec![
        Response::ExecuteSuccess { message: b"1".to_vec() },
        Response::ExecuteError { message: b"2".to_vec() },
        Response::ExecuteFailure { message: b"3".to_vec() },
    ];
    let mut events = vec![
        SessionEvent::Opened,
        SessionEvent::Frame(encode_response(&ok_handshake())),
    ];
    for (i, reply) in replies.iter().enumerate() {
        events.push(SessionEvent::Command(format!("cmd-{}", i).into_bytes()));
        events.push(SessionEvent::Frame(encode_response(reply)));
    }
    let mut session = Session::new();
    let actions = run_events(&mut session, events);

    let delivered = delivered_of(&actions);
    assert_eq!(delivered.len(), 4);
    assert_eq!(delivered[0], ok_handshake());
    assert_eq!(delivered[1..], replies[..]);

    let sent = sent_of(&actions);
    assert_eq!(sent.len(), 4);
    assert_eq!(sent[0], encode_request(&Request::Handshake));
    for i in 0..3usize {
        let expected = encode_request(&Request::ExecuteCode {
            code: format!("cmd-{}", i).into_bytes(),
        });
        assert_eq!(sent[i + 1], expected);
    }
    assert_eq!(session.state, SessionState::AwaitingCommand);
}

#[test]
fn malformed_frame_between_two_valid_ones_is_dropped() {
    let first = Response::ExecuteSuccess { message: b"first".to_vec() };
    let second = Response::ExecuteSuccess { message: b"second".to_vec() };
    let junk = vec![9u8, 1, 2, 3];
    let mut session = Session::new();
    let actions = run_events(
        &mut session,
        vec![
            SessionEvent::Opened,
            SessionEvent::Frame(encode_response(&first)),
            SessionEvent::Command(b"next".to_vec()),
            SessionEvent::Frame(junk),
            SessionEvent::Frame(encode_response(&second)),
        ],
    );
    let delivered = delivered_of(&actions);
    assert_eq!(delivered, vec![first, second]);
}

#[test]
fn truncated_frame_is_dropped_silently() {
    let mut session = Session::new();
    session.step(SessionEvent::Opened);
    let action = session.step(SessionEvent::Frame(vec![3u8, 5, 0]));
    assert_eq!(action, SessionAction::Pass);
    assert_eq!(session.state, SessionState::AwaitingFrame);
}

#[test]
fn text_frame_is_a_nonfatal_anomaly() {
    let mut session = Session::new();
    session.step(SessionEvent::Opened);
    let action = session.step(SessionEvent::TextFrame);
    assert_eq!(action, SessionAction::Pass);
    assert_eq!(session.state, SessionState::AwaitingFrame);
}

#[test]
fn socket_close_after_handshake_ends_the_session() {
    let mut session = Session::new();
    let actions = run_events(
        &mut session,
        vec![
            SessionEvent::Opened,
            SessionEvent::Frame(encode_response(&ok_handshake())),
            SessionEvent::SocketClosed,
        ],
    );
    assert_eq!(session.state, SessionState::Closed);
    assert_eq!(delivered_of(&actions), vec![ok_handshake()]);
    // once closed, nothing further is sent or delivered
    let later = run_events(
        &mut session,
        vec![
            SessionEvent::Command(b"too late".to_vec()),
            SessionEvent::Frame(encode_response(&ok_handshake())),
            SessionEvent::Opened,
        ],
    );
    assert!(later.iter().all(|a| *a == SessionAction::Pass));
    assert_eq!(session.state, SessionState::Closed);
}

#[test]
fn no_command_means_nothing_but_the_handshake_is_written() {
    // a refused handshake means the loop never submits anything, so the
    // only frame ever written to the socket is the handshake request
    let refusal = Response::HandshakeError { message: b"incompatible".to_vec() };
    let mut session = Session::new();
    let actions = run_events(
        &mut session,
        vec![
            SessionEvent::Opened,
            SessionEvent::Frame(encode_response(&refusal)),
            SessionEvent::SocketClosed,
        ],
    );
    let sent = sent_of(&actions);
    assert_eq!(sent, vec![encode_request(&Request::Handshake)]);
}

#[test]
fn command_queue_closure_closes_the_socket() {
    let mut session = Session::new();
    session.step(SessionEvent::Opened);
    session.step(SessionEvent::Frame(encode_response(&ok_handshake())));
    let action = session.step(SessionEvent::CommandsClosed);
    assert_eq!(action, SessionAction::Close);
    assert_eq!(session.state, SessionState::Closed);
}

#[test]
fn result_queue_closure_closes_the_socket() {
    let mut session = Session::new();
    session.step(SessionEvent::Opened);
    session.step(SessionEvent::Frame(encode_response(&ok_handshake())));
    let action = session.step(SessionEvent::ResultsClosed);
    assert_eq!(action, SessionAction::Close);
    assert_eq!(session.state, SessionState::Closed);
}

#[test]
fn never_more_than_one_turn_in_flight() {
    // at every point of a session, the frames written and the results
    // delivered differ by at most one
    let reply = Response::ExecuteSuccess { message: b"ok".to_vec() };
    let events = vec![
        SessionEvent::Opened,
        SessionEvent::Frame(encode_response(&ok_handshake())),
        SessionEvent::Command(b"one".to_vec()),
        SessionEvent::TextFrame,
        SessionEvent::Frame(vec![0u8]),
        SessionEvent::Frame(encode_response(&reply)),
        SessionEvent::Command(b"two".to_vec()),
        SessionEvent::SocketClosed,
    ];
    let mut session = Session::new();
    let mut actions: Vec<SessionAction> = Vec::new();
    for e in events {
        actions.push(session.step(e));
        let sends = sent_of(&actions).len();
        let delivers = delivered_of(&actions).len();
        assert!(delivers <= sends && sends <= delivers + 1);
    }
}
