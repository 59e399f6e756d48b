use forward_proxy::connection::{accept, step, Action, Event, RelayPhase, State, READ_LIMIT};
use forward_proxy::parser::parse;
use forward_proxy::request::ProxyError;

const REQUEST: &[u8] = b"GET http://example.com/foo/bar HTTP/1.1\r\nHost: example.com\r\n\r\n";

fn data(bytes: &[u8]) -> Event {
    Event::Data { bytes: bytes.to_vec() }
}

fn connecting() -> State {
    State::Connecting { request: parse(REQUEST).unwrap() }
}

#[test]
fn connection_runs_from_accepted_to_closed() {
    let state = accept();
    assert_eq!(state, State::Accepted);
    let (state, action) = step(state, Event::Done);
    assert_eq!(state, State::Reading);
    assert_eq!(action, Action::ReadClient { limit: 1024 });
    assert_eq!(READ_LIMIT, 1024);

    let (state, action) = step(state, data(REQUEST));
    assert_eq!(state, State::Parsed { request: parse(REQUEST).unwrap() });
    match action {
        Action::Log { line } => assert!(line.ends_with("] GET example.com \"/foo/bar\"")),
        other => panic!("unexpected action {:?}", other),
    }

    let (state, action) = step(state, Event::Done);
    assert_eq!(state, connecting());
    assert_eq!(action, Action::Connect { address: "example.com:80".to_string() });

    let (state, action) = step(state, Event::Done);
    assert_eq!(state, State::Forwarding);
    assert_eq!(
        action,
        Action::SendUpstream {
            bytes: b"GET /foo/bar HTTP/1.1\r\nHost: example.com\r\nConnection: close\r\n\r\n"
                .to_vec()
        }
    );

    let (state, action) = step(state, Event::Done);
    assert_eq!(state, State::Relaying { phase: RelayPhase::Buffering });
    assert_eq!(action, Action::ReadUpstream);

    let (state, action) = step(state, data(b"HTTP/1.1 200 OK\r\n\r\nhello"));
    assert_eq!(state, State::Relaying { phase: RelayPhase::Flushing });
    assert_eq!(action, Action::SendClient { bytes: b"HTTP/1.1 200 OK\r\n\r\nhello".to_vec() });

    let (state, action) = step(state, Event::Done);
    assert_eq!(state, State::Closed);
    assert_eq!(action, Action::Close);

    let (state, action) = step(state, Event::Done);
    assert_eq!(state, State::Closed);
    assert_eq!(action, Action::Nothing);
}

#[test]
fn unreachable_origin_ends_the_connection() {
    let (state, action) = step(connecting(), Event::Failed);
    assert_eq!(state, State::Errored { error: ProxyError::UpstreamConnectFailure });
    assert_eq!(action, Action::Nothing);
    let (state, action) = step(state, Event::Done);
    assert_eq!(state, State::Closed);
    assert_eq!(action, Action::Close);
}

#[test]
fn malformed_request_is_not_forwarded() {
    let (state, action) = step(State::Reading, data(b"GET /foo HTTP/1.1\r\n\r\n"));
    assert_eq!(state, State::Errored { error: ProxyError::MalformedRequest });
    assert_eq!(action, Action::Nothing);
    let (state, action) = step(state, Event::Done);
    assert_eq!(state, State::Closed);
    assert_eq!(action, Action::Close);
}

#[test]
fn response_is_relayed_byte_for_byte() {
    let mut response: Vec<u8> = (0..=255).collect();
    response.extend_from_slice(b"\r\n\r\nnot http at all\x00\xff");
    let (state, action) = step(State::Relaying { phase: RelayPhase::Buffering }, data(&response));
    assert_eq!(state, State::Relaying { phase: RelayPhase::Flushing });
    assert_eq!(action, Action::SendClient { bytes: response });
    let (_, action) = step(State::Relaying { phase: RelayPhase::Buffering }, data(b""));
    assert_eq!(action, Action::SendClient { bytes: vec![] });
}

#[test]
fn failed_work_leads_to_errored_with_an_io_failure() {
    let states = [
        State::Accepted,
        State::Reading,
        State::Parsed { request: parse(REQUEST).unwrap() },
        State::Forwarding,
        State::Relaying { phase: RelayPhase::Buffering },
        State::Relaying { phase: RelayPhase::Flushing },
    ];
    for state in states {
        let (next, action) = step(state, Event::Failed);
        assert_eq!(next, State::Errored { error: ProxyError::IOFailure });
        assert_eq!(action, Action::Nothing);
    }
}

#[test]
fn event_that_the_state_does_not_wait_for_is_an_io_failure() {
    let (next, _) = step(State::Reading, Event::Done);
    assert_eq!(next, State::Errored { error: ProxyError::IOFailure });
    let (next, _) = step(State::Forwarding, data(b"x"));
    assert_eq!(next, State::Errored { error: ProxyError::IOFailure });
    let (next, _) = step(connecting(), data(b"x"));
    assert_eq!(next, State::Errored { error: ProxyError::IOFailure });
    let (next, _) = step(State::Relaying { phase: RelayPhase::Flushing }, data(b"x"));
    assert_eq!(next, State::Errored { error: ProxyError::IOFailure });
}

#[test]
fn errored_leads_to_closed_on_every_event() {
    for event in [Event::Done, Event::Failed, data(b"x")] {
        let (next, action) = step(State::Errored { error: ProxyError::IOFailure }, event);
        assert_eq!(next, State::Closed);
        assert_eq!(action, Action::Close);
    }
}

#[test]
fn empty_read_is_a_malformed_request() {
    let (state, _) = step(State::Reading, data(b""));
    assert_eq!(state, State::Errored { error: ProxyError::MalformedRequest });
}
