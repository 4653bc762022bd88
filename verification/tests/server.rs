use gsa_engine::server::{
    choose_port, discover_lan_ip, step, ClientMessage, Incoming, ServerMessage, SessionAction,
    SessionEvent, SessionState, DEFAULT_PORT, MAX_WS_MESSAGE_BYTES,
};
use gsa_engine::sort::{SortEvent, SortRunStats};
use std::time::Duration;

fn stats() -> SortRunStats {
    SortRunStats {
        elapsed: Duration::from_millis(5),
        elements: 3,
        algorithm: "direct-sort-tiny",
        threads_used: 2,
        gpu_used: false,
        gpu_device: None,
        bucket_multiplier: None,
    }
}

fn checked_step(state: SessionState, event: SessionEvent) -> (SessionState, SessionAction) {
    assert!(state.accepts(&event));
    step(state, event)
}

fn sort_request(array: Vec<u32>) -> SessionEvent {
    SessionEvent::Received(Incoming::Text(Ok(ClientMessage::Sort { array })))
}

#[test]
fn a_sort_is_served() {
    let (state, action) = checked_step(SessionState::Receiving, sort_request(vec![3, 1, 2]));
    assert!(matches!(action, SessionAction::StartSort(array) if array == vec![3, 1, 2]));
    let report = SortEvent::Progress { indices: vec![0, 1], values: vec![7, 8] };
    let (state, action) = checked_step(state, SessionEvent::Reported(Some(report)));
    match action {
        SessionAction::Send(ServerMessage::Progress { indices, values }) => {
            assert_eq!(indices, vec![0, 1]);
            assert_eq!(values, vec![7, 8]);
        }
        _ => panic!("no progress frame"),
    }
    let (state, action) = checked_step(state, SessionEvent::Sent(true));
    assert!(matches!(action, SessionAction::AwaitReport));
    let (state, action) =
        checked_step(state, SessionEvent::Reported(Some(SortEvent::Done(stats()))));
    assert!(matches!(action, SessionAction::AwaitSorted));
    let (state, action) = checked_step(state, SessionEvent::Sorted(Some(vec![1, 2, 3])));
    match action {
        SessionAction::Send(ServerMessage::Done { stats, sorted }) => {
            assert_eq!(stats.elements, 3);
            assert_eq!(stats.algorithm, "direct-sort-tiny");
            assert_eq!(stats.elapsed, Duration::from_millis(5));
            assert_eq!(sorted, vec![1, 2, 3]);
        }
        _ => panic!("no last frame"),
    }
    let (state, action) = checked_step(state, SessionEvent::Sent(true));
    assert!(matches!(state, SessionState::Receiving));
    assert!(matches!(action, SessionAction::Receive));
}

#[test]
fn refused_requests_are_answered() {
    for sent in [true, false] {
        let event = SessionEvent::Received(Incoming::Text(Err(String::from("expected value"))));
        let (state, action) = checked_step(SessionState::Receiving, event);
        match action {
            SessionAction::Send(ServerMessage::Error { message }) => {
                assert_eq!(message, "invalid message: expected value");
            }
            _ => panic!("no error frame"),
        }
        let (state, action) = checked_step(state, SessionEvent::Sent(sent));
        assert!(matches!(state, SessionState::Receiving));
        assert!(matches!(action, SessionAction::Receive));
    }
}

#[test]
fn only_the_connection_ends_a_conversation() {
    for incoming in [Incoming::Close, Incoming::Lost] {
        let event = SessionEvent::Received(incoming);
        let (state, action) = checked_step(SessionState::Receiving, event);
        assert!(matches!(state, SessionState::Ended));
        assert!(matches!(action, SessionAction::Stop));
        assert!(!state.accepts(&SessionEvent::Received(Incoming::Other)));
    }
    let event = SessionEvent::Received(Incoming::Other);
    let (state, action) = checked_step(SessionState::Receiving, event);
    assert!(matches!(state, SessionState::Receiving));
    assert!(matches!(action, SessionAction::Receive));
}

#[test]
fn sorts_that_cannot_be_reported_are_given_up() {
    let (state, action) = checked_step(SessionState::Reporting, SessionEvent::Sent(false));
    assert!(matches!(state, SessionState::Receiving));
    assert!(matches!(action, SessionAction::Receive));
    let (state, action) = checked_step(SessionState::Sorting, SessionEvent::Reported(None));
    assert!(matches!(state, SessionState::Receiving));
    assert!(matches!(action, SessionAction::Receive));
}

#[test]
fn failed_sorts_come_back_empty() {
    let state = SessionState::Collecting(stats());
    let (_, action) = checked_step(state, SessionEvent::Sorted(None));
    match action {
        SessionAction::Send(ServerMessage::Done { sorted, .. }) => assert!(sorted.is_empty()),
        _ => panic!("no last frame"),
    }
}

#[test]
fn events_out_of_turn_are_not_accepted() {
    assert!(!SessionState::Receiving.accepts(&SessionEvent::Sent(true)));
    assert!(!SessionState::Sorting.accepts(&SessionEvent::Received(Incoming::Close)));
    assert!(!SessionState::Replying.accepts(&SessionEvent::Reported(None)));
    assert!(!SessionState::Ended.accepts(&SessionEvent::Sent(true)));
}

#[test]
fn ports_are_read_like_numbers() {
    assert_eq!(DEFAULT_PORT, 7878);
    assert_eq!(MAX_WS_MESSAGE_BYTES, 536_870_912);
    assert_eq!(choose_port(None), 7878);
    for text in ["9000", "+9000", "0", "65535", "007", "65536", "", "+", "-1", "80 ", "12x", "++1",
        "99999999999999999999"]
    {
        let expected = text.parse::<u16>().unwrap_or(7878);
        assert_eq!(choose_port(Some(text.as_bytes())), expected);
    }
    assert_eq!(choose_port(Some(b"9000")), 9000);
    assert_eq!(choose_port(Some(b"+80")), 80);
    assert_eq!(choose_port(Some(b"65536")), 7878);
}

#[test]
fn loopback_stands_in_for_no_address() {
    assert_eq!(discover_lan_ip(Some([192, 168, 1, 20])), [192, 168, 1, 20]);
    assert_eq!(discover_lan_ip(None), [127, 0, 0, 1]);
}

#[test]
fn conversations_settle_texts_in_order() {
    let refused = |reason: &str| {
        SessionEvent::Received(Incoming::Text(Err(String::from(reason))))
    };
    let events = vec![
        refused("first"),
        SessionEvent::Sent(false),
        SessionEvent::Received(Incoming::Other),
        sort_request(vec![2, 1]),
        SessionEvent::Reported(Some(SortEvent::Progress { indices: vec![0], values: vec![1] })),
        SessionEvent::Sent(true),
        SessionEvent::Reported(Some(SortEvent::Done(stats()))),
        SessionEvent::Sorted(Some(vec![1, 2])),
        SessionEvent::Sent(true),
        sort_request(vec![9]),
        SessionEvent::Reported(None),
        refused("last"),
        SessionEvent::Sent(true),
        SessionEvent::Received(Incoming::Close),
    ];
    let mut state = SessionState::Receiving;
    let mut answers: Vec<String> = Vec::new();
    for event in events {
        assert!(!matches!(state, SessionState::Ended));
        let (next, action) = checked_step(state, event);
        match action {
            SessionAction::Send(ServerMessage::Error { message }) => answers.push(message),
            SessionAction::Send(ServerMessage::Done { sorted, .. }) => {
                answers.push(format!("{:?}", sorted));
            }
            _ => {}
        }
        state = next;
    }
    assert!(matches!(state, SessionState::Ended));
    assert_eq!(answers, vec!["invalid message: first", "[1, 2]", "invalid message: last"]);
}
