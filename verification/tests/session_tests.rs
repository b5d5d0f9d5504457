use chat_relay::coordinator::ChatServer;
use chat_relay::session::{Frame, SessionEvent, SessionState, SessionStep};
use chat_relay::{CLIENT_TIMEOUT_MS, HEARTBEAT_INTERVAL_MS};

fn text_frame(t: &str) -> SessionEvent {
    SessionEvent::Frame { frame: Frame::Text { text: String::from(t) } }
}

#[test]
fn ping_gets_a_pong_and_refreshes_liveness() {
    let mut s = SessionState::new(1, 0);
    let r = s.step(SessionEvent::Frame { frame: Frame::Ping }, 4000);
    assert!(matches!(r, SessionStep::ReplyPong));
    assert_eq!(s.last_heartbeat_ms, 4000);
}

#[test]
fn pong_refreshes_liveness_silently() {
    let mut s = SessionState::new(1, 0);
    let r = s.step(SessionEvent::Frame { frame: Frame::Pong }, 2500);
    assert!(matches!(r, SessionStep::Idle));
    assert_eq!(s.last_heartbeat_ms, 2500);
}

#[test]
fn binary_frames_are_ignored() {
    let mut s = SessionState::new(1, 0);
    let r = s.step(SessionEvent::Frame { frame: Frame::Binary }, 1000);
    assert!(matches!(r, SessionStep::Idle));
    assert_eq!(s.last_heartbeat_ms, 0);
}

#[test]
fn close_stops_with_the_peer_reason() {
    let mut s = SessionState::new(1, 0);
    let r = s.step(SessionEvent::Frame { frame: Frame::Close }, 1000);
    assert!(matches!(r, SessionStep::Stop { peer_close: true }));
}

#[test]
fn errors_and_silent_end_stop_without_a_reason() {
    let mut s = SessionState::new(1, 0);
    assert!(matches!(
        s.step(SessionEvent::StreamError, 1000),
        SessionStep::Stop { peer_close: false }
    ));
    assert!(matches!(
        s.step(SessionEvent::StreamEnd, 1000),
        SessionStep::Stop { peer_close: false }
    ));
}

#[test]
fn broadcasts_are_forwarded_verbatim() {
    let mut s = SessionState::new(1, 0);
    let r = s.step(SessionEvent::Broadcast { text: String::from("x: hi") }, 1000);
    match r {
        SessionStep::SendText { text } => assert_eq!(text, "x: hi"),
        _ => panic!("a broadcast is forwarded as a text frame"),
    }
}

#[test]
fn a_closed_broadcast_channel_aborts() {
    let mut s = SessionState::new(1, 0);
    assert!(matches!(s.step(SessionEvent::BroadcastClosed, 1000), SessionStep::Abort));
}

#[test]
fn quiet_connection_is_dropped_within_one_tick_of_the_window() {
    let mut s = SessionState::new(1, 0);
    // at exactly the window's edge the session still lives
    let r = s.step(SessionEvent::Tick, CLIENT_TIMEOUT_MS);
    assert!(matches!(r, SessionStep::SendPing));
    // one tick later the window is exceeded and the session stops
    let r = s.step(SessionEvent::Tick, CLIENT_TIMEOUT_MS + HEARTBEAT_INTERVAL_MS);
    assert!(matches!(r, SessionStep::Stop { peer_close: false }));
}

#[test]
fn liveness_signal_defers_the_timeout() {
    let mut s = SessionState::new(1, 0);
    s.step(SessionEvent::Frame { frame: Frame::Pong }, 8000);
    let r = s.step(SessionEvent::Tick, 15000);
    assert!(matches!(r, SessionStep::SendPing));
    let r = s.step(SessionEvent::Tick, 18001);
    assert!(matches!(r, SessionStep::Stop { peer_close: false }));
}

#[test]
fn join_command_round_trip() {
    let mut server = ChatServer::new();
    server.connect(1);
    let mut s = SessionState::new(1, 0);

    let r = s.step(text_frame("/join lobby"), 100);
    let (room, confirm) = match r {
        SessionStep::SubmitJoin { room, confirm } => (room, confirm),
        _ => panic!("a join command submits a join"),
    };
    assert_eq!(room, "lobby");
    assert_eq!(confirm, "joined lobby");
    server.join_room(1, room.as_str());

    let r = s.step(text_frame("/list"), 200);
    assert!(matches!(r, SessionStep::SubmitList));
    let mut rooms = server.list_rooms();
    rooms.sort();
    assert_eq!(rooms, vec!["lobby", "main"]);
}

#[test]
fn named_chat_reaches_the_other_member_exactly() {
    let mut server = ChatServer::new();
    server.connect(1);
    server.connect(2);
    let mut s = SessionState::new(1, 0);

    let r = s.step(text_frame("/name Alice"), 100);
    assert!(matches!(r, SessionStep::Idle));

    let r = s.step(text_frame("hello"), 200);
    let composed = match r {
        SessionStep::SubmitChat { text } => text,
        _ => panic!("plain text submits chat"),
    };
    assert_eq!(composed, "Alice: hello");

    let (d, _) = server.send_message(1, composed.as_str());
    assert_eq!(d.len(), 1);
    assert_eq!(d[0].conn, 2);
    assert_eq!(d[0].text, "Alice: hello");
}

#[test]
fn malformed_commands_answer_the_sender_only() {
    let mut s = SessionState::new(1, 0);
    match s.step(text_frame("/join"), 100) {
        SessionStep::SendText { text } => assert_eq!(text, "!!! room name is required"),
        _ => panic!("a missing room is reported back"),
    }
    match s.step(text_frame("/name"), 100) {
        SessionStep::SendText { text } => assert_eq!(text, "!!! name is required"),
        _ => panic!("a missing name is reported back"),
    }
    match s.step(text_frame("/quux 1 2"), 100) {
        SessionStep::SendText { text } => assert_eq!(text, "!!! unknown command: /quux 1 2"),
        _ => panic!("an unknown command is echoed back"),
    }
}
