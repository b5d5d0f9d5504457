use chat_relay::coordinator::{Applied, ChatServer, Command, Delivery, Reply};

fn conns(d: &[Delivery]) -> Vec<u64> {
    d.iter().map(|x| x.conn).collect()
}

#[test]
fn tracked_ids_are_those_connected_and_not_disconnected() {
    let mut s = ChatServer::new();
    s.connect(1);
    s.connect(2);
    s.connect(3);
    assert!(s.is_connected(1) && s.is_connected(2) && s.is_connected(3));
    s.disconnect(2);
    assert!(s.is_connected(1));
    assert!(!s.is_connected(2));
    assert!(s.is_connected(3));
    s.disconnect(2);
    assert!(!s.is_connected(2));
    s.connect(2);
    assert!(s.is_connected(2));
    s.disconnect(1);
    s.disconnect(3);
    assert!(!s.is_connected(1) && s.is_connected(2) && !s.is_connected(3));
}

#[test]
fn connect_places_the_id_in_main_only() {
    let mut s = ChatServer::new();
    s.connect(7);
    assert_eq!(s.current_room(7), Some(String::from("main")));
}

#[test]
fn connect_announces_and_reports_the_count() {
    let mut s = ChatServer::new();
    let d1 = s.connect(1);
    // nobody to announce to; the count goes to the new member
    assert_eq!(d1.len(), 1);
    assert_eq!(d1[0].conn, 1);
    assert_eq!(d1[0].text, "Total visitors 1");
    let d2 = s.connect(2);
    assert_eq!(d2.len(), 3);
    assert_eq!(d2[0].conn, 1);
    assert_eq!(d2[0].text, "Someone joined");
    assert_eq!(d2[1].text, "Total visitors 2");
    assert_eq!(d2[2].text, "Total visitors 2");
    let mut who = conns(&d2[1..]);
    who.sort();
    assert_eq!(who, vec![1, 2]);
}

#[test]
fn join_moves_the_id_into_exactly_one_room() {
    let mut s = ChatServer::new();
    s.connect(1);
    s.join_room(1, "lobby");
    assert_eq!(s.current_room(1), Some(String::from("lobby")));
    s.join_room(1, "den");
    assert_eq!(s.current_room(1), Some(String::from("den")));
    s.join_room(1, "den");
    assert_eq!(s.current_room(1), Some(String::from("den")));
    // the vacated rooms still exist
    let mut rooms = s.list_rooms();
    rooms.sort();
    assert_eq!(rooms, vec!["den", "lobby", "main"]);
}

#[test]
fn join_announces_departure_and_arrival() {
    let mut s = ChatServer::new();
    s.connect(1);
    s.connect(2);
    s.connect(3);
    s.join_room(3, "lobby");
    let d = s.join_room(1, "lobby");
    // 2 stays in main and hears the departure; 3 is in lobby and hears the
    // arrival; the mover itself hears neither
    assert_eq!(d.len(), 2);
    assert_eq!(d[0].conn, 2);
    assert_eq!(d[0].text, "Someone disconnected");
    assert_eq!(d[1].conn, 3);
    assert_eq!(d[1].text, "Someone connected");
}

#[test]
fn join_with_unknown_id_changes_nothing() {
    let mut s = ChatServer::new();
    let d = s.join_room(99, "lobby");
    assert!(d.is_empty());
    assert_eq!(s.list_rooms(), vec!["main"]);
}

#[test]
fn send_from_a_connection_in_no_room_is_dropped() {
    let s = ChatServer::new();
    let (d, p) = s.send_message(42, "hello");
    assert!(d.is_empty());
    assert!(p.is_none());
}

#[test]
fn broadcast_reaches_the_other_members_only() {
    let mut s = ChatServer::new();
    s.connect(1);
    s.connect(2);
    s.connect(3);
    let (d, p) = s.send_message(1, "hi there");
    let mut who = conns(&d);
    who.sort();
    assert_eq!(who, vec![2, 3]);
    for x in &d {
        assert_eq!(x.text, "hi there");
    }
    let p = p.expect("a message from a room member is persisted");
    assert_eq!(p.room, "main");
    assert_eq!(p.content, "hi there");
}

#[test]
fn disconnect_notifies_the_remaining_members() {
    let mut s = ChatServer::new();
    s.connect(1);
    s.connect(2);
    let d = s.disconnect(1);
    assert_eq!(conns(&d), vec![2]);
    assert_eq!(d[0].text, "Someone disconnected");
    assert_eq!(s.current_room(1), None);
}

#[test]
fn disconnect_of_unknown_id_never_fails() {
    let mut s = ChatServer::new();
    let d = s.disconnect(12345);
    assert!(d.is_empty());
    assert!(s.is_connected(12345) == false);
}

#[test]
fn commands_apply_in_submission_order() {
    let mut s = ChatServer::new();
    let a = s.handle_command(Command::Connect);
    let id = match a.reply {
        Reply::NewId { id } => id,
        _ => panic!("connect replies with the new id"),
    };
    assert!(s.is_connected(id));
    assert!(a.persist.is_none());

    let a = s.handle_command(Command::Join { conn: id, room: String::from("lobby") });
    assert!(matches!(a.reply, Reply::Done));
    assert_eq!(s.current_room(id), Some(String::from("lobby")));

    let a = s.handle_command(Command::List);
    match a.reply {
        Reply::Rooms { mut rooms } => {
            rooms.sort();
            assert_eq!(rooms, vec!["lobby", "main"]);
        },
        _ => panic!("list replies with the room names"),
    }

    let a = s.handle_command(Command::Message { conn: id, msg: String::from("hey") });
    // alone in the room: nobody hears it, but it is persisted
    assert!(a.deliveries.is_empty());
    let p = a.persist.expect("chat from a room member is persisted");
    assert_eq!(p.room, "lobby");
    assert_eq!(p.content, "hey");

    let a = s.handle_command(Command::Disconnect { conn: id });
    assert!(matches!(a.reply, Reply::Done));
    assert!(!s.is_connected(id));
}

#[test]
fn connect_new_assigns_an_untracked_id() {
    let mut s = ChatServer::new();
    let (id1, _) = s.connect_new();
    let (id2, _) = s.connect_new();
    assert_ne!(id1, id2);
    assert!(s.is_connected(id1) && s.is_connected(id2));

    let a: Applied;
    a = s.handle_command(Command::Connect);
    match a.reply {
        Reply::NewId { id } => {
            assert_ne!(id, id1);
            assert_ne!(id, id2);
        },
        _ => panic!("connect replies with the new id"),
    }
}
