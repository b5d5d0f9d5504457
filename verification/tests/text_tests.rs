use chat_relay::text::{
    dispatch, join_confirmation, str_eq, trim, u64_to_string, visitor_notice, TextCommand,
};

#[test]
fn trim_strips_surrounding_whitespace() {
    assert_eq!(trim("  hello world \n"), "hello world");
    assert_eq!(trim("\t\r\n "), "");
    assert_eq!(trim(""), "");
    assert_eq!(trim("abc"), "abc");
    assert_eq!(trim("  a  b  "), "a  b");
}

#[test]
fn trim_strips_unicode_whitespace() {
    assert_eq!(trim("\u{a0}\u{2003}hello\u{2028}\u{3000}"), "hello");
    assert_eq!(trim("\u{85}"), "");
    // matches the standard trim on every case above
    assert_eq!("\u{a0}\u{2003}hello\u{2028}\u{3000}".trim(), "hello");
}

#[test]
fn str_eq_compares_characters() {
    assert!(str_eq("abc", "abc"));
    assert!(!str_eq("abc", "abd"));
    assert!(!str_eq("abc", "ab"));
    assert!(str_eq("", ""));
}

#[test]
fn dispatch_list() {
    assert!(matches!(dispatch("/list", &None), TextCommand::ListRooms));
    assert!(matches!(dispatch("  /list  ", &None), TextCommand::ListRooms));
    assert!(matches!(dispatch("/list extra", &None), TextCommand::ListRooms));
}

#[test]
fn dispatch_join_with_room() {
    match dispatch("/join lobby", &None) {
        TextCommand::Join { room } => assert_eq!(room, "lobby"),
        other => panic!("expected a join, got {:?}", kind_of(&other)),
    }
}

#[test]
fn dispatch_join_keeps_argument_verbatim() {
    match dispatch("/join  spaced", &None) {
        TextCommand::Join { room } => assert_eq!(room, " spaced"),
        other => panic!("expected a join, got {:?}", kind_of(&other)),
    }
}

#[test]
fn dispatch_join_without_room_is_a_notice() {
    match dispatch("/join", &None) {
        TextCommand::Notice { text } => assert_eq!(text, "!!! room name is required"),
        other => panic!("expected a notice, got {:?}", kind_of(&other)),
    }
}

#[test]
fn dispatch_name_sets_name() {
    match dispatch("/name Alice", &None) {
        TextCommand::SetName { name } => assert_eq!(name, "Alice"),
        other => panic!("expected a name change, got {:?}", kind_of(&other)),
    }
}

#[test]
fn dispatch_name_without_argument_is_a_notice() {
    match dispatch("/name", &None) {
        TextCommand::Notice { text } => assert_eq!(text, "!!! name is required"),
        other => panic!("expected a notice, got {:?}", kind_of(&other)),
    }
}

#[test]
fn dispatch_unknown_command_is_echoed() {
    match dispatch("/frobnicate now", &None) {
        TextCommand::Notice { text } => assert_eq!(text, "!!! unknown command: /frobnicate now"),
        other => panic!("expected a notice, got {:?}", kind_of(&other)),
    }
}

#[test]
fn dispatch_plain_text_without_name() {
    match dispatch("  hello  ", &None) {
        TextCommand::Chat { composed } => assert_eq!(composed, "hello"),
        other => panic!("expected chat, got {:?}", kind_of(&other)),
    }
}

#[test]
fn dispatch_plain_text_with_name() {
    match dispatch("hello", &Some(String::from("Bob"))) {
        TextCommand::Chat { composed } => assert_eq!(composed, "Bob: hello"),
        other => panic!("expected chat, got {:?}", kind_of(&other)),
    }
}

#[test]
fn decimal_rendering() {
    assert_eq!(u64_to_string(0), "0");
    assert_eq!(u64_to_string(7), "7");
    assert_eq!(u64_to_string(10), "10");
    assert_eq!(u64_to_string(12345), "12345");
    assert_eq!(u64_to_string(u64::MAX), "18446744073709551615");
}

#[test]
fn notice_builders() {
    assert_eq!(visitor_notice(3), "Total visitors 3");
    assert_eq!(join_confirmation("lobby"), "joined lobby");
}

fn kind_of(c: &TextCommand) -> &'static str {
    match c {
        TextCommand::ListRooms => "list",
        TextCommand::Join { .. } => "join",
        TextCommand::SetName { .. } => "name",
        TextCommand::Notice { .. } => "notice",
        TextCommand::Chat { .. } => "chat",
    }
}
