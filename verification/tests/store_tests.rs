use chat_relay::store::MessageLog;

#[test]
fn store_then_fetch_round_trip() {
    let mut log = MessageLog::new();
    log.store(String::from("main"), String::from("hi"), 1000);
    let rows = log.fetch_by_room("main");
    assert_eq!(rows.len(), 1);
    assert_eq!(rows[0].room, "main");
    assert_eq!(rows[0].content, "hi");
    assert_eq!(rows[0].sent_at, 1000);
}

#[test]
fn fetch_is_per_room_and_in_timestamp_order() {
    let mut log = MessageLog::new();
    log.store(String::from("main"), String::from("a"), 1);
    log.store(String::from("lobby"), String::from("b"), 2);
    log.store(String::from("main"), String::from("c"), 2);
    log.store(String::from("main"), String::from("d"), 5);
    let rows = log.fetch_by_room("main");
    let texts: Vec<&str> = rows.iter().map(|r| r.content.as_str()).collect();
    assert_eq!(texts, vec!["a", "c", "d"]);
    for w in rows.windows(2) {
        assert!(w[0].sent_at <= w[1].sent_at);
    }
    let rows = log.fetch_by_room("lobby");
    assert_eq!(rows.len(), 1);
    assert_eq!(rows[0].content, "b");
    let rows = log.fetch_by_room("nowhere");
    assert!(rows.is_empty());
}
