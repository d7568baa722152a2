use twitch_chat_logger::db::{DB, BATCH_SIZE};
use twitch_chat_logger::error::MyError;
use twitch_chat_logger::types::TwitchMessage;

fn message(n: u32) -> TwitchMessage {
    let tags = vec![
        ("display-name".to_string(), format!("viewer{}", n)),
        ("id".to_string(), format!("00000000-0000-0000-0000-{:012x}", n)),
        ("room-id".to_string(), "1".to_string()),
        ("tmi-sent-ts".to_string(), "947638923004".to_string()),
        ("user-id".to_string(), n.to_string()),
    ];
    TwitchMessage::try_from(&tags, "#chan", &format!("message {}", n), "raw").unwrap()
}

#[test]
fn nothing_leaves_below_the_batch_size() {
    let mut db = DB::with_batch_size(4);
    for n in 0..3 {
        assert!(db.submit(message(n)).is_none());
        assert_eq!(db.len(), n as usize + 1);
    }
}

#[test]
fn the_filling_message_flushes_the_batch() {
    let mut db = DB::with_batch_size(4);
    for n in 0..3 {
        assert!(db.submit(message(n)).is_none());
    }
    let rows = db.submit(message(3)).unwrap();
    assert_eq!(rows.len(), 4);
    for (n, row) in rows.iter().enumerate() {
        assert_eq!(row.message, format!("message {}", n));
        assert_eq!(row.display_name, format!("viewer{}", n));
    }
    assert_eq!(db.len(), 0);
    assert!(db.submit(message(4)).is_none());
    assert_eq!(db.len(), 1);
}

#[test]
fn the_default_batch_holds_1024() {
    assert_eq!(BATCH_SIZE, 1024);
    let mut db = DB::new();
    for n in 0..1023 {
        assert!(db.submit(message(n)).is_none());
    }
    let rows = db.submit(message(1023)).unwrap();
    assert_eq!(rows.len(), 1024);
    assert_eq!(rows[0].user_id, "0");
    assert_eq!(rows[1023].user_id, "1023");
    assert_eq!(db.len(), 0);
}

#[test]
fn stopping_flushes_what_is_left() {
    let mut db = DB::with_batch_size(4);
    assert!(db.submit(message(7)).is_none());
    assert!(db.submit(message(8)).is_none());
    let rows = db.flush();
    assert_eq!(rows.len(), 2);
    assert_eq!(rows[0].user_id, "7");
    assert_eq!(rows[1].user_id, "8");
    assert_eq!(db.len(), 0);
    assert!(db.flush().is_empty());
}

#[test]
fn tiny_batches_flush_every_message() {
    let mut one = DB::with_batch_size(1);
    assert_eq!(one.submit(message(1)).unwrap().len(), 1);
    let mut zero = DB::with_batch_size(0);
    assert_eq!(zero.submit(message(1)).unwrap().len(), 1);
    assert_eq!(zero.len(), 0);
}

#[test]
fn writes_are_counted_and_failures_reported() {
    let mut db = DB::with_batch_size(2);
    assert_eq!(db.inserted(), 0);
    assert!(matches!(db.flushed(Ok(2)), Ok(2)));
    assert!(matches!(db.flushed(Ok(3)), Ok(3)));
    assert_eq!(db.inserted(), 5);
    match db.flushed(Err("disk full".to_string())) {
        Err(MyError::Db(why)) => assert_eq!(why, "disk full"),
        other => panic!("expected an error of the store, got {:?}", other),
    }
    assert_eq!(db.inserted(), 5);
    assert!(matches!(db.flushed(Ok(usize::MAX)), Ok(usize::MAX)));
    assert_eq!(db.inserted(), usize::MAX);
}
