use twitch_chat_logger::error::MyError;
use twitch_chat_logger::session::{
    guest_nick, react, setup_client, tags_with_values, Command, IrcMessage, Reaction,
};
use twitch_chat_logger::settings::Settings;

fn chat_tags() -> Vec<(String, Option<String>)> {
    vec![
        ("display-name".to_string(), Some("viewer".to_string())),
        ("id".to_string(), Some("936DA01F-9ABD-4D9D-80C7-02AF85C822A8".to_string())),
        ("room-id".to_string(), Some("1".to_string())),
        ("tmi-sent-ts".to_string(), Some("947638923004".to_string())),
        ("user-id".to_string(), Some("9".to_string())),
    ]
}

fn line(tags: Vec<(String, Option<String>)>, command: Command) -> IrcMessage {
    IrcMessage { tags, command, raw: "the line".to_string() }
}

#[test]
fn guest_names_carry_the_number() {
    assert_eq!(guest_nick(0), "justinfan0");
    assert_eq!(guest_nick(12345), "justinfan12345");
    assert_eq!(guest_nick(u32::MAX), "justinfan4294967295");
}

#[test]
fn a_session_is_set_up_as_a_guest() {
    let setup = setup_client(vec!["a".to_string(), "b".to_string()]);
    assert_eq!(setup.server, "irc.chat.twitch.tv");
    assert_eq!(setup.capability, "twitch.tv/tags");
    assert_eq!(setup.channels, vec!["a".to_string(), "b".to_string()]);
    let number = setup.nickname.strip_prefix("justinfan").unwrap();
    assert_eq!(guest_nick(number.parse::<u32>().unwrap()), setup.nickname);
}

#[test]
fn a_chat_message_is_forwarded() {
    let said = Command::Privmsg { target: "#chan".to_string(), text: "hello".to_string() };
    match react(line(chat_tags(), said)) {
        Reaction::Forward(m) => {
            assert_eq!(m.channel, "#chan");
            assert_eq!(m.message, "hello");
            assert_eq!(m.raw, "the line");
            assert_eq!(m.tags.display_name, "viewer");
        }
        _ => panic!("expected the message to be forwarded"),
    }
}

#[test]
fn a_chat_message_without_its_tags_is_dropped() {
    let said = Command::Privmsg { target: "#chan".to_string(), text: "hello".to_string() };
    match react(line(Vec::new(), said)) {
        Reaction::Drop(MyError::Parse(why)) => assert_eq!(why, "Display name not present"),
        _ => panic!("expected the message to be dropped"),
    }
}

#[test]
fn a_ping_is_answered() {
    let ping = Command::Ping { reply: Some("tmi.twitch.tv".to_string()) };
    assert!(matches!(react(line(Vec::new(), ping)), Reaction::Pong(s) if s == "tmi.twitch.tv"));
    let bare = Command::Ping { reply: None };
    assert!(matches!(react(line(Vec::new(), bare)), Reaction::Pong(s) if s.is_empty()));
}

#[test]
fn acknowledgements_are_noted_and_the_rest_ignored() {
    let join = Command::Join { channel: "#a".to_string() };
    assert!(matches!(react(line(Vec::new(), join)), Reaction::Joined(c) if c == "#a"));
    let part = Command::Part { channel: "#b".to_string() };
    assert!(matches!(react(line(chat_tags(), part)), Reaction::Left(c) if c == "#b"));
    assert!(matches!(react(line(chat_tags(), Command::Other)), Reaction::Ignore));
}

fn some(s: &str) -> Option<String> {
    Some(s.to_string())
}

#[test]
fn settings_are_read_from_their_values() {
    let s = Settings::from_values(some("1000"), some("50"), some("30")).unwrap();
    assert_eq!(
        s,
        Settings { max_channels: 1000, channels_per_controller: 50, refresh_interval: 30 }
    );
}

#[test]
fn a_missing_setting_is_named() {
    match Settings::from_values(None, some("50"), None) {
        Err(MyError::DotEnv(name)) => assert_eq!(name, "MAX_CHANNELS"),
        other => panic!("expected a missing setting, got {:?}", other),
    }
    match Settings::from_values(some("1"), some("50"), None) {
        Err(MyError::DotEnv(name)) => assert_eq!(name, "REFRESH_INTERVAL"),
        other => panic!("expected a missing setting, got {:?}", other),
    }
}

#[test]
fn an_unreadable_setting_is_named() {
    match Settings::from_values(some("1"), some("fifty"), None) {
        Err(MyError::Parse(name)) => assert_eq!(name, "CHANNELS_PER_CONTROLLER"),
        other => panic!("expected an unreadable setting, got {:?}", other),
    }
}

#[test]
fn a_tag_without_a_value_counts_as_absent() {
    let tags = vec![
        ("flag".to_string(), None),
        ("color".to_string(), Some("".to_string())),
        ("bits".to_string(), Some("5".to_string())),
        ("flag".to_string(), None),
    ];
    assert_eq!(
        tags_with_values(&tags),
        vec![("color".to_string(), "".to_string()), ("bits".to_string(), "5".to_string())]
    );
    assert!(tags_with_values(&Vec::new()).is_empty());
    let mut missing = chat_tags();
    missing[4].1 = None;
    let said = Command::Privmsg { target: "#chan".to_string(), text: "hello".to_string() };
    match react(line(missing, said)) {
        Reaction::Drop(MyError::Parse(why)) => assert_eq!(why, "User id not present"),
        _ => panic!("expected the message to be dropped"),
    }
}
