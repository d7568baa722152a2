use twitch_chat_logger::error::MyError;
use twitch_chat_logger::irc_types;
use twitch_chat_logger::models::Message;
use twitch_chat_logger::text::{parse_bool, parse_i32, parse_u64, show_u64, split};
use twitch_chat_logger::types::{
    get_tag, MessageId, Timestamp, TwitchMessage, TwitchTags, MAX_TIMESTAMP_MILLIS,
};

fn tag(k: &str, v: &str) -> (String, String) {
    (k.to_string(), v.to_string())
}

fn full_tags() -> Vec<(String, String)> {
    vec![
        tag("badge-info", "subscriber/8"),
        tag("badges", "subscriber/6,premium/1"),
        tag("bits", "100"),
        tag("color", "#1E90FF"),
        tag("display-name", "Some_Viewer"),
        tag("emotes", "25:0-4/1902:6-10"),
        tag("id", "936DA01F-9ABD-4D9D-80C7-02AF85C822A8"),
        tag("mod", "true"),
        tag("room-id", "23161357"),
        tag("tmi-sent-ts", "947638923004"),
        tag("user-id", "4242"),
    ]
}

fn without(tags: Vec<(String, String)>, key: &str) -> Vec<(String, String)> {
    tags.into_iter().filter(|(k, _)| k != key).collect()
}

fn with(tags: Vec<(String, String)>, key: &str, value: &str) -> Vec<(String, String)> {
    let mut out = without(tags, key);
    out.push(tag(key, value));
    out
}

fn parse_error(r: Result<TwitchTags, MyError>) -> &'static str {
    match r {
        Err(MyError::Parse(why)) => why,
        other => panic!("expected a decoding error, got {:?}", other),
    }
}

#[test]
fn tags_decode_every_field() {
    let t = TwitchTags::try_from(&full_tags()).unwrap();
    assert_eq!(t.badge_info, Some("subscriber/8".to_string()));
    assert_eq!(t.badges, Some(vec!["subscriber/6".to_string(), "premium/1".to_string()]));
    assert_eq!(t.bits, Some(100));
    assert_eq!(t.color, Some("#1E90FF".to_string()));
    assert_eq!(t.display_name, "Some_Viewer");
    assert_eq!(t.emotes, Some(vec!["25:0-4".to_string(), "1902:6-10".to_string()]));
    assert_eq!(t.id.value, 0x936DA01F9ABD4D9D80C702AF85C822A8);
    assert_eq!(t.moderator, Some(true));
    assert_eq!(t.room_id, 23161357);
    assert_eq!(t.tmi_sent_ts.millis(), 947638923004);
    assert_eq!(t.user_id, "4242");
}

#[test]
fn optional_tags_may_be_absent_or_unreadable() {
    let mut tags = full_tags();
    for key in ["badge-info", "badges", "color", "emotes"] {
        tags = without(tags, key);
    }
    tags = with(tags, "bits", "many");
    tags = with(tags, "mod", "1");
    let t = TwitchTags::try_from(&tags).unwrap();
    assert_eq!(t.badge_info, None);
    assert_eq!(t.badges, None);
    assert_eq!(t.bits, None);
    assert_eq!(t.color, None);
    assert_eq!(t.emotes, None);
    assert_eq!(t.moderator, None);
}

#[test]
fn each_required_tag_is_named_when_missing() {
    assert_eq!(
        parse_error(TwitchTags::try_from(&without(full_tags(), "display-name"))),
        "Display name not present"
    );
    assert_eq!(
        parse_error(TwitchTags::try_from(&without(full_tags(), "id"))),
        "Message id not present"
    );
    assert_eq!(
        parse_error(TwitchTags::try_from(&with(full_tags(), "id", "not-an-id"))),
        "Message id not present"
    );
    assert_eq!(
        parse_error(TwitchTags::try_from(&without(full_tags(), "room-id"))),
        "room id not present"
    );
    assert_eq!(
        parse_error(TwitchTags::try_from(&with(full_tags(), "room-id", "x1"))),
        "room id not present"
    );
    assert_eq!(
        parse_error(TwitchTags::try_from(&without(full_tags(), "tmi-sent-ts"))),
        "Timestamp not present"
    );
    assert_eq!(
        parse_error(TwitchTags::try_from(&with(full_tags(), "tmi-sent-ts", "-5"))),
        "timestamp wasn't a u64"
    );
    assert_eq!(
        parse_error(TwitchTags::try_from(&with(
            full_tags(),
            "tmi-sent-ts",
            "8210266876800000"
        ))),
        "timestamp is out of range"
    );
    assert_eq!(
        parse_error(TwitchTags::try_from(&without(full_tags(), "user-id"))),
        "User id not present"
    );
}

#[test]
fn the_first_missing_tag_wins() {
    let tags = without(without(full_tags(), "user-id"), "display-name");
    assert_eq!(parse_error(TwitchTags::try_from(&tags)), "Display name not present");
    assert_eq!(parse_error(TwitchTags::try_from(&Vec::new())), "Display name not present");
}

#[test]
fn the_first_tag_with_a_key_counts() {
    let tags = vec![tag("color", "red"), tag("bits", "1"), tag("color", "blue")];
    assert_eq!(get_tag(&tags, "color"), Some("red".to_string()));
    assert_eq!(get_tag(&tags, "bits"), Some("1".to_string()));
    assert_eq!(get_tag(&tags, "colour"), None);
    assert_eq!(get_tag(&Vec::new(), "color"), None);
}

#[test]
fn lists_are_cut_at_every_separator() {
    let tags = with(with(full_tags(), "badges", "a,,b,"), "emotes", "");
    let t = TwitchTags::try_from(&tags).unwrap();
    assert_eq!(
        t.badges,
        Some(vec!["a".to_string(), "".to_string(), "b".to_string(), "".to_string()])
    );
    assert_eq!(t.emotes, Some(vec!["".to_string()]));
}

#[test]
fn identifiers_are_read_and_written() {
    let id = MessageId::parse("936DA01F-9ABD-4D9D-80C7-02AF85C822A8").unwrap();
    assert_eq!(id.value, 0x936DA01F9ABD4D9D80C702AF85C822A8);
    assert_eq!(id.text(), "936da01f-9abd-4d9d-80c7-02af85c822a8");
    assert_eq!(MessageId::parse("936da01f9abd4d9d80c702af85c822a8"), Some(id));
    assert_eq!(MessageId::parse(""), None);
    assert_eq!(MessageId::parse("936DA01F-9ABD-4D9D-80C7"), None);
    assert_eq!(MessageId { value: 0 }.text(), "00000000-0000-0000-0000-000000000000");
}

#[test]
fn times_are_bounded_and_written() {
    assert_eq!(Timestamp::from_millis(MAX_TIMESTAMP_MILLIS + 1), None);
    assert_eq!(Timestamp::from_millis(u64::MAX), None);
    let t = Timestamp::from_millis(947638923004).unwrap();
    assert_eq!(t.millis(), 947638923004);
    assert_eq!(t.to_rfc3339(), "2000-01-12T01:02:03.004+00:00");
    assert_eq!(Timestamp::from_millis(0).unwrap().to_rfc3339(), "1970-01-01T00:00:00+00:00");
    assert_eq!(
        Timestamp::from_millis(253402300799999).unwrap().to_rfc3339(),
        "9999-12-31T23:59:59.999+00:00"
    );
    assert_eq!(
        Timestamp::from_millis(253402300800000).unwrap().to_rfc3339(),
        "+10000-01-01T00:00:00+00:00"
    );
    assert_eq!(MAX_TIMESTAMP_MILLIS, 8210266876799999);
    assert_eq!(
        Timestamp::from_millis(MAX_TIMESTAMP_MILLIS).unwrap().to_rfc3339(),
        "+262142-12-31T23:59:59.999+00:00"
    );
}

#[test]
fn a_message_keeps_its_parts() {
    let m = TwitchMessage::try_from(&full_tags(), "#lirik", "hello there", " raw line \r\n")
        .unwrap();
    assert_eq!(m.channel, "#lirik");
    assert_eq!(m.message, "hello there");
    assert_eq!(m.raw, " raw line \r\n");
    assert_eq!(m.tags.display_name, "Some_Viewer");
    let bad = TwitchMessage::try_from(&without(full_tags(), "id"), "#lirik", "hi", "raw");
    assert!(matches!(bad, Err(MyError::Parse("Message id not present"))));
}

#[test]
fn a_row_is_made_of_the_message() {
    let m = TwitchMessage::try_from(&full_tags(), "#lirik", "hello there", " raw line \r\n")
        .unwrap();
    let row = Message::from(m);
    assert_eq!(row.id, "936da01f-9abd-4d9d-80c7-02af85c822a8");
    assert_eq!(row.badge_info, Some("subscriber/8".to_string()));
    assert_eq!(row.badges, Some("[\"subscriber/6\",\"premium/1\"]".to_string()));
    assert_eq!(row.bits, Some(100));
    assert_eq!(row.color, Some("#1E90FF".to_string()));
    assert_eq!(row.display_name, "Some_Viewer");
    assert_eq!(row.emotes, Some("[\"25:0-4\",\"1902:6-10\"]".to_string()));
    assert_eq!(row.mod_, Some(true));
    assert_eq!(row.room_id, 23161357);
    assert_eq!(row.tmi_sent_ts, "2000-01-12T01:02:03.004+00:00");
    assert_eq!(row.user_id, "4242");
    assert_eq!(row.channel, "#lirik");
    assert_eq!(row.message, "hello there");
    assert_eq!(row.raw_message, "raw line");
}

#[test]
fn a_row_without_lists_has_none() {
    let tags = without(without(full_tags(), "badges"), "emotes");
    let row = Message::from(TwitchMessage::try_from(&tags, "c", "m", "r").unwrap());
    assert_eq!(row.badges, None);
    assert_eq!(row.emotes, None);
    assert_eq!(row.raw_message, "r");
}

fn irc_tag(k: &str, v: Option<&str>) -> (String, Option<String>) {
    (k.to_string(), v.map(|s| s.to_string()))
}

#[test]
fn optional_decoding_takes_the_last_tag() {
    let tags = vec![
        irc_tag("color", Some("red")),
        irc_tag("bits", Some("12")),
        irc_tag("color", Some("blue")),
        irc_tag("display-name", Some("first")),
        irc_tag("display-name", Some("")),
        irc_tag("id", None),
        irc_tag("mod", Some("1")),
        irc_tag("room-id", Some("abc")),
        irc_tag("badges", Some("a/1,b/2")),
        irc_tag("emotes", Some("x/y")),
        irc_tag("tmi-sent-ts", Some("947638923004")),
        irc_tag("user-id", Some("77")),
        irc_tag("unknown", Some("ignored")),
    ];
    let t = irc_types::TwitchTags::from_irc_tags(&tags);
    assert_eq!(t.colour, Some("blue".to_string()));
    assert_eq!(t.bits, Some(12));
    assert_eq!(t.display_name, None);
    assert_eq!(t.id, None);
    assert_eq!(t.moderator, Some(true));
    assert_eq!(t.room_id, Some(0));
    assert_eq!(t.badges, Some(vec!["a/1".to_string(), "b/2".to_string()]));
    assert_eq!(t.emotes, Some(vec!["x".to_string(), "y".to_string()]));
    assert_eq!(t.tmi_sent_ts.map(|t| t.millis()), Some(947638923004));
    assert_eq!(t.user_id, Some("77".to_string()));
    assert_eq!(t.badge_info, None);
}

#[test]
fn optional_decoding_of_nothing_is_empty() {
    let t = irc_types::TwitchTags::from_irc_tags(&Vec::new());
    assert_eq!(t.badge_info, None);
    assert_eq!(t.bits, None);
    assert_eq!(t.moderator, None);
    assert_eq!(t.tmi_sent_ts, None);
    let late = vec![irc_tag("tmi-sent-ts", Some("8210266876800000")), irc_tag("mod", Some("0"))];
    let t = irc_types::TwitchTags::from_irc_tags(&late);
    assert_eq!(t.tmi_sent_ts, None);
    assert_eq!(t.moderator, Some(false));
    let last = vec![irc_tag("tmi-sent-ts", Some("8210266876799999"))];
    let t = irc_types::TwitchTags::from_irc_tags(&last);
    assert_eq!(t.tmi_sent_ts.map(|t| t.millis()), Some(8210266876799999));
    let year_10000 = vec![irc_tag("tmi-sent-ts", Some("253402300800000"))];
    let t = irc_types::TwitchTags::from_irc_tags(&year_10000);
    assert_eq!(t.tmi_sent_ts.map(|t| t.millis()), Some(253402300800000));
}

#[test]
fn numbers_that_do_not_read_are_zero() {
    assert_eq!(irc_types::map_to_int("42"), 42);
    assert_eq!(irc_types::map_to_int("18446744073709551615"), u64::MAX);
    assert_eq!(irc_types::map_to_int("18446744073709551616"), 0);
    assert_eq!(irc_types::map_to_int(""), 0);
    assert_eq!(irc_types::map_to_int("-1"), 0);
    assert_eq!(irc_types::map_to_int("4 2"), 0);
}

#[test]
fn a_line_without_tags_is_refused() {
    let r = irc_types::TwitchMessage::from_irc_message(None, "raw", "#chan", "hi");
    assert_eq!(r.err(), Some("no tags present in message"));
    let tags = vec![irc_tag("display-name", Some("someone"))];
    let m = irc_types::TwitchMessage::from_irc_message(Some(&tags), "raw", "#chan", "hi").unwrap();
    assert_eq!(m.tags.display_name, Some("someone".to_string()));
    assert_eq!(m.channel, "#chan");
    assert_eq!(m.message, "hi");
    assert_eq!(m.raw, "raw");
}

#[test]
fn numbers_are_read_as_written() {
    assert_eq!(parse_u64("0"), Some(0));
    assert_eq!(parse_u64("+17"), Some(17));
    assert_eq!(parse_u64("007"), Some(7));
    assert_eq!(parse_u64("18446744073709551615"), Some(u64::MAX));
    assert_eq!(parse_u64("18446744073709551616"), None);
    assert_eq!(parse_u64("99999999999999999999999"), None);
    assert_eq!(parse_u64(""), None);
    assert_eq!(parse_u64("+"), None);
    assert_eq!(parse_u64("-0"), None);
    assert_eq!(parse_u64("1 "), None);
    assert_eq!(parse_u64("1_000"), None);
    assert_eq!(parse_u64("١٢"), None);
    assert_eq!(parse_i32("2147483647"), Some(i32::MAX));
    assert_eq!(parse_i32("2147483648"), None);
    assert_eq!(parse_i32("-2147483648"), Some(i32::MIN));
    assert_eq!(parse_i32("-2147483649"), None);
    assert_eq!(parse_i32("-0"), Some(0));
    assert_eq!(parse_i32("+5"), Some(5));
    assert_eq!(parse_i32("-"), None);
    assert_eq!(parse_i32("+-5"), None);
    assert_eq!(parse_i32(""), None);
    assert_eq!(parse_bool("true"), Some(true));
    assert_eq!(parse_bool("false"), Some(false));
    assert_eq!(parse_bool("True"), None);
    assert_eq!(parse_bool("1"), None);
    assert_eq!(parse_bool(""), None);
}

#[test]
fn numbers_read_as_the_standard_library_reads_them() {
    let samples = [
        "", "0", "1", "+1", "-1", "+", "-", "++1", "00", "4294967296", "2147483647",
        "2147483648", "-2147483648", "-2147483649", "18446744073709551615",
        "18446744073709551616", " 1", "1 ", "1e3", "0x10", "true", "false", "é1", "1é",
    ];
    for s in samples {
        assert_eq!(parse_u64(s), s.parse::<u64>().ok());
        assert_eq!(parse_i32(s), s.parse::<i32>().ok());
        assert_eq!(parse_bool(s), s.parse::<bool>().ok());
    }
}

#[test]
fn texts_are_cut_as_the_standard_library_cuts_them() {
    for s in ["", ",", "a", "a,b", ",a", "a,", "a,,b", ",,", "é,ü,", "a/b,c"] {
        let expected: Vec<String> = s.split(',').map(String::from).collect();
        assert_eq!(split(s, ','), expected);
    }
    assert_eq!(split("a/b,c", '/'), vec!["a".to_string(), "b,c".to_string()]);
}

#[test]
fn white_space_is_trimmed_as_the_standard_library_trims_it() {
    let samples = [
        "", " ", "a", " a", "a ", "  a b  ", "\r\n", "\tline\r\n", "\u{a0}x\u{3000}",
        "\u{2003}\u{2028}word\u{85}", "x\u{200b}", "\u{1680}\u{205f}", "é ", " \u{202f}é",
    ];
    for s in samples {
        assert_eq!(twitch_chat_logger::text::trim(s), s.trim());
    }
    for n in 0..0x3100u32 {
        if let Some(c) = char::from_u32(n) {
            assert_eq!(twitch_chat_logger::text::space(c), c.is_whitespace());
        }
    }
}

#[test]
fn numbers_are_written_in_decimal() {
    for n in [0u64, 1, 9, 10, 11, 99, 100, 101, 1024, 4294967295, 4294967296, u64::MAX] {
        assert_eq!(show_u64(n), n.to_string());
        assert_eq!(parse_u64(&show_u64(n)), Some(n));
    }
}

#[test]
fn the_bound_on_times_is_the_last_instant_of_the_date_library() {
    let last = chrono::DateTime::<chrono::Utc>::MAX_UTC;
    assert_eq!(last.timestamp_millis() as u64, MAX_TIMESTAMP_MILLIS);
    let max = MAX_TIMESTAMP_MILLIS as i64;
    assert!(chrono::DateTime::<chrono::Utc>::from_timestamp_millis(max).is_some());
    assert!(chrono::DateTime::<chrono::Utc>::from_timestamp_millis(max + 1).is_none());
}

#[test]
fn a_late_time_of_sending_is_decoded() {
    let tags = with(full_tags(), "tmi-sent-ts", "253402300800000");
    let t = TwitchTags::try_from(&tags).unwrap();
    assert_eq!(t.tmi_sent_ts.millis(), 253402300800000);
    let row = Message::from(TwitchMessage::try_from(&tags, "c", "m", "r").unwrap());
    assert_eq!(row.tmi_sent_ts, "+10000-01-01T00:00:00+00:00");
    let last = with(full_tags(), "tmi-sent-ts", "8210266876799999");
    assert_eq!(TwitchTags::try_from(&last).unwrap().tmi_sent_ts.millis(), 8210266876799999);
}

#[test]
fn a_missing_user_is_named_whatever_the_time_of_sending() {
    let tags = without(with(full_tags(), "tmi-sent-ts", "253402300800000"), "user-id");
    assert_eq!(parse_error(TwitchTags::try_from(&tags)), "User id not present");
}

#[test]
fn decoded_tags_compare_and_empty_ones_are_the_default() {
    let a = TwitchTags::try_from(&full_tags()).unwrap();
    let b = TwitchTags::try_from(&full_tags()).unwrap();
    assert_eq!(a, b);
    let c = TwitchTags::try_from(&with(full_tags(), "color", "red")).unwrap();
    assert_ne!(a, c);
    let m = TwitchMessage::try_from(&full_tags(), "c", "m", "r").unwrap();
    assert_eq!(m, TwitchMessage::try_from(&full_tags(), "c", "m", "r").unwrap());
    assert_ne!(m, TwitchMessage::try_from(&full_tags(), "c", "other", "r").unwrap());
    let none = irc_types::TwitchTags::default();
    assert_eq!(none.display_name, None);
    assert_eq!(none.tmi_sent_ts, None);
    assert_eq!(none.badges, None);
    let empty = irc_types::TwitchMessage::default();
    assert_eq!(empty.channel, "");
    assert_eq!(empty.message, "");
    assert_eq!(empty.raw, "");
    assert_eq!(empty.tags.id, None);
}
