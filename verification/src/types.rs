//! Chat messages: the tags a message carries and how they are decoded
//! from the key and value pairs of a protocol line.

use crate::error::MyError;
use crate::text::{
    bool_parsed, i32_parsed, parse_bool, parse_i32, parse_u64, split, split_text, texts,
    u64_parsed,
};
use vstd::prelude::*;

verus! {

/// The identifier that `uuid::Uuid::parse_str` reads from `text`, as a
/// 128-bit number, or `None` where it reads none.
pub uninterp spec fn uuid_parsed(text: Seq<char>) -> Option<u128>;

/// The text that `uuid::Uuid` displays for the identifier `id`.
pub uninterp spec fn uuid_text(id: u128) -> Seq<char>;

/// The text that `chrono` gives, in the format of RFC 3339, for the
/// instant `millis` milliseconds after the start of 1970 in UTC.
pub uninterp spec fn rfc3339_text(millis: u64) -> Seq<char>;

/// Reads an identifier with `uuid::Uuid::parse_str`, which takes the
/// simple, the hyphenated and the URN form, and gives it as the number
/// that `Uuid::as_u128` returns.
#[verifier::external_body]
fn parse_uuid(text: &str) -> (r: Option<u128>)
    ensures
        r == uuid_parsed(text@),
{
    match uuid::Uuid::parse_str(text) {
        Ok(id) => Some(id.as_u128()),
        Err(_) => None,
    }
}

/// Writes an identifier as `uuid::Uuid` displays it: `Uuid::from_u128`,
/// then `to_string`.
#[verifier::external_body]
fn show_uuid(id: u128) -> (r: String)
    ensures
        r@ == uuid_text(id),
{
    uuid::Uuid::from_u128(id).to_string()
}

/// Writes an instant with `chrono::DateTime::<Utc>::to_rfc3339`, after
/// making it with `chrono::DateTime::<Utc>::from_timestamp_millis`. That
/// function gives no instant beyond the last one that chrono can hold,
/// the end of the year 262142; up to there it gives one on every
/// machine, and `to_rfc3339` writes it.
#[verifier::external_body]
fn show_instant(millis: u64) -> (r: String)
    requires
        millis <= MAX_TIMESTAMP_MILLIS,
    ensures
        r@ == rfc3339_text(millis),
{
    match chrono::DateTime::<chrono::Utc>::from_timestamp_millis(millis as i64) {
        Some(at) => at.to_rfc3339(),
        None => String::new(),
    }
}

/// The last millisecond that `chrono::DateTime::<Utc>` can hold, counted
/// from the start of 1970: the end of the year 262142 in UTC. A later
/// time of sending cannot be told as a date, and is no time of sending.
pub const MAX_TIMESTAMP_MILLIS: u64 = 8_210_266_876_799_999;

/// The identifier of a message: what keeps a message from being stored
/// twice.
#[derive(Debug, Clone, Copy, PartialEq, Eq)]
pub struct MessageId {
    pub value: u128,
}

impl MessageId {
    /// Reads an identifier from its text.
    pub fn parse(text: &str) -> (r: Option<MessageId>)
        ensures
            match uuid_parsed(text@) {
                Some(v) => r == Some(MessageId { value: v }),
                None => r.is_none(),
            },
    {
        match parse_uuid(text) {
            Some(value) => Some(MessageId { value }),
            None => None,
        }
    }

    /// The identifier as text.
    pub fn text(&self) -> (r: String)
        ensures
            r@ == uuid_text(self.value),
    {
        show_uuid(self.value)
    }
}

/// A time of sending: milliseconds since the start of 1970 in UTC, no
/// later than the last instant that can be told as a date.
#[derive(Debug, Clone, Copy, PartialEq, Eq)]
pub struct Timestamp {
    millis: u64,
}

impl Timestamp {
    #[verifier::type_invariant]
    closed spec fn in_range(&self) -> bool {
        self.millis <= MAX_TIMESTAMP_MILLIS
    }

    /// The milliseconds since the start of 1970.
    pub closed spec fn value(&self) -> u64 {
        self.millis
    }

    /// The time `millis` milliseconds after the start of 1970, unless
    /// that is later than `MAX_TIMESTAMP_MILLIS`.
    pub fn from_millis(millis: u64) -> (r: Option<Timestamp>)
        ensures
            millis <= MAX_TIMESTAMP_MILLIS ==> r.is_some() && r.unwrap().value() == millis,
            millis > MAX_TIMESTAMP_MILLIS ==> r.is_none(),
    {
        if millis <= MAX_TIMESTAMP_MILLIS {
            Some(Timestamp { millis })
        } else {
            None
        }
    }

    /// The milliseconds since the start of 1970.
    pub fn millis(&self) -> (r: u64)
        ensures
            r == self.value(),
            r <= MAX_TIMESTAMP_MILLIS,
    {
        proof {
            use_type_invariant(self);
        }
        self.millis
    }

    /// The time as text, in the format of RFC 3339.
    pub fn to_rfc3339(&self) -> (r: String)
        ensures
            r@ == rfc3339_text(self.value()),
    {
        proof {
            use_type_invariant(self);
        }
        show_instant(self.millis)
    }
}

/// The tags of a chat message.
#[derive(Debug, PartialEq, Eq)]
pub struct TwitchTags {
    pub badge_info: Option<String>,
    pub badges: Option<Vec<String>>,
    pub bits: Option<i32>,
    pub color: Option<String>,
    pub display_name: String,
    pub emotes: Option<Vec<String>>,
    pub id: MessageId,
    pub moderator: Option<bool>,
    pub room_id: i32,
    pub tmi_sent_ts: Timestamp,
    pub user_id: String,
}

/// The tags of a chat message as plain values.
pub struct TwitchTagsView {
    pub badge_info: Option<Seq<char>>,
    pub badges: Option<Seq<Seq<char>>>,
    pub bits: Option<i32>,
    pub color: Option<Seq<char>>,
    pub display_name: Seq<char>,
    pub emotes: Option<Seq<Seq<char>>>,
    pub id: u128,
    pub moderator: Option<bool>,
    pub room_id: i32,
    pub tmi_sent_ts: u64,
    pub user_id: Seq<char>,
}

/// The text of a string that may be absent.
pub open spec fn opt_text(o: Option<String>) -> Option<Seq<char>> {
    match o {
        Some(s) => Some(s@),
        None => None,
    }
}

/// The texts of a list that may be absent.
pub open spec fn opt_texts(o: Option<Vec<String>>) -> Option<Seq<Seq<char>>> {
    match o {
        Some(v) => Some(texts(v@)),
        None => None,
    }
}

impl View for TwitchTags {
    type V = TwitchTagsView;

    open spec fn view(&self) -> TwitchTagsView {
        TwitchTagsView {
            badge_info: opt_text(self.badge_info),
            badges: opt_texts(self.badges),
            bits: self.bits,
            color: opt_text(self.color),
            display_name: self.display_name@,
            emotes: opt_texts(self.emotes),
            id: self.id.value,
            moderator: self.moderator,
            room_id: self.room_id,
            tmi_sent_ts: self.tmi_sent_ts.value(),
            user_id: self.user_id@,
        }
    }
}

/// The keys and values of a list of tags as texts.
pub open spec fn pairs(v: Seq<(String, String)>) -> Seq<(Seq<char>, Seq<char>)> {
    v.map_values(|p: (String, String)| (p.0@, p.1@))
}

/// The value of the first tag with the key `key`.
pub open spec fn tag_value(tags: Seq<(Seq<char>, Seq<char>)>, key: Seq<char>) -> Option<
    Seq<char>,
>
    decreases tags.len(),
{
    if tags.len() == 0 {
        None
    } else if tags[0].0 == key {
        Some(tags[0].1)
    } else {
        tag_value(tags.drop_first(), key)
    }
}

/// The pieces of the value of `key`, cut at `sep`.
pub open spec fn tag_pieces(tags: Seq<(Seq<char>, Seq<char>)>, key: Seq<char>, sep: char)
    -> Option<Seq<Seq<char>>> {
    match tag_value(tags, key) {
        Some(v) => Some(split_text(v, sep)),
        None => None,
    }
}

/// The number that the value of `key` reads as.
pub open spec fn tag_i32(tags: Seq<(Seq<char>, Seq<char>)>, key: Seq<char>) -> Option<i32> {
    match tag_value(tags, key) {
        Some(v) => i32_parsed(v),
        None => None,
    }
}

/// The truth value that the value of `key` reads as.
pub open spec fn tag_bool(tags: Seq<(Seq<char>, Seq<char>)>, key: Seq<char>) -> Option<bool> {
    match tag_value(tags, key) {
        Some(v) => bool_parsed(v),
        None => None,
    }
}

/// The identifier that the value of the tag `id` reads as.
pub open spec fn tag_id(tags: Seq<(Seq<char>, Seq<char>)>) -> Option<u128> {
    match tag_value(tags, "id"@) {
        Some(v) => uuid_parsed(v),
        None => None,
    }
}

/// The time of sending that the value of the tag `tmi-sent-ts` reads as.
pub open spec fn tag_millis(tags: Seq<(Seq<char>, Seq<char>)>) -> Option<u64> {
    match tag_value(tags, "tmi-sent-ts"@) {
        Some(v) => u64_parsed(v),
        None => None,
    }
}

/// What keeps a list of tags from being decoded, in the words of the
/// error: the first of the required tags that is absent or unreadable,
/// in the order display name, identifier, room, time of sending, user.
pub open spec fn tags_fault(tags: Seq<(Seq<char>, Seq<char>)>) -> Option<Seq<char>> {
    if tag_value(tags, "display-name"@) is None {
        Some("Display name not present"@)
    } else if tag_id(tags) is None {
        Some("Message id not present"@)
    } else if tag_i32(tags, "room-id"@) is None {
        Some("room id not present"@)
    } else if tag_value(tags, "tmi-sent-ts"@) is None {
        Some("Timestamp not present"@)
    } else if tag_millis(tags) is None {
        Some("timestamp wasn't a u64"@)
    } else if tag_millis(tags).unwrap() > MAX_TIMESTAMP_MILLIS {
        Some("timestamp is out of range"@)
    } else if tag_value(tags, "user-id"@) is None {
        Some("User id not present"@)
    } else {
        None
    }
}

/// What a list of tags without a fault decodes to.
pub open spec fn tags_decoded(tags: Seq<(Seq<char>, Seq<char>)>) -> TwitchTagsView {
    TwitchTagsView {
        badge_info: tag_value(tags, "badge-info"@),
        badges: tag_pieces(tags, "badges"@, ','),
        bits: tag_i32(tags, "bits"@),
        color: tag_value(tags, "color"@),
        display_name: tag_value(tags, "display-name"@).unwrap(),
        emotes: tag_pieces(tags, "emotes"@, '/'),
        id: tag_id(tags).unwrap(),
        moderator: tag_bool(tags, "mod"@),
        room_id: tag_i32(tags, "room-id"@).unwrap(),
        tmi_sent_ts: tag_millis(tags).unwrap(),
        user_id: tag_value(tags, "user-id"@).unwrap(),
    }
}

/// The value of the first tag with the key `key`.
pub fn get_tag(tags: &Vec<(String, String)>, key: &str) -> (r: Option<String>)
    ensures
        opt_text(r) == tag_value(pairs(tags@), key@),
{
    let wanted = key.to_owned();
    let ghost all = pairs(tags@);
    let mut i: usize = 0;
    assert(all.skip(0) =~= all);
    while i < tags.len()
        invariant
            i <= tags.len(),
            all == pairs(tags@),
            wanted@ == key@,
            tag_value(all, key@) == tag_value(all.skip(i as int), key@),
        decreases tags.len() - i,
    {
        proof {
            assert(all.skip(i as int).drop_first() =~= all.skip(i + 1));
            assert(all.skip(i as int)[0] == all[i as int]);
            assert(all[i as int] == (tags@[i as int].0@, tags@[i as int].1@));
        }
        if tags[i].0 == wanted {
            return Some(tags[i].1.clone());
        }
        i += 1;
    }
    None
}

/// The pieces of the value of `key`, cut at `sep`.
fn get_pieces(tags: &Vec<(String, String)>, key: &str, sep: char) -> (r: Option<Vec<String>>)
    ensures
        opt_texts(r) == tag_pieces(pairs(tags@), key@, sep),
{
    match get_tag(tags, key) {
        Some(v) => Some(split(v.as_str(), sep)),
        None => None,
    }
}

/// The number that the value of `key` reads as.
fn get_i32(tags: &Vec<(String, String)>, key: &str) -> (r: Option<i32>)
    ensures
        r == tag_i32(pairs(tags@), key@),
{
    match get_tag(tags, key) {
        Some(v) => parse_i32(v.as_str()),
        None => None,
    }
}

impl TwitchTags {
    /// Decodes the tags of a chat message.
    ///
    /// The display name, the identifier, the room, the time of sending
    /// and the user are required; the first of them that is absent or
    /// unreadable is named in the error. Every other tag is optional, and
    /// an optional number or truth value that is unreadable counts as
    /// absent.
    pub fn try_from(tags: &Vec<(String, String)>) -> (r: Result<TwitchTags, MyError>)
        ensures
            match tags_fault(pairs(tags@)) {
                Some(text) => r matches Err(MyError::Parse(t)) && t@ == text,
                None => r matches Ok(t) && t@ == tags_decoded(pairs(tags@)),
            },
    {
        let badge_info = get_tag(tags, "badge-info");
        let badges = get_pieces(tags, "badges", ',');
        let bits = get_i32(tags, "bits");
        let color = get_tag(tags, "color");
        let display_name = match get_tag(tags, "display-name") {
            Some(v) => v,
            None => { return Err(MyError::Parse("Display name not present")); },
        };
        let emotes = get_pieces(tags, "emotes", '/');
        let id = match get_tag(tags, "id") {
            Some(v) => match MessageId::parse(v.as_str()) {
                Some(id) => id,
                None => { return Err(MyError::Parse("Message id not present")); },
            },
            None => { return Err(MyError::Parse("Message id not present")); },
        };
        let moderator = match get_tag(tags, "mod") {
            Some(v) => parse_bool(v.as_str()),
            None => None,
        };
        let room_id = match get_i32(tags, "room-id") {
            Some(v) => v,
            None => { return Err(MyError::Parse("room id not present")); },
        };
        let tmi_sent_ts = match get_tag(tags, "tmi-sent-ts") {
            Some(v) => match parse_u64(v.as_str()) {
                Some(millis) => match Timestamp::from_millis(millis) {
                    Some(at) => at,
                    None => { return Err(MyError::Parse("timestamp is out of range")); },
                },
                None => { return Err(MyError::Parse("timestamp wasn't a u64")); },
            },
            None => { return Err(MyError::Parse("Timestamp not present")); },
        };
        let user_id = match get_tag(tags, "user-id") {
            Some(v) => v,
            None => { return Err(MyError::Parse("User id not present")); },
        };
        Ok(
            TwitchTags {
                badge_info,
                badges,
                bits,
                color,
                display_name,
                emotes,
                id,
                moderator,
                room_id,
                tmi_sent_ts,
                user_id,
            },
        )
    }
}

/// A chat message: where it was said, what was said, its tags, and the
/// line it arrived as.
#[derive(Debug, PartialEq, Eq)]
pub struct TwitchMessage {
    pub tags: TwitchTags,
    pub channel: String,
    pub message: String,
    pub raw: String,
}

/// A chat message as plain values.
pub struct TwitchMessageView {
    pub tags: TwitchTagsView,
    pub channel: Seq<char>,
    pub message: Seq<char>,
    pub raw: Seq<char>,
}

impl View for TwitchMessage {
    type V = TwitchMessageView;

    open spec fn view(&self) -> TwitchMessageView {
        TwitchMessageView {
            tags: self.tags@,
            channel: self.channel@,
            message: self.message@,
            raw: self.raw@,
        }
    }
}

impl TwitchMessage {
    /// Decodes a chat message from its parts: the tags, the channel it
    /// was said in, what was said, and the line as it arrived. It fails
    /// exactly where the tags cannot be decoded.
    pub fn try_from(tags: &Vec<(String, String)>, channel: &str, data: &str, raw: &str) -> (r:
        Result<TwitchMessage, MyError>)
        ensures
            match tags_fault(pairs(tags@)) {
                Some(text) => r matches Err(MyError::Parse(t)) && t@ == text,
                None => r matches Ok(m) && m@ == (TwitchMessageView {
                    tags: tags_decoded(pairs(tags@)),
                    channel: channel@,
                    message: data@,
                    raw: raw@,
                }),
            },
    {
        match TwitchTags::try_from(tags) {
            Ok(tags) => Ok(
                TwitchMessage {
                    tags,
                    channel: channel.to_owned(),
                    message: data.to_owned(),
                    raw: raw.to_owned(),
                },
            ),
            Err(e) => Err(e),
        }
    }
}

} // verus!
