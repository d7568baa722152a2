//! Chat messages as a line-oriented client hands them over: every tag
//! is optional, and a tag may come without a value.

use crate::text::{parse_u64, split, split_text, u64_parsed};
use crate::types::{opt_text, opt_texts, Timestamp, MAX_TIMESTAMP_MILLIS};
use vstd::prelude::*;

verus! {

/// The keys and values of a list of tags as texts.
pub open spec fn tag_texts(v: Seq<(String, Option<String>)>) -> Seq<(Seq<char>, Option<Seq<char>>)> {
    v.map_values(|t: (String, Option<String>)| (t.0@, opt_text(t.1)))
}

/// The value of a tag, where it has one that is not empty.
pub open spec fn filled(value: Option<Seq<char>>) -> Option<Seq<char>> {
    match value {
        Some(v) => if v.len() > 0 {
            Some(v)
        } else {
            None
        },
        None => None,
    }
}

/// What the last tag with the key `key` holds: its value, or nothing
/// where it has none or an empty one. Nothing, too, where no tag has
/// the key.
pub open spec fn last_value(tags: Seq<(Seq<char>, Option<Seq<char>>)>, key: Seq<char>) -> Option<
    Seq<char>,
>
    decreases tags.len(),
{
    if tags.len() == 0 {
        None
    } else if tags.last().0 == key {
        filled(tags.last().1)
    } else {
        last_value(tags.drop_last(), key)
    }
}

/// The number that `text` reads as, or 0 where it reads as none.
pub open spec fn int_of(text: Seq<char>) -> u64 {
    match u64_parsed(text) {
        Some(v) => v,
        None => 0,
    }
}

/// The number that the last tag with the key `key` holds.
pub open spec fn last_int(tags: Seq<(Seq<char>, Option<Seq<char>>)>, key: Seq<char>) -> Option<
    u64,
> {
    match last_value(tags, key) {
        Some(v) => Some(int_of(v)),
        None => None,
    }
}

/// The pieces of what the last tag with the key `key` holds.
pub open spec fn last_pieces(tags: Seq<(Seq<char>, Option<Seq<char>>)>, key: Seq<char>, sep: char)
    -> Option<Seq<Seq<char>>> {
    match last_value(tags, key) {
        Some(v) => Some(split_text(v, sep)),
        None => None,
    }
}

/// The tags of a chat message, each of them optional.
#[derive(Debug)]
pub struct TwitchTags {
    pub badge_info: Option<String>,
    pub badges: Option<Vec<String>>,
    pub bits: Option<u64>,
    pub colour: Option<String>,
    pub display_name: Option<String>,
    pub emotes: Option<Vec<String>>,
    pub id: Option<String>,
    pub moderator: Option<bool>,
    pub room_id: Option<u64>,
    pub tmi_sent_ts: Option<Timestamp>,
    pub user_id: Option<String>,
}

/// The tags of a chat message as plain values.
pub struct TwitchTagsView {
    pub badge_info: Option<Seq<char>>,
    pub badges: Option<Seq<Seq<char>>>,
    pub bits: Option<u64>,
    pub colour: Option<Seq<char>>,
    pub display_name: Option<Seq<char>>,
    pub emotes: Option<Seq<Seq<char>>>,
    pub id: Option<Seq<char>>,
    pub moderator: Option<bool>,
    pub room_id: Option<u64>,
    pub tmi_sent_ts: Option<u64>,
    pub user_id: Option<Seq<char>>,
}

/// The milliseconds of a time that may be absent.
pub open spec fn opt_millis(o: Option<Timestamp>) -> Option<u64> {
    match o {
        Some(t) => Some(t.value()),
        None => None,
    }
}

impl View for TwitchTags {
    type V = TwitchTagsView;

    open spec fn view(&self) -> TwitchTagsView {
        TwitchTagsView {
            badge_info: opt_text(self.badge_info),
            badges: opt_texts(self.badges),
            bits: self.bits,
            colour: opt_text(self.colour),
            display_name: opt_text(self.display_name),
            emotes: opt_texts(self.emotes),
            id: opt_text(self.id),
            moderator: self.moderator,
            room_id: self.room_id,
            tmi_sent_ts: opt_millis(self.tmi_sent_ts),
            user_id: opt_text(self.user_id),
        }
    }
}

/// What a list of tags decodes to. Of two tags with one key the later
/// counts. A number that cannot be read counts as 0, the moderator flag
/// is set by any number but 0, and a time of sending that is too late
/// to be told as a date counts as absent.
pub open spec fn irc_decoded(tags: Seq<(Seq<char>, Option<Seq<char>>)>) -> TwitchTagsView {
    TwitchTagsView {
        badge_info: last_value(tags, "badge-info"@),
        badges: last_pieces(tags, "badges"@, ','),
        bits: last_int(tags, "bits"@),
        colour: last_value(tags, "color"@),
        display_name: last_value(tags, "display-name"@),
        emotes: last_pieces(tags, "emotes"@, '/'),
        id: last_value(tags, "id"@),
        moderator: match last_int(tags, "mod"@) {
            Some(v) => Some(v != 0),
            None => None,
        },
        room_id: last_int(tags, "room-id"@),
        tmi_sent_ts: match last_int(tags, "tmi-sent-ts"@) {
            Some(v) => if v <= MAX_TIMESTAMP_MILLIS {
                Some(v)
            } else {
                None
            },
            None => None,
        },
        user_id: last_value(tags, "user-id"@),
    }
}

/// The number that `s` reads as, or 0 where it reads as none.
pub fn map_to_int(s: &str) -> (r: u64)
    ensures
        r == int_of(s@),
{
    match parse_u64(s) {
        Some(v) => v,
        None => 0,
    }
}

/// What the last tag with the key `key` holds.
pub fn get_last(tags: &Vec<(String, Option<String>)>, key: &str) -> (r: Option<String>)
    ensures
        opt_text(r) == last_value(tag_texts(tags@), key@),
{
    let wanted = key.to_owned();
    let ghost all = tag_texts(tags@);
    let mut i: usize = tags.len();
    assert(all.take(i as int) =~= all);
    while i > 0
        invariant
            i <= tags.len(),
            all == tag_texts(tags@),
            wanted@ == key@,
            last_value(all, key@) == last_value(all.take(i as int), key@),
        decreases i,
    {
        i -= 1;
        proof {
            assert(all.take(i + 1).drop_last() =~= all.take(i as int));
            assert(all.take(i + 1).last() == all[i as int]);
            assert(all[i as int] == (tags@[i as int].0@, opt_text(tags@[i as int].1)));
        }
        if tags[i].0 == wanted {
            return match &tags[i].1 {
                Some(v) => if v.as_str().unicode_len() > 0 {
                    Some(v.clone())
                } else {
                    None
                },
                None => None,
            };
        }
    }
    None
}

/// The number that the last tag with the key `key` holds.
fn get_last_int(tags: &Vec<(String, Option<String>)>, key: &str) -> (r: Option<u64>)
    ensures
        r == last_int(tag_texts(tags@), key@),
{
    match get_last(tags, key) {
        Some(v) => Some(map_to_int(v.as_str())),
        None => None,
    }
}

/// The pieces of what the last tag with the key `key` holds.
fn get_last_pieces(tags: &Vec<(String, Option<String>)>, key: &str, sep: char) -> (r: Option<
    Vec<String>,
>)
    ensures
        opt_texts(r) == last_pieces(tag_texts(tags@), key@, sep),
{
    match get_last(tags, key) {
        Some(v) => Some(split(v.as_str(), sep)),
        None => None,
    }
}

/// The tags of a message that has none.
pub open spec fn no_tags() -> TwitchTagsView {
    TwitchTagsView {
        badge_info: None,
        badges: None,
        bits: None,
        colour: None,
        display_name: None,
        emotes: None,
        id: None,
        moderator: None,
        room_id: None,
        tmi_sent_ts: None,
        user_id: None,
    }
}

impl Default for TwitchTags {
    /// The tags of a message that has none: every tag is absent.
    fn default() -> (r: TwitchTags)
        ensures
            r@ == no_tags(),
    {
        TwitchTags {
            badge_info: None,
            badges: None,
            bits: None,
            colour: None,
            display_name: None,
            emotes: None,
            id: None,
            moderator: None,
            room_id: None,
            tmi_sent_ts: None,
            user_id: None,
        }
    }
}

impl TwitchTags {
    /// Decodes a list of tags; no tag is required.
    pub fn from_irc_tags(tags: &Vec<(String, Option<String>)>) -> (r: TwitchTags)
        ensures
            r@ == irc_decoded(tag_texts(tags@)),
    {
        let moderator = match get_last_int(tags, "mod") {
            Some(v) => Some(v != 0),
            None => None,
        };
        let tmi_sent_ts = match get_last_int(tags, "tmi-sent-ts") {
            Some(v) => Timestamp::from_millis(v),
            None => None,
        };
        TwitchTags {
            badge_info: get_last(tags, "badge-info"),
            badges: get_last_pieces(tags, "badges", ','),
            bits: get_last_int(tags, "bits"),
            colour: get_last(tags, "color"),
            display_name: get_last(tags, "display-name"),
            emotes: get_last_pieces(tags, "emotes", '/'),
            id: get_last(tags, "id"),
            moderator,
            room_id: get_last_int(tags, "room-id"),
            tmi_sent_ts,
            user_id: get_last(tags, "user-id"),
        }
    }
}

/// A chat message with optional tags.
#[derive(Debug)]
pub struct TwitchMessage {
    pub tags: TwitchTags,
    pub channel: String,
    pub message: String,
    pub raw: String,
}

/// A chat message with optional tags, as plain values.
pub struct TwitchMessageView {
    pub tags: TwitchTagsView,
    pub channel: Seq<char>,
    pub message: Seq<char>,
    pub raw: Seq<char>,
}

impl View for TwitchMessage {
    type V = TwitchMessageView;

    open spec fn view(&self) -> TwitchMessageView {
        TwitchMessageView {
            tags: self.tags@,
            channel: self.channel@,
            message: self.message@,
            raw: self.raw@,
        }
    }
}

impl Default for TwitchMessage {
    /// The empty message: no tags, and nothing said anywhere.
    fn default() -> (r: TwitchMessage)
        ensures
            r@ == (TwitchMessageView {
                tags: no_tags(),
                channel: Seq::empty(),
                message: Seq::empty(),
                raw: Seq::empty(),
            }),
    {
        TwitchMessage {
            tags: TwitchTags::default(),
            channel: String::new(),
            message: String::new(),
            raw: String::new(),
        }
    }
}

impl TwitchMessage {
    /// The chat message that the line `raw` carries: said in `target`,
    /// with the words `text`. A line without a list of tags is refused.
    pub fn from_irc_message(
        tags: Option<&Vec<(String, Option<String>)>>,
        raw: &str,
        target: &str,
        text: &str,
    ) -> (r: Result<TwitchMessage, &'static str>)
        ensures
            match tags {
                Some(t) => r matches Ok(m) && m@ == (TwitchMessageView {
                    tags: irc_decoded(tag_texts(t@)),
                    channel: target@,
                    message: text@,
                    raw: raw@,
                }),
                None => r matches Err(why) && why@ == "no tags present in message"@,
            },
    {
        match tags {
            Some(t) => Ok(
                TwitchMessage {
                    tags: TwitchTags::from_irc_tags(t),
                    channel: target.to_owned(),
                    message: text.to_owned(),
                    raw: raw.to_owned(),
                },
            ),
            None => Err("no tags present in message"),
        }
    }
}

} // verus!
