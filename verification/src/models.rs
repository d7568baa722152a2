//! The record that is stored for a chat message.

use crate::text::{texts, trim, trimmed_text};
use crate::types::{opt_text, rfc3339_text, uuid_text, TwitchMessage, TwitchMessageView};
use vstd::prelude::*;

verus! {

/// The text that `serde_json::to_string` gives for a list of strings: a
/// JSON array of JSON strings.
pub uninterp spec fn json_array_text(items: Seq<Seq<char>>) -> Seq<char>;

/// Writes a list of strings as a JSON array with
/// `serde_json::to_string`. Writing strings to a string does not fail;
/// were it to, the text would be empty.
#[verifier::external_body]
fn vec_to_json(v: &Vec<String>) -> (r: String)
    ensures
        r@ == json_array_text(texts(v@)),
{
    serde_json::to_string(v).unwrap_or_default()
}

/// One stored row: a chat message with its lists written as JSON and
/// its time of sending as text.
#[derive(Debug)]
pub struct Message {
    pub id: String,
    pub badge_info: Option<String>,
    pub badges: Option<String>,
    pub bits: Option<i32>,
    pub color: Option<String>,
    pub display_name: String,
    pub emotes: Option<String>,
    pub mod_: Option<bool>,
    pub room_id: i32,
    pub tmi_sent_ts: String,
    pub user_id: String,
    pub channel: String,
    pub message: String,
    pub raw_message: String,
}

/// A stored row as plain values.
pub struct MessageView {
    pub id: Seq<char>,
    pub badge_info: Option<Seq<char>>,
    pub badges: Option<Seq<char>>,
    pub bits: Option<i32>,
    pub color: Option<Seq<char>>,
    pub display_name: Seq<char>,
    pub emotes: Option<Seq<char>>,
    pub mod_: Option<bool>,
    pub room_id: i32,
    pub tmi_sent_ts: Seq<char>,
    pub user_id: Seq<char>,
    pub channel: Seq<char>,
    pub message: Seq<char>,
    pub raw_message: Seq<char>,
}

impl View for Message {
    type V = MessageView;

    open spec fn view(&self) -> MessageView {
        MessageView {
            id: self.id@,
            badge_info: opt_text(self.badge_info),
            badges: opt_text(self.badges),
            bits: self.bits,
            color: opt_text(self.color),
            display_name: self.display_name@,
            emotes: opt_text(self.emotes),
            mod_: self.mod_,
            room_id: self.room_id,
            tmi_sent_ts: self.tmi_sent_ts@,
            user_id: self.user_id@,
            channel: self.channel@,
            message: self.message@,
            raw_message: self.raw_message@,
        }
    }
}

/// The JSON text of a list that may be absent.
pub open spec fn opt_json(o: Option<Seq<Seq<char>>>) -> Option<Seq<char>> {
    match o {
        Some(items) => Some(json_array_text(items)),
        None => None,
    }
}

/// The row that is stored for the message `m`.
pub open spec fn row_of(m: TwitchMessageView) -> MessageView {
    MessageView {
        id: uuid_text(m.tags.id),
        badge_info: m.tags.badge_info,
        badges: opt_json(m.tags.badges),
        bits: m.tags.bits,
        color: m.tags.color,
        display_name: m.tags.display_name,
        emotes: opt_json(m.tags.emotes),
        mod_: m.tags.moderator,
        room_id: m.tags.room_id,
        tmi_sent_ts: rfc3339_text(m.tags.tmi_sent_ts),
        user_id: m.tags.user_id,
        channel: m.channel,
        message: m.message,
        raw_message: trimmed_text(m.raw),
    }
}

impl Message {
    /// The row for a chat message: the identifier and the time of
    /// sending as text, the badges and the emotes as JSON arrays, the
    /// line as it arrived without the white space around it, and
    /// everything else as it is.
    pub fn from(message: TwitchMessage) -> (r: Message)
        ensures
            r@ == row_of(message@),
    {
        let badges = match &message.tags.badges {
            Some(v) => Some(vec_to_json(v)),
            None => None,
        };
        let emotes = match &message.tags.emotes {
            Some(v) => Some(vec_to_json(v)),
            None => None,
        };
        Message {
            id: message.tags.id.text(),
            badge_info: message.tags.badge_info,
            badges,
            bits: message.tags.bits,
            color: message.tags.color,
            display_name: message.tags.display_name,
            emotes,
            mod_: message.tags.moderator,
            room_id: message.tags.room_id,
            tmi_sent_ts: message.tags.tmi_sent_ts.to_rfc3339(),
            user_id: message.tags.user_id,
            channel: message.channel,
            message: message.message,
            raw_message: trim(message.raw.as_str()),
        }
    }
}

} // verus!
