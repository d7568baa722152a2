//! One chat session: how it introduces itself, and what it does with a
//! line that arrives.

use crate::error::MyError;
use crate::irc_types::tag_texts;
use crate::text::{decimal_text, show_u64};
use crate::types::{
    opt_text, pairs, tags_decoded, tags_fault, TwitchMessage, TwitchMessageView,
};
use vstd::prelude::*;
use vstd::string::StringExecFns;

verus! {

/// A number drawn by `rand::random::<u32>`, from the generator of the
/// current thread. Nothing is claimed of the number.
#[verifier::external_body]
fn random_u32() -> u32 {
    rand::random::<u32>()
}

/// What a session needs to connect as an anonymous observer.
pub struct SessionSetup {
    pub nickname: String,
    pub server: String,
    pub channels: Vec<String>,
    pub capability: &'static str,
}

/// The guest name with the number `n`: `justinfan` followed by the
/// number in decimal.
pub open spec fn guest_nick_text(n: u32) -> Seq<char> {
    "justinfan"@ + decimal_text(n as nat)
}

/// The guest name with the number `n`.
pub fn guest_nick(n: u32) -> (nick: String)
    ensures
        nick@ == guest_nick_text(n),
{
    let digits = show_u64(n as u64);
    let mut nick = "justinfan".to_owned();
    nick.append(digits.as_str());
    nick
}

/// The setup of a session that joins `chans` at the start: a guest name
/// with a number drawn at random, the chat server, and the capability
/// that makes messages carry their tags.
pub fn setup_client(chans: Vec<String>) -> (setup: SessionSetup)
    ensures
        exists|n: u32| setup.nickname@ == #[trigger] guest_nick_text(n),
        setup.server@ == "irc.chat.twitch.tv"@,
        setup.channels == chans,
        setup.capability@ == "twitch.tv/tags"@,
{
    let n = random_u32();
    let setup = SessionSetup {
        nickname: guest_nick(n),
        server: "irc.chat.twitch.tv".to_owned(),
        channels: chans,
        capability: "twitch.tv/tags",
    };
    assert(setup.nickname@ == guest_nick_text(n));
    setup
}

/// What a line asks or tells, as far as a session cares.
pub enum Command {
    /// Something was said in a channel.
    Privmsg { target: String, text: String },
    /// The server wants an answer; it may name what to answer with.
    Ping { reply: Option<String> },
    /// A join was acknowledged.
    Join { channel: String },
    /// A part was acknowledged.
    Part { channel: String },
    /// Anything else.
    Other,
}

/// A line that arrived: its tags, what it asks or tells, and the line
/// itself.
pub struct IrcMessage {
    pub tags: Vec<(String, Option<String>)>,
    pub command: Command,
    pub raw: String,
}

/// The tags that have a value, each with its value, in their order. A
/// tag without a value counts as absent.
pub open spec fn valued(tags: Seq<(Seq<char>, Option<Seq<char>>)>) -> Seq<(Seq<char>, Seq<char>)>
    decreases tags.len(),
{
    if tags.len() == 0 {
        Seq::empty()
    } else {
        let front = valued(tags.drop_last());
        match tags.last().1 {
            Some(v) => front.push((tags.last().0, v)),
            None => front,
        }
    }
}

/// The tags of `tags` that have a value, each with its value.
pub fn tags_with_values(tags: &Vec<(String, Option<String>)>) -> (r: Vec<(String, String)>)
    ensures
        pairs(r@) == valued(tag_texts(tags@)),
{
    let ghost all = tag_texts(tags@);
    let mut out: Vec<(String, String)> = Vec::new();
    let mut i: usize = 0;
    proof {
        assert(all.take(0) =~= Seq::<(Seq<char>, Option<Seq<char>>)>::empty());
        assert(pairs(out@) =~= Seq::<(Seq<char>, Seq<char>)>::empty());
    }
    while i < tags.len()
        invariant
            i <= tags.len(),
            all == tag_texts(tags@),
            pairs(out@) == valued(all.take(i as int)),
        decreases tags.len() - i,
    {
        proof {
            assert(all.take(i + 1).drop_last() =~= all.take(i as int));
            assert(all.take(i + 1).last() == all[i as int]);
            assert(all[i as int] == (tags@[i as int].0@, opt_text(tags@[i as int].1)));
        }
        match &tags[i].1 {
            Some(v) => {
                let pair = (tags[i].0.clone(), v.clone());
                proof {
                    assert(pairs(out@.push(pair)) =~= pairs(out@).push((pair.0@, pair.1@)));
                }
                out.push(pair);
            },
            None => {},
        }
        i += 1;
    }
    proof {
        assert(all.take(tags@.len() as int) =~= all);
    }
    out
}

/// What a session does with a line.
pub enum Reaction {
    /// Hand the chat message on to be stored.
    Forward(TwitchMessage),
    /// Drop the line, which should have been a chat message, and note
    /// why.
    Drop(MyError),
    /// Answer a ping with this text.
    Pong(String),
    /// Note that the channel was joined.
    Joined(String),
    /// Note that the channel was left.
    Left(String),
    /// Nothing.
    Ignore,
}

/// What a session does with a line, as plain values.
pub enum ReactionView {
    Forward(TwitchMessageView),
    Drop(Seq<char>),
    Pong(Seq<char>),
    Joined(Seq<char>),
    Left(Seq<char>),
    Ignore,
}

impl View for Reaction {
    type V = ReactionView;

    open spec fn view(&self) -> ReactionView {
        match self {
            Reaction::Forward(m) => ReactionView::Forward(m@),
            Reaction::Drop(e) => ReactionView::Drop(
                match e {
                    MyError::Db(s) => s@,
                    MyError::Parse(s) => s@,
                    MyError::DotEnv(s) => s@,
                    MyError::Other(s) => s@,
                },
            ),
            Reaction::Pong(s) => ReactionView::Pong(s@),
            Reaction::Joined(s) => ReactionView::Joined(s@),
            Reaction::Left(s) => ReactionView::Left(s@),
            Reaction::Ignore => ReactionView::Ignore,
        }
    }
}

/// What a session does with `message`. A chat message is forwarded if
/// its tags decode and dropped with the reason if they do not. A ping
/// is answered with the text it names, or with nothing where it names
/// none. Acknowledged joins and parts are noted, anything else ignored.
pub open spec fn reaction_to(message: IrcMessage) -> ReactionView {
    match message.command {
        Command::Privmsg { target, text } => match tags_fault(valued(tag_texts(message.tags@))) {
            Some(why) => ReactionView::Drop(why),
            None => ReactionView::Forward(
                TwitchMessageView {
                    tags: tags_decoded(valued(tag_texts(message.tags@))),
                    channel: target@,
                    message: text@,
                    raw: message.raw@,
                },
            ),
        },
        Command::Ping { reply } => match reply {
            Some(text) => ReactionView::Pong(text@),
            None => ReactionView::Pong(Seq::empty()),
        },
        Command::Join { channel } => ReactionView::Joined(channel@),
        Command::Part { channel } => ReactionView::Left(channel@),
        Command::Other => ReactionView::Ignore,
    }
}

/// Decides what to do with a line that arrived. A reaction that drops
/// the line carries a decoding error.
pub fn react(message: IrcMessage) -> (r: Reaction)
    ensures
        r@ == reaction_to(message),
        r matches Reaction::Drop(e) ==> e is Parse,
{
    match message.command {
        Command::Privmsg { target, text } => {
            let tags = tags_with_values(&message.tags);
            match TwitchMessage::try_from(
                &tags,
                target.as_str(),
                text.as_str(),
                message.raw.as_str(),
            ) {
                Ok(m) => Reaction::Forward(m),
                Err(e) => Reaction::Drop(e),
            }
        },
        Command::Ping { reply } => match reply {
            Some(text) => Reaction::Pong(text),
            None => Reaction::Pong(String::new()),
        },
        Command::Join { channel } => Reaction::Joined(channel),
        Command::Part { channel } => Reaction::Left(channel),
        Command::Other => Reaction::Ignore,
    }
}

} // verus!
