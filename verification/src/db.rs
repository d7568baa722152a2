//! Batching chat messages for storage.
//!
//! Messages are gathered until there are enough for one write. What is
//! gathered leaves as rows, all at once, and the writer that stores the
//! rows reports back how the write went.

use crate::error::MyError;
use crate::models::{row_of, Message, MessageView};
use crate::types::{TwitchMessage, TwitchMessageView};
use vstd::prelude::*;

verus! {

/// The number of messages that make a full batch unless told otherwise.
pub const BATCH_SIZE: usize = 1024;

/// The messages of a list, each by its view.
pub open spec fn messages(v: Seq<TwitchMessage>) -> Seq<TwitchMessageView> {
    v.map_values(|m: TwitchMessage| m@)
}

/// The rows of a list, each by its view.
pub open spec fn rows(v: Seq<Message>) -> Seq<MessageView> {
    v.map_values(|r: Message| r@)
}

/// The rows that are stored for the messages `s`, in their order.
pub open spec fn rows_of(s: Seq<TwitchMessageView>) -> Seq<MessageView> {
    s.map_values(|m: TwitchMessageView| row_of(m))
}

/// What submitting `msg` does to the pending messages `pending` of a
/// batch of size `size`: the messages that are pending afterwards, and
/// the rows that leave, if any.
pub open spec fn submitted(pending: Seq<TwitchMessageView>, size: nat, msg: TwitchMessageView) -> (
    Seq<TwitchMessageView>,
    Option<Seq<MessageView>>,
) {
    if pending.len() + 1 >= size {
        (Seq::empty(), Some(rows_of(pending.push(msg))))
    } else {
        (pending.push(msg), None)
    }
}

/// What submitting `msgs` one after the other does: the messages that
/// are pending afterwards, and the batches that left, in order.
pub open spec fn submitted_all(
    pending: Seq<TwitchMessageView>,
    size: nat,
    msgs: Seq<TwitchMessageView>,
) -> (Seq<TwitchMessageView>, Seq<Seq<MessageView>>)
    decreases msgs.len(),
{
    if msgs.len() == 0 {
        (pending, Seq::empty())
    } else {
        let before = submitted_all(pending, size, msgs.drop_last());
        let step = submitted(before.0, size, msgs.last());
        match step.1 {
            Some(batch) => (step.0, before.1.push(batch)),
            None => (step.0, before.1),
        }
    }
}

/// The total after a write of `num` rows: the sum, or the largest
/// number there is where the sum is larger.
pub open spec fn total_after(total: usize, num: usize) -> usize {
    if total + num <= usize::MAX {
        (total + num) as usize
    } else {
        usize::MAX
    }
}

/// The pending messages of a writer, the size of its batches and the
/// number of rows written so far.
pub struct DB {
    batch: Vec<TwitchMessage>,
    batch_size: usize,
    inserted: usize,
}

impl DB {
    /// The messages that wait to be written.
    pub closed spec fn pending(&self) -> Seq<TwitchMessageView> {
        messages(self.batch@)
    }

    /// The number of messages that make a batch.
    pub closed spec fn size(&self) -> usize {
        self.batch_size
    }

    /// The number of rows written so far.
    pub closed spec fn total(&self) -> usize {
        self.inserted
    }

    /// A writer with nothing pending and batches of `BATCH_SIZE`.
    pub fn new() -> (db: DB)
        ensures
            db.pending() == Seq::<TwitchMessageView>::empty(),
            db.size() == BATCH_SIZE,
            db.total() == 0,
    {
        DB::with_batch_size(BATCH_SIZE)
    }

    /// A writer with nothing pending and batches of `batch_size`.
    pub fn with_batch_size(batch_size: usize) -> (db: DB)
        ensures
            db.pending() == Seq::<TwitchMessageView>::empty(),
            db.size() == batch_size,
            db.total() == 0,
    {
        let batch: Vec<TwitchMessage> = Vec::new();
        assert(messages(batch@) =~= Seq::<TwitchMessageView>::empty());
        DB { batch, batch_size, inserted: 0 }
    }

    /// The number of messages that wait to be written.
    pub fn len(&self) -> (n: usize)
        ensures
            n == self.pending().len(),
    {
        self.batch.len()
    }

    /// The number of rows written so far.
    pub fn inserted(&self) -> (n: usize)
        ensures
            n == self.total(),
    {
        self.inserted
    }

    /// Takes a message. Once as many are pending as make a batch, they
    /// all leave as rows, in the order they came, and nothing is
    /// pending any more; until then nothing leaves.
    pub fn submit(&mut self, msg: TwitchMessage) -> (r: Option<Vec<Message>>)
        ensures
            final(self).pending() == submitted(old(self).pending(), old(self).size() as nat, msg@).0,
            match submitted(old(self).pending(), old(self).size() as nat, msg@).1 {
                Some(batch) => r.is_some() && rows(r.unwrap()@) == batch,
                None => r.is_none(),
            },
            final(self).size() == old(self).size(),
            final(self).total() == old(self).total(),
    {
        proof {
            assert(messages(self.batch@.push(msg)) =~= messages(self.batch@).push(msg@));
        }
        self.batch.push(msg);
        if self.batch.len() >= self.batch_size {
            Some(self.flush())
        } else {
            None
        }
    }

    /// Takes out whatever is pending, as rows in the order the messages
    /// came; nothing is pending afterwards. This is what a writer
    /// stores last, before it stops.
    pub fn flush(&mut self) -> (r: Vec<Message>)
        ensures
            rows(r@) == rows_of(old(self).pending()),
            final(self).pending() == Seq::<TwitchMessageView>::empty(),
            final(self).size() == old(self).size(),
            final(self).total() == old(self).total(),
    {
        let ghost all = self.batch@;
        let mut taken: Vec<TwitchMessage> = Vec::new();
        core::mem::swap(&mut self.batch, &mut taken);
        assert(messages(self.batch@) =~= Seq::<TwitchMessageView>::empty());
        // Popping twice restores the order.
        let mut turned: Vec<TwitchMessage> = Vec::new();
        while taken.len() > 0
            invariant
                taken@.len() + turned@.len() == all.len(),
                taken@ == all.take(taken@.len() as int),
                forall|j: int| 0 <= j < turned@.len() ==> turned@[j] == all[all.len() - 1 - j],
            decreases taken.len(),
        {
            let m = taken.pop().unwrap();
            turned.push(m);
            proof {
                assert(taken@ =~= all.take(taken@.len() as int));
            }
        }
        let mut out: Vec<Message> = Vec::new();
        while turned.len() > 0
            invariant
                out@.len() + turned@.len() == all.len(),
                forall|j: int| 0 <= j < turned@.len() ==> turned@[j] == all[all.len() - 1 - j],
                rows(out@) == rows_of(messages(all).take(out@.len() as int)),
            decreases turned.len(),
        {
            let ghost k = out@.len() as int;
            let m = turned.pop().unwrap();
            assert(m == all[k]);
            let row = Message::from(m);
            proof {
                let ms = messages(all);
                assert(ms.take(k + 1) =~= ms.take(k).push(m@));
                assert(rows(out@.push(row)) =~= rows(out@).push(row@));
                assert(rows_of(ms.take(k).push(m@)) =~= rows_of(ms.take(k)).push(row_of(m@)));
            }
            out.push(row);
        }
        proof {
            assert(messages(all).take(all.len() as int) =~= messages(all));
        }
        out
    }

    /// Takes note of how a write went. A write that stored `num` rows
    /// adds them to the total; a write that failed leaves the total as
    /// it is, and its reason comes back as an error of the store. The
    /// rows of a failed write are not kept.
    pub fn flushed(&mut self, outcome: Result<usize, String>) -> (r: Result<usize, MyError>)
        ensures
            final(self).pending() == old(self).pending(),
            final(self).size() == old(self).size(),
            match outcome {
                Ok(num) => r == Ok::<usize, MyError>(num) && final(self).total() == total_after(
                    old(self).total(),
                    num,
                ),
                Err(why) => r == Err::<usize, MyError>(MyError::Db(why)) && final(self).total()
                    == old(self).total(),
            },
    {
        match outcome {
            Ok(num) => {
                self.inserted = if num <= usize::MAX - self.inserted {
                    self.inserted + num
                } else {
                    usize::MAX
                };
                Ok(num)
            },
            Err(why) => Err(MyError::Db(why)),
        }
    }
}

/// Below the size of a batch nothing leaves: after fewer submissions
/// than make a batch, to a writer with nothing pending, every message
/// is pending and no batch has left.
pub proof fn lemma_no_flush_below_batch_size(size: nat, msgs: Seq<TwitchMessageView>)
    requires
        msgs.len() < size,
    ensures
        submitted_all(Seq::empty(), size, msgs) == (msgs, Seq::<Seq<MessageView>>::empty()),
    decreases msgs.len(),
{
    if msgs.len() > 0 {
        lemma_no_flush_below_batch_size(size, msgs.drop_last());
        assert(msgs.drop_last().push(msgs.last()) =~= msgs);
    }
}

/// The submission that fills a batch flushes it: after as many
/// submissions as make a batch, to a writer with nothing pending, one
/// batch has left, with the rows of all of them in order, and nothing is
/// pending.
pub proof fn lemma_one_flush_at_batch_size(size: nat, msgs: Seq<TwitchMessageView>)
    requires
        size > 0,
        msgs.len() == size,
    ensures
        submitted_all(Seq::empty(), size, msgs) == (
            Seq::<TwitchMessageView>::empty(),
            seq![rows_of(msgs)],
        ),
{
    lemma_no_flush_below_batch_size(size, msgs.drop_last());
    assert(msgs.drop_last().push(msgs.last()) =~= msgs);
    let before = submitted_all(Seq::empty(), size, msgs.drop_last());
    assert(before.1.push(rows_of(msgs)) =~= seq![rows_of(msgs)]);
}

/// Stopping flushes what is left: after fewer submissions than make a
/// batch, to a writer with nothing pending, the rows that a last flush
/// takes out are the rows of all the messages, and no batch left before.
pub proof fn lemma_last_flush_takes_the_rest(size: nat, msgs: Seq<TwitchMessageView>)
    requires
        msgs.len() < size,
    ensures
        rows_of(submitted_all(Seq::empty(), size, msgs).0) == rows_of(msgs),
        submitted_all(Seq::empty(), size, msgs).1.len() == 0,
{
    lemma_no_flush_below_batch_size(size, msgs);
}

} // verus!
