//! Sessions: what the fleet asks of one chat connection, and a session
//! that lives in memory.

use crate::channels::{cleanup_channels, copy_list, distinct, logins};
use crate::error::MyError;
use vstd::prelude::*;

verus! {

/// What the fleet asks of a session.
///
/// A connection acknowledges a join or a part some time after it was
/// asked for, so nothing is promised here about what `list` reports
/// after either.
pub trait IrcController {
    /// Asks the session to join `channel`.
    fn join(&mut self, channel: String) -> Result<(), MyError>;

    /// The channels the session has joined, or `None` while the
    /// connection is not ready.
    fn list(&self) -> Option<Vec<String>>;

    /// Asks the session to leave `channel`.
    fn part(&mut self, channel: String) -> Result<(), MyError>;
}

/// `s` after joining `l`: unchanged if `l` is a member already, else
/// with `l` as its last member.
pub open spec fn joined(s: Seq<Seq<char>>, l: Seq<char>) -> Seq<Seq<char>> {
    if s.contains(l) {
        s
    } else {
        s.push(l)
    }
}

/// The test for a channel other than `l`.
pub open spec fn other_than(l: Seq<char>) -> spec_fn(Seq<char>) -> bool {
    |x: Seq<char>| x != l
}

/// `s` after leaving `l`: the other members, in their order.
pub open spec fn parted(s: Seq<Seq<char>>, l: Seq<char>) -> Seq<Seq<char>> {
    s.filter(other_than(l))
}

/// What a filter keeps: the elements that pass the test, and no element
/// twice where the source had none twice.
pub proof fn lemma_filter_keeps(s: Seq<Seq<char>>, pred: spec_fn(Seq<char>) -> bool)
    ensures
        forall|x: Seq<char>| #[trigger] s.filter(pred).contains(x) <==> (s.contains(x) && pred(x)),
        s.no_duplicates() ==> s.filter(pred).no_duplicates(),
        s.filter(pred).len() <= s.len(),
    decreases s.len(),
{
    reveal(Seq::filter);
    if s.len() > 0 {
        let front = s.drop_last();
        lemma_filter_keeps(front, pred);
        let f = front.filter(pred);
        assert(s =~= front.push(s.last()));
        assert forall|x: Seq<char>| #[trigger] s.filter(pred).contains(x) <==> (s.contains(x)
            && pred(x)) by {
            if s.filter(pred).contains(x) {
                let k = choose|k: int| 0 <= k < s.filter(pred).len() && s.filter(pred)[k] == x;
                if k < f.len() {
                    assert(f[k] == x);
                    assert(f.contains(x));
                    let k2 = choose|k2: int| 0 <= k2 < front.len() && front[k2] == x;
                    assert(s[k2] == x);
                } else {
                    assert(s[s.len() - 1] == x);
                }
            }
            if s.contains(x) && pred(x) {
                let k = choose|k: int| 0 <= k < s.len() && s[k] == x;
                if k < front.len() {
                    assert(front[k] == x);
                    assert(f.contains(x));
                    let k2 = choose|k2: int| 0 <= k2 < f.len() && f[k2] == x;
                    assert(s.filter(pred)[k2] == x);
                } else {
                    assert(s.filter(pred)[f.len() as int] == x);
                }
            }
        }
        if s.no_duplicates() {
            assert(front.no_duplicates());
            if pred(s.last()) {
                if f.contains(s.last()) {
                    let k2 = choose|k2: int| 0 <= k2 < front.len() && front[k2] == s.last();
                    assert(s[k2] == s[s.len() - 1]);
                }
            }
        }
    }
}

/// A session that lives in memory: it joins and leaves at once, and
/// reports its members in the order in which it joined them.
#[derive(Debug)]
pub struct TestController {
    chans: Vec<String>,
}

impl View for TestController {
    type V = Seq<Seq<char>>;

    closed spec fn view(&self) -> Seq<Seq<char>> {
        logins(self.chans@)
    }
}

impl TestController {
    /// No channel is held twice.
    #[verifier::type_invariant]
    closed spec fn wf(&self) -> bool {
        logins(self.chans@).no_duplicates()
    }

    /// A session that has joined nothing.
    pub fn new() -> (c: TestController)
        ensures
            c@ == Seq::<Seq<char>>::empty(),
    {
        let chans: Vec<String> = Vec::new();
        assert(logins(chans@) =~= Seq::<Seq<char>>::empty());
        TestController { chans }
    }

    /// A session that has joined `channels`, each once.
    pub fn init(channels: Vec<String>) -> (c: TestController)
        ensures
            c@ == distinct(logins(channels@)),
    {
        let (chans, _) = cleanup_channels(channels, 0);
        TestController { chans }
    }

    /// The number of channels joined; no channel is counted twice.
    pub fn len(&self) -> (n: usize)
        ensures
            n == self@.len(),
            self@.no_duplicates(),
    {
        proof {
            use_type_invariant(self);
        }
        self.chans.len()
    }

    /// Whether `channel` is joined.
    pub fn contains(&self, channel: &String) -> (b: bool)
        ensures
            b == self@.contains(channel@),
    {
        let mut k: usize = 0;
        while k < self.chans.len()
            invariant
                k <= self.chans.len(),
                forall|x: int| 0 <= x < k ==> logins(self.chans@)[x] != channel@,
            decreases self.chans.len() - k,
        {
            if self.chans[k] == *channel {
                assert(logins(self.chans@)[k as int] == channel@);
                return true;
            }
            k += 1;
        }
        false
    }
}

impl IrcController for TestController {
    fn join(&mut self, channel: String) -> (r: Result<(), MyError>)
        ensures
            r.is_ok(),
            final(self)@ == joined(old(self)@, channel@),
    {
        proof {
            use_type_invariant(&*self);
        }
        if !self.contains(&channel) {
            let mut chans = self.list().unwrap();
            proof {
                assert(logins(chans@.push(channel)) =~= logins(chans@).push(channel@));
            }
            chans.push(channel);
            self.chans = chans;
        }
        Ok(())
    }

    fn list(&self) -> (r: Option<Vec<String>>)
        ensures
            r.is_some(),
            logins(r.unwrap()@) == self@,
            self@.no_duplicates(),
    {
        proof {
            use_type_invariant(self);
        }
        let out = copy_list(&self.chans);
        Some(out)
    }

    fn part(&mut self, channel: String) -> (r: Result<(), MyError>)
        ensures
            r.is_ok(),
            final(self)@ == parted(old(self)@, channel@),
    {
        proof {
            use_type_invariant(&*self);
        }
        let mut kept: Vec<String> = Vec::new();
        let mut k: usize = 0;
        proof {
            reveal(Seq::filter);
            assert(logins(self.chans@).take(0) =~= Seq::<Seq<char>>::empty());
            assert(logins(kept@) =~= Seq::<Seq<char>>::empty());
        }
        while k < self.chans.len()
            invariant
                k <= self.chans.len(),
                logins(kept@) == logins(self.chans@).take(k as int).filter(other_than(channel@)),
            decreases self.chans.len() - k,
        {
            proof {
                reveal(Seq::filter);
                let all = logins(self.chans@);
                assert(all.take(k + 1).drop_last() =~= all.take(k as int));
                assert(all.take(k + 1).last() == self.chans@[k as int]@);
                assert(logins(kept@.push(self.chans@[k as int])) =~= logins(kept@).push(
                    self.chans@[k as int]@,
                ));
            }
            if self.chans[k] != channel {
                kept.push(self.chans[k].clone());
            }
            k += 1;
        }
        proof {
            assert(logins(self.chans@).take(self.chans@.len() as int) =~= logins(self.chans@));
            lemma_filter_keeps(logins(self.chans@), other_than(channel@));
        }
        self.chans = kept;
        Ok(())
    }
}

} // verus!
