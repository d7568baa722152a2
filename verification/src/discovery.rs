//! Finding the most-viewed channels: which pages to ask for, with what
//! parameters, and what to make of the answers.
//!
//! The requests themselves are made elsewhere. What is decided here is
//! the size of each page, when to stop asking, and which logins count.

use crate::channels::{cleanup_channels, distinct, logins, membership};
use crate::text::{decimal_text, show_u64};
use vstd::prelude::*;

verus! {

/// The most streams that one page may hold.
pub const MAX_PER_PAGE: u64 = 100;

/// Where the paging stands: the cursor of the page to ask for next, if
/// one is known, and the number of channels still to ask for.
pub struct ChannelPages {
    pub page: Option<String>,
    pub number: u64,
}

/// One request for a page of streams: how many, and after which cursor.
pub struct PageRequest {
    pub first: u64,
    pub after: Option<String>,
}

/// The size of the next page when `number` channels are still to ask
/// for.
pub open spec fn page_size(number: u64) -> u64 {
    if number < MAX_PER_PAGE {
        number
    } else {
        MAX_PER_PAGE
    }
}

/// The text of a string that may be absent.
pub open spec fn cursor_text(o: Option<String>) -> Option<Seq<char>> {
    match o {
        Some(s) => Some(s@),
        None => None,
    }
}

impl ChannelPages {
    /// The start of the paging for `number` channels.
    pub fn new(number: u64) -> (p: ChannelPages)
        ensures
            p.page.is_none(),
            p.number == number,
    {
        ChannelPages { page: None, number }
    }

    /// What to ask for next: a page of at most `MAX_PER_PAGE` streams
    /// after the cursor, or nothing once everything was asked for.
    pub fn request(&self) -> (r: Option<PageRequest>)
        ensures
            self.number == 0 ==> r.is_none(),
            self.number > 0 ==> r.is_some() && r.unwrap().first == page_size(self.number)
                && cursor_text(r.unwrap().after) == cursor_text(self.page),
    {
        if self.number == 0 {
            None
        } else {
            let first = if self.number < MAX_PER_PAGE {
                self.number
            } else {
                MAX_PER_PAGE
            };
            let after = match &self.page {
                Some(c) => Some(c.clone()),
                None => None,
            };
            Some(PageRequest { first, after })
        }
    }

    /// Where the paging stands after the answer to `request`: `fetched`
    /// holds the cursor and the number of streams of the page, or
    /// nothing where the request failed. The paging ends, with `None`,
    /// when nothing was left to ask for, when the request failed, and
    /// when the page was empty. Otherwise it goes on after the page's
    /// cursor, with the page's size less to ask for.
    pub fn pages(self, fetched: Option<(String, usize)>) -> (r: Option<ChannelPages>)
        ensures
            match fetched {
                Some(page) => if self.number == 0 || page.1 == 0 {
                    r.is_none()
                } else {
                    r.is_some() && cursor_text(r.unwrap().page) == Some(page.0@)
                        && r.unwrap().number == self.number - page_size(self.number)
                },
                None => r.is_none(),
            },
    {
        if self.number == 0 {
            return None;
        }
        match fetched {
            Some(page) => {
                if page.1 == 0 {
                    None
                } else {
                    let to_get = if self.number < MAX_PER_PAGE {
                        self.number
                    } else {
                        MAX_PER_PAGE
                    };
                    Some(ChannelPages { page: Some(page.0), number: self.number - to_get })
                }
            },
            None => None,
        }
    }
}

/// The keys and values of a list of parameters as texts.
pub open spec fn params(v: Seq<(String, String)>) -> Seq<(Seq<char>, Seq<char>)> {
    v.map_values(|p: (String, String)| (p.0@, p.1@))
}

/// The parameters of a request for a page of streams: `first` with the
/// size in decimal and, where a cursor is known, `after` with the
/// cursor.
pub fn stream_params(request: &PageRequest) -> (r: Vec<(String, String)>)
    ensures
        r@.len() == if request.after.is_some() { 2nat } else { 1nat },
        r@[0].0@ == "first"@,
        r@[0].1@ == decimal_text(request.first as nat),
        request.after.is_some() ==> r@[1].0@ == "after"@ && r@[1].1@ == request.after.unwrap()@,
{
    let mut out: Vec<(String, String)> = Vec::new();
    out.push(("first".to_owned(), show_u64(request.first)));
    match &request.after {
        Some(page) => {
            out.push(("after".to_owned(), page.clone()));
        },
        None => {},
    }
    out
}

/// The parameters of a request for the users with the identifiers
/// `userids`: one `id` for each, in order.
pub fn user_params(userids: &Vec<String>) -> (r: Vec<(String, String)>)
    ensures
        r@.len() == userids@.len(),
        forall|k: int|
            0 <= k < r@.len() ==> (#[trigger] r@[k]).0@ == "id"@ && r@[k].1@ == userids@[k]@,
{
    let mut out: Vec<(String, String)> = Vec::new();
    let mut k: usize = 0;
    while k < userids.len()
        invariant
            k <= userids.len(),
            out@.len() == k,
            forall|j: int|
                0 <= j < k ==> (#[trigger] out@[j]).0@ == "id"@ && out@[j].1@ == userids@[j]@,
        decreases userids.len() - k,
    {
        out.push(("id".to_owned(), userids[k].clone()));
        k += 1;
    }
    out
}

/// The logins of all `pages`, page after page, each page without its
/// repeats.
pub open spec fn gathered(pages: Seq<Seq<Seq<char>>>) -> Seq<Seq<char>>
    decreases pages.len(),
{
    if pages.len() == 0 {
        Seq::empty()
    } else {
        gathered(pages.drop_last()) + distinct(pages.last())
    }
}

/// At most the first `number` of `s`.
pub open spec fn at_most(s: Seq<Seq<char>>, number: u64) -> Seq<Seq<char>> {
    if s.len() <= number {
        s
    } else {
        s.take(number as int)
    }
}

/// The channels found: the logins of the pages in the order they came,
/// a login once within its page, and no more than `number` of them.
/// A login that two pages hold stays twice.
pub fn top_connections(pages: Vec<Vec<String>>, number: u64) -> (r: Vec<String>)
    ensures
        logins(r@) == at_most(gathered(membership(pages@)), number),
{
    let ghost all = membership(pages@);
    let mut out: Vec<String> = Vec::new();
    let mut pages = pages;
    let mut turned: Vec<Vec<String>> = Vec::new();
    let ghost given = pages@;
    while pages.len() > 0
        invariant
            pages@.len() + turned@.len() == given.len(),
            pages@ == given.take(pages@.len() as int),
            forall|j: int| 0 <= j < turned@.len() ==> turned@[j] == given[given.len() - 1 - j],
        decreases pages.len(),
    {
        let p = pages.pop().unwrap();
        turned.push(p);
        proof {
            assert(pages@ =~= given.take(pages@.len() as int));
        }
    }
    let ghost mut seen: int = 0;
    assert(all.take(0) =~= Seq::<Seq<Seq<char>>>::empty());
    while turned.len() > 0
        invariant
            all == membership(given),
            seen + turned@.len() == given.len(),
            0 <= seen,
            forall|j: int| 0 <= j < turned@.len() ==> turned@[j] == given[given.len() - 1 - j],
            logins(out@) == at_most(gathered(all.take(seen)), number),
        decreases turned.len(),
    {
        let page = turned.pop().unwrap();
        assert(page == given[seen]);
        let (fresh, _) = cleanup_channels(page, 0);
        proof {
            assert(all.take(seen + 1).drop_last() =~= all.take(seen));
            assert(all.take(seen + 1).last() == logins(given[seen]@));
            assert(logins(fresh@) == distinct(all[seen]));
        }
        let ghost before = gathered(all.take(seen));
        let mut k: usize = 0;
        proof {
            assert(logins(out@).len() == out@.len());
            assert(logins(fresh@).take(0) =~= Seq::<Seq<char>>::empty());
            assert(before + Seq::<Seq<char>>::empty() =~= before);
        }
        while k < fresh.len() && (out.len() as u64) < number
            invariant
                k <= fresh.len(),
                out@.len() <= number,
                before.len() <= number ==> logins(out@) == before + logins(fresh@).take(k as int),
                before.len() > number ==> logins(out@) == before.take(number as int),
                before.len() > number ==> out@.len() == number,
            decreases fresh.len() - k,
        {
            let c = fresh[k].clone();
            proof {
                assert(logins(out@.push(c)) =~= logins(out@).push(c@));
                assert(logins(fresh@).take(k + 1) =~= logins(fresh@).take(k as int).push(c@));
                assert((before + logins(fresh@).take(k as int)).push(c@) =~= before + logins(
                    fresh@,
                ).take(k + 1));
            }
            out.push(c);
            k += 1;
        }
        proof {
            let next = gathered(all.take(seen + 1));
            assert(next == before + logins(fresh@));
            if before.len() <= number {
                if k == fresh@.len() {
                    assert(logins(fresh@).take(k as int) =~= logins(fresh@));
                    assert(logins(out@) == next);
                } else {
                    assert(out@.len() == number);
                    assert(logins(out@) =~= next.take(number as int));
                }
            } else {
                assert(before.take(number as int) =~= next.take(number as int));
            }
            assert(logins(out@).len() == out@.len());
            assert(logins(out@) == at_most(next, number));
            seen = seen + 1;
        }
    }
    proof {
        assert(all.take(seen) =~= all);
    }
    out
}


/// Where a paging stands, as plain values: the cursor and the number of
/// channels still to ask for; nothing once the paging has ended.
pub open spec fn paging_view(p: Option<ChannelPages>) -> Option<(Option<Seq<char>>, u64)> {
    match p {
        Some(at) => Some((cursor_text(at.page), at.number)),
        None => None,
    }
}

/// Where a paging with `number` channels to ask for stands after the
/// answer `fetched`: it ends where nothing was left to ask for, where
/// the request failed and where the page was empty, and goes on after
/// the page's cursor otherwise.
pub open spec fn paging_after(number: u64, fetched: Option<(String, usize)>) -> Option<
    (Option<Seq<char>>, u64),
> {
    match fetched {
        Some(page) => if number == 0 || page.1 == 0 {
            None
        } else {
            Some((Some(page.0@), (number - page_size(number)) as u64))
        },
        None => None,
    }
}

/// A search for the most-viewed channels as it proceeds: where the
/// paging stands, the logins of the pages resolved so far, and the
/// number of channels asked for.
///
/// A step of the search is a request for a page of streams and, where
/// the page holds any, a lookup of the logins of its broadcasters. A
/// page or a lookup that fails ends the search with what was found
/// before.
pub struct Search {
    pub paging: Option<ChannelPages>,
    pub pages: Vec<Vec<String>>,
    pub number: u64,
}

impl Search {
    /// The start of a search for `number` channels.
    pub fn new(number: u64) -> (s: Search)
        ensures
            paging_view(s.paging) == Some((None::<Seq<char>>, number)),
            s.pages@.len() == 0,
            s.number == number,
    {
        Search { paging: Some(ChannelPages::new(number)), pages: Vec::new(), number }
    }

    /// The page to ask for next, or nothing once the search has ended.
    pub fn request(&self) -> (r: Option<PageRequest>)
        ensures
            match self.paging {
                Some(at) => if at.number == 0 {
                    r.is_none()
                } else {
                    r.is_some() && r.unwrap().first == page_size(at.number) && cursor_text(
                        r.unwrap().after,
                    ) == cursor_text(at.page)
                },
                None => r.is_none(),
            },
    {
        match &self.paging {
            Some(at) => at.request(),
            None => None,
        }
    }

    /// Takes the answer to the request for a page: its cursor and the
    /// number of its streams, or nothing where the request failed. The
    /// result says whether the logins of the page are to be looked up:
    /// they are where the page holds any stream.
    pub fn page_fetched(&mut self, fetched: Option<(String, usize)>) -> (lookup: bool)
        ensures
            match old(self).paging {
                Some(at) => paging_view(final(self).paging) == paging_after(at.number, fetched)
                    && lookup == paging_after(at.number, fetched).is_some(),
                None => final(self).paging.is_none() && !lookup,
            },
            final(self).pages == old(self).pages,
            final(self).number == old(self).number,
    {
        let mut at: Option<ChannelPages> = None;
        core::mem::swap(&mut self.paging, &mut at);
        match at {
            Some(p) => {
                let next = p.pages(fetched);
                let lookup = next.is_some();
                self.paging = next;
                lookup
            },
            None => false,
        }
    }

    /// Takes the answer to the lookup of a page's logins: with the
    /// logins the search goes on, and they count as a page of what was
    /// found; without them, where the lookup failed, the search ends.
    pub fn users_resolved(&mut self, found: Option<Vec<String>>)
        ensures
            match found {
                Some(page) => final(self).pages@ == old(self).pages@.push(page)
                    && final(self).paging == old(self).paging,
                None => final(self).pages == old(self).pages && final(self).paging.is_none(),
            },
            final(self).number == old(self).number,
    {
        match found {
            Some(page) => {
                self.pages.push(page);
            },
            None => {
                self.paging = None;
            },
        }
    }

    /// The channels found: the logins of the resolved pages in order, a
    /// login once within its page, and no more than were asked for.
    pub fn finish(self) -> (r: Vec<String>)
        ensures
            logins(r@) == at_most(gathered(membership(self.pages@)), self.number),
    {
        top_connections(self.pages, self.number)
    }
}

} // verus!
