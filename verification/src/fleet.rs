//! Reconciling what a pool of bounded sessions has joined with the
//! channels that are wanted now.
//!
//! A pass works on a snapshot: the members each session reports, in the
//! order it reports them, and the wanted channels in the order they were
//! ranked. From these it computes, without touching any session, which
//! channels each session swaps and which it joins on top.

use crate::actions::{
    action_views, actions_of, after_actions, lemma_actions_carry_out_plans, plan_actions, Action,
    ActionView,
};
use crate::channels::{
    cleanup_channels, copy_list, distinct, lemma_distinct_is_set_preserving,
    lemma_distinct_of_distinct, lemma_reordered_is_distinct, lemma_sharded, logins, membership,
    no_channel_twice, sessions_are_sets, sharded, shuffled_shards,
};
use crate::controller::{joined, parted, IrcController, TestController};
use crate::reconcile_laws::{
    lemma_refresh_joins_all_or_fills_all, lemma_refresh_joins_every_wanted,
};
use vstd::hash_set::StringHashSet;
use vstd::prelude::*;

verus! {

/// Some session has `l` among its members.
pub open spec fn joined_somewhere(m: Seq<Seq<Seq<char>>>, l: Seq<char>) -> bool {
    exists|a: int, b: int| 0 <= a < m.len() && 0 <= b < m[a].len() && #[trigger] m[a][b] == l
}

/// `l` is reported before position `j` of session `i`: by an earlier
/// session, or earlier in session `i` itself.
pub open spec fn joined_before(m: Seq<Seq<Seq<char>>>, i: int, j: int, l: Seq<char>) -> bool {
    exists|a: int, b: int|
        0 <= a < m.len() && 0 <= b < m[a].len() && (a < i || (a == i && b < j))
            && #[trigger] m[a][b] == l
}

/// Member `j` of session `i` stays joined: it is wanted, and no earlier
/// member already stands for the same channel.
pub open spec fn stays(m: Seq<Seq<Seq<char>>>, d: Seq<Seq<char>>, i: int, j: int) -> bool {
    d.contains(m[i][j]) && !joined_before(m, i, j, m[i][j])
}

/// The members among the first `n` of session `i` that do not stay, in
/// the order the session reports them.
pub open spec fn surplus_upto(m: Seq<Seq<Seq<char>>>, d: Seq<Seq<char>>, i: int, n: int) -> Seq<
    Seq<char>,
>
    decreases n,
{
    if n <= 0 {
        Seq::empty()
    } else {
        let front = surplus_upto(m, d, i, n - 1);
        if stays(m, d, i, n - 1) {
            front
        } else {
            front.push(m[i][n - 1])
        }
    }
}

/// The members of session `i` that it is to leave, given replacements.
pub open spec fn surplus(m: Seq<Seq<Seq<char>>>, d: Seq<Seq<char>>, i: int) -> Seq<Seq<char>> {
    surplus_upto(m, d, i, m[i].len() as int)
}

/// The wanted channels that no session has joined, each once, in the
/// order in which they were first asked for.
pub open spec fn candidates(m: Seq<Seq<Seq<char>>>, d: Seq<Seq<char>>) -> Seq<Seq<char>> {
    distinct(d).filter(unjoined(m))
}

/// The test for a channel that no session has joined.
pub open spec fn unjoined(m: Seq<Seq<Seq<char>>>) -> spec_fn(Seq<char>) -> bool {
    |l: Seq<char>| !joined_somewhere(m, l)
}

/// The number of surplus members in the sessions before session `i`.
pub open spec fn surplus_before(m: Seq<Seq<Seq<char>>>, d: Seq<Seq<char>>, i: int) -> int
    decreases i,
{
    if i <= 0 {
        0
    } else {
        surplus_before(m, d, i - 1) + surplus(m, d, i - 1).len()
    }
}

/// The smaller of two numbers.
pub open spec fn min_int(a: int, b: int) -> int {
    if a <= b {
        a
    } else {
        b
    }
}

/// The index of the first candidate that session `i` swaps in.
pub open spec fn swap_start(m: Seq<Seq<Seq<char>>>, d: Seq<Seq<char>>, i: int) -> int {
    min_int(candidates(m, d).len() as int, surplus_before(m, d, i))
}

/// The number of swaps of session `i`: one for each surplus member, as
/// long as candidates are left.
pub open spec fn swap_count(m: Seq<Seq<Seq<char>>>, d: Seq<Seq<char>>, i: int) -> int {
    min_int(surplus(m, d, i).len() as int, candidates(m, d).len() - swap_start(m, d, i))
}

/// The room that session `i` has below the capacity `c`.
pub open spec fn headroom(m: Seq<Seq<Seq<char>>>, c: int, i: int) -> int {
    if m[i].len() < c {
        c - m[i].len()
    } else {
        0
    }
}

/// The index of the first candidate that session `i` joins on top, once
/// every session has made its swaps.
pub open spec fn topup_start(m: Seq<Seq<Seq<char>>>, d: Seq<Seq<char>>, c: int, i: int) -> int
    decreases i, 0int,
{
    if i <= 0 {
        swap_start(m, d, m.len() as int)
    } else {
        topup_start(m, d, c, i - 1) + topup_count(m, d, c, i - 1)
    }
}

/// The number of channels that session `i` joins on top: as many as it
/// has room for, as long as candidates are left.
pub open spec fn topup_count(m: Seq<Seq<Seq<char>>>, d: Seq<Seq<char>>, c: int, i: int) -> int
    decreases i, 1int,
{
    if i < 0 {
        0
    } else {
        min_int(headroom(m, c, i), candidates(m, d).len() - topup_start(m, d, c, i))
    }
}

/// Joining one channel and leaving another, issued as a unit.
pub struct Swap {
    pub join: String,
    pub part: String,
}

/// A swap as plain values.
pub struct SwapView {
    pub join: Seq<char>,
    pub part: Seq<char>,
}

impl View for Swap {
    type V = SwapView;

    open spec fn view(&self) -> SwapView {
        SwapView { join: self.join@, part: self.part@ }
    }
}

/// What one session is to do in a pass: first its swaps, in order, and,
/// after every session has made its swaps, its further joins.
pub struct SessionPlan {
    pub swaps: Vec<Swap>,
    pub joins: Vec<String>,
}

/// The plan of a session as plain values.
pub struct SessionPlanView {
    pub swaps: Seq<SwapView>,
    pub joins: Seq<Seq<char>>,
}

/// The swaps of a list, each by its view.
pub open spec fn swap_views(v: Seq<Swap>) -> Seq<SwapView> {
    v.map_values(|s: Swap| s@)
}

/// The plans of a list, each by its view.
pub open spec fn plan_views(v: Seq<SessionPlan>) -> Seq<SessionPlanView> {
    v.map_values(|p: SessionPlan| p@)
}

impl View for SessionPlan {
    type V = SessionPlanView;

    open spec fn view(&self) -> SessionPlanView {
        SessionPlanView { swaps: swap_views(self.swaps@), joins: logins(self.joins@) }
    }
}

/// The plan of session `i` for members `m`, wanted channels `d` and
/// capacity `c`.
pub open spec fn session_plan(m: Seq<Seq<Seq<char>>>, d: Seq<Seq<char>>, c: int, i: int)
    -> SessionPlanView {
    SessionPlanView { swaps: session_swaps(m, d, i), joins: session_joins(m, d, c, i) }
}

/// The swaps of session `i`: its surplus members, in order, each against
/// the next candidate, as long as candidates are left.
pub open spec fn session_swaps(m: Seq<Seq<Seq<char>>>, d: Seq<Seq<char>>, i: int) -> Seq<
    SwapView,
> {
    Seq::new(
        swap_count(m, d, i) as nat,
        |t: int|
            SwapView {
                join: candidates(m, d)[swap_start(m, d, i) + t],
                part: surplus(m, d, i)[t],
            },
    )
}

/// The channels that session `i` joins on top of its swaps.
pub open spec fn session_joins(m: Seq<Seq<Seq<char>>>, d: Seq<Seq<char>>, c: int, i: int) -> Seq<
    Seq<char>,
> {
    candidates(m, d).subrange(
        topup_start(m, d, c, i),
        topup_start(m, d, c, i) + topup_count(m, d, c, i),
    )
}

/// The plans of all sessions.
pub open spec fn refresh_plan(m: Seq<Seq<Seq<char>>>, d: Seq<Seq<char>>, c: int) -> Seq<
    SessionPlanView,
> {
    Seq::new(m.len(), |i: int| session_plan(m, d, c, i))
}

/// The channels reported before position `j` of session `i`.
pub open spec fn seen_upto(m: Seq<Seq<Seq<char>>>, i: int, j: int) -> Set<Seq<char>> {
    Set::new(|l: Seq<char>| joined_before(m, i, j, l))
}

proof fn lemma_seen_step(m: Seq<Seq<Seq<char>>>, i: int, j: int)
    requires
        0 <= i < m.len(),
        0 <= j < m[i].len(),
    ensures
        seen_upto(m, i, j + 1) == seen_upto(m, i, j).insert(m[i][j]),
{
    assert forall|l: Seq<char>| joined_before(m, i, j + 1, l) <==> (joined_before(m, i, j, l) || l
        == m[i][j]) by {
        if joined_before(m, i, j + 1, l) {
            let (a, b) = choose|a: int, b: int|
                0 <= a < m.len() && 0 <= b < m[a].len() && (a < i || (a == i && b < j + 1))
                    && #[trigger] m[a][b] == l;
            if !(a == i && b == j) {
                assert(m[a][b] == l);
            }
        }
        if joined_before(m, i, j, l) {
            let (a, b) = choose|a: int, b: int|
                0 <= a < m.len() && 0 <= b < m[a].len() && (a < i || (a == i && b < j))
                    && #[trigger] m[a][b] == l;
            assert(m[a][b] == l);
        }
        if l == m[i][j] {
            assert(m[i][j] == l);
        }
    }
    assert(seen_upto(m, i, j + 1) =~= seen_upto(m, i, j).insert(m[i][j]));
}

proof fn lemma_seen_next_session(m: Seq<Seq<Seq<char>>>, i: int)
    requires
        0 <= i < m.len(),
    ensures
        seen_upto(m, i + 1, 0) == seen_upto(m, i, m[i].len() as int),
{
    let n = m[i].len() as int;
    assert forall|l: Seq<char>| joined_before(m, i + 1, 0, l) <==> joined_before(m, i, n, l) by {
        if joined_before(m, i + 1, 0, l) {
            let (a, b) = choose|a: int, b: int|
                0 <= a < m.len() && 0 <= b < m[a].len() && (a < i + 1 || (a == i + 1 && b < 0))
                    && #[trigger] m[a][b] == l;
            assert(m[a][b] == l);
        }
        if joined_before(m, i, n, l) {
            let (a, b) = choose|a: int, b: int|
                0 <= a < m.len() && 0 <= b < m[a].len() && (a < i || (a == i && b < n))
                    && #[trigger] m[a][b] == l;
            assert(m[a][b] == l);
        }
    }
    assert(seen_upto(m, i + 1, 0) =~= seen_upto(m, i, n));
}

proof fn lemma_seen_all(m: Seq<Seq<Seq<char>>>, l: Seq<char>)
    ensures
        seen_upto(m, m.len() as int, 0).contains(l) <==> joined_somewhere(m, l),
        seen_upto(m, 0, 0).contains(l) == false,
{
    let n = m.len() as int;
    if joined_before(m, n, 0, l) {
        let (a, b) = choose|a: int, b: int|
            0 <= a < m.len() && 0 <= b < m[a].len() && (a < n || (a == n && b < 0))
                && #[trigger] m[a][b] == l;
        assert(m[a][b] == l);
    }
    if joined_somewhere(m, l) {
        let (a, b) = choose|a: int, b: int|
            0 <= a < m.len() && 0 <= b < m[a].len() && #[trigger] m[a][b] == l;
        assert(m[a][b] == l);
    }
}

/// Splits what the sessions report into what stays and what is surplus,
/// and gives the channels seen on the way.
fn find_surplus(members: &Vec<Vec<String>>, wanted: &StringHashSet, Ghost(d): Ghost<Seq<Seq<char>>>)
    -> (r: (Vec<Vec<String>>, StringHashSet))
    requires
        wanted@ == d.to_set(),
    ensures
        r.0@.len() == members@.len(),
        forall|i: int|
            0 <= i < members@.len() ==> logins(#[trigger] r.0@[i]@) == surplus(
                membership(members@),
                d,
                i,
            ),
        forall|l: Seq<char>| r.1@.contains(l) <==> joined_somewhere(membership(members@), l),
{
    let ghost m = membership(members@);
    let mut seen = StringHashSet::new();
    let mut to_leave: Vec<Vec<String>> = Vec::new();
    let mut i: usize = 0;
    proof {
        assert forall|l: Seq<char>| !seen_upto(m, 0, 0).contains(l) by {
            lemma_seen_all(m, l);
        }
        assert(seen@ =~= seen_upto(m, 0, 0));
    }
    while i < members.len()
        invariant
            i <= members.len(),
            m == membership(members@),
            wanted@ == d.to_set(),
            seen@ == seen_upto(m, i as int, 0),
            to_leave@.len() == i,
            forall|k: int| 0 <= k < i ==> logins(#[trigger] to_leave@[k]@) == surplus(m, d, k),
        decreases members.len() - i,
    {
        let session = &members[i];
        let mut leaving: Vec<String> = Vec::new();
        let mut j: usize = 0;
        assert(m[i as int] == logins(session@));
        while j < session.len()
            invariant
                i < members.len(),
                j <= session.len(),
                m == membership(members@),
                m[i as int] == logins(session@),
                wanted@ == d.to_set(),
                seen@ == seen_upto(m, i as int, j as int),
                logins(leaving@) == surplus_upto(m, d, i as int, j as int),
            decreases session.len() - j,
        {
            let l = &session[j];
            assert(m[i as int][j as int] == l@);
            let is_wanted = wanted.contains(l.as_str());
            let is_new = seen.insert(l.clone());
            proof {
                lemma_seen_step(m, i as int, j as int);
                assert(is_wanted == d.contains(l@));
                assert(is_new == !joined_before(m, i as int, j as int, l@));
            }
            if !(is_wanted && is_new) {
                proof {
                    assert(logins(leaving@.push(*l)) =~= logins(leaving@).push(l@));
                }
                leaving.push(l.clone());
            }
            j += 1;
        }
        proof {
            lemma_seen_next_session(m, i as int);
            assert(m[i as int].len() == session@.len());
        }
        to_leave.push(leaving);
        i += 1;
    }
    proof {
        assert forall|l: Seq<char>| seen@.contains(l) <==> joined_somewhere(m, l) by {
            lemma_seen_all(m, l);
        }
    }
    (to_leave, seen)
}


/// The wanted channels that nobody has joined, in their order.
fn find_candidates(wanted: &Vec<String>, seen: &StringHashSet, Ghost(m): Ghost<Seq<Seq<Seq<char>>>>)
    -> (pool: Vec<String>)
    requires
        forall|l: Seq<char>| seen@.contains(l) <==> joined_somewhere(m, l),
    ensures
        logins(pool@) == logins(wanted@).filter(unjoined(m)),
{
    let mut pool: Vec<String> = Vec::new();
    let mut k: usize = 0;
    proof {
        reveal(Seq::filter);
        assert(logins(wanted@).take(0) =~= Seq::<Seq<char>>::empty());
        assert(logins(pool@) =~= Seq::<Seq<char>>::empty());
    }
    while k < wanted.len()
        invariant
            k <= wanted.len(),
            forall|l: Seq<char>| seen@.contains(l) <==> joined_somewhere(m, l),
            logins(pool@) == logins(wanted@).take(k as int).filter(unjoined(m)),
        decreases wanted.len() - k,
    {
        let w = &wanted[k];
        proof {
            reveal(Seq::filter);
            let all = logins(wanted@);
            assert(all.take(k + 1).drop_last() =~= all.take(k as int));
            assert(all.take(k + 1).last() == w@);
            assert(unjoined(m)(w@) == !joined_somewhere(m, w@));
        }
        if !seen.contains(w.as_str()) {
            proof {
                assert(logins(pool@.push(*w)) =~= logins(pool@).push(w@));
            }
            pool.push(w.clone());
        }
        k += 1;
    }
    proof {
        assert(logins(wanted@).take(wanted@.len() as int) =~= logins(wanted@));
    }
    pool
}

/// The swaps of the sessions take consecutive stretches of the
/// candidates, starting from the first.
pub proof fn lemma_swap_start_step(m: Seq<Seq<Seq<char>>>, d: Seq<Seq<char>>, i: int)
    requires
        0 <= i,
    ensures
        0 <= surplus_before(m, d, i),
        0 <= swap_start(m, d, i) <= candidates(m, d).len(),
        0 <= swap_count(m, d, i),
        swap_start(m, d, i + 1) == swap_start(m, d, i) + swap_count(m, d, i),
    decreases i,
{
    if i > 0 {
        lemma_swap_start_step(m, d, i - 1);
    }
}

/// The further joins of the sessions take consecutive stretches of the
/// candidates, starting after the last swap.
pub proof fn lemma_topup_start_step(m: Seq<Seq<Seq<char>>>, d: Seq<Seq<char>>, c: int, i: int)
    requires
        0 <= i,
    ensures
        0 <= topup_start(m, d, c, i) <= candidates(m, d).len(),
        0 <= topup_count(m, d, c, i),
        topup_start(m, d, c, i + 1) == topup_start(m, d, c, i) + topup_count(m, d, c, i),
    decreases i,
{
    lemma_swap_start_step(m, d, m.len() as int);
    if i > 0 {
        lemma_topup_start_step(m, d, c, i - 1);
    }
}

/// The number of swaps that all sessions make together.
fn count_swaps(to_leave: &Vec<Vec<String>>, limit: usize, Ghost(m): Ghost<Seq<Seq<Seq<char>>>>, Ghost(d): Ghost<Seq<Seq<char>>>)
    -> (n: usize)
    requires
        to_leave@.len() == m.len(),
        limit == candidates(m, d).len(),
        forall|i: int| 0 <= i < m.len() ==> logins(#[trigger] to_leave@[i]@) == surplus(m, d, i),
    ensures
        n == swap_start(m, d, m.len() as int),
{
    let mut n: usize = 0;
    let mut i: usize = 0;
    while i < to_leave.len()
        invariant
            i <= to_leave.len(),
            to_leave@.len() == m.len(),
            limit == candidates(m, d).len(),
            forall|k: int| 0 <= k < m.len() ==> logins(#[trigger] to_leave@[k]@) == surplus(m, d, k),
            n == swap_start(m, d, i as int),
        decreases to_leave.len() - i,
    {
        proof {
            lemma_swap_start_step(m, d, i as int);
            assert(logins(to_leave@[i as int]@).len() == to_leave@[i as int]@.len());
        }
        let more = to_leave[i].len();
        if more >= limit - n {
            n = limit;
        } else {
            n = n + more;
        }
        i += 1;
    }
    n
}

/// Works out, from what each session reports and the channels wanted
/// now, what each session is to do.
///
/// A member stays where it is if it is wanted and no earlier member
/// already stands for it. Every other member is surplus, and is swapped
/// against a wanted channel that nobody has joined, as long as there are
/// any: a session never leaves a channel without joining another. What
/// is then still unjoined goes to the sessions with room below
/// `capacity`, in their order.
pub fn plan_refresh(members: &Vec<Vec<String>>, channels: Vec<String>, capacity: u64) -> (plans:
    Vec<SessionPlan>)
    ensures
        plan_views(plans@) == refresh_plan(
            membership(members@),
            logins(channels@),
            capacity as int,
        ),
{
    let ghost m = membership(members@);
    let ghost d = logins(channels@);
    let ghost c = capacity as int;
    let (wanted, _) = cleanup_channels(channels, 0);
    let mut wanted_set = StringHashSet::with_capacity(wanted.len());
    let mut k: usize = 0;
    while k < wanted.len()
        invariant
            k <= wanted.len(),
            wanted_set@ == logins(wanted@).take(k as int).to_set(),
        decreases wanted.len() - k,
    {
        proof {
            let all = logins(wanted@);
            assert(all.take(k + 1) =~= all.take(k as int).push(wanted@[k as int]@));
            all.take(k as int).lemma_push_to_set_commute(wanted@[k as int]@);
        }
        wanted_set.insert(wanted[k].clone());
        k += 1;
    }
    proof {
        assert(logins(wanted@).take(wanted@.len() as int) =~= logins(wanted@));
    }
    let (to_leave, seen) = find_surplus(members, &wanted_set, Ghost(d));
    let pool = find_candidates(&wanted, &seen, Ghost(m));
    assert(logins(pool@) == candidates(m, d));
    let mut next_top = count_swaps(&to_leave, pool.len(), Ghost(m), Ghost(d));
    let mut next_swap: usize = 0;
    let mut plans: Vec<SessionPlan> = Vec::new();
    let mut i: usize = 0;
    proof {
        lemma_swap_start_step(m, d, 0);
        lemma_topup_start_step(m, d, c, 0);
    }
    while i < members.len()
        invariant
            i <= members.len(),
            m == membership(members@),
            c == capacity as int,
            to_leave@.len() == m.len(),
            forall|k: int| 0 <= k < m.len() ==> logins(#[trigger] to_leave@[k]@) == surplus(m, d, k),
            logins(pool@) == candidates(m, d),
            next_swap == swap_start(m, d, i as int),
            next_top == topup_start(m, d, c, i as int),
            plans@.len() == i,
            forall|k: int| 0 <= k < i ==> (#[trigger] plans@[k])@ == session_plan(m, d, c, k),
        decreases members.len() - i,
    {
        let leaving = &to_leave[i];
        let ghost start = next_swap as int;
        proof {
            lemma_swap_start_step(m, d, i as int);
            lemma_topup_start_step(m, d, c, i as int);
            assert(logins(leaving@) == surplus(m, d, i as int));
            assert(logins(pool@).len() == pool@.len());
            assert(logins(leaving@).len() == leaving@.len());
        }
        let mut swaps: Vec<Swap> = Vec::new();
        let mut t: usize = 0;
        while t < leaving.len() && next_swap < pool.len()
            invariant
                0 <= start,
                t <= leaving.len(),
                next_swap <= pool.len(),
                pool@.len() == candidates(m, d).len(),
                leaving@.len() == surplus(m, d, i as int).len(),
                next_swap == start + t,
                t <= swap_count(m, d, i as int),
                start == swap_start(m, d, i as int),
                logins(pool@) == candidates(m, d),
                logins(leaving@) == surplus(m, d, i as int),
                swap_views(swaps@) == Seq::new(
                    t as nat,
                    |x: int|
                        SwapView {
                            join: candidates(m, d)[swap_start(m, d, i as int) + x],
                            part: surplus(m, d, i as int)[x],
                        },
                ),
            decreases leaving.len() - t,
        {
            let swap = Swap { join: pool[next_swap].clone(), part: leaving[t].clone() };
            proof {
                assert(swap@.join == logins(pool@)[next_swap as int]);
                assert(swap@.part == logins(leaving@)[t as int]);
                assert(swap_views(swaps@.push(swap)) =~= swap_views(swaps@).push(swap@));
                assert(swap_views(swaps@).push(swap@) =~= Seq::new(
                    (t + 1) as nat,
                    |x: int|
                        SwapView {
                            join: candidates(m, d)[swap_start(m, d, i as int) + x],
                            part: surplus(m, d, i as int)[x],
                        },
                ));
            }
            swaps.push(swap);
            next_swap += 1;
            t += 1;
        }
        assert(t == swap_count(m, d, i as int));
        assert(swap_views(swaps@) == session_swaps(m, d, i as int));
        let size = members[i].len();
        let room: u64 = if (size as u64) < capacity {
            capacity - size as u64
        } else {
            0
        };
        proof {
            assert(m[i as int].len() == members@[i as int]@.len());
            assert(room == headroom(m, c, i as int));
        }
        let ghost top = next_top as int;
        let mut joins: Vec<String> = Vec::new();
        while (joins.len() as u64) < room && next_top < pool.len()
            invariant
                0 <= top,
                next_top <= pool.len(),
                pool@.len() == candidates(m, d).len(),
                next_top == top + joins@.len(),
                joins@.len() <= topup_count(m, d, c, i as int),
                top == topup_start(m, d, c, i as int),
                room == headroom(m, c, i as int),
                logins(pool@) == candidates(m, d),
                logins(joins@) == candidates(m, d).subrange(top, top + joins@.len()),
            decreases pool.len() - next_top,
        {
            proof {
                let p = candidates(m, d);
                assert(logins(joins@.push(pool@[next_top as int])) =~= logins(joins@).push(
                    pool@[next_top as int]@,
                ));
                assert(p.subrange(top, top + joins@.len() + 1) =~= p.subrange(
                    top,
                    top + joins@.len(),
                ).push(p[next_top as int]));
                assert(p[next_top as int] == pool@[next_top as int]@);
            }
            joins.push(pool[next_top].clone());
            next_top += 1;
        }
        assert(joins@.len() == topup_count(m, d, c, i as int));
        assert(logins(joins@) == session_joins(m, d, c, i as int));
        plans.push(SessionPlan { swaps, joins });
        i += 1;
    }
    proof {
        assert(m.len() == members@.len());
        assert(plan_views(plans@) =~= refresh_plan(m, d, c));
    }
    plans
}


/// A session's members after it has made `swaps`, each a join followed
/// by a part.
pub open spec fn after_swaps(s: Seq<Seq<char>>, swaps: Seq<SwapView>) -> Seq<Seq<char>>
    decreases swaps.len(),
{
    if swaps.len() == 0 {
        s
    } else {
        parted(joined(after_swaps(s, swaps.drop_last()), swaps.last().join), swaps.last().part)
    }
}

/// A session's members after it has joined `joins`, in order.
pub open spec fn after_joins(s: Seq<Seq<char>>, joins: Seq<Seq<char>>) -> Seq<Seq<char>>
    decreases joins.len(),
{
    if joins.len() == 0 {
        s
    } else {
        joined(after_joins(s, joins.drop_last()), joins.last())
    }
}

/// A session's members after it has carried out its plan.
pub open spec fn after_plan(s: Seq<Seq<char>>, plan: SessionPlanView) -> Seq<Seq<char>> {
    after_joins(after_swaps(s, plan.swaps), plan.joins)
}

/// The members of every session after each has carried out its plan; a
/// session without a plan keeps its members.
pub open spec fn after_refresh(m: Seq<Seq<Seq<char>>>, plans: Seq<SessionPlanView>) -> Seq<
    Seq<Seq<char>>,
> {
    Seq::new(
        m.len(),
        |i: int|
            if i < plans.len() {
                after_plan(m[i], plans[i])
            } else {
                m[i]
            },
    )
}

/// A fleet of sessions that live in memory, each bounded by the same
/// capacity.
pub struct ControllerGroup {
    pub controllers: Vec<TestController>,
    pub max_channels: u64,
    pub channels_per_controller: u64,
}

/// The groups of `m`, each without its repeats.
pub open spec fn each_distinct(m: Seq<Seq<Seq<char>>>) -> Seq<Seq<Seq<char>>> {
    m.map_values(|s: Seq<Seq<char>>| distinct(s))
}

/// A fleet made of the groups of a shuffled list: no session holds more
/// than its share, and where the list had no repeats, no channel is held
/// twice.
pub proof fn lemma_fleet_of_shards(p: Seq<Seq<char>>, s: Seq<Seq<char>>, per: int)
    requires
        per > 0,
        p.to_multiset() == s.to_multiset(),
    ensures
        forall|k: int|
            0 <= k < sharded(p, per).len() ==> (#[trigger] each_distinct(sharded(p, per))[k]).len()
                <= per,
        s.no_duplicates() ==> each_distinct(sharded(p, per)) == sharded(p, per)
            && no_channel_twice(sharded(p, per)),
{
    let g = sharded(p, per);
    lemma_sharded(p, per);
    assert forall|k: int| 0 <= k < g.len() implies (#[trigger] each_distinct(g)[k]).len()
        <= per by {
        lemma_distinct_is_set_preserving(g[k]);
    }
    if s.no_duplicates() {
        lemma_reordered_is_distinct(p, s);
        assert forall|k: int| 0 <= k < g.len() implies #[trigger] each_distinct(g)[k] == g[k] by {
            assert forall|x: int, y: int| 0 <= x < g[k].len() && 0 <= y < g[k].len() && x
                != y implies g[k][x] != g[k][y] by {}
            lemma_distinct_of_distinct(g[k]);
        }
        assert(each_distinct(g) =~= g);
    }
}

impl ControllerGroup {
    /// What each session has joined, session by session.
    pub open spec fn members(&self) -> Seq<Seq<Seq<char>>> {
        self.controllers@.map_values(|c: TestController| c@)
    }

    /// A fleet for `chans`: the channels go to the sessions in a random
    /// order, `channels_per_controller` to each session and what is
    /// left to the last. A session holds a channel once, however often
    /// its share names it.
    pub fn init_inner(chans: Vec<String>, max_channels: u64, channels_per_controller: u64) -> (g:
        ControllerGroup)
        requires
            channels_per_controller > 0,
        ensures
            g.max_channels == max_channels,
            g.channels_per_controller == channels_per_controller,
            exists|p: Seq<Seq<char>>|
                p.to_multiset() == logins(chans@).to_multiset() && g.members() == each_distinct(
                    sharded(p, channels_per_controller as int),
                ),
            forall|k: int|
                0 <= k < g.members().len() ==> (#[trigger] g.members()[k]).len()
                    <= channels_per_controller,
            logins(chans@).no_duplicates() ==> no_channel_twice(g.members()),
    {
        let groups = shuffled_shards(chans, channels_per_controller);
        let ghost p = choose|p: Seq<Seq<char>>|
            p.to_multiset() == logins(chans@).to_multiset() && membership(groups@) == sharded(
                p,
                channels_per_controller as int,
            );
        let ghost want = each_distinct(sharded(p, channels_per_controller as int));
        let mut controllers: Vec<TestController> = Vec::new();
        let mut i: usize = 0;
        while i < groups.len()
            invariant
                i <= groups.len(),
                membership(groups@) == sharded(p, channels_per_controller as int),
                want == each_distinct(sharded(p, channels_per_controller as int)),
                controllers@.len() == i,
                forall|k: int| 0 <= k < i ==> (#[trigger] controllers@[k])@ == want[k],
            decreases groups.len() - i,
        {
            let share = copy_list(&groups[i]);
            proof {
                assert(membership(groups@)[i as int] == logins(groups@[i as int]@));
            }
            controllers.push(TestController::init(share));
            i += 1;
        }
        let g = ControllerGroup { controllers, max_channels, channels_per_controller };
        proof {
            assert(membership(groups@).len() == groups@.len());
            assert(g.members() =~= want);
            lemma_fleet_of_shards(p, logins(chans@), channels_per_controller as int);
        }
        g
    }

    /// A fleet for `channels` that expects as many channels as it is
    /// given.
    pub fn init_simple(channels: Vec<String>, channels_per_controller: u64) -> (g: ControllerGroup)
        requires
            channels_per_controller > 0,
        ensures
            g.max_channels == channels@.len(),
            g.channels_per_controller == channels_per_controller,
            exists|p: Seq<Seq<char>>|
                p.to_multiset() == logins(channels@).to_multiset() && g.members()
                    == each_distinct(sharded(p, channels_per_controller as int)),
            forall|k: int|
                0 <= k < g.members().len() ==> (#[trigger] g.members()[k]).len()
                    <= channels_per_controller,
            logins(channels@).no_duplicates() ==> no_channel_twice(g.members()),
    {
        let expected = channels.len() as u64;
        Self::init_inner(channels, expected, channels_per_controller)
    }

    /// What each session reports, session by session.
    pub fn list_channels(&self) -> (r: Vec<Vec<String>>)
        ensures
            membership(r@) == self.members(),
            sessions_are_sets(self.members()),
    {
        let mut out: Vec<Vec<String>> = Vec::new();
        let mut i: usize = 0;
        while i < self.controllers.len()
            invariant
                i <= self.controllers.len(),
                membership(out@) == self.members().take(i as int),
                forall|k: int| 0 <= k < i ==> (#[trigger] self.members()[k]).no_duplicates(),
            decreases self.controllers.len() - i,
        {
            let l = self.controllers[i].list().unwrap();
            proof {
                assert(membership(out@.push(l)) =~= membership(out@).push(logins(l@)));
                assert(self.members().take(i + 1) =~= self.members().take(i as int).push(
                    self.controllers@[i as int]@,
                ));
            }
            out.push(l);
            i += 1;
        }
        proof {
            assert(self.members().take(self.controllers@.len() as int) =~= self.members());
        }
        out
    }

    /// Has every session carry out its plan: the actions of the plans
    /// are asked of the sessions one after the other, first each
    /// session's swaps, then each session's further joins. What is asked
    /// of a session that is not there is passed over.
    pub fn execute(&mut self, plans: &Vec<SessionPlan>)
        ensures
            final(self).members() == after_actions(
                old(self).members(),
                actions_of(plan_views(plans@)),
            ),
            final(self).members() == after_refresh(old(self).members(), plan_views(plans@)),
            final(self).max_channels == old(self).max_channels,
            final(self).channels_per_controller == old(self).channels_per_controller,
    {
        let ghost m = self.members();
        let actions = plan_actions(plans);
        let ghost acts = action_views(actions@);
        let mut k: usize = 0;
        proof {
            assert(acts.take(0) =~= Seq::<ActionView>::empty());
        }
        while k < actions.len()
            invariant
                k <= actions.len(),
                acts == action_views(actions@),
                self.members() == after_actions(m, acts.take(k as int)),
                self.max_channels == old(self).max_channels,
                self.channels_per_controller == old(self).channels_per_controller,
            decreases actions.len() - k,
        {
            let ghost before = self.members();
            proof {
                assert(acts.take(k + 1).drop_last() =~= acts.take(k as int));
                assert(acts.take(k + 1).last() == actions@[k as int]@);
            }
            match &actions[k] {
                Action::Join { session, channel } => {
                    if *session < self.controllers.len() {
                        let _ = self.controllers[*session].join(channel.clone());
                        proof {
                            assert(self.members() =~= before.update(
                                *session as int,
                                joined(before[*session as int], channel@),
                            ));
                        }
                    }
                },
                Action::Part { session, channel } => {
                    if *session < self.controllers.len() {
                        let _ = self.controllers[*session].part(channel.clone());
                        proof {
                            assert(self.members() =~= before.update(
                                *session as int,
                                parted(before[*session as int], channel@),
                            ));
                        }
                    }
                },
            }
            k += 1;
        }
        proof {
            assert(acts.take(actions@.len() as int) =~= acts);
            lemma_actions_carry_out_plans(m, plan_views(plans@));
        }
    }

    /// One pass of reconciliation against `channels`: plans it from
    /// what the sessions report, has them carry it out, and returns what
    /// each session was asked to do.
    ///
    /// No session is smaller after the pass than before. Every wanted
    /// channel is joined afterwards if the wanted channels are no more
    /// than the sessions can hold together; if one is left out, every
    /// session is filled to the capacity.
    pub fn refresh_channels_inner(&mut self, channels: Vec<String>) -> (plans: Vec<SessionPlan>)
        ensures
            plan_views(plans@) == refresh_plan(
                old(self).members(),
                logins(channels@),
                old(self).channels_per_controller as int,
            ),
            final(self).members() == after_refresh(old(self).members(), plan_views(plans@)),
            final(self).max_channels == old(self).max_channels,
            final(self).channels_per_controller == old(self).channels_per_controller,
            distinct(logins(channels@)).len() <= old(self).members().len() * old(
                self,
            ).channels_per_controller ==> forall|x: Seq<char>|
                logins(channels@).contains(x) ==> joined_somewhere(final(self).members(), x),
            (forall|x: Seq<char>|
                logins(channels@).contains(x) ==> joined_somewhere(final(self).members(), x)) || (
            forall|i: int|
                0 <= i < final(self).members().len() ==> (#[trigger] final(self).members()[i]).len()
                    >= old(self).channels_per_controller),
            forall|i: int|
                0 <= i < final(self).members().len() ==> (#[trigger] final(self).members()[i]).len()
                    >= old(self).members()[i].len(),
    {
        let reported = self.list_channels();
        let plans = plan_refresh(&reported, channels, self.channels_per_controller);
        proof {
            let m = self.members();
            let d = logins(channels@);
            let c = self.channels_per_controller as int;
            if distinct(d).len() <= m.len() * c {
                lemma_refresh_joins_every_wanted(m, d, c);
            }
            lemma_refresh_joins_all_or_fills_all(m, d, c);
        }
        self.execute(&plans);
        plans
    }
}

} // verus!
