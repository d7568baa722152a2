//! What holds of every pass of reconciliation.

use crate::channels::{
    distinct, lemma_distinct_is_set_preserving, no_channel_twice, sessions_are_sets,
};
use crate::controller::{joined, lemma_filter_keeps, other_than, parted};
use crate::fleet::{
    after_joins, after_plan, after_refresh, after_swaps, candidates, headroom, joined_before,
    joined_somewhere, lemma_swap_start_step, lemma_topup_start_step, refresh_plan, session_joins,
    session_plan, session_swaps, stays, surplus, surplus_before, surplus_upto, swap_count,
    swap_start, topup_count, topup_start, unjoined, SwapView,
};
use vstd::prelude::*;

verus! {

/// A candidate is wanted, is joined by no session, and occurs once.
pub proof fn lemma_candidates(m: Seq<Seq<Seq<char>>>, d: Seq<Seq<char>>)
    ensures
        forall|x: Seq<char>| #[trigger]
            candidates(m, d).contains(x) <==> (d.contains(x) && !joined_somewhere(m, x)),
        candidates(m, d).no_duplicates(),
{
    lemma_distinct_is_set_preserving(d);
    lemma_filter_keeps(distinct(d), unjoined(m));
    assert forall|x: Seq<char>| #[trigger]
        candidates(m, d).contains(x) <==> (d.contains(x) && !joined_somewhere(m, x)) by {
        assert(distinct(d).to_set().contains(x) <==> d.to_set().contains(x));
        assert(unjoined(m)(x) == !joined_somewhere(m, x));
    }
}

/// Sessions further on start further on among the candidates.
pub proof fn lemma_starts_grow(m: Seq<Seq<Seq<char>>>, d: Seq<Seq<char>>, c: int, i: int, j: int)
    requires
        0 <= i <= j,
    ensures
        surplus_before(m, d, i) <= surplus_before(m, d, j),
        swap_start(m, d, i) + swap_count(m, d, i) <= swap_start(m, d, j) || i == j,
        swap_start(m, d, i) <= swap_start(m, d, j),
        topup_start(m, d, c, i) + topup_count(m, d, c, i) <= topup_start(m, d, c, j) || i == j,
        topup_start(m, d, c, i) <= topup_start(m, d, c, j),
        swap_start(m, d, j) <= topup_start(m, d, c, 0) || j > m.len(),
    decreases j - i,
{
    lemma_swap_start_step(m, d, i);
    lemma_topup_start_step(m, d, c, i);
    if i < j {
        lemma_starts_grow(m, d, c, i + 1, j);
    }
    if j <= m.len() {
        lemma_surplus_before_grows(m, d, j, m.len() as int);
    }
}

/// The surplus counted up to a session grows with the session.
pub proof fn lemma_surplus_before_grows(m: Seq<Seq<Seq<char>>>, d: Seq<Seq<char>>, i: int, j: int)
    requires
        0 <= i <= j,
    ensures
        surplus_before(m, d, i) <= surplus_before(m, d, j),
    decreases j - i,
{
    if i < j {
        lemma_surplus_before_grows(m, d, i, j - 1);
    }
}

/// Idempotence: when every wanted channel is joined by some session
/// already, as it is when the wanted channels are exactly the channels
/// joined, a pass asks no session to join or leave anything.
pub proof fn lemma_settled_fleet_is_left_alone(
    m: Seq<Seq<Seq<char>>>,
    d: Seq<Seq<char>>,
    c: int,
    i: int,
)
    requires
        forall|l: Seq<char>| d.contains(l) ==> joined_somewhere(m, l),
        0 <= i < m.len(),
    ensures
        refresh_plan(m, d, c)[i].swaps.len() == 0,
        refresh_plan(m, d, c)[i].joins.len() == 0,
{
    lemma_candidates(m, d);
    let pool = candidates(m, d);
    if pool.len() > 0 {
        assert(pool.contains(pool[0]));
    }
    lemma_swap_start_step(m, d, i);
    lemma_topup_start_step(m, d, c, i);
}

/// No part without a join: every swap of a pass parts a surplus member
/// of its session and joins, in its place, a channel that is wanted and
/// that no session had joined.
pub proof fn lemma_every_part_has_a_replacement(
    m: Seq<Seq<Seq<char>>>,
    d: Seq<Seq<char>>,
    i: int,
    t: int,
)
    requires
        0 <= i < m.len(),
        0 <= t < session_swaps(m, d, i).len(),
    ensures
        t < surplus(m, d, i).len(),
        session_swaps(m, d, i)[t].part == surplus(m, d, i)[t],
        0 <= swap_start(m, d, i) + t < candidates(m, d).len(),
        session_swaps(m, d, i)[t].join == candidates(m, d)[swap_start(m, d, i) + t],
        d.contains(session_swaps(m, d, i)[t].join),
        !joined_somewhere(m, session_swaps(m, d, i)[t].join),
{
    lemma_swap_start_step(m, d, i);
    lemma_candidates(m, d);
    let k = swap_start(m, d, i) + t;
    assert(candidates(m, d).contains(candidates(m, d)[k]));
}

/// No replacement serves twice: two different swaps of a pass join
/// different channels.
pub proof fn lemma_replacements_differ(
    m: Seq<Seq<Seq<char>>>,
    d: Seq<Seq<char>>,
    i: int,
    t: int,
    j: int,
    u: int,
)
    requires
        0 <= i < m.len(),
        0 <= j < m.len(),
        0 <= t < session_swaps(m, d, i).len(),
        0 <= u < session_swaps(m, d, j).len(),
        i != j || t != u,
    ensures
        session_swaps(m, d, i)[t].join != session_swaps(m, d, j)[u].join,
{
    lemma_candidates(m, d);
    lemma_swap_start_step(m, d, i);
    lemma_swap_start_step(m, d, j);
    if i < j {
        lemma_starts_grow(m, d, 0, i, j);
    } else if j < i {
        lemma_starts_grow(m, d, 0, j, i);
    }
}

/// No session stays idle while candidates are left: if a pass leaves a
/// candidate unjoined, then it has filled every session to the capacity.
pub proof fn lemma_full_when_candidates_are_left(
    m: Seq<Seq<Seq<char>>>,
    d: Seq<Seq<char>>,
    c: int,
    i: int,
)
    requires
        0 <= i < m.len(),
        topup_start(m, d, c, m.len() as int) < candidates(m, d).len(),
    ensures
        m[i].len() + session_joins(m, d, c, i).len() >= c,
        session_joins(m, d, c, i).len() == headroom(m, c, i),
{
    lemma_topup_start_step(m, d, c, i);
    lemma_starts_grow(m, d, c, i + 1, m.len() as int);
}


/// Some swap of `swaps` joins `x`.
pub open spec fn swaps_join(swaps: Seq<SwapView>, x: Seq<char>) -> bool {
    exists|t: int| 0 <= t < swaps.len() && (#[trigger] swaps[t]).join == x
}

/// Some swap of `swaps` parts `x`.
pub open spec fn swaps_part(swaps: Seq<SwapView>, x: Seq<char>) -> bool {
    exists|t: int| 0 <= t < swaps.len() && (#[trigger] swaps[t]).part == x
}

/// What a session holds after joining or leaving one channel.
pub proof fn lemma_joined_parted(s: Seq<Seq<char>>, l: Seq<char>)
    ensures
        forall|x: Seq<char>| #[trigger] joined(s, l).contains(x) <==> (s.contains(x) || x == l),
        forall|x: Seq<char>| #[trigger] parted(s, l).contains(x) <==> (s.contains(x) && x != l),
        s.no_duplicates() ==> joined(s, l).no_duplicates() && parted(s, l).no_duplicates(),
{
    lemma_filter_keeps(s, other_than(l));
    assert forall|x: Seq<char>| #[trigger] parted(s, l).contains(x) <==> (s.contains(x) && x
        != l) by {
        assert(other_than(l)(x) == (x != l));
    }
    assert forall|x: Seq<char>| #[trigger] joined(s, l).contains(x) <==> (s.contains(x) || x
        == l) by {
        if !s.contains(l) {
            let r = s.push(l);
            if r.contains(x) {
                let k = choose|k: int| 0 <= k < r.len() && r[k] == x;
                if k < s.len() {
                    assert(s[k] == x);
                }
            }
            if s.contains(x) {
                let k = choose|k: int| 0 <= k < s.len() && s[k] == x;
                assert(r[k] == x);
            }
            if x == l {
                assert(r[s.len() as int] == x);
            }
        }
    }
}

/// What a session holds after its swaps, where no swap joins a channel
/// that a swap parts: what it held or joined, but for what it parted.
pub proof fn lemma_after_swaps(s: Seq<Seq<char>>, swaps: Seq<SwapView>)
    requires
        forall|x: Seq<char>| swaps_join(swaps, x) ==> !swaps_part(swaps, x),
    ensures
        forall|x: Seq<char>| #[trigger]
            after_swaps(s, swaps).contains(x) <==> ((s.contains(x) || swaps_join(swaps, x))
                && !swaps_part(swaps, x)),
        s.no_duplicates() ==> after_swaps(s, swaps).no_duplicates(),
    decreases swaps.len(),
{
    if swaps.len() > 0 {
        let front = swaps.drop_last();
        let last = swaps.last();
        assert forall|x: Seq<char>| swaps_join(front, x) implies swaps_join(swaps, x) by {
            let t = choose|t: int| 0 <= t < front.len() && (#[trigger] front[t]).join == x;
            assert(swaps[t].join == x);
        }
        assert forall|x: Seq<char>| swaps_part(front, x) implies swaps_part(swaps, x) by {
            let t = choose|t: int| 0 <= t < front.len() && (#[trigger] front[t]).part == x;
            assert(swaps[t].part == x);
        }
        lemma_after_swaps(s, front);
        let r = after_swaps(s, front);
        lemma_joined_parted(r, last.join);
        lemma_joined_parted(joined(r, last.join), last.part);
        assert forall|x: Seq<char>| #[trigger]
            after_swaps(s, swaps).contains(x) <==> ((s.contains(x) || swaps_join(swaps, x))
                && !swaps_part(swaps, x)) by {
            assert(swaps[swaps.len() - 1] == last);
            if swaps_join(swaps, x) {
                let t = choose|t: int| 0 <= t < swaps.len() && (#[trigger] swaps[t]).join == x;
                if t < front.len() {
                    assert(front[t].join == x);
                }
            }
            if swaps_part(swaps, x) {
                let t = choose|t: int| 0 <= t < swaps.len() && (#[trigger] swaps[t]).part == x;
                if t < front.len() {
                    assert(front[t].part == x);
                }
            }
            if x == last.join {
                assert(swaps_join(swaps, x));
            }
            if x == last.part {
                assert(swaps_part(swaps, x));
            }
        }
    }
}

/// What a session holds after further joins: what it held, and what it
/// joined.
pub proof fn lemma_after_joins(s: Seq<Seq<char>>, joins: Seq<Seq<char>>)
    ensures
        forall|x: Seq<char>| #[trigger]
            after_joins(s, joins).contains(x) <==> (s.contains(x) || joins.contains(x)),
        s.no_duplicates() ==> after_joins(s, joins).no_duplicates(),
    decreases joins.len(),
{
    if joins.len() > 0 {
        let front = joins.drop_last();
        lemma_after_joins(s, front);
        lemma_joined_parted(after_joins(s, front), joins.last());
        assert forall|x: Seq<char>| #[trigger]
            after_joins(s, joins).contains(x) <==> (s.contains(x) || joins.contains(x)) by {
            if joins.contains(x) {
                let k = choose|k: int| 0 <= k < joins.len() && joins[k] == x;
                if k < front.len() {
                    assert(front[k] == x);
                }
            }
            if front.contains(x) {
                let k = choose|k: int| 0 <= k < front.len() && front[k] == x;
                assert(joins[k] == x);
            }
            if x == joins.last() {
                assert(joins[joins.len() - 1] == x);
            }
        }
    }
}

/// The surplus of a session is made of its members that do not stay.
pub proof fn lemma_surplus_members(m: Seq<Seq<Seq<char>>>, d: Seq<Seq<char>>, i: int, n: int)
    requires
        0 <= i < m.len(),
        0 <= n <= m[i].len(),
    ensures
        forall|x: Seq<char>| #[trigger]
            surplus_upto(m, d, i, n).contains(x) <==> exists|b: int|
                0 <= b < n && #[trigger] m[i][b] == x && !stays(m, d, i, b),
    decreases n,
{
    if n > 0 {
        lemma_surplus_members(m, d, i, n - 1);
        let front = surplus_upto(m, d, i, n - 1);
        let all = surplus_upto(m, d, i, n);
        assert forall|x: Seq<char>| #[trigger]
            all.contains(x) <==> exists|b: int|
                0 <= b < n && #[trigger] m[i][b] == x && !stays(m, d, i, b) by {
            if all.contains(x) {
                let k = choose|k: int| 0 <= k < all.len() && all[k] == x;
                if k < front.len() {
                    assert(front[k] == x);
                    assert(front.contains(x));
                    let b = choose|b: int|
                        0 <= b < n - 1 && #[trigger] m[i][b] == x && !stays(m, d, i, b);
                    assert(0 <= b < n && m[i][b] == x && !stays(m, d, i, b));
                } else {
                    assert(m[i][n - 1] == x && !stays(m, d, i, n - 1));
                }
            }
            if exists|b: int| 0 <= b < n && #[trigger] m[i][b] == x && !stays(m, d, i, b) {
                let b = choose|b: int|
                    0 <= b < n && #[trigger] m[i][b] == x && !stays(m, d, i, b);
                if b < n - 1 {
                    assert(front.contains(x));
                    let k = choose|k: int| 0 <= k < front.len() && front[k] == x;
                    assert(all[k] == x);
                } else {
                    assert(all[front.len() as int] == x);
                }
            }
        }
    }
}


/// The session whose swaps take candidate `k`.
pub proof fn lemma_swap_owner(m: Seq<Seq<Seq<char>>>, d: Seq<Seq<char>>, k: int, n: int) -> (i:
    int)
    requires
        0 <= n,
        0 <= k < swap_start(m, d, n),
    ensures
        0 <= i < n,
        swap_start(m, d, i) <= k < swap_start(m, d, i) + swap_count(m, d, i),
    decreases n,
{
    if n == 0 {
        0
    } else {
        lemma_swap_start_step(m, d, n - 1);
        if k >= swap_start(m, d, n - 1) {
            n - 1
        } else {
            lemma_swap_owner(m, d, k, n - 1)
        }
    }
}

/// The session whose further joins take candidate `k`.
pub proof fn lemma_topup_owner(m: Seq<Seq<Seq<char>>>, d: Seq<Seq<char>>, c: int, k: int, n: int)
    -> (i: int)
    requires
        0 <= n,
        topup_start(m, d, c, 0) <= k < topup_start(m, d, c, n),
    ensures
        0 <= i < n,
        topup_start(m, d, c, i) <= k < topup_start(m, d, c, i) + topup_count(m, d, c, i),
    decreases n,
{
    if n == 0 {
        0
    } else {
        lemma_topup_start_step(m, d, c, n - 1);
        if k >= topup_start(m, d, c, n - 1) {
            n - 1
        } else {
            lemma_topup_owner(m, d, c, k, n - 1)
        }
    }
}

/// What a session holds after a pass: the members it did not part, the
/// channels its swaps joined and the channels it joined on top.
pub proof fn lemma_session_after(m: Seq<Seq<Seq<char>>>, d: Seq<Seq<char>>, c: int, i: int)
    requires
        0 <= i < m.len(),
    ensures
        forall|x: Seq<char>| #[trigger]
            after_plan(m[i], session_plan(m, d, c, i)).contains(x) <==> ((m[i].contains(x)
                && !swaps_part(session_swaps(m, d, i), x)) || swaps_join(
                session_swaps(m, d, i),
                x,
            ) || session_joins(m, d, c, i).contains(x)),
        forall|x: Seq<char>| #[trigger]
            swaps_join(session_swaps(m, d, i), x) ==> candidates(m, d).contains(x),
        forall|x: Seq<char>|
            session_joins(m, d, c, i).contains(x) ==> #[trigger] candidates(m, d).contains(x),
        forall|x: Seq<char>| #[trigger]
            swaps_part(session_swaps(m, d, i), x) ==> m[i].contains(x),
        m[i].no_duplicates() ==> after_plan(m[i], session_plan(m, d, c, i)).no_duplicates(),
{
    let swaps = session_swaps(m, d, i);
    let joins = session_joins(m, d, c, i);
    let pool = candidates(m, d);
    lemma_candidates(m, d);
    lemma_swap_start_step(m, d, i);
    lemma_topup_start_step(m, d, c, i);
    lemma_surplus_members(m, d, i, m[i].len() as int);
    assert forall|x: Seq<char>| #[trigger] swaps_join(swaps, x) implies pool.contains(x) by {
        let t = choose|t: int| 0 <= t < swaps.len() && (#[trigger] swaps[t]).join == x;
        assert(pool[swap_start(m, d, i) + t] == x);
    }
    assert forall|x: Seq<char>| joins.contains(x) implies #[trigger] pool.contains(x) by {
        let t = choose|t: int| 0 <= t < joins.len() && joins[t] == x;
        assert(pool[topup_start(m, d, c, i) + t] == x);
    }
    assert forall|x: Seq<char>| #[trigger] swaps_part(swaps, x) implies m[i].contains(x) by {
        let t = choose|t: int| 0 <= t < swaps.len() && (#[trigger] swaps[t]).part == x;
        assert(surplus(m, d, i)[t] == x);
        assert(surplus_upto(m, d, i, m[i].len() as int).contains(x));
        let b = choose|b: int|
            0 <= b < m[i].len() && #[trigger] m[i][b] == x && !stays(m, d, i, b);
        assert(m[i][b] == x);
    }
    assert forall|x: Seq<char>| swaps_join(swaps, x) implies !swaps_part(swaps, x) by {
        if swaps_part(swaps, x) {
            assert(m[i].contains(x));
            let b = choose|b: int| 0 <= b < m[i].len() && m[i][b] == x;
            assert(m[i][b] == x);
            assert(joined_somewhere(m, x));
            assert(pool.contains(x));
        }
    }
    lemma_after_swaps(m[i], swaps);
    lemma_after_joins(after_swaps(m[i], swaps), joins);
}

/// Where every surplus member finds a replacement, a session keeps
/// only wanted channels.
pub proof fn lemma_only_wanted_remain(
    m: Seq<Seq<Seq<char>>>,
    d: Seq<Seq<char>>,
    c: int,
    i: int,
    x: Seq<char>,
)
    requires
        0 <= i < m.len(),
        surplus_before(m, d, m.len() as int) <= candidates(m, d).len(),
        after_plan(m[i], session_plan(m, d, c, i)).contains(x),
    ensures
        d.contains(x),
{
    lemma_session_after(m, d, c, i);
    lemma_candidates(m, d);
    let swaps = session_swaps(m, d, i);
    if swaps_join(swaps, x) {
        assert(candidates(m, d).contains(x));
    } else if session_joins(m, d, c, i).contains(x) {
        assert(candidates(m, d).contains(x));
    } else {
        assert(m[i].contains(x) && !swaps_part(swaps, x));
        let b = choose|b: int| 0 <= b < m[i].len() && m[i][b] == x;
        if !stays(m, d, i, b) {
            lemma_surplus_members(m, d, i, m[i].len() as int);
            assert(m[i][b] == x);
            let sur = surplus(m, d, i);
            assert(sur.contains(x));
            let t = choose|t: int| 0 <= t < sur.len() && sur[t] == x;
            lemma_swap_start_step(m, d, i);
            lemma_surplus_before_grows(m, d, i + 1, m.len() as int);
            assert(swap_count(m, d, i) == sur.len());
            assert(swaps[t].part == x);
        }
    }
}

/// Where no channel is reported twice, no session reports one twice.
pub proof fn lemma_apart_sessions_are_sets(m: Seq<Seq<Seq<char>>>)
    requires
        no_channel_twice(m),
    ensures
        sessions_are_sets(m),
{
    assert forall|k: int| 0 <= k < m.len() implies (#[trigger] m[k]).no_duplicates() by {
        assert forall|p: int, q: int| 0 <= p < m[k].len() && 0 <= q < m[k].len() && p
            != q implies m[k][p] != m[k][q] by {}
    }
}

/// Where no session reports a channel twice and there is room for every
/// candidate, every wanted channel is held by some session after the
/// pass.
pub proof fn lemma_every_wanted_is_joined(
    m: Seq<Seq<Seq<char>>>,
    d: Seq<Seq<char>>,
    c: int,
    x: Seq<char>,
) -> (i: int)
    requires
        sessions_are_sets(m),
        topup_start(m, d, c, m.len() as int) == candidates(m, d).len(),
        d.contains(x),
    ensures
        0 <= i < m.len(),
        after_plan(m[i], session_plan(m, d, c, i)).contains(x),
{
    lemma_candidates(m, d);
    let pool = candidates(m, d);
    if joined_somewhere(m, x) {
        let (a1, b1) = choose|a1: int, b1: int|
            0 <= a1 < m.len() && 0 <= b1 < m[a1].len() && #[trigger] m[a1][b1] == x;
        let first = lemma_first_holder_stays(m, d, x, a1, b1);
        let a = first.0;
        let b = first.1;
        lemma_session_after(m, d, c, a);
        let swaps = session_swaps(m, d, a);
        assert(m[a].no_duplicates());
        assert(stays(m, d, a, b));
        if swaps_part(swaps, x) {
            let t = choose|t: int| 0 <= t < swaps.len() && (#[trigger] swaps[t]).part == x;
            lemma_swap_start_step(m, d, a);
            lemma_surplus_members(m, d, a, m[a].len() as int);
            assert(surplus(m, d, a)[t] == x);
            assert(surplus_upto(m, d, a, m[a].len() as int).contains(x));
            let b2 = choose|b2: int|
                0 <= b2 < m[a].len() && #[trigger] m[a][b2] == x && !stays(m, d, a, b2);
            assert(m[a][b] != m[a][b2]);
        }
        assert(m[a][b] == x);
        assert(m[a].contains(x));
        assert(!swaps_part(swaps, x));
        a
    } else {
        assert(pool.contains(x));
        let k = choose|k: int| 0 <= k < pool.len() && pool[k] == x;
        if k < swap_start(m, d, m.len() as int) {
            let i = lemma_swap_owner(m, d, k, m.len() as int);
            lemma_session_after(m, d, c, i);
            lemma_swap_start_step(m, d, i);
            let t = k - swap_start(m, d, i);
            assert(session_swaps(m, d, i)[t].join == x);
            assert(swaps_join(session_swaps(m, d, i), x));
            i
        } else {
            let i = lemma_topup_owner(m, d, c, k, m.len() as int);
            lemma_session_after(m, d, c, i);
            lemma_topup_start_step(m, d, c, i);
            lemma_topup_start_step(m, d, c, i + 1);
            let t = k - topup_start(m, d, c, i);
            assert(session_joins(m, d, c, i)[t] == x);
            assert(session_joins(m, d, c, i).contains(x));
            i
        }
    }
}


/// Session `i` joins candidate `k`, in a swap or on top.
pub open spec fn takes(m: Seq<Seq<Seq<char>>>, d: Seq<Seq<char>>, c: int, i: int, k: int) -> bool {
    ||| swap_start(m, d, i) <= k < swap_start(m, d, i) + swap_count(m, d, i)
    ||| topup_start(m, d, c, i) <= k < topup_start(m, d, c, i) + topup_count(m, d, c, i)
}

/// No candidate goes to two sessions.
pub proof fn lemma_one_taker(
    m: Seq<Seq<Seq<char>>>,
    d: Seq<Seq<char>>,
    c: int,
    i: int,
    j: int,
    k: int,
)
    requires
        0 <= i < m.len(),
        0 <= j < m.len(),
        takes(m, d, c, i, k),
        takes(m, d, c, j, k),
    ensures
        i == j,
{
    let n = m.len() as int;
    lemma_swap_start_step(m, d, i);
    lemma_swap_start_step(m, d, j);
    lemma_topup_start_step(m, d, c, i);
    lemma_topup_start_step(m, d, c, j);
    lemma_starts_grow(m, d, c, i + 1, n);
    lemma_starts_grow(m, d, c, j + 1, n);
    lemma_starts_grow(m, d, c, 0, i);
    lemma_starts_grow(m, d, c, 0, j);
    if i < j {
        lemma_starts_grow(m, d, c, i, j);
    } else if j < i {
        lemma_starts_grow(m, d, c, j, i);
    }
}

/// A channel that a session holds after a pass without having held it
/// before is a candidate that the session took.
pub proof fn lemma_newcomer_was_taken(
    m: Seq<Seq<Seq<char>>>,
    d: Seq<Seq<char>>,
    c: int,
    i: int,
    x: Seq<char>,
) -> (k: int)
    requires
        0 <= i < m.len(),
        after_plan(m[i], session_plan(m, d, c, i)).contains(x),
        !m[i].contains(x),
    ensures
        0 <= k < candidates(m, d).len(),
        candidates(m, d)[k] == x,
        takes(m, d, c, i, k),
{
    lemma_session_after(m, d, c, i);
    lemma_swap_start_step(m, d, i);
    lemma_topup_start_step(m, d, c, i);
    lemma_topup_start_step(m, d, c, i + 1);
    let swaps = session_swaps(m, d, i);
    let joins = session_joins(m, d, c, i);
    if swaps_join(swaps, x) {
        let t = choose|t: int| 0 <= t < swaps.len() && (#[trigger] swaps[t]).join == x;
        swap_start(m, d, i) + t
    } else {
        assert(joins.contains(x));
        let t = choose|t: int| 0 <= t < joins.len() && joins[t] == x;
        topup_start(m, d, c, i) + t
    }
}

/// A pass keeps the sessions apart: where no channel was reported twice
/// before it, none is held twice after it.
pub proof fn lemma_refresh_keeps_sessions_apart(
    m: Seq<Seq<Seq<char>>>,
    d: Seq<Seq<char>>,
    c: int,
)
    requires
        no_channel_twice(m),
    ensures
        no_channel_twice(after_refresh(m, refresh_plan(m, d, c))),
{
    let after = after_refresh(m, refresh_plan(m, d, c));
    lemma_candidates(m, d);
    let pool = candidates(m, d);
    assert forall|a: int, b: int, a2: int, b2: int|
        0 <= a < after.len() && 0 <= b < after[a].len() && 0 <= a2 < after.len() && 0 <= b2
            < after[a2].len() && (a != a2 || b != b2) implies #[trigger] after[a][b]
        != #[trigger] after[a2][b2] by {
        let x = after[a][b];
        if after[a2][b2] == x {
            lemma_session_after(m, d, c, a);
            lemma_session_after(m, d, c, a2);
            assert(after[a] == after_plan(m[a], session_plan(m, d, c, a)));
            assert(after[a2] == after_plan(m[a2], session_plan(m, d, c, a2)));
            assert(m[a].no_duplicates()) by {
                assert forall|p: int, q: int| 0 <= p < m[a].len() && 0 <= q < m[a].len() && p
                    != q implies m[a][p] != m[a][q] by {}
            }
            if a == a2 {
                assert(after[a].no_duplicates());
            } else {
                assert(after[a].contains(x));
                assert(after[a2].contains(x));
                if m[a].contains(x) {
                    let p = choose|p: int| 0 <= p < m[a].len() && m[a][p] == x;
                    assert(m[a][p] == x);
                    assert(joined_somewhere(m, x));
                    if m[a2].contains(x) {
                        let q = choose|q: int| 0 <= q < m[a2].len() && m[a2][q] == x;
                        assert(m[a][p] != m[a2][q]);
                    } else {
                        let k = lemma_newcomer_was_taken(m, d, c, a2, x);
                        assert(pool.contains(pool[k]));
                    }
                } else {
                    let k = lemma_newcomer_was_taken(m, d, c, a, x);
                    assert(pool.contains(pool[k]));
                    if m[a2].contains(x) {
                        let q = choose|q: int| 0 <= q < m[a2].len() && m[a2][q] == x;
                        assert(m[a2][q] == x);
                        assert(joined_somewhere(m, x));
                    } else {
                        let k2 = lemma_newcomer_was_taken(m, d, c, a2, x);
                        assert(k == k2);
                        lemma_one_taker(m, d, c, a, a2, k);
                    }
                }
            }
        }
    }
}

/// Conservation: where no channel is reported twice, every surplus
/// member finds a replacement and the sessions have room for every
/// candidate, the sessions hold after the pass exactly the wanted
/// channels, and none of them twice.
pub proof fn lemma_refresh_reaches_wanted(m: Seq<Seq<Seq<char>>>, d: Seq<Seq<char>>, c: int)
    requires
        no_channel_twice(m),
        surplus_before(m, d, m.len() as int) <= candidates(m, d).len(),
        topup_start(m, d, c, m.len() as int) == candidates(m, d).len(),
    ensures
        forall|x: Seq<char>|
            joined_somewhere(after_refresh(m, refresh_plan(m, d, c)), x) <==> d.contains(x),
        no_channel_twice(after_refresh(m, refresh_plan(m, d, c))),
{
    let after = after_refresh(m, refresh_plan(m, d, c));
    lemma_refresh_keeps_sessions_apart(m, d, c);
    lemma_apart_sessions_are_sets(m);
    assert forall|x: Seq<char>| joined_somewhere(after, x) <==> d.contains(x) by {
        if joined_somewhere(after, x) {
            let (a, b) = choose|a: int, b: int|
                0 <= a < after.len() && 0 <= b < after[a].len() && #[trigger] after[a][b] == x;
            assert(after[a] == after_plan(m[a], session_plan(m, d, c, a)));
            assert(after[a].contains(x));
            lemma_only_wanted_remain(m, d, c, a, x);
        }
        if d.contains(x) {
            let i = lemma_every_wanted_is_joined(m, d, c, x);
            assert(after[i] == after_plan(m[i], session_plan(m, d, c, i)));
            let b = choose|b: int| 0 <= b < after[i].len() && after[i][b] == x;
            assert(after[i][b] == x);
        }
    }
}


/// The number of members in the sessions before session `i`.
pub open spec fn members_before(m: Seq<Seq<Seq<char>>>, i: int) -> int
    decreases i,
{
    if i <= 0 {
        0
    } else {
        members_before(m, i - 1) + m[i - 1].len()
    }
}

/// The members among the first `n` of session `i` that stay, in order.
pub open spec fn stays_upto(m: Seq<Seq<Seq<char>>>, d: Seq<Seq<char>>, i: int, n: int) -> Seq<
    Seq<char>,
>
    decreases n,
{
    if n <= 0 {
        Seq::empty()
    } else {
        let front = stays_upto(m, d, i, n - 1);
        if stays(m, d, i, n - 1) {
            front.push(m[i][n - 1])
        } else {
            front
        }
    }
}

/// The members that stay in the sessions before session `i`.
pub open spec fn kept_before(m: Seq<Seq<Seq<char>>>, d: Seq<Seq<char>>, i: int) -> Seq<Seq<char>>
    decreases i,
{
    if i <= 0 {
        Seq::empty()
    } else {
        kept_before(m, d, i - 1) + stays_upto(m, d, i - 1, m[i - 1].len() as int)
    }
}

/// The test for a channel that some session has joined.
pub open spec fn is_joined(m: Seq<Seq<Seq<char>>>) -> spec_fn(Seq<char>) -> bool {
    |l: Seq<char>| joined_somewhere(m, l)
}

/// Of the first `n` members of a session each one stays or is surplus,
/// and the ones that stay are the first of their channel.
pub proof fn lemma_stays_upto(m: Seq<Seq<Seq<char>>>, d: Seq<Seq<char>>, i: int, n: int)
    requires
        0 <= i < m.len(),
        0 <= n <= m[i].len(),
    ensures
        stays_upto(m, d, i, n).len() + surplus_upto(m, d, i, n).len() == n,
        forall|x: Seq<char>| #[trigger]
            stays_upto(m, d, i, n).contains(x) <==> exists|b: int|
                0 <= b < n && #[trigger] m[i][b] == x && stays(m, d, i, b),
        stays_upto(m, d, i, n).no_duplicates(),
    decreases n,
{
    if n > 0 {
        lemma_stays_upto(m, d, i, n - 1);
        let front = stays_upto(m, d, i, n - 1);
        let all = stays_upto(m, d, i, n);
        assert forall|x: Seq<char>| #[trigger]
            all.contains(x) <==> exists|b: int|
                0 <= b < n && #[trigger] m[i][b] == x && stays(m, d, i, b) by {
            if all.contains(x) {
                let k = choose|k: int| 0 <= k < all.len() && all[k] == x;
                if k < front.len() {
                    assert(front[k] == x);
                    assert(front.contains(x));
                    let b = choose|b: int|
                        0 <= b < n - 1 && #[trigger] m[i][b] == x && stays(m, d, i, b);
                    assert(0 <= b < n && m[i][b] == x && stays(m, d, i, b));
                } else {
                    assert(m[i][n - 1] == x && stays(m, d, i, n - 1));
                }
            }
            if exists|b: int| 0 <= b < n && #[trigger] m[i][b] == x && stays(m, d, i, b) {
                let b = choose|b: int| 0 <= b < n && #[trigger] m[i][b] == x && stays(m, d, i, b);
                if b < n - 1 {
                    assert(front.contains(x));
                    let k = choose|k: int| 0 <= k < front.len() && front[k] == x;
                    assert(all[k] == x);
                } else {
                    assert(all[front.len() as int] == x);
                }
            }
        }
        if stays(m, d, i, n - 1) {
            let x = m[i][n - 1];
            if front.contains(x) {
                let b = choose|b: int|
                    0 <= b < n - 1 && #[trigger] m[i][b] == x && stays(m, d, i, b);
                assert(m[i][b] == x);
                assert(joined_before(m, i, n - 1, x));
            }
        }
    }
}

/// The members that stay are the wanted channels that some session has
/// joined, each once; the other members are surplus.
pub proof fn lemma_kept_before(m: Seq<Seq<Seq<char>>>, d: Seq<Seq<char>>, i: int)
    requires
        0 <= i <= m.len(),
    ensures
        kept_before(m, d, i).len() + surplus_before(m, d, i) == members_before(m, i),
        forall|x: Seq<char>| #[trigger]
            kept_before(m, d, i).contains(x) <==> exists|a: int, b: int|
                0 <= a < i && 0 <= b < m[a].len() && #[trigger] m[a][b] == x && stays(m, d, a, b),
        kept_before(m, d, i).no_duplicates(),
    decreases i,
{
    if i > 0 {
        lemma_kept_before(m, d, i - 1);
        let n = m[i - 1].len() as int;
        lemma_stays_upto(m, d, i - 1, n);
        let front = kept_before(m, d, i - 1);
        let here = stays_upto(m, d, i - 1, n);
        let all = kept_before(m, d, i);
        assert forall|x: Seq<char>| #[trigger]
            all.contains(x) <==> exists|a: int, b: int|
                0 <= a < i && 0 <= b < m[a].len() && #[trigger] m[a][b] == x && stays(
                    m,
                    d,
                    a,
                    b,
                ) by {
            if all.contains(x) {
                let k = choose|k: int| 0 <= k < all.len() && all[k] == x;
                if k < front.len() {
                    assert(front[k] == x);
                    assert(front.contains(x));
                    let (a, b) = choose|a: int, b: int|
                        0 <= a < i - 1 && 0 <= b < m[a].len() && #[trigger] m[a][b] == x
                            && stays(m, d, a, b);
                    assert(0 <= a < i && m[a][b] == x && stays(m, d, a, b));
                } else {
                    assert(here[k - front.len()] == x);
                    assert(here.contains(x));
                    let b = choose|b: int|
                        0 <= b < n && #[trigger] m[i - 1][b] == x && stays(m, d, i - 1, b);
                    assert(m[i - 1][b] == x && stays(m, d, i - 1, b));
                }
            }
            if exists|a: int, b: int|
                0 <= a < i && 0 <= b < m[a].len() && #[trigger] m[a][b] == x && stays(
                    m,
                    d,
                    a,
                    b,
                ) {
                let (a, b) = choose|a: int, b: int|
                    0 <= a < i && 0 <= b < m[a].len() && #[trigger] m[a][b] == x && stays(
                        m,
                        d,
                        a,
                        b,
                    );
                if a < i - 1 {
                    assert(front.contains(x));
                    let k = choose|k: int| 0 <= k < front.len() && front[k] == x;
                    assert(all[k] == x);
                } else {
                    assert(m[i - 1][b] == x);
                    assert(here.contains(x));
                    let k = choose|k: int| 0 <= k < here.len() && here[k] == x;
                    assert(all[front.len() + k] == x);
                }
            }
        }
        assert forall|p: int, q: int| 0 <= p < all.len() && 0 <= q < all.len() && p
            != q implies all[p] != all[q] by {
            if all[p] == all[q] {
                let x = all[p];
                if p < front.len() && q < front.len() {
                    assert(front[p] == front[q]);
                } else if p >= front.len() && q >= front.len() {
                    assert(here[p - front.len()] == here[q - front.len()]);
                } else {
                    let lo = if p < q { p } else { q };
                    let hi = if p < q { q } else { p };
                    assert(front[lo] == x);
                    assert(front.contains(x));
                    assert(here[hi - front.len()] == x);
                    assert(here.contains(x));
                    let (a, b) = choose|a: int, b: int|
                        0 <= a < i - 1 && 0 <= b < m[a].len() && #[trigger] m[a][b] == x
                            && stays(m, d, a, b);
                    let b2 = choose|b2: int|
                        0 <= b2 < n && #[trigger] m[i - 1][b2] == x && stays(m, d, i - 1, b2);
                    assert(m[a][b] == x);
                    assert(joined_before(m, i - 1, b2, x));
                }
            }
        }
    }
}

/// What a test keeps of a list and what it rejects make up the list.
pub proof fn lemma_filter_counts(
    s: Seq<Seq<char>>,
    keep: spec_fn(Seq<char>) -> bool,
    reject: spec_fn(Seq<char>) -> bool,
)
    requires
        forall|x: Seq<char>| #[trigger] keep(x) == !reject(x),
    ensures
        s.filter(keep).len() + s.filter(reject).len() == s.len(),
    decreases s.len(),
{
    reveal(Seq::filter);
    if s.len() > 0 {
        lemma_filter_counts(s.drop_last(), keep, reject);
    }
}

/// The first member with a given channel stays if the channel is wanted.
pub proof fn lemma_first_holder_stays(
    m: Seq<Seq<Seq<char>>>,
    d: Seq<Seq<char>>,
    x: Seq<char>,
    a: int,
    b: int,
) -> (first: (int, int))
    requires
        0 <= a < m.len(),
        0 <= b < m[a].len(),
        m[a][b] == x,
        d.contains(x),
    ensures
        0 <= first.0 < m.len(),
        0 <= first.1 < m[first.0].len(),
        m[first.0][first.1] == x,
        stays(m, d, first.0, first.1),
    decreases a, b,
{
    if joined_before(m, a, b, x) {
        let (a2, b2) = choose|a2: int, b2: int|
            0 <= a2 < m.len() && 0 <= b2 < m[a2].len() && (a2 < a || (a2 == a && b2 < b))
                && #[trigger] m[a2][b2] == x;
        lemma_first_holder_stays(m, d, x, a2, b2)
    } else {
        (a, b)
    }
}

/// Counting the candidates and the surplus: as many members stay as
/// there are wanted channels that some session has joined.
pub proof fn lemma_counts(m: Seq<Seq<Seq<char>>>, d: Seq<Seq<char>>) -> (kept: int)
    ensures
        0 <= kept,
        surplus_before(m, d, m.len() as int) == members_before(m, m.len() as int) - kept,
        candidates(m, d).len() == distinct(d).len() - kept,
{
    let n = m.len() as int;
    lemma_kept_before(m, d, n);
    lemma_distinct_is_set_preserving(d);
    let kept = kept_before(m, d, n);
    let dd = distinct(d);
    let held = dd.filter(is_joined(m));
    lemma_filter_keeps(dd, is_joined(m));
    assert forall|x: Seq<char>| #[trigger] is_joined(m)(x) == !unjoined(m)(x) by {}
    lemma_filter_counts(dd, is_joined(m), unjoined(m));
    assert forall|x: Seq<char>| kept.to_set().contains(x) <==> held.to_set().contains(x) by {
        assert(is_joined(m)(x) == joined_somewhere(m, x));
        assert(dd.to_set().contains(x) <==> d.to_set().contains(x));
        if kept.contains(x) {
            let (a, b) = choose|a: int, b: int|
                0 <= a < n && 0 <= b < m[a].len() && #[trigger] m[a][b] == x && stays(m, d, a, b);
            assert(m[a][b] == x);
            assert(joined_somewhere(m, x));
            assert(held.contains(x));
        }
        if held.contains(x) {
            assert(dd.contains(x) && joined_somewhere(m, x));
            let (a, b) = choose|a: int, b: int|
                0 <= a < m.len() && 0 <= b < m[a].len() && #[trigger] m[a][b] == x;
            let first = lemma_first_holder_stays(m, d, x, a, b);
            assert(m[first.0][first.1] == x && stays(m, d, first.0, first.1));
            assert(kept.contains(x));
        }
    }
    assert(kept.to_set() =~= held.to_set());
    kept.unique_seq_to_set();
    held.unique_seq_to_set();
    kept.len() as int
}

/// The room of all sessions before session `i` when none of them holds
/// more than the capacity.
pub proof fn lemma_room_before(m: Seq<Seq<Seq<char>>>, d: Seq<Seq<char>>, c: int, i: int)
    requires
        0 <= i <= m.len(),
        forall|k: int| 0 <= k < m.len() ==> (#[trigger] m[k]).len() <= c,
        forall|k: int| 0 <= k < i ==> topup_count(m, d, c, k) == headroom(m, c, k),
    ensures
        topup_start(m, d, c, i) == topup_start(m, d, c, 0) + i * c - members_before(m, i),
    decreases i,
{
    if i > 0 {
        lemma_room_before(m, d, c, i - 1);
        lemma_topup_start_step(m, d, c, i - 1);
        assert(m[i - 1].len() <= c);
        assert(topup_count(m, d, c, i - 1) == headroom(m, c, i - 1));
        assert(headroom(m, c, i - 1) == c - m[i - 1].len());
        assert(i * c == (i - 1) * c + c) by (nonlinear_arith);
    } else {
        assert(i * c == 0) by (nonlinear_arith)
            requires
                i == 0,
        ;
    }
}

/// Conservation within the capacity: where no channel is reported
/// twice, no session holds more than the capacity, and the wanted
/// channels are at least as many as the sessions hold now and at most as
/// many as the fleet has room for, the sessions hold after the pass
/// exactly the wanted channels, and none of them twice.
pub proof fn lemma_refresh_reaches_wanted_within_capacity(
    m: Seq<Seq<Seq<char>>>,
    d: Seq<Seq<char>>,
    c: int,
)
    requires
        no_channel_twice(m),
        forall|k: int| 0 <= k < m.len() ==> (#[trigger] m[k]).len() <= c,
        members_before(m, m.len() as int) <= distinct(d).len() <= m.len() * c,
    ensures
        forall|x: Seq<char>|
            joined_somewhere(after_refresh(m, refresh_plan(m, d, c)), x) <==> d.contains(x),
        no_channel_twice(after_refresh(m, refresh_plan(m, d, c))),
{
    let n = m.len() as int;
    let kept = lemma_counts(m, d);
    lemma_swap_start_step(m, d, n);
    lemma_topup_start_step(m, d, c, n);
    if topup_start(m, d, c, n) < candidates(m, d).len() {
        assert forall|k: int| 0 <= k < n implies topup_count(m, d, c, k) == headroom(m, c, k) by {
            lemma_full_when_candidates_are_left(m, d, c, k);
            lemma_topup_start_step(m, d, c, k);
        }
        lemma_room_before(m, d, c, n);
    }
    lemma_refresh_reaches_wanted(m, d, c);
}


/// The candidates that the sessions before session `i` join on top are
/// at least as many as these sessions lack of the capacity, where each
/// of them gets all the room it has.
pub proof fn lemma_room_at_least(m: Seq<Seq<Seq<char>>>, d: Seq<Seq<char>>, c: int, i: int)
    requires
        0 <= i <= m.len(),
        forall|k: int| 0 <= k < i ==> topup_count(m, d, c, k) == headroom(m, c, k),
    ensures
        topup_start(m, d, c, i) >= topup_start(m, d, c, 0) + i * c - members_before(m, i),
    decreases i,
{
    if i > 0 {
        lemma_room_at_least(m, d, c, i - 1);
        lemma_topup_start_step(m, d, c, i - 1);
        assert(topup_count(m, d, c, i - 1) == headroom(m, c, i - 1));
        assert(headroom(m, c, i - 1) >= c - m[i - 1].len());
        assert(i * c == (i - 1) * c + c) by (nonlinear_arith);
    } else {
        assert(i * c == 0) by (nonlinear_arith)
            requires
                i == 0,
        ;
    }
}

/// Where the wanted channels are no more than the fleet has room for,
/// a pass finds a place for every candidate, whatever the sessions
/// hold.
pub proof fn lemma_all_candidates_are_placed(m: Seq<Seq<Seq<char>>>, d: Seq<Seq<char>>, c: int)
    requires
        distinct(d).len() <= m.len() * c,
    ensures
        topup_start(m, d, c, m.len() as int) == candidates(m, d).len(),
{
    let n = m.len() as int;
    let kept = lemma_counts(m, d);
    lemma_swap_start_step(m, d, n);
    lemma_topup_start_step(m, d, c, n);
    lemma_starts_grow(m, d, c, 0, n);
    if topup_start(m, d, c, n) < candidates(m, d).len() {
        assert forall|k: int| 0 <= k < n implies topup_count(m, d, c, k) == headroom(m, c, k) by {
            lemma_full_when_candidates_are_left(m, d, c, k);
            lemma_topup_start_step(m, d, c, k);
        }
        lemma_room_at_least(m, d, c, n);
    }
}

/// Nothing wanted is left out while the fleet has room: where no
/// session reports a channel twice and the wanted channels are no more
/// than the sessions can hold together, every wanted channel is held by
/// some session after the pass. The sessions may hold anything before
/// it, more than the capacity too.
pub proof fn lemma_refresh_joins_every_wanted(m: Seq<Seq<Seq<char>>>, d: Seq<Seq<char>>, c: int)
    requires
        sessions_are_sets(m),
        distinct(d).len() <= m.len() * c,
    ensures
        forall|x: Seq<char>|
            d.contains(x) ==> joined_somewhere(after_refresh(m, refresh_plan(m, d, c)), x),
{
    let after = after_refresh(m, refresh_plan(m, d, c));
    lemma_all_candidates_are_placed(m, d, c);
    assert forall|x: Seq<char>| d.contains(x) implies joined_somewhere(after, x) by {
        let i = lemma_every_wanted_is_joined(m, d, c, x);
        assert(after[i] == after_plan(m[i], session_plan(m, d, c, i)));
        let b = choose|b: int| 0 <= b < after[i].len() && after[i][b] == x;
        assert(after[i][b] == x);
    }
}


/// Leaving a channel that is not held changes nothing; leaving one that
/// is held, by a session that holds nothing twice, makes the session
/// one smaller.
pub proof fn lemma_parted_len(s: Seq<Seq<char>>, l: Seq<char>)
    ensures
        !s.contains(l) ==> parted(s, l) == s,
        s.no_duplicates() && s.contains(l) ==> parted(s, l).len() == s.len() - 1,
    decreases s.len(),
{
    reveal(Seq::filter);
    if s.len() > 0 {
        let front = s.drop_last();
        lemma_parted_len(front, l);
        assert(s =~= front.push(s.last()));
        assert(other_than(l)(s.last()) == (s.last() != l));
        if front.contains(l) {
            let k = choose|k: int| 0 <= k < front.len() && front[k] == l;
            assert(s[k] == l);
            if s.no_duplicates() {
                assert(s[k] != s[s.len() - 1]);
            }
        }
        if !s.contains(l) {
            assert(s[s.len() - 1] != l);
            assert(!front.contains(l));
            assert(parted(s, l) =~= s);
        }
        if s.no_duplicates() && s.contains(l) {
            assert(front.no_duplicates());
            if s.last() == l {
                assert(!front.contains(l));
            } else {
                let k = choose|k: int| 0 <= k < s.len() && s[k] == l;
                assert(front[k] == l);
            }
        }
    }
}

/// Swaps keep the size of a session: where the session holds nothing
/// twice, every swap joins a channel that is new to it and parts one
/// that it held, and no channel is joined or parted by two swaps, the
/// session is after the swaps as large as before.
pub proof fn lemma_after_swaps_len(s: Seq<Seq<char>>, swaps: Seq<SwapView>)
    requires
        s.no_duplicates(),
        forall|t: int| 0 <= t < swaps.len() ==> !s.contains((#[trigger] swaps[t]).join),
        forall|t: int| 0 <= t < swaps.len() ==> s.contains((#[trigger] swaps[t]).part),
        forall|t: int, u: int|
            0 <= t < swaps.len() && 0 <= u < swaps.len() && t != u ==> (#[trigger] swaps[t]).join
                != (#[trigger] swaps[u]).join,
        forall|t: int, u: int|
            0 <= t < swaps.len() && 0 <= u < swaps.len() && t != u ==> (#[trigger] swaps[t]).part
                != (#[trigger] swaps[u]).part,
    ensures
        after_swaps(s, swaps).len() == s.len(),
        after_swaps(s, swaps).no_duplicates(),
        forall|x: Seq<char>| swaps_join(swaps, x) ==> !swaps_part(swaps, x),
    decreases swaps.len(),
{
    assert forall|x: Seq<char>| swaps_join(swaps, x) implies !swaps_part(swaps, x) by {
        if swaps_part(swaps, x) {
            let t = choose|t: int| 0 <= t < swaps.len() && (#[trigger] swaps[t]).join == x;
            let u = choose|u: int| 0 <= u < swaps.len() && (#[trigger] swaps[u]).part == x;
            assert(!s.contains(swaps[t].join));
            assert(s.contains(swaps[u].part));
        }
    }
    lemma_after_swaps(s, swaps);
    if swaps.len() > 0 {
        let front = swaps.drop_last();
        let last = swaps.last();
        let n = swaps.len() - 1;
        assert(swaps[n] == last);
        assert forall|t: int| 0 <= t < front.len() implies front[t] == swaps[t] by {}
        lemma_after_swaps_len(s, front);
        lemma_after_swaps(s, front);
        let r = after_swaps(s, front);
        assert(!swaps_join(front, last.join)) by {
            if swaps_join(front, last.join) {
                let t = choose|t: int| 0 <= t < front.len() && (#[trigger] front[t]).join
                    == last.join;
                assert(swaps[t].join != swaps[n].join);
            }
        }
        assert(!swaps_part(front, last.part)) by {
            if swaps_part(front, last.part) {
                let t = choose|t: int| 0 <= t < front.len() && (#[trigger] front[t]).part
                    == last.part;
                assert(swaps[t].part != swaps[n].part);
            }
        }
        assert(!s.contains(swaps[n].join));
        assert(s.contains(swaps[n].part));
        assert(!r.contains(last.join));
        assert(r.contains(last.part));
        lemma_joined_parted(r, last.join);
        let grown = joined(r, last.join);
        assert(grown == r.push(last.join));
        assert(grown.contains(last.part));
        lemma_parted_len(grown, last.part);
    }
}

/// Joins of new channels make a session larger by their number.
pub proof fn lemma_after_joins_len(s: Seq<Seq<char>>, joins: Seq<Seq<char>>)
    requires
        joins.no_duplicates(),
        forall|t: int| 0 <= t < joins.len() ==> !s.contains(#[trigger] joins[t]),
    ensures
        after_joins(s, joins).len() == s.len() + joins.len(),
    decreases joins.len(),
{
    if joins.len() > 0 {
        let front = joins.drop_last();
        let n = joins.len() - 1;
        assert forall|t: int| 0 <= t < front.len() implies front[t] == joins[t] by {}
        lemma_after_joins_len(s, front);
        lemma_after_joins(s, front);
        let r = after_joins(s, front);
        assert(!s.contains(joins[n]));
        if front.contains(joins.last()) {
            let t = choose|t: int| 0 <= t < front.len() && front[t] == joins.last();
            assert(joins[t] == joins[n]);
        }
        assert(!r.contains(joins.last()));
    }
}

/// The surplus of a session that holds nothing twice holds nothing
/// twice.
pub proof fn lemma_surplus_distinct(m: Seq<Seq<Seq<char>>>, d: Seq<Seq<char>>, i: int, n: int)
    requires
        0 <= i < m.len(),
        0 <= n <= m[i].len(),
        m[i].no_duplicates(),
    ensures
        surplus_upto(m, d, i, n).no_duplicates(),
    decreases n,
{
    if n > 0 {
        lemma_surplus_distinct(m, d, i, n - 1);
        lemma_surplus_members(m, d, i, n - 1);
        let front = surplus_upto(m, d, i, n - 1);
        if !stays(m, d, i, n - 1) {
            if front.contains(m[i][n - 1]) {
                let b = choose|b: int|
                    0 <= b < n - 1 && #[trigger] m[i][b] == m[i][n - 1] && !stays(m, d, i, b);
                assert(m[i][b] != m[i][n - 1]);
            }
        }
    }
}

/// A pass never makes a session smaller: a session that held nothing
/// twice is after the pass larger than before by the channels it joined
/// on top of its swaps.
pub proof fn lemma_session_size(m: Seq<Seq<Seq<char>>>, d: Seq<Seq<char>>, c: int, i: int)
    requires
        0 <= i < m.len(),
        m[i].no_duplicates(),
    ensures
        after_plan(m[i], session_plan(m, d, c, i)).len() == m[i].len() + session_joins(
            m,
            d,
            c,
            i,
        ).len(),
        session_joins(m, d, c, i).len() == topup_count(m, d, c, i),
{
    let n = m.len() as int;
    let swaps = session_swaps(m, d, i);
    let joins = session_joins(m, d, c, i);
    let pool = candidates(m, d);
    let sur = surplus(m, d, i);
    lemma_candidates(m, d);
    lemma_swap_start_step(m, d, i);
    lemma_topup_start_step(m, d, c, i);
    lemma_topup_start_step(m, d, c, i + 1);
    lemma_starts_grow(m, d, c, i + 1, n);
    lemma_starts_grow(m, d, c, 0, i);
    lemma_surplus_members(m, d, i, m[i].len() as int);
    lemma_surplus_distinct(m, d, i, m[i].len() as int);
    lemma_session_after(m, d, c, i);
    assert forall|t: int| 0 <= t < swaps.len() implies !m[i].contains((#[trigger] swaps[t]).join) by {
        let x = swaps[t].join;
        assert(pool[swap_start(m, d, i) + t] == x);
        assert(pool.contains(x));
        if m[i].contains(x) {
            let b = choose|b: int| 0 <= b < m[i].len() && m[i][b] == x;
            assert(m[i][b] == x);
            assert(joined_somewhere(m, x));
        }
    }
    assert forall|t: int| 0 <= t < swaps.len() implies m[i].contains((#[trigger] swaps[t]).part) by {
        assert(swaps_part(swaps, swaps[t].part));
    }
    assert forall|t: int, u: int|
        0 <= t < swaps.len() && 0 <= u < swaps.len() && t != u implies (#[trigger] swaps[t]).join
        != (#[trigger] swaps[u]).join by {
        assert(pool[swap_start(m, d, i) + t] != pool[swap_start(m, d, i) + u]);
    }
    assert forall|t: int, u: int|
        0 <= t < swaps.len() && 0 <= u < swaps.len() && t != u implies (#[trigger] swaps[t]).part
        != (#[trigger] swaps[u]).part by {
        assert(sur[t] != sur[u]);
    }
    lemma_after_swaps_len(m[i], swaps);
    lemma_after_swaps(m[i], swaps);
    let mid = after_swaps(m[i], swaps);
    assert(joins.no_duplicates()) by {
        assert forall|t: int, u: int| 0 <= t < joins.len() && 0 <= u < joins.len() && t
            != u implies joins[t] != joins[u] by {
            assert(pool[topup_start(m, d, c, i) + t] != pool[topup_start(m, d, c, i) + u]);
        }
    }
    assert forall|t: int| 0 <= t < joins.len() implies !mid.contains(#[trigger] joins[t]) by {
        let x = joins[t];
        let k = topup_start(m, d, c, i) + t;
        assert(pool[k] == x);
        assert(pool.contains(x));
        if m[i].contains(x) {
            let b = choose|b: int| 0 <= b < m[i].len() && m[i][b] == x;
            assert(m[i][b] == x);
            assert(joined_somewhere(m, x));
        }
        if swaps_join(swaps, x) {
            let u = choose|u: int| 0 <= u < swaps.len() && (#[trigger] swaps[u]).join == x;
            assert(pool[swap_start(m, d, i) + u] == x);
            assert(swap_start(m, d, i) + u < k);
        }
    }
    lemma_after_joins_len(mid, joins);
}

/// No session stays idle while candidates are left, whatever the
/// sessions held: where no session reports a channel twice, after a pass
/// every wanted channel is held by some session, or every session holds
/// at least as many channels as the capacity.
pub proof fn lemma_refresh_joins_all_or_fills_all(
    m: Seq<Seq<Seq<char>>>,
    d: Seq<Seq<char>>,
    c: int,
)
    requires
        sessions_are_sets(m),
    ensures
        (forall|x: Seq<char>|
            d.contains(x) ==> joined_somewhere(after_refresh(m, refresh_plan(m, d, c)), x)) || (
        forall|i: int|
            0 <= i < m.len() ==> (#[trigger] after_refresh(m, refresh_plan(m, d, c))[i]).len()
                >= c),
        forall|i: int|
            0 <= i < m.len() ==> (#[trigger] after_refresh(m, refresh_plan(m, d, c))[i]).len()
                >= m[i].len(),
{
    let n = m.len() as int;
    let after = after_refresh(m, refresh_plan(m, d, c));
    lemma_topup_start_step(m, d, c, n);
    assert forall|i: int| 0 <= i < n implies (#[trigger] after[i]).len() >= m[i].len() by {
        lemma_session_size(m, d, c, i);
        assert(after[i] == after_plan(m[i], session_plan(m, d, c, i)));
    }
    if topup_start(m, d, c, n) == candidates(m, d).len() {
        assert forall|x: Seq<char>| d.contains(x) implies joined_somewhere(after, x) by {
            let i = lemma_every_wanted_is_joined(m, d, c, x);
            assert(after[i] == after_plan(m[i], session_plan(m, d, c, i)));
            let b = choose|b: int| 0 <= b < after[i].len() && after[i][b] == x;
            assert(after[i][b] == x);
        }
    } else {
        assert forall|i: int| 0 <= i < n implies (#[trigger] after[i]).len() >= c by {
            lemma_full_when_candidates_are_left(m, d, c, i);
            lemma_session_size(m, d, c, i);
            assert(after[i] == after_plan(m[i], session_plan(m, d, c, i)));
        }
    }
}

} // verus!
