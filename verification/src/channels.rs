//! Channel lists: removing repeats, shuffling and sharding across sessions.

use rand::seq::SliceRandom;
use vstd::hash_set::StringHashSet;
use vstd::prelude::*;

verus! {

/// The logins held by a list of channel names, as character sequences.
pub open spec fn logins(v: Seq<String>) -> Seq<Seq<char>> {
    v.map_values(|s: String| s@)
}

/// The logins held by a list of groups, group by group.
pub open spec fn membership(m: Seq<Vec<String>>) -> Seq<Seq<Seq<char>>> {
    m.map_values(|s: Vec<String>| logins(s@))
}

/// `s` with every repeat of an earlier element removed; the first
/// occurrence of each value stays, in its original order.
pub open spec fn distinct(s: Seq<Seq<char>>) -> Seq<Seq<char>>
    decreases s.len(),
{
    if s.len() == 0 {
        Seq::empty()
    } else {
        let front = distinct(s.drop_last());
        if front.contains(s.last()) {
            front
        } else {
            front.push(s.last())
        }
    }
}

/// Deduplication keeps exactly the distinct values of its input and
/// never yields a value twice.
pub proof fn lemma_distinct_is_set_preserving(s: Seq<Seq<char>>)
    ensures
        distinct(s).no_duplicates(),
        distinct(s).to_set() == s.to_set(),
        distinct(s).len() <= s.len(),
    decreases s.len(),
{
    if s.len() == 0 {
        assert(distinct(s).to_set() =~= s.to_set());
    } else {
        let front = s.drop_last();
        lemma_distinct_is_set_preserving(front);
        let d = distinct(front);
        assert(s =~= front.push(s.last()));
        assert forall|x: Seq<char>| #[trigger] s.to_set().contains(x) <==> (front.to_set().contains(x) || x == s.last()) by {
            if s.contains(x) {
                let i = choose|i: int| 0 <= i < s.len() && s[i] == x;
                if i < front.len() {
                    assert(front[i] == x);
                }
            }
            if front.contains(x) {
                let i = choose|i: int| 0 <= i < front.len() && front[i] == x;
                assert(s[i] == x);
            }
            if x == s.last() {
                assert(s[s.len() - 1] == x);
            }
        }
        if d.contains(s.last()) {
            assert(distinct(s).to_set() =~= s.to_set());
        } else {
            let r = d.push(s.last());
            assert forall|x: Seq<char>| #[trigger] r.to_set().contains(x) <==> (d.to_set().contains(x) || x == s.last()) by {
                if r.contains(x) {
                    let i = choose|i: int| 0 <= i < r.len() && r[i] == x;
                    if i < d.len() {
                        assert(d[i] == x);
                    }
                }
                if d.contains(x) {
                    let i = choose|i: int| 0 <= i < d.len() && d[i] == x;
                    assert(r[i] == x);
                }
                if x == s.last() {
                    assert(r[r.len() - 1] == x);
                }
            }
            assert(r.to_set() =~= s.to_set());
            assert(r.no_duplicates());
        }
    }
}

/// Drops every channel that already occurred earlier in `chans`.
///
/// `expected` is the number of channels that was asked for; a list that
/// comes out shorter is reported through the second component.
pub fn cleanup_channels(chans: Vec<String>, expected: u64) -> (r: (Vec<String>, bool))
    ensures
        logins(r.0@) == distinct(logins(chans@)),
        logins(r.0@).no_duplicates(),
        logins(r.0@).to_set() == logins(chans@).to_set(),
        r.1 == (distinct(logins(chans@)).len() < expected),
{
    let mut seen = StringHashSet::with_capacity(chans.len());
    let mut kept: Vec<String> = Vec::new();
    let mut i: usize = 0;
    while i < chans.len()
        invariant
            i <= chans.len(),
            logins(kept@) == distinct(logins(chans@).take(i as int)),
            seen@ == logins(kept@).to_set(),
        decreases chans.len() - i,
    {
        let c = chans[i].clone();
        proof {
            let all = logins(chans@);
            assert(all.take(i + 1).drop_last() =~= all.take(i as int));
            assert(all.take(i + 1).last() == chans@[i as int]@);
            assert(logins(kept@).contains(c@) <==> seen@.contains(c@));
        }
        let fresh = seen.insert(c.clone());
        if fresh {
            proof {
                let before = logins(kept@);
                assert(logins(kept@.push(c)) =~= before.push(c@));
                assert(before.push(c@).to_set() =~= before.to_set().insert(c@)) by {
                    assert forall|x: Seq<char>| before.push(c@).contains(x) <==> (before.contains(x) || x == c@) by {
                        if before.push(c@).contains(x) {
                            let k = choose|k: int| 0 <= k < before.push(c@).len() && before.push(c@)[k] == x;
                            if k < before.len() {
                                assert(before[k] == x);
                            }
                        }
                        if before.contains(x) {
                            let k = choose|k: int| 0 <= k < before.len() && before[k] == x;
                            assert(before.push(c@)[k] == x);
                        }
                        if x == c@ {
                            assert(before.push(c@)[before.len() as int] == x);
                        }
                    }
                }
            }
            kept.push(c);
        }
        i += 1;
    }
    proof {
        assert(logins(chans@).take(chans@.len() as int) =~= logins(chans@));
        lemma_distinct_is_set_preserving(logins(chans@));
    }
    let short = (kept.len() as u64) < expected;
    (kept, short)
}


/// The elements of `s` that repeat an earlier element, in their order:
/// what `distinct` leaves out.
pub open spec fn repeats(s: Seq<Seq<char>>) -> Seq<Seq<char>>
    decreases s.len(),
{
    if s.len() == 0 {
        Seq::empty()
    } else {
        let front = repeats(s.drop_last());
        if s.drop_last().contains(s.last()) {
            front.push(s.last())
        } else {
            front
        }
    }
}

/// Every element is kept or is a repeat: a list is as long as what stays
/// of it and what is dropped from it together, and every repeat is an
/// element that stays.
pub proof fn lemma_repeats_are_the_rest(s: Seq<Seq<char>>)
    ensures
        distinct(s).len() + repeats(s).len() == s.len(),
        forall|x: Seq<char>| #[trigger] repeats(s).contains(x) ==> distinct(s).contains(x),
    decreases s.len(),
{
    lemma_distinct_is_set_preserving(s);
    if s.len() > 0 {
        let front = s.drop_last();
        lemma_repeats_are_the_rest(front);
        lemma_distinct_is_set_preserving(front);
        assert(distinct(front).to_set().contains(s.last()) <==> front.to_set().contains(s.last()));
        assert forall|x: Seq<char>| #[trigger] repeats(s).contains(x) implies distinct(
            s,
        ).contains(x) by {
            let r = repeats(s);
            let k = choose|k: int| 0 <= k < r.len() && r[k] == x;
            if k < repeats(front).len() {
                assert(repeats(front)[k] == x);
                assert(repeats(front).contains(x));
                assert(distinct(front).to_set().contains(x));
                assert(front.contains(x));
                let j = choose|j: int| 0 <= j < front.len() && front[j] == x;
                assert(s[j] == x);
            } else {
                assert(s[s.len() - 1] == x);
            }
            assert(s.to_set().contains(x));
            assert(distinct(s).to_set().contains(x));
        }
    }
}

/// The channels that `cleanup_channels` drops from `chans`: every
/// channel that occurred earlier in the list, as often as it occurs
/// again, in the order of the list.
pub fn repeated_channels(chans: &Vec<String>) -> (r: Vec<String>)
    ensures
        logins(r@) == repeats(logins(chans@)),
        logins(r@).len() + distinct(logins(chans@)).len() == chans@.len(),
{
    let mut seen = StringHashSet::with_capacity(chans.len());
    let mut dropped: Vec<String> = Vec::new();
    let mut i: usize = 0;
    proof {
        assert(logins(chans@).take(0).to_set() =~= Set::<Seq<char>>::empty());
    }
    while i < chans.len()
        invariant
            i <= chans.len(),
            logins(dropped@) == repeats(logins(chans@).take(i as int)),
            seen@ == logins(chans@).take(i as int).to_set(),
        decreases chans.len() - i,
    {
        let c = chans[i].clone();
        proof {
            let all = logins(chans@);
            assert(all.take(i + 1).drop_last() =~= all.take(i as int));
            assert(all.take(i + 1).last() == c@);
            assert(all.take(i + 1) =~= all.take(i as int).push(c@));
            all.take(i as int).lemma_push_to_set_commute(c@);
            assert(all.take(i as int).contains(c@) <==> seen@.contains(c@));
        }
        let fresh = seen.insert(c.clone());
        if !fresh {
            proof {
                assert(logins(dropped@.push(c)) =~= logins(dropped@).push(c@));
            }
            dropped.push(c);
        }
        i += 1;
    }
    proof {
        assert(logins(chans@).take(chans@.len() as int) =~= logins(chans@));
        lemma_repeats_are_the_rest(logins(chans@));
    }
    dropped
}

/// Puts `chans` into a random order.
///
/// Calls `rand::seq::SliceRandom::shuffle` with the generator of the
/// current thread. That function only swaps elements of the slice, so
/// what is claimed of it is that the list holds afterwards what it held
/// before, each login as often as before; nothing is claimed of the
/// order.
#[verifier::external_body]
fn shuffle(chans: &mut Vec<String>)
    ensures
        logins(final(chans)@).to_multiset() == logins(old(chans)@).to_multiset(),
{
    chans.shuffle(&mut rand::thread_rng());
}

/// The number of groups of at most `per` that `len` elements fill.
pub open spec fn shard_count(len: int, per: int) -> int {
    if len <= 0 {
        0
    } else {
        (len - 1) / per + 1
    }
}

/// Group `k` of `s` cut into groups of `per`: the last group holds what
/// is left, every other group `per` elements.
pub open spec fn shard_of(s: Seq<Seq<char>>, per: int, k: int) -> Seq<Seq<char>> {
    s.subrange(
        k * per,
        if k * per + per <= s.len() {
            k * per + per
        } else {
            s.len() as int
        },
    )
}

/// `s` cut into consecutive groups of `per`.
pub open spec fn sharded(s: Seq<Seq<char>>, per: int) -> Seq<Seq<Seq<char>>> {
    Seq::new(shard_count(s.len() as int, per) as nat, |k: int| shard_of(s, per, k))
}

proof fn lemma_shard_count(len: int, per: int, g: int)
    requires
        per > 0,
        g > 0,
        (g - 1) * per < len <= g * per,
    ensures
        shard_count(len, per) == g,
{
    assert((len - 1) / per == g - 1) by (nonlinear_arith)
        requires
            per > 0,
            (g - 1) * per <= len - 1 < g * per,
    ;
}

/// Cuts `chans` into consecutive groups of `per` channels; the last
/// group may be shorter.
pub fn shard(chans: &Vec<String>, per: u64) -> (groups: Vec<Vec<String>>)
    requires
        per > 0,
    ensures
        membership(groups@) == sharded(logins(chans@), per as int),
{
    let ghost s = logins(chans@);
    let ghost p = per as int;
    let len = chans.len();
    let step: usize = if per >= len as u64 {
        len
    } else {
        per as usize
    };
    let mut groups: Vec<Vec<String>> = Vec::new();
    let mut start: usize = 0;
    while start < len
        invariant
            start <= len,
            len == chans@.len(),
            s == logins(chans@),
            p == per as int,
            p > 0,
            step == if p >= len { len as int } else { p },
            start == if groups@.len() * p <= len { groups@.len() * p } else { len as int },
            groups@.len() == 0 || (groups@.len() - 1) * p < len,
            forall|k: int|
                0 <= k < groups@.len() ==> logins(#[trigger] groups@[k]@) == shard_of(s, p, k),
        decreases len - start,
    {
        let ghost g = groups@.len() as int;
        let end: usize = if len - start < step {
            len
        } else {
            start + step
        };
        proof {
            assert((g + 1) * p == g * p + p) by (nonlinear_arith);
            assert(start == g * p);
            assert(end == if g * p + p <= len { g * p + p } else { len as int });
        }
        let mut group: Vec<String> = Vec::new();
        let mut k: usize = start;
        while k < end
            invariant
                start <= k <= end,
                end <= len,
                len == chans@.len(),
                s == logins(chans@),
                logins(group@) == s.subrange(start as int, k as int),
            decreases end - k,
        {
            let c = chans[k].clone();
            proof {
                assert(logins(group@.push(c)) =~= logins(group@).push(c@));
                assert(s.subrange(start as int, k + 1) =~= s.subrange(start as int, k as int).push(
                    c@,
                ));
            }
            group.push(c);
            k += 1;
        }
        proof {
            assert(logins(group@) == shard_of(s, p, g));
        }
        groups.push(group);
        start = end;
    }
    proof {
        let g = groups@.len() as int;
        if len == 0 {
            assert(g == 0);
        } else {
            assert(g > 0);
            lemma_shard_count(len as int, p, g);
        }
        assert(membership(groups@) =~= sharded(s, p));
    }
    groups
}


/// A copy of `list`.
pub fn copy_list(list: &Vec<String>) -> (out: Vec<String>)
    ensures
        logins(out@) == logins(list@),
{
    let mut out: Vec<String> = Vec::new();
    let mut k: usize = 0;
    while k < list.len()
        invariant
            k <= list.len(),
            logins(out@) == logins(list@).take(k as int),
        decreases list.len() - k,
    {
        let c = list[k].clone();
        proof {
            let all = logins(list@);
            assert(logins(out@.push(c)) =~= logins(out@).push(c@));
            assert(all.take(k + 1) =~= all.take(k as int).push(c@));
        }
        out.push(c);
        k += 1;
    }
    assert(logins(list@).take(list@.len() as int) =~= logins(list@));
    out
}

/// `chans` in a random order, cut into consecutive groups of `per`
/// channels.
pub fn shuffled_shards(chans: Vec<String>, per: u64) -> (groups: Vec<Vec<String>>)
    requires
        per > 0,
    ensures
        exists|p: Seq<Seq<char>>|
            p.to_multiset() == logins(chans@).to_multiset() && membership(groups@) == sharded(
                p,
                per as int,
            ),
{
    let mut chans = chans;
    shuffle(&mut chans);
    let groups = shard(&chans, per);
    groups
}


/// No channel is reported twice, neither by one session nor by two.
pub open spec fn no_channel_twice(m: Seq<Seq<Seq<char>>>) -> bool {
    forall|a: int, b: int, a2: int, b2: int|
        0 <= a < m.len() && 0 <= b < m[a].len() && 0 <= a2 < m.len() && 0 <= b2 < m[a2].len() && (
        a != a2 || b != b2) ==> #[trigger] m[a][b] != #[trigger] m[a2][b2]
}

/// No session reports a channel twice; two sessions may report the
/// same channel.
pub open spec fn sessions_are_sets(m: Seq<Seq<Seq<char>>>) -> bool {
    forall|k: int| 0 <= k < m.len() ==> (#[trigger] m[k]).no_duplicates()
}

/// A list without repeats is what it is without its repeats.
pub proof fn lemma_distinct_of_distinct(s: Seq<Seq<char>>)
    requires
        s.no_duplicates(),
    ensures
        distinct(s) == s,
    decreases s.len(),
{
    if s.len() > 0 {
        let front = s.drop_last();
        lemma_distinct_of_distinct(front);
        if front.contains(s.last()) {
            let k = choose|k: int| 0 <= k < front.len() && front[k] == s.last();
            assert(s[k] == s[s.len() - 1]);
        }
        assert(front.push(s.last()) =~= s);
    }
}

/// Where the groups of a list start and end: group `k` starts at
/// `k * per`, within the list, and holds at most `per` elements.
pub proof fn lemma_shard_bounds(len: int, per: int, k: int)
    requires
        per > 0,
        0 <= k < shard_count(len, per),
    ensures
        0 <= k * per < len,
        k * per + per >= len <==> k == shard_count(len, per) - 1,
{
    let q = (len - 1) / per;
    assert(q * per <= len - 1 < q * per + per) by (nonlinear_arith)
        requires
            per > 0,
            len >= 1,
            q == (len - 1) / per,
    ;
    assert(0 <= k * per && k * per <= q * per) by (nonlinear_arith)
        requires
            0 <= k <= q,
            per > 0,
    ;
    if k < q {
        assert(k * per + per <= q * per) by (nonlinear_arith)
            requires
                0 <= k < q,
                per > 0,
        ;
    }
}

/// Cutting a list into groups loses nothing and repeats nothing: the
/// groups hold what the list holds, none of them more than `per`, and
/// where the list has no repeats no channel is in the groups twice.
pub proof fn lemma_sharded(p: Seq<Seq<char>>, per: int)
    requires
        per > 0,
    ensures
        forall|k: int|
            0 <= k < sharded(p, per).len() ==> 0 < (#[trigger] sharded(p, per)[k]).len() <= per,
        forall|a: int, b: int|
            0 <= a < sharded(p, per).len() && 0 <= b < sharded(p, per)[a].len() ==> (
            #[trigger] sharded(p, per)[a][b]) == p[a * per + b],
        p.no_duplicates() ==> no_channel_twice(sharded(p, per)),
{
    let g = sharded(p, per);
    let len = p.len() as int;
    assert forall|k: int| 0 <= k < g.len() implies 0 < (#[trigger] g[k]).len() <= per by {
        lemma_shard_bounds(len, per, k);
    }
    assert forall|a: int, b: int| 0 <= a < g.len() && 0 <= b < g[a].len() implies (
    #[trigger] g[a][b]) == p[a * per + b] by {
        lemma_shard_bounds(len, per, a);
    }
    if p.no_duplicates() {
        assert forall|a: int, b: int, a2: int, b2: int|
            0 <= a < g.len() && 0 <= b < g[a].len() && 0 <= a2 < g.len() && 0 <= b2
                < g[a2].len() && (a != a2 || b != b2) implies #[trigger] g[a][b]
            != #[trigger] g[a2][b2] by {
            lemma_shard_bounds(len, per, a);
            lemma_shard_bounds(len, per, a2);
            assert(g[a][b] == p[a * per + b]);
            assert(g[a2][b2] == p[a2 * per + b2]);
            if a < a2 {
                assert(a * per + per <= a2 * per) by (nonlinear_arith)
                    requires
                        a < a2,
                        per > 0,
                ;
            } else if a2 < a {
                assert(a2 * per + per <= a * per) by (nonlinear_arith)
                    requires
                        a2 < a,
                        per > 0,
                ;
            }
            assert(a * per + b != a2 * per + b2);
        }
    }
}

/// A list that holds what a list without repeats holds, as often, has
/// no repeats either.
pub proof fn lemma_reordered_is_distinct(p: Seq<Seq<char>>, s: Seq<Seq<char>>)
    requires
        p.to_multiset() == s.to_multiset(),
        s.no_duplicates(),
    ensures
        p.no_duplicates(),
{
    s.lemma_multiset_has_no_duplicates();
    p.lemma_multiset_has_no_duplicates_conv();
}

} // verus!
