//! Carrying out a plan: the single things asked of the sessions, in the
//! order in which they are asked.

use crate::channels::logins;
use crate::controller::{joined, parted};
use crate::fleet::{
    after_joins, after_plan, after_refresh, after_swaps, plan_views, swap_views, SessionPlan,
    SessionPlanView, SwapView,
};
use vstd::prelude::*;

verus! {

/// One thing asked of one session: to join a channel or to leave one.
#[derive(Debug, PartialEq, Eq)]
pub enum Action {
    Join { session: usize, channel: String },
    Part { session: usize, channel: String },
}

/// An action as plain values.
pub enum ActionView {
    Join { session: int, channel: Seq<char> },
    Part { session: int, channel: Seq<char> },
}

impl View for Action {
    type V = ActionView;

    open spec fn view(&self) -> ActionView {
        match self {
            Action::Join { session, channel } => ActionView::Join {
                session: *session as int,
                channel: channel@,
            },
            Action::Part { session, channel } => ActionView::Part {
                session: *session as int,
                channel: channel@,
            },
        }
    }
}

/// The actions of a list, each by its view.
pub open spec fn action_views(v: Seq<Action>) -> Seq<ActionView> {
    v.map_values(|a: Action| a@)
}

/// The swaps of session `i` as actions: for each swap, in order, the
/// join and then the part.
pub open spec fn swap_actions(i: int, swaps: Seq<SwapView>) -> Seq<ActionView>
    decreases swaps.len(),
{
    if swaps.len() == 0 {
        Seq::empty()
    } else {
        swap_actions(i, swaps.drop_last()).push(
            ActionView::Join { session: i, channel: swaps.last().join },
        ).push(ActionView::Part { session: i, channel: swaps.last().part })
    }
}

/// The further joins of session `i` as actions, in order.
pub open spec fn join_actions(i: int, joins: Seq<Seq<char>>) -> Seq<ActionView>
    decreases joins.len(),
{
    if joins.len() == 0 {
        Seq::empty()
    } else {
        join_actions(i, joins.drop_last()).push(
            ActionView::Join { session: i, channel: joins.last() },
        )
    }
}

/// The swaps of the first `n` sessions as actions, session by session.
pub open spec fn all_swap_actions(plans: Seq<SessionPlanView>, n: int) -> Seq<ActionView>
    decreases n,
{
    if n <= 0 {
        Seq::empty()
    } else {
        all_swap_actions(plans, n - 1) + swap_actions(n - 1, plans[n - 1].swaps)
    }
}

/// The further joins of the first `n` sessions as actions, session by
/// session.
pub open spec fn all_join_actions(plans: Seq<SessionPlanView>, n: int) -> Seq<ActionView>
    decreases n,
{
    if n <= 0 {
        Seq::empty()
    } else {
        all_join_actions(plans, n - 1) + join_actions(n - 1, plans[n - 1].joins)
    }
}

/// The actions that carry out `plans`: first every session's swaps, each
/// as a join and then a part, session by session; then every session's
/// further joins, session by session.
pub open spec fn actions_of(plans: Seq<SessionPlanView>) -> Seq<ActionView> {
    all_swap_actions(plans, plans.len() as int) + all_join_actions(plans, plans.len() as int)
}

/// The members of the sessions after one action. An action for a
/// session that is not there changes nothing.
pub open spec fn after_action(m: Seq<Seq<Seq<char>>>, a: ActionView) -> Seq<Seq<Seq<char>>> {
    match a {
        ActionView::Join { session, channel } => if 0 <= session < m.len() {
            m.update(session, joined(m[session], channel))
        } else {
            m
        },
        ActionView::Part { session, channel } => if 0 <= session < m.len() {
            m.update(session, parted(m[session], channel))
        } else {
            m
        },
    }
}

/// The members of the sessions after `actions`, one after the other.
pub open spec fn after_actions(m: Seq<Seq<Seq<char>>>, actions: Seq<ActionView>) -> Seq<
    Seq<Seq<char>>,
>
    decreases actions.len(),
{
    if actions.len() == 0 {
        m
    } else {
        after_action(after_actions(m, actions.drop_last()), actions.last())
    }
}

/// The actions that carry out `plans`, in the order in which they are
/// to be asked of the sessions.
pub fn plan_actions(plans: &Vec<SessionPlan>) -> (r: Vec<Action>)
    ensures
        action_views(r@) == actions_of(plan_views(plans@)),
{
    let ghost p = plan_views(plans@);
    let mut out: Vec<Action> = Vec::new();
    let mut i: usize = 0;
    proof {
        assert(action_views(out@) =~= all_swap_actions(p, 0));
    }
    while i < plans.len()
        invariant
            i <= plans.len(),
            p == plan_views(plans@),
            action_views(out@) == all_swap_actions(p, i as int),
        decreases plans.len() - i,
    {
        let swaps = &plans[i].swaps;
        let ghost sv = swap_views(swaps@);
        let ghost before = action_views(out@);
        let mut t: usize = 0;
        proof {
            assert(p[i as int].swaps == sv);
            assert(sv.take(0) =~= Seq::<SwapView>::empty());
            assert(before + swap_actions(i as int, sv.take(0)) =~= before);
        }
        while t < swaps.len()
            invariant
                t <= swaps.len(),
                sv == swap_views(swaps@),
                action_views(out@) == before + swap_actions(i as int, sv.take(t as int)),
            decreases swaps.len() - t,
        {
            let join = Action::Join { session: i, channel: swaps[t].join.clone() };
            let part = Action::Part { session: i, channel: swaps[t].part.clone() };
            proof {
                assert(sv.take(t + 1).drop_last() =~= sv.take(t as int));
                assert(sv.take(t + 1).last() == swaps@[t as int]@);
                let so_far = swap_actions(i as int, sv.take(t as int));
                assert(action_views(out@.push(join).push(part)) =~= action_views(out@).push(
                    join@,
                ).push(part@));
                assert((before + so_far).push(join@).push(part@) =~= before + so_far.push(
                    join@,
                ).push(part@));
            }
            out.push(join);
            out.push(part);
            t += 1;
        }
        proof {
            assert(sv.take(swaps@.len() as int) =~= sv);
        }
        i += 1;
    }
    let ghost swapped = action_views(out@);
    let mut i: usize = 0;
    proof {
        assert(swapped + all_join_actions(p, 0) =~= swapped);
    }
    while i < plans.len()
        invariant
            i <= plans.len(),
            p == plan_views(plans@),
            swapped == all_swap_actions(p, plans@.len() as int),
            action_views(out@) == swapped + all_join_actions(p, i as int),
        decreases plans.len() - i,
    {
        let joins = &plans[i].joins;
        let ghost jv = logins(joins@);
        let ghost before = all_join_actions(p, i as int);
        let mut t: usize = 0;
        proof {
            assert(p[i as int].joins == jv);
            assert(jv.take(0) =~= Seq::<Seq<char>>::empty());
            assert(swapped + (before + join_actions(i as int, jv.take(0))) =~= swapped + before);
        }
        while t < joins.len()
            invariant
                t <= joins.len(),
                jv == logins(joins@),
                action_views(out@) == swapped + (before + join_actions(
                    i as int,
                    jv.take(t as int),
                )),
            decreases joins.len() - t,
        {
            let join = Action::Join { session: i, channel: joins[t].clone() };
            proof {
                assert(jv.take(t + 1).drop_last() =~= jv.take(t as int));
                assert(jv.take(t + 1).last() == joins@[t as int]@);
                let so_far = join_actions(i as int, jv.take(t as int));
                assert(action_views(out@.push(join)) =~= action_views(out@).push(join@));
                assert((swapped + (before + so_far)).push(join@) =~= swapped + (before
                    + so_far.push(join@)));
            }
            out.push(join);
            t += 1;
        }
        proof {
            assert(jv.take(joins@.len() as int) =~= jv);
        }
        i += 1;
    }
    out
}

/// Actions one after the other: what holds after two lists of actions is
/// what holds after the second, started from what holds after the first.
pub proof fn lemma_after_actions_add(
    m: Seq<Seq<Seq<char>>>,
    a: Seq<ActionView>,
    b: Seq<ActionView>,
)
    ensures
        after_actions(m, a + b) == after_actions(after_actions(m, a), b),
    decreases b.len(),
{
    if b.len() == 0 {
        assert(a + b =~= a);
    } else {
        lemma_after_actions_add(m, a, b.drop_last());
        assert((a + b).drop_last() =~= a + b.drop_last());
        assert((a + b).last() == b.last());
    }
}

/// The swaps of one session change that session alone, as its swaps
/// do.
pub proof fn lemma_after_swap_actions(m: Seq<Seq<Seq<char>>>, i: int, swaps: Seq<SwapView>)
    requires
        0 <= i,
    ensures
        after_actions(m, swap_actions(i, swaps)) == if i < m.len() {
            m.update(i, after_swaps(m[i], swaps))
        } else {
            m
        },
    decreases swaps.len(),
{
    if swaps.len() == 0 {
        if i < m.len() {
            assert(m.update(i, m[i]) =~= m);
        }
    } else {
        let front = swaps.drop_last();
        lemma_after_swap_actions(m, i, front);
        let join = ActionView::Join { session: i, channel: swaps.last().join };
        let part = ActionView::Part { session: i, channel: swaps.last().part };
        let acts = swap_actions(i, swaps);
        assert(acts.drop_last() =~= swap_actions(i, front).push(join));
        assert(acts.last() == part);
        assert(acts.drop_last().drop_last() =~= swap_actions(i, front));
        assert(acts.drop_last().last() == join);
        let a1 = acts.drop_last();
        let r0 = after_actions(m, swap_actions(i, front));
        assert(after_actions(m, a1) == after_action(after_actions(m, a1.drop_last()), join));
        assert(after_actions(m, a1) == after_action(r0, join));
        assert(after_actions(m, acts) == after_action(after_actions(m, a1), part));
        if i < m.len() {
            let s0 = m.update(i, after_swaps(m[i], front));
            let s1 = after_action(s0, join);
            let s2 = after_action(s1, part);
            assert(s1 =~= m.update(i, joined(after_swaps(m[i], front), swaps.last().join)));
            assert(s2 =~= m.update(i, after_swaps(m[i], swaps)));
        }
    }
}

/// The further joins of one session change that session alone, as its
/// joins do.
pub proof fn lemma_after_join_actions(m: Seq<Seq<Seq<char>>>, i: int, joins: Seq<Seq<char>>)
    requires
        0 <= i,
    ensures
        after_actions(m, join_actions(i, joins)) == if i < m.len() {
            m.update(i, after_joins(m[i], joins))
        } else {
            m
        },
    decreases joins.len(),
{
    if joins.len() == 0 {
        if i < m.len() {
            assert(m.update(i, m[i]) =~= m);
        }
    } else {
        let front = joins.drop_last();
        lemma_after_join_actions(m, i, front);
        let join = ActionView::Join { session: i, channel: joins.last() };
        let acts = join_actions(i, joins);
        assert(acts.drop_last() =~= join_actions(i, front));
        assert(acts.last() == join);
        if i < m.len() {
            let s0 = m.update(i, after_joins(m[i], front));
            assert(after_action(s0, join) =~= m.update(i, after_joins(m[i], joins)));
        }
    }
}

/// The members after the swaps of the first `n` sessions.
pub open spec fn after_all_swaps(m: Seq<Seq<Seq<char>>>, plans: Seq<SessionPlanView>, n: int)
    -> Seq<Seq<Seq<char>>> {
    Seq::new(
        m.len(),
        |i: int|
            if i < n {
                after_swaps(m[i], plans[i].swaps)
            } else {
                m[i]
            },
    )
}

/// The members after the further joins of the first `n` sessions.
pub open spec fn after_all_joins(s: Seq<Seq<Seq<char>>>, plans: Seq<SessionPlanView>, n: int)
    -> Seq<Seq<Seq<char>>> {
    Seq::new(
        s.len(),
        |i: int|
            if i < n {
                after_joins(s[i], plans[i].joins)
            } else {
                s[i]
            },
    )
}

/// The swaps of the first `n` sessions change each of these sessions as
/// its own swaps do, and no other.
pub proof fn lemma_after_all_swap_actions(
    m: Seq<Seq<Seq<char>>>,
    plans: Seq<SessionPlanView>,
    n: int,
)
    requires
        0 <= n <= plans.len(),
    ensures
        after_actions(m, all_swap_actions(plans, n)) == after_all_swaps(m, plans, n),
    decreases n,
{
    if n == 0 {
        assert(after_all_swaps(m, plans, 0) =~= m);
    } else {
        lemma_after_all_swap_actions(m, plans, n - 1);
        let before = all_swap_actions(plans, n - 1);
        let here = swap_actions(n - 1, plans[n - 1].swaps);
        lemma_after_actions_add(m, before, here);
        let s = after_all_swaps(m, plans, n - 1);
        lemma_after_swap_actions(s, n - 1, plans[n - 1].swaps);
        assert(after_actions(s, here) =~= after_all_swaps(m, plans, n));
    }
}

/// The further joins of the first `n` sessions change each of these
/// sessions as its own joins do, and no other.
pub proof fn lemma_after_all_join_actions(
    s: Seq<Seq<Seq<char>>>,
    plans: Seq<SessionPlanView>,
    n: int,
)
    requires
        0 <= n <= plans.len(),
    ensures
        after_actions(s, all_join_actions(plans, n)) == after_all_joins(s, plans, n),
    decreases n,
{
    if n == 0 {
        assert(after_all_joins(s, plans, 0) =~= s);
    } else {
        lemma_after_all_join_actions(s, plans, n - 1);
        let before = all_join_actions(plans, n - 1);
        let here = join_actions(n - 1, plans[n - 1].joins);
        lemma_after_actions_add(s, before, here);
        let r = after_all_joins(s, plans, n - 1);
        lemma_after_join_actions(r, n - 1, plans[n - 1].joins);
        assert(after_actions(r, here) =~= after_all_joins(s, plans, n));
    }
}

/// Carrying out the actions of a plan is carrying out the plan: after
/// the actions, every session with a plan holds what it holds after its
/// plan, and every other session what it held.
pub proof fn lemma_actions_carry_out_plans(m: Seq<Seq<Seq<char>>>, plans: Seq<SessionPlanView>)
    ensures
        after_actions(m, actions_of(plans)) == after_refresh(m, plans),
{
    let n = plans.len() as int;
    let swaps = all_swap_actions(plans, n);
    let joins = all_join_actions(plans, n);
    lemma_after_actions_add(m, swaps, joins);
    lemma_after_all_swap_actions(m, plans, n);
    let s = after_all_swaps(m, plans, n);
    lemma_after_all_join_actions(s, plans, n);
    assert(after_all_joins(s, plans, n) =~= after_refresh(m, plans)) by {
        assert forall|i: int| 0 <= i < m.len() implies after_all_joins(s, plans, n)[i]
            == after_refresh(m, plans)[i] by {
            if i < n {
                assert(after_plan(m[i], plans[i]) == after_joins(
                    after_swaps(m[i], plans[i].swaps),
                    plans[i].joins,
                ));
            }
        }
    }
}

} // verus!
