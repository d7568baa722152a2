use std::collections::HashSet;
use std::iter::FromIterator;

use twitch_chat_logger::actions::{plan_actions, Action};
use twitch_chat_logger::channels::{cleanup_channels, repeated_channels};
use twitch_chat_logger::controller::{IrcController, TestController};
use twitch_chat_logger::fleet::{plan_refresh, ControllerGroup, SessionPlan};

fn names(range: std::ops::Range<u32>) -> Vec<String> {
    range.map(|i| i.to_string()).collect()
}

fn init_test(channels: Vec<String>, channels_per_controller: u64) -> ControllerGroup {
    let chans_length = channels.len() as u64;
    ControllerGroup::init_inner(channels, chans_length, channels_per_controller)
}

fn empty_fleet(sessions: usize, capacity: u64) -> ControllerGroup {
    ControllerGroup {
        controllers: (0..sessions).map(|_| TestController::new()).collect(),
        max_channels: sessions as u64 * capacity,
        channels_per_controller: capacity,
    }
}

fn fleet_of(shares: Vec<Vec<String>>, capacity: u64) -> ControllerGroup {
    let total: usize = shares.iter().map(|s| s.len()).sum();
    ControllerGroup {
        controllers: shares.into_iter().map(TestController::init).collect(),
        max_channels: total as u64,
        channels_per_controller: capacity,
    }
}

fn count_joins(plans: &[SessionPlan]) -> usize {
    plans.iter().map(|p| p.swaps.len() + p.joins.len()).sum()
}

fn count_parts(plans: &[SessionPlan]) -> usize {
    plans.iter().map(|p| p.swaps.len()).sum()
}

fn assert_refresh_works(mut initial: ControllerGroup, final_channels: Vec<String>) {
    initial.refresh_channels_inner(final_channels.clone());
    let refresh_channels: Vec<String> = initial.list_channels().into_iter().flatten().collect();

    let refresh_channels_set = HashSet::<String>::from_iter(refresh_channels.clone().into_iter());
    assert_eq!(refresh_channels.len(), refresh_channels_set.len());
    assert_eq!(
        HashSet::from_iter(final_channels.clone().into_iter()),
        refresh_channels_set
    );
}

#[test]
fn test_join_through_reference() {
    let mut controller = TestController::new();
    (&mut controller).join("a_channel".to_string()).unwrap();
    assert_eq!(controller.list(), Some(vec!["a_channel".to_string()]));
}

#[test]
fn test_refresh_channels_no_op() {
    let new_channels: Vec<_> = (0..10).map(|i| i.to_string()).collect();
    assert_refresh_works(init_test(new_channels.clone(), 2), new_channels);
}

#[test]
fn test_refresh_channels_single_replacement() {
    let channels: Vec<_> = (0..100).map(|i| i.to_string()).collect();
    let mut new_channels = channels.clone();
    new_channels.pop();
    new_channels.push("101".to_string());
    assert_eq!(channels.len(), new_channels.len());
    assert_refresh_works(init_test(channels, 10), new_channels);
}

#[test]
fn test_channels_replace_all() {
    let channels: Vec<_> = (0..100).map(|i| i.to_string()).collect();
    let new_channels: Vec<_> = (300..400).map(|i| i.to_string()).collect();
    assert_eq!(channels.len(), new_channels.len());
    assert_refresh_works(init_test(channels, 10), new_channels);
}

#[test]
fn simulate_api_issues_refresh() {
    let channels: Vec<_> = (0..100).map(|i| i.to_string()).collect();
    let mut group = init_test(channels, 10);
    let new_channels: Vec<_> = (10..101).map(|i| i.to_string()).collect();
    group.refresh_channels_inner(new_channels);
}

#[test]
fn cleanup_keeps_first_occurrences_in_order() {
    let input: Vec<String> = ["a", "b", "a", "c", "b", "a"].iter().map(|s| s.to_string()).collect();
    let (kept, short) = cleanup_channels(input, 3);
    assert_eq!(kept, vec!["a".to_string(), "b".to_string(), "c".to_string()]);
    assert!(!short);
}

#[test]
fn cleanup_reports_a_short_list() {
    let input: Vec<String> = ["a", "a"].iter().map(|s| s.to_string()).collect();
    let (kept, short) = cleanup_channels(input, 2);
    assert_eq!(kept, vec!["a".to_string()]);
    assert!(short);
    let (none, short) = cleanup_channels(Vec::new(), 0);
    assert!(none.is_empty());
    assert!(!short);
}

#[test]
fn settled_fleet_gets_an_empty_plan() {
    let shares = vec![names(0..3), names(3..6)];
    let plans = plan_refresh(&shares, names(0..6), 3);
    assert_eq!(plans.len(), 2);
    assert_eq!(count_joins(&plans), 0);
    assert_eq!(count_parts(&plans), 0);
}

#[test]
fn empty_fleet_is_filled_ten_per_session() {
    let mut fleet = empty_fleet(10, 10);
    let plans = fleet.refresh_channels_inner(names(0..100));
    assert_eq!(count_joins(&plans), 100);
    assert_eq!(count_parts(&plans), 0);
    let members = fleet.list_channels();
    assert_eq!(members.len(), 10);
    for (i, m) in members.iter().enumerate() {
        assert_eq!(m, &names(i as u32 * 10..i as u32 * 10 + 10));
    }
}

#[test]
fn one_replacement_is_one_join_and_one_part() {
    let shares: Vec<Vec<String>> = (0..10).map(|i| names(i * 10..i * 10 + 10)).collect();
    let mut fleet = fleet_of(shares.clone(), 10);
    let mut wanted = names(0..99);
    wanted.push("101".to_string());
    let plans = fleet.refresh_channels_inner(wanted);
    assert_eq!(count_joins(&plans), 1);
    assert_eq!(count_parts(&plans), 1);
    assert_eq!(plans[9].swaps.len(), 1);
    assert_eq!(plans[9].swaps[0].join, "101");
    assert_eq!(plans[9].swaps[0].part, "99");
    let members = fleet.list_channels();
    for i in 0..9 {
        assert_eq!(members[i], shares[i]);
    }
    let mut last = names(90..99);
    last.push("101".to_string());
    assert_eq!(members[9], last);
}

#[test]
fn short_supply_parts_only_what_is_replaced() {
    let shares = vec![names(0..3), names(3..6)];
    let mut fleet = fleet_of(shares, 3);
    let wanted = vec!["0".to_string(), "9".to_string()];
    let plans = fleet.refresh_channels_inner(wanted);
    assert_eq!(count_parts(&plans), 1);
    assert_eq!(count_joins(&plans), 1);
    assert_eq!(plans[0].swaps[0].join, "9");
    assert_eq!(plans[0].swaps[0].part, "1");
    assert!(plans[1].swaps.is_empty());
    let members = fleet.list_channels();
    assert_eq!(members[0], vec!["0".to_string(), "2".to_string(), "9".to_string()]);
    assert_eq!(members[1], names(3..6));
}

#[test]
fn room_is_topped_up_in_session_order() {
    let shares = vec![names(0..1), names(1..3), Vec::new()];
    let plans = plan_refresh(&shares, names(0..7), 3);
    assert!(plans.iter().all(|p| p.swaps.is_empty()));
    assert_eq!(plans[0].joins, names(3..5));
    assert_eq!(plans[1].joins, names(5..6));
    assert_eq!(plans[2].joins, names(6..7));
}

#[test]
fn a_channel_held_twice_is_surplus_the_second_time() {
    let shares = vec![names(0..1), names(0..1)];
    let plans = plan_refresh(&shares, names(0..2), 1);
    assert!(plans[0].swaps.is_empty());
    assert_eq!(plans[1].swaps.len(), 1);
    assert_eq!(plans[1].swaps[0].join, "1");
    assert_eq!(plans[1].swaps[0].part, "0");
}

#[test]
fn session_joins_once_and_parts_quietly() {
    let mut c = TestController::init(vec!["a".to_string(), "b".to_string(), "a".to_string()]);
    assert_eq!(c.len(), 2);
    c.join("b".to_string()).unwrap();
    assert_eq!(c.list(), Some(vec!["a".to_string(), "b".to_string()]));
    c.part("zzz".to_string()).unwrap();
    c.part("a".to_string()).unwrap();
    assert_eq!(c.list(), Some(vec!["b".to_string()]));
    assert!(c.contains(&"b".to_string()));
    assert!(!c.contains(&"a".to_string()));
}

#[test]
fn init_deals_every_channel_once() {
    let fleet = init_test(names(0..25), 10);
    let members = fleet.list_channels();
    assert_eq!(members.len(), 3);
    assert_eq!(members[0].len(), 10);
    assert_eq!(members[1].len(), 10);
    assert_eq!(members[2].len(), 5);
    let all: HashSet<String> = members.into_iter().flatten().collect();
    assert_eq!(all, HashSet::from_iter(names(0..25)));
    assert_eq!(fleet.max_channels, 25);
}

#[test]
fn shards_come_in_a_shuffled_order() {
    let given = names(0..200);
    let groups = twitch_chat_logger::channels::shuffled_shards(given.clone(), 200);
    assert_eq!(groups.len(), 1);
    assert_ne!(groups[0], given);
    let mut sorted = groups[0].clone();
    sorted.sort_by_key(|s| s.parse::<u32>().unwrap());
    assert_eq!(sorted, given);
}

#[test]
fn shards_hold_their_share_in_order() {
    let given = names(0..7);
    let groups = twitch_chat_logger::channels::shard(&given, 3);
    assert_eq!(groups, vec![names(0..3), names(3..6), names(6..7)]);
    assert_eq!(twitch_chat_logger::channels::shard(&given, 7), vec![names(0..7)]);
    assert_eq!(twitch_chat_logger::channels::shard(&given, u64::MAX), vec![names(0..7)]);
    assert_eq!(twitch_chat_logger::channels::shard(&given, 1).len(), 7);
    assert!(twitch_chat_logger::channels::shard(&Vec::new(), 3).is_empty());
}

#[test]
fn a_pass_within_the_capacity_reaches_the_wanted_channels() {
    let mut fleet = fleet_of(vec![names(0..2), names(2..3), Vec::new()], 3);
    let wanted = vec!["2", "9", "0", "8", "7", "6", "5"];
    let wanted: Vec<String> = wanted.into_iter().map(String::from).collect();
    let plans = fleet.refresh_channels_inner(wanted.clone());
    assert_eq!(count_parts(&plans), 1);
    assert_eq!(count_joins(&plans), 5);
    let members = fleet.list_channels();
    let all: Vec<String> = members.iter().flatten().cloned().collect();
    let set: HashSet<String> = all.iter().cloned().collect();
    assert_eq!(all.len(), set.len());
    assert_eq!(set, HashSet::from_iter(wanted));
    assert!(members.iter().all(|m| m.len() <= 3));
}

#[test]
fn the_dropped_repeats_are_told() {
    let input: Vec<String> = ["a", "b", "a", "c", "b", "a"].iter().map(|s| s.to_string()).collect();
    let dropped = repeated_channels(&input);
    assert_eq!(dropped, vec!["a".to_string(), "b".to_string(), "a".to_string()]);
    let (kept, _) = cleanup_channels(input.clone(), 0);
    assert_eq!(kept.len() + dropped.len(), input.len());
    assert!(repeated_channels(&kept).is_empty());
    assert!(repeated_channels(&Vec::new()).is_empty());
}

#[test]
fn every_wanted_channel_is_joined_while_the_fleet_has_room() {
    let start = vec![
        vec!["a".to_string(), "b".to_string(), "c".to_string()],
        Vec::new(),
        vec!["a".to_string()],
    ];
    let mut fleet = fleet_of(start, 2);
    let wanted: Vec<String> = ["a", "x", "y", "z", "x", "w"].iter().map(|s| s.to_string()).collect();
    let plans = fleet.refresh_channels_inner(wanted.clone());
    assert_eq!(count_parts(&plans), 3);
    assert_eq!(count_joins(&plans), 4);
    let members = fleet.list_channels();
    assert_eq!(members[0], vec!["a".to_string(), "x".to_string(), "y".to_string()]);
    assert_eq!(members[1], vec!["w".to_string()]);
    assert_eq!(members[2], vec!["z".to_string()]);
    let held: HashSet<String> = members.iter().flatten().cloned().collect();
    for w in &wanted {
        assert!(held.contains(w));
    }
}

#[test]
fn when_a_candidate_is_left_every_session_is_full() {
    let start = vec![names(0..1), names(1..3), Vec::new()];
    let mut fleet = fleet_of(start.clone(), 2);
    let plans = fleet.refresh_channels_inner(names(0..20));
    assert_eq!(count_parts(&plans), 0);
    assert_eq!(count_joins(&plans), 3);
    let members = fleet.list_channels();
    assert_eq!(members[0], vec!["0".to_string(), "3".to_string()]);
    assert_eq!(members[1], names(1..3));
    assert_eq!(members[2], names(4..6));
    for (before, after) in start.iter().zip(members.iter()) {
        assert!(after.len() >= 2);
        assert!(after.len() >= before.len());
    }
}

fn join(session: usize, channel: &str) -> Action {
    Action::Join { session, channel: channel.to_string() }
}

fn part(session: usize, channel: &str) -> Action {
    Action::Part { session, channel: channel.to_string() }
}

#[test]
fn a_plan_is_carried_out_swaps_first_then_joins() {
    let shares = vec![names(0..2), names(2..3), Vec::new()];
    let wanted: Vec<String> = ["2", "9", "8", "7", "6", "5"].iter().map(|s| s.to_string()).collect();
    let plans = plan_refresh(&shares, wanted, 3);
    assert_eq!(
        plan_actions(&plans),
        vec![
            join(0, "9"),
            part(0, "0"),
            join(0, "8"),
            part(0, "1"),
            join(0, "7"),
            join(1, "6"),
            join(1, "5"),
        ]
    );
    assert!(plan_actions(&Vec::new()).is_empty());
    assert!(plan_actions(&plan_refresh(&shares, names(0..3), 3)).is_empty());
}

#[test]
fn the_actions_of_a_plan_do_what_the_pass_does() {
    let shares = vec![names(0..2), names(2..3), Vec::new()];
    let wanted: Vec<String> = ["2", "9", "8", "7", "6", "5"].iter().map(|s| s.to_string()).collect();
    let mut by_pass = fleet_of(shares.clone(), 3);
    by_pass.refresh_channels_inner(wanted.clone());
    let mut by_hand: Vec<TestController> = shares.clone().into_iter().map(TestController::init).collect();
    for action in plan_actions(&plan_refresh(&shares, wanted, 3)) {
        match action {
            Action::Join { session, channel } => by_hand[session].join(channel).unwrap(),
            Action::Part { session, channel } => by_hand[session].part(channel).unwrap(),
        }
    }
    let held: Vec<Vec<String>> = by_hand.iter().map(|c| c.list().unwrap()).collect();
    assert_eq!(by_pass.list_channels(), held);
}
