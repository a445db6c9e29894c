use matchmaker::clock::{moment, Clock};
use matchmaker::model::Player;
use matchmaker::number::Real;
use matchmaker::pool::PlayerPool;
use uuid::Uuid;

fn number(x: f32) -> Real {
    Real { bits: x.to_bits() }
}

fn player(skill: f32, region: &str) -> Player {
    Player {
        id: Uuid::new_v4().as_u128(),
        skill: number(skill),
        region: region.to_string(),
        queued_at: None,
    }
}

fn numbered(id: u128, skill: f32) -> Player {
    Player { id, skill: number(skill), region: "r".to_string(), queued_at: None }
}

#[test]
fn insert_then_remove_roundtrip() {
    let mut pool = PlayerPool::new();
    let p = player(50.0, "us-east");
    let id = p.id;
    pool.insert(p);
    assert_eq!(pool.len(), 1);
    let got = pool.remove(&id).expect("present");
    assert_eq!(got.id, id);
    assert!(got.queued_at.is_some(), "insert must stamp queued_at");
    assert_eq!(pool.len(), 0);
}

#[test]
fn double_remove_yields_none() {
    let mut pool = PlayerPool::new();
    let p = player(50.0, "us-east");
    let id = p.id;
    pool.insert(p);
    assert!(pool.remove(&id).is_some());
    assert!(pool.remove(&id).is_none(), "second remove must be None");
}

#[test]
fn oldest_returns_first_inserted() {
    let mut pool = PlayerPool::new();
    let first = player(10.0, "eu-west");
    let first_id = first.id;
    pool.insert(first);
    // Force a distinct, later moment for the second insert.
    let later = pool.now() + 2_000_000;
    while pool.now() < later {}
    pool.insert(player(90.0, "eu-west"));
    assert_eq!(pool.oldest().unwrap().id, first_id);
}

#[test]
fn query_range_is_inclusive_and_skill_bounded() {
    let mut pool = PlayerPool::new();
    pool.insert(player(10.0, "r"));
    pool.insert(player(50.0, "r"));
    pool.insert(player(90.0, "r"));
    let ids = pool.query_range(number(40.0), number(60.0), 100);
    assert_eq!(ids.len(), 1, "only the skill-50 player is in [40,60]");
}

#[test]
fn reinsert_preserves_wait_clock() {
    let mut pool = PlayerPool::new();
    let mut p = player(50.0, "r");
    let id = p.id;
    let original = pool.now() - 10_000_000_000;
    p.queued_at = Some(original);
    pool.reinsert(p);
    let got = pool.remove(&id).unwrap();
    assert_eq!(got.queued_at, Some(original), "reinsert must not reset the wait clock");
}

#[test]
fn new_pool_is_empty() {
    let pool = PlayerPool::new();
    assert_eq!(pool.len(), 0);
    assert!(pool.oldest().is_none());
    assert!(pool.get(&1).is_none());
    assert!(pool.query_range(number(0.0), number(100.0), 10).is_empty());
}

#[test]
fn insert_resets_a_wait_clock_that_was_set() {
    let mut pool = PlayerPool::new();
    let mut p = numbered(1, 50.0);
    p.queued_at = Some(-5);
    pool.insert_at(p, 70);
    assert_eq!(pool.get(&1).unwrap().queued_at, Some(70));
}

#[test]
fn insert_stamps_the_present_moment() {
    let mut pool = PlayerPool::new();
    let before = pool.now();
    pool.insert(numbered(1, 50.0));
    let after = pool.now();
    let stamp = pool.get(&1).unwrap().queued_at.unwrap();
    assert!(0 <= before && before <= stamp && stamp <= after);
}

#[test]
fn the_clock_advances() {
    let mut pool = PlayerPool::new();
    let start = pool.now();
    let mut spins: u64 = 0;
    while pool.now() <= start {
        spins += 1;
        assert!(spins < 1_000_000_000);
    }
}

#[test]
fn reinsert_without_a_wait_clock_falls_back() {
    let mut pool = PlayerPool::new();
    pool.reinsert_at(numbered(1, 50.0), 33);
    assert_eq!(pool.get(&1).unwrap().queued_at, Some(33));
    pool.reinsert(numbered(2, 50.0));
    assert!(pool.get(&2).unwrap().queued_at.unwrap() >= 0);
}

#[test]
fn remove_gives_back_what_was_inserted() {
    let mut pool = PlayerPool::new();
    pool.insert_at(player(12.5, "ap-south"), 1);
    let p = player(62.5, "us-east");
    let id = p.id;
    pool.insert_at(p, 9);
    let got = pool.remove(&id).unwrap();
    assert_eq!(got.skill, number(62.5));
    assert_eq!(got.region, "us-east");
    assert_eq!(got.queued_at, Some(9));
    assert_eq!(pool.len(), 1);
}

#[test]
fn reinsert_undoes_remove() {
    let mut pool = PlayerPool::new();
    for (id, skill, t) in [(1, 10.0, 5), (2, 20.0, 3), (3, 30.0, 4)] {
        pool.insert_at(numbered(id, skill), t);
    }
    let p = pool.remove(&2).unwrap();
    assert_eq!(pool.oldest().unwrap().id, 3);
    pool.reinsert_at(p, 1_000);
    assert_eq!(pool.oldest().unwrap().id, 2);
    assert_eq!(pool.query_range(number(0.0), number(100.0), 9), vec![1, 2, 3]);
}

#[test]
fn removals_of_different_players_do_not_disturb_each_other() {
    let mut pool = PlayerPool::new();
    pool.insert_at(numbered(1, 10.0), 1);
    pool.insert_at(numbered(2, 20.0), 2);
    assert!(pool.remove(&7).is_none());
    assert_eq!(pool.len(), 2);
    assert!(pool.remove(&1).is_some());
    assert!(pool.get(&2).is_some());
    assert!(pool.remove(&2).is_some());
    assert_eq!(pool.len(), 0);
}

#[test]
fn oldest_goes_by_moment_and_then_by_id() {
    let mut pool = PlayerPool::new();
    pool.insert_at(numbered(9, 1.0), 40);
    pool.insert_at(numbered(5, 99.0), 30);
    pool.insert_at(numbered(3, 50.0), 30);
    assert_eq!(pool.oldest().unwrap().id, 3);
    pool.reinsert_at(Player { queued_at: Some(-1), ..numbered(8, 50.0) }, 100);
    assert_eq!(pool.oldest().unwrap().id, 8);
}

#[test]
fn nobody_has_waited_longer_than_the_oldest() {
    let mut pool = PlayerPool::new();
    for (id, t) in [(4, 800), (2, 100), (7, 350)] {
        pool.insert_at(numbered(id, 50.0), t * 1_000_000);
    }
    let now = 1_000_000_000;
    let longest = pool.oldest().unwrap().wait_ms(now);
    assert_eq!(longest, 900);
    for id in [4, 2, 7] {
        assert!(pool.get(&id).unwrap().wait_ms(now) <= longest);
    }
}

#[test]
fn queueing_again_under_the_same_id_leaves_no_stale_entry() {
    let mut pool = PlayerPool::new();
    pool.insert_at(numbered(1, 10.0), 1);
    pool.insert_at(numbered(1, 90.0), 7);
    assert_eq!(pool.len(), 1);
    assert!(pool.query_range(number(0.0), number(50.0), 9).is_empty());
    assert_eq!(pool.query_range(number(50.0), number(100.0), 9), vec![1]);
    assert_eq!(pool.oldest().unwrap().queued_at, Some(7));
    assert!(pool.remove(&1).is_some());
    assert!(pool.oldest().is_none());
    assert!(pool.query_range(number(0.0), number(100.0), 9).is_empty());
}

#[test]
fn query_range_lists_by_skill_then_id_up_to_the_cap() {
    let mut pool = PlayerPool::new();
    for (id, skill) in [(1, 60.0), (2, 40.0), (3, 50.0), (5, 50.0), (4, 50.0), (6, 60.5), (7, 39.5)] {
        pool.insert_at(numbered(id, skill), 0);
    }
    assert_eq!(pool.query_range(number(40.0), number(60.0), 100), vec![2, 3, 4, 5, 1]);
    assert_eq!(pool.query_range(number(40.0), number(60.0), 3), vec![2, 3, 4]);
    assert!(pool.query_range(number(40.0), number(60.0), 0).is_empty());
    assert_eq!(pool.query_range(number(50.0), number(50.0), 9), vec![3, 4, 5]);
    assert_eq!(pool.len(), 7);
}

#[test]
fn query_range_takes_ids_at_both_ends() {
    let mut pool = PlayerPool::new();
    pool.insert_at(numbered(u128::MAX, 50.0), 0);
    pool.insert_at(numbered(0, 50.0), 0);
    pool.insert_at(numbered(1, 51.0), 0);
    assert_eq!(pool.query_range(number(50.0), number(50.0), 9), vec![0, u128::MAX]);
    assert_eq!(pool.query_range(number(50.0), number(51.0), 9), vec![0, u128::MAX, 1]);
}

#[test]
fn the_zeros_share_a_place_and_nan_is_last() {
    let mut pool = PlayerPool::new();
    pool.insert_at(numbered(2, 0.0), 0);
    pool.insert_at(numbered(1, -0.0), 0);
    pool.insert_at(numbered(0, f32::NAN), 0);
    let all = pool.query_range(number(f32::NEG_INFINITY), number(f32::NAN), 9);
    assert_eq!(all, vec![1, 2, 0]);
    assert_eq!(pool.query_range(number(0.0), number(f32::INFINITY), 9), vec![1, 2]);
    assert!(pool.remove(&0).is_some());
    assert_eq!(pool.query_range(number(f32::NEG_INFINITY), number(f32::NAN), 9), vec![1, 2]);
}

#[test]
fn walks_go_up_and_down_in_skill() {
    let mut pool = PlayerPool::new();
    for (id, skill) in [(1, 10.0), (2, 20.0), (3, 30.0), (4, 30.0), (5, 30.0), (6, 40.0), (7, 50.0)] {
        pool.insert_at(numbered(id, skill), 0);
    }
    let rank = number(30.0).rank();
    let down = |from, except| pool.next_down(from, except).map(|p| p.id);
    assert_eq!(down((rank, 0), 4), Some(3));
    assert_eq!(down((rank, 4), 4), Some(5));
    assert_eq!(down((rank, 6), 4), Some(2));
    assert_eq!(down((number(20.0).rank(), 3), 4), Some(1));
    assert_eq!(down((number(20.0).rank(), 3), 1), None);
    let up = |from, except| pool.next_up(from, except).map(|p| p.id);
    assert_eq!(up((rank + 1, 0), 4), Some(6));
    assert_eq!(up((rank, 4), 4), Some(5));
    assert_eq!(up((number(40.0).rank(), 7), 4), Some(7));
    assert_eq!(up((number(40.0).rank(), 7), 7), None);
}

#[test]
fn walks_pass_over_the_last_id_of_a_skill() {
    let mut pool = PlayerPool::new();
    pool.insert_at(numbered(u128::MAX, 30.0), 0);
    pool.insert_at(numbered(1, 20.0), 0);
    pool.insert_at(numbered(2, 40.0), 0);
    let rank = number(30.0).rank();
    assert_eq!(pool.next_down((rank, 0), u128::MAX).unwrap().id, 1);
    assert_eq!(pool.next_up((rank, 0), u128::MAX).unwrap().id, 2);
    assert_eq!(pool.next_down((rank, 0), 0).unwrap().id, u128::MAX);
}

#[test]
fn a_newcomer_does_not_take_the_place_of_the_oldest() {
    let mut pool = PlayerPool::new();
    pool.insert_at(numbered(9, 50.0), 10);
    pool.insert_at(numbered(1, 50.0), 11);
    assert_eq!(pool.oldest().unwrap().id, 9);
}

#[test]
fn moments_never_decrease() {
    let mut clock = Clock::start();
    assert_eq!(clock.advance(700), 700);
    assert_eq!(clock.advance(300), 700);
    assert_eq!(clock.advance(701), 701);
    let mut pool = PlayerPool::new();
    let mut last = pool.now();
    for id in 0..100 {
        pool.insert(numbered(id, 50.0));
        let stamp = pool.get(&id).unwrap().queued_at.unwrap();
        let now = pool.now();
        assert!(last <= stamp && stamp <= now);
        last = now;
    }
}

#[test]
fn moments_end_at_the_greatest() {
    assert_eq!(moment(0), 0);
    assert_eq!(moment(1_500), 1_500);
    assert_eq!(moment(i64::MAX as u64), i64::MAX);
    assert_eq!(moment(i64::MAX as u64 + 1), i64::MAX);
    assert_eq!(moment(u64::MAX), i64::MAX);
}

#[test]
fn wait_is_in_whole_milliseconds() {
    let mut p = numbered(1, 50.0);
    assert_eq!(p.wait_ms(1_000_000_000), 0);
    p.queued_at = Some(-500_000);
    assert_eq!(p.wait_ms(1_499_999), 1);
    assert_eq!(p.wait_ms(1_500_000), 2);
    assert_eq!(p.wait_ms(-500_001), 0);
    p.queued_at = Some(i64::MIN);
    assert_eq!(p.wait_ms(i64::MAX), 18_446_744_073_709);
}
