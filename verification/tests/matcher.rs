use matchmaker::balancer::Appraisal;
use matchmaker::config::Config;
use matchmaker::matcher::{
    claim, gather_candidates, select_candidates, settle_match, start_attempt,
    try_form_match, Candidate,
};
use matchmaker::metrics::Metrics;
use matchmaker::model::Player;
use matchmaker::number::Real;
use matchmaker::pool::PlayerPool;
use uuid::Uuid;

fn number(x: f32) -> Real {
    Real { bits: x.to_bits() }
}

fn value(x: Real) -> f32 {
    f32::from_bits(x.bits)
}

fn defaults() -> Config {
    Config::with_parallelism(None)
}

fn mk(pool: &mut PlayerPool, skill: f32, region: &str) {
    pool.insert(Player {
        id: Uuid::new_v4().as_u128(),
        skill: number(skill),
        region: region.to_string(),
        queued_at: None,
    });
}

/// Insert a player with a back-dated wait clock (preserved by `reinsert`).
fn mk_aged(pool: &mut PlayerPool, skill: f32, region: &str, age_secs: i64) {
    let queued_at = pool.now() - age_secs * 1_000_000_000;
    pool.reinsert(Player {
        id: Uuid::new_v4().as_u128(),
        skill: number(skill),
        region: region.to_string(),
        queued_at: Some(queued_at),
    });
}

fn numbered(id: u128, skill: f32, region: &str) -> Player {
    Player { id, skill: number(skill), region: region.to_string(), queued_at: Some(0) }
}

fn window_for(cfg: &Config, wait_secs: f32) -> f32 {
    let frac = (wait_secs / value(cfg.relax_secs)).clamp(0.0, 1.0);
    value(cfg.initial_window) + (value(cfg.max_window) - value(cfg.initial_window)) * frac
}

fn distance(anchor: &Player, p: &Player) -> Real {
    number((value(p.skill) - value(anchor.skill)).abs())
}

fn candidates(anchor: &Player, found: Vec<Player>) -> Vec<Candidate> {
    found
        .into_iter()
        .map(|player| Candidate { distance: distance(anchor, &player), player })
        .collect()
}

fn gathered(pool: &PlayerPool, cfg: &Config, anchor: &Player, wait_secs: f32) -> Vec<Candidate> {
    let half = window_for(cfg, wait_secs) / 2.0;
    let skill = value(anchor.skill);
    let (lo, hi) = (number(skill - half), number(skill + half));
    let measure = |p: &Player| distance(anchor, p);
    gather_candidates(pool, cfg, anchor, number(wait_secs), lo, hi, &measure)
}

fn attempt(pool: &mut PlayerPool, cfg: &Config, metrics: &mut Metrics) -> Option<Vec<Player>> {
    let now = pool.now();
    let started = start_attempt(pool, now)?;
    let anchor = started.anchor;
    let wait_secs = started.wait_ms as f32 / 1000.0;
    let found = gathered(pool, cfg, &anchor, wait_secs);
    try_form_match(pool, cfg, metrics, &anchor, number(wait_secs), &found)
}

fn found_ids(found: &[Candidate]) -> Vec<u128> {
    found.iter().map(|c| c.player.id).collect()
}

fn ids(players: &[Player]) -> Vec<u128> {
    players.iter().map(|p| p.id).collect()
}

#[test]
fn forms_a_match_when_ten_compatible_players_exist() {
    let mut pool = PlayerPool::new();
    let cfg = defaults();
    let mut metrics = Metrics::default();
    for _ in 0..10 {
        mk(&mut pool, 50.0, "us-east");
    }
    let got = attempt(&mut pool, &cfg, &mut metrics).expect("should form");
    assert_eq!(got.len(), 10);
    assert_eq!(pool.len(), 0, "all 10 must be evicted from the pool");
}

#[test]
fn no_match_when_pool_too_thin() {
    let mut pool = PlayerPool::new();
    let cfg = defaults();
    let mut metrics = Metrics::default();
    for _ in 0..9 {
        mk(&mut pool, 50.0, "us-east");
    }
    assert!(attempt(&mut pool, &cfg, &mut metrics).is_none());
    assert_eq!(pool.len(), 9, "nothing should be evicted on failure");
}

#[test]
fn tight_window_excludes_far_skill_players() {
    let mut pool = PlayerPool::new();
    let cfg = defaults(); // initial_window 5.0 => +-2.5 at t=0
    let mut metrics = Metrics::default();
    // Anchor + 9 others all far away in skill: no match while window is tight.
    mk(&mut pool, 50.0, "us-east");
    for _ in 0..9 {
        mk(&mut pool, 90.0, "us-east");
    }
    assert!(
        attempt(&mut pool, &cfg, &mut metrics).is_none(),
        "skill-90 players are outside the anchor's tight window"
    );
}

#[test]
fn hard_deadline_matches_extreme_outlier_with_anyone() {
    let mut pool = PlayerPool::new();
    let cfg = defaults(); // hard_deadline_secs = 45.0
    let mut metrics = Metrics::default();

    // A lone high-skill anchor that has already waited past the deadline,
    // surrounded by 9 far-away low-skill players in another region. Normal
    // relaxation (max window 40 => +-20) would never reach them, but the
    // hard deadline forces a match.
    mk_aged(&mut pool, 99.0, "lonely", 60);
    for _ in 0..9 {
        mk_aged(&mut pool, 5.0, "us-east", 1);
    }
    let got = attempt(&mut pool, &cfg, &mut metrics)
        .expect("hard deadline must force a match for the starving anchor");
    assert_eq!(got.len(), 10);
}

#[test]
fn cross_region_fallback_fills_when_same_region_is_thin() {
    let mut pool = PlayerPool::new();
    let cfg = defaults();
    let mut metrics = Metrics::default();
    // Only 1 in the anchor's region; 9 elsewhere at the same skill.
    // Fewer than 10 local players => cross fallback allowed immediately.
    mk(&mut pool, 50.0, "solo-region");
    for _ in 0..9 {
        mk(&mut pool, 50.0, "us-east");
    }
    let got = attempt(&mut pool, &cfg, &mut metrics).expect("cross-region fill");
    assert_eq!(got.len(), 10);
}

#[test]
fn an_empty_pool_yields_no_attempt() {
    let mut pool = PlayerPool::new();
    let mut metrics = Metrics::default();
    assert!(attempt(&mut pool, &defaults(), &mut metrics).is_none());
    assert_eq!(metrics.eviction_races, 0);
}

#[test]
fn an_attempt_is_anchored_on_the_longest_waiting_player() {
    let mut pool = PlayerPool::new();
    assert!(start_attempt(&pool, 0).is_none());
    pool.insert_at(numbered(1, 50.0, "r"), 7_000_000);
    pool.insert_at(numbered(2, 99.0, "s"), 3_000_000);
    let started = start_attempt(&pool, 45_000_000).unwrap();
    assert_eq!(started.anchor.id, 2);
    assert_eq!(started.wait_ms, 42);
    assert_eq!(pool.len(), 2);
}

#[test]
fn a_thin_attempt_changes_nothing() {
    let mut pool = PlayerPool::new();
    let mut metrics = Metrics::default();
    for id in 1..=9 {
        pool.insert_at(numbered(id, 50.0, "r"), id as i64);
    }
    let anchor = pool.oldest().unwrap();
    let found = gathered(&pool, &defaults(), &anchor, 0.0);
    assert_eq!(found.len(), 9);
    let got = try_form_match(&mut pool, &defaults(), &mut metrics, &anchor, number(0.0), &found);
    assert!(got.is_none());
    assert_eq!(pool.len(), 9);
    assert_eq!(metrics.eviction_races, 0);
}

#[test]
fn the_window_bounds_are_inclusive() {
    let mut pool = PlayerPool::new();
    for (id, skill) in [(1, 50.0), (2, 47.5), (3, 52.5), (4, 47.4), (5, 52.6)] {
        pool.insert_at(numbered(id, skill, "r"), 0);
    }
    let anchor = pool.get(&1).unwrap();
    let found = gathered(&pool, &defaults(), &anchor, 0.0);
    assert_eq!(found_ids(&found), vec![2, 1, 3]);
    assert_eq!(found[0].distance, number(2.5));
    assert_eq!(found[1].distance, number(0.0));
    // Half-way through relaxing the window is 22.5 wide.
    pool.insert_at(numbered(6, 61.25, "r"), 0);
    pool.insert_at(numbered(7, 61.3, "r"), 0);
    assert_eq!(
        found_ids(&gathered(&pool, &defaults(), &anchor, 15.0)),
        vec![4, 2, 1, 3, 5, 6]
    );
}

#[test]
fn the_anchor_stays_where_the_cap_would_leave_it_out() {
    let mut pool = PlayerPool::new();
    let mut cfg = defaults();
    cfg.candidate_cap = 12;
    for id in 1..=30 {
        pool.insert_at(numbered(id, 50.0, "r"), 10);
    }
    pool.insert_at(numbered(99, 50.0, "r"), 1);
    let anchor = pool.oldest().unwrap();
    assert_eq!(anchor.id, 99);
    let found = gathered(&pool, &cfg, &anchor, 0.0);
    assert_eq!(found_ids(&found), vec![1, 2, 3, 4, 5, 6, 7, 8, 9, 10, 11, 99]);
    let picks = select_candidates(&cfg, &anchor, number(0.0), &found);
    assert_eq!(picks, vec![1, 2, 3, 4, 5, 6, 7, 8, 9, 99]);
}

#[test]
fn the_anchor_keeps_its_place_among_equally_near_players() {
    let anchor = numbered(2, 50.0, "r");
    let found = vec![numbered(1, 50.0, "r"), numbered(2, 50.0, "r"), numbered(3, 50.0, "r")];
    let picks = select_candidates(&defaults(), &anchor, number(0.0), &candidates(&anchor, found));
    assert_eq!(picks, vec![1, 2, 3]);
}

#[test]
fn equally_near_players_past_the_deadline_come_by_id() {
    let mut pool = PlayerPool::new();
    for id in [3, 1, 2] {
        pool.insert_at(numbered(id, 50.0, "r"), 0);
    }
    let anchor = pool.get(&3).unwrap();
    let found = gathered(&pool, &defaults(), &anchor, 45.0);
    assert_eq!(found_ids(&found), vec![1, 2, 3]);
    let picks = select_candidates(&defaults(), &anchor, number(45.0), &found);
    assert_eq!(picks, vec![1, 2, 3]);
}

#[test]
fn equally_near_players_past_the_deadline_come_by_id_in_a_large_pool() {
    let mut pool = PlayerPool::new();
    for id in 1..=300 {
        pool.insert_at(numbered(id, 50.0, "r"), 0);
    }
    let anchor = pool.get(&280).unwrap();
    let found = gathered(&pool, &defaults(), &anchor, 45.0);
    assert_eq!(found_ids(&found), vec![1, 2, 3, 4, 5, 6, 7, 8, 9, 280]);
}

#[test]
fn an_anchor_that_has_left_is_no_candidate() {
    let mut pool = PlayerPool::new();
    let mut cfg = defaults();
    for id in 1..=12 {
        pool.insert_at(numbered(id, 50.0, "r"), 0);
    }
    let anchor = pool.remove(&2).unwrap();
    cfg.candidate_cap = 10;
    let left: Vec<u128> = vec![1, 3, 4, 5, 6, 7, 8, 9, 10, 11];
    assert_eq!(found_ids(&gathered(&pool, &cfg, &anchor, 0.0)), left);
    assert_eq!(found_ids(&gathered(&pool, &cfg, &anchor, 45.0)), left);
    assert_eq!(gathered(&pool, &defaults(), &anchor, 45.0).len(), 11);
}

#[test]
fn the_nearest_local_players_are_picked() {
    let anchor = numbered(1, 50.0, "home");
    let mut found = vec![numbered(1, 50.0, "home")];
    for id in 2..=12 {
        found.push(numbered(id, 50.0 + 13.0 - id as f32, "home"));
    }
    found.push(numbered(50, 50.0, "away"));
    let picks = select_candidates(&defaults(), &anchor, number(20.0), &candidates(&anchor, found));
    // Distances shrink with the id; the one at distance 0 from elsewhere waits.
    assert_eq!(picks, vec![1, 12, 11, 10, 9, 8, 7, 6, 5, 4]);
}

#[test]
fn players_from_elsewhere_fill_only_what_is_left() {
    let anchor = numbered(1, 50.0, "home");
    let mut found = vec![numbered(1, 50.0, "home")];
    for id in 2..=5 {
        found.push(numbered(id, 52.0, "home"));
    }
    for id in 20..=29 {
        found.push(numbered(id, 50.0 + (30 - id) as f32 / 10.0, "away"));
    }
    let picks = select_candidates(&defaults(), &anchor, number(0.0), &candidates(&anchor, found));
    assert_eq!(picks, vec![1, 2, 3, 4, 5, 29, 28, 27, 26, 25]);
}

#[test]
fn fewer_than_ten_candidates_are_all_picked() {
    let anchor = numbered(1, 50.0, "home");
    let found = vec![
        numbered(3, 51.0, "away"),
        numbered(2, 49.0, "home"),
        numbered(1, 50.0, "home"),
    ];
    let picks = select_candidates(&defaults(), &anchor, number(0.0), &candidates(&anchor, found));
    assert_eq!(picks, vec![1, 2, 3]);
}

#[test]
fn region_is_ignored_from_the_hard_deadline_on() {
    let anchor = numbered(1, 50.0, "home");
    let mut found = vec![numbered(1, 50.0, "home")];
    for id in 2..=11 {
        found.push(numbered(id, 60.0 + id as f32, "home"));
    }
    for id in 20..=24 {
        found.push(numbered(id, 50.0 + (id - 20) as f32, "away"));
    }
    let cs = candidates(&anchor, found);
    let before = select_candidates(&defaults(), &anchor, number(44.99), &cs);
    assert_eq!(before, vec![1, 2, 3, 4, 5, 6, 7, 8, 9, 10]);
    let at = select_candidates(&defaults(), &anchor, number(45.0), &cs);
    assert_eq!(at, vec![1, 20, 21, 22, 23, 24, 2, 3, 4, 5]);
}

#[test]
fn a_starving_anchor_gets_the_nine_nearest_of_the_whole_pool() {
    let mut pool = PlayerPool::new();
    let mut metrics = Metrics::default();
    let cfg = defaults();
    // Far more low-skill players than a scan of the window would list.
    for id in 1000..1600 {
        pool.insert_at(numbered(id, 5.0, "us-east"), 50_000_000_000);
    }
    for (id, skill) in [(1, 99.0), (2, 90.0), (3, 100.0), (4, 80.0), (5, 70.0), (6, 60.0)] {
        pool.insert_at(numbered(id, skill, "lonely"), id as i64);
    }
    for (id, skill) in [(11, 98.0), (12, 97.0), (13, 30.0), (14, 40.0), (15, 20.0)] {
        pool.insert_at(numbered(id, skill, "eu-west"), 9);
    }
    let anchor = pool.oldest().unwrap();
    assert_eq!(anchor.id, 1);
    let found = gathered(&pool, &cfg, &anchor, 45.0);
    assert_eq!(found_ids(&found), vec![13, 14, 6, 5, 4, 2, 12, 11, 1, 3]);
    let got = try_form_match(&mut pool, &cfg, &mut metrics, &anchor, number(45.0), &found).unwrap();
    assert_eq!(ids(&got), vec![1, 11, 3, 12, 2, 4, 5, 6, 14, 13]);
    assert_eq!(pool.len(), 601);
}

#[test]
fn the_same_nine_are_nearest_whatever_the_cap() {
    let mut pool = PlayerPool::new();
    let mut cfg = defaults();
    for id in 1..=40u128 {
        pool.insert_at(numbered(id, (id * id % 97) as f32, "r"), id as i64);
    }
    for id in 1..=40 {
        let anchor = pool.get(&id).unwrap();
        cfg.candidate_cap = 256;
        let all = gathered(&pool, &cfg, &anchor, 45.0);
        assert_eq!(all.len(), 40);
        let expected = select_candidates(&cfg, &anchor, number(45.0), &all);
        for cap in [10, 11, 18, 39] {
            cfg.candidate_cap = cap;
            let found = gathered(&pool, &cfg, &anchor, 45.0);
            assert_eq!(found.len(), 10);
            let picks = select_candidates(&cfg, &anchor, number(45.0), &found);
            assert_eq!(picks, expected);
        }
    }
}

#[test]
fn no_scan_goes_beyond_its_cap() {
    let mut pool = PlayerPool::new();
    let mut cfg = defaults();
    for id in 1..=100 {
        pool.insert_at(numbered(id, 50.0, "r"), id as i64);
    }
    let anchor = pool.get(&50).unwrap();
    for (cap, in_window, nearby) in [(0, 0, 0), (4, 4, 4), (10, 10, 10), (12, 12, 10), (100, 100, 100)] {
        cfg.candidate_cap = cap;
        let found = gathered(&pool, &cfg, &anchor, 0.0);
        assert_eq!(found.len(), in_window);
        assert_eq!(found_ids(&found).contains(&50), cap > 0);
        let found = gathered(&pool, &cfg, &anchor, 60.0);
        assert_eq!(found.len(), nearby);
        assert_eq!(found_ids(&found).contains(&50), cap > 0);
    }
}

#[test]
fn ten_in_the_window_form_a_match_and_nine_do_not() {
    let mut pool = PlayerPool::new();
    let mut metrics = Metrics::default();
    for id in 1..=9u128 {
        pool.insert_at(numbered(id, 48.0 + id as f32 / 4.0, "r"), id as i64);
    }
    pool.insert_at(numbered(10, 80.0, "r"), 10);
    let anchor = pool.oldest().unwrap();
    let found = gathered(&pool, &defaults(), &anchor, 0.0);
    assert_eq!(found.len(), 9);
    pool.insert_at(numbered(11, 46.0, "elsewhere"), 11);
    let found = gathered(&pool, &defaults(), &anchor, 0.0);
    assert_eq!(found.len(), 10);
    let got =
        try_form_match(&mut pool, &defaults(), &mut metrics, &anchor, number(0.0), &found).unwrap();
    assert!(ids(&got).contains(&1));
    assert_eq!(pool.len(), 1);
}

#[test]
fn nobody_waits_forever() {
    let mut pool = PlayerPool::new();
    let mut metrics = Metrics::default();
    let regions = ["a", "b", "c", "d"];
    for i in 0..40 {
        mk_aged(&mut pool, (i * i % 101) as f32, regions[i % 4], 50 + i as i64);
    }
    for left in [30, 20, 10, 0] {
        let oldest = pool.oldest().unwrap().id;
        let got = attempt(&mut pool, &defaults(), &mut metrics).expect("past the deadline");
        assert!(ids(&got).contains(&oldest));
        assert_eq!(pool.len(), left);
    }
}

#[test]
fn a_lost_race_puts_everybody_back() {
    let mut pool = PlayerPool::new();
    let mut metrics = Metrics::default();
    let cfg = defaults();
    for id in 1..=12 {
        pool.insert_at(numbered(id, 50.0, "r"), id as i64);
    }
    let anchor = pool.oldest().unwrap();
    let cs = gathered(&pool, &cfg, &anchor, 0.0);
    // A peer takes a candidate in between.
    assert!(pool.remove(&5).is_some());
    let got = try_form_match(&mut pool, &cfg, &mut metrics, &anchor, number(0.0), &cs);
    assert!(got.is_none());
    assert_eq!(metrics.eviction_races, 1);
    assert_eq!(pool.len(), 11);
    for id in (1..=12).filter(|id| *id != 5) {
        assert_eq!(pool.get(&id).unwrap().queued_at, Some(id as i64));
    }
    assert_eq!(pool.oldest().unwrap().id, 1);
    // The next attempt sees who is left and succeeds.
    let cs = gathered(&pool, &cfg, &anchor, 0.0);
    let got = try_form_match(&mut pool, &cfg, &mut metrics, &anchor, number(0.0), &cs).unwrap();
    assert_eq!(ids(&got), vec![1, 2, 3, 4, 6, 7, 8, 9, 10, 11]);
    assert_eq!(metrics.eviction_races, 1);
}

#[test]
fn nobody_is_booked_twice() {
    let mut pool = PlayerPool::new();
    let mut metrics = Metrics::default();
    for id in 1..=19 {
        pool.insert_at(numbered(id, 50.0, "r"), id as i64);
    }
    let first: Vec<u128> = (1..=10).collect();
    let second: Vec<u128> = (10..=19).collect();
    let got = claim(&mut pool, &mut metrics, &first).unwrap();
    assert_eq!(ids(&got), first);
    assert!(claim(&mut pool, &mut metrics, &second).is_none());
    assert_eq!(metrics.eviction_races, 1);
    assert_eq!(pool.len(), 9);
    for id in 1..=19 {
        assert_eq!(pool.get(&id).is_some(), id > 10);
    }
}

#[test]
fn the_same_player_cannot_be_claimed_twice_over() {
    let mut pool = PlayerPool::new();
    let mut metrics = Metrics::default();
    for id in 1..=9 {
        pool.insert_at(numbered(id, 50.0, "r"), id as i64);
    }
    assert!(claim(&mut pool, &mut metrics, &vec![1, 2, 3, 4, 5, 6, 7, 8, 9, 1]).is_none());
    assert_eq!(pool.len(), 9);
    assert_eq!(metrics.eviction_races, 1);
}

#[test]
fn a_claim_conserves_the_players() {
    let mut pool = PlayerPool::new();
    let mut metrics = Metrics::default();
    for id in 1..=25 {
        pool.insert_at(numbered(id, id as f32, "r"), id as i64);
    }
    let chosen: Vec<u128> = (6..=15).collect();
    let got = claim(&mut pool, &mut metrics, &chosen).unwrap();
    assert_eq!(pool.len() + got.len(), 25);
    for p in &got {
        assert!(pool.get(&p.id).is_none());
        assert_eq!(p.skill, number(p.id as f32));
        assert_eq!(p.queued_at, Some(p.id as i64));
    }
    assert_eq!(metrics.eviction_races, 0);
}

#[test]
fn equally_near_candidates_keep_their_order() {
    let anchor = numbered(1, 50.0, "r");
    let found = vec![
        numbered(9, 49.0, "r"),
        numbered(4, 51.0, "r"),
        numbered(1, 50.0, "r"),
        numbered(7, 50.0, "r"),
        numbered(3, 51.0, "r"),
    ];
    let picks = select_candidates(&defaults(), &anchor, number(0.0), &candidates(&anchor, found));
    assert_eq!(picks, vec![1, 7, 9, 4, 3]);
}

#[test]
fn settling_counts_the_match() {
    let mut metrics = Metrics::default();
    let mut players: Vec<Player> = (1..=10).map(|id| numbered(id, 50.0, "r")).collect();
    players[2].region = "s".to_string();
    let mut appraisals = vec![
        Appraisal {
            gap: number(4.0),
            spread: number(1.0),
            quality: number(0.5),
            skill_gap: number(4.0),
        };
        252
    ];
    appraisals[100].gap = number(2.0);
    appraisals[100].quality = number(0.875);
    appraisals[100].skill_gap = number(2.0);
    let m = settle_match(&mut metrics, players, 3_000_000, &appraisals);
    assert_eq!(m.quality, number(0.875));
    assert_eq!(m.skill_gap, number(2.0));
    assert_eq!(m.wait_ms, 3);
    assert!(m.cross_region);
    assert_eq!(Uuid::from_u128(m.id).get_version_num(), 4);
    assert_eq!(metrics.matches_formed, 1);
    assert_eq!(metrics.quality_sum, 875);
    assert_eq!(metrics.total_wait_ms, 3);
    assert_eq!(metrics.max_wait_ms, 3);
    assert_eq!(metrics.queue_depth, -10);
    assert_eq!(metrics.cross_region_matches, 1);
}
