use matchmaker::metrics::{Metrics, Snapshot};
use matchmaker::model::{Match, Player};
use matchmaker::number::Real;
use uuid::Uuid;

fn dummy_match(quality: f32, wait_ms: u64, cross: bool) -> Match {
    let p = Player {
        id: Uuid::new_v4().as_u128(),
        skill: Real { bits: 50.0f32.to_bits() },
        region: "r".into(),
        queued_at: None,
    };
    Match {
        id: Uuid::new_v4().as_u128(),
        team_a: vec![p.clone(); 5],
        team_b: vec![p; 5],
        quality: Real { bits: quality.to_bits() },
        wait_ms,
        skill_gap: Real { bits: 0 },
        cross_region: cross,
    }
}

fn avg_quality(snap: &Snapshot) -> f64 {
    snap.quality_sum as f64 / snap.denominator as f64 / 1000.0
}

#[test]
fn enqueue_and_match_update_counters() {
    let mut m = Metrics::default();
    for _ in 0..20 {
        m.record_enqueue();
    }
    m.record_match(&dummy_match(0.8, 1200, false));
    let snap = m.snapshot(10);
    assert_eq!(snap.players_queued, 20);
    assert_eq!(snap.matches_formed, 1);
    // 20 enqueued - 10 matched = 10 depth.
    assert_eq!(snap.queue_depth, 10);
    assert_eq!(snap.avg_wait_ms, 1200);
    assert_eq!(snap.max_wait_ms, 1200);
    // 0.8 stored as 800 -> back to 0.8.
    assert!((avg_quality(&snap) - 0.8).abs() < 1e-6);
}

#[test]
fn snapshot_on_empty_does_not_divide_by_zero() {
    let m = Metrics::default();
    let snap = m.snapshot(0);
    assert_eq!(snap.matches_formed, 0);
    assert_eq!(snap.avg_wait_ms, 0);
}

#[test]
fn max_wait_tracks_the_peak() {
    let mut m = Metrics::default();
    m.record_match(&dummy_match(0.5, 500, false));
    m.record_match(&dummy_match(0.5, 3000, true));
    m.record_match(&dummy_match(0.5, 100, false));
    let snap = m.snapshot(0);
    assert_eq!(snap.max_wait_ms, 3000);
    assert_eq!(snap.cross_region_matches, 1);
}

#[test]
fn snapshot_shows_every_counter() {
    let mut m = Metrics::default();
    for _ in 0..25 {
        m.record_enqueue();
    }
    m.record_match(&dummy_match(0.75, 1000, true));
    m.record_match(&dummy_match(0.5, 2001, false));
    m.record_eviction_race();
    let expected = Snapshot {
        matches_formed: 2,
        players_queued: 25,
        queue_depth: 5,
        pool_size: 6,
        players_matched: 20,
        avg_wait_ms: 1500,
        max_wait_ms: 2001,
        quality_sum: 1250,
        denominator: 2,
        eviction_races: 1,
        cross_region_matches: 1,
    };
    assert_eq!(m.snapshot(6), expected);
    assert!((avg_quality(&expected) - 0.625).abs() < 1e-9);
}

#[test]
fn empty_snapshot_has_zero_quality() {
    let snap = Metrics::default().snapshot(3);
    assert_eq!(snap.denominator, 1);
    assert_eq!(snap.pool_size, 3);
    assert_eq!(snap.players_matched, 0);
    assert_eq!(avg_quality(&snap), 0.0);
}

#[test]
fn depth_is_accepted_less_matched() {
    let mut m = Metrics::default();
    m.record_match(&dummy_match(1.0, 0, false));
    assert_eq!(m.queue_depth, -10);
    for _ in 0..13 {
        m.record_enqueue();
        m.record_eviction_race();
    }
    assert_eq!(m.queue_depth, 3);
    assert_eq!(m.eviction_races, 13);
}

#[test]
fn counters_wrap_around() {
    let mut m = Metrics::default();
    m.players_queued = u64::MAX;
    m.queue_depth = i64::MAX;
    m.total_wait_ms = u64::MAX;
    m.record_enqueue();
    assert_eq!(m.players_queued, 0);
    assert_eq!(m.queue_depth, i64::MIN);
    m.record_match(&dummy_match(1.0, 5, false));
    assert_eq!(m.total_wait_ms, 4);
    assert_eq!(m.queue_depth, i64::MAX - 9);
    m.matches_formed = 0x2000_0000_0000_0000;
    assert_eq!(m.snapshot(0).players_matched, 0x4000_0000_0000_0000);
}

#[test]
fn averages_stand_whatever_else_is_recorded() {
    let mut m = Metrics::default();
    let qualities = [0.9996f32, 0.25, 0.7777];
    for (i, q) in qualities.iter().enumerate() {
        m.record_enqueue();
        m.record_match(&dummy_match(*q, 100 * (3 - i as u64), false));
        m.record_eviction_race();
    }
    m.record_enqueue();
    let snap = m.snapshot(1);
    assert_eq!(snap.quality_sum, 999 + 250 + 777);
    assert_eq!(snap.denominator, 3);
    assert_eq!(snap.avg_wait_ms, 200);
    assert_eq!(snap.max_wait_ms, 300);
    assert_eq!(snap.players_matched, 30);
    assert_eq!(snap.queue_depth, -26);
    let mean = qualities.iter().map(|q| *q as f64).sum::<f64>() / 3.0;
    assert!(mean - 0.001 - 1e-6 <= avg_quality(&snap) && avg_quality(&snap) <= mean + 1e-6);
    assert_eq!(m.snapshot(1), snap);
}

#[test]
fn three_matches_without_a_player_leave_a_negative_depth() {
    let mut m = Metrics::default();
    for _ in 0..3 {
        m.record_match(&dummy_match(0.5, 1, false));
    }
    assert_eq!(m.snapshot(0).queue_depth, -30);
}

#[test]
fn a_match_can_be_cloned() {
    let m = dummy_match(0.5, 12, true);
    let n = m.clone();
    assert_eq!((n.id, n.wait_ms, n.cross_region), (m.id, 12, true));
    assert_eq!(n.team_a.len(), 5);
    assert_eq!(n.team_b[4].id, m.team_b[4].id);
}
