use matchmaker::api::{enqueue, enqueue_at};
use matchmaker::metrics::Metrics;
use matchmaker::model::{QueueRequest, QueueResponse};
use matchmaker::number::Real;
use matchmaker::pool::PlayerPool;
use uuid::Uuid;

fn number(x: f32) -> Real {
    Real { bits: x.to_bits() }
}

fn request(player_id: Option<u128>, skill: f32) -> QueueRequest {
    QueueRequest { player_id, skill: number(skill), region: "us-east".to_string() }
}

#[test]
fn a_request_is_queued_and_counted() {
    let mut pool = PlayerPool::new();
    let mut metrics = Metrics::default();
    let r = enqueue_at(&mut pool, &mut metrics, request(Some(7), 62.5), 1, 40);
    assert_eq!(r, QueueResponse { player_id: 7, queue_depth: 1 });
    let r = enqueue_at(&mut pool, &mut metrics, request(None, 50.0), 9, 41);
    assert_eq!(r, QueueResponse { player_id: 9, queue_depth: 2 });
    let p = pool.get(&7).unwrap();
    assert_eq!(p.skill, number(62.5));
    assert_eq!(p.region, "us-east");
    assert_eq!(p.queued_at, Some(40));
    assert_eq!(pool.get(&9).unwrap().queued_at, Some(41));
    assert_eq!(metrics.players_queued, 2);
}

#[test]
fn skills_are_brought_into_range() {
    let mut pool = PlayerPool::new();
    let mut metrics = Metrics::default();
    for (id, asked, got) in
        [(1, -12.0, 0.0), (2, 1e6, 100.0), (3, f32::INFINITY, 100.0), (4, 0.25, 0.25), (5, 100.0, 100.0)]
    {
        enqueue_at(&mut pool, &mut metrics, request(Some(id), asked), 0, 0);
        assert_eq!(pool.get(&id).unwrap().skill, number(got));
    }
}

#[test]
fn a_player_without_an_id_gets_a_fresh_one() {
    let mut pool = PlayerPool::new();
    let mut metrics = Metrics::default();
    let a = enqueue(&mut pool, &mut metrics, request(None, 50.0)).player_id;
    let b = enqueue(&mut pool, &mut metrics, request(None, 50.0)).player_id;
    assert_ne!(a, b);
    assert_eq!(Uuid::from_u128(a).get_version_num(), 4);
    assert_eq!(pool.len(), 2);
    assert!(pool.get(&a).unwrap().queued_at.unwrap() >= 0);
}

#[test]
fn a_client_keeps_the_id_it_asks_for() {
    let mut pool = PlayerPool::new();
    let mut metrics = Metrics::default();
    let id = Uuid::from_u128(0x0123_4567_89ab_cdef_0123_4567_89ab_cdef);
    let r = enqueue(&mut pool, &mut metrics, request(Some(id.as_u128()), 50.0));
    assert_eq!(Uuid::from_u128(r.player_id), id);
    assert_eq!(r.queue_depth, 1);
    assert!(pool.get(&id.as_u128()).is_some());
}

#[test]
fn asking_twice_queues_once_and_counts_twice() {
    let mut pool = PlayerPool::new();
    let mut metrics = Metrics::default();
    enqueue_at(&mut pool, &mut metrics, request(Some(3), 10.0), 0, 5);
    let r = enqueue_at(&mut pool, &mut metrics, request(Some(3), 80.0), 0, 6);
    assert_eq!(r.queue_depth, 2);
    assert_eq!(pool.len(), 1);
    assert_eq!(pool.get(&3).unwrap().skill, number(80.0));
}
