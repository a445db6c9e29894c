//! Health metrics.
//!
//! Every counter is a plain integer that wraps around, and every update is a
//! handful of additions, so whoever shares a [`Metrics`] need hold it only for
//! that long. Quality (0.0-1.0) is accumulated in thousandths.

use crate::model::{Match, MATCH_SIZE};
use crate::number::law_thousandths_are_close;
use vstd::arithmetic::power2::pow2;
use vstd::prelude::*;

verus! {

#[derive(Debug)]
pub struct Metrics {
    /// Matches successfully formed.
    pub matches_formed: u64,
    /// Players accepted onto the queue (lifetime).
    pub players_queued: u64,
    /// Sum of per-match longest-wait, in ms. Divide by matches for the average.
    pub total_wait_ms: u64,
    /// Largest single-match wait observed, in ms.
    pub max_wait_ms: u64,
    /// Live queue size, counted. Only a monitoring gauge.
    pub queue_depth: i64,
    /// Sum of match qualities, in thousandths.
    pub quality_sum: u64,
    /// Eviction races lost (a worker claimed <10 and had to re-queue + retry).
    pub eviction_races: u64,
    /// Matches that mixed regions (constraint-relaxation fallback fired).
    pub cross_region_matches: u64,
}

/// Point-in-time view of the metrics.
#[derive(Debug, PartialEq, Eq, Structural)]
pub struct Snapshot {
    pub matches_formed: u64,
    pub players_queued: u64,
    pub queue_depth: i64,
    /// Read from the pool, so authoritative even if `queue_depth` has drifted.
    pub pool_size: usize,
    pub players_matched: u64,
    pub avg_wait_ms: u64,
    pub max_wait_ms: u64,
    /// Sum of match qualities, in thousandths.
    pub quality_sum: u64,
    /// What to divide `quality_sum` by: the matches, or 1 if there are none.
    pub denominator: u64,
    pub eviction_races: u64,
    pub cross_region_matches: u64,
}

/// The larger of two counts.
pub open spec fn larger(a: u64, b: u64) -> u64 {
    if a >= b {
        a
    } else {
        b
    }
}

impl Metrics {
    /// All counters at zero.
    pub open spec fn zero() -> Metrics {
        Metrics {
            matches_formed: 0,
            players_queued: 0,
            total_wait_ms: 0,
            max_wait_ms: 0,
            queue_depth: 0,
            quality_sum: 0,
            eviction_races: 0,
            cross_region_matches: 0,
        }
    }

    /// The counters after one more player was accepted.
    pub open spec fn with_enqueue(self) -> Metrics {
        Metrics {
            players_queued: self.players_queued.wrapping_add(1),
            queue_depth: self.queue_depth.wrapping_add(1),
            ..self
        }
    }

    /// The counters after one more match was formed.
    pub open spec fn with_match(self, m: Match) -> Metrics {
        Metrics {
            matches_formed: self.matches_formed.wrapping_add(1),
            total_wait_ms: self.total_wait_ms.wrapping_add(m.wait_ms),
            max_wait_ms: larger(self.max_wait_ms, m.wait_ms),
            queue_depth: self.queue_depth.wrapping_sub(MATCH_SIZE as i64),
            quality_sum: self.quality_sum.wrapping_add(m.quality.thousandths_spec()),
            cross_region_matches: if m.cross_region {
                self.cross_region_matches.wrapping_add(1)
            } else {
                self.cross_region_matches
            },
            ..self
        }
    }

    /// The counters after one more race was lost.
    pub open spec fn with_eviction_race(self) -> Metrics {
        Metrics { eviction_races: self.eviction_races.wrapping_add(1), ..self }
    }

    pub fn record_enqueue(&mut self)
        ensures
            *final(self) == old(self).with_enqueue(),
    {
        self.players_queued = self.players_queued.wrapping_add(1);
        self.queue_depth = self.queue_depth.wrapping_add(1);
    }

    pub fn record_match(&mut self, m: &Match)
        ensures
            *final(self) == old(self).with_match(*m),
    {
        self.matches_formed = self.matches_formed.wrapping_add(1);
        self.total_wait_ms = self.total_wait_ms.wrapping_add(m.wait_ms);
        if self.max_wait_ms < m.wait_ms {
            self.max_wait_ms = m.wait_ms;
        }
        self.queue_depth = self.queue_depth.wrapping_sub(MATCH_SIZE as i64);
        self.quality_sum = self.quality_sum.wrapping_add(m.quality.thousandths());
        if m.cross_region {
            self.cross_region_matches = self.cross_region_matches.wrapping_add(1);
        }
    }

    pub fn record_eviction_race(&mut self)
        ensures
            *final(self) == old(self).with_eviction_race(),
    {
        self.eviction_races = self.eviction_races.wrapping_add(1);
    }

    /// What a snapshot shows of the counters, given the pool's own size.
    pub open spec fn shown(self, live_pool: usize) -> Snapshot {
        Snapshot {
            matches_formed: self.matches_formed,
            players_queued: self.players_queued,
            queue_depth: self.queue_depth,
            pool_size: live_pool,
            players_matched: self.matches_formed.wrapping_mul(MATCH_SIZE as u64),
            avg_wait_ms: self.total_wait_ms / larger(self.matches_formed, 1),
            max_wait_ms: self.max_wait_ms,
            quality_sum: self.quality_sum,
            denominator: larger(self.matches_formed, 1),
            eviction_races: self.eviction_races,
            cross_region_matches: self.cross_region_matches,
        }
    }

    /// Point-in-time snapshot. `live_pool` is the pool's own size.
    pub fn snapshot(&self, live_pool: usize) -> (r: Snapshot)
        ensures
            r == self.shown(live_pool),
    {
        let denominator: u64 = if self.matches_formed >= 1 {
            self.matches_formed
        } else {
            1
        };
        Snapshot {
            matches_formed: self.matches_formed,
            players_queued: self.players_queued,
            queue_depth: self.queue_depth,
            pool_size: live_pool,
            players_matched: self.matches_formed.wrapping_mul(MATCH_SIZE as u64),
            avg_wait_ms: self.total_wait_ms / denominator,
            max_wait_ms: self.max_wait_ms,
            quality_sum: self.quality_sum,
            denominator,
            eviction_races: self.eviction_races,
            cross_region_matches: self.cross_region_matches,
        }
    }
}

impl Default for Metrics {
    fn default() -> (r: Metrics)
        ensures
            r == Metrics::zero(),
    {
        Metrics {
            matches_formed: 0,
            players_queued: 0,
            total_wait_ms: 0,
            max_wait_ms: 0,
            queue_depth: 0,
            quality_sum: 0,
            eviction_races: 0,
            cross_region_matches: 0,
        }
    }
}

/// Accepting a player adds one to the players queued and one to the depth, up to
/// the wrap-around of the counters, and changes nothing else.
pub proof fn law_enqueue_counts_one_player(m: Metrics)
    ensures
        ({
            let n = m.with_enqueue();
            &&& (n.players_queued - m.players_queued - 1) % 0x1_0000_0000_0000_0000 == 0
            &&& (n.queue_depth - m.queue_depth - 1) % 0x1_0000_0000_0000_0000 == 0
            &&& n.matches_formed == m.matches_formed
            &&& n.total_wait_ms == m.total_wait_ms
            &&& n.max_wait_ms == m.max_wait_ms
            &&& n.quality_sum == m.quality_sum
            &&& n.eviction_races == m.eviction_races
            &&& n.cross_region_matches == m.cross_region_matches
        }),
{
}

/// Forming a match adds one to the matches, its wait to the waits and its quality's
/// thousandths to the qualities, takes ten off the depth, counts it among those
/// across regions if it is one, all up to the wrap-around of the counters, and
/// raises the largest wait to its own. Nothing else changes.
pub proof fn law_match_is_counted_once(m: Metrics, formed: Match)
    ensures
        ({
            let n = m.with_match(formed);
            let word = 0x1_0000_0000_0000_0000int;
            &&& (n.matches_formed - m.matches_formed - 1) % word == 0
            &&& (n.total_wait_ms - m.total_wait_ms - formed.wait_ms) % word == 0
            &&& (n.quality_sum - m.quality_sum - formed.quality.thousandths_spec()) % word == 0
            &&& (n.queue_depth - m.queue_depth + 10) % word == 0
            &&& formed.cross_region ==> (n.cross_region_matches - m.cross_region_matches - 1)
                % word == 0
            &&& !formed.cross_region ==> n.cross_region_matches == m.cross_region_matches
            &&& n.max_wait_ms >= m.max_wait_ms
            &&& n.max_wait_ms >= formed.wait_ms
            &&& n.max_wait_ms == m.max_wait_ms || n.max_wait_ms == formed.wait_ms
            &&& n.players_queued == m.players_queued
            &&& n.eviction_races == m.eviction_races
        }),
{
}

/// Losing a race adds one to the races, up to the wrap-around of the counter, and
/// changes nothing else.
pub proof fn law_race_counts_one(m: Metrics)
    ensures
        ({
            let n = m.with_eviction_race();
            &&& (n.eviction_races - m.eviction_races - 1) % 0x1_0000_0000_0000_0000 == 0
            &&& n.matches_formed == m.matches_formed
            &&& n.players_queued == m.players_queued
            &&& n.total_wait_ms == m.total_wait_ms
            &&& n.max_wait_ms == m.max_wait_ms
            &&& n.queue_depth == m.queue_depth
            &&& n.quality_sum == m.quality_sum
            &&& n.cross_region_matches == m.cross_region_matches
        }),
{
}

/// A snapshot shows the counters as they are, the size of the pool that it is
/// given, ten players for each match, and the wait of the average match rounded
/// down, the matches counting as one if there are none.
pub proof fn law_snapshot_shows_the_counters(m: Metrics, live_pool: usize)
    ensures
        ({
            let s = m.shown(live_pool);
            &&& s.matches_formed == m.matches_formed
            &&& s.players_queued == m.players_queued
            &&& s.queue_depth == m.queue_depth
            &&& s.pool_size == live_pool
            &&& s.max_wait_ms == m.max_wait_ms
            &&& s.quality_sum == m.quality_sum
            &&& s.eviction_races == m.eviction_races
            &&& s.cross_region_matches == m.cross_region_matches
            &&& m.matches_formed > 0 ==> s.denominator == m.matches_formed
            &&& m.matches_formed == 0 ==> s.denominator == 1
            &&& s.avg_wait_ms * s.denominator <= m.total_wait_ms
            &&& m.total_wait_ms < (s.avg_wait_ms + 1) * s.denominator
            &&& (s.players_matched - 10 * m.matches_formed) % 0x1_0000_0000_0000_0000 == 0
        }),
{
    let s = m.shown(live_pool);
    let (total, d) = (m.total_wait_ms as int, s.denominator as int);
    vstd::arithmetic::div_mod::lemma_fundamental_div_mod(total, d);
    assert(s.avg_wait_ms * d == d * (total / d)) by (nonlinear_arith)
        requires
            s.avg_wait_ms == total / d,
    ;
    assert((s.avg_wait_ms + 1) * d == s.avg_wait_ms * d + d) by (nonlinear_arith);
}

/// A fresh set of counters is at zero.
pub proof fn law_counters_start_at_zero()
    ensures
        ({
            let m = Metrics::zero();
            &&& m.matches_formed == 0 && m.players_queued == 0 && m.total_wait_ms == 0
            &&& m.max_wait_ms == 0 && m.queue_depth == 0 && m.quality_sum == 0
            &&& m.eviction_races == 0 && m.cross_region_matches == 0
        }),
{
}

/// The counted queue depth is the players accepted less those matched, up to
/// the wrap-around of the counters.
pub open spec fn depth_is_counted(m: Metrics) -> bool {
    (m.queue_depth - m.players_queued + MATCH_SIZE * m.matches_formed)
        % 0x1_0000_0000_0000_0000 == 0
}

/// The counted queue depth stays the players accepted less those matched,
/// whatever is recorded.
pub proof fn law_depth_stays_counted(m: Metrics, formed: Match)
    ensures
        depth_is_counted(Metrics::zero()),
        depth_is_counted(m) ==> depth_is_counted(m.with_enqueue()),
        depth_is_counted(m) ==> depth_is_counted(m.with_match(formed)),
        depth_is_counted(m) ==> depth_is_counted(m.with_eviction_race()),
{
}

/// While both counts fit, the counted queue depth is exactly the players
/// accepted less those matched, negative where more were matched.
pub proof fn law_depth_is_exact(m: Metrics)
    requires
        depth_is_counted(m),
        m.players_queued <= i64::MAX,
        MATCH_SIZE * m.matches_formed <= i64::MAX,
    ensures
        m.queue_depth == m.players_queued - MATCH_SIZE * m.matches_formed,
{
}

/// Something that is recorded.
pub enum Event {
    Enqueued,
    Formed(Match),
    RaceLost,
}

/// The counters after a run of events.
pub open spec fn after_events(m: Metrics, events: Seq<Event>) -> Metrics
    decreases events.len(),
{
    if events.len() == 0 {
        m
    } else {
        let before = after_events(m, events.drop_last());
        match events.last() {
            Event::Enqueued => before.with_enqueue(),
            Event::Formed(formed) => before.with_match(formed),
            Event::RaceLost => before.with_eviction_race(),
        }
    }
}

/// The matches formed in a run of events, in order.
pub open spec fn matches_in(events: Seq<Event>) -> Seq<Match>
    decreases events.len(),
{
    if events.len() == 0 {
        Seq::empty()
    } else {
        match events.last() {
            Event::Formed(formed) => matches_in(events.drop_last()).push(formed),
            _ => matches_in(events.drop_last()),
        }
    }
}

/// Sum of the waits of a run of matches.
pub open spec fn wait_sum(formed: Seq<Match>) -> int
    decreases formed.len(),
{
    if formed.len() == 0 {
        0
    } else {
        wait_sum(formed.drop_last()) + formed.last().wait_ms
    }
}

/// Sum of the qualities of a run of matches, in thousandths.
pub open spec fn thousandths_sum(formed: Seq<Match>) -> int
    decreases formed.len(),
{
    if formed.len() == 0 {
        0
    } else {
        thousandths_sum(formed.drop_last()) + formed.last().quality.thousandths_spec()
    }
}

/// Sum of the exact qualities of a run of matches, in units of 2^-149.
pub open spec fn quality_units_sum(formed: Seq<Match>) -> int
    decreases formed.len(),
{
    if formed.len() == 0 {
        0
    } else {
        quality_units_sum(formed.drop_last()) + formed.last().quality.units()
    }
}

/// Sums over matches are not negative.
proof fn lemma_sums_nonnegative(formed: Seq<Match>)
    ensures
        wait_sum(formed) >= 0,
        thousandths_sum(formed) >= 0,
    decreases formed.len(),
{
    if formed.len() > 0 {
        lemma_sums_nonnegative(formed.drop_last());
    }
}

/// A match at the end of a run of events is the last of its matches.
proof fn lemma_matches_in(events: Seq<Event>)
    requires
        events.len() > 0,
        events.last() is Formed,
    ensures
        matches_in(events).drop_last() == matches_in(events.drop_last()),
        matches_in(events).last() == events.last()->Formed_0,
        matches_in(events).len() == matches_in(events.drop_last()).len() + 1,
{
    assert(matches_in(events).drop_last() =~= matches_in(events.drop_last()));
}

/// The largest wait tracks the peak: after any run of events it is no less than
/// the wait of any match formed, and one of them reached it; before the first
/// match it is zero.
pub proof fn law_max_wait_is_the_peak(events: Seq<Event>)
    ensures
        forall|i: int|
            0 <= i < matches_in(events).len() ==> (#[trigger] matches_in(events)[i]).wait_ms
                <= after_events(Metrics::zero(), events).max_wait_ms,
        matches_in(events).len() > 0 ==> exists|i: int|
            0 <= i < matches_in(events).len() && (#[trigger] matches_in(events)[i]).wait_ms
                == after_events(Metrics::zero(), events).max_wait_ms,
        matches_in(events).len() == 0 ==> after_events(Metrics::zero(), events).max_wait_ms == 0,
    decreases events.len(),
{
    if events.len() > 0 {
        let init = events.drop_last();
        law_max_wait_is_the_peak(init);
        let before = after_events(Metrics::zero(), init).max_wait_ms;
        let earlier = matches_in(init);
        if events.last() is Formed {
            let formed = matches_in(events);
            lemma_matches_in(events);
            let peak = after_events(Metrics::zero(), events).max_wait_ms;
            assert forall|i: int| 0 <= i < formed.len() implies (#[trigger] formed[i]).wait_ms
                <= peak by {
                if i < earlier.len() {
                    assert(earlier[i] == formed[i]);
                }
            }
            if formed.last().wait_ms >= before {
                assert(formed[formed.len() - 1].wait_ms == peak);
            } else {
                let i = choose|i: int|
                    0 <= i < earlier.len() && (#[trigger] earlier[i]).wait_ms == before;
                assert(formed[i].wait_ms == peak);
            }
        }
    }
}

/// After any run of events a snapshot shows the number of matches formed, ten
/// players matched for each, the average of their waits rounded down (zero with
/// no match at all), the thousandths of their qualities added up, and the size of
/// the pool that it is given, as long as the counts and sums fit their counters.
pub proof fn law_snapshot_after_events(events: Seq<Event>, live_pool: usize)
    requires
        MATCH_SIZE * matches_in(events).len() <= u64::MAX,
        wait_sum(matches_in(events)) <= u64::MAX,
        thousandths_sum(matches_in(events)) <= u64::MAX,
    ensures
        ({
            let formed = matches_in(events);
            let s = after_events(Metrics::zero(), events).shown(live_pool);
            &&& s.matches_formed == formed.len()
            &&& s.players_matched == MATCH_SIZE * formed.len()
            &&& formed.len() > 0 ==> s.avg_wait_ms == wait_sum(formed) / (formed.len() as int)
            &&& formed.len() == 0 ==> s.avg_wait_ms == 0
            &&& s.quality_sum == thousandths_sum(formed)
            &&& formed.len() > 0 ==> s.denominator == formed.len()
            &&& s.pool_size == live_pool
        }),
{
    lemma_counts_after_events(events);
}

/// The counters that a run of matches adds up.
proof fn lemma_counts_after_events(events: Seq<Event>)
    requires
        matches_in(events).len() <= u64::MAX,
        wait_sum(matches_in(events)) <= u64::MAX,
        thousandths_sum(matches_in(events)) <= u64::MAX,
    ensures
        after_events(Metrics::zero(), events).matches_formed == matches_in(events).len(),
        after_events(Metrics::zero(), events).total_wait_ms == wait_sum(matches_in(events)),
        after_events(Metrics::zero(), events).quality_sum == thousandths_sum(
            matches_in(events),
        ),
    decreases events.len(),
{
    if events.len() > 0 {
        if events.last() is Formed {
            lemma_matches_in(events);
        }
        lemma_sums_nonnegative(matches_in(events.drop_last()));
        lemma_counts_after_events(events.drop_last());
    }
}

/// Every quality is a number between 0 and 1.
pub open spec fn qualities_are_normal(formed: Seq<Match>) -> bool {
    forall|i: int|
        0 <= i < formed.len() ==> {
            &&& (#[trigger] formed[i]).quality.is_finite()
            &&& formed[i].quality.order() >= 0
            &&& formed[i].quality.units() <= pow2(149)
        }
}

/// Adding up thousandths and dividing at the end loses little: after any run of
/// events with a match in it, the average quality that a snapshot stands for,
/// `quality_sum / denominator / 1000`, lies within 0.001001 below and 0.000001
/// above the exact mean of the qualities. Both sides are in units of 2^-149,
/// multiplied out by `1_000_000 * denominator`.
pub proof fn law_average_quality(events: Seq<Event>, live_pool: usize)
    requires
        1000 * matches_in(events).len() <= u64::MAX,
        wait_sum(matches_in(events)) <= u64::MAX,
        matches_in(events).len() > 0,
        qualities_are_normal(matches_in(events)),
    ensures
        ({
            let s = after_events(Metrics::zero(), events).shown(live_pool);
            let exact = 1_000_000 * quality_units_sum(matches_in(events));
            &&& s.denominator == matches_in(events).len()
            &&& exact - 1001 * (s.denominator * pow2(149)) <= 1000 * (s.quality_sum * pow2(149))
            &&& 1000 * (s.quality_sum * pow2(149)) <= exact + s.denominator * pow2(149)
        }),
{
    lemma_quality_sums(matches_in(events));
    law_snapshot_after_events(events, live_pool);
}

/// What the thousandths of a run of matches add up to.
proof fn lemma_quality_sums(formed: Seq<Match>)
    requires
        qualities_are_normal(formed),
    ensures
        thousandths_sum(formed) <= 1000 * formed.len(),
        1_000_000 * quality_units_sum(formed) - 1001 * (formed.len() * pow2(149)) <= 1000 * (
        thousandths_sum(formed) * pow2(149)),
        1000 * (thousandths_sum(formed) * pow2(149)) <= 1_000_000 * quality_units_sum(formed)
            + formed.len() * pow2(149),
    decreases formed.len(),
{
    let unit = pow2(149) as int;
    if formed.len() > 0 {
        let init = formed.drop_last();
        let n = init.len() as int;
        let sum = thousandths_sum(init);
        let last = formed.last().quality.thousandths_spec() as int;
        assert(qualities_are_normal(init)) by {
            assert forall|i: int| 0 <= i < init.len() implies {
                &&& (#[trigger] init[i]).quality.is_finite()
                &&& init[i].quality.order() >= 0
                &&& init[i].quality.units() <= pow2(149)
            } by {
                assert(init[i] == formed[i]);
            }
        }
        lemma_quality_sums(init);
        assert(formed[formed.len() - 1] == formed.last());
        law_thousandths_are_close(formed.last().quality);
        assert((sum + last) * unit == sum * unit + last * unit) by (nonlinear_arith);
        assert((n + 1) * unit == n * unit + unit) by (nonlinear_arith);
    } else {
        assert(0 * unit == 0) by (nonlinear_arith);
    }
}

} // verus!
