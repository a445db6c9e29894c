//! Matching attempts: the core latency-vs-quality decisions.
//!
//! One attempt runs in these steps.
//!
//! 1. **Anchor** on the longest-waiting player ([`start_attempt`]).
//! 2. **Gather** candidates ([`gather_candidates`]): the players in the skill
//!    window around the anchor, or, once the anchor is past the hard deadline,
//!    those nearest to it in the whole pool.
//! 3. **Select** ten of them ([`select_candidates`]), nearest first and the
//!    anchor's own region first.
//! 4. **Evict** the ten from the pool ([`claim`]). If a peer took one of them
//!    meanwhile, the others go back with their wait clocks and the attempt is
//!    lost.
//!
//! The ten become a match in [`settle_match`].
//!
//! The caller works out the numbers: the wait in seconds and the window bounds
//! before step 2, and, by the `measure` that it hands in, how far a player is
//! from the anchor.

use crate::balancer::{all_splits, build_match, is_match_of, Appraisal};
use crate::clock::Nanos;
use crate::config::Config;
use crate::fairness::{law_claim_conserves_players, law_configured_deadline_decides};
use crate::ids::is_random_uuid;
use crate::metrics::Metrics;
use crate::model::{Match, Player, MATCH_SIZE};
use crate::number::{Real, INFINITY_BITS, NAN_BITS, NAN_RANK, NEG_INFINITY_BITS};
use crate::pool::{
    down_before, in_span, is_oldest, key_before, law_well_formed_is_queued, lemma_lists_up_distinct,
    lists_up, queued, skill_key, Key, PlayerPool,
};
use vstd::prelude::*;
use vstd::relations::{sorted_by, total_ordering};

verus! {

/// A candidate and its distance in skill from the anchor.
#[derive(Debug)]
pub struct Candidate {
    pub player: Player,
    pub distance: Real,
}

/// An attempt that was started: its anchor, and how long that player has waited.
#[derive(Debug)]
pub struct Attempt {
    pub anchor: Player,
    pub wait_ms: u64,
}

/// Start an attempt at `now`, anchored on the longest-waiting player. Returns
/// `None` if nobody waits.
pub fn start_attempt(pool: &PlayerPool, now: Nanos) -> (r: Option<Attempt>)
    requires
        pool.wf(),
    ensures
        match r {
            Some(a) => is_oldest(pool@, a.anchor) && a.wait_ms == a.anchor.waited(now),
            None => pool@ == Map::<u128, Player>::empty(),
        },
        r matches Some(a) ==> {
            &&& pool@.contains_key(a.anchor.id)
            &&& pool@[a.anchor.id] == a.anchor
            &&& a.anchor.queued_at is Some
            &&& forall|id: u128| #[trigger]
                pool@.contains_key(id) ==> a.anchor.queued_at.unwrap()
                    <= pool@[id].queued_at.unwrap()
            &&& now >= a.anchor.queued_at.unwrap() ==> a.wait_ms * 1_000_000 <= now
                - a.anchor.queued_at.unwrap() < (a.wait_ms + 1) * 1_000_000
            &&& now < a.anchor.queued_at.unwrap() ==> a.wait_ms == 0
        },
{
    proof {
        law_well_formed_is_queued(*pool);
    }
    match pool.oldest() {
        Some(anchor) => {
            let wait_ms: u64 = anchor.wait_ms(now);
            Some(Attempt { anchor, wait_ms })
        },
        None => None,
    }
}

/// The anchor has waited past the hard deadline.
pub open spec fn starving(cfg: Config, wait_secs: Real) -> bool {
    wait_secs.at_least_spec(cfg.hard_deadline_secs)
}

/// The caller's measure can be applied to any player, and always gives the same
/// distance for the same player.
pub open spec fn is_measure<F: Fn(&Player) -> Real>(measure: F) -> bool {
    &&& forall|p: Player| #[trigger] call_requires(measure, (&p,))
    &&& forall|p: Player, d: Real, e: Real|
        #[trigger] call_ensures(measure, (&p,), d) && #[trigger] call_ensures(measure, (&p,), e)
            ==> d == e
}

/// The distance that the caller's measure gives.
pub open spec fn distance_by<F: Fn(&Player) -> Real>(measure: F) -> spec_fn(Player) -> Real {
    |p: Player| choose|d: Real| call_ensures(measure, (&p,), d)
}

/// Every candidate's distance is what the caller's measure returned for it.
pub open spec fn all_measured<F: Fn(&Player) -> Real>(measure: F, cs: Seq<Candidate>) -> bool {
    forall|i: int|
        0 <= i < cs.len() ==> call_ensures(
            measure,
            (&(#[trigger] cs[i]).player,),
            cs[i].distance,
        )
}

/// The player that a pool has under an id, with its distance.
pub open spec fn measured_in(
    pool: Map<u128, Player>,
    dist: spec_fn(Player) -> Real,
) -> spec_fn(u128) -> Candidate {
    |id: u128| Candidate { player: pool[id], distance: dist(pool[id]) }
}

/// The players that a pool has under ids, with their distances.
pub open spec fn measured(
    pool: Map<u128, Player>,
    dist: spec_fn(Player) -> Real,
    ids: Seq<u128>,
) -> Seq<Candidate> {
    ids.map_values(measured_in(pool, dist))
}

pub open spec fn found_in(pool: Map<u128, Player>) -> spec_fn(u128) -> Player {
    |id: u128| pool[id]
}

/// `ids` are in the pool and stand in ascending skill order.
pub open spec fn ascending(pool: Map<u128, Player>, ids: Seq<u128>) -> bool {
    &&& forall|i: int| 0 <= i < ids.len() ==> pool.contains_key(#[trigger] ids[i])
    &&& forall|i: int, j: int|
        0 <= i < j < ids.len() ==> key_before(
            skill_key(pool[#[trigger] ids[i]]),
            skill_key(pool[#[trigger] ids[j]]),
        )
}

/// `ids`, but with the anchor in the last place if the cap has cut it off.
pub open spec fn with_anchor(
    pool: Map<u128, Player>,
    anchor: u128,
    ids: Seq<u128>,
    from: Key,
    to: Key,
) -> Seq<u128> {
    if pool.contains_key(anchor) && in_span(skill_key(pool[anchor]), from, to) && !ids.contains(
        anchor,
    ) && ids.len() > 0 {
        ids.drop_last().push(anchor)
    } else {
        ids
    }
}

/// `ids` are the players of a scan within the skill window `[lo, hi]`: the first
/// `cap` players of the window in ascending skill order, the anchor among them
/// if it lies in the window.
pub open spec fn are_in_window(
    pool: Map<u128, Player>,
    anchor: u128,
    lo: Real,
    hi: Real,
    cap: nat,
    ids: Seq<u128>,
) -> bool {
    exists|listed: Seq<u128>|
        {
            &&& #[trigger] lists_up(
                pool,
                listed,
                (lo.order() as i64, 0),
                (hi.order() as i64, u128::MAX),
                cap,
            )
            &&& ids == with_anchor(
                pool,
                anchor,
                listed,
                (lo.order() as i64, 0),
                (hi.order() as i64, u128::MAX),
            )
        }
}

/// `found` are the candidates of a scan within the skill window `[lo, hi]`.
pub open spec fn gathered_in_window(
    pool: Map<u128, Player>,
    anchor: Player,
    dist: spec_fn(Player) -> Real,
    lo: Real,
    hi: Real,
    cap: nat,
    found: Seq<Candidate>,
) -> bool {
    exists|ids: Seq<u128>|
        {
            &&& #[trigger] are_in_window(pool, anchor.id, lo, hi, cap, ids)
            &&& found == measured(pool, dist, ids)
        }
}

/// Distances never shrink going away from the anchor's skill on either side.
pub open spec fn grows_away(
    pool: Map<u128, Player>,
    anchor: Player,
    dist: spec_fn(Player) -> Real,
) -> bool {
    let mine = anchor.skill.order();
    &&& forall|p: u128, q: u128|
        #![trigger pool.contains_key(p), pool.contains_key(q)]
        pool.contains_key(p) && pool.contains_key(q) && p != anchor.id && q != anchor.id
            && pool[p].skill.order() <= mine && pool[q].skill.order() <= mine && down_before(
            skill_key(pool[p]),
            skill_key(pool[q]),
        ) ==> dist(pool[p]).order() <= dist(pool[q]).order()
    &&& forall|p: u128, q: u128|
        #![trigger pool.contains_key(p), pool.contains_key(q)]
        pool.contains_key(p) && pool.contains_key(q) && p != anchor.id && q != anchor.id
            && pool[p].skill.order() > mine && pool[q].skill.order() > mine && key_before(
            skill_key(pool[p]),
            skill_key(pool[q]),
        ) ==> dist(pool[p]).order() <= dist(pool[q]).order()
}

/// `p` comes before `q` by nearness to the anchor. Of equally near players, one
/// not above the anchor's skill comes before one above it; on the same side, the
/// one whose skill is closer; of the same skill, the one with the lesser id.
pub open spec fn nearer(anchor: Player, dist: spec_fn(Player) -> Real, p: Player, q: Player) -> bool {
    let mine = anchor.skill.order();
    let (a, b) = (p.skill.order(), q.skill.order());
    ||| dist(p).order() < dist(q).order()
    ||| dist(p).order() == dist(q).order() && if a <= mine && b <= mine {
        down_before(skill_key(p), skill_key(q))
    } else if a > mine && b > mine {
        key_before(skill_key(p), skill_key(q))
    } else {
        a <= mine
    }
}

/// How many candidates a scan past the hard deadline yields: everybody if the
/// cap allows it, else no more than a match needs.
pub open spec fn nearby_count(queued: nat, cap: nat) -> nat {
    if queued <= cap {
        queued
    } else if cap < MATCH_SIZE {
        cap
    } else {
        MATCH_SIZE as nat
    }
}

/// `ids` are the players of a scan past the hard deadline, in ascending skill
/// order: as many as [`nearby_count`] says, the anchor among them if it is still
/// queued, and nobody left out is nearer than any other of them.
pub open spec fn are_nearby(
    pool: Map<u128, Player>,
    anchor: Player,
    dist: spec_fn(Player) -> Real,
    cap: nat,
    ids: Seq<u128>,
) -> bool {
    &&& ascending(pool, ids)
    &&& ids.len() == nearby_count(pool.len(), cap)
    &&& pool.contains_key(anchor.id) && ids.len() > 0 ==> ids.contains(anchor.id)
    &&& grows_away(pool, anchor, dist) ==> forall|p: u128, q: u128|
        #![trigger ids.contains(p), pool.contains_key(q)]
        ids.contains(p) && p != anchor.id && pool.contains_key(q) && !ids.contains(q) ==> nearer(
            anchor,
            dist,
            pool[p],
            pool[q],
        )
}

/// `found` are the candidates of a scan past the hard deadline.
pub open spec fn gathered_nearby(
    pool: Map<u128, Player>,
    anchor: Player,
    dist: spec_fn(Player) -> Real,
    cap: nat,
    found: Seq<Candidate>,
) -> bool {
    exists|ids: Seq<u128>|
        {
            &&& #[trigger] are_nearby(pool, anchor, dist, cap, ids)
            &&& found == measured(pool, dist, ids)
        }
}

/// The player with its distance.
fn candidate<F: Fn(&Player) -> Real>(player: Player, measure: &F) -> (r: Candidate)
    requires
        is_measure(*measure),
    ensures
        r == (Candidate { player, distance: distance_by(*measure)(player) }),
        call_ensures(*measure, (&r.player,), r.distance),
{
    let distance: Real = measure(&player);
    Candidate { player, distance }
}

/// The players under the ids, with their distances.
fn look_up<F: Fn(&Player) -> Real>(pool: &PlayerPool, ids: &Vec<u128>, measure: &F) -> (r: Vec<
    Candidate,
>)
    requires
        is_measure(*measure),
        forall|i: int| 0 <= i < ids@.len() ==> pool@.contains_key(#[trigger] ids@[i]),
    ensures
        r@ == measured(pool@, distance_by(*measure), ids@),
        all_measured(*measure, r@),
{
    let mut found: Vec<Candidate> = Vec::new();
    let mut i: usize = 0;
    while i < ids.len()
        invariant
            0 <= i <= ids@.len(),
            is_measure(*measure),
            forall|j: int| 0 <= j < ids@.len() ==> pool@.contains_key(#[trigger] ids@[j]),
            found@ == measured(pool@, distance_by(*measure), ids@.take(i as int)),
            all_measured(*measure, found@),
        decreases ids@.len() - i,
    {
        if let Some(p) = pool.get(&ids[i]) {
            found.push(candidate(p, measure));
        }
        i = i + 1;
        assert(found@ =~= measured(pool@, distance_by(*measure), ids@.take(i as int)));
    }
    assert(ids@.take(i as int) =~= ids@);
    found
}

/// Whether the id is listed.
fn holds(ids: &Vec<u128>, id: u128) -> (r: bool)
    ensures
        r == ids@.contains(id),
{
    let mut i: usize = 0;
    while i < ids.len()
        invariant
            0 <= i <= ids@.len(),
            forall|j: int| 0 <= j < i ==> ids@[j] != id,
        decreases ids@.len() - i,
    {
        if ids[i] == id {
            return true;
        }
        i = i + 1;
    }
    false
}

/// The players of the skill window, the anchor among them if it lies in there.
fn scan_window(pool: &PlayerPool, anchor: u128, lo: Real, hi: Real, cap: usize) -> (r: Vec<u128>)
    requires
        pool.wf(),
        lo.order() <= hi.order(),
    ensures
        are_in_window(pool@, anchor, lo, hi, cap as nat, r@),
        forall|i: int| 0 <= i < r@.len() ==> pool@.contains_key(#[trigger] r@[i]),
{
    let mut ids = pool.query_range(lo, hi, cap);
    let ghost listed = ids@;
    if let Some(p) = pool.get(&anchor) {
        let rank: i64 = p.skill.rank();
        if lo.rank() <= rank && rank <= hi.rank() && ids.len() > 0 && !holds(&ids, anchor) {
            ids.pop();
            ids.push(anchor);
        }
    }
    proof {
        law_well_formed_is_queued(*pool);
        let from = (lo.order() as i64, 0u128);
        let to = (hi.order() as i64, u128::MAX);
        assert(lists_up(pool@, listed, from, to, cap as nat));
        assert(ids@ == with_anchor(pool@, anchor, listed, from, to));
        assert forall|i: int| 0 <= i < ids@.len() implies pool@.contains_key(
            #[trigger] ids@[i],
        ) by {
            if ids@ != listed && i < ids@.len() - 1 {
                assert(ids@[i] == listed[i]);
            }
        }
    }
    ids
}

/// Everybody in the pool, in ascending skill order.
fn scan_all(pool: &PlayerPool, cap: usize) -> (r: Vec<u128>)
    requires
        pool.wf(),
        pool@.len() <= cap,
    ensures
        ascending(pool@, r@),
        r@.len() == pool@.len(),
        forall|id: u128| #[trigger] pool@.contains_key(id) ==> r@.contains(id),
{
    let ids = pool.query_range(Real { bits: NEG_INFINITY_BITS }, Real { bits: NAN_BITS }, cap);
    proof {
        law_well_formed_is_queued(*pool);
        let from = (-0x7f80_0000i64, 0u128);
        let to = (NAN_RANK, u128::MAX);
        assert(lists_up(pool@, ids@, from, to, cap as nat));
        lemma_lists_up_distinct(pool@, ids@, from, to, cap as nat);
        ids@.unique_seq_to_set();
        assert(ids@.to_set().subset_of(pool@.dom()));
        vstd::set_lib::lemma_len_subset(ids@.to_set(), pool@.dom());
        assert forall|id: u128| #[trigger] pool@.contains_key(id) implies ids@.contains(id) by {
            if !ids@.contains(id) {
                assert(in_span(skill_key(pool@[id]), from, to));
                assert(ids@.to_set().subset_of(pool@.dom().remove(id)));
                vstd::set_lib::lemma_len_subset(ids@.to_set(), pool@.dom().remove(id));
            }
        }
        assert(ids@.to_set() =~= pool@.dom());
    }
    ids
}

/// The least key after `k` going up.
fn after_up(k: Key) -> (r: Key)
    requires
        k.0 < i64::MAX,
    ensures
        forall|x: Key| #[trigger] key_before(x, r) <==> key_before(x, k) || x == k,
{
    if k.1 < u128::MAX {
        (k.0, k.1 + 1)
    } else {
        (k.0 + 1, 0)
    }
}

/// The next key after `k` going down.
fn after_down(k: Key) -> (r: Key)
    requires
        k.0 > i64::MIN,
    ensures
        forall|x: Key| #[trigger] down_before(x, r) <==> down_before(x, k) || x == k,
{
    if k.1 < u128::MAX {
        (k.0, k.1 + 1)
    } else {
        (k.0 - 1, 0)
    }
}

/// Put a candidate in its place by skill order. Returns the place.
fn place(found: &mut Vec<Candidate>, c: Candidate) -> (at: usize)
    requires
        forall|i: int, j: int|
            0 <= i < j < old(found)@.len() ==> key_before(
                skill_key((#[trigger] old(found)@[i]).player),
                skill_key((#[trigger] old(found)@[j]).player),
            ),
        forall|i: int|
            0 <= i < old(found)@.len() ==> (#[trigger] old(found)@[i]).player.id != c.player.id,
    ensures
        at <= old(found)@.len(),
        final(found)@ == old(found)@.insert(at as int, c),
        forall|i: int, j: int|
            0 <= i < j < final(found)@.len() ==> key_before(
                skill_key((#[trigger] final(found)@[i]).player),
                skill_key((#[trigger] final(found)@[j]).player),
            ),
{
    let rank: i64 = c.player.skill.rank();
    let mut at: usize = 0;
    while at < found.len() && (found[at].player.skill.rank() < rank
        || found[at].player.skill.rank() == rank && found[at].player.id < c.player.id)
        invariant
            0 <= at <= found@.len(),
            rank == c.player.skill.order(),
            forall|i: int|
                0 <= i < at ==> key_before(
                    skill_key((#[trigger] found@[i]).player),
                    skill_key(c.player),
                ),
        decreases found@.len() - at,
    {
        at = at + 1;
    }
    let ghost before = found@;
    found.insert(at, c);
    assert forall|i: int, j: int| 0 <= i < j < found@.len() implies key_before(
        skill_key((#[trigger] found@[i]).player),
        skill_key((#[trigger] found@[j]).player),
    ) by {
        let m = if i < at {
            i
        } else {
            i - 1
        };
        let n = if j < at {
            j
        } else {
            j - 1
        };
        if i != at {
            assert(found@[i] == before[m]);
        }
        if j != at {
            assert(found@[j] == before[n]);
        }
        if i == at {
            assert(key_before(skill_key(c.player), skill_key(before[at as int].player)));
            if n > at {
                assert(key_before(
                    skill_key(before[at as int].player),
                    skill_key(before[n].player),
                ));
            }
        }
    }
    at
}

/// A player at this place is still ahead of a walk from the anchor's rank that
/// has come to `down` on the one side and to `up` on the other.
spec fn ahead(rank: i64, down: Key, up: Key, k: Key) -> bool {
    if k.0 <= rank {
        !down_before(k, down)
    } else {
        !key_before(k, up)
    }
}

/// Everybody but the anchor is either listed or still ahead; whoever is listed
/// is nearer than whoever is ahead.
spec fn walked(
    pool: Map<u128, Player>,
    anchor: Player,
    dist: spec_fn(Player) -> Real,
    ids: Seq<u128>,
    down: Key,
    up: Key,
) -> bool {
    let rank = anchor.skill.order() as i64;
    &&& forall|id: u128| #[trigger]
        pool.contains_key(id) && id != anchor.id ==> (ids.contains(id) <==> !ahead(
            rank,
            down,
            up,
            skill_key(pool[id]),
        ))
    &&& grows_away(pool, anchor, dist) ==> forall|p: u128, q: u128|
        #![trigger ids.contains(p), pool.contains_key(q)]
        ids.contains(p) && p != anchor.id && pool.contains_key(q) && q != anchor.id
            && !ids.contains(q) ==> nearer(anchor, dist, pool[p], pool[q])
}

/// The step of a walk: the nearer of the next players on the two sides is listed.
proof fn lemma_walk_step(
    pool: Map<u128, Player>,
    anchor: Player,
    dist: spec_fn(Player) -> Real,
    ids: Seq<u128>,
    down: Key,
    up: Key,
    c: Player,
    at: int,
    down_next: Key,
    up_next: Key,
)
    requires
        queued(pool),
        walked(pool, anchor, dist, ids, down, up),
        0 <= at <= ids.len(),
        pool.contains_key(c.id),
        pool[c.id] == c,
        c.id != anchor.id,
        !ids.contains(c.id),
        forall|x: Key| #[trigger]
            down_before(x, down_next) <==> down_before(x, down) || (c.skill.order()
                <= anchor.skill.order() && (down_before(x, skill_key(c)) || x == skill_key(c))),
        forall|x: Key| #[trigger]
            key_before(x, up_next) <==> key_before(x, up) || (c.skill.order()
                > anchor.skill.order() && (key_before(x, skill_key(c)) || x == skill_key(c))),
        c.skill.order() <= anchor.skill.order() ==> forall|q: u128| #[trigger]
            pool.contains_key(q) && q != anchor.id && !down_before(skill_key(pool[q]), down)
                ==> !down_before(skill_key(pool[q]), skill_key(c)),
        c.skill.order() > anchor.skill.order() ==> forall|q: u128| #[trigger]
            pool.contains_key(q) && q != anchor.id && !key_before(skill_key(pool[q]), up)
                ==> !key_before(skill_key(pool[q]), skill_key(c)),
        grows_away(pool, anchor, dist) ==> forall|q: u128| #[trigger]
            pool.contains_key(q) && q != anchor.id && q != c.id && !ids.contains(q) ==> nearer(
                anchor,
                dist,
                c,
                pool[q],
            ),
    ensures
        walked(pool, anchor, dist, ids.insert(at, c.id), down_next, up_next),
{
    let next = ids.insert(at, c.id);
    assert forall|id: u128| next.contains(id) <==> ids.contains(id) || id == c.id by {
        lemma_insert_contains(ids, at, c.id, id);
    }
    let rank = anchor.skill.order() as i64;
    assert forall|id: u128| #[trigger] pool.contains_key(id) && id != anchor.id implies (
    next.contains(id) <==> !ahead(rank, down_next, up_next, skill_key(pool[id]))) by {
        let k = skill_key(pool[id]);
        assert(down_before(k, down_next) <==> down_before(k, down) || (c.skill.order()
            <= anchor.skill.order() && (down_before(k, skill_key(c)) || k == skill_key(c))));
        assert(key_before(k, up_next) <==> key_before(k, up) || (c.skill.order()
            > anchor.skill.order() && (key_before(k, skill_key(c)) || k == skill_key(c))));
    }
}

/// What a sequence holds after an insertion.
proof fn lemma_insert_contains(s: Seq<u128>, at: int, x: u128, y: u128)
    requires
        0 <= at <= s.len(),
    ensures
        s.insert(at, x).contains(y) <==> s.contains(y) || y == x,
{
    let t = s.insert(at, x);
    assert(t[at] == x);
    if s.contains(y) {
        let i = s.index_of(y);
        assert(t[if i < at {
            i
        } else {
            i + 1
        }] == y);
    }
    if t.contains(y) && y != x {
        let i = t.index_of(y);
        assert(s[if i < at {
            i
        } else {
            i - 1
        }] == y);
    }
}

/// The anchor and the players nearest to it, `total` in all, in ascending skill
/// order: a walk down and a walk up in skill from the anchor, each time taking
/// the nearer of the two next players.
fn scan_nearest<F: Fn(&Player) -> Real>(
    pool: &PlayerPool,
    anchor: &Player,
    total: usize,
    measure: &F,
) -> (r: Vec<Candidate>)
    requires
        pool.wf(),
        is_measure(*measure),
        total < pool@.len(),
    ensures
        exists|ids: Seq<u128>|
            {
                let dist = distance_by(*measure);
                &&& #[trigger] ascending(pool@, ids)
                &&& ids.len() == total
                &&& pool@.contains_key(anchor.id) && total > 0 ==> ids.contains(anchor.id)
                &&& grows_away(pool@, *anchor, dist) ==> forall|p: u128, q: u128|
                    #![trigger ids.contains(p), pool@.contains_key(q)]
                    ids.contains(p) && p != anchor.id && pool@.contains_key(q) && !ids.contains(q)
                        ==> nearer(*anchor, dist, pool@[p], pool@[q])
                &&& r@ == measured(pool@, dist, ids)
            },
        all_measured(*measure, r@),
{
    let ghost dist = distance_by(*measure);
    let ghost mut ids: Seq<u128> = Seq::empty();
    proof {
        law_well_formed_is_queued(*pool);
    }
    let mut found: Vec<Candidate> = Vec::new();
    if total > 0 {
        if let Some(p) = pool.get(&anchor.id) {
            found.push(candidate(p, measure));
            proof {
                ids = ids.push(anchor.id);
                assert(ids[0] == anchor.id);
            }
        }
    }
    assert(found@ =~= measured(pool@, dist, ids));
    let rank: i64 = anchor.skill.rank();
    let mut down: Key = (rank, 0);
    let mut up: Key = (rank + 1, 0);
    while found.len() < total
        invariant
            pool.wf(),
            queued(pool@),
            is_measure(*measure),
            dist == distance_by(*measure),
            rank == anchor.skill.order(),
            total < pool@.len(),
            found@.len() <= total,
            found@ == measured(pool@, dist, ids),
            all_measured(*measure, found@),
            ascending(pool@, ids),
            pool@.contains_key(anchor.id) && total > 0 ==> ids.contains(anchor.id),
            walked(pool@, *anchor, dist, ids, down, up),
            down.0 <= rank,
            up.0 > rank,
        decreases total - found@.len(),
    {
        let below = pool.next_down(down, anchor.id);
        let above = pool.next_up(up, anchor.id);
        let ghost (was, down_was, up_was) = (ids, down, up);
        let next: Option<Candidate> = match (below, above) {
            (None, None) => None,
            (Some(p), None) => Some(candidate(p, measure)),
            (None, Some(q)) => Some(candidate(q, measure)),
            (Some(p), Some(q)) => {
                let c = candidate(p, measure);
                let d = candidate(q, measure);
                if c.distance.rank() <= d.distance.rank() {
                    Some(c)
                } else {
                    Some(d)
                }
            },
        };
        match next {
            None => {
                proof {
                    lemma_all_listed(pool@, ids);
                }
                return found;
            },
            Some(c) => {
                let ghost p = c.player;
                let ghost (taken, before) = (c, found@);
                assert(call_ensures(*measure, (&taken.player,), taken.distance));
                assert(ahead(rank, down, up, skill_key(p)));
                if c.player.skill.rank() <= rank {
                    down = after_down((c.player.skill.rank(), c.player.id));
                } else {
                    up = after_up((c.player.skill.rank(), c.player.id));
                }
                assert forall|i: int| 0 <= i < found@.len() implies (
                #[trigger] found@[i]).player.id != p.id by {
                    assert(was.contains(was[i]));
                    assert(pool@.contains_key(was[i]));
                }
                assert forall|i: int, j: int| 0 <= i < j < found@.len() implies key_before(
                    skill_key((#[trigger] found@[i]).player),
                    skill_key((#[trigger] found@[j]).player),
                ) by {
                    assert(key_before(skill_key(pool@[was[i]]), skill_key(pool@[was[j]])));
                }
                let at: usize = place(&mut found, c);
                proof {
                    ids = was.insert(at as int, p.id);
                    assert(found@ =~= measured(pool@, dist, ids));
                    assert forall|i: int| 0 <= i < found@.len() implies call_ensures(
                        *measure,
                        (&(#[trigger] found@[i]).player,),
                        found@[i].distance,
                    ) by {
                        if i < at {
                            assert(found@[i] == before[i]);
                        } else if i > at {
                            assert(found@[i] == before[i - 1]);
                        }
                    }
                    lemma_walk_step(
                        pool@,
                        *anchor,
                        dist,
                        was,
                        down_was,
                        up_was,
                        p,
                        at as int,
                        down,
                        up,
                    );
                    assert forall|i: int| 0 <= i < ids.len() implies {
                        &&& pool@.contains_key(#[trigger] ids[i])
                        &&& found@[i].player == pool@[ids[i]]
                    } by {
                        lemma_insert_contains(was, at as int, p.id, ids[i]);
                        assert(ids.contains(ids[i]));
                        if was.contains(ids[i]) {
                            let k = was.index_of(ids[i]);
                            assert(pool@.contains_key(was[k]));
                        }
                    }
                    assert forall|i: int, j: int| 0 <= i < j < ids.len() implies key_before(
                        skill_key(pool@[#[trigger] ids[i]]),
                        skill_key(pool@[#[trigger] ids[j]]),
                    ) by {
                        assert(key_before(
                            skill_key(found@[i].player),
                            skill_key(found@[j].player),
                        ));
                    }
                    lemma_insert_contains(was, at as int, p.id, anchor.id);
                }
            },
        }
    }
    assert(ascending(pool@, ids));
    found
}

/// A list that holds everybody is as long as the pool.
proof fn lemma_all_listed(pool: Map<u128, Player>, ids: Seq<u128>)
    requires
        queued(pool),
        forall|id: u128| #[trigger] pool.contains_key(id) ==> ids.contains(id),
    ensures
        pool.len() <= ids.len(),
{
    assert(pool.dom().subset_of(ids.to_set()));
    vstd::seq_lib::seq_to_set_is_finite(ids);
    vstd::set_lib::lemma_len_subset(pool.dom(), ids.to_set());
    ids.lemma_cardinality_of_set();
}

/// The candidates of an attempt, in ascending skill order and no more than the
/// cap.
///
/// Those within the skill window `[lo, hi]`; or, once the anchor is past the
/// hard deadline, those nearest to it whatever the window.
pub fn gather_candidates<F: Fn(&Player) -> Real>(
    pool: &PlayerPool,
    cfg: &Config,
    anchor: &Player,
    wait_secs: Real,
    lo: Real,
    hi: Real,
    measure: &F,
) -> (r: Vec<Candidate>)
    requires
        pool.wf(),
        is_measure(*measure),
        !starving(*cfg, wait_secs) ==> lo.order() <= hi.order(),
    ensures
        starving(*cfg, wait_secs) ==> gathered_nearby(
            pool@,
            *anchor,
            distance_by(*measure),
            cfg.candidate_cap as nat,
            r@,
        ),
        !starving(*cfg, wait_secs) ==> gathered_in_window(
            pool@,
            *anchor,
            distance_by(*measure),
            lo,
            hi,
            cfg.candidate_cap as nat,
            r@,
        ),
        forall|i: int|
            0 <= i < r@.len() ==> call_ensures(
                *measure,
                (&(#[trigger] r@[i]).player,),
                r@[i].distance,
            ),
        r@.len() <= cfg.candidate_cap,
        forall|i: int|
            0 <= i < r@.len() ==> pool@.contains_key((#[trigger] r@[i]).player.id)
                && pool@[r@[i].player.id] == r@[i].player,
        !(cfg.hard_deadline_secs.order() <= wait_secs.order() <= (Real {
            bits: INFINITY_BITS,
        }).order()) ==> forall|i: int|
            0 <= i < r@.len() ==> lo.order() <= (#[trigger] r@[i]).player.skill.order()
                <= hi.order(),
        cfg.hard_deadline_secs.order() <= wait_secs.order() <= (Real {
            bits: INFINITY_BITS,
        }).order() && pool@.len() >= 10 && cfg.candidate_cap >= 10 ==> r@.len() >= 10,
{
    let ghost dist = distance_by(*measure);
    let ghost cap = cfg.candidate_cap as nat;
    let found = if wait_secs.at_least(cfg.hard_deadline_secs) {
        if pool.len() <= cfg.candidate_cap {
            let ids = scan_all(pool, cfg.candidate_cap);
            assert(are_nearby(pool@, *anchor, dist, cap, ids@));
            look_up(pool, &ids, measure)
        } else {
            let total: usize = if cfg.candidate_cap < MATCH_SIZE {
                cfg.candidate_cap
            } else {
                MATCH_SIZE
            };
            let found = scan_nearest(pool, anchor, total, measure);
            proof {
                let ids = choose|ids: Seq<u128>|
                    {
                        &&& #[trigger] ascending(pool@, ids)
                        &&& ids.len() == total
                        &&& pool@.contains_key(anchor.id) && total > 0 ==> ids.contains(anchor.id)
                        &&& grows_away(pool@, *anchor, dist) ==> forall|p: u128, q: u128|
                            #![trigger ids.contains(p), pool@.contains_key(q)]
                            ids.contains(p) && p != anchor.id && pool@.contains_key(q)
                                && !ids.contains(q) ==> nearer(*anchor, dist, pool@[p], pool@[q])
                        &&& found@ == measured(pool@, dist, ids)
                    };
                assert(are_nearby(pool@, *anchor, dist, cap, ids));
            }
            found
        }
    } else {
        let ids = scan_window(pool, anchor.id, lo, hi, cfg.candidate_cap);
        look_up(pool, &ids, measure)
    };
    proof {
        law_well_formed_is_queued(*pool);
        law_configured_deadline_decides(
            pool@,
            *cfg,
            *anchor,
            wait_secs,
            dist,
            lo,
            hi,
            found@,
        );
    }
    found
}

/// The candidate counts as local: region is ignored past the hard deadline,
/// and the anchor itself is always local.
pub open spec fn is_local(c: Candidate, anchor: Player, region_ignored: bool) -> bool {
    region_ignored || c.player.id == anchor.id || c.player.region@ == anchor.region@
}

/// Where a candidate stands in the order of nearness: by its distance.
pub open spec fn nearness(c: Candidate) -> i64 {
    c.distance.order() as i64
}

/// The order of `(nearness, position)` entries.
pub open spec fn entry_order() -> spec_fn((i64, usize), (i64, usize)) -> bool {
    |a: (i64, usize), b: (i64, usize)| a.0 < b.0 || (a.0 == b.0 && a.1 <= b.1)
}

/// Every candidate as `(nearness, position)`.
pub open spec fn entries(cs: Seq<Candidate>) -> Seq<(i64, usize)> {
    Seq::new(cs.len(), |i: int| (nearness(cs[i]), i as usize))
}

/// The entries that are local, or those that are not.
pub open spec fn in_group(
    cs: Seq<Candidate>,
    anchor: Player,
    region_ignored: bool,
    local: bool,
) -> spec_fn((i64, usize)) -> bool {
    |e: (i64, usize)| is_local(cs[e.1 as int], anchor, region_ignored) == local
}

/// The local candidates, or those that are not, nearest first; of equally near
/// ones, the earlier first.
pub open spec fn ranked(
    cs: Seq<Candidate>,
    anchor: Player,
    region_ignored: bool,
    local: bool,
) -> Seq<(i64, usize)> {
    entries(cs).filter(in_group(cs, anchor, region_ignored, local)).sort_by(entry_order())
}

/// The ids that the entries stand for.
pub open spec fn ids_of(cs: Seq<Candidate>, ranking: Seq<(i64, usize)>) -> Seq<u128> {
    ranking.map_values(|e: (i64, usize)| cs[e.1 as int].player.id)
}

/// The first `n` elements of `s`, or all if there are fewer.
pub open spec fn first<T>(s: Seq<T>, n: int) -> Seq<T> {
    if n < s.len() {
        s.take(n)
    } else {
        s
    }
}

/// The picks among the local candidates, of which `local` is the ranking: the
/// ten nearest. If these would pass over the anchor, it takes the last place.
pub open spec fn local_picks(
    anchor: Player,
    cs: Seq<Candidate>,
    local: Seq<(i64, usize)>,
) -> Seq<u128> {
    let top = ids_of(cs, first(local, MATCH_SIZE as int));
    if ids_of(cs, local).contains(anchor.id) && !top.contains(anchor.id) {
        top.drop_last().push(anchor.id)
    } else {
        top
    }
}

/// The ids that an attempt picks: the ten nearest local candidates, the anchor
/// always among them; where those are fewer, the nearest of the others fill the
/// match.
pub open spec fn selection(
    cfg: Config,
    anchor: Player,
    wait_secs: Real,
    cs: Seq<Candidate>,
) -> Seq<u128> {
    let region_ignored = starving(cfg, wait_secs);
    let local = local_picks(anchor, cs, ranked(cs, anchor, region_ignored, true));
    let rest = ranked(cs, anchor, region_ignored, false);
    local + ids_of(cs, first(rest, MATCH_SIZE - local.len()))
}

/// Calls `slice::sort`: the same entries, in ascending order.
#[verifier::external_body]
fn sort_entries(v: &mut Vec<(i64, usize)>)
    ensures
        sorted_by(final(v)@, entry_order()),
        final(v)@.to_multiset() == old(v)@.to_multiset(),
{
    v.sort();
}

/// `(nearness, position)` entries are totally ordered.
pub proof fn lemma_entry_order_total()
    ensures
        total_ordering(entry_order()),
{
}

/// The local candidates, or those that are not, nearest first.
fn rank(
    cs: &Vec<Candidate>,
    anchor: &Player,
    region_ignored: bool,
    local: bool,
) -> (r: Vec<(i64, usize)>)
    ensures
        r@ == ranked(cs@, *anchor, region_ignored, local),
{
    let ghost all = entries(cs@);
    let ghost group = in_group(cs@, *anchor, region_ignored, local);
    let mut v: Vec<(i64, usize)> = Vec::new();
    let mut i: usize = 0;
    assert(all.take(0).filter(group) =~= Seq::<(i64, usize)>::empty()) by {
        reveal(Seq::filter);
    }
    while i < cs.len()
        invariant
            0 <= i <= cs@.len(),
            all == entries(cs@),
            group == in_group(cs@, *anchor, region_ignored, local),
            v@ == all.take(i as int).filter(group),
        decreases cs@.len() - i,
    {
        let c: &Candidate = &cs[i];
        let near: i64 = c.distance.rank();
        let is_in: bool = region_ignored || c.player.id == anchor.id || c.player.region
            == anchor.region;
        proof {
            assert(all[i as int] == (near, i));
            assert(all.take(i + 1) =~= all.take(i as int).push((near, i)));
            all.take(i as int).lemma_filter_push((near, i), group);
        }
        if is_in == local {
            v.push((near, i));
        }
        i = i + 1;
    }
    assert(all.take(i as int) =~= all);
    let ghost unsorted = v@;
    sort_entries(&mut v);
    proof {
        lemma_entry_order_total();
        unsorted.lemma_sort_by_ensures(entry_order());
        vstd::seq_lib::lemma_sorted_unique(v@, unsorted.sort_by(entry_order()), entry_order());
    }
    v
}

/// Append the ids that the first `n` entries stand for, or all if there are
/// fewer.
fn append_ids(
    cs: &Vec<Candidate>,
    ranking: &Vec<(i64, usize)>,
    n: usize,
    chosen: &mut Vec<u128>,
)
    requires
        forall|j: int| 0 <= j < ranking@.len() ==> (#[trigger] ranking@[j]).1 < cs@.len(),
    ensures
        final(chosen)@ == old(chosen)@ + ids_of(cs@, first(ranking@, n as int)),
{
    let ghost start = chosen@;
    let mut i: usize = 0;
    assert(chosen@ =~= start + ids_of(cs@, ranking@.take(0)));
    while i < n && i < ranking.len()
        invariant
            0 <= i <= ranking@.len(),
            i <= n,
            forall|j: int| 0 <= j < ranking@.len() ==> (#[trigger] ranking@[j]).1 < cs@.len(),
            chosen@ == start + ids_of(cs@, ranking@.take(i as int)),
        decreases n - i,
    {
        chosen.push(cs[ranking[i].1].player.id);
        i = i + 1;
        assert(chosen@ =~= start + ids_of(cs@, ranking@.take(i as int)));
    }
    assert(ranking@.take(i as int) =~= first(ranking@, n as int));
}

/// Positions in a ranking are positions of candidates of its group.
pub proof fn lemma_ranked_positions(
    cs: Seq<Candidate>,
    anchor: Player,
    region_ignored: bool,
    local: bool,
)
    requires
        cs.len() <= usize::MAX,
    ensures
        forall|j: int|
            #![trigger ranked(cs, anchor, region_ignored, local)[j]]
            0 <= j < ranked(cs, anchor, region_ignored, local).len() ==> {
                let e = ranked(cs, anchor, region_ignored, local)[j];
                &&& e.1 < cs.len()
                &&& e.0 == nearness(cs[e.1 as int])
                &&& is_local(cs[e.1 as int], anchor, region_ignored) == local
            },
        forall|i: int|
            #![trigger cs[i]]
            0 <= i < cs.len() && is_local(cs[i], anchor, region_ignored) == local ==> ranked(
                cs,
                anchor,
                region_ignored,
                local,
            ).contains((nearness(cs[i]), i as usize)),
        sorted_by(ranked(cs, anchor, region_ignored, local), entry_order()),
        ranked(cs, anchor, region_ignored, local).no_duplicates(),
{
    broadcast use {
        vstd::seq_lib::group_to_multiset_ensures,
        vstd::seq_lib::group_filter_ensures,
    };

    let all = entries(cs);
    let group = in_group(cs, anchor, region_ignored, local);
    let picked = all.filter(group);
    let sorted = ranked(cs, anchor, region_ignored, local);
    lemma_entry_order_total();
    picked.lemma_sort_by_ensures(entry_order());
    assert forall|j: int| #![trigger sorted[j]] 0 <= j < sorted.len() implies {
        let e = sorted[j];
        &&& e.1 < cs.len()
        &&& e.0 == nearness(cs[e.1 as int])
        &&& is_local(cs[e.1 as int], anchor, region_ignored) == local
    } by {
        let e = sorted[j];
        assert(sorted.contains(e));
        assert(picked.contains(e));
        all.lemma_filter_contains_rev(group, e);
        let k = picked.index_of(e);
        assert(group(picked[k]));
        let i = all.index_of(e);
        assert(all[i] == e);
    }
    assert forall|i: int|
        #![trigger cs[i]]
        0 <= i < cs.len() && is_local(cs[i], anchor, region_ignored) == local implies sorted.contains(
        (nearness(cs[i]), i as usize),
    ) by {
        let e = (nearness(cs[i]), i as usize);
        assert(all[i] == e);
        assert(group(all[i]));
        assert(picked.contains(e));
        assert(picked.to_multiset().count(e) > 0);
        assert(sorted.to_multiset().count(e) > 0);
    }
    assert(all.no_duplicates());
    lemma_filter_no_duplicates(all, group);
    picked.lemma_multiset_has_no_duplicates();
    sorted.lemma_multiset_has_no_duplicates_conv();
}

/// What is kept of distinct elements is distinct.
proof fn lemma_filter_no_duplicates<T>(s: Seq<T>, keep: spec_fn(T) -> bool)
    requires
        s.no_duplicates(),
    ensures
        s.filter(keep).no_duplicates(),
    decreases s.len(),
{
    reveal(Seq::filter);
    if s.len() > 0 {
        let init = s.drop_last();
        lemma_filter_no_duplicates(init, keep);
        if keep(s.last()) && init.filter(keep).contains(s.last()) {
            init.lemma_filter_contains_rev(keep, s.last());
            let i = init.index_of(s.last());
            assert(s[i] == s[s.len() - 1]);
        }
    }
}

/// Pick ten players for a match, region-aware.
///
/// * Partition the candidates into local and other, each sorted by distance
///   from the anchor, closest first.
/// * Take local ones first, the anchor always among them; top up from the others
///   once the anchor has waited long enough, or if the local ones cannot fill a
///   match.
/// * Past the hard deadline region is ignored.
pub fn select_candidates(
    cfg: &Config,
    anchor: &Player,
    wait_secs: Real,
    candidates: &Vec<Candidate>,
) -> (r: Vec<u128>)
    ensures
        r@ == selection(*cfg, *anchor, wait_secs, candidates@),
        r@.len() <= MATCH_SIZE,
{
    let is_starving: bool = wait_secs.at_least(cfg.hard_deadline_secs);
    let local = rank(candidates, anchor, is_starving, true);
    let rest = rank(candidates, anchor, is_starving, false);
    proof {
        assert(candidates@.len() == candidates.len());
        lemma_ranked_positions(candidates@, *anchor, is_starving, true);
        lemma_ranked_positions(candidates@, *anchor, is_starving, false);
    }
    let mut chosen: Vec<u128> = Vec::new();
    append_ids(candidates, &local, MATCH_SIZE, &mut chosen);
    let ghost top = chosen@;
    assert(top =~= ids_of(candidates@, first(local@, MATCH_SIZE as int)));
    if !holds(&chosen, anchor.id) && ranks(candidates, &local, anchor.id) {
        assert(local@.len() > MATCH_SIZE) by {
            if local@.len() <= MATCH_SIZE {
                assert(first(local@, MATCH_SIZE as int) =~= local@);
            }
        }
        chosen.pop();
        chosen.push(anchor.id);
    }
    assert(chosen@ =~= local_picks(*anchor, candidates@, local@));
    let allow_cross: bool = is_starving || wait_secs.at_least(cfg.cross_region_after_secs)
        || local.len() < MATCH_SIZE;
    if chosen.len() < MATCH_SIZE && allow_cross {
        append_ids(candidates, &rest, MATCH_SIZE - chosen.len(), &mut chosen);
    }
    assert(chosen@ =~= selection(*cfg, *anchor, wait_secs, candidates@));
    chosen
}

/// Whether the player is among those that the ranking stands for.
fn ranks(cs: &Vec<Candidate>, ranking: &Vec<(i64, usize)>, id: u128) -> (r: bool)
    requires
        forall|j: int| 0 <= j < ranking@.len() ==> (#[trigger] ranking@[j]).1 < cs@.len(),
    ensures
        r == ids_of(cs@, ranking@).contains(id),
{
    let mut i: usize = 0;
    while i < ranking.len()
        invariant
            0 <= i <= ranking@.len(),
            forall|j: int| 0 <= j < ranking@.len() ==> (#[trigger] ranking@[j]).1 < cs@.len(),
            forall|j: int| 0 <= j < i ==> ids_of(cs@, ranking@)[j] != id,
        decreases ranking@.len() - i,
    {
        if cs[ranking[i].1].player.id == id {
            assert(ids_of(cs@, ranking@)[i as int] == id);
            return true;
        }
        i = i + 1;
    }
    false
}

/// The ids are distinct and all in the pool.
pub open spec fn all_queued(pool: Map<u128, Player>, ids: Seq<u128>) -> bool {
    &&& ids.no_duplicates()
    &&& forall|i: int| 0 <= i < ids.len() ==> pool.contains_key(#[trigger] ids[i])
}

/// The ids of players.
pub open spec fn ids_in(players: Seq<Player>) -> Seq<u128> {
    players.map_values(|p: Player| p.id)
}

/// Atomically evict the ten chosen players: all of them, or none.
///
/// If a peer has already taken one of them, the players grabbed so far go back
/// with their wait clocks, the lost race is recorded, and the pool is as it was.
pub fn claim(pool: &mut PlayerPool, metrics: &mut Metrics, chosen: &Vec<u128>) -> (r: Option<
    Vec<Player>,
>)
    requires
        old(pool).wf(),
        chosen@.len() == MATCH_SIZE,
    ensures
        final(pool).wf(),
        final(pool).clock() == old(pool).clock(),
        match r {
            Some(players) => {
                &&& all_queued(old(pool)@, chosen@)
                &&& players@ == chosen@.map_values(found_in(old(pool)@))
                &&& final(pool)@ == old(pool)@.remove_keys(chosen@.to_set())
                &&& *final(metrics) == *old(metrics)
            },
            None => {
                &&& !all_queued(old(pool)@, chosen@)
                &&& final(pool)@ == old(pool)@
                &&& *final(metrics) == old(metrics).with_eviction_race()
            },
        },
        r is Some <==> {
            &&& forall|i: int, j: int|
                0 <= i < j < 10 ==> #[trigger] chosen@[i] != #[trigger] chosen@[j]
            &&& forall|i: int| 0 <= i < 10 ==> old(pool)@.contains_key(#[trigger] chosen@[i])
        },
        r matches Some(players) ==> {
            &&& players@.len() == 10
            &&& forall|i: int| 0 <= i < 10 ==> #[trigger] players@[i] == old(pool)@[chosen@[i]]
        },
        forall|id: u128| #[trigger]
            final(pool)@.contains_key(id) <==> old(pool)@.contains_key(id) && !(r is Some
                && chosen@.contains(id)),
        forall|id: u128| #[trigger]
            final(pool)@.contains_key(id) ==> final(pool)@[id] == old(pool)@[id],
{
    let ghost before = pool@;
    let ghost at = found_in(before);
    proof {
        law_well_formed_is_queued(*pool);
        assert(before.remove_keys(chosen@.take(0).to_set()) =~= before);
    }
    let mut evicted: Vec<Player> = Vec::new();
    let mut i: usize = 0;
    while i < chosen.len()
        invariant
            0 <= i <= chosen@.len(),
            queued(before),
            at == found_in(before),
            pool.wf(),
            pool.clock() == old(pool).clock(),
            pool@ == before.remove_keys(chosen@.take(i as int).to_set()),
            evicted@.len() <= i,
            forall|j: int|
                0 <= j < evicted@.len() ==> {
                    &&& before.contains_key((#[trigger] evicted@[j]).id)
                    &&& before[evicted@[j].id] == evicted@[j]
                    &&& chosen@.take(i as int).contains(evicted@[j].id)
                },
            ids_in(evicted@).no_duplicates(),
            forall|id: u128| #[trigger]
                before.contains_key(id) && chosen@.take(i as int).contains(id) ==> ids_in(
                    evicted@,
                ).contains(id),
            evicted@.len() == i ==> {
                &&& all_queued(before, chosen@.take(i as int))
                &&& evicted@ == chosen@.take(i as int).map_values(at)
            },
            all_queued(before, chosen@.take(i as int)) ==> evicted@.len() == i,
        decreases chosen@.len() - i,
    {
        let ghost done = chosen@.take(i as int);
        let ghost held = evicted@;
        let ghost queue = pool@;
        let id: u128 = chosen[i];
        let ghost next = chosen@.take(i + 1);
        assert(next =~= done.push(id));
        assert(next[i as int] == id);
        let got = pool.remove(&id);
        assert(pool@ =~= before.remove_keys(next.to_set())) by {
            assert forall|x: u128| next.to_set().contains(x) <==> done.to_set().contains(x) || x
                == id by {
                if done.contains(x) {
                    assert(next[done.index_of(x)] == x);
                }
            }
        }
        if let Some(p) = got {
            evicted.push(p);
        }
        proof {
            assert(queue.contains_key(id) <==> before.contains_key(id) && !done.contains(id));
            assert forall|j: int| 0 <= j < done.len() implies next[j] == #[trigger] done[j] by {}
            if got is Some {
                assert(ids_in(evicted@) =~= ids_in(held).push(id));
                assert(!ids_in(held).contains(id)) by {
                    if ids_in(held).contains(id) {
                        let j = ids_in(held).index_of(id);
                        assert(held[j].id == id);
                    }
                }
                assert forall|j: int| 0 <= j < evicted@.len() implies {
                    &&& before.contains_key((#[trigger] evicted@[j]).id)
                    &&& before[evicted@[j].id] == evicted@[j]
                    &&& next.contains(evicted@[j].id)
                } by {
                    if j < held.len() {
                        assert(evicted@[j] == held[j]);
                        let k = done.index_of(held[j].id);
                        assert(next[k] == held[j].id);
                    }
                }
            } else {
                assert forall|j: int| 0 <= j < evicted@.len() implies next.contains(
                    (#[trigger] evicted@[j]).id,
                ) by {
                    let k = done.index_of(held[j].id);
                    assert(next[k] == held[j].id);
                }
            }
            assert forall|x: u128| #[trigger]
                before.contains_key(x) && next.contains(x) implies ids_in(evicted@).contains(x) by {
                if done.contains(x) {
                    assert(ids_in(held).contains(x));
                    let j = ids_in(held).index_of(x);
                    assert(ids_in(evicted@)[j] == x);
                } else {
                    assert(x == id);
                    assert(ids_in(evicted@)[held.len() as int] == id);
                }
            }
            if all_queued(before, next) {
                assert(all_queued(before, done)) by {
                    assert forall|j: int| 0 <= j < done.len() implies before.contains_key(
                        #[trigger] done[j],
                    ) by {
                        assert(next[j] == done[j]);
                    }
                }
                assert(before.contains_key(next[i as int]));
                if done.contains(id) {
                    let j = done.index_of(id);
                    assert(next[j] == next[i as int]);
                }
            }
            if evicted@.len() == i + 1 {
                assert(all_queued(before, next));
                assert(evicted@ =~= next.map_values(at));
            }
        }
        i = i + 1;
    }
    assert(chosen@.take(i as int) =~= chosen@);
    if evicted.len() < MATCH_SIZE {
        metrics.record_eviction_race();
        assert(pool@ =~= before.remove_keys(ids_in(evicted@).to_set())) by {
            assert forall|x: u128| before.contains_key(x) implies (chosen@.to_set().contains(x)
                <==> ids_in(evicted@).to_set().contains(x)) by {
                if ids_in(evicted@).contains(x) {
                    let j = ids_in(evicted@).index_of(x);
                    assert(evicted@[j].id == x);
                }
            }
        }
        while evicted.len() > 0
            invariant
                queued(before),
                pool.wf(),
                pool.clock() == old(pool).clock(),
                pool@ == before.remove_keys(ids_in(evicted@).to_set()),
                ids_in(evicted@).no_duplicates(),
                forall|j: int|
                    0 <= j < evicted@.len() ==> {
                        &&& before.contains_key((#[trigger] evicted@[j]).id)
                        &&& before[evicted@[j].id] == evicted@[j]
                    },
            decreases evicted@.len(),
        {
            let ghost held = evicted@;
            let ghost queue = pool@;
            if let Some(p) = evicted.pop() {
                let ghost id = p.id;
                assert(held.last() == p);
                pool.reinsert(p);
                proof {
                    let last = held.len() - 1;
                    assert(evicted@ =~= held.drop_last());
                    assert(ids_in(evicted@) =~= ids_in(held).drop_last());
                    assert(ids_in(held)[last] == id);
                    assert(pool@ == queue.insert(id, p));
                    assert forall|x: u128| ids_in(held).to_set().contains(x) <==> ids_in(
                        evicted@,
                    ).to_set().contains(x) || x == id by {
                        if ids_in(evicted@).contains(x) {
                            let j = ids_in(evicted@).index_of(x);
                            assert(ids_in(held)[j] == x);
                        }
                        if ids_in(held).contains(x) && x != id {
                            let j = ids_in(held).index_of(x);
                            assert(ids_in(evicted@)[j] == x);
                        }
                    }
                    assert(!ids_in(evicted@).contains(id)) by {
                        if ids_in(evicted@).contains(id) {
                            let j = ids_in(evicted@).index_of(id);
                            assert(ids_in(held)[j] == ids_in(held)[last]);
                        }
                    }
                    assert(pool@ =~= before.remove_keys(ids_in(evicted@).to_set()));
                }
            }
        }
        assert(pool@ =~= before);
        return None;
    }
    Some(evicted)
}

/// One attempt to assemble and claim ten players out of the candidates.
/// Returns the ten evicted players on success, or `None` if the candidates are
/// too few or this worker lost an eviction race.
pub fn try_form_match(
    pool: &mut PlayerPool,
    cfg: &Config,
    metrics: &mut Metrics,
    anchor: &Player,
    wait_secs: Real,
    candidates: &Vec<Candidate>,
) -> (r: Option<Vec<Player>>)
    requires
        old(pool).wf(),
    ensures
        final(pool).wf(),
        final(pool).clock() == old(pool).clock(),
        ({
            let ids = selection(*cfg, *anchor, wait_secs, candidates@);
            if ids.len() < MATCH_SIZE {
                &&& r is None
                &&& final(pool)@ == old(pool)@
                &&& *final(metrics) == *old(metrics)
            } else if !all_queued(old(pool)@, ids) {
                &&& r is None
                &&& final(pool)@ == old(pool)@
                &&& *final(metrics) == old(metrics).with_eviction_race()
            } else {
                &&& r matches Some(players)
                &&& players@ == ids.map_values(found_in(old(pool)@))
                &&& final(pool)@ == old(pool)@.remove_keys(ids.to_set())
                &&& *final(metrics) == *old(metrics)
            }
        }),
        r matches Some(players) ==> {
            &&& players@.len() == 10
            &&& forall|i: int|
                0 <= i < 10 ==> old(pool)@.contains_key((#[trigger] players@[i]).id)
                    && old(pool)@[players@[i].id] == players@[i] && !final(pool)@.contains_key(
                    players@[i].id,
                )
            &&& forall|i: int, j: int|
                0 <= i < j < 10 ==> (#[trigger] players@[i]).id != (#[trigger] players@[j]).id
            &&& final(pool)@.len() + 10 == old(pool)@.len()
        },
        forall|id: u128| #[trigger]
            final(pool)@.contains_key(id) ==> old(pool)@.contains_key(id) && final(pool)@[id]
                == old(pool)@[id],
        r is None ==> final(pool)@ == old(pool)@,
{
    let chosen = select_candidates(cfg, anchor, wait_secs, candidates);
    if chosen.len() < MATCH_SIZE {
        return None;
    }
    let ghost before = pool@;
    proof {
        law_well_formed_is_queued(*pool);
    }
    let claimed = claim(pool, metrics, &chosen);
    proof {
        if claimed is Some {
            let players = claimed->Some_0;
            assert forall|i: int| 0 <= i < 10 implies {
                &&& before.contains_key((#[trigger] players@[i]).id)
                &&& before[players@[i].id] == players@[i]
                &&& players@[i].id == chosen@[i]
                &&& !pool@.contains_key(players@[i].id)
            } by {
                assert(before.contains_key(chosen@[i]));
                assert(players@[i] == before[chosen@[i]]);
                assert(chosen@.contains(chosen@[i]));
            }
            law_claim_conserves_players(before, chosen@, chosen@[0]);
        }
    }
    claimed
}

/// Turn ten claimed players into a match and count it.
pub fn settle_match(
    metrics: &mut Metrics,
    players: Vec<Player>,
    now: Nanos,
    appraisals: &Vec<Appraisal>,
) -> (r: Match)
    requires
        players@.len() == MATCH_SIZE,
        appraisals@.len() == all_splits().len(),
    ensures
        is_random_uuid(r.id),
        is_match_of(r, players@, now, appraisals@),
        *final(metrics) == old(metrics).with_match(r),
{
    let m = build_match(players, now, appraisals);
    metrics.record_match(&m);
    m
}

} // verus!
