//! In-memory player pool.
//!
//! * `players` is the **primary store**, a `DashMap` from id to player.
//! * `skill_index` orders the players by `(skill, id)`, for queries by skill.
//! * `wait_index` orders them by `(queued_at, id)`, so the longest-waiting
//!   player is its first key.
//!
//! The two indexes name exactly the players in the store, each under its
//! present skill and wait clock ([`PlayerPool::wf`]). Every operation keeps
//! that, so an index never points at a player who has left.

use crate::clock::{Clock, Nanos};
use crate::model::Player;
use crate::number::Real;
use dashmap::DashMap;
use std::collections::BTreeMap;
use vstd::prelude::*;

verus! {

broadcast use {vstd::laws_cmp::group_laws_cmp, vstd::std_specs::btree::group_btree_axioms};

/// An index entry: a place in an order, then the player's id.
pub type Key = (i64, u128);

/// `dashmap::DashMap`, seen only through [`stored`].
#[verifier::external_type_specification]
#[verifier::external_body]
#[verifier::reject_recursive_types(K)]
#[verifier::reject_recursive_types(V)]
#[verifier::reject_recursive_types(S)]
pub struct ExDashMap<K, V, S>(DashMap<K, V, S>);

/// What a map of players holds.
pub uninterp spec fn stored(m: DashMap<u128, Player>) -> Map<u128, Player>;

/// Calls `DashMap::new`: the new map holds nothing.
#[verifier::external_body]
fn map_new() -> (r: DashMap<u128, Player>)
    ensures
        stored(r).dom() == Set::<u128>::empty(),
{
    DashMap::new()
}

/// Calls `DashMap::insert`: the value takes the place of the one held under
/// the key, if any, which is returned. The map is borrowed exclusively, so no
/// other thread can step in between.
#[verifier::external_body]
fn map_insert(m: &mut DashMap<u128, Player>, id: u128, player: Player) -> (r: Option<Player>)
    ensures
        stored(*final(m)) == stored(*old(m)).insert(id, player),
        r == (if stored(*old(m)).contains_key(id) {
            Some(stored(*old(m))[id])
        } else {
            None
        }),
{
    m.insert(id, player)
}

/// Calls `DashMap::remove`: the key is gone afterwards, and what it held is
/// returned with it. The map is borrowed exclusively.
#[verifier::external_body]
fn map_remove(m: &mut DashMap<u128, Player>, id: &u128) -> (r: Option<(u128, Player)>)
    ensures
        stored(*final(m)) == stored(*old(m)).remove(*id),
        r == (if stored(*old(m)).contains_key(*id) {
            Some((*id, stored(*old(m))[*id]))
        } else {
            None
        }),
{
    m.remove(id)
}

/// Calls `DashMap::get` and clones what the returned guard points to: the
/// value held under the key, if any.
#[verifier::external_body]
fn map_get(m: &DashMap<u128, Player>, id: &u128) -> (r: Option<Player>)
    ensures
        r == (if stored(*m).contains_key(*id) {
            Some(stored(*m)[*id])
        } else {
            None
        }),
{
    m.get(id).map(|p| p.value().clone())
}

/// Calls `DashMap::len`: the number of keys held.
#[verifier::external_body]
fn map_len(m: &DashMap<u128, Player>) -> (r: usize)
    ensures
        r == stored(*m).len(),
{
    m.len()
}

/// The order of index entries: by place, then by id.
pub open spec fn key_before(a: Key, b: Key) -> bool {
    a.0 < b.0 || (a.0 == b.0 && a.1 < b.1)
}

/// Calls `BTreeMap::range` with a lower bound and takes its first entry: the
/// least key that is not before `from`.
#[verifier::external_body]
fn first_key_from(index: &BTreeMap<Key, ()>, from: Key) -> (r: Option<Key>)
    ensures
        match r {
            Some(k) => {
                &&& index@.contains_key(k)
                &&& !key_before(k, from)
                &&& forall|j: Key| #[trigger]
                    index@.contains_key(j) && !key_before(j, from) ==> !key_before(j, k)
            },
            None => forall|j: Key| #[trigger] index@.contains_key(j) ==> key_before(j, from),
        },
{
    index.range(from..).next().map(|(k, _)| *k)
}

/// Calls `BTreeMap::range` with an upper bound and takes its last entry: the
/// greatest key that is before `until`.
#[verifier::external_body]
fn last_key_before(index: &BTreeMap<Key, ()>, until: Key) -> (r: Option<Key>)
    ensures
        match r {
            Some(k) => {
                &&& index@.contains_key(k)
                &&& key_before(k, until)
                &&& forall|j: Key| #[trigger]
                    index@.contains_key(j) && key_before(j, until) ==> !key_before(k, j)
            },
            None => forall|j: Key| #[trigger] index@.contains_key(j) ==> !key_before(j, until),
        },
{
    index.range(..until).next_back().map(|(k, _)| *k)
}

/// The entry of a player in the skill index.
pub open spec fn skill_key(p: Player) -> Key {
    (p.skill.order() as i64, p.id)
}

/// The entry of a queued player in the wait index.
pub open spec fn wait_key(p: Player) -> Key {
    (p.queued_at.unwrap(), p.id)
}

/// `p` with its wait clock set to `t`.
pub open spec fn stamped(p: Player, t: Nanos) -> Player {
    Player { queued_at: Some(t), ..p }
}

/// `p` with its wait clock kept, or set to `t` if it was never set.
pub open spec fn restamped(p: Player, t: Nanos) -> Player {
    match p.queued_at {
        Some(_) => p,
        None => stamped(p, t),
    }
}

/// `k` lies between `from` and `to`, both included.
pub open spec fn in_span(k: Key, from: Key, to: Key) -> bool {
    !key_before(k, from) && !key_before(to, k)
}

/// `ids` are the first `cap` players, in ascending skill order, of those whose
/// skill entries lie between `from` and `to`; all of them if there are fewer.
pub open spec fn lists_up(
    pool: Map<u128, Player>,
    ids: Seq<u128>,
    from: Key,
    to: Key,
    cap: nat,
) -> bool {
    &&& ids.len() <= cap
    &&& forall|i: int|
        0 <= i < ids.len() ==> pool.contains_key(#[trigger] ids[i]) && in_span(
            skill_key(pool[ids[i]]),
            from,
            to,
        )
    &&& forall|i: int, j: int|
        0 <= i < j < ids.len() ==> key_before(
            skill_key(pool[#[trigger] ids[i]]),
            skill_key(pool[#[trigger] ids[j]]),
        )
    &&& forall|id: u128|
        #![trigger pool.contains_key(id)]
        #![trigger ids.contains(id)]
        pool.contains_key(id) && in_span(skill_key(pool[id]), from, to) && !ids.contains(id) ==> {
            &&& ids.len() == cap
            &&& forall|i: int|
                0 <= i < ids.len() ==> key_before(
                    skill_key(pool[#[trigger] ids[i]]),
                    skill_key(pool[id]),
                )
        }
}

/// The order of index entries going down: by falling place, then by rising id.
pub open spec fn down_before(a: Key, b: Key) -> bool {
    a.0 > b.0 || (a.0 == b.0 && a.1 < b.1)
}

/// `p` is the first player at or after `from` going up, other than `except`.
pub open spec fn is_next_up(pool: Map<u128, Player>, from: Key, except: u128, p: Player) -> bool {
    &&& pool.contains_key(p.id)
    &&& pool[p.id] == p
    &&& p.id != except
    &&& !key_before(skill_key(p), from)
    &&& forall|id: u128| #[trigger]
        pool.contains_key(id) && id != except && !key_before(skill_key(pool[id]), from)
            ==> !key_before(skill_key(pool[id]), skill_key(p))
}

/// `p` is the first player at or after `from` going down, other than `except`.
pub open spec fn is_next_down(
    pool: Map<u128, Player>,
    from: Key,
    except: u128,
    p: Player,
) -> bool {
    &&& pool.contains_key(p.id)
    &&& pool[p.id] == p
    &&& p.id != except
    &&& !down_before(skill_key(p), from)
    &&& forall|id: u128| #[trigger]
        pool.contains_key(id) && id != except && !down_before(skill_key(pool[id]), from)
            ==> !down_before(skill_key(pool[id]), skill_key(p))
}

pub struct PlayerPool {
    clock: Clock,
    players: DashMap<u128, Player>,
    skill_index: BTreeMap<Key, ()>,
    wait_index: BTreeMap<Key, ()>,
}

impl View for PlayerPool {
    type V = Map<u128, Player>;

    /// The queued players, by id.
    closed spec fn view(&self) -> Map<u128, Player> {
        stored(self.players)
    }
}

impl PlayerPool {
    /// The clock that the pool reads moments from.
    pub closed spec fn clock(&self) -> Clock {
        self.clock
    }

    /// Every player is stored under its own id with a wait clock, and the
    /// indexes name exactly the stored players.
    pub closed spec fn wf(&self) -> bool {
        &&& queued(self@)
        &&& forall|k: Key| #[trigger]
            self.skill_index@.contains_key(k) <==> (self@.contains_key(k.1) && k == skill_key(
                self@[k.1],
            ))
        &&& forall|k: Key| #[trigger]
            self.wait_index@.contains_key(k) <==> (self@.contains_key(k.1) && k == wait_key(
                self@[k.1],
            ))
    }

    /// An empty pool, whose clock starts now.
    pub fn new() -> (r: PlayerPool)
        ensures
            r.wf(),
            r@ == Map::<u128, Player>::empty(),
            r.clock().latest() == 0,
    {
        let r = PlayerPool {
            clock: Clock::start(),
            players: map_new(),
            skill_index: BTreeMap::new(),
            wait_index: BTreeMap::new(),
        };
        assert(r@ =~= Map::<u128, Player>::empty());
        r
    }

    /// The present moment on the pool's clock: never earlier than any moment
    /// read from it before.
    pub fn now(&mut self) -> (r: Nanos)
        requires
            old(self).wf(),
        ensures
            final(self).wf(),
            final(self)@ == old(self)@,
            r >= old(self).clock().latest(),
            final(self).clock().latest() == r,
            final(self).clock().started() == old(self).clock().started(),
            old(self).clock().read_once(final(self).clock()),
    {
        self.clock.now()
    }

    /// Insert a fresh player, stamping `queued_at` with the present moment,
    /// which is never earlier than any moment read from the clock before.
    pub fn insert(&mut self, player: Player)
        requires
            old(self).wf(),
        ensures
            final(self).wf(),
            final(self)@ == old(self)@.insert(
                player.id,
                stamped(player, final(self).clock().latest()),
            ),
            final(self).clock().latest() >= old(self).clock().latest(),
            final(self).clock().started() == old(self).clock().started(),
            old(self).clock().read_once(final(self).clock()),
    {
        let now: Nanos = self.now();
        self.insert_at(player, now);
    }

    /// Insert a fresh player, stamping `queued_at = now`.
    pub fn insert_at(&mut self, player: Player, now: Nanos)
        requires
            old(self).wf(),
        ensures
            final(self).wf(),
            final(self)@ == old(self)@.insert(player.id, stamped(player, now)),
            final(self).clock() == old(self).clock(),
    {
        let mut player = player;
        player.queued_at = Some(now);
        self.insert_with_time(player, now);
    }

    /// Re-insert a player that lost an eviction race, **preserving** its
    /// original `queued_at`, so that repeated races cannot reset its wait
    /// clock. Falls back to the present moment if it was never set.
    pub fn reinsert(&mut self, player: Player)
        requires
            old(self).wf(),
        ensures
            final(self).wf(),
            final(self)@ == old(self)@.insert(
                player.id,
                restamped(player, final(self).clock().latest()),
            ),
            player.queued_at is Some ==> final(self).clock() == old(self).clock(),
            player.queued_at is None ==> old(self).clock().read_once(final(self).clock()),
            final(self).clock().latest() >= old(self).clock().latest(),
            final(self).clock().started() == old(self).clock().started(),
    {
        let fallback: Nanos = match player.queued_at {
            Some(t) => t,
            None => self.now(),
        };
        self.reinsert_at(player, fallback);
    }

    /// Re-insert a player with its original `queued_at`, or `now` if unset.
    pub fn reinsert_at(&mut self, player: Player, now: Nanos)
        requires
            old(self).wf(),
        ensures
            final(self).wf(),
            final(self)@ == old(self)@.insert(player.id, restamped(player, now)),
            final(self).clock() == old(self).clock(),
    {
        let queued_at: Nanos = match player.queued_at {
            Some(t) => t,
            None => now,
        };
        let mut player = player;
        player.queued_at = Some(queued_at);
        self.insert_with_time(player, queued_at);
    }

    /// Indexes first, primary store last. A player queued a second time under
    /// the same id first gives up its earlier index entries.
    fn insert_with_time(&mut self, player: Player, queued_at: Nanos)
        requires
            old(self).wf(),
            player.queued_at == Some(queued_at),
        ensures
            final(self).wf(),
            final(self)@ == old(self)@.insert(player.id, player),
            final(self).clock() == old(self).clock(),
    {
        let id: u128 = player.id;
        let rank: i64 = player.skill.rank();
        if let Some(earlier) = map_get(&self.players, &id) {
            self.skill_index.remove(&(earlier.skill.rank(), id));
            if let Some(t) = earlier.queued_at {
                self.wait_index.remove(&(t, id));
            }
        }
        self.skill_index.insert((rank, id), ());
        self.wait_index.insert((queued_at, id), ());
        map_insert(&mut self.players, id, player);
    }

    /// Remove a player. Returns `None` if already evicted by a peer: of two
    /// callers after the same player, exactly one gets it.
    pub fn remove(&mut self, id: &u128) -> (r: Option<Player>)
        requires
            old(self).wf(),
        ensures
            final(self).wf(),
            final(self)@ == old(self)@.remove(*id),
            final(self).clock() == old(self).clock(),
            r == (if old(self)@.contains_key(*id) {
                Some(old(self)@[*id])
            } else {
                None
            }),
    {
        // Primary store first: this is the ownership-deciding step.
        match map_remove(&mut self.players, id) {
            None => {
                assert(self@ =~= old(self)@);
                None
            },
            Some((_, player)) => {
                self.skill_index.remove(&(player.skill.rank(), *id));
                if let Some(t) = player.queued_at {
                    self.wait_index.remove(&(t, *id));
                }
                Some(player)
            },
        }
    }

    /// Clone of the longest-waiting player, or `None` if the pool is empty.
    /// Of players queued at the same moment, the one with the least id.
    pub fn oldest(&self) -> (r: Option<Player>)
        requires
            self.wf(),
        ensures
            match r {
                Some(p) => is_oldest(self@, p),
                None => self@ == Map::<u128, Player>::empty(),
            },
            r matches Some(p) ==> {
                &&& self@.contains_key(p.id)
                &&& self@[p.id] == p
                &&& forall|id: u128| #[trigger]
                    self@.contains_key(id) ==> p.queued_at.unwrap() < self@[id].queued_at.unwrap()
                        || (p.queued_at.unwrap() == self@[id].queued_at.unwrap() && p.id <= id)
            },
    {
        // The front key: no key comes before this bound.
        match first_key_from(&self.wait_index, (i64::MIN, 0)) {
            None => {
                assert forall|id: u128| !self@.contains_key(id) by {
                    if self@.contains_key(id) {
                        assert(self.wait_index@.contains_key(wait_key(self@[id])));
                    }
                }
                assert(self@ =~= Map::<u128, Player>::empty());
                None
            },
            Some(k) => {
                assert forall|id: u128| #[trigger]
                    self@.contains_key(id) && id != k.1 implies key_before(
                    k,
                    wait_key(self@[id]),
                ) by {
                    assert(self.wait_index@.contains_key(wait_key(self@[id])));
                }
                map_get(&self.players, &k.1)
            },
        }
    }

    /// IDs of players whose skill falls in `[lo, hi]`, capped at `cap`.
    /// Sorted ascending by skill. Does **not** remove anything: the caller
    /// must [`PlayerPool::remove`] to take ownership.
    pub fn query_range(&self, lo: Real, hi: Real, cap: usize) -> (r: Vec<u128>)
        requires
            self.wf(),
            lo.order() <= hi.order(),
        ensures
            lists_up(
                self@,
                r@,
                (lo.order() as i64, 0),
                (hi.order() as i64, u128::MAX),
                cap as nat,
            ),
    {
        self.ascend((lo.rank(), 0), (hi.rank(), u128::MAX), cap)
    }

    /// The first player at or after `from` going up in skill order, other than
    /// `except`.
    pub fn next_up(&self, from: Key, except: u128) -> (r: Option<Player>)
        requires
            self.wf(),
        ensures
            match r {
                Some(p) => is_next_up(self@, from, except, p),
                None => forall|id: u128| #[trigger]
                    self@.contains_key(id) && id != except ==> key_before(
                        skill_key(self@[id]),
                        from,
                    ),
            },
    {
        let mut found: Option<Key> = first_key_from(&self.skill_index, from);
        if let Some(k) = found {
            if k.1 == except {
                let next: Key = if k.1 < u128::MAX {
                    (k.0, k.1 + 1)
                } else {
                    (k.0 + 1, 0)
                };
                found = first_key_from(&self.skill_index, next);
            }
        }
        assert forall|id: u128| #[trigger] self@.contains_key(id) implies
            self.skill_index@.contains_key(skill_key(self@[id])) by {}
        match found {
            Some(k) => map_get(&self.players, &k.1),
            None => None,
        }
    }

    /// The first player at or after `from` going down in skill order, other
    /// than `except`; of players with the same skill, the least id first.
    pub fn next_down(&self, from: Key, except: u128) -> (r: Option<Player>)
        requires
            self.wf(),
        ensures
            match r {
                Some(p) => is_next_down(self@, from, except, p),
                None => forall|id: u128| #[trigger]
                    self@.contains_key(id) && id != except ==> down_before(
                        skill_key(self@[id]),
                        from,
                    ),
            },
    {
        let mut found: Option<Key> = self.descend(from);
        if let Some(k) = found {
            if k.1 == except {
                let next: Key = if k.1 < u128::MAX {
                    (k.0, k.1 + 1)
                } else {
                    (k.0 - 1, 0)
                };
                found = self.descend(next);
            }
        }
        assert forall|id: u128| #[trigger] self@.contains_key(id) implies
            self.skill_index@.contains_key(skill_key(self@[id])) by {}
        match found {
            Some(k) => map_get(&self.players, &k.1),
            None => None,
        }
    }

    /// The first entry of the skill index at or after `from`, going down.
    fn descend(&self, from: Key) -> (r: Option<Key>)
        requires
            self.wf(),
        ensures
            match r {
                Some(k) => {
                    &&& self.skill_index@.contains_key(k)
                    &&& !down_before(k, from)
                    &&& forall|j: Key| #[trigger]
                        self.skill_index@.contains_key(j) && !down_before(j, from)
                            ==> !down_before(j, k)
                },
                None => forall|j: Key| #[trigger]
                    self.skill_index@.contains_key(j) ==> down_before(j, from),
            },
    {
        if let Some(k) = first_key_from(&self.skill_index, from) {
            if k.0 == from.0 {
                return Some(k);
            }
        }
        match last_key_before(&self.skill_index, (from.0, 0)) {
            Some(m) => first_key_from(&self.skill_index, (m.0, 0)),
            None => None,
        }
    }

    /// The first `cap` players whose skill entries lie between `from` and `to`.
    fn ascend(&self, from: Key, to: Key, cap: usize) -> (r: Vec<u128>)
        requires
            self.wf(),
        ensures
            lists_up(self@, r@, from, to, cap as nat),
    {
        let mut ids: Vec<u128> = Vec::new();
        let mut next: Key = from;
        while ids.len() < cap
            invariant
                self.wf(),
                ids@.len() <= cap,
                !key_before(next, from),
                forall|i: int|
                    0 <= i < ids@.len() ==> {
                        &&& self@.contains_key(#[trigger] ids@[i])
                        &&& in_span(skill_key(self@[ids@[i]]), from, to)
                        &&& key_before(skill_key(self@[ids@[i]]), next)
                    },
                forall|i: int, j: int|
                    0 <= i < j < ids@.len() ==> key_before(
                        skill_key(self@[#[trigger] ids@[i]]),
                        skill_key(self@[#[trigger] ids@[j]]),
                    ),
                forall|id: u128| #[trigger]
                    self@.contains_key(id) && in_span(skill_key(self@[id]), from, to)
                        && !ids@.contains(id) ==> !key_before(skill_key(self@[id]), next),
            decreases cap - ids.len(),
        {
            match first_key_from(&self.skill_index, next) {
                None => {
                    assert forall|id: u128| #[trigger] self@.contains_key(id) implies key_before(
                        skill_key(self@[id]),
                        next,
                    ) by {
                        assert(self.skill_index@.contains_key(skill_key(self@[id])));
                    }
                    return ids;
                },
                Some(k) => {
                    if to.0 < k.0 || (to.0 == k.0 && to.1 < k.1) {
                        assert forall|id: u128| #[trigger]
                            self@.contains_key(id) && !key_before(
                                skill_key(self@[id]),
                                next,
                            ) implies key_before(to, skill_key(self@[id])) by {
                            assert(self.skill_index@.contains_key(skill_key(self@[id])));
                        }
                        return ids;
                    }
                    let ghost before = ids@;
                    ids.push(k.1);
                    proof {
                        assert forall|id: u128| #[trigger]
                            self@.contains_key(id) && in_span(skill_key(self@[id]), from, to)
                                && !ids@.contains(id) implies key_before(
                            k,
                            skill_key(self@[id]),
                        ) by {
                            assert(self.skill_index@.contains_key(skill_key(self@[id])));
                            if before.contains(id) {
                                let i = before.index_of(id);
                                assert(ids@[i] == id);
                            }
                            if id == k.1 {
                                assert(ids@[before.len() as int] == id);
                            }
                        }
                    }
                    if k.1 == u128::MAX && k.0 == i64::MAX {
                        return ids;
                    }
                    next = if k.1 < u128::MAX {
                        (k.0, k.1 + 1)
                    } else {
                        (k.0 + 1, 0)
                    };
                },
            }
        }
        ids
    }

    /// Clone of a single player by id, if still present.
    pub fn get(&self, id: &u128) -> (r: Option<Player>)
        ensures
            r == (if self@.contains_key(*id) {
                Some(self@[*id])
            } else {
                None
            }),
    {
        map_get(&self.players, id)
    }

    /// Current number of queued players.
    pub fn len(&self) -> (r: usize)
        ensures
            r == self@.len(),
    {
        map_len(&self.players)
    }
}

/// Every player is filed under its own id and has a wait clock.
pub open spec fn queued(pool: Map<u128, Player>) -> bool {
    &&& pool.dom().finite()
    &&& forall|id: u128| #[trigger]
        pool.contains_key(id) ==> pool[id].id == id && pool[id].queued_at is Some
}

/// `p` is in the pool, and its wait entry comes before every other's.
pub open spec fn is_oldest(pool: Map<u128, Player>, p: Player) -> bool {
    &&& pool.contains_key(p.id)
    &&& p == pool[p.id]
    &&& forall|id: u128| #[trigger]
        pool.contains_key(id) && id != p.id ==> key_before(wait_key(p), wait_key(pool[id]))
}

/// In a pool that operations keep well-formed, every player is filed under its
/// own id and has a wait clock.
pub proof fn law_well_formed_is_queued(pool: PlayerPool)
    requires
        pool.wf(),
    ensures
        queued(pool@),
{
}

/// A player inserted at `t` is what a removal gives back, with its wait clock
/// set; the others are as before.
pub proof fn law_remove_gives_back_insert(pool: Map<u128, Player>, p: Player, t: Nanos)
    ensures
        ({
            let after = pool.insert(p.id, stamped(p, t));
            &&& after.contains_key(p.id)
            &&& after[p.id] == stamped(p, t)
            &&& after[p.id].queued_at == Some(t)
            &&& after.remove(p.id) == pool.remove(p.id)
        }),
{
    assert(pool.insert(p.id, stamped(p, t)).remove(p.id) =~= pool.remove(p.id));
}

/// Of two removals of the same player the second finds nothing, and removals of
/// different players do not disturb each other.
pub proof fn law_remove_wins_once(pool: Map<u128, Player>, a: u128, b: u128)
    ensures
        !pool.remove(a).contains_key(a),
        a != b ==> (pool.remove(a).contains_key(b) <==> pool.contains_key(b)),
        pool.remove(a).remove(b) == pool.remove(b).remove(a),
{
    assert(pool.remove(a).remove(b) =~= pool.remove(b).remove(a));
}

/// Putting a removed player back, at whatever moment, restores the pool: its
/// wait clock is not reset.
pub proof fn law_reinsert_undoes_remove(pool: Map<u128, Player>, id: u128, t: Nanos)
    requires
        queued(pool),
        pool.contains_key(id),
    ensures
        pool.remove(id).insert(id, restamped(pool[id], t)) == pool,
{
    assert(pool.remove(id).insert(id, restamped(pool[id], t)) =~= pool);
}

/// A re-inserted player waits on from its original moment.
pub proof fn law_reinsert_keeps_wait_clock(p: Player, t: Nanos, now: Nanos)
    requires
        p.queued_at is Some,
    ensures
        restamped(p, t).queued_at == p.queued_at,
        restamped(p, t).waited(now) == p.waited(now),
{
}

/// Nobody has waited longer than the oldest player.
pub proof fn law_oldest_waited_longest(pool: Map<u128, Player>, p: Player, now: Nanos)
    requires
        queued(pool),
        is_oldest(pool, p),
    ensures
        forall|id: u128| #[trigger]
            pool.contains_key(id) ==> pool[id].waited(now) <= p.waited(now),
{
}

/// Queueing a player changes nothing about it but its wait clock, which is set to
/// the given moment; re-queueing keeps a wait clock that is set.
pub proof fn law_queueing_keeps_the_player(p: Player, t: Nanos)
    ensures
        stamped(p, t).id == p.id,
        stamped(p, t).skill.bits == p.skill.bits,
        stamped(p, t).region@ == p.region@,
        stamped(p, t).queued_at == Some(t),
        restamped(p, t).id == p.id,
        restamped(p, t).skill.bits == p.skill.bits,
        restamped(p, t).region@ == p.region@,
        restamped(p, t).queued_at == (match p.queued_at {
            Some(first) => Some(first),
            None => Some(t),
        }),
{
}

/// The oldest player is in the pool as it was queued, nobody was queued before
/// it, and of those queued at the same moment it has the least id.
pub proof fn law_oldest_was_queued_first(pool: Map<u128, Player>, p: Player, id: u128)
    requires
        queued(pool),
        is_oldest(pool, p),
        pool.contains_key(id),
    ensures
        pool.contains_key(p.id),
        pool[p.id] == p,
        p.queued_at is Some,
        pool[id].queued_at is Some,
        p.queued_at.unwrap() <= pool[id].queued_at.unwrap(),
        p.queued_at.unwrap() == pool[id].queued_at.unwrap() ==> p.id <= id,
{
}

/// In a pool every player is filed under its own id and has a wait clock.
pub proof fn law_queued_players_are_filed(pool: Map<u128, Player>, id: u128)
    requires
        queued(pool),
        pool.contains_key(id),
    ensures
        pool[id].id == id,
        pool[id].queued_at is Some,
{
}

/// Going up from a skill and id, the next player is the one with the least skill
/// of those not behind, and of these the one with the least id.
pub proof fn law_next_up_is_least(
    pool: Map<u128, Player>,
    from: Key,
    except: u128,
    p: Player,
    id: u128,
)
    requires
        queued(pool),
        is_next_up(pool, from, except, p),
        pool.contains_key(id),
        id != except,
        from.0 < pool[id].skill.order() || (from.0 == pool[id].skill.order() && from.1 <= id),
    ensures
        pool.contains_key(p.id),
        pool[p.id] == p,
        p.id != except,
        from.0 < p.skill.order() || (from.0 == p.skill.order() && from.1 <= p.id),
        p.skill.order() < pool[id].skill.order() || (p.skill.order() == pool[id].skill.order()
            && p.id <= id),
{
}

/// Going down from a skill and id, the next player is the one with the greatest
/// skill of those not behind, and of these the one with the least id.
pub proof fn law_next_down_is_greatest(
    pool: Map<u128, Player>,
    from: Key,
    except: u128,
    p: Player,
    id: u128,
)
    requires
        queued(pool),
        is_next_down(pool, from, except, p),
        pool.contains_key(id),
        id != except,
        pool[id].skill.order() < from.0 || (from.0 == pool[id].skill.order() && from.1 <= id),
    ensures
        pool.contains_key(p.id),
        pool[p.id] == p,
        p.id != except,
        p.skill.order() < from.0 || (from.0 == p.skill.order() && from.1 <= p.id),
        p.skill.order() > pool[id].skill.order() || (p.skill.order() == pool[id].skill.order()
            && p.id <= id),
{
}

/// A range query takes from the bottom of the range: it lists players of the
/// range in ascending order of skill, then id, and whoever of the range it leaves
/// out stands after all of them, the cap being used up.
pub proof fn law_query_range_takes_the_lowest(
    pool: Map<u128, Player>,
    ids: Seq<u128>,
    lo: Real,
    hi: Real,
    cap: nat,
)
    requires
        queued(pool),
        lists_up(pool, ids, (lo.order() as i64, 0), (hi.order() as i64, u128::MAX), cap),
    ensures
        ids.len() <= cap,
        forall|i: int, j: int|
            0 <= i < j < ids.len() ==> {
                let (a, b) = (#[trigger] ids[i], #[trigger] ids[j]);
                pool[a].skill.order() < pool[b].skill.order() || (pool[a].skill.order()
                    == pool[b].skill.order() && a < b)
            },
        forall|id: u128, i: int|
            #![trigger pool.contains_key(id), ids[i]]
            pool.contains_key(id) && lo.order() <= pool[id].skill.order() <= hi.order()
                && !ids.contains(id) && 0 <= i < ids.len() ==> pool[ids[i]].skill.order()
                < pool[id].skill.order() || (pool[ids[i]].skill.order() == pool[id].skill.order()
                && ids[i] < id),
        forall|id: u128| #[trigger]
            pool.contains_key(id) && lo.order() <= pool[id].skill.order() <= hi.order()
                && !ids.contains(id) ==> ids.len() == cap,
{
    assert forall|i: int, j: int| 0 <= i < j < ids.len() implies {
        let (a, b) = (#[trigger] ids[i], #[trigger] ids[j]);
        pool[a].skill.order() < pool[b].skill.order() || (pool[a].skill.order()
            == pool[b].skill.order() && a < b)
    } by {
        assert(pool.contains_key(ids[i]) && pool.contains_key(ids[j]));
        assert(key_before(skill_key(pool[ids[i]]), skill_key(pool[ids[j]])));
    }
    assert forall|id: u128, i: int|
        #![trigger pool.contains_key(id), ids[i]]
        pool.contains_key(id) && lo.order() <= pool[id].skill.order() <= hi.order()
            && !ids.contains(id) && 0 <= i < ids.len() implies pool[ids[i]].skill.order()
        < pool[id].skill.order() || (pool[ids[i]].skill.order() == pool[id].skill.order()
        && ids[i] < id) by {
        assert(pool.contains_key(ids[i]));
        assert(key_before(skill_key(pool[ids[i]]), skill_key(pool[id])));
    }
}

/// First come, first served: a player queued at a later moment does not take the
/// place of the oldest one.
pub proof fn law_oldest_stays_oldest(
    pool: Map<u128, Player>,
    p: Player,
    newcomer: Player,
    t: Nanos,
)
    requires
        queued(pool),
        is_oldest(pool, p),
        newcomer.id != p.id,
        p.queued_at.unwrap() < t,
    ensures
        is_oldest(pool.insert(newcomer.id, stamped(newcomer, t)), p),
{
}

/// A range query lists only players whose skill is in the range, in ascending
/// order of skill and each once; if it lists fewer than the cap, it lists them
/// all.
pub proof fn law_query_range_is_by_skill(
    pool: Map<u128, Player>,
    ids: Seq<u128>,
    lo: Real,
    hi: Real,
    cap: nat,
)
    requires
        queued(pool),
        lists_up(pool, ids, (lo.order() as i64, 0), (hi.order() as i64, u128::MAX), cap),
    ensures
        ids.no_duplicates(),
        forall|i: int|
            0 <= i < ids.len() ==> pool.contains_key(#[trigger] ids[i]) && lo.order()
                <= pool[ids[i]].skill.order() <= hi.order(),
        forall|i: int, j: int|
            0 <= i < j < ids.len() ==> (#[trigger] pool[ids[i]]).skill.order() <= (
            #[trigger] pool[ids[j]]).skill.order(),
        ids.len() < cap ==> forall|id: u128| #[trigger]
            ids.contains(id) <==> pool.contains_key(id) && lo.order() <= pool[id].skill.order()
                <= hi.order(),
{
    lemma_lists_up_distinct(
        pool,
        ids,
        (lo.order() as i64, 0),
        (hi.order() as i64, u128::MAX),
        cap,
    );
    assert forall|i: int, j: int| 0 <= i < j < ids.len() implies (
    #[trigger] pool[ids[i]]).skill.order() <= (#[trigger] pool[ids[j]]).skill.order() by {
        assert(key_before(skill_key(pool[ids[i]]), skill_key(pool[ids[j]])));
    }
}

/// Players listed in strict skill order are distinct.
pub proof fn lemma_lists_up_distinct(
    pool: Map<u128, Player>,
    ids: Seq<u128>,
    from: Key,
    to: Key,
    cap: nat,
)
    requires
        lists_up(pool, ids, from, to, cap),
    ensures
        ids.no_duplicates(),
{
    assert forall|i: int, j: int| 0 <= i < j < ids.len() implies ids[i] != ids[j] by {
        assert(key_before(skill_key(pool[ids[i]]), skill_key(pool[ids[j]])));
    }
}

/// Only one list meets [`lists_up`], so it says exactly what a query returns.
pub proof fn law_range_listing_is_unique(
    pool: Map<u128, Player>,
    a: Seq<u128>,
    b: Seq<u128>,
    from: Key,
    to: Key,
    cap: nat,
)
    requires
        queued(pool),
        lists_up(pool, a, from, to, cap),
        lists_up(pool, b, from, to, cap),
    ensures
        a == b,
{
    lemma_lists_up_agree(pool, a, b, from, to, cap, a.len() as int);
    if a.len() < b.len() {
        let x = b[a.len() as int];
        if a.contains(x) {
            let i = a.index_of(x);
            assert(b[i] == x);
            assert(key_before(skill_key(pool[b[i]]), skill_key(pool[x])));
        }
    }
    if b.len() < a.len() {
        let x = a[b.len() as int];
        if b.contains(x) {
            let i = b.index_of(x);
            assert(a[i] == x);
            assert(key_before(skill_key(pool[a[i]]), skill_key(pool[x])));
        }
    }
    assert(a =~= b);
}

/// Two such lists agree as far as both go.
proof fn lemma_lists_up_agree(
    pool: Map<u128, Player>,
    a: Seq<u128>,
    b: Seq<u128>,
    from: Key,
    to: Key,
    cap: nat,
    n: int,
)
    requires
        queued(pool),
        lists_up(pool, a, from, to, cap),
        lists_up(pool, b, from, to, cap),
    ensures
        forall|i: int| 0 <= i < n && i < a.len() && i < b.len() ==> a[i] == #[trigger] b[i],
    decreases n,
{
    if n > 0 {
        lemma_lists_up_agree(pool, a, b, from, to, cap, n - 1);
        let i = n - 1;
        if i < a.len() && i < b.len() && a[i] != b[i] {
            let (x, y) = (a[i], b[i]);
            // Whichever comes first is missing from the other list.
            if key_before(skill_key(pool[x]), skill_key(pool[y])) {
                if b.contains(x) {
                    let k = b.index_of(x);
                    if k < i {
                        assert(a[k] == b[k]);
                        assert(key_before(skill_key(pool[a[k]]), skill_key(pool[a[i]])));
                    } else {
                        assert(key_before(skill_key(pool[b[i]]), skill_key(pool[b[k]])));
                    }
                }
            } else {
                if a.contains(y) {
                    let k = a.index_of(y);
                    if k < i {
                        assert(a[k] == b[k]);
                        assert(key_before(skill_key(pool[b[k]]), skill_key(pool[b[i]])));
                    } else {
                        assert(key_before(skill_key(pool[a[i]]), skill_key(pool[a[k]])));
                    }
                }
            }
        }
    }
}

} // verus!
