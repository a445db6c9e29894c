//! What matching attempts guarantee.

use crate::config::Config;
use crate::matcher::{
    all_queued, are_in_window, are_nearby, ascending, entries, entry_order, first, found_in,
    gathered_in_window, gathered_nearby, grows_away, ids_in, ids_of, in_group, is_local,
    lemma_ranked_positions, local_picks, measured, nearer, nearness, ranked,
    selection, starving, Candidate,
};
use crate::model::{Player, MATCH_SIZE};
use crate::number::{law_comparison_of_any, law_order_is_by_value, Real, INFINITY_BITS};
use crate::pool::{in_span, key_before, lemma_lists_up_distinct, lists_up, queued, skill_key};
use vstd::prelude::*;

verus! {

/// The players of the candidates.
pub open spec fn players_of(cs: Seq<Candidate>) -> Seq<Player> {
    cs.map_values(|c: Candidate| c.player)
}

/// The local candidates and the others are all of them.
proof fn lemma_groups_cover(cs: Seq<Candidate>, anchor: Player, region_ignored: bool)
    ensures
        ranked(cs, anchor, region_ignored, true).len() + ranked(
            cs,
            anchor,
            region_ignored,
            false,
        ).len() == cs.len(),
{
    broadcast use vstd::seq_lib::group_to_multiset_ensures;

    let all = entries(cs);
    let local = in_group(cs, anchor, region_ignored, true);
    let rest = in_group(cs, anchor, region_ignored, false);
    lemma_filter_splits(all, local, rest);
    crate::matcher::lemma_entry_order_total();
    all.filter(local).lemma_sort_by_ensures(entry_order());
    all.filter(rest).lemma_sort_by_ensures(entry_order());
    assert(ranked(cs, anchor, region_ignored, true).to_multiset().len() == all.filter(local).len());
    assert(ranked(cs, anchor, region_ignored, false).to_multiset().len() == all.filter(rest).len());
}

/// A predicate and its opposite keep all elements between them.
proof fn lemma_filter_splits<T>(s: Seq<T>, p: spec_fn(T) -> bool, q: spec_fn(T) -> bool)
    requires
        forall|x: T| #[trigger] p(x) == !q(x),
    ensures
        s.filter(p).len() + s.filter(q).len() == s.len(),
    decreases s.len(),
{
    reveal(Seq::filter);
    if s.len() > 0 {
        lemma_filter_splits(s.drop_last(), p, q);
        assert(p(s.last()) == !q(s.last()));
    }
}

/// How many picks come from the local candidates.
spec fn local_count(anchor: Player, cs: Seq<Candidate>, region_ignored: bool) -> int {
    let local = ranked(cs, anchor, region_ignored, true);
    if local.len() < MATCH_SIZE {
        local.len() as int
    } else {
        MATCH_SIZE as int
    }
}

/// The picks in detail: the first places of the ranking of the local candidates,
/// save that the last may have gone to the anchor; then the first places of the
/// ranking of the others.
proof fn lemma_selection(cfg: Config, anchor: Player, wait_secs: Real, cs: Seq<Candidate>)
    ensures
        ({
            let region_ignored = starving(cfg, wait_secs);
            let local = ranked(cs, anchor, region_ignored, true);
            let rest = ranked(cs, anchor, region_ignored, false);
            let n = local_count(anchor, cs, region_ignored);
            let picks = selection(cfg, anchor, wait_secs, cs);
            &&& n <= picks.len() <= MATCH_SIZE
            &&& picks.len() - n <= rest.len()
            &&& picks.len() == (if cs.len() < MATCH_SIZE {
                cs.len()
            } else {
                MATCH_SIZE as nat
            })
            &&& forall|k: int|
                0 <= k < n && !(n == MATCH_SIZE && k == n - 1 && picks[k] == anchor.id)
                    ==> #[trigger] picks[k] == cs[local[k].1 as int].player.id
            &&& forall|k: int|
                n <= k < picks.len() ==> #[trigger] picks[k] == cs[rest[k - n].1 as int].player.id
            &&& ids_of(cs, local).contains(anchor.id) ==> picks.contains(anchor.id)
            &&& picks.len() > n ==> n == local.len()
            &&& n == MATCH_SIZE && picks[n - 1] == anchor.id && cs[local[n
                - 1].1 as int].player.id != anchor.id ==> ids_of(cs, local).contains(anchor.id)
                && forall|k: int| 0 <= k < n - 1 ==> #[trigger] picks[k] != anchor.id
        }),
{
    let region_ignored = starving(cfg, wait_secs);
    let local = ranked(cs, anchor, region_ignored, true);
    let rest = ranked(cs, anchor, region_ignored, false);
    let n = local_count(anchor, cs, region_ignored);
    let picks = selection(cfg, anchor, wait_secs, cs);
    let top = ids_of(cs, first(local, MATCH_SIZE as int));
    let mine = local_picks(anchor, cs, local);
    lemma_groups_cover(cs, anchor, region_ignored);
    assert(top.len() == n);
    assert forall|k: int| 0 <= k < n implies #[trigger] top[k] == cs[local[k].1 as int].player.id by {}
    if n == local.len() {
        assert(top =~= ids_of(cs, local));
    }
    assert(mine.len() == n);
    assert forall|k: int| 0 <= k < n implies picks[k] == #[trigger] mine[k] by {}
    if ids_of(cs, local).contains(anchor.id) {
        if top.contains(anchor.id) {
            let k = top.index_of(anchor.id);
            assert(picks[k] == mine[k]);
        } else {
            assert(mine[n - 1] == anchor.id);
            assert(picks[n - 1] == anchor.id);
            assert forall|k: int| 0 <= k < n - 1 implies #[trigger] picks[k] != anchor.id by {
                assert(picks[k] == mine[k]);
                assert(mine[k] == top[k]);
                assert(top.contains(top[k]));
            }
        }
    }
    if n == MATCH_SIZE && picks[n - 1] == anchor.id && cs[local[n - 1].1 as int].player.id
        != anchor.id {
        assert(mine[n - 1] != top[n - 1]);
    }
}

/// An attempt picks ten players whenever there are ten candidates; with fewer
/// it picks them all.
pub proof fn law_ten_candidates_suffice(
    cfg: Config,
    anchor: Player,
    wait_secs: Real,
    cs: Seq<Candidate>,
)
    ensures
        selection(cfg, anchor, wait_secs, cs).len() == if cs.len() < MATCH_SIZE {
            cs.len()
        } else {
            MATCH_SIZE as nat
        },
{
    lemma_selection(cfg, anchor, wait_secs, cs);
}

/// Every pick is a candidate.
pub proof fn law_picks_are_candidates(
    cfg: Config,
    anchor: Player,
    wait_secs: Real,
    cs: Seq<Candidate>,
    k: int,
)
    requires
        cs.len() <= usize::MAX,
        0 <= k < selection(cfg, anchor, wait_secs, cs).len(),
    ensures
        exists|i: int|
            0 <= i < cs.len() && (#[trigger] cs[i]).player.id == selection(
                cfg,
                anchor,
                wait_secs,
                cs,
            )[k],
{
    let region_ignored = starving(cfg, wait_secs);
    let local = ranked(cs, anchor, region_ignored, true);
    let rest = ranked(cs, anchor, region_ignored, false);
    let n = local_count(anchor, cs, region_ignored);
    let picks = selection(cfg, anchor, wait_secs, cs);
    lemma_selection(cfg, anchor, wait_secs, cs);
    lemma_ranked_positions(cs, anchor, region_ignored, true);
    lemma_ranked_positions(cs, anchor, region_ignored, false);
    if k >= n {
        assert(cs[rest[k - n].1 as int].player.id == picks[k]);
    } else if cs[local[k].1 as int].player.id == picks[k] {
    } else {
        let j = ids_of(cs, local).index_of(anchor.id);
        assert(cs[local[j].1 as int].player.id == picks[k]);
    }
}

/// A match is anchored: if the anchor is among the candidates, it is picked.
pub proof fn law_anchor_is_picked(
    cfg: Config,
    anchor: Player,
    wait_secs: Real,
    cs: Seq<Candidate>,
    i: int,
)
    requires
        cs.len() <= usize::MAX,
        0 <= i < cs.len(),
        cs[i].player.id == anchor.id,
    ensures
        selection(cfg, anchor, wait_secs, cs).contains(anchor.id),
{
    let region_ignored = starving(cfg, wait_secs);
    let local = ranked(cs, anchor, region_ignored, true);
    lemma_selection(cfg, anchor, wait_secs, cs);
    lemma_ranked_positions(cs, anchor, region_ignored, true);
    assert(is_local(cs[i], anchor, region_ignored));
    let e = (nearness(cs[i]), i as usize);
    assert(local.contains(e));
    let k = local.index_of(e);
    assert(ids_of(cs, local)[k] == anchor.id);
}

/// The place in the rankings that the `k`-th pick comes from, if it is not the
/// anchor in the last place.
spec fn pick_entry(
    cfg: Config,
    anchor: Player,
    wait_secs: Real,
    cs: Seq<Candidate>,
    k: int,
) -> (i64, usize) {
    let region_ignored = starving(cfg, wait_secs);
    let n = local_count(anchor, cs, region_ignored);
    if k < n {
        ranked(cs, anchor, region_ignored, true)[k]
    } else {
        ranked(cs, anchor, region_ignored, false)[k - n]
    }
}

/// Candidates who are different players are picked at most once each.
pub proof fn law_picks_are_distinct(
    cfg: Config,
    anchor: Player,
    wait_secs: Real,
    cs: Seq<Candidate>,
)
    requires
        cs.len() <= usize::MAX,
        ids_in(players_of(cs)).no_duplicates(),
    ensures
        selection(cfg, anchor, wait_secs, cs).no_duplicates(),
{
    let region_ignored = starving(cfg, wait_secs);
    let local = ranked(cs, anchor, region_ignored, true);
    let rest = ranked(cs, anchor, region_ignored, false);
    let n = local_count(anchor, cs, region_ignored);
    lemma_selection(cfg, anchor, wait_secs, cs);
    lemma_ranked_positions(cs, anchor, region_ignored, true);
    lemma_ranked_positions(cs, anchor, region_ignored, false);
    let picks = selection(cfg, anchor, wait_secs, cs);
    let ids = ids_in(players_of(cs));
    assert forall|a: int, b: int| 0 <= a < b < picks.len() implies picks[a] != picks[b] by {
        if n == MATCH_SIZE && cs[local[n - 1].1 as int].player.id != picks[n - 1] && b == n - 1 {
            assert(picks[n - 1] == anchor.id);
            assert(picks[a] != anchor.id);
        } else {
            let x = pick_entry(cfg, anchor, wait_secs, cs, a);
            let y = pick_entry(cfg, anchor, wait_secs, cs, b);
            assert(picks[a] == cs[x.1 as int].player.id);
            assert(picks[b] == cs[y.1 as int].player.id);
            assert(x.1 != y.1) by {
                if b < n {
                    assert(local[a] != local[b]);
                } else if a >= n {
                    assert(rest[a - n] != rest[b - n]);
                }
            }
            assert(ids[x.1 as int] == picks[a]);
            assert(ids[y.1 as int] == picks[b]);
        }
    }
}

/// Where candidate `i` was passed over and candidate `j`, not the anchor, was
/// picked, both of the same group, `j` comes before `i`: it is nearer to the
/// anchor, or as near and listed earlier.
pub proof fn law_nearest_are_picked(
    cfg: Config,
    anchor: Player,
    wait_secs: Real,
    cs: Seq<Candidate>,
    i: int,
    j: int,
)
    requires
        cs.len() <= usize::MAX,
        ids_in(players_of(cs)).no_duplicates(),
        0 <= i < cs.len(),
        0 <= j < cs.len(),
        cs[j].player.id != anchor.id,
        is_local(cs[i], anchor, starving(cfg, wait_secs)) == is_local(
            cs[j],
            anchor,
            starving(cfg, wait_secs),
        ),
        !selection(cfg, anchor, wait_secs, cs).contains(cs[i].player.id),
        selection(cfg, anchor, wait_secs, cs).contains(cs[j].player.id),
    ensures
        nearness(cs[j]) < nearness(cs[i]) || (nearness(cs[j]) == nearness(cs[i]) && j < i),
{
    let region_ignored = starving(cfg, wait_secs);
    let group = is_local(cs[i], anchor, region_ignored);
    let ranking = ranked(cs, anchor, region_ignored, group);
    let n = local_count(anchor, cs, region_ignored);
    lemma_selection(cfg, anchor, wait_secs, cs);
    lemma_ranked_positions(cs, anchor, region_ignored, true);
    lemma_ranked_positions(cs, anchor, region_ignored, false);
    let picks = selection(cfg, anchor, wait_secs, cs);
    let k = picks.index_of(cs[j].player.id);
    let e = pick_entry(cfg, anchor, wait_secs, cs, k);
    let ids = ids_in(players_of(cs));
    assert(picks[k] == cs[e.1 as int].player.id);
    assert(ids[e.1 as int] == ids[j]);
    assert(e.1 == j);
    let x = (nearness(cs[i]), i as usize);
    assert(ranking.contains(x));
    let b = ranking.index_of(x);
    // `j` stands at place `a` of the ranking, and every earlier place is picked.
    let a = if group {
        k
    } else {
        k - n
    };
    assert(ranking[a] == e);
    if b < a {
        let kb = if group {
            b
        } else {
            n + b
        };
        assert(picks[kb] == cs[x.1 as int].player.id);
        assert(picks.contains(cs[i].player.id));
    } else if a < b {
        assert(entry_order()(ranking[a], ranking[b]));
    }
}

/// The anchor's region comes first: players from elsewhere fill a match only
/// after every local candidate has been picked.
pub proof fn law_own_region_first(
    cfg: Config,
    anchor: Player,
    wait_secs: Real,
    cs: Seq<Candidate>,
    i: int,
    j: int,
)
    requires
        cs.len() <= usize::MAX,
        ids_in(players_of(cs)).no_duplicates(),
        0 <= i < cs.len(),
        0 <= j < cs.len(),
        is_local(cs[i], anchor, starving(cfg, wait_secs)),
        !is_local(cs[j], anchor, starving(cfg, wait_secs)),
        selection(cfg, anchor, wait_secs, cs).contains(cs[j].player.id),
    ensures
        selection(cfg, anchor, wait_secs, cs).contains(cs[i].player.id),
{
    let region_ignored = starving(cfg, wait_secs);
    let local = ranked(cs, anchor, region_ignored, true);
    let n = local_count(anchor, cs, region_ignored);
    lemma_selection(cfg, anchor, wait_secs, cs);
    lemma_ranked_positions(cs, anchor, region_ignored, true);
    lemma_ranked_positions(cs, anchor, region_ignored, false);
    let picks = selection(cfg, anchor, wait_secs, cs);
    let k = picks.index_of(cs[j].player.id);
    let e = pick_entry(cfg, anchor, wait_secs, cs, k);
    let ids = ids_in(players_of(cs));
    assert(cs[j].player.id != anchor.id);
    assert(picks[k] == cs[e.1 as int].player.id);
    assert(ids[e.1 as int] == ids[j]);
    assert(e.1 == j);
    assert(k >= n);
    let x = (nearness(cs[i]), i as usize);
    assert(local.contains(x));
    let b = local.index_of(x);
    if picks[b] != cs[i].player.id {
        assert(picks[b] == anchor.id);
    }
}

/// Candidates looked up in ascending skill order are distinct players, as the
/// pool has them.
proof fn lemma_measured(
    pool: Map<u128, Player>,
    dist: spec_fn(Player) -> Real,
    ids: Seq<u128>,
    cs: Seq<Candidate>,
)
    requires
        queued(pool),
        ascending(pool, ids),
        cs == measured(pool, dist, ids),
    ensures
        cs.len() == ids.len(),
        ids.no_duplicates(),
        ids_in(players_of(cs)) == ids,
        forall|i: int|
            0 <= i < cs.len() ==> {
                &&& (#[trigger] cs[i]).player.id == ids[i]
                &&& pool.contains_key(ids[i])
                &&& cs[i].player == pool[ids[i]]
                &&& cs[i].distance == dist(cs[i].player)
            },
{
    assert forall|i: int, j: int| 0 <= i < j < ids.len() implies ids[i] != ids[j] by {
        assert(key_before(skill_key(pool[ids[i]]), skill_key(pool[ids[j]])));
    }
    assert forall|i: int| 0 <= i < cs.len() implies {
        &&& (#[trigger] cs[i]).player.id == ids[i]
        &&& pool.contains_key(ids[i])
        &&& cs[i].player == pool[ids[i]]
        &&& cs[i].distance == dist(cs[i].player)
    } by {
        assert(pool.contains_key(ids[i]));
    }
    assert(ids_in(players_of(cs)) =~= ids);
}

/// Whom an attempt picks out of candidates looked up in the pool: distinct
/// players of the list, ten if the list has ten, and the anchor if it has that.
proof fn lemma_picks_of_measured(
    pool: Map<u128, Player>,
    cfg: Config,
    anchor: Player,
    wait_secs: Real,
    dist: spec_fn(Player) -> Real,
    ids: Seq<u128>,
    cs: Seq<Candidate>,
)
    requires
        queued(pool),
        ascending(pool, ids),
        cs == measured(pool, dist, ids),
        cs.len() <= usize::MAX,
    ensures
        all_queued(pool, selection(cfg, anchor, wait_secs, cs)),
        selection(cfg, anchor, wait_secs, cs).len() == MATCH_SIZE <==> ids.len() >= MATCH_SIZE,
        forall|id: u128| #[trigger]
            selection(cfg, anchor, wait_secs, cs).contains(id) ==> ids.contains(id),
        ids.contains(anchor.id) ==> selection(cfg, anchor, wait_secs, cs).contains(anchor.id),
{
    lemma_measured(pool, dist, ids, cs);
    let picks = selection(cfg, anchor, wait_secs, cs);
    law_ten_candidates_suffice(cfg, anchor, wait_secs, cs);
    law_picks_are_distinct(cfg, anchor, wait_secs, cs);
    if ids.contains(anchor.id) {
        let i = ids.index_of(anchor.id);
        assert(cs[i].player.id == anchor.id);
        law_anchor_is_picked(cfg, anchor, wait_secs, cs, i);
    }
    assert forall|k: int| 0 <= k < picks.len() implies pool.contains_key(#[trigger] picks[k])
        && ids.contains(picks[k]) by {
        law_picks_are_candidates(cfg, anchor, wait_secs, cs, k);
        let i = choose|i: int| 0 <= i < cs.len() && (#[trigger] cs[i]).player.id == picks[k];
        assert(ids[i] == picks[k]);
    }
    assert forall|id: u128| #[trigger] picks.contains(id) implies ids.contains(id) by {
        let k = picks.index_of(id);
        assert(ids.contains(picks[k]));
    }
}

/// The queued players whose skill lies in the window `[lo, hi]`.
pub open spec fn in_window(pool: Map<u128, Player>, lo: Real, hi: Real) -> Set<u128> {
    pool.dom().filter(|id: u128| lo.order() <= pool[id].skill.order() <= hi.order())
}

/// The players of a window scan: in ascending order, in the window, no more than
/// the cap, all of the window if the cap allows it, and the anchor among them.
proof fn lemma_window_ids(
    pool: Map<u128, Player>,
    anchor: u128,
    lo: Real,
    hi: Real,
    cap: nat,
    ids: Seq<u128>,
)
    requires
        queued(pool),
        are_in_window(pool, anchor, lo, hi, cap, ids),
    ensures
        ascending(pool, ids),
        ids.len() <= cap,
        forall|i: int| 0 <= i < ids.len() ==> in_window(pool, lo, hi).contains(#[trigger] ids[i]),
        in_window(pool, lo, hi).len() <= cap ==> ids.len() == in_window(pool, lo, hi).len(),
        in_window(pool, lo, hi).len() > cap ==> ids.len() == cap,
        in_window(pool, lo, hi).contains(anchor) && cap > 0 ==> ids.contains(anchor),
{
    let from = (lo.order() as i64, 0u128);
    let to = (hi.order() as i64, u128::MAX);
    let window = in_window(pool, lo, hi);
    let listed = choose|listed: Seq<u128>|
        {
            &&& #[trigger] lists_up(
                pool,
                listed,
                (lo.order() as i64, 0),
                (hi.order() as i64, u128::MAX),
                cap,
            )
            &&& ids == crate::matcher::with_anchor(
                pool,
                anchor,
                listed,
                (lo.order() as i64, 0),
                (hi.order() as i64, u128::MAX),
            )
        };
    assert(lists_up(pool, listed, from, to, cap));
    lemma_lists_up_distinct(pool, listed, from, to, cap);
    assert forall|id: u128| #[trigger] window.contains(id) <==> pool.contains_key(id) && in_span(
        skill_key(pool[id]),
        from,
        to,
    ) by {}
    assert forall|i: int| 0 <= i < listed.len() implies window.contains(#[trigger] listed[i]) by {
        assert(pool.contains_key(listed[i]));
    }
    listed.unique_seq_to_set();
    assert(listed.to_set().subset_of(window));
    vstd::set_lib::lemma_len_subset(listed.to_set(), window);
    if listed.len() < window.len() {
        assert(exists|id: u128| window.contains(id) && !listed.contains(id)) by {
            if forall|id: u128| window.contains(id) ==> listed.contains(id) {
                assert(window =~= listed.to_set());
            }
        }
        let id = choose|id: u128| window.contains(id) && !listed.contains(id);
        assert(pool.contains_key(id));
    }
    if window.contains(anchor) && !listed.contains(anchor) && cap > 0 {
        assert(pool.contains_key(anchor));
        assert(listed.len() == cap);
        assert(ids[listed.len() - 1] == anchor);
    }
    if ids != listed {
        let n = listed.len() - 1;
        assert(ids[n] == anchor);
        assert forall|i: int| 0 <= i < ids.len() implies window.contains(#[trigger] ids[i]) by {
            if i < n {
                assert(ids[i] == listed[i]);
            }
        }
        assert forall|i: int, j: int| 0 <= i < j < ids.len() implies key_before(
            skill_key(pool[#[trigger] ids[i]]),
            skill_key(pool[#[trigger] ids[j]]),
        ) by {
            assert(ids[i] == listed[i]);
            if j < n {
                assert(ids[j] == listed[j]);
            }
        }
    }
}

/// Whoever an attempt in the skill window picks has a skill within the window.
pub proof fn law_window_bounds_picks(
    pool: Map<u128, Player>,
    cfg: Config,
    anchor: Player,
    wait_secs: Real,
    dist: spec_fn(Player) -> Real,
    lo: Real,
    hi: Real,
    cs: Seq<Candidate>,
    id: u128,
)
    requires
        queued(pool),
        gathered_in_window(pool, anchor, dist, lo, hi, cfg.candidate_cap as nat, cs),
        selection(cfg, anchor, wait_secs, cs).contains(id),
    ensures
        pool.contains_key(id),
        lo.order() <= pool[id].skill.order() <= hi.order(),
{
    let cap = cfg.candidate_cap as nat;
    let ids = choose|ids: Seq<u128>|
        {
            &&& #[trigger] are_in_window(pool, anchor.id, lo, hi, cap, ids)
            &&& cs == measured(pool, dist, ids)
        };
    lemma_window_ids(pool, anchor.id, lo, hi, cap, ids);
    lemma_picks_of_measured(pool, cfg, anchor, wait_secs, dist, ids, cs);
    let i = ids.index_of(id);
    assert(in_window(pool, lo, hi).contains(ids[i]));
}

/// No scan yields more candidates than the cap.
pub proof fn law_scan_is_capped(
    pool: Map<u128, Player>,
    anchor: Player,
    dist: spec_fn(Player) -> Real,
    lo: Real,
    hi: Real,
    cap: nat,
    cs: Seq<Candidate>,
)
    requires
        queued(pool),
    ensures
        gathered_in_window(pool, anchor, dist, lo, hi, cap, cs) ==> cs.len() <= cap,
        gathered_nearby(pool, anchor, dist, cap, cs) ==> cs.len() <= cap,
{
    if gathered_in_window(pool, anchor, dist, lo, hi, cap, cs) {
        let ids = choose|ids: Seq<u128>|
            {
                &&& #[trigger] are_in_window(pool, anchor.id, lo, hi, cap, ids)
                &&& cs == measured(pool, dist, ids)
            };
        lemma_window_ids(pool, anchor.id, lo, hi, cap, ids);
    }
}

/// A match forms in the skill window just when at least ten queued players lie
/// in it, whichever regions they are from: then ten distinct players of the pool
/// are picked, the anchor among them if it lies in the window. This is of a cap
/// that allows a match at all.
pub proof fn law_window_forms_match(
    pool: Map<u128, Player>,
    cfg: Config,
    anchor: Player,
    wait_secs: Real,
    dist: spec_fn(Player) -> Real,
    lo: Real,
    hi: Real,
    cs: Seq<Candidate>,
)
    requires
        queued(pool),
        cfg.candidate_cap >= MATCH_SIZE,
        gathered_in_window(pool, anchor, dist, lo, hi, cfg.candidate_cap as nat, cs),
    ensures
        selection(cfg, anchor, wait_secs, cs).len() == MATCH_SIZE <==> in_window(
            pool,
            lo,
            hi,
        ).len() >= MATCH_SIZE,
        all_queued(pool, selection(cfg, anchor, wait_secs, cs)),
        in_window(pool, lo, hi).contains(anchor.id) ==> selection(
            cfg,
            anchor,
            wait_secs,
            cs,
        ).contains(anchor.id),
{
    let cap = cfg.candidate_cap as nat;
    let ids = choose|ids: Seq<u128>|
        {
            &&& #[trigger] are_in_window(pool, anchor.id, lo, hi, cap, ids)
            &&& cs == measured(pool, dist, ids)
        };
    lemma_window_ids(pool, anchor.id, lo, hi, cap, ids);
    lemma_picks_of_measured(pool, cfg, anchor, wait_secs, dist, ids, cs);
}

/// No player waits forever: once the anchor is past the hard deadline, a pool
/// of at least ten players yields a match with the anchor in it, whatever the
/// skills and regions. This is of a cap that allows a match at all.
pub proof fn law_hard_deadline_forms_match(
    pool: Map<u128, Player>,
    cfg: Config,
    anchor: Player,
    wait_secs: Real,
    dist: spec_fn(Player) -> Real,
    cs: Seq<Candidate>,
)
    requires
        queued(pool),
        cfg.candidate_cap >= MATCH_SIZE,
        starving(cfg, wait_secs),
        gathered_nearby(pool, anchor, dist, cfg.candidate_cap as nat, cs),
    ensures
        selection(cfg, anchor, wait_secs, cs).len() == MATCH_SIZE <==> pool.len() >= MATCH_SIZE,
        all_queued(pool, selection(cfg, anchor, wait_secs, cs)),
        pool.contains_key(anchor.id) ==> selection(cfg, anchor, wait_secs, cs).contains(anchor.id),
{
    let cap = cfg.candidate_cap as nat;
    let ids = choose|ids: Seq<u128>|
        {
            &&& #[trigger] are_nearby(pool, anchor, dist, cap, ids)
            &&& cs == measured(pool, dist, ids)
        };
    if pool.contains_key(anchor.id) {
        assert(pool.len() > 0) by {
            assert(pool.dom().contains(anchor.id));
        }
    }
    lemma_picks_of_measured(pool, cfg, anchor, wait_secs, dist, ids, cs);
}

/// Past the hard deadline the anchor is matched with the nine nearest players
/// of the whole pool: nobody who is passed over is nearer than anybody who is
/// picked. This is of distances that never shrink going away from the anchor's
/// skill.
pub proof fn law_hard_deadline_takes_nearest(
    pool: Map<u128, Player>,
    cfg: Config,
    anchor: Player,
    wait_secs: Real,
    dist: spec_fn(Player) -> Real,
    cs: Seq<Candidate>,
    picked: u128,
    passed_over: u128,
)
    requires
        queued(pool),
        starving(cfg, wait_secs),
        gathered_nearby(pool, anchor, dist, cfg.candidate_cap as nat, cs),
        grows_away(pool, anchor, dist),
        picked != anchor.id,
        selection(cfg, anchor, wait_secs, cs).contains(picked),
        pool.contains_key(passed_over),
        !selection(cfg, anchor, wait_secs, cs).contains(passed_over),
    ensures
        pool.contains_key(picked),
        dist(pool[picked]).order() <= dist(pool[passed_over]).order(),
{
    let cap = cfg.candidate_cap as nat;
    let ids = choose|ids: Seq<u128>|
        {
            &&& #[trigger] are_nearby(pool, anchor, dist, cap, ids)
            &&& cs == measured(pool, dist, ids)
        };
    lemma_picks_of_measured(pool, cfg, anchor, wait_secs, dist, ids, cs);
    lemma_measured(pool, dist, ids, cs);
    assert(ids.contains(picked));
    let j = ids.index_of(picked);
    assert(cs[j].player.id == picked);
    if ids.contains(passed_over) {
        let i = ids.index_of(passed_over);
        assert(cs[i].player.id == passed_over);
        law_nearest_are_picked(cfg, anchor, wait_secs, cs, i, j);
    } else {
        assert(nearer(anchor, dist, pool[picked], pool[passed_over]));
    }
}

/// The exact difference in skill from the anchor, in units of 2^-149.
pub open spec fn skill_distance(anchor: Player) -> spec_fn(Player) -> int {
    |p: Player|
        if p.skill.units() >= anchor.skill.units() {
            p.skill.units() - anchor.skill.units()
        } else {
            anchor.skill.units() - p.skill.units()
        }
}

/// Past the hard deadline the nine who are picked are nearest in skill: where
/// the distances are worked out without rounding, `|skill - anchor's skill|` is
/// no larger of a picked player than of one who is passed over.
pub proof fn law_hard_deadline_takes_nearest_in_skill(
    pool: Map<u128, Player>,
    cfg: Config,
    anchor: Player,
    wait_secs: Real,
    dist: spec_fn(Player) -> Real,
    cs: Seq<Candidate>,
    picked: u128,
    passed_over: u128,
)
    requires
        queued(pool),
        starving(cfg, wait_secs),
        gathered_nearby(pool, anchor, dist, cfg.candidate_cap as nat, cs),
        anchor.skill.is_finite(),
        forall|id: u128| #[trigger]
            pool.contains_key(id) ==> {
                &&& pool[id].skill.is_finite()
                &&& dist(pool[id]).is_finite()
                &&& dist(pool[id]).units() == skill_distance(anchor)(pool[id])
            },
        picked != anchor.id,
        selection(cfg, anchor, wait_secs, cs).contains(picked),
        pool.contains_key(passed_over),
        !selection(cfg, anchor, wait_secs, cs).contains(passed_over),
    ensures
        pool.contains_key(picked),
        skill_distance(anchor)(pool[picked]) <= skill_distance(anchor)(pool[passed_over]),
{
    assert(grows_away(pool, anchor, dist)) by {
        assert forall|p: u128, q: u128|
            #![trigger pool.contains_key(p), pool.contains_key(q)]
            pool.contains_key(p) && pool.contains_key(q) implies {
            let (a, b, s) = (
                pool[p].skill.order(),
                pool[q].skill.order(),
                anchor.skill.order(),
            );
            &&& b <= a <= s ==> dist(pool[p]).order() <= dist(pool[q]).order()
            &&& s <= a <= b ==> dist(pool[p]).order() <= dist(pool[q]).order()
        } by {
            law_order_is_by_value(pool[p].skill, pool[q].skill);
            law_order_is_by_value(pool[p].skill, anchor.skill);
            law_order_is_by_value(pool[q].skill, anchor.skill);
            law_order_is_by_value(dist(pool[p]), dist(pool[q]));
        }
    }
    law_hard_deadline_takes_nearest(
        pool,
        cfg,
        anchor,
        wait_secs,
        dist,
        cs,
        picked,
        passed_over,
    );
    law_order_is_by_value(dist(pool[picked]), dist(pool[passed_over]));
}

/// Where the `k`-th pick, candidate `i`, stands in the ranking of its group.
proof fn lemma_pick_place(
    cfg: Config,
    anchor: Player,
    wait_secs: Real,
    cs: Seq<Candidate>,
    k: int,
    i: int,
) -> (place: int)
    requires
        cs.len() <= usize::MAX,
        ids_in(players_of(cs)).no_duplicates(),
        0 <= k < selection(cfg, anchor, wait_secs, cs).len(),
        0 <= i < cs.len(),
        selection(cfg, anchor, wait_secs, cs)[k] == cs[i].player.id,
    ensures
        ({
            let region_ignored = starving(cfg, wait_secs);
            let local = ranked(cs, anchor, region_ignored, true);
            let rest = ranked(cs, anchor, region_ignored, false);
            let n = local_count(anchor, cs, region_ignored);
            &&& k < n ==> {
                &&& is_local(cs[i], anchor, region_ignored)
                &&& k <= place < local.len()
                &&& local[place] == (nearness(cs[i]), i as usize)
                &&& place == k || k == n - 1
            }
            &&& k >= n ==> {
                &&& !is_local(cs[i], anchor, region_ignored)
                &&& place == k - n
                &&& 0 <= place < rest.len()
                &&& rest[place] == (nearness(cs[i]), i as usize)
            }
        }),
{
    let region_ignored = starving(cfg, wait_secs);
    let local = ranked(cs, anchor, region_ignored, true);
    let rest = ranked(cs, anchor, region_ignored, false);
    let n = local_count(anchor, cs, region_ignored);
    let picks = selection(cfg, anchor, wait_secs, cs);
    let ids = ids_in(players_of(cs));
    lemma_selection(cfg, anchor, wait_secs, cs);
    lemma_ranked_positions(cs, anchor, region_ignored, true);
    lemma_ranked_positions(cs, anchor, region_ignored, false);
    if k >= n {
        let e = rest[k - n];
        assert(ids[e.1 as int] == ids[i]);
        k - n
    } else if cs[local[k].1 as int].player.id == picks[k] {
        let e = local[k];
        assert(ids[e.1 as int] == ids[i]);
        k
    } else {
        assert(picks[k] == anchor.id);
        let e = (nearness(cs[i]), i as usize);
        assert(local.contains(e));
        let place = local.index_of(e);
        if place < k {
            assert(picks[place] == cs[local[place].1 as int].player.id);
            assert(picks[place] == anchor.id);
        }
        place
    }
}

/// Different candidates are different players.
pub open spec fn all_different(cs: Seq<Candidate>) -> bool {
    forall|a: int, b: int|
        0 <= a < b < cs.len() ==> (#[trigger] cs[a]).player.id != (#[trigger] cs[b]).player.id
}

/// Different players have different ids.
proof fn lemma_all_different(cs: Seq<Candidate>)
    requires
        all_different(cs),
    ensures
        ids_in(players_of(cs)).no_duplicates(),
{
    let ids = ids_in(players_of(cs));
    assert forall|a: int, b: int| 0 <= a < b < ids.len() implies ids[a] != ids[b] by {
        assert(ids[a] == cs[a].player.id);
        assert(ids[b] == cs[b].player.id);
    }
}

/// Before the hard deadline the anchor's own region comes first: if anybody from
/// another region is picked, everybody of the anchor's region is picked too.
pub proof fn law_region_decides_before_the_deadline(
    cfg: Config,
    anchor: Player,
    wait_secs: Real,
    cs: Seq<Candidate>,
    i: int,
    j: int,
)
    requires
        cs.len() <= usize::MAX,
        all_different(cs),
        0 <= i < cs.len(),
        0 <= j < cs.len(),
        !(cfg.hard_deadline_secs.order() <= wait_secs.order() <= (Real {
            bits: INFINITY_BITS,
        }).order()),
        cs[i].player.region@ == anchor.region@,
        cs[j].player.region@ != anchor.region@,
        cs[j].player.id != anchor.id,
        selection(cfg, anchor, wait_secs, cs).contains(cs[j].player.id),
    ensures
        selection(cfg, anchor, wait_secs, cs).contains(cs[i].player.id),
{
    lemma_all_different(cs);
    law_own_region_first(cfg, anchor, wait_secs, cs, i, j);
}

/// Before the hard deadline, of two candidates who both are of the anchor's region,
/// or both are not, the one with the smaller distance is picked first: where one is
/// passed over, nobody farther is picked, and of equally distant ones the one
/// listed earlier is. The anchor itself is picked whatever its distance.
pub proof fn law_distance_decides_within_a_region(
    cfg: Config,
    anchor: Player,
    wait_secs: Real,
    cs: Seq<Candidate>,
    i: int,
    j: int,
)
    requires
        cs.len() <= usize::MAX,
        all_different(cs),
        0 <= i < cs.len(),
        0 <= j < cs.len(),
        !(cfg.hard_deadline_secs.order() <= wait_secs.order() <= (Real {
            bits: INFINITY_BITS,
        }).order()),
        cs[i].player.id != anchor.id,
        cs[j].player.id != anchor.id,
        (cs[i].player.region@ == anchor.region@) == (cs[j].player.region@ == anchor.region@),
        !selection(cfg, anchor, wait_secs, cs).contains(cs[i].player.id),
        selection(cfg, anchor, wait_secs, cs).contains(cs[j].player.id),
    ensures
        cs[j].distance.order() < cs[i].distance.order() || (cs[j].distance.order()
            == cs[i].distance.order() && j < i),
{
    lemma_all_different(cs);
    law_nearest_are_picked(cfg, anchor, wait_secs, cs, i, j);
}

/// From the hard deadline on only the distance decides, whatever the regions: where
/// one candidate is passed over, nobody farther is picked but the anchor, and of
/// equally distant ones the one listed earlier is.
pub proof fn law_distance_decides_after_the_deadline(
    cfg: Config,
    anchor: Player,
    wait_secs: Real,
    cs: Seq<Candidate>,
    i: int,
    j: int,
)
    requires
        cs.len() <= usize::MAX,
        all_different(cs),
        0 <= i < cs.len(),
        0 <= j < cs.len(),
        cfg.hard_deadline_secs.order() <= wait_secs.order() <= (Real {
            bits: INFINITY_BITS,
        }).order(),
        cs[j].player.id != anchor.id,
        !selection(cfg, anchor, wait_secs, cs).contains(cs[i].player.id),
        selection(cfg, anchor, wait_secs, cs).contains(cs[j].player.id),
    ensures
        cs[j].distance.order() < cs[i].distance.order() || (cs[j].distance.order()
            == cs[i].distance.order() && j < i),
{
    lemma_all_different(cs);
    law_nearest_are_picked(cfg, anchor, wait_secs, cs, i, j);
}

/// The picks come in order. From the hard deadline on that is by distance, and of
/// equally distant ones as they are listed. Before it, the anchor and those of its
/// region come first, and within either group it is the same.
pub proof fn law_picks_come_in_order(
    cfg: Config,
    anchor: Player,
    wait_secs: Real,
    cs: Seq<Candidate>,
    k: int,
    l: int,
    i: int,
    j: int,
)
    requires
        cs.len() <= usize::MAX,
        all_different(cs),
        0 <= k < l < selection(cfg, anchor, wait_secs, cs).len(),
        0 <= i < cs.len(),
        0 <= j < cs.len(),
        selection(cfg, anchor, wait_secs, cs)[k] == cs[i].player.id,
        selection(cfg, anchor, wait_secs, cs)[l] == cs[j].player.id,
    ensures
        ({
            let late = cfg.hard_deadline_secs.order() <= wait_secs.order() <= (Real {
                bits: INFINITY_BITS,
            }).order();
            let home_i = cs[i].player.id == anchor.id || cs[i].player.region@ == anchor.region@;
            let home_j = cs[j].player.id == anchor.id || cs[j].player.region@ == anchor.region@;
            let (a, b) = (cs[i].distance.order(), cs[j].distance.order());
            let nearer_first = a < b || (a == b && i < j);
            if late {
                nearer_first
            } else {
                (home_i && !home_j) || (home_i == home_j && nearer_first)
            }
        }),
{
    lemma_all_different(cs);
    let region_ignored = starving(cfg, wait_secs);
    let local = ranked(cs, anchor, region_ignored, true);
    let rest = ranked(cs, anchor, region_ignored, false);
    let n = local_count(anchor, cs, region_ignored);
    let a = lemma_pick_place(cfg, anchor, wait_secs, cs, k, i);
    let b = lemma_pick_place(cfg, anchor, wait_secs, cs, l, j);
    lemma_ranked_positions(cs, anchor, region_ignored, true);
    lemma_ranked_positions(cs, anchor, region_ignored, false);
    lemma_selection(cfg, anchor, wait_secs, cs);
    if l < n {
        assert(a < b);
        assert(entry_order()(local[a], local[b]));
        assert(local[a] != local[b]);
    } else if k >= n {
        assert(entry_order()(rest[a], rest[b]));
        assert(rest[a] != rest[b]);
    }
}

/// The hard deadline that is configured decides. Until the anchor has waited that
/// long, every candidate's skill lies within the window. From then on a pool of ten
/// or more yields ten picks, the anchor among them, whatever the skills, given a cap
/// that allows it.
pub proof fn law_configured_deadline_decides(
    pool: Map<u128, Player>,
    cfg: Config,
    anchor: Player,
    wait_secs: Real,
    dist: spec_fn(Player) -> Real,
    lo: Real,
    hi: Real,
    cs: Seq<Candidate>,
)
    requires
        queued(pool),
        starving(cfg, wait_secs) ==> gathered_nearby(
            pool,
            anchor,
            dist,
            cfg.candidate_cap as nat,
            cs,
        ),
        !starving(cfg, wait_secs) ==> gathered_in_window(
            pool,
            anchor,
            dist,
            lo,
            hi,
            cfg.candidate_cap as nat,
            cs,
        ),
    ensures
        ({
            let late = cfg.hard_deadline_secs.order() <= wait_secs.order() <= (Real {
                bits: INFINITY_BITS,
            }).order();
            &&& cs.len() <= cfg.candidate_cap
            &&& all_different(cs)
            &&& forall|i: int|
                0 <= i < cs.len() ==> pool.contains_key((#[trigger] cs[i]).player.id)
                    && pool[cs[i].player.id] == cs[i].player
            &&& !late ==> forall|i: int|
                0 <= i < cs.len() ==> lo.order() <= (#[trigger] cs[i]).player.skill.order()
                    <= hi.order()
            &&& late && pool.len() >= 10 && cfg.candidate_cap >= 10 ==> {
                &&& cs.len() >= 10
                &&& selection(cfg, anchor, wait_secs, cs).len() == 10
                &&& pool.contains_key(anchor.id) ==> selection(
                    cfg,
                    anchor,
                    wait_secs,
                    cs,
                ).contains(anchor.id)
            }
        }),
{
    let cap = cfg.candidate_cap as nat;
    if starving(cfg, wait_secs) {
        law_comparison_of_any(wait_secs, cfg.hard_deadline_secs);
        law_comparison_of_any(cfg.hard_deadline_secs, wait_secs);
        let ids = choose|ids: Seq<u128>|
            {
                &&& #[trigger] are_nearby(pool, anchor, dist, cap, ids)
                &&& cs == measured(pool, dist, ids)
            };
        lemma_measured(pool, dist, ids, cs);
        lemma_ids_different(pool, dist, ids, cs);
        if cfg.candidate_cap >= 10 {
            law_hard_deadline_forms_match(pool, cfg, anchor, wait_secs, dist, cs);
        }
    } else {
        let ids = choose|ids: Seq<u128>|
            {
                &&& #[trigger] are_in_window(pool, anchor.id, lo, hi, cap, ids)
                &&& cs == measured(pool, dist, ids)
            };
        lemma_window_ids(pool, anchor.id, lo, hi, cap, ids);
        lemma_measured(pool, dist, ids, cs);
        lemma_ids_different(pool, dist, ids, cs);
        assert forall|i: int| 0 <= i < cs.len() implies lo.order() <= (
        #[trigger] cs[i]).player.skill.order() <= hi.order() by {
            assert(in_window(pool, lo, hi).contains(ids[i]));
        }
    }
}

/// Candidates looked up in ascending skill order are all different.
proof fn lemma_ids_different(
    pool: Map<u128, Player>,
    dist: spec_fn(Player) -> Real,
    ids: Seq<u128>,
    cs: Seq<Candidate>,
)
    requires
        queued(pool),
        ascending(pool, ids),
        cs == measured(pool, dist, ids),
    ensures
        all_different(cs),
{
    lemma_measured(pool, dist, ids, cs);
    assert forall|a: int, b: int| 0 <= a < b < cs.len() implies (#[trigger] cs[a]).player.id != (
    #[trigger] cs[b]).player.id by {
        assert(cs[a].player.id == ids[a]);
        assert(cs[b].player.id == ids[b]);
    }
}

/// A scan within the skill window lists players of the window, each with its
/// distance, in ascending order of skill and then id. It leaves nobody of the window
/// out unless the cap is used up, and then whoever is left out stands after all who
/// are listed, the anchor aside, who is listed if it lies in the window.
pub proof fn law_window_scan_lists_the_window(
    pool: Map<u128, Player>,
    anchor: Player,
    dist: spec_fn(Player) -> Real,
    lo: Real,
    hi: Real,
    cap: nat,
    cs: Seq<Candidate>,
)
    requires
        queued(pool),
        gathered_in_window(pool, anchor, dist, lo, hi, cap, cs),
    ensures
        cs.len() <= cap,
        forall|i: int|
            0 <= i < cs.len() ==> {
                let p = (#[trigger] cs[i]).player;
                &&& pool.contains_key(p.id)
                &&& pool[p.id] == p
                &&& lo.order() <= p.skill.order() <= hi.order()
                &&& cs[i].distance == dist(p)
            },
        forall|i: int, j: int|
            0 <= i < j < cs.len() ==> {
                let (p, q) = ((#[trigger] cs[i]).player, (#[trigger] cs[j]).player);
                p.skill.order() < q.skill.order() || (p.skill.order() == q.skill.order() && p.id
                    < q.id)
            },
        forall|id: u128| #[trigger]
            pool.contains_key(id) && lo.order() <= pool[id].skill.order() <= hi.order() ==> {
                ||| exists|i: int| 0 <= i < cs.len() && (#[trigger] cs[i]).player.id == id
                ||| cs.len() == cap && forall|i: int|
                    0 <= i < cs.len() && (#[trigger] cs[i]).player.id != anchor.id
                        ==> cs[i].player.skill.order() < pool[id].skill.order() || (
                    cs[i].player.skill.order() == pool[id].skill.order() && cs[i].player.id < id)
            },
        cap > 0 && pool.contains_key(anchor.id) && lo.order() <= pool[anchor.id].skill.order()
            <= hi.order() ==> exists|i: int|
            0 <= i < cs.len() && (#[trigger] cs[i]).player.id == anchor.id,
{
    let from = (lo.order() as i64, 0u128);
    let to = (hi.order() as i64, u128::MAX);
    let ids = choose|ids: Seq<u128>|
        {
            &&& #[trigger] are_in_window(pool, anchor.id, lo, hi, cap, ids)
            &&& cs == measured(pool, dist, ids)
        };
    lemma_window_ids(pool, anchor.id, lo, hi, cap, ids);
    lemma_measured(pool, dist, ids, cs);
    let listed = choose|listed: Seq<u128>|
        {
            &&& #[trigger] lists_up(
                pool,
                listed,
                (lo.order() as i64, 0),
                (hi.order() as i64, u128::MAX),
                cap,
            )
            &&& ids == crate::matcher::with_anchor(
                pool,
                anchor.id,
                listed,
                (lo.order() as i64, 0),
                (hi.order() as i64, u128::MAX),
            )
        };
    assert forall|i: int| 0 <= i < cs.len() implies {
        let p = (#[trigger] cs[i]).player;
        &&& pool.contains_key(p.id)
        &&& pool[p.id] == p
        &&& lo.order() <= p.skill.order() <= hi.order()
        &&& cs[i].distance == dist(p)
    } by {
        assert(in_window(pool, lo, hi).contains(ids[i]));
    }
    assert forall|i: int, j: int| 0 <= i < j < cs.len() implies {
        let (p, q) = ((#[trigger] cs[i]).player, (#[trigger] cs[j]).player);
        p.skill.order() < q.skill.order() || (p.skill.order() == q.skill.order() && p.id < q.id)
    } by {
        assert(key_before(skill_key(pool[ids[i]]), skill_key(pool[ids[j]])));
    }
    assert forall|id: u128| #[trigger]
        pool.contains_key(id) && lo.order() <= pool[id].skill.order() <= hi.order() implies {
        ||| exists|i: int| 0 <= i < cs.len() && (#[trigger] cs[i]).player.id == id
        ||| cs.len() == cap && forall|i: int|
            0 <= i < cs.len() && (#[trigger] cs[i]).player.id != anchor.id
                ==> cs[i].player.skill.order() < pool[id].skill.order() || (
            cs[i].player.skill.order() == pool[id].skill.order() && cs[i].player.id < id)
    } by {
        if ids.contains(id) {
            let i = ids.index_of(id);
            assert(cs[i].player.id == id);
        } else {
            assert(in_span(skill_key(pool[id]), from, to));
            let n = listed.len() - 1;
            if listed.contains(id) {
                // The last place went to the anchor.
                let k = listed.index_of(id);
                if k < n {
                    assert(ids[k] == listed[k]);
                    assert(ids.contains(id));
                }
                assert(listed[n] == id);
                assert(listed.len() == cap);
            } else {
                assert(listed.len() == cap);
            }
            assert forall|i: int|
                0 <= i < cs.len() && (#[trigger] cs[i]).player.id != anchor.id implies
                cs[i].player.skill.order() < pool[id].skill.order() || (
            cs[i].player.skill.order() == pool[id].skill.order() && cs[i].player.id < id) by {
                assert(ids[i] == listed[i]);
                if listed.contains(id) {
                    assert(i < n);
                    assert(key_before(skill_key(pool[listed[i]]), skill_key(pool[listed[n]])));
                } else {
                    assert(key_before(skill_key(pool[listed[i]]), skill_key(pool[id])));
                }
            }
        }
    }
    if cap > 0 && pool.contains_key(anchor.id) && lo.order() <= pool[anchor.id].skill.order()
        <= hi.order() {
        assert(in_window(pool, lo, hi).contains(anchor.id));
        let i = ids.index_of(anchor.id);
        assert(cs[i].player.id == anchor.id);
    }
}

/// A scan past the hard deadline lists everybody if the cap allows it, and else as
/// many as a match needs, or the cap if that is less; each with its distance, in
/// ascending order of skill and then id, the anchor among them if it is queued. Where
/// the distance depends on the skill alone and never shrinks going away from the
/// anchor's, nobody who is left out is nearer than anybody else who is listed, and
/// nobody of the same skill has a lesser id.
pub proof fn law_nearby_scan_lists_the_nearest(
    pool: Map<u128, Player>,
    anchor: Player,
    dist: spec_fn(Player) -> Real,
    cap: nat,
    cs: Seq<Candidate>,
)
    requires
        queued(pool),
        gathered_nearby(pool, anchor, dist, cap, cs),
        forall|p: u128, q: u128|
            #![trigger pool.contains_key(p), pool.contains_key(q)]
            pool.contains_key(p) && pool.contains_key(q) ==> {
                let (a, b, s) = (
                    pool[p].skill.order(),
                    pool[q].skill.order(),
                    anchor.skill.order(),
                );
                b <= a <= s || s <= a <= b ==> dist(pool[p]).order() <= dist(pool[q]).order()
            },
    ensures
        pool.len() <= cap ==> cs.len() == pool.len(),
        pool.len() > cap && cap >= 10 ==> cs.len() == 10,
        pool.len() > cap && cap < 10 ==> cs.len() == cap,
        forall|i: int|
            0 <= i < cs.len() ==> {
                let p = (#[trigger] cs[i]).player;
                &&& pool.contains_key(p.id)
                &&& pool[p.id] == p
                &&& cs[i].distance == dist(p)
            },
        forall|i: int, j: int|
            0 <= i < j < cs.len() ==> {
                let (p, q) = ((#[trigger] cs[i]).player, (#[trigger] cs[j]).player);
                p.skill.order() < q.skill.order() || (p.skill.order() == q.skill.order() && p.id
                    < q.id)
            },
        pool.contains_key(anchor.id) && cap > 0 ==> exists|i: int|
            0 <= i < cs.len() && (#[trigger] cs[i]).player.id == anchor.id,
        forall|id: u128| #[trigger]
            pool.contains_key(id) ==> {
                ||| exists|i: int| 0 <= i < cs.len() && (#[trigger] cs[i]).player.id == id
                ||| forall|i: int|
                    0 <= i < cs.len() && (#[trigger] cs[i]).player.id != anchor.id ==> {
                        let (p, q) = (cs[i].player, pool[id]);
                        &&& dist(p).order() <= dist(q).order()
                        &&& p.skill.order() == q.skill.order() ==> p.id < id
                        &&& dist(p).order() == dist(q).order() ==> !(q.skill.order()
                            <= anchor.skill.order() < p.skill.order())
                    }
            },
{
    let ids = choose|ids: Seq<u128>|
        {
            &&& #[trigger] are_nearby(pool, anchor, dist, cap, ids)
            &&& cs == measured(pool, dist, ids)
        };
    lemma_measured(pool, dist, ids, cs);
    assert(grows_away(pool, anchor, dist));
    assert forall|i: int, j: int| 0 <= i < j < cs.len() implies {
        let (p, q) = ((#[trigger] cs[i]).player, (#[trigger] cs[j]).player);
        p.skill.order() < q.skill.order() || (p.skill.order() == q.skill.order() && p.id < q.id)
    } by {
        assert(key_before(skill_key(pool[ids[i]]), skill_key(pool[ids[j]])));
    }
    if pool.contains_key(anchor.id) && cap > 0 {
        assert(pool.len() > 0) by {
            assert(pool.dom().contains(anchor.id));
        }
        let i = ids.index_of(anchor.id);
        assert(cs[i].player.id == anchor.id);
    }
    assert forall|id: u128| #[trigger] pool.contains_key(id) implies {
        ||| exists|i: int| 0 <= i < cs.len() && (#[trigger] cs[i]).player.id == id
        ||| forall|i: int|
            0 <= i < cs.len() && (#[trigger] cs[i]).player.id != anchor.id ==> {
                let (p, q) = (cs[i].player, pool[id]);
                &&& dist(p).order() <= dist(q).order()
                &&& p.skill.order() == q.skill.order() ==> p.id < id
                &&& dist(p).order() == dist(q).order() ==> !(q.skill.order()
                    <= anchor.skill.order() < p.skill.order())
            }
    } by {
        if ids.contains(id) {
            let i = ids.index_of(id);
            assert(cs[i].player.id == id);
        } else {
            assert forall|i: int| 0 <= i < cs.len() && (#[trigger] cs[i]).player.id != anchor.id
                implies {
                let (p, q) = (cs[i].player, pool[id]);
                &&& dist(p).order() <= dist(q).order()
                &&& p.skill.order() == q.skill.order() ==> p.id < id
                &&& dist(p).order() == dist(q).order() ==> !(q.skill.order()
                    <= anchor.skill.order() < p.skill.order())
            } by {
                assert(ids.contains(ids[i]));
                assert(pool.contains_key(ids[i]));
                assert(nearer(anchor, dist, pool[ids[i]], pool[id]));
            }
        }
    }
}

/// A claim goes through just when the ids are different and all of them are queued.
pub proof fn law_claim_needs_everybody(pool: Map<u128, Player>, ids: Seq<u128>)
    ensures
        all_queued(pool, ids) <==> {
            &&& forall|i: int, j: int|
                0 <= i < j < ids.len() ==> #[trigger] ids[i] != #[trigger] ids[j]
            &&& forall|i: int| 0 <= i < ids.len() ==> pool.contains_key(#[trigger] ids[i])
        },
{
}

/// Claimed players have left the pool, so no later attempt can claim any of
/// them again while they are away.
pub proof fn law_no_double_booking(
    pool: Map<u128, Player>,
    claimed: Seq<u128>,
    later: Seq<u128>,
    id: u128,
)
    requires
        claimed.contains(id),
        later.contains(id),
    ensures
        !all_queued(pool.remove_keys(claimed.to_set()), later),
{
    let k = later.index_of(id);
    assert(claimed.to_set().contains(later[k]));
}

/// Nobody is lost: the players in the pool before a claim are those left in it
/// and those claimed, each in exactly one of the two.
pub proof fn law_claim_conserves_players(pool: Map<u128, Player>, claimed: Seq<u128>, id: u128)
    requires
        queued(pool),
        all_queued(pool, claimed),
        pool.contains_key(id),
    ensures
        ({
            let left = pool.remove_keys(claimed.to_set());
            let players = claimed.map_values(found_in(pool));
            &&& left.contains_key(id) != players.contains(pool[id])
            &&& left.contains_key(id) ==> left[id] == pool[id]
            &&& left.len() + players.len() == pool.len()
        }),
{
    let left = pool.remove_keys(claimed.to_set());
    let players = claimed.map_values(found_in(pool));
    if claimed.contains(id) {
        let k = claimed.index_of(id);
        assert(players[k] == pool[id]);
    }
    if players.contains(pool[id]) {
        let k = players.index_of(pool[id]);
        assert(pool.contains_key(claimed[k]));
        assert(pool[claimed[k]].id == claimed[k]);
        assert(claimed.to_set().contains(id));
    }
    claimed.unique_seq_to_set();
    assert(left.dom() =~= pool.dom().difference(claimed.to_set()));
    assert(pool.dom().intersect(claimed.to_set()) =~= claimed.to_set()) by {
        assert forall|x: u128| claimed.to_set().contains(x) implies pool.contains_key(x) by {
            assert(pool.contains_key(claimed[claimed.index_of(x)]));
        }
    }
    vstd::set_lib::lemma_set_intersect_union_lens(left.dom(), claimed.to_set());
    assert(left.dom().union(claimed.to_set()) =~= pool.dom());
    assert(left.dom().intersect(claimed.to_set()) =~= Set::<u128>::empty());
}

} // verus!
