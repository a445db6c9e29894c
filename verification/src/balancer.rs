//! Team balancer: split exactly 10 players into two fair teams of 5.
//!
//! For exactly 10 players there are `C(10,5) = 252` ways to choose team A (team
//! B is the complement). Every one of them is looked at, so the split that is
//! taken is **globally optimal**: no other has a smaller skill gap, and of those
//! with the same gap none has a smaller combined intra-team spread.
//!
//! The caller appraises the splits of [`team_splits`], one [`Appraisal`] each.

use crate::clock::Nanos;
use crate::ids::{fresh_id, is_random_uuid};
use crate::model::{law_wait_is_elapsed_time, Match, Player, MATCH_SIZE, TEAM_SIZE};
use crate::number::{law_order_is_by_value, Real};
use itertools::Itertools;
use vstd::multiset::Multiset;
use vstd::prelude::*;

verus! {

/// What a split of the ten players is worth.
#[derive(Debug, Clone, Copy)]
pub struct Appraisal {
    /// Absolute difference of the teams' skill totals: the smaller the better.
    pub gap: Real,
    /// Combined intra-team spread: decides between equal gaps.
    pub spread: Real,
    /// Quality of a match between the two teams, in 0.0-1.0.
    pub quality: Real,
    /// Absolute skill difference to report of such a match.
    pub skill_gap: Real,
}

/// `s` names `k` of the positions from `lo` up to but not including `n`, in
/// ascending order.
pub open spec fn is_choice(s: Seq<usize>, lo: int, n: int, k: nat) -> bool {
    &&& s.len() == k
    &&& forall|i: int| 0 <= i < s.len() ==> lo <= #[trigger] s[i] < n
    &&& forall|i: int, j: int| 0 <= i < j < s.len() ==> s[i] < s[j]
}

/// Lexicographic order of choices of the same length.
pub open spec fn lex_before(a: Seq<usize>, b: Seq<usize>) -> bool {
    exists|i: int|
        {
            &&& 0 <= i < a.len()
            &&& i < b.len()
            &&& #[trigger] a[i] < b[i]
            &&& forall|j: int| 0 <= j < i ==> a[j] == b[j]
        }
}

/// `all` lists every choice of `k` positions below `n`, in lexicographic order.
pub open spec fn enumerates(all: Seq<Seq<usize>>, n: int, k: nat) -> bool {
    &&& forall|s: Seq<usize>| #[trigger] all.contains(s) <==> is_choice(s, 0, n, k)
    &&& forall|i: int, j: int|
        0 <= i < j < all.len() ==> lex_before(#[trigger] all[i], #[trigger] all[j])
}

/// What vectors hold.
pub open spec fn contents(v: Seq<Vec<usize>>) -> Seq<Seq<usize>> {
    v.map_values(|c: Vec<usize>| c@)
}

/// Calls `Itertools::combinations` on `0..n` and collects what it yields: every
/// choice of `k` of these numbers, each in ascending order, in lexicographic
/// order. The bound on `n` keeps the list small enough to be held.
#[verifier::external_body]
fn combinations(n: usize, k: usize) -> (r: Vec<Vec<usize>>)
    requires
        k <= n <= 20,
    ensures
        enumerates(contents(r@), n as int, k as nat),
{
    (0..n).combinations(k).collect()
}

/// The choices of `k` positions from `lo` up to `n`: those with `lo`, then
/// those without.
pub open spec fn choices(lo: nat, n: nat, k: nat) -> Seq<Seq<usize>>
    decreases n - lo,
{
    if k == 0 {
        seq![Seq::<usize>::empty()]
    } else if lo >= n {
        Seq::empty()
    } else {
        with_first(lo, choices(lo + 1, n, (k - 1) as nat)) + choices(lo + 1, n, k)
    }
}

/// Every choice of `s` with `x` put in front.
pub open spec fn with_first(x: nat, s: Seq<Seq<usize>>) -> Seq<Seq<usize>> {
    s.map_values(|c: Seq<usize>| seq![x as usize] + c)
}

/// The number of ways to choose `k` of `m`.
pub open spec fn binomial(m: nat, k: nat) -> nat
    decreases m,
{
    if k == 0 {
        1
    } else if m == 0 {
        0
    } else {
        binomial((m - 1) as nat, (k - 1) as nat) + binomial((m - 1) as nat, k)
    }
}

/// The ways to choose team A, in lexicographic order.
pub open spec fn all_splits() -> Seq<Seq<usize>> {
    choices(0, MATCH_SIZE as nat, TEAM_SIZE as nat)
}

/// [`choices`] lists each choice once, in lexicographic order.
proof fn lemma_choices(lo: nat, n: nat, k: nat)
    requires
        lo <= n <= usize::MAX,
    ensures
        choices(lo, n, k).len() == binomial((n - lo) as nat, k),
        forall|s: Seq<usize>| #[trigger]
            choices(lo, n, k).contains(s) <==> is_choice(s, lo as int, n as int, k),
        forall|i: int, j: int|
            0 <= i < j < choices(lo, n, k).len() ==> lex_before(
                #[trigger] choices(lo, n, k)[i],
                #[trigger] choices(lo, n, k)[j],
            ),
    decreases n - lo,
{
    let all = choices(lo, n, k);
    if k == 0 {
        assert forall|s: Seq<usize>| #[trigger] all.contains(s) <==> is_choice(
            s,
            lo as int,
            n as int,
            k,
        ) by {
            assert(all[0] == Seq::<usize>::empty());
            if s.len() == 0 {
                assert(s =~= all[0]);
            }
        }
    } else if lo >= n {
        assert forall|s: Seq<usize>| #[trigger] all.contains(s) <==> is_choice(
            s,
            lo as int,
            n as int,
            k,
        ) by {
            if is_choice(s, lo as int, n as int, k) {
                assert(lo <= s[0] < n);
            }
        }
    } else {
        let inner = choices(lo + 1, n, (k - 1) as nat);
        let left = with_first(lo, inner);
        let right = choices(lo + 1, n, k);
        lemma_choices(lo + 1, n, (k - 1) as nat);
        lemma_choices(lo + 1, n, k);
        assert forall|s: Seq<usize>| #[trigger] all.contains(s) <==> is_choice(
            s,
            lo as int,
            n as int,
            k,
        ) by {
            if all.contains(s) {
                let i = all.index_of(s);
                if i < left.len() {
                    let c = inner[i];
                    assert(inner.contains(c));
                    assert(s == seq![lo as usize] + c);
                    assert forall|j: int| 0 <= j < s.len() implies lo <= #[trigger] s[j] < n by {
                        if j > 0 {
                            assert(s[j] == c[j - 1]);
                        }
                    }
                    assert forall|a: int, b: int| 0 <= a < b < s.len() implies s[a] < s[b] by {
                        assert(s[b] == c[b - 1]);
                        if a > 0 {
                            assert(s[a] == c[a - 1]);
                        }
                    }
                } else {
                    assert(right[i - left.len()] == s);
                    assert(right.contains(s));
                    assert forall|j: int| 0 <= j < s.len() implies lo <= #[trigger] s[j] < n by {}
                }
            }
            if is_choice(s, lo as int, n as int, k) {
                if s[0] == lo {
                    let c = s.drop_first();
                    assert forall|j: int| 0 <= j < c.len() implies lo + 1 <= #[trigger] c[j] < n by {
                        assert(c[j] == s[j + 1]);
                        assert(s[0] < s[j + 1]);
                    }
                    assert(is_choice(c, (lo + 1) as int, n as int, (k - 1) as nat));
                    assert(inner.contains(c));
                    let i = inner.index_of(c);
                    assert(left[i] == seq![lo as usize] + c);
                    assert(s =~= seq![lo as usize] + c);
                    assert(all[i] == s);
                } else {
                    assert forall|j: int| 0 <= j < s.len() implies lo + 1 <= #[trigger] s[j] < n by {
                        if j > 0 {
                            assert(s[0] < s[j]);
                        }
                    }
                    assert(right.contains(s));
                    let i = right.index_of(s);
                    assert(all[left.len() + i] == s);
                }
            }
        }
        assert forall|i: int, j: int| 0 <= i < j < all.len() implies lex_before(
            #[trigger] all[i],
            #[trigger] all[j],
        ) by {
            let (a, b) = (all[i], all[j]);
            if j < left.len() {
                let (c, d) = (inner[i], inner[j]);
                assert(lex_before(c, d));
                let x = choose|x: int|
                    {
                        &&& 0 <= x < c.len()
                        &&& x < d.len()
                        &&& #[trigger] c[x] < d[x]
                        &&& forall|y: int| 0 <= y < x ==> c[y] == d[y]
                    };
                assert(a[x + 1] == c[x] && b[x + 1] == d[x]);
                assert forall|y: int| 0 <= y < x + 1 implies a[y] == b[y] by {
                    if y > 0 {
                        assert(a[y] == c[y - 1] && b[y] == d[y - 1]);
                    }
                }
                assert(a[x + 1] < b[x + 1]);
            } else if i < left.len() {
                let d = right[j - left.len()];
                assert(right.contains(d));
                assert(is_choice(d, (lo + 1) as int, n as int, k));
                assert(a[0] == lo);
                assert(b[0] >= lo + 1);
                assert(a[0] < b[0]);
            } else {
                assert(a == right[i - left.len()]);
                assert(b == right[j - left.len()]);
            }
        }
    }
}

/// Lexicographic order is a strict order.
proof fn lemma_lex_before_is_strict(a: Seq<usize>, b: Seq<usize>)
    requires
        lex_before(a, b),
    ensures
        !lex_before(b, a),
        a != b,
{
}

/// There is only one way to list the choices in lexicographic order.
proof fn lemma_enumeration_unique(x: Seq<Seq<usize>>, y: Seq<Seq<usize>>)
    requires
        forall|s: Seq<usize>| #[trigger] x.contains(s) <==> y.contains(s),
        forall|i: int, j: int|
            0 <= i < j < x.len() ==> lex_before(#[trigger] x[i], #[trigger] x[j]),
        forall|i: int, j: int|
            0 <= i < j < y.len() ==> lex_before(#[trigger] y[i], #[trigger] y[j]),
    ensures
        x == y,
    decreases x.len(),
{
    if x.len() == 0 {
        if y.len() > 0 {
            assert(y.contains(y[0]));
            assert(x.contains(y[0]));
        }
        assert(x =~= y);
    } else {
        assert(x.contains(x[0]));
        assert(y.contains(x[0]));
        let j = y.index_of(x[0]);
        assert(y.contains(y[0]));
        assert(x.contains(y[0]));
        let i = x.index_of(y[0]);
        if j > 0 {
            lemma_lex_before_is_strict(y[0], y[j]);
            if i > 0 {
                lemma_lex_before_is_strict(x[0], x[i]);
            }
        }
        assert(x[0] == y[0]);
        let (u, v) = (x.drop_first(), y.drop_first());
        assert forall|s: Seq<usize>| #[trigger] u.contains(s) <==> v.contains(s) by {
            if u.contains(s) {
                let k = u.index_of(s);
                assert(x[k + 1] == s);
                lemma_lex_before_is_strict(x[0], x[k + 1]);
                assert(x.contains(s));
                assert(y.contains(s));
                let l = y.index_of(s);
                assert(v[l - 1] == s);
            }
            if v.contains(s) {
                let k = v.index_of(s);
                assert(y[k + 1] == s);
                lemma_lex_before_is_strict(y[0], y[k + 1]);
                assert(y.contains(s));
                assert(x.contains(s));
                let l = x.index_of(s);
                assert(u[l - 1] == s);
            }
        }
        lemma_enumeration_unique(u, v);
        assert(x =~= seq![x[0]] + u);
        assert(y =~= seq![y[0]] + v);
    }
}

/// Ten players can be split in `C(10,5) = 252` ways.
pub proof fn law_split_count()
    ensures
        all_splits().len() == 252,
{
    lemma_choices(0, MATCH_SIZE as nat, TEAM_SIZE as nat);
    reveal_with_fuel(binomial, 11);
}

/// Every team of five out of the ten is among the splits that are looked at,
/// and nothing else is.
pub proof fn law_every_team_is_a_split(team: Seq<usize>)
    ensures
        all_splits().contains(team) <==> is_choice(team, 0, MATCH_SIZE as int, TEAM_SIZE as nat),
{
    lemma_choices(0, MATCH_SIZE as nat, TEAM_SIZE as nat);
}

/// The ways to choose team A, as positions among the ten players.
pub fn team_splits() -> (r: Vec<Vec<usize>>)
    ensures
        contents(r@) == all_splits(),
        r@.len() == 252,
{
    let r = combinations(MATCH_SIZE, TEAM_SIZE);
    proof {
        lemma_choices(0, MATCH_SIZE as nat, TEAM_SIZE as nat);
        lemma_enumeration_unique(contents(r@), all_splits());
        law_split_count();
        assert(contents(r@).len() == r@.len());
    }
    r
}

/// Split `a` is better than split `b`: a smaller gap, or the same gap and a
/// smaller spread.
pub open spec fn better(a: Appraisal, b: Appraisal) -> bool {
    a.gap.order() < b.gap.order() || (a.gap.order() == b.gap.order() && a.spread.order()
        < b.spread.order())
}

/// `i` is the first of the best splits.
pub open spec fn is_first_best(appraisals: Seq<Appraisal>, i: int) -> bool {
    &&& 0 <= i < appraisals.len()
    &&& forall|j: int| 0 <= j < appraisals.len() ==> !better(#[trigger] appraisals[j], appraisals[i])
    &&& forall|j: int| 0 <= j < i ==> better(appraisals[i], #[trigger] appraisals[j])
}

/// The first of the best splits.
pub open spec fn best_split(appraisals: Seq<Appraisal>) -> int {
    choose|i: int| is_first_best(appraisals, i)
}

/// The players at the given positions.
pub open spec fn pick(players: Seq<Player>, positions: Seq<usize>) -> Seq<Player> {
    positions.map_values(|i: usize| players[i as int])
}

/// The positions below `n` that a team leaves to the other, in ascending order.
pub open spec fn left_over(team: Seq<usize>, n: int) -> Seq<usize>
    decreases n,
{
    if n <= 0 {
        Seq::empty()
    } else if team.contains((n - 1) as usize) {
        left_over(team, n - 1)
    } else {
        left_over(team, n - 1).push((n - 1) as usize)
    }
}

/// Up to `n`, the first `j` positions of a team and those it leaves over are
/// together the positions below `n`.
proof fn lemma_left_over_upto(team: Seq<usize>, n: int, players: Seq<Player>) -> (j: int)
    requires
        is_choice(team, 0, players.len() as int, team.len()),
        0 <= n <= players.len() <= usize::MAX,
    ensures
        0 <= j <= team.len(),
        left_over(team, n).len() == n - j,
        forall|i: int| 0 <= i < j ==> team[i] < n,
        forall|i: int| j <= i < team.len() ==> team[i] >= n,
        is_choice(left_over(team, n), 0, n, (n - j) as nat),
        pick(players, team.take(j)).to_multiset().add(
            pick(players, left_over(team, n)).to_multiset(),
        ) =~= players.take(n).to_multiset(),
    decreases n,
{
    broadcast use vstd::seq_lib::group_to_multiset_ensures;

    if n == 0 {
        assert(pick(players, team.take(0)) =~= Seq::<Player>::empty());
        assert(pick(players, left_over(team, 0)) =~= Seq::<Player>::empty());
        assert(players.take(0) =~= Seq::<Player>::empty());
        0
    } else {
        let j = lemma_left_over_upto(team, n - 1, players);
        let x = (n - 1) as usize;
        let before = left_over(team, n - 1);
        assert(players.take(n) =~= players.take(n - 1).push(players[n - 1]));
        if team.contains(x) {
            let k = team.index_of(x);
            if k > j {
                assert(team[j] < team[k]);
            }
            assert(team[j] == x);
            assert(pick(players, team.take(j + 1)) =~= pick(players, team.take(j)).push(
                players[n - 1],
            ));
            j + 1
        } else {
            assert forall|i: int| j <= i < team.len() implies team[i] >= n by {
                assert(team.contains(team[i]));
            }
            assert(pick(players, before.push(x)) =~= pick(players, before).push(players[n - 1]));
            j
        }
    }
}

/// The two teams of a split are five players each, and together they are the
/// ten: nobody is left out and nobody plays twice.
pub proof fn law_split_is_a_partition(players: Seq<Player>, team: Seq<usize>)
    requires
        players.len() == MATCH_SIZE,
        all_splits().contains(team),
    ensures
        pick(players, team).len() == TEAM_SIZE,
        pick(players, left_over(team, MATCH_SIZE as int)).len() == TEAM_SIZE,
        (pick(players, team) + pick(players, left_over(team, MATCH_SIZE as int))).to_multiset()
            == players.to_multiset(),
        forall|x: usize|
            0 <= x < MATCH_SIZE ==> #[trigger] left_over(team, MATCH_SIZE as int).contains(x)
                != team.contains(x),
        all_splits().contains(left_over(team, MATCH_SIZE as int)),
{
    broadcast use vstd::seq_lib::group_to_multiset_ensures;

    law_every_team_is_a_split(team);
    let n = MATCH_SIZE as int;
    let j = lemma_left_over_upto(team, n, players);
    let rest = left_over(team, n);
    if j < TEAM_SIZE {
        assert(team[j] >= n);
    }
    assert(team.take(j) =~= team);
    assert(players.take(n) =~= players);
    vstd::seq_lib::lemma_multiset_commutative(pick(players, team), pick(players, rest));
    law_every_team_is_a_split(rest);
    lemma_left_over_members(team, n);
}

/// What a team leaves over is what it does not name.
proof fn lemma_left_over_members(team: Seq<usize>, n: int)
    requires
        0 <= n <= usize::MAX,
    ensures
        forall|x: usize| #[trigger]
            left_over(team, n).contains(x) <==> x < n && !team.contains(x),
    decreases n,
{
    if n > 0 {
        lemma_left_over_members(team, n - 1);
        let before = left_over(team, n - 1);
        let last = (n - 1) as usize;
        assert forall|x: usize| #[trigger] left_over(team, n).contains(x) <==> x < n
            && !team.contains(x) by {
            if !team.contains(last) {
                let now = left_over(team, n);
                assert(now == before.push(last));
                if before.contains(x) {
                    assert(now[before.index_of(x)] == x);
                }
                if x == last {
                    assert(now[before.len() as int] == x);
                }
                if now.contains(x) {
                    let k = now.index_of(x);
                    if k < before.len() {
                        assert(before[k] == x);
                    }
                }
            }
        }
    }
}

/// The split that is taken is globally optimal: no team of five has a smaller
/// skill gap against the other five, and none with the same gap has a smaller
/// combined spread. `appraisals[i]` is what split `all_splits()[i]` is worth.
pub proof fn law_balance_is_optimal(appraisals: Seq<Appraisal>, team: Seq<usize>)
    requires
        appraisals.len() == all_splits().len(),
        is_choice(team, 0, MATCH_SIZE as int, TEAM_SIZE as nat),
    ensures
        ({
            let best = appraisals[best_split(appraisals)];
            let other = appraisals[all_splits().index_of(team)];
            &&& 0 <= best_split(appraisals) < appraisals.len()
            &&& all_splits()[all_splits().index_of(team)] == team
            &&& best.gap.order() <= other.gap.order()
            &&& best.gap.order() == other.gap.order() ==> best.spread.order()
                <= other.spread.order()
        }),
{
    law_split_count();
    law_every_team_is_a_split(team);
    lemma_first_best_exists(appraisals, appraisals.len() as int);
    assert(appraisals.take(appraisals.len() as int) =~= appraisals);
    let i = all_splits().index_of(team);
    assert(!better(appraisals[i], appraisals[best_split(appraisals)]));
}

/// The players' skills added up exactly, in units of 2^-149.
pub open spec fn skill_total(players: Seq<Player>) -> int
    decreases players.len(),
{
    if players.len() == 0 {
        0
    } else {
        skill_total(players.drop_last()) + players.last().skill.units()
    }
}

/// The exact difference `|sum(A) - sum(B)|` of a team and the other five, in
/// units of 2^-149.
pub open spec fn skill_difference(players: Seq<Player>, team: Seq<usize>) -> int {
    let a = skill_total(pick(players, team));
    let b = skill_total(pick(players, left_over(team, MATCH_SIZE as int)));
    if a >= b {
        a - b
    } else {
        b - a
    }
}

/// Every gap was worked out without rounding.
pub open spec fn gaps_are_exact(players: Seq<Player>, appraisals: Seq<Appraisal>) -> bool {
    forall|i: int|
        0 <= i < appraisals.len() ==> {
            &&& (#[trigger] appraisals[i]).gap.is_finite()
            &&& appraisals[i].gap.units() == skill_difference(players, all_splits()[i])
        }
}

/// Where the gaps are worked out without rounding, the split that is taken
/// minimises `|sum(A) - sum(B)|` over all teams of five.
pub proof fn law_balance_minimises_skill_difference(
    players: Seq<Player>,
    appraisals: Seq<Appraisal>,
    team: Seq<usize>,
)
    requires
        appraisals.len() == all_splits().len(),
        gaps_are_exact(players, appraisals),
        is_choice(team, 0, MATCH_SIZE as int, TEAM_SIZE as nat),
    ensures
        skill_difference(players, all_splits()[best_split(appraisals)]) <= skill_difference(
            players,
            team,
        ),
{
    law_balance_is_optimal(appraisals, team);
    law_every_team_is_a_split(team);
    law_order_is_by_value(
        appraisals[best_split(appraisals)].gap,
        appraisals[all_splits().index_of(team)].gap,
    );
}

/// `a` and `b` are as fair as two teams of these players can be: between them they
/// are all of the players, five each, and no other two teams of five that are have
/// skill totals closer to each other. Totals are exact.
pub open spec fn fairest(players: Seq<Player>, a: Seq<Player>, b: Seq<Player>) -> bool {
    &&& a.len() == 5
    &&& b.len() == 5
    &&& (a + b).to_multiset() == players.to_multiset()
    &&& forall|x: Seq<Player>, y: Seq<Player>|
        x.len() == 5 && y.len() == 5 && #[trigger] (x + y).to_multiset()
            == players.to_multiset() ==> {
            let ours = skill_total(a) - skill_total(b);
            let theirs = skill_total(x) - skill_total(y);
            (if ours >= 0 {
                ours
            } else {
                -ours
            }) <= (if theirs >= 0 {
                theirs
            } else {
                -theirs
            })
        }
}

/// Whatever the ten players and however the splits are appraised, the two teams
/// together are exactly these players, five each.
pub proof fn law_teams_are_the_players(
    players: Seq<Player>,
    appraisals: Seq<Appraisal>,
    a: Seq<Player>,
    b: Seq<Player>,
)
    requires
        players.len() == 10,
        appraisals.len() == all_splits().len(),
        a == best_team_a(players, appraisals),
        b == best_team_b(players, appraisals),
    ensures
        a.len() == 5,
        b.len() == 5,
        (a + b).to_multiset() == players.to_multiset(),
{
    law_split_count();
    lemma_first_best_exists(appraisals, appraisals.len() as int);
    assert(appraisals.take(appraisals.len() as int) =~= appraisals);
    let best = all_splits()[best_split(appraisals)];
    assert(all_splits().contains(best));
    law_split_is_a_partition(players, best);
}

/// Whatever the ten players, the two teams together are exactly these, five each.
/// Where the gaps are worked out without rounding, the difference of the two
/// teams' skill totals is the smallest that any two teams of five made of these
/// players have.
pub proof fn law_teams_are_fair(
    players: Seq<Player>,
    appraisals: Seq<Appraisal>,
    a: Seq<Player>,
    b: Seq<Player>,
    x: Seq<Player>,
    y: Seq<Player>,
)
    requires
        players.len() == 10,
        appraisals.len() == all_splits().len(),
        a == best_team_a(players, appraisals),
        b == best_team_b(players, appraisals),
        gaps_are_exact(players, appraisals),
        x.len() == 5,
        y.len() == 5,
        (x + y).to_multiset() == players.to_multiset(),
    ensures
        a.len() == 5,
        b.len() == 5,
        (a + b).to_multiset() == players.to_multiset(),
        ({
            let ours = skill_total(a) - skill_total(b);
            let theirs = skill_total(x) - skill_total(y);
            (if ours >= 0 {
                ours
            } else {
                -ours
            }) <= (if theirs >= 0 {
                theirs
            } else {
                -theirs
            })
        }),
{
    broadcast use vstd::seq_lib::group_to_multiset_ensures;

    law_split_count();
    vstd::seq_lib::lemma_multiset_commutative(x, y);
    assert(players.take(players.len() as int) =~= players);
    assert(x.to_multiset().subset_of(players.to_multiset())) by {
        assert forall|p: Player| x.to_multiset().count(p) <= players.to_multiset().count(p) by {
            assert(players.to_multiset().count(p) == x.to_multiset().count(p)
                + y.to_multiset().count(p));
        }
    }
    let team = lemma_team_of(players, players.len() as int, x.to_multiset());
    assert(is_choice(team, 0, MATCH_SIZE as int, TEAM_SIZE as nat));
    law_every_team_is_a_split(team);
    law_split_is_a_partition(players, team);
    let rest = left_over(team, MATCH_SIZE as int);
    vstd::seq_lib::lemma_multiset_commutative(pick(players, team), pick(players, rest));
    assert(pick(players, rest).to_multiset() =~= y.to_multiset()) by {
        assert forall|p: Player| pick(players, rest).to_multiset().count(p)
            == y.to_multiset().count(p) by {
            assert(players.to_multiset().count(p) == x.to_multiset().count(p)
                + y.to_multiset().count(p));
            assert(players.to_multiset().count(p) == pick(players, team).to_multiset().count(p)
                + pick(players, rest).to_multiset().count(p));
        }
    }
    lemma_total_is_of_the_multiset(pick(players, team), x);
    lemma_total_is_of_the_multiset(pick(players, rest), y);
    law_balance_minimises_skill_difference(players, appraisals, team);
    lemma_first_best_exists(appraisals, appraisals.len() as int);
    assert(appraisals.take(appraisals.len() as int) =~= appraisals);
    let best = all_splits()[best_split(appraisals)];
    assert(all_splits().contains(best));
    law_split_is_a_partition(players, best);
}

/// The best split's teams are the fairest.
proof fn lemma_fairest(players: Seq<Player>, appraisals: Seq<Appraisal>)
    requires
        players.len() == MATCH_SIZE,
        appraisals.len() == all_splits().len(),
        gaps_are_exact(players, appraisals),
    ensures
        fairest(players, best_team_a(players, appraisals), best_team_b(players, appraisals)),
{
    let (a, b) = (best_team_a(players, appraisals), best_team_b(players, appraisals));
    law_split_count();
    lemma_first_best_exists(appraisals, appraisals.len() as int);
    assert(appraisals.take(appraisals.len() as int) =~= appraisals);
    let best = all_splits()[best_split(appraisals)];
    assert(all_splits().contains(best));
    law_split_is_a_partition(players, best);
    assert forall|x: Seq<Player>, y: Seq<Player>|
        x.len() == 5 && y.len() == 5 && #[trigger] (x + y).to_multiset()
            == players.to_multiset() implies {
        let ours = skill_total(a) - skill_total(b);
        let theirs = skill_total(x) - skill_total(y);
        (if ours >= 0 {
            ours
        } else {
            -ours
        }) <= (if theirs >= 0 {
            theirs
        } else {
            -theirs
        })
    } by {
        law_teams_are_fair(players, appraisals, a, b, x, y);
    }
}

/// Of any players, those of a part can be named by their positions.
proof fn lemma_team_of(players: Seq<Player>, n: int, part: Multiset<Player>) -> (team: Seq<usize>)
    requires
        0 <= n <= players.len() <= usize::MAX,
        part.subset_of(players.take(n).to_multiset()),
    ensures
        is_choice(team, 0, n, part.len()),
        pick(players, team).to_multiset() == part,
    decreases n,
{
    broadcast use {
        vstd::seq_lib::group_to_multiset_ensures,
        vstd::multiset::group_multiset_properties,
    };

    let before = players.take(n);
    if n == 0 {
        assert(before =~= Seq::<Player>::empty());
        assert(part =~= Multiset::<Player>::empty());
        assert(pick(players, Seq::<usize>::empty()) =~= Seq::<Player>::empty());
        Seq::empty()
    } else {
        let earlier = players.take(n - 1);
        let last = players[n - 1];
        assert(before =~= earlier.push(last));
        assert(before.to_multiset() =~= earlier.to_multiset().insert(last));
        if part.subset_of(earlier.to_multiset()) {
            lemma_team_of(players, n - 1, part)
        } else {
            assert(part.count(last) > 0) by {
                if part.count(last) == 0 {
                    assert forall|p: Player| part.count(p) <= earlier.to_multiset().count(p) by {
                        assert(part.count(p) <= before.to_multiset().count(p));
                    }
                }
            }
            let rest = part.remove(last);
            assert forall|p: Player| rest.count(p) <= earlier.to_multiset().count(p) by {
                assert(part.count(p) <= before.to_multiset().count(p));
            }
            let named = lemma_team_of(players, n - 1, rest);
            let team = named.push((n - 1) as usize);
            assert(pick(players, team) =~= pick(players, named).push(last));
            assert(pick(players, team).to_multiset() =~= part);
            team
        }
    }
}

/// Skill totals do not depend on the order of the players.
proof fn lemma_total_is_of_the_multiset(x: Seq<Player>, y: Seq<Player>)
    requires
        x.to_multiset() == y.to_multiset(),
    ensures
        skill_total(x) == skill_total(y),
    decreases x.len(),
{
    broadcast use vstd::seq_lib::group_to_multiset_ensures;

    assert(x.len() == y.len()) by {
        assert(x.to_multiset().len() == x.len());
        assert(y.to_multiset().len() == y.len());
    }
    if x.len() > 0 {
        let p = x.last();
        assert(x.contains(p));
        assert(y.to_multiset().count(p) > 0);
        assert(y.contains(p));
        let i = y.index_of(p);
        assert(x.drop_last() =~= x.remove(x.len() - 1));
        assert(x.drop_last().to_multiset() =~= x.to_multiset().remove(p));
        assert(y.remove(i).to_multiset() =~= y.to_multiset().remove(p));
        lemma_total_is_of_the_multiset(x.drop_last(), y.remove(i));
        lemma_total_without(y, i);
    }
}

/// The total without one of the players.
proof fn lemma_total_without(s: Seq<Player>, i: int)
    requires
        0 <= i < s.len(),
    ensures
        skill_total(s) == skill_total(s.remove(i)) + s[i].skill.units(),
    decreases s.len(),
{
    if i == s.len() - 1 {
        assert(s.remove(i) =~= s.drop_last());
    } else {
        lemma_total_without(s.drop_last(), i);
        assert(s.remove(i).drop_last() =~= s.drop_last().remove(i));
        assert(s.remove(i).last() == s.last());
    }
}

/// What is taken is one of the splits: team A are the players at its positions and
/// team B the others, both in order. No split has a smaller gap; none with the same
/// gap has a smaller spread; and of those with the same gap and spread it is the
/// first.
pub proof fn law_best_split_is_taken(
    players: Seq<Player>,
    appraisals: Seq<Appraisal>,
    a: Seq<Player>,
    b: Seq<Player>,
) -> (taken: (int, Seq<usize>))
    requires
        players.len() == 10,
        appraisals.len() == all_splits().len(),
        a == best_team_a(players, appraisals),
        b == best_team_b(players, appraisals),
    ensures
        ({
            let (i, rest) = taken;
            let team = all_splits()[i];
            &&& 0 <= i < appraisals.len()
            &&& team.len() == 5 && rest.len() == 5
            &&& forall|k: int, l: int| 0 <= k < l < 5 ==> team[k] < team[l] && rest[k] < rest[l]
            &&& forall|x: usize| x < 10 ==> #[trigger] team.contains(x) != rest.contains(x)
            &&& a.len() == 5 && b.len() == 5
            &&& forall|k: int| 0 <= k < 5 ==> #[trigger] a[k] == players[team[k] as int]
            &&& forall|k: int| 0 <= k < 5 ==> #[trigger] b[k] == players[rest[k] as int]
            &&& forall|j: int|
                0 <= j < appraisals.len() ==> {
                    let (x, y) = (appraisals[i], #[trigger] appraisals[j]);
                    ||| x.gap.order() < y.gap.order()
                    ||| x.gap.order() == y.gap.order() && x.spread.order() < y.spread.order()
                    ||| x.gap.order() == y.gap.order() && x.spread.order() == y.spread.order()
                        && i <= j
                }
        }),
{
    law_split_count();
    lemma_first_best_exists(appraisals, appraisals.len() as int);
    assert(appraisals.take(appraisals.len() as int) =~= appraisals);
    let i = best_split(appraisals);
    assert(is_first_best(appraisals, i));
    let team = all_splits()[i];
    assert(all_splits().contains(team));
    law_every_team_is_a_split(team);
    law_split_is_a_partition(players, team);
    let rest = left_over(team, MATCH_SIZE as int);
    law_every_team_is_a_split(rest);
    assert forall|x: usize| x < 10 implies #[trigger] team.contains(x) != rest.contains(x) by {
        assert(rest.contains(x) != team.contains(x));
    }
    assert forall|j: int| 0 <= j < appraisals.len() implies {
        let (x, y) = (appraisals[i], #[trigger] appraisals[j]);
        ||| x.gap.order() < y.gap.order()
        ||| x.gap.order() == y.gap.order() && x.spread.order() < y.spread.order()
        ||| x.gap.order() == y.gap.order() && x.spread.order() == y.spread.order() && i <= j
    } by {
        assert(!better(appraisals[j], appraisals[i]));
        if j < i {
            assert(better(appraisals[i], appraisals[j]));
        }
    }
    (i, rest)
}

/// The ways to choose team A are listed in lexicographic order: of two of them, the
/// one listed earlier has the lesser position where they first differ.
pub proof fn law_splits_are_in_order(i: int, j: int) -> (k: int)
    requires
        0 <= i < j < all_splits().len(),
    ensures
        0 <= k < 5,
        all_splits()[i][k] < all_splits()[j][k],
        forall|l: int| 0 <= l < k ==> all_splits()[i][l] == all_splits()[j][l],
{
    lemma_choices(0, MATCH_SIZE as nat, TEAM_SIZE as nat);
    let (a, b) = (all_splits()[i], all_splits()[j]);
    assert(all_splits().contains(a));
    assert(lex_before(a, b));
    choose|k: int|
        {
            &&& 0 <= k < a.len()
            &&& k < b.len()
            &&& #[trigger] a[k] < b[k]
            &&& forall|l: int| 0 <= l < k ==> a[l] == b[l]
        }
}

/// Five ascending positions among the ten are one of the ways to choose team A,
/// and every way is such.
pub proof fn law_splits_are_the_fives(team: Seq<usize>)
    ensures
        all_splits().contains(team) <==> {
            &&& team.len() == 5
            &&& forall|i: int| 0 <= i < 5 ==> #[trigger] team[i] < 10
            &&& forall|i: int, j: int| 0 <= i < j < 5 ==> team[i] < team[j]
        },
{
    law_every_team_is_a_split(team);
}

/// Some split is the first of the best.
proof fn lemma_first_best_exists(appraisals: Seq<Appraisal>, n: int)
    requires
        0 < n <= appraisals.len(),
    ensures
        exists|i: int| is_first_best(appraisals.take(n), i),
    decreases n,
{
    let s = appraisals.take(n);
    if n == 1 {
        assert(is_first_best(s, 0));
    } else {
        lemma_first_best_exists(appraisals, n - 1);
        let t = appraisals.take(n - 1);
        let i = choose|i: int| is_first_best(t, i);
        assert forall|j: int| 0 <= j < n - 1 implies s[j] == #[trigger] t[j] by {}
        if better(s[n - 1], s[i]) {
            assert forall|j: int| 0 <= j < n - 1 implies better(s[n - 1], #[trigger] s[j]) by {
                assert(!better(t[j], t[i]));
            }
            assert(is_first_best(s, n - 1));
        } else {
            assert forall|j: int| 0 <= j < n implies !better(#[trigger] s[j], s[i]) by {
                if j < n - 1 {
                    assert(!better(t[j], t[i]));
                }
            }
            assert forall|j: int| 0 <= j < i implies better(s[i], #[trigger] s[j]) by {
                assert(better(t[i], t[j]));
            }
            assert(is_first_best(s, i));
        }
    }
}

/// Team A of the best split.
pub open spec fn best_team_a(players: Seq<Player>, appraisals: Seq<Appraisal>) -> Seq<Player> {
    pick(players, all_splits()[best_split(appraisals)])
}

/// Team B of the best split.
pub open spec fn best_team_b(players: Seq<Player>, appraisals: Seq<Appraisal>) -> Seq<Player> {
    pick(players, left_over(all_splits()[best_split(appraisals)], MATCH_SIZE as int))
}

/// The position of the first of the best splits.
fn find_best(appraisals: &Vec<Appraisal>) -> (best: usize)
    requires
        appraisals@.len() > 0,
    ensures
        is_first_best(appraisals@, best as int),
        best == best_split(appraisals@),
{
    let mut best: usize = 0;
    let mut i: usize = 1;
    while i < appraisals.len()
        invariant
            best < i <= appraisals@.len(),
            forall|j: int|
                0 <= j < i ==> !better(#[trigger] appraisals@[j], appraisals@[best as int]),
            forall|j: int|
                0 <= j < best ==> better(appraisals@[best as int], #[trigger] appraisals@[j]),
        decreases appraisals@.len() - i,
    {
        let a: Appraisal = appraisals[i];
        let b: Appraisal = appraisals[best];
        let gap_a: i64 = a.gap.rank();
        let gap_b: i64 = b.gap.rank();
        if gap_a < gap_b || (gap_a == gap_b && a.spread.rank() < b.spread.rank()) {
            best = i;
        }
        i = i + 1;
    }
    proof {
        assert(is_first_best(appraisals@, best as int));
        let other = best_split(appraisals@);
        assert(is_first_best(appraisals@, other));
        if other < best {
            assert(better(appraisals@[best as int], appraisals@[other]));
        }
        if best < other {
            assert(better(appraisals@[other], appraisals@[best as int]));
        }
    }
    best
}

/// Whether `team` names position `x`.
fn names(team: &Vec<usize>, x: usize) -> (r: bool)
    ensures
        r == team@.contains(x),
{
    let mut i: usize = 0;
    while i < team.len()
        invariant
            0 <= i <= team@.len(),
            forall|j: int| 0 <= j < i ==> team@[j] != x,
        decreases team@.len() - i,
    {
        if team[i] == x {
            return true;
        }
        i = i + 1;
    }
    false
}

/// Split 10 players into the optimal (team_a, team_b) pair, given what each of
/// the splits of [`team_splits`] is worth.
pub fn balance_teams(players: &Vec<Player>, appraisals: &Vec<Appraisal>) -> (r: (
    Vec<Player>,
    Vec<Player>,
))
    requires
        players@.len() == MATCH_SIZE,
        appraisals@.len() == all_splits().len(),
    ensures
        r.0@ == best_team_a(players@, appraisals@),
        r.1@ == best_team_b(players@, appraisals@),
        r.0@.len() == TEAM_SIZE,
        r.1@.len() == TEAM_SIZE,
        (r.0@ + r.1@).to_multiset() == players@.to_multiset(),
        gaps_are_exact(players@, appraisals@) ==> fairest(players@, r.0@, r.1@),
{
    let splits = team_splits();
    let best: usize = find_best(appraisals);
    assert(contents(splits@)[best as int] == splits@[best as int]@);
    let team: &Vec<usize> = &splits[best];
    proof {
        law_every_team_is_a_split(team@);
        assert(all_splits()[best as int] == team@);
        assert(all_splits().contains(team@));
    }
    let mut team_a: Vec<Player> = Vec::new();
    let mut i: usize = 0;
    while i < team.len()
        invariant
            0 <= i <= team@.len(),
            is_choice(team@, 0, MATCH_SIZE as int, TEAM_SIZE as nat),
            players@.len() == MATCH_SIZE,
            team_a@ == pick(players@, team@.take(i as int)),
        decreases team@.len() - i,
    {
        let x: usize = team[i];
        team_a.push(players[x].clone());
        i = i + 1;
        assert(team_a@ =~= pick(players@, team@.take(i as int)));
    }
    assert(team@.take(i as int) =~= team@);
    let mut team_b: Vec<Player> = Vec::new();
    let mut x: usize = 0;
    assert(team_b@ =~= pick(players@, left_over(team@, 0)));
    while x < MATCH_SIZE
        invariant
            0 <= x <= MATCH_SIZE,
            players@.len() == MATCH_SIZE,
            team_b@ == pick(players@, left_over(team@, x as int)),
        decreases MATCH_SIZE - x,
    {
        if !names(team, x) {
            team_b.push(players[x].clone());
        }
        assert(team_b@ =~= pick(players@, left_over(team@, x + 1)));
        x = x + 1;
    }
    proof {
        law_split_is_a_partition(players@, team@);
        if gaps_are_exact(players@, appraisals@) {
            lemma_fairest(players@, appraisals@);
        }
    }
    (team_a, team_b)
}

/// `w` is the longest wait among the players at `now`, in milliseconds.
pub open spec fn is_longest_wait(players: Seq<Player>, now: Nanos, w: int) -> bool {
    &&& exists|i: int| 0 <= i < players.len() && #[trigger] players[i].waited(now) == w
    &&& forall|i: int| 0 <= i < players.len() ==> #[trigger] players[i].waited(now) <= w
}

/// The players come from more than one region.
pub open spec fn mixes_regions(players: Seq<Player>) -> bool {
    exists|i: int|
        0 <= i < players.len() && (#[trigger] players[i]).region@ != players[0].region@
}

/// `m` is the match of these players: the best split, what it is worth, the
/// longest wait, and whether regions are mixed.
pub open spec fn is_match_of(
    m: Match,
    players: Seq<Player>,
    now: Nanos,
    appraisals: Seq<Appraisal>,
) -> bool {
    let worth = appraisals[best_split(appraisals)];
    &&& m.team_a@ == best_team_a(players, appraisals)
    &&& m.team_b@ == best_team_b(players, appraisals)
    &&& m.quality == worth.quality
    &&& m.skill_gap == worth.skill_gap
    &&& m.cross_region == mixes_regions(players)
    &&& is_longest_wait(players, now, m.wait_ms as int)
}

/// A match of ten players is between two teams that are exactly these, five each,
/// and, where the gaps are worked out without rounding, as fair as can be.
pub proof fn law_match_is_fair(
    m: Match,
    players: Seq<Player>,
    now: Nanos,
    appraisals: Seq<Appraisal>,
    x: Seq<Player>,
    y: Seq<Player>,
)
    requires
        players.len() == 10,
        appraisals.len() == all_splits().len(),
        is_match_of(m, players, now, appraisals),
        gaps_are_exact(players, appraisals),
        x.len() == 5,
        y.len() == 5,
        (x + y).to_multiset() == players.to_multiset(),
    ensures
        m.team_a@.len() == 5,
        m.team_b@.len() == 5,
        (m.team_a@ + m.team_b@).to_multiset() == players.to_multiset(),
        ({
            let ours = skill_total(m.team_a@) - skill_total(m.team_b@);
            let theirs = skill_total(x) - skill_total(y);
            (if ours >= 0 {
                ours
            } else {
                -ours
            }) <= (if theirs >= 0 {
                theirs
            } else {
                -theirs
            })
        }),
{
    law_teams_are_fair(players, appraisals, m.team_a@, m.team_b@, x, y);
}

/// A match carries what the split that it is between is worth: quality and skill
/// gap are those of the appraisal of the split whose positions make up team A, the
/// others being team B. No split has a smaller gap; none with the same gap has a
/// smaller spread; and of those with the same gap and spread it is the first.
pub proof fn law_match_carries_its_worth(
    m: Match,
    players: Seq<Player>,
    now: Nanos,
    appraisals: Seq<Appraisal>,
) -> (taken: (int, Seq<usize>))
    requires
        players.len() == 10,
        appraisals.len() == all_splits().len(),
        is_match_of(m, players, now, appraisals),
    ensures
        ({
            let (i, rest) = taken;
            let team = all_splits()[i];
            &&& 0 <= i < appraisals.len()
            &&& m.quality.bits == appraisals[i].quality.bits
            &&& m.skill_gap.bits == appraisals[i].skill_gap.bits
            &&& rest.len() == 5
            &&& forall|k: int, l: int| 0 <= k < l < 5 ==> rest[k] < rest[l]
            &&& forall|x: usize| x < 10 ==> #[trigger] team.contains(x) != rest.contains(x)
            &&& m.team_a@.len() == 5 && m.team_b@.len() == 5
            &&& forall|k: int| 0 <= k < 5 ==> #[trigger] m.team_a@[k] == players[team[k] as int]
            &&& forall|k: int| 0 <= k < 5 ==> #[trigger] m.team_b@[k] == players[rest[k] as int]
            &&& forall|j: int|
                0 <= j < appraisals.len() ==> {
                    let (x, y) = (appraisals[i], #[trigger] appraisals[j]);
                    ||| x.gap.order() < y.gap.order()
                    ||| x.gap.order() == y.gap.order() && x.spread.order() < y.spread.order()
                    ||| x.gap.order() == y.gap.order() && x.spread.order() == y.spread.order()
                        && i <= j
                }
        }),
{
    let (i, rest) = law_best_split_is_taken(players, appraisals, m.team_a@, m.team_b@);
    law_split_count();
    lemma_first_best_exists(appraisals, appraisals.len() as int);
    assert(appraisals.take(appraisals.len() as int) =~= appraisals);
    let best = best_split(appraisals);
    assert(is_first_best(appraisals, best));
    assert(best == i) by {
        assert(!better(appraisals[i], appraisals[best]));
        if i < best {
            assert(better(appraisals[best], appraisals[i]));
        }
        let (x, y) = (appraisals[i], appraisals[best]);
        assert(x.gap.order() < y.gap.order() || (x.gap.order() == y.gap.order()
            && x.spread.order() <= y.spread.order()));
    }
    (i, rest)
}

/// A match mixes regions just when two of its players come from different ones.
pub proof fn law_cross_region_is_told(
    m: Match,
    players: Seq<Player>,
    now: Nanos,
    appraisals: Seq<Appraisal>,
)
    requires
        players.len() > 0,
        is_match_of(m, players, now, appraisals),
    ensures
        m.cross_region ==> exists|i: int, j: int|
            0 <= i < players.len() && 0 <= j < players.len() && (#[trigger] players[i]).region@
                != (#[trigger] players[j]).region@,
        forall|i: int, j: int|
            0 <= i < players.len() && 0 <= j < players.len() && (#[trigger] players[i]).region@
                != (#[trigger] players[j]).region@ ==> m.cross_region,
{
}

/// The wait of a match is that of its longest-waiting player: nobody was queued a
/// whole millisecond longer ago than that, and unless it is zero somebody has
/// waited that many milliseconds.
pub proof fn law_match_wait_is_the_longest(
    m: Match,
    players: Seq<Player>,
    now: Nanos,
    appraisals: Seq<Appraisal>,
)
    requires
        is_match_of(m, players, now, appraisals),
    ensures
        forall|i: int|
            0 <= i < players.len() && (#[trigger] players[i]).queued_at is Some ==> now
                - players[i].queued_at.unwrap() < (m.wait_ms + 1) * 1_000_000,
        m.wait_ms > 0 ==> exists|i: int|
            0 <= i < players.len() && (#[trigger] players[i]).queued_at is Some && m.wait_ms
                * 1_000_000 <= now - players[i].queued_at.unwrap(),
{
    assert forall|i: int|
        0 <= i < players.len() && (#[trigger] players[i]).queued_at is Some implies now
        - players[i].queued_at.unwrap() < (m.wait_ms + 1) * 1_000_000 by {
        law_wait_is_elapsed_time(players[i], now);
        assert(players[i].waited(now) <= m.wait_ms);
    }
    let i = choose|i: int|
        0 <= i < players.len() && #[trigger] players[i].waited(now) == m.wait_ms;
    law_wait_is_elapsed_time(players[i], now);
}

/// Whether the players come from more than one region.
fn any_other_region(players: &Vec<Player>) -> (r: bool)
    requires
        players@.len() > 0,
    ensures
        r == mixes_regions(players@),
{
    let mut i: usize = 0;
    while i < players.len()
        invariant
            0 <= i <= players@.len(),
            players@.len() > 0,
            forall|j: int|
                0 <= j < i ==> (#[trigger] players@[j]).region@ == players@[0].region@,
        decreases players@.len() - i,
    {
        if players[i].region != players[0].region {
            return true;
        }
        i = i + 1;
    }
    false
}

/// The longest wait among the players, in milliseconds.
fn longest_wait(players: &Vec<Player>, now: Nanos) -> (r: u64)
    requires
        players@.len() > 0,
    ensures
        is_longest_wait(players@, now, r as int),
{
    let mut longest: u64 = players[0].wait_ms(now);
    let mut i: usize = 1;
    assert(players@[0].waited(now) == longest);
    while i < players.len()
        invariant
            1 <= i <= players@.len(),
            exists|j: int| 0 <= j < i && #[trigger] players@[j].waited(now) == longest,
            forall|j: int| 0 <= j < i ==> #[trigger] players@[j].waited(now) <= longest,
        decreases players@.len() - i,
    {
        let wait: u64 = players[i].wait_ms(now);
        if wait > longest {
            longest = wait;
        }
        i = i + 1;
    }
    longest
}

/// Build a full [`Match`] under the given id from 10 evicted players: balance,
/// score, and stamp wait.
pub fn assemble_match(
    id: u128,
    players: &Vec<Player>,
    now: Nanos,
    appraisals: &Vec<Appraisal>,
) -> (r: Match)
    requires
        players@.len() == MATCH_SIZE,
        appraisals@.len() == all_splits().len(),
    ensures
        r.id == id,
        is_match_of(r, players@, now, appraisals@),
        (r.team_a@ + r.team_b@).to_multiset() == players@.to_multiset(),
        gaps_are_exact(players@, appraisals@) ==> fairest(players@, r.team_a@, r.team_b@),
{
    proof {
        law_split_count();
    }
    let cross_region: bool = any_other_region(players);
    let wait_ms: u64 = longest_wait(players, now);
    let (team_a, team_b) = balance_teams(players, appraisals);
    let worth: Appraisal = appraisals[find_best(appraisals)];
    Match {
        id,
        team_a,
        team_b,
        quality: worth.quality,
        wait_ms,
        skill_gap: worth.skill_gap,
        cross_region,
    }
}

/// Build a full [`Match`] under a fresh id from 10 evicted players.
pub fn build_match(players: Vec<Player>, now: Nanos, appraisals: &Vec<Appraisal>) -> (r: Match)
    requires
        players@.len() == MATCH_SIZE,
        appraisals@.len() == all_splits().len(),
    ensures
        is_random_uuid(r.id),
        is_match_of(r, players@, now, appraisals@),
        (r.team_a@ + r.team_b@).to_multiset() == players@.to_multiset(),
        gaps_are_exact(players@, appraisals@) ==> fairest(players@, r.team_a@, r.team_b@),
{
    assemble_match(fresh_id(), &players, now, appraisals)
}

} // verus!
