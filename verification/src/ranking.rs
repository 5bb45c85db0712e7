//! Ranking of goals by their distance to a chosen goal.

use vstd::prelude::*;
use crate::hypervec::hamming;
use crate::preprocessing::{GameId, GoalId};

verus! {

/// A goal together with its distance to the goal searched for.
#[derive(Debug, Clone, Copy, PartialEq, Eq, Structural)]
pub struct GoalDist {
    pub game_id: GameId,
    pub goal_id: GoalId,
    pub dist: u32,
}

/// A goal's hypervector, keyed by its game and goal ids.
#[derive(Debug, Clone)]
pub struct GoalHv {
    pub game_id: GameId,
    pub goal_id: GoalId,
    pub hv: Vec<bool>,
}

/// Inserts `x` after every entry whose distance is at most its own, scanning
/// from the back: stable insertion.
pub open spec fn insert_by_dist(s: Seq<GoalDist>, x: GoalDist) -> Seq<GoalDist>
    decreases s.len(),
{
    if s.len() == 0 {
        seq![x]
    } else if s.last().dist <= x.dist {
        s.push(x)
    } else {
        insert_by_dist(s.drop_last(), x).push(s.last())
    }
}

/// Stable sort by distance: entries with equal distances keep their order.
pub open spec fn sort_by_dist(s: Seq<GoalDist>) -> Seq<GoalDist>
    decreases s.len(),
{
    if s.len() == 0 {
        Seq::empty()
    } else {
        insert_by_dist(sort_by_dist(s.drop_last()), s.last())
    }
}

/// Whether the distances never decrease along `s`.
pub open spec fn sorted_by_dist(s: Seq<GoalDist>) -> bool {
    forall|i: int, j: int| 0 <= i <= j < s.len() ==> (#[trigger] s[i]).dist <= (#[trigger] s[j]).dist
}

/// The distances from `target` to every other goal of `goals`, in the order of `goals`.
pub open spec fn distances(
    game_id: GameId,
    goal_id: GoalId,
    target: Seq<bool>,
    goals: Seq<GoalHv>,
    k: int,
) -> Seq<GoalDist>
    decreases k,
{
    if k <= 0 {
        Seq::empty()
    } else {
        let before = distances(game_id, goal_id, target, goals, k - 1);
        let g = goals[k - 1];
        if g.game_id == game_id && g.goal_id == goal_id {
            before
        } else {
            before.push(
                GoalDist { game_id: g.game_id, goal_id: g.goal_id, dist: hamming(target, g.hv@) as u32 },
            )
        }
    }
}

/// Inserting into a sorted sequence keeps it sorted and adds exactly the new entry.
pub proof fn lemma_insert_by_dist(s: Seq<GoalDist>, x: GoalDist)
    requires
        sorted_by_dist(s),
    ensures
        sorted_by_dist(insert_by_dist(s, x)),
        insert_by_dist(s, x).to_multiset() == s.to_multiset().insert(x),
        insert_by_dist(s, x).len() == s.len() + 1,
    decreases s.len(),
{
    broadcast use vstd::seq_lib::group_to_multiset_ensures;

    if s.len() == 0 {
        assert(seq![x] =~= Seq::<GoalDist>::empty().push(x));
    } else if s.last().dist <= x.dist {
        let r = s.push(x);
        assert forall|i: int, j: int| 0 <= i <= j < r.len() implies (#[trigger] r[i]).dist <= (
        #[trigger] r[j]).dist by {
            if j == s.len() {
                if i < s.len() {
                    assert(s[i].dist <= s[s.len() - 1].dist);
                }
            }
        }
    } else {
        let d = s.drop_last();
        assert(sorted_by_dist(d));
        lemma_insert_by_dist(d, x);
        let m = insert_by_dist(d, x);
        let r = m.push(s.last());
        assert(s =~= d.push(s.last()));
        assert forall|i: int| 0 <= i < m.len() implies (#[trigger] m[i]).dist <= s.last().dist by {
            assert(m.to_multiset().count(m[i]) > 0);
            assert(d.to_multiset().insert(x).count(m[i]) > 0);
            if m[i] != x {
                assert(d.to_multiset().count(m[i]) > 0);
                assert(d.contains(m[i]));
                let k = choose|k: int| 0 <= k < d.len() && d[k] == m[i];
                assert(s[k] == d[k]);
                assert(s[k].dist <= s[s.len() - 1].dist);
            }
        }
        assert forall|i: int, j: int| 0 <= i <= j < r.len() implies (#[trigger] r[i]).dist <= (
        #[trigger] r[j]).dist by {
            if j == m.len() {
                if i < m.len() {
                    assert(r[i] == m[i]);
                }
            } else {
                assert(r[i] == m[i]);
                assert(r[j] == m[j]);
            }
        }
        assert(r.to_multiset() == m.to_multiset().insert(s.last()));
        assert(s.to_multiset() == d.to_multiset().insert(s.last()));
        assert(r.to_multiset() =~= s.to_multiset().insert(x));
    }
}

/// The stable sort by distance is sorted and rearranges its input.
pub proof fn lemma_sort_by_dist(s: Seq<GoalDist>)
    ensures
        sorted_by_dist(sort_by_dist(s)),
        sort_by_dist(s).to_multiset() == s.to_multiset(),
        sort_by_dist(s).len() == s.len(),
    decreases s.len(),
{
    broadcast use vstd::seq_lib::group_to_multiset_ensures;

    if s.len() > 0 {
        lemma_sort_by_dist(s.drop_last());
        lemma_insert_by_dist(sort_by_dist(s.drop_last()), s.last());
        assert(s =~= s.drop_last().push(s.last()));
    } else {
        assert(s.to_multiset() =~= vstd::multiset::Multiset::empty());
        assert(sort_by_dist(s).to_multiset() =~= vstd::multiset::Multiset::empty());
    }
}

/// Inserts `x` into `sorted` as `insert_by_dist` does.
fn insert_sorted(sorted: &mut Vec<GoalDist>, x: GoalDist)
    ensures
        final(sorted)@ == insert_by_dist(old(sorted)@, x),
{
    let ghost s0 = sorted@;
    let mut j: usize = sorted.len();
    assert(s0.take(j as int) =~= s0);
    assert(insert_by_dist(s0, x) + s0.skip(j as int) =~= insert_by_dist(s0, x));
    while j > 0 && sorted[j - 1].dist > x.dist
        invariant
            j <= sorted.len(),
            sorted@ == s0,
            insert_by_dist(s0, x) == insert_by_dist(s0.take(j as int), x) + s0.skip(j as int),
        decreases j,
    {
        proof {
            let t = s0.take(j as int);
            assert(t.last() == s0[j - 1]);
            assert(t.drop_last() =~= s0.take(j - 1));
            assert(insert_by_dist(t, x) == insert_by_dist(s0.take(j - 1), x).push(s0[j - 1]));
            assert(seq![s0[j - 1]] + s0.skip(j as int) =~= s0.skip(j - 1));
            assert(insert_by_dist(s0.take(j - 1), x).push(s0[j - 1]) + s0.skip(j as int)
                =~= insert_by_dist(s0.take(j - 1), x) + s0.skip(j - 1));
        }
        j = j - 1;
    }
    proof {
        let t = s0.take(j as int);
        if j > 0 {
            assert(t.last() == s0[j - 1]);
            assert(insert_by_dist(t, x) == t.push(x));
        } else {
            assert(t =~= Seq::<GoalDist>::empty());
            assert(insert_by_dist(t, x) =~= t.push(x));
        }
        assert(insert_by_dist(s0, x) =~= s0.take(j as int).push(x) + s0.skip(j as int));
    }
    sorted.insert(j, x);
    assert(sorted@ =~= s0.take(j as int).push(x) + s0.skip(j as int));
}

/// Ranks every goal other than `(game_id, goal_id)` by the Hamming distance of
/// its hypervector to `target`, nearest first; goals at equal distance keep
/// their order in `goals`.
pub fn rank_goals(game_id: GameId, goal_id: GoalId, target: &Vec<bool>, goals: &Vec<GoalHv>) -> (ranked:
    Vec<GoalDist>)
    requires
        target.len() <= u32::MAX,
        forall|i: int| 0 <= i < goals.len() ==> (#[trigger] goals@[i]).hv@.len() == target.len(),
    ensures
        ranked@ == sort_by_dist(distances(game_id, goal_id, target@, goals@, goals@.len() as int)),
        sorted_by_dist(ranked@),
        ranked@.to_multiset() == distances(game_id, goal_id, target@, goals@, goals@.len() as int).to_multiset(),
        forall|i: int|
            0 <= i < goals.len() && !((#[trigger] goals@[i]).game_id == game_id && goals@[i].goal_id
                == goal_id) ==> ranked@.contains(
                GoalDist {
                    game_id: goals@[i].game_id,
                    goal_id: goals@[i].goal_id,
                    dist: hamming(target@, goals@[i].hv@) as u32,
                },
            ),
        forall|j: int|
            0 <= j < ranked.len() ==> !((#[trigger] ranked@[j]).game_id == game_id && ranked@[j].goal_id
                == goal_id),
        ranked.len() == num_others(game_id, goal_id, goals@, goals@.len() as int),
{
    let n: usize = goals.len();
    let mut ranked: Vec<GoalDist> = Vec::with_capacity(n);
    let mut i: usize = 0;
    while i < n
        invariant
            i <= n,
            n == goals.len(),
            target.len() <= u32::MAX,
            forall|k: int| 0 <= k < goals.len() ==> (#[trigger] goals@[k]).hv@.len() == target.len(),
            ranked@ == sort_by_dist(distances(game_id, goal_id, target@, goals@, i as int)),
        decreases n - i,
    {
        let g: &GoalHv = &goals[i];
        let ghost unsorted = distances(game_id, goal_id, target@, goals@, i as int);
        if g.game_id.0 == game_id.0 && g.goal_id.0 == goal_id.0 {
            assert(g.game_id == game_id && g.goal_id == goal_id);
        } else {
            let d: u32 = crate::hypervec::dist(target, &g.hv);
            let entry = GoalDist { game_id: g.game_id, goal_id: g.goal_id, dist: d };
            insert_sorted(&mut ranked, entry);
            proof {
                let next = distances(game_id, goal_id, target@, goals@, i + 1);
                assert(next == unsorted.push(entry));
                assert(next.drop_last() =~= unsorted);
            }
        }
        i = i + 1;
    }
    proof {
        let all = distances(game_id, goal_id, target@, goals@, n as int);
        lemma_sort_by_dist(all);
        lemma_distances_cover(game_id, goal_id, target@, goals@, n as int);
        broadcast use vstd::seq_lib::group_to_multiset_ensures;

        assert forall|i: int|
            0 <= i < goals.len() && !((#[trigger] goals@[i]).game_id == game_id && goals@[i].goal_id
                == goal_id) implies ranked@.contains(
            GoalDist {
                game_id: goals@[i].game_id,
                goal_id: goals@[i].goal_id,
                dist: hamming(target@, goals@[i].hv@) as u32,
            },
        ) by {
            let e = GoalDist {
                game_id: goals@[i].game_id,
                goal_id: goals@[i].goal_id,
                dist: hamming(target@, goals@[i].hv@) as u32,
            };
            assert(all.contains(e));
            assert(all.to_multiset().count(e) > 0);
            assert(ranked@.to_multiset().count(e) > 0);
        }
        assert forall|j: int| 0 <= j < ranked.len() implies !((#[trigger] ranked@[j]).game_id
            == game_id && ranked@[j].goal_id == goal_id) by {
            let e = ranked@[j];
            assert(ranked@.contains(e));
            assert(ranked@.to_multiset().count(e) > 0);
            assert(all.to_multiset().count(e) > 0);
            assert(all.contains(e));
            let q = choose|q: int| 0 <= q < all.len() && all[q] == e;
            assert(!(all[q].game_id == game_id && all[q].goal_id == goal_id));
        }
        assert(ranked@.len() == ranked@.to_multiset().len());
        assert(all.len() == all.to_multiset().len());
    }
    ranked
}

/// Number of goals among the first `k` other than `(game_id, goal_id)`.
pub open spec fn num_others(game_id: GameId, goal_id: GoalId, goals: Seq<GoalHv>, k: int) -> nat
    decreases k,
{
    if k <= 0 {
        0
    } else {
        num_others(game_id, goal_id, goals, k - 1) + if goals[k - 1].game_id == game_id
            && goals[k - 1].goal_id == goal_id {
            0nat
        } else {
            1nat
        }
    }
}

/// The distances cover every goal other than the chosen one, with its own
/// distance, once per goal, and leave the chosen one out.
pub proof fn lemma_distances_cover(
    game_id: GameId,
    goal_id: GoalId,
    target: Seq<bool>,
    goals: Seq<GoalHv>,
    k: int,
)
    requires
        0 <= k <= goals.len(),
    ensures
        forall|i: int|
            0 <= i < k && !((#[trigger] goals[i]).game_id == game_id && goals[i].goal_id == goal_id)
                ==> distances(game_id, goal_id, target, goals, k).contains(
                GoalDist {
                    game_id: goals[i].game_id,
                    goal_id: goals[i].goal_id,
                    dist: hamming(target, goals[i].hv@) as u32,
                },
            ),
        forall|j: int|
            0 <= j < distances(game_id, goal_id, target, goals, k).len() ==> !((#[trigger] distances(
                game_id,
                goal_id,
                target,
                goals,
                k,
            )[j]).game_id == game_id && distances(game_id, goal_id, target, goals, k)[j].goal_id
                == goal_id),
        distances(game_id, goal_id, target, goals, k).len() == num_others(game_id, goal_id, goals, k),
    decreases k,
{
    if k > 0 {
        lemma_distances_cover(game_id, goal_id, target, goals, k - 1);
        let before = distances(game_id, goal_id, target, goals, k - 1);
        let after = distances(game_id, goal_id, target, goals, k);
        let g = goals[k - 1];
        assert forall|i: int|
            0 <= i < k && !((#[trigger] goals[i]).game_id == game_id && goals[i].goal_id == goal_id)
                implies after.contains(
            GoalDist {
                game_id: goals[i].game_id,
                goal_id: goals[i].goal_id,
                dist: hamming(target, goals[i].hv@) as u32,
            },
        ) by {
            let e = GoalDist {
                game_id: goals[i].game_id,
                goal_id: goals[i].goal_id,
                dist: hamming(target, goals[i].hv@) as u32,
            };
            if i < k - 1 {
                assert(before.contains(e));
                let q = choose|q: int| 0 <= q < before.len() && before[q] == e;
                if !(g.game_id == game_id && g.goal_id == goal_id) {
                    assert(after[q] == e);
                }
            } else {
                assert(after[before.len() as int] == e);
            }
        }
        assert forall|j: int| 0 <= j < after.len() implies !((#[trigger] after[j]).game_id
            == game_id && after[j].goal_id == goal_id) by {
            if j < before.len() {
                assert(after[j] == before[j]);
            }
        }
    }
}

} // verus!
