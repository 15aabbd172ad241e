//! The integer side of application clustering: cluster bookkeeping, ordering by name
//! and priority, and the mapping of priority levels onto switch queues.

use vstd::prelude::*;

use crate::order::{is_stable_order, lex_sorted, permute, sort_levels, sort_names, stable_key_order, lemma_stable_order_distinct};
use crate::text::string_views;

verus! {

/// Why clustering refused its input.
#[derive(Debug, Clone, PartialEq)]
pub enum ClusteringError {
    EmptyInput,
    InvalidClusterCount,
    ZeroQueueBudget,
    Internal(&'static str),
}

/// The member lists of a vector of clusters.
pub open spec fn cluster_views(cs: Seq<Vec<usize>>) -> Seq<Seq<usize>> {
    cs.map_values(|c: Vec<usize>| c@)
}

/// Some cluster has a member.
pub open spec fn has_member(cs: Seq<Seq<usize>>) -> bool {
    exists|j: int| 0 <= j < cs.len() && #[trigger] cs[j].len() > 0
}

/// Cluster `d` is the last of the largest clusters, and it is not empty.
pub open spec fn is_donor(cs: Seq<Seq<usize>>, d: int) -> bool {
    &&& 0 <= d < cs.len()
    &&& cs[d].len() > 0
    &&& forall|j: int| 0 <= j < cs.len() ==> #[trigger] cs[j].len() <= cs[d].len()
    &&& forall|j: int| d < j < cs.len() ==> #[trigger] cs[j].len() < cs[d].len()
}

/// The cluster that gives up a member to an empty one.
pub open spec fn donor_of(cs: Seq<Seq<usize>>) -> int {
    choose|d: int| is_donor(cs, d)
}

/// Clusters `idx..` filled in turn: an empty cluster takes the last member of the donor;
/// `None` when an empty cluster finds no cluster with a member.
pub open spec fn rebalance_from(cs: Seq<Seq<usize>>, idx: int) -> Option<Seq<Seq<usize>>>
    decreases cs.len() - idx,
{
    if idx < 0 || idx >= cs.len() {
        Some(cs)
    } else if cs[idx].len() > 0 {
        rebalance_from(cs, idx + 1)
    } else if has_member(cs) {
        let d = donor_of(cs);
        proof {
            lemma_donor_exists(cs);
        }
        rebalance_from(cs.update(d, cs[d].drop_last()).update(idx, seq![cs[d].last()]), idx + 1)
    } else {
        None
    }
}

/// How often `v` is a member, over all clusters.
pub open spec fn total_count<A>(cs: Seq<Seq<A>>, v: A) -> nat
    decreases cs.len(),
{
    if cs.len() == 0 {
        0
    } else {
        total_count(cs.drop_last(), v) + cs.last().to_multiset().count(v)
    }
}

/// There is at most one donor.
pub proof fn lemma_donor_unique(cs: Seq<Seq<usize>>, d1: int, d2: int)
    requires
        is_donor(cs, d1),
        is_donor(cs, d2),
    ensures
        d1 == d2,
{
    if d1 < d2 {
        assert(cs[d2].len() < cs[d1].len());
        assert(cs[d2].len() >= cs[d1].len());
    } else if d2 < d1 {
        assert(cs[d1].len() < cs[d2].len());
        assert(cs[d1].len() >= cs[d2].len());
    }
}

/// The last largest non-empty cluster among the first `n`, or -1 when all are empty.
pub proof fn lemma_donor_prefix(cs: Seq<Seq<usize>>, n: int) -> (best: int)
    requires
        0 <= n <= cs.len(),
    ensures
        -1 <= best < n,
        best >= 0 ==> cs[best].len() > 0,
        best >= 0 ==> forall|t: int| 0 <= t < n ==> #[trigger] cs[t].len() <= cs[best].len(),
        best >= 0 ==> forall|t: int| best < t < n ==> #[trigger] cs[t].len() < cs[best].len(),
        best < 0 ==> forall|t: int| 0 <= t < n ==> #[trigger] cs[t].len() == 0,
    decreases n,
{
    if n == 0 {
        -1
    } else {
        let b = lemma_donor_prefix(cs, n - 1);
        let j = n - 1;
        if cs[j].len() > 0 && (b < 0 || cs[j].len() >= cs[b].len()) {
            j
        } else {
            b
        }
    }
}

/// A donor exists whenever some cluster has a member.
pub proof fn lemma_donor_exists(cs: Seq<Seq<usize>>)
    requires
        has_member(cs),
    ensures
        is_donor(cs, donor_of(cs)),
{
    let best = lemma_donor_prefix(cs, cs.len() as int);
    let w = choose|t: int| 0 <= t < cs.len() && #[trigger] cs[t].len() > 0;
    assert(best >= 0);
    assert(is_donor(cs, best));
}

/// Replacing cluster `i` by `x` changes each member's count by the difference of the two.
pub proof fn lemma_total_count_update<A>(cs: Seq<Seq<A>>, i: int, x: Seq<A>, v: A)
    requires
        0 <= i < cs.len(),
    ensures
        total_count(cs.update(i, x), v) + cs[i].to_multiset().count(v) == total_count(cs, v)
            + x.to_multiset().count(v),
    decreases cs.len(),
{
    let u = cs.update(i, x);
    if i == cs.len() - 1 {
        assert(u.drop_last() =~= cs.drop_last());
    } else {
        assert(u.drop_last() =~= cs.drop_last().update(i, x));
        lemma_total_count_update(cs.drop_last(), i, x, v);
    }
}

/// Removing cluster `i` takes its members' counts away.
pub proof fn lemma_total_count_remove<A>(cs: Seq<Seq<A>>, i: int, v: A)
    requires
        0 <= i < cs.len(),
    ensures
        total_count(cs.remove(i), v) + cs[i].to_multiset().count(v) == total_count(cs, v),
    decreases cs.len(),
{
    let r = cs.remove(i);
    if i == cs.len() - 1 {
        assert(r =~= cs.drop_last());
    } else {
        assert(r.drop_last() =~= cs.drop_last().remove(i));
        assert(r.last() == cs.last());
        lemma_total_count_remove(cs.drop_last(), i, v);
    }
}

/// One move keeps every member exactly as often as before.
pub proof fn lemma_move_keeps_members(cs: Seq<Seq<usize>>, d: int, idx: int, v: usize)
    requires
        0 <= d < cs.len(),
        0 <= idx < cs.len(),
        d != idx,
        cs[d].len() > 0,
        cs[idx].len() == 0,
    ensures
        total_count(cs.update(d, cs[d].drop_last()).update(idx, seq![cs[d].last()]), v)
            == total_count(cs, v),
{
    broadcast use vstd::seq_lib::to_multiset_build;
    broadcast use vstd::multiset::group_multiset_axioms;

    let c1 = cs.update(d, cs[d].drop_last());
    lemma_total_count_update(cs, d, cs[d].drop_last(), v);
    lemma_total_count_update(c1, idx, seq![cs[d].last()], v);
    assert(cs[d].drop_last().push(cs[d].last()) =~= cs[d]);
    assert(Seq::<usize>::empty().push(cs[d].last()) =~= seq![cs[d].last()]);
    assert(cs[idx] =~= Seq::<usize>::empty());
}

/// Rebalancing keeps every member exactly as often as before.
pub proof fn lemma_rebalance_keeps_members(cs: Seq<Seq<usize>>, idx: int, v: usize)
    requires
        0 <= idx,
        rebalance_from(cs, idx) is Some,
    ensures
        total_count(rebalance_from(cs, idx)->0, v) == total_count(cs, v),
    decreases cs.len() - idx,
{
    if idx >= cs.len() {
    } else if cs[idx].len() > 0 {
        lemma_rebalance_keeps_members(cs, idx + 1, v);
    } else {
        lemma_donor_exists(cs);
        let d = donor_of(cs);
        let next = cs.update(d, cs[d].drop_last()).update(idx, seq![cs[d].last()]);
        lemma_move_keeps_members(cs, d, idx, v);
        lemma_rebalance_keeps_members(next, idx + 1, v);
    }
}

/// Rebalancing succeeds exactly when there are no clusters or some cluster has a member.
pub proof fn lemma_rebalance_succeeds(cs: Seq<Seq<usize>>, idx: int)
    requires
        0 <= idx,
        idx > 0 && idx < cs.len() ==> has_member(cs),
    ensures
        rebalance_from(cs, idx) is Some <==> (idx >= cs.len() || has_member(cs)),
    decreases cs.len() - idx,
{
    if idx >= cs.len() {
    } else if cs[idx].len() > 0 {
        assert(has_member(cs));
        lemma_rebalance_succeeds(cs, idx + 1);
    } else if has_member(cs) {
        lemma_donor_exists(cs);
        let d = donor_of(cs);
        let next = cs.update(d, cs[d].drop_last()).update(idx, seq![cs[d].last()]);
        assert(next[idx].len() > 0);
        assert(has_member(next));
        lemma_rebalance_succeeds(next, idx + 1);
    }
}

/// Gives every empty cluster, in order, the last member of the currently largest cluster
/// (the last of them on a tie). Fails, changing nothing, when no cluster has a member.
pub fn rebalance_empty_clusters(clusters: &mut Vec<Vec<usize>>) -> (res: Result<(), ClusteringError>)
    ensures
        match res {
            Ok(()) => rebalance_from(cluster_views(old(clusters)@), 0) == Some(
                cluster_views(final(clusters)@),
            ),
            Err(e) => rebalance_from(cluster_views(old(clusters)@), 0) is None && final(clusters)@
                == old(clusters)@ && e is Internal,
        },
{
    let n = clusters.len();
    let ghost cs0 = cluster_views(clusters@);
    let ghost orig = clusters@;
    let mut idx: usize = 0;
    while idx < n
        invariant
            clusters@.len() == n,
            idx <= n,
            orig == old(clusters)@,
            cs0 == cluster_views(orig),
            rebalance_from(cs0, 0) == rebalance_from(cluster_views(clusters@), idx as int),
            idx == 0 ==> clusters@ == orig,
            idx > 0 ==> has_member(cluster_views(clusters@)),
        decreases n - idx,
    {
        let ghost cs = cluster_views(clusters@);
        if clusters[idx].len() == 0 {
            let mut best: usize = 0;
            let mut found = false;
            let mut j: usize = 0;
            while j < n
                invariant
                    clusters@.len() == n,
                    cs == cluster_views(clusters@),
                    j <= n,
                    best < n,
                    found ==> best < j,
                    found ==> cs[best as int].len() > 0,
                    found ==> forall|t: int| 0 <= t < j ==> #[trigger] cs[t].len() <= cs[best as int].len(),
                    found ==> forall|t: int| best < t < j ==> #[trigger] cs[t].len() < cs[best as int].len(),
                    !found ==> forall|t: int| 0 <= t < j ==> #[trigger] cs[t].len() == 0,
                decreases n - j,
            {
                assert(cs[j as int] == clusters@[j as int]@);
                if clusters[j].len() > 0 && (!found || clusters[j].len() >= clusters[best].len()) {
                    best = j;
                    found = true;
                }
                j = j + 1;
            }
            if !found {
                proof {
                    assert(cs[idx as int].len() == 0);
                    if has_member(cs) {
                        let w = choose|t: int| 0 <= t < cs.len() && #[trigger] cs[t].len() > 0;
                    }
                    assert(idx == 0);
                }
                return Err(ClusteringError::Internal("no donor cluster available"));
            }
            proof {
                assert(is_donor(cs, best as int));
                assert(has_member(cs));
                lemma_donor_exists(cs);
                lemma_donor_unique(cs, best as int, donor_of(cs));
                assert(best != idx);
            }
            let ghost before = clusters@;
            let moved = match clusters[best].pop() {
                Some(m) => m,
                None => {
                    return Err(ClusteringError::Internal("unable to move member"));
                },
            };
            proof {
                assert(clusters@[best as int]@ == cs[best as int].drop_last());
                assert(moved == cs[best as int].last());
                assert(clusters@ == before.update(best as int, clusters@[best as int]));
            }
            let ghost mid = clusters@;
            clusters[idx].push(moved);
            proof {
                assert(clusters@[idx as int]@ == seq![moved]);
                assert(clusters@ == mid.update(idx as int, clusters@[idx as int]));
                let next = cs.update(best as int, cs[best as int].drop_last()).update(
                    idx as int,
                    seq![cs[best as int].last()],
                );
                assert(cluster_views(clusters@) =~= next);
                assert(next[idx as int].len() > 0);
            }
        } else {
            assert(cs[idx as int].len() > 0);
        }
        idx = idx + 1;
    }
    Ok(())
}

/// The members of `k` clusters when point `i` belongs to cluster `nearest[i]`: cluster `j`
/// lists, in increasing order, exactly the points assigned to it.
pub fn group_by_nearest(nearest: &Vec<usize>, k: usize) -> (res: Vec<Vec<usize>>)
    requires
        forall|i: int| 0 <= i < nearest@.len() ==> #[trigger] nearest@[i] < k,
    ensures
        res@.len() == k,
        forall|j: int, t: int|
            0 <= j < k && 0 <= t < res@[j]@.len() ==> (#[trigger] res@[j]@[t]) < nearest@.len()
                && nearest@[res@[j]@[t] as int] == j,
        forall|j: int, t1: int, t2: int|
            0 <= j < k && 0 <= t1 < t2 < res@[j]@.len() ==> #[trigger] res@[j]@[t1]
                < #[trigger] res@[j]@[t2],
        forall|i: int| 0 <= i < nearest@.len() ==> #[trigger] res@[nearest@[i] as int]@.contains(
            i as usize,
        ),
{
    let mut res: Vec<Vec<usize>> = Vec::new();
    for j in 0..k
        invariant
            res@.len() == j,
            forall|jj: int| 0 <= jj < j ==> (#[trigger] res@[jj])@.len() == 0,
    {
        res.push(Vec::new());
    }
    let n = nearest.len();
    for i in 0..n
        invariant
            n == nearest@.len(),
            res@.len() == k,
            forall|ii: int| 0 <= ii < n ==> #[trigger] nearest@[ii] < k,
            forall|j: int, t: int|
                0 <= j < k && 0 <= t < res@[j]@.len() ==> (#[trigger] res@[j]@[t]) < i
                    && nearest@[res@[j]@[t] as int] == j,
            forall|j: int, t1: int, t2: int|
                0 <= j < k && 0 <= t1 < t2 < res@[j]@.len() ==> #[trigger] res@[j]@[t1]
                    < #[trigger] res@[j]@[t2],
            forall|ii: int| 0 <= ii < i ==> #[trigger] res@[nearest@[ii] as int]@.contains(ii as usize),
    {
        let c = nearest[i];
        let ghost before = res@;
        res[c].push(i);
        proof {
            assert(res@[c as int]@ == before[c as int]@.push(i));
            assert forall|j: int| 0 <= j < k && j != c implies #[trigger] res@[j] == before[j] by {}
            assert forall|ii: int| 0 <= ii < i + 1 implies #[trigger] res@[nearest@[ii] as int]@.contains(
                ii as usize,
            ) by {
                if ii < i {
                    let j = nearest@[ii] as int;
                    assert(before[j]@.contains(ii as usize));
                    let t = choose|t: int| 0 <= t < before[j]@.len() && before[j]@[t] == ii as usize;
                    assert(res@[j]@[t] == ii as usize);
                } else {
                    assert(res@[c as int]@[before[c as int]@.len() as int] == i);
                }
            }
        }
    }
    res
}

/// The number of clusters for `n_apps` applications and the wanted number of priority
/// levels, or why there can be none.
pub fn cluster_count(n_apps: usize, desired_priority_levels: usize) -> (res: Result<usize, ClusteringError>)
    ensures
        n_apps == 0 ==> res == Err::<usize, ClusteringError>(ClusteringError::EmptyInput),
        n_apps > 0 && desired_priority_levels == 0 ==> res == Err::<usize, ClusteringError>(
            ClusteringError::InvalidClusterCount,
        ),
        n_apps > 0 && desired_priority_levels > 0 ==> res == Ok::<usize, ClusteringError>(
            if desired_priority_levels < n_apps {
                desired_priority_levels
            } else {
                n_apps
            },
        ),
{
    if n_apps == 0 {
        return Err(ClusteringError::EmptyInput);
    }
    if desired_priority_levels == 0 {
        return Err(ClusteringError::InvalidClusterCount);
    }
    if desired_priority_levels < n_apps {
        Ok(desired_priority_levels)
    } else {
        Ok(n_apps)
    }
}

/// Whether `n_levels` priority levels can be mapped onto `queue_budget` queues.
pub fn check_queue_inputs(n_levels: usize, queue_budget: usize) -> (res: Result<(), ClusteringError>)
    ensures
        n_levels == 0 ==> res == Err::<(), ClusteringError>(ClusteringError::EmptyInput),
        n_levels > 0 && queue_budget == 0 ==> res == Err::<(), ClusteringError>(
            ClusteringError::ZeroQueueBudget,
        ),
        n_levels > 0 && queue_budget > 0 ==> res == Ok::<(), ClusteringError>(()),
{
    if n_levels == 0 {
        return Err(ClusteringError::EmptyInput);
    }
    if queue_budget == 0 {
        return Err(ClusteringError::ZeroQueueBudget);
    }
    Ok(())
}

/// Applications that share a priority level, and their centroid model.
#[derive(Debug, Clone, PartialEq)]
pub struct ApplicationCluster<C> {
    pub priority_level: u8,
    pub applications: Vec<String>,
    pub centroid: C,
}

/// The priority levels served by one switch queue, and their centroid model.
#[derive(Debug, Clone, PartialEq)]
pub struct QueueAssignment<C> {
    pub queue_index: usize,
    pub priority_levels: Vec<u8>,
    pub centroid: C,
}

/// The positions of the non-empty clusters, in order.
pub open spec fn nonempty_indices(ms: Seq<Seq<usize>>) -> Seq<int>
    decreases ms.len(),
{
    if ms.len() == 0 {
        Seq::<int>::empty()
    } else {
        let r = nonempty_indices(ms.drop_last());
        if ms.last().len() > 0 {
            r.push(ms.len() - 1)
        } else {
            r
        }
    }
}

/// The priority level of cluster `idx`: the base level plus the index's low eight bits.
pub open spec fn level_of(base: u8, idx: int) -> int {
    base + idx % 256
}

/// The names of the given members.
pub open spec fn member_names(names: Seq<Seq<char>>, ms: Seq<usize>) -> Seq<Seq<char>> {
    ms.map_values(|m: usize| names[m as int])
}

/// The priority keys of the non-empty clusters.
pub open spec fn cluster_keys(ms: Seq<Seq<usize>>, base: u8) -> Seq<u8> {
    nonempty_indices(ms).map_values(|i: int| level_of(base, i) as u8)
}

proof fn lemma_nonempty_indices_bounds(ms: Seq<Seq<usize>>)
    ensures
        forall|t: int| 0 <= t < nonempty_indices(ms).len() ==> 0 <= #[trigger] nonempty_indices(ms)[t] < ms.len()
            && ms[nonempty_indices(ms)[t]].len() > 0,
    decreases ms.len(),
{
    if ms.len() > 0 {
        let dl = ms.drop_last();
        lemma_nonempty_indices_bounds(dl);
        let r = nonempty_indices(dl);
        assert forall|t: int| 0 <= t < r.len() implies 0 <= #[trigger] r[t] < ms.len() && ms[r[t]].len()
            > 0 by {
            assert(dl[r[t]] == ms[r[t]]);
        }
    }
}

/// One cluster per non-empty member list, ordered by priority level (stable on ties):
/// the level is `base` plus the list's position modulo 256, the applications are the
/// members' names in lexicographic order, and the centroid is the list's centroid.
pub fn assemble_clusters<C>(
    members: &Vec<Vec<usize>>,
    names: &Vec<String>,
    centroids: Vec<C>,
    base: u8,
) -> (res: Vec<ApplicationCluster<C>>)
    requires
        centroids@.len() == members@.len(),
        forall|i: int, j: int|
            0 <= i < members@.len() && 0 <= j < members@[i]@.len() ==> (#[trigger] members@[i]@[j])
                < names@.len(),
        forall|i: int|
            0 <= i < members@.len() && (#[trigger] members@[i]@).len() > 0 ==> level_of(base, i)
                <= 255,
    ensures
        res@.len() == nonempty_indices(cluster_views(members@)).len(),
        exists|order: Seq<usize>|
            #[trigger] is_stable_order(cluster_keys(cluster_views(members@), base), order) && forall|t: int|
                0 <= t < res@.len() ==> {
                    let c = nonempty_indices(cluster_views(members@))[order[t] as int];
                    &&& (#[trigger] res@[t]).priority_level as int == level_of(base, c)
                    &&& lex_sorted(string_views(res@[t].applications@))
                    &&& string_views(res@[t].applications@).to_multiset() == member_names(
                        string_views(names@),
                        members@[c]@,
                    ).to_multiset()
                    &&& res@[t].centroid == centroids@[c]
                },
{
    let ghost ms = cluster_views(members@);
    let ghost nm = string_views(names@);
    let n = members.len();
    let mut cents = centroids;
    let mut pending: Vec<ApplicationCluster<C>> = Vec::new();
    let mut keys: Vec<u8> = Vec::new();
    assert(ms.take(0) =~= Seq::<Seq<usize>>::empty());
    for idx in 0..n
        invariant
            n == members@.len(),
            ms == cluster_views(members@),
            nm == string_views(names@),
            cents@.len() == n - idx,
            forall|j: int| 0 <= j < cents@.len() ==> #[trigger] cents@[j] == centroids@[idx + j],
            forall|i: int, j: int|
                0 <= i < members@.len() && 0 <= j < members@[i]@.len() ==> (#[trigger] members@[i]@[j])
                    < names@.len(),
            forall|i: int|
                0 <= i < members@.len() && (#[trigger] members@[i]@).len() > 0 ==> level_of(base, i)
                    <= 255,
            pending@.len() == nonempty_indices(ms.take(idx as int)).len(),
            keys@ == nonempty_indices(ms.take(idx as int)).map_values(|i: int| level_of(base, i) as u8),
            forall|t: int| 0 <= t < pending@.len() ==> {
                let c = nonempty_indices(ms.take(idx as int))[t];
                &&& (#[trigger] pending@[t]).priority_level as int == level_of(base, c)
                &&& lex_sorted(string_views(pending@[t].applications@))
                &&& string_views(pending@[t].applications@).to_multiset() == member_names(
                    nm,
                    members@[c]@,
                ).to_multiset()
                &&& pending@[t].centroid == centroids@[c]
            },
    {
        let ghost pre = ms.take(idx as int);
        let ghost cur = ms.take(idx + 1);
        assert(cur.drop_last() =~= pre);
        assert(cur.last() == members@[idx as int]@);
        proof {
            lemma_nonempty_indices_bounds(pre);
        }
        let c = cents.remove(0);
        if members[idx].len() > 0 {
            let mut apps: Vec<String> = Vec::new();
            let ms_i = &members[idx];
            for j in 0..ms_i.len()
                invariant
                    ms_i@ == members@[idx as int]@,
                    forall|jj: int| 0 <= jj < ms_i@.len() ==> (#[trigger] ms_i@[jj]) < names@.len(),
                    nm == string_views(names@),
                    string_views(apps@) == member_names(nm, ms_i@.take(j as int)),
            {
                let ghost before = apps@;
                let m = ms_i[j];
                apps.push(names[m].clone());
                proof {
                    assert(apps@ == before.push(names@[m as int]));
                    assert(nm[m as int] == names@[m as int]@);
                    assert(ms_i@.take(j + 1) =~= ms_i@.take(j as int).push(m));
                    assert(member_names(nm, ms_i@.take(j + 1)) =~= member_names(nm, ms_i@.take(j as int)).push(nm[m as int]));
                    assert(string_views(apps@) =~= string_views(before).push(names@[m as int]@));
                }
            }
            assert(ms_i@.take(ms_i@.len() as int) =~= ms_i@);
            let sorted = sort_names(&apps);
            proof {
                assert(idx % 256 < 256);
                assert(level_of(base, idx as int) <= 255);
            }
            let level: u8 = base + ((idx % 256) as u8);
            pending.push(ApplicationCluster { priority_level: level, applications: sorted, centroid: c });
            keys.push(level);
            proof {
                assert(nonempty_indices(cur) =~= nonempty_indices(pre).push(idx as int));
                assert(keys@ =~= nonempty_indices(cur).map_values(|i: int| level_of(base, i) as u8));
            }
        } else {
            proof {
                assert(nonempty_indices(cur) =~= nonempty_indices(pre));
            }
        }
    }
    assert(ms.take(n as int) =~= ms);
    let order = stable_key_order(&keys);
    proof {
        lemma_stable_order_distinct(keys@, order@);
    }
    let res = permute(pending, &order);
    proof {
        assert(keys@ == cluster_keys(ms, base));
        assert(is_stable_order(cluster_keys(ms, base), order@));
    }
    res
}

/// The sorted union of two lists of priority levels.
pub fn merge_levels(a: &Vec<u8>, b: &Vec<u8>) -> (res: Vec<u8>)
    ensures
        res@.to_multiset() == (a@ + b@).to_multiset(),
        forall|i: int, j: int| 0 <= i < j < res@.len() ==> #[trigger] res@[i] <= #[trigger] res@[j],
{
    let mut all: Vec<u8> = Vec::new();
    for i in 0..a.len()
        invariant
            all@ == a@.take(i as int),
    {
        all.push(a[i]);
        assert(all@ =~= a@.take(i + 1));
    }
    for i in 0..b.len()
        invariant
            all@ == a@ + b@.take(i as int),
    {
        all.push(b[i]);
        assert(all@ =~= a@ + b@.take(i + 1));
    }
    assert(b@.take(b@.len() as int) =~= b@);
    assert(a@.take(a@.len() as int) =~= a@);
    sort_levels(&all)
}

/// The priority levels of each group.
pub open spec fn group_levels<C>(ws: Seq<(Vec<u8>, C)>) -> Seq<Seq<u8>> {
    ws.map_values(|w: (Vec<u8>, C)| w.0@)
}

/// Merges groups `a` and `b` (`a < b`): both leave their places and the group of their
/// levels, in increasing order, with centroid `merged`, comes last. Every priority level
/// stays in the groups as often as before.
pub fn merge_groups<C>(work: &mut Vec<(Vec<u8>, C)>, a: usize, b: usize, merged: C)
    requires
        a < b < old(work)@.len(),
    ensures
        final(work)@.len() == old(work)@.len() - 1,
        final(work)@.drop_last() == old(work)@.remove(b as int).remove(a as int),
        final(work)@.last().0@.to_multiset() == (old(work)@[a as int].0@ + old(work)@[b as int].0@).to_multiset(),
        forall|i: int, j: int|
            0 <= i < j < final(work)@.last().0@.len() ==> #[trigger] final(work)@.last().0@[i]
                <= #[trigger] final(work)@.last().0@[j],
        final(work)@.last().1 == merged,
        forall|v: u8| #[trigger] total_count(group_levels(final(work)@), v) == total_count(
            group_levels(old(work)@),
            v,
        ),
{
    let ghost w0 = work@;
    let right = work.remove(b);
    let left = work.remove(a);
    let ghost w2 = work@;
    let levels = merge_levels(&left.0, &right.0);
    work.push((levels, merged));
    proof {
        broadcast use vstd::multiset::group_multiset_axioms;

        let s0 = group_levels(w0);
        let s1 = group_levels(w0.remove(b as int));
        let s2 = group_levels(w2);
        assert(s1 =~= s0.remove(b as int));
        assert(s2 =~= s1.remove(a as int));
        assert(s1[a as int] == s0[a as int]);
        assert(work@.drop_last() =~= w2);
        assert(group_levels(work@).drop_last() =~= s2);
        vstd::seq_lib::lemma_multiset_commutative(s0[a as int], s0[b as int]);
        assert forall|v: u8| #[trigger] total_count(group_levels(work@), v) == total_count(s0, v) by {
            lemma_total_count_remove(s0, b as int, v);
            lemma_total_count_remove(s1, a as int, v);
        }
    }
}

/// The first priority level of each list.
pub open spec fn first_levels(levels: Seq<Vec<u8>>) -> Seq<u8> {
    levels.map_values(|l: Vec<u8>| l@[0])
}

/// Queues numbered from 0, ordered by their first priority level (stable on ties); queue
/// `t` serves the levels and has the centroid of the group that comes `t`-th.
pub fn assign_queues<C>(levels: Vec<Vec<u8>>, centroids: Vec<C>) -> (res: Vec<QueueAssignment<C>>)
    requires
        levels@.len() == centroids@.len(),
        forall|i: int| 0 <= i < levels@.len() ==> (#[trigger] levels@[i])@.len() > 0,
    ensures
        res@.len() == levels@.len(),
        exists|order: Seq<usize>|
            #[trigger] is_stable_order(first_levels(levels@), order) && forall|t: int|
                0 <= t < res@.len() ==> {
                    &&& (#[trigger] res@[t]).queue_index == t
                    &&& res@[t].priority_levels == levels@[order[t] as int]
                    &&& res@[t].centroid == centroids@[order[t] as int]
                },
{
    let n = levels.len();
    let mut keys: Vec<u8> = Vec::new();
    for i in 0..n
        invariant
            n == levels@.len(),
            forall|j: int| 0 <= j < levels@.len() ==> (#[trigger] levels@[j])@.len() > 0,
            keys@ == first_levels(levels@).take(i as int),
    {
        keys.push(levels[i][0]);
        assert(keys@ =~= first_levels(levels@).take(i + 1));
    }
    assert(first_levels(levels@).take(n as int) =~= first_levels(levels@));
    let ghost lv = levels@;
    let ghost cv = centroids@;
    let mut pairs: Vec<(Vec<u8>, C)> = Vec::new();
    let mut ls = levels;
    let mut cs = centroids;
    while ls.len() > 0
        invariant
            ls@.len() == cs@.len(),
            pairs@.len() + ls@.len() == n,
            lv.len() == n,
            cv.len() == n,
            forall|j: int| 0 <= j < pairs@.len() ==> #[trigger] pairs@[j] == (lv[j], cv[j]),
            forall|j: int| 0 <= j < ls@.len() ==> #[trigger] ls@[j] == lv[pairs@.len() + j],
            forall|j: int| 0 <= j < cs@.len() ==> #[trigger] cs@[j] == cv[pairs@.len() + j],
        decreases ls@.len(),
    {
        let l = ls.remove(0);
        let c = cs.remove(0);
        pairs.push((l, c));
    }
    let order = stable_key_order(&keys);
    proof {
        lemma_stable_order_distinct(keys@, order@);
    }
    let arranged = permute(pairs, &order);
    let mut rest = arranged;
    let mut res: Vec<QueueAssignment<C>> = Vec::new();
    let mut t: usize = 0;
    while rest.len() > 0
        invariant
            res@.len() == t,
            t + rest@.len() == n,
            lv.len() == n,
            cv.len() == n,
            order@.len() == n,
            forall|p: int| 0 <= p < t ==> {
                &&& (#[trigger] res@[p]).queue_index == p
                &&& res@[p].priority_levels == lv[order@[p] as int]
                &&& res@[p].centroid == cv[order@[p] as int]
            },
            forall|p: int| 0 <= p < rest@.len() ==> #[trigger] rest@[p] == (
                lv[order@[t + p] as int],
                cv[order@[t + p] as int],
            ),
        decreases rest@.len(),
    {
        let (l, c) = rest.remove(0);
        res.push(QueueAssignment { queue_index: t, priority_levels: l, centroid: c });
        t = t + 1;
    }
    assert(is_stable_order(first_levels(lv), order@));
    res
}

} // verus!
