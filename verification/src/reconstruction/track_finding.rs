//! The search for track candidates among the hits of one event.
//!
//! One candidate at a time is pulled out of the accumulator: the voters of
//! the most popular bin, trimmed to the largest group that hangs together.
//! Taking a candidate out changes which bin is the most popular, so the search
//! climbs: it keeps trying as long as the next candidate is larger than the
//! last.

use vstd::prelude::*;
use crate::reconstruction::accumulator::{
    ballots_of, lemma_distinct_bounded, lemma_last_step, lemma_push_fresh, AccumulatorState,
    HoughSpaceAccumulator,
};
use crate::reconstruction::connectivity::{
    hangs_together, largest_cluster, largest_component, lemma_component_drawn,
    lemma_component_hangs_together,
};
use crate::reconstruction::hough::{sectors_fit, HoughBin, RhoSample};
use crate::reconstruction::proximity::Proximity;

verus! {

/// The candidate that the accumulator offers in `state`: the largest group
/// among the voters of its most popular bin.
pub open spec fn candidate(state: AccumulatorState, prox: Proximity) -> Seq<usize> {
    largest_component(state.most_popular(), prox)
}

/// Where the climb ends that starts in `state` with `prev` taken out before:
/// the cluster found, and the state it leaves behind.
///
/// While the candidate is larger than `prev`, it is taken out of the
/// accumulator, `prev` is put back, and the climb goes on from there. The
/// first candidate that is no larger is dropped, and `prev` is the answer.
pub open spec fn best_from(state: AccumulatorState, prox: Proximity, prev: Seq<usize>) -> (
    Seq<usize>,
    AccumulatorState,
)
    decreases state.ballots.len() - prev.len(),
    when state.wf()
{
    let found = candidate(state, prox);
    if prev.len() < found.len() {
        proof {
            lemma_candidate(state, prox);
            state.lemma_exchange(found, prev);
        }
        best_from(state.exchange(found, prev), prox, found)
    } else {
        (prev, state)
    }
}

/// A candidate consists of present hits, each listed once, so it is no
/// longer than the list of hits that the accumulator knows.
pub proof fn lemma_candidate(state: AccumulatorState, prox: Proximity)
    requires
        state.wf(),
    ensures
        candidate(state, prox).no_duplicates(),
        forall|q: usize| #[trigger] candidate(state, prox).contains(q) ==> state.holds(q),
        candidate(state, prox).len() <= state.ballots.len(),
{
    let found = candidate(state, prox);
    state.lemma_popular();
    lemma_component_drawn(state.most_popular(), prox);
    assert forall|i: int| 0 <= i < found.len()
        implies #[trigger] found[i] < state.ballots.len() by {
        assert(found.contains(found[i]));
        assert(state.most_popular().contains(found[i]));
    }
    lemma_distinct_bounded(found, state.ballots.len());
}

/// What a climb does to the accumulator: the cluster it finds consists of
/// hits that were present or had been taken out before, each listed once, and
/// afterwards exactly the other such hits are present.
pub proof fn lemma_best_from(state: AccumulatorState, prox: Proximity, prev: Seq<usize>)
    requires
        state.wf(),
        prev.no_duplicates(),
        forall|q: usize| #[trigger] prev.contains(q) ==> q < state.ballots.len() && !state.holds(q),
    ensures
        best_from(state, prox, prev).1.wf(),
        best_from(state, prox, prev).1.ballots == state.ballots,
        best_from(state, prox, prev).0.no_duplicates(),
        best_from(state, prox, prev).0.len() >= prev.len(),
        forall|q: usize| #[trigger]
            best_from(state, prox, prev).0.contains(q)
                ==> q < state.ballots.len() && (state.holds(q)
                || prev.contains(q)),
        forall|q: usize| #[trigger]
            best_from(state, prox, prev).1.holds(q) <==> (state.holds(q) || prev.contains(q))
                && !best_from(state, prox, prev).0.contains(q),
    decreases state.ballots.len() - prev.len(),
{
    let found = candidate(state, prox);
    lemma_candidate(state, prox);
    if prev.len() < found.len() {
        let next = state.exchange(found, prev);
        state.lemma_exchange(found, prev);
        lemma_best_from(next, prox, found);
    }
}

/// Removes each hit of `points` from the accumulator, first to last.
pub fn remove_all(acc: &mut HoughSpaceAccumulator, points: &Vec<usize>)
    requires
        old(acc).wf(),
    ensures
        final(acc).wf(),
        final(acc)@ == old(acc)@.remove_each(points@),
{
    let ghost before = acc@;
    let mut i: usize = 0;
    while i < points.len()
        invariant
            i <= points@.len(),
            acc.wf(),
            acc@ == before.remove_each(points@.take(i as int)),
        decreases points@.len() - i,
    {
        proof {
            assert(points@.take(i + 1).drop_last() == points@.take(i as int));
        }
        acc.remove(points[i]);
        i = i + 1;
    }
    proof {
        assert(points@.take(points@.len() as int) == points@);
    }
}

/// Adds each hit of `points` to the accumulator, first to last.
pub fn add_all(acc: &mut HoughSpaceAccumulator, points: &Vec<usize>)
    requires
        old(acc).wf(),
    ensures
        final(acc).wf(),
        final(acc)@ == old(acc)@.add_each(points@),
{
    let ghost before = acc@;
    let mut i: usize = 0;
    while i < points.len()
        invariant
            i <= points@.len(),
            acc.wf(),
            acc@ == before.add_each(points@.take(i as int)),
        decreases points@.len() - i,
    {
        proof {
            assert(points@.take(i + 1).drop_last() == points@.take(i as int));
        }
        acc.add(points[i]);
        i = i + 1;
    }
    proof {
        assert(points@.take(points@.len() as int) == points@);
    }
}

/// Pulls the best cluster out of the accumulator: the largest group of hits
/// that share the most popular bin and hang together under `prox`, found by
/// climbing from candidate to larger candidate. On return the hits of the
/// cluster are no longer present; every other hit is as it was.
pub fn best_cluster(acc: &mut HoughSpaceAccumulator, prox: &Proximity) -> (cluster: Vec<usize>)
    requires
        old(acc).wf(),
        prox.wf(),
    ensures
        final(acc).wf(),
        (cluster@, final(acc)@) == best_from(old(acc)@, *prox, Seq::empty()),
        is_track_candidate(old(acc)@.ballots, *prox, cluster@),
        cluster@.no_duplicates(),
        forall|q: usize| #[trigger] cluster@.contains(q) ==> old(acc)@.holds(q),
        forall|q: usize| #[trigger]
            final(acc)@.holds(q) <==> old(acc)@.holds(q) && !cluster@.contains(q),
{
    let ghost start = acc@;
    let mut prev: Vec<usize> = Vec::new();
    proof {
        acc.lemma_wf();
        lemma_best_from(start, *prox, Seq::empty());
        lemma_nothing_is_track_candidate(start.ballots, *prox);
        lemma_best_is_track_candidate(start, *prox, Seq::empty());
    }
    loop
        invariant
            acc.wf(),
            prox.wf(),
            acc@.wf(),
            prev@.len() <= acc@.ballots.len(),
            best_from(acc@, *prox, prev@) == best_from(start, *prox, Seq::empty()),
        ensures
            acc.wf(),
            (prev@, acc@) == best_from(start, *prox, Seq::empty()),
        decreases acc@.ballots.len() - prev@.len(),
    {
        let popular = acc.most_popular();
        let best = largest_cluster(&popular, prox);
        proof {
            lemma_candidate(acc@, *prox);
        }
        if best.len() <= prev.len() {
            break;
        }
        let ghost state = acc@;
        remove_all(acc, &best);
        add_all(acc, &prev);
        proof {
            state.lemma_exchange(best@, prev@);
            acc.lemma_wf();
        }
        prev = best;
    }
    prev
}

/// The hits of one track candidate, each named by its index, in no
/// particular order. A cluster that is part of a result holds at least one
/// hit.
#[derive(Clone, Debug, PartialEq, Eq)]
pub struct Cluster(pub Vec<usize>);

impl View for Cluster {
    type V = Seq<usize>;

    open spec fn view(&self) -> Seq<usize> {
        self.0@
    }
}

/// The outcome of the search: the clusters in the order in which they were
/// found, none of them empty, and the hits that belong to none of them.
#[derive(Clone, Debug, PartialEq, Eq)]
pub struct ClusteringResult {
    pub clusters: Vec<Cluster>,
    pub remainder: Vec<usize>,
}

impl ClusteringResult {
    /// The clusters as lists of hits.
    pub open spec fn groups(&self) -> Seq<Seq<usize>> {
        Seq::new(self.clusters@.len(), |k: int| self.clusters@[k]@)
    }
}

/// The hits `0, 1, ..., n - 1`.
pub open spec fn everyone(n: nat) -> Seq<usize> {
    Seq::new(n, |p: int| p as usize)
}

/// The state of the accumulator once every hit has been added, in order.
pub open spec fn full_state(samples: Seq<Vec<RhoSample>>) -> AccumulatorState {
    AccumulatorState::vacant(ballots_of(samples)).add_each(everyone(samples.len()))
}

/// The clusters that the search yields from `state` when it may still keep
/// `budget` of them: the best cluster, then the clusters found in what it
/// leaves behind. The search ends with the first cluster that is empty or has
/// fewer than `min_points` hits, which is dropped: a cluster that is kept
/// is never empty, whatever the minimum.
pub open spec fn clusters_from(
    state: AccumulatorState,
    prox: Proximity,
    budget: nat,
    min_points: nat,
) -> Seq<Seq<usize>>
    decreases budget,
{
    if budget == 0 {
        Seq::empty()
    } else {
        let (cluster, next) = best_from(state, prox, Seq::empty());
        if cluster.len() == 0 || cluster.len() < min_points {
            Seq::empty()
        } else {
            seq![cluster] + clusters_from(next, prox, (budget - 1) as nat, min_points)
        }
    }
}

/// The clusters of an event. An event without hits has none, whatever the
/// limits are.
pub open spec fn clustering(
    samples: Seq<Vec<RhoSample>>,
    prox: Proximity,
    max_clusters: nat,
    min_points: nat,
) -> Seq<Seq<usize>> {
    if samples.len() == 0 {
        Seq::empty()
    } else {
        clusters_from(full_state(samples), prox, max_clusters, min_points)
    }
}

/// Whether hit `p` belongs to one of `groups`.
pub open spec fn in_any(groups: Seq<Seq<usize>>, p: usize) -> bool {
    exists|k: int| 0 <= k < groups.len() && #[trigger] groups[k].contains(p)
}

/// The hits below `upto` that belong to none of `groups`, in increasing
/// order.
pub open spec fn left_over(groups: Seq<Seq<usize>>, upto: nat) -> Seq<usize>
    decreases upto,
{
    if upto == 0 {
        Seq::empty()
    } else if in_any(groups, (upto - 1) as usize) {
        left_over(groups, (upto - 1) as nat)
    } else {
        left_over(groups, (upto - 1) as nat).push((upto - 1) as usize)
    }
}

/// Whether `groups` and `rest` share out the hits `0, ..., n - 1`: every one
/// of them stands exactly once in exactly one of the lists, and nothing else
/// stands in any.
pub open spec fn partitions(groups: Seq<Seq<usize>>, rest: Seq<usize>, n: nat) -> bool {
    &&& disjoint_groups(groups)
    &&& forall|x: usize| in_any(groups, x) ==> x < n
    &&& rest.no_duplicates()
    &&& forall|x: usize| #[trigger] rest.contains(x) <==> x < n && !in_any(groups, x)
}

/// What `left_over` lists.
pub proof fn lemma_left_over(groups: Seq<Seq<usize>>, upto: nat)
    requires
        upto <= usize::MAX,
    ensures
        left_over(groups, upto).no_duplicates(),
        forall|x: usize| #[trigger]
            left_over(groups, upto).contains(x) <==> x < upto && !in_any(groups, x),
    decreases upto,
{
    if upto > 0 {
        let shorter = left_over(groups, (upto - 1) as nat);
        lemma_left_over(groups, (upto - 1) as nat);
        let last = (upto - 1) as usize;
        if !in_any(groups, last) {
            let longer = shorter.push(last);
            assert(!shorter.contains(last));
            lemma_push_fresh(shorter, last);
        }
    }
}

fn mark(taken: &mut Vec<bool>, cluster: &Vec<usize>)
    requires
        forall|i: int| 0 <= i < cluster@.len() ==> #[trigger] cluster@[i] < old(taken)@.len(),
    ensures
        final(taken)@.len() == old(taken)@.len(),
        forall|p: usize|
            p < old(taken)@.len() ==> (#[trigger] final(taken)@[p as int] <==> old(taken)@[p as int]
                || cluster@.contains(p)),
{
    let ghost before = taken@;
    let mut i: usize = 0;
    while i < cluster.len()
        invariant
            i <= cluster@.len(),
            taken@.len() == before.len(),
            forall|k: int| 0 <= k < cluster@.len() ==> #[trigger] cluster@[k] < before.len(),
            forall|p: usize|
                p < before.len() ==> (#[trigger] taken@[p as int] <==> before[p as int]
                    || cluster@.take(i as int).contains(p)),
        decreases cluster@.len() - i,
    {
        let hit = cluster[i];
        let ghost prior = taken@;
        taken[hit] = true;
        proof {
            assert forall|p: usize| p < before.len() implies (#[trigger] taken@[p as int]
                <==> before[p as int] || cluster@.take(i + 1).contains(p)) by {
                assert(cluster@.take(i + 1).drop_last() == cluster@.take(i as int));
                lemma_last_step(cluster@.take(i + 1), p);
                assert(prior[p as int]
                    <==> before[p as int] || cluster@.take(i as int).contains(p));
            }
        }
        i = i + 1;
    }
    proof {
        assert(cluster@.take(cluster@.len() as int) == cluster@);
    }
}

/// Groups the hits of one event into track candidates.
///
/// Hit `p` is described by `samples[p]`, the samples of its line in the Hough
/// space, and `prox` says which hits are near each other. At most
/// `max_num_clusters` clusters are found, one after another, each the best that
/// the hits not yet clustered offer; the search ends early with the first
/// cluster that is empty or has fewer than `min_num_points_per_cluster` hits,
/// which is not kept. No cluster of the result is empty, also when the
/// minimum is 0. The remainder lists the hits that are in no cluster, in
/// increasing order. An event without hits has no clusters.
pub fn cluster_spacepoints(
    samples: &Vec<Vec<RhoSample>>,
    prox: &Proximity,
    max_num_clusters: usize,
    min_num_points_per_cluster: usize,
) -> (result: ClusteringResult)
    requires
        prox.wf(),
        forall|p: int| 0 <= p < samples@.len() ==> sectors_fit((#[trigger] samples@[p])@),
    ensures
        is_clustering_of(
            result,
            samples@,
            *prox,
            max_num_clusters as nat,
            min_num_points_per_cluster as nat,
        ),
        result.clusters@.len() <= max_num_clusters,
        forall|k: int|
            0 <= k < result.clusters@.len() ==> (#[trigger] result.clusters@[k])@.len()
                >= min_num_points_per_cluster,
        forall|k: int|
            0 <= k < result.clusters@.len() ==> (#[trigger] result.clusters@[k])@.len() >= 1,
        forall|k: int|
            0 <= k < result.clusters@.len() ==> is_track_candidate(
                ballots_of(samples@),
                *prox,
                (#[trigger] result.clusters@[k])@,
            ),
        partitions(result.groups(), result.remainder@, samples@.len()),
        joined(result.groups()).to_multiset().add(result.remainder@.to_multiset()) == everyone(
            samples@.len(),
        ).to_multiset(),
        samples@.len() == 0 ==> result.clusters@.len() == 0 && result.remainder@.len() == 0,
{
    let n = samples.len();
    let mut clusters: Vec<Cluster> = Vec::new();
    let mut remainder: Vec<usize> = Vec::new();
    if n == 0 {
        let result = ClusteringResult { clusters, remainder };
        proof {
            assert(result.groups() =~= Seq::<Seq<usize>>::empty());
            assert forall|x: usize| !in_any(result.groups(), x) by {}
            lemma_partition_law(result.groups(), result.remainder@, 0);
        }
        return result;
    }
    let mut acc = HoughSpaceAccumulator::new(samples);
    let ghost vacant = acc@;
    let mut taken: Vec<bool> = Vec::new();
    let mut p: usize = 0;
    while p < n
        invariant
            n == samples@.len(),
            p <= n,
            acc.wf(),
            vacant == AccumulatorState::vacant(ballots_of(samples@)),
            acc@ == vacant.add_each(everyone(n as nat).take(p as int)),
            taken@.len() == p,
            forall|q: int| 0 <= q < p ==> !(#[trigger] taken@[q]),
        decreases n - p,
    {
        proof {
            assert(everyone(n as nat).take(p + 1).drop_last() == everyone(n as nat).take(p as int));
        }
        acc.add(p);
        taken.push(false);
        p = p + 1;
    }
    let ghost full = acc@;
    proof {
        assert(everyone(n as nat).take(n as int) == everyone(n as nat));
        assert(full == full_state(samples@));
        acc.lemma_wf();
        assert(vacant.wf()) by {
            assert forall|key: HoughBin| vacant.bin(key) =~= Seq::<usize>::empty() by {}
        }
        vacant.lemma_add_each(everyone(n as nat));
    }
    let ghost min_points = min_num_points_per_cluster as nat;
    let ghost target = clusters_from(full, *prox, max_num_clusters as nat, min_points);
    let ghost groups: Seq<Seq<usize>> = Seq::empty();
    while clusters.len() < max_num_clusters
        invariant_except_break
            acc.wf(),
            acc@.wf(),
            acc@.ballots.len() == n,
            groups + clusters_from(
                acc@,
                *prox,
                (max_num_clusters - clusters@.len()) as nat,
                min_points,
            ) == target,
            forall|x: usize| in_any(groups, x) ==> !acc@.holds(x),
        invariant
            prox.wf(),
            taken@.len() == n,
            min_points == min_num_points_per_cluster,
            clusters@.len() <= max_num_clusters,
            groups == Seq::new(clusters@.len(), |k: int| clusters@[k]@),
            forall|k: int| 0 <= k < groups.len() ==> (#[trigger] groups[k]).no_duplicates(),
            forall|k: int| 0 <= k < groups.len() ==> (#[trigger] groups[k]).len() >= min_points,
            forall|k: int| 0 <= k < groups.len() ==> (#[trigger] groups[k]).len() >= 1,
            forall|j: int, k: int, x: usize|
                0 <= j < k < groups.len()
                    ==> !(#[trigger] groups[j].contains(x) && #[trigger] groups[k].contains(x)),
            forall|x: usize| in_any(groups, x) ==> x < n,
            forall|q: usize| q < n ==> (#[trigger] taken@[q as int] <==> in_any(groups, q)),
        ensures
            clusters@.len() <= max_num_clusters,
            taken@.len() == n,
            groups == Seq::new(clusters@.len(), |k: int| clusters@[k]@),
            groups == target,
            forall|k: int| 0 <= k < groups.len() ==> (#[trigger] groups[k]).no_duplicates(),
            forall|k: int| 0 <= k < groups.len() ==> (#[trigger] groups[k]).len() >= min_points,
            forall|k: int| 0 <= k < groups.len() ==> (#[trigger] groups[k]).len() >= 1,
            forall|j: int, k: int, x: usize|
                0 <= j < k < groups.len()
                    ==> !(#[trigger] groups[j].contains(x) && #[trigger] groups[k].contains(x)),
            forall|x: usize| in_any(groups, x) ==> x < n,
            forall|q: usize| q < n ==> (#[trigger] taken@[q as int] <==> in_any(groups, q)),
        decreases max_num_clusters - clusters@.len(),
    {
        let ghost state = acc@;
        let ghost budget = (max_num_clusters - clusters@.len()) as nat;
        let cluster = best_cluster(&mut acc, prox);
        proof {
            lemma_best_from(state, *prox, Seq::empty());
            acc.lemma_wf();
            assert(best_from(state, *prox, Seq::empty()) == (cluster@, acc@));
        }
        if cluster.len() == 0 || cluster.len() < min_num_points_per_cluster {
            proof {
                assert(clusters_from(state, *prox, budget, min_points)
                    == Seq::<Seq<usize>>::empty());
                assert(groups + Seq::<Seq<usize>>::empty() == groups);
            }
            break;
        }
        proof {
            assert forall|i: int| 0 <= i < cluster@.len() implies #[trigger] cluster@[i] < n by {
                assert(cluster@.contains(cluster@[i]));
            }
        }
        let ghost marks = taken@;
        mark(&mut taken, &cluster);
        let ghost found = cluster@;
        clusters.push(Cluster(cluster));
        proof {
            let longer = groups.push(found);
            assert(longer == Seq::new(clusters@.len(), |k: int| clusters@[k]@));
            assert(clusters_from(state, *prox, budget, min_points) == seq![found] + clusters_from(
                acc@,
                *prox,
                (budget - 1) as nat,
                min_points,
            ));
            assert(longer + clusters_from(acc@, *prox, (budget - 1) as nat, min_points)
                == groups + (
            seq![found] + clusters_from(acc@, *prox, (budget - 1) as nat, min_points)));
            lemma_one_more_group(groups, found);
            assert forall|j: int, k: int, x: usize| 0 <= j < k < longer.len() implies !(
            #[trigger] longer[j].contains(x) && #[trigger] longer[k].contains(x)) by {
                if k == groups.len() && longer[j].contains(x) {
                    assert(groups[j].contains(x));
                    assert(in_any(groups, x));
                    assert(!state.holds(x));
                }
            }
            assert forall|x: usize| in_any(longer, x) implies x < n && !acc@.holds(x) by {
                if in_any(groups, x) {
                    assert(!state.holds(x));
                }
            }
            assert forall|q: usize| q < n implies (#[trigger] taken@[q as int] <==> in_any(
                longer,
                q,
            )) by {
                assert(marks[q as int] <==> in_any(groups, q));
            }
            groups = longer;
        }
    }
    let mut q: usize = 0;
    while q < n
        invariant
            q <= n,
            taken@.len() == n,
            forall|k: usize| k < n ==> (#[trigger] taken@[k as int] <==> in_any(groups, k)),
            remainder@ == left_over(groups, q as nat),
        decreases n - q,
    {
        if !taken[q] {
            remainder.push(q);
        }
        q = q + 1;
    }
    let result = ClusteringResult { clusters, remainder };
    proof {
        assert(result.groups() == groups);
        lemma_left_over(groups, n as nat);
        lemma_partition_law(groups, result.remainder@, n as nat);
        lemma_clusters_are_track_candidates(
            full,
            *prox,
            max_num_clusters as nat,
            min_num_points_per_cluster as nat,
        );
        assert forall|k: int| 0 <= k < result.clusters@.len() implies is_track_candidate(
            ballots_of(samples@),
            *prox,
            (#[trigger] result.clusters@[k])@,
        ) by {
            assert(groups[k] == result.clusters@[k]@);
        }
        assert forall|k: int| 0 <= k < result.clusters@.len()
            implies (#[trigger] result.clusters@[k])@.len() >= min_num_points_per_cluster
            && result.clusters@[k]@.len() >= 1 by {
            assert(groups[k] == result.clusters@[k]@);
        }
    }
    result
}

/// The hits of all the groups, group after group.
pub open spec fn joined(groups: Seq<Seq<usize>>) -> Seq<usize>
    decreases groups.len(),
{
    if groups.len() == 0 {
        Seq::empty()
    } else {
        joined(groups.drop_last()) + groups.last()
    }
}

/// What two lists hold when one is put after the other: the hits of both,
/// and none twice when neither holds a hit twice and they share none.
pub proof fn lemma_concat(a: Seq<usize>, b: Seq<usize>)
    ensures
        forall|x: usize| #[trigger] (a + b).contains(x) <==> a.contains(x) || b.contains(x),
        a.no_duplicates() && b.no_duplicates() && (forall|x: usize|
            !(#[trigger] a.contains(x) && b.contains(x))) ==> (a + b).no_duplicates(),
{
    let all = a + b;
    assert forall|x: usize| #[trigger] all.contains(x) <==> a.contains(x) || b.contains(x) by {
        if all.contains(x) {
            let i = choose|i: int| 0 <= i < all.len() && all[i] == x;
            if i < a.len() {
                assert(a[i] == x);
            } else {
                assert(b[i - a.len()] == x);
            }
        }
        if a.contains(x) {
            let i = choose|i: int| 0 <= i < a.len() && a[i] == x;
            assert(all[i] == x);
        }
        if b.contains(x) {
            let i = choose|i: int| 0 <= i < b.len() && b[i] == x;
            assert(all[a.len() + i] == x);
        }
    }
    if a.no_duplicates() && b.no_duplicates() && (forall|x: usize|
        !(#[trigger] a.contains(x) && b.contains(x))) {
        assert forall|i: int, j: int| 0 <= i < all.len() && 0 <= j < all.len() && i != j
            implies all[i] != all[j] by {
            if i < a.len() && j >= a.len() {
                assert(a.contains(a[i]));
                assert(b.contains(b[j - a.len()]));
            } else if j < a.len() && i >= a.len() {
                assert(a.contains(a[j]));
                assert(b.contains(b[i - a.len()]));
            } else if i >= a.len() {
                assert(b[i - a.len()] != b[j - a.len()]);
            }
        }
    }
}

/// With one more group, a hit belongs to a group when it did before or
/// belongs to the new one.
pub proof fn lemma_one_more_group(groups: Seq<Seq<usize>>, last: Seq<usize>)
    ensures
        forall|x: usize| #[trigger]
            in_any(groups.push(last), x) <==> in_any(groups, x) || last.contains(x),
{
    let longer = groups.push(last);
    assert forall|x: usize| in_any(longer, x) <==> in_any(groups, x) || last.contains(x) by {
        if in_any(longer, x) {
            let k = choose|k: int| 0 <= k < longer.len() && #[trigger] longer[k].contains(x);
            if k < groups.len() {
                assert(groups[k].contains(x));
            }
        }
        if in_any(groups, x) {
            let k = choose|k: int| 0 <= k < groups.len() && #[trigger] groups[k].contains(x);
            assert(longer[k].contains(x));
        }
        if last.contains(x) {
            assert(longer[groups.len() as int].contains(x));
        }
    }
}

/// Whether no group holds a hit twice and no two groups share a hit.
pub open spec fn disjoint_groups(groups: Seq<Seq<usize>>) -> bool {
    &&& forall|k: int| 0 <= k < groups.len() ==> (#[trigger] groups[k]).no_duplicates()
    &&& forall|j: int, k: int, x: usize|
        0 <= j < k < groups.len() ==> !(#[trigger] groups[j].contains(x)
            && #[trigger] groups[k].contains(x))
}

/// The joined list holds exactly the hits of the groups, and none twice when
/// no group holds a hit twice and no two groups share one.
pub proof fn lemma_joined(groups: Seq<Seq<usize>>)
    ensures
        forall|x: usize| #[trigger] joined(groups).contains(x) <==> in_any(groups, x),
        disjoint_groups(groups) ==> joined(groups).no_duplicates(),
    decreases groups.len(),
{
    if groups.len() > 0 {
        let front = groups.drop_last();
        let last = groups.last();
        lemma_joined(front);
        lemma_concat(joined(front), last);
        assert(groups == front.push(last));
        lemma_one_more_group(front, last);
        if disjoint_groups(groups) {
            assert(disjoint_groups(front)) by {
                assert forall|k: int| 0 <= k < front.len()
                    implies (#[trigger] front[k]).no_duplicates() by {
                    assert(groups[k].no_duplicates());
                }
                assert forall|j: int, k: int, x: usize| 0 <= j < k < front.len() implies !(
                #[trigger] front[j].contains(x) && #[trigger] front[k].contains(x)) by {
                    assert(!(groups[j].contains(x) && groups[k].contains(x)));
                }
            }
            assert(last.no_duplicates());
            assert forall|x: usize| !(#[trigger] joined(front).contains(x) && last.contains(x)) by {
                if joined(front).contains(x) && last.contains(x) {
                    let k = choose|k: int| 0 <= k < front.len() && #[trigger] front[k].contains(x);
                    assert(groups[k].contains(x));
                    assert(groups[groups.len() - 1].contains(x));
                }
            }
        }
    }
}

/// Two lists without repeats that hold the same hits hold them equally often.
proof fn lemma_same_hits_same_multiset(a: Seq<usize>, b: Seq<usize>)
    requires
        a.no_duplicates(),
        b.no_duplicates(),
        forall|x: usize| a.contains(x) <==> b.contains(x),
    ensures
        a.to_multiset() == b.to_multiset(),
{
    a.lemma_multiset_has_no_duplicates();
    b.lemma_multiset_has_no_duplicates();
    assert forall|x: usize| a.to_multiset().count(x) == b.to_multiset().count(x) by {
        vstd::seq_lib::to_multiset_contains(a, x);
        vstd::seq_lib::to_multiset_contains(b, x);
        assert(a.contains(x) <==> b.contains(x));
    }
    assert(a.to_multiset() =~= b.to_multiset());
}

/// The partition law: the hits of all the clusters together with the
/// remainder are the hits of the event, each exactly as often as it came in.
/// Nothing is lost and nothing is counted twice.
pub proof fn lemma_partition_law(groups: Seq<Seq<usize>>, rest: Seq<usize>, n: nat)
    requires
        partitions(groups, rest, n),
        n <= usize::MAX,
    ensures
        joined(groups).to_multiset().add(rest.to_multiset()) == everyone(n).to_multiset(),
        joined(groups).len() + rest.len() == n,
{
    let head = joined(groups);
    let all = head + rest;
    let every = everyone(n);
    lemma_joined(groups);
    lemma_concat(head, rest);
    assert forall|x: usize| all.contains(x) <==> every.contains(x) by {
        if every.contains(x) {
            let i = choose|i: int| 0 <= i < every.len() && every[i] == x;
            assert(x < n);
        }
        if x < n {
            assert(every[x as int] == x);
        }
    }
    assert(every.no_duplicates());
    lemma_same_hits_same_multiset(all, every);
    vstd::seq_lib::lemma_multiset_commutative(head, rest);
    vstd::seq_lib::to_multiset_len(all);
    vstd::seq_lib::to_multiset_len(every);
}

/// Whether `result` is what the search yields for the given event and
/// limits.
pub open spec fn is_clustering_of(
    result: ClusteringResult,
    samples: Seq<Vec<RhoSample>>,
    prox: Proximity,
    max_clusters: nat,
    min_points: nat,
) -> bool {
    &&& result.groups() == clustering(samples, prox, max_clusters, min_points)
    &&& result.remainder@ == left_over(result.groups(), samples.len())
}

/// Determinism: the event and the limits fix the clusters and the remainder.
/// Two searches on the same input yield the same clusters, with the same hits
/// in the same order.
pub proof fn lemma_deterministic(
    first: ClusteringResult,
    second: ClusteringResult,
    samples: Seq<Vec<RhoSample>>,
    prox: Proximity,
    max_clusters: nat,
    min_points: nat,
)
    requires
        is_clustering_of(first, samples, prox, max_clusters, min_points),
        is_clustering_of(second, samples, prox, max_clusters, min_points),
    ensures
        first.groups() == second.groups(),
        first.remainder@ == second.remainder@,
{
}

/// Whether every hit of `group` has `key` on its ballot.
pub open spec fn all_vote_for(
    ballots: Seq<Set<HoughBin>>,
    group: Seq<usize>,
    key: HoughBin,
) -> bool {
    forall|i: int|
        0 <= i < group.len() ==> #[trigger] group[i] < ballots.len()
            && ballots[group[i] as int].contains(key)
}

/// Whether the hits of `group` vote for a common bin.
pub open spec fn shares_bin(ballots: Seq<Set<HoughBin>>, group: Seq<usize>) -> bool {
    exists|key: HoughBin| #[trigger] all_vote_for(ballots, group, key)
}

/// Whether `group` can be the trace of one track: its hits vote for a common
/// line, and they hang together.
pub open spec fn is_track_candidate(
    ballots: Seq<Set<HoughBin>>,
    prox: Proximity,
    group: Seq<usize>,
) -> bool {
    shares_bin(ballots, group) && hangs_together(group, prox)
}

/// A group without hits can be the trace of one track: nothing in it votes
/// otherwise or hangs loose.
pub proof fn lemma_nothing_is_track_candidate(ballots: Seq<Set<HoughBin>>, prox: Proximity)
    ensures
        is_track_candidate(ballots, prox, Seq::empty()),
{
    assert(all_vote_for(ballots, Seq::empty(), HoughBin { theta: 0, rho: 0 }));
}

/// What the accumulator offers can be the trace of one track.
pub proof fn lemma_candidate_is_track_candidate(state: AccumulatorState, prox: Proximity)
    requires
        state.wf(),
    ensures
        is_track_candidate(state.ballots, prox, candidate(state, prox)),
{
    let found = candidate(state, prox);
    lemma_component_hangs_together(state.most_popular(), prox);
    lemma_component_drawn(state.most_popular(), prox);
    if exists|key: HoughBin| state.tops(key) {
        let key = choose|key: HoughBin| state.tops(key);
        assert forall|i: int| 0 <= i < found.len() implies #[trigger] found[i] < state.ballots.len()
            && state.ballots[found[i] as int].contains(key) by {
            assert(found.contains(found[i]));
            assert(state.bin(key).contains(found[i]));
        }
        assert(all_vote_for(state.ballots, found, key));
    } else {
        assert(all_vote_for(state.ballots, found, HoughBin { theta: 0, rho: 0 }));
    }
}

/// The cluster in which a climb ends can be the trace of one track, if what
/// had been taken out before could.
pub proof fn lemma_best_is_track_candidate(
    state: AccumulatorState,
    prox: Proximity,
    prev: Seq<usize>,
)
    requires
        state.wf(),
        is_track_candidate(state.ballots, prox, prev),
    ensures
        is_track_candidate(state.ballots, prox, best_from(state, prox, prev).0),
    decreases state.ballots.len() - prev.len(),
{
    let found = candidate(state, prox);
    lemma_candidate(state, prox);
    lemma_candidate_is_track_candidate(state, prox);
    if prev.len() < found.len() {
        state.lemma_exchange(found, prev);
        lemma_best_is_track_candidate(state.exchange(found, prev), prox, found);
    }
}

/// Every cluster that the search yields can be the trace of one track.
pub proof fn lemma_clusters_are_track_candidates(
    state: AccumulatorState,
    prox: Proximity,
    budget: nat,
    min_points: nat,
)
    requires
        state.wf(),
    ensures
        forall|k: int|
            0 <= k < clusters_from(state, prox, budget, min_points).len() ==> is_track_candidate(
                state.ballots,
                prox,
                #[trigger] clusters_from(state, prox, budget, min_points)[k],
            ),
    decreases budget,
{
    if budget > 0 {
        let none = Seq::<usize>::empty();
        let (cluster, next) = best_from(state, prox, none);
        lemma_nothing_is_track_candidate(state.ballots, prox);
        lemma_best_is_track_candidate(state, prox, none);
        lemma_best_from(state, prox, none);
        if cluster.len() > 0 && cluster.len() >= min_points {
            let rest = clusters_from(next, prox, (budget - 1) as nat, min_points);
            let all = clusters_from(state, prox, budget, min_points);
            lemma_clusters_are_track_candidates(next, prox, (budget - 1) as nat, min_points);
            assert(all == seq![cluster] + rest);
            assert forall|k: int| 0 <= k < all.len() implies is_track_candidate(
                state.ballots,
                prox,
                #[trigger] all[k],
            ) by {
                if k > 0 {
                    assert(all[k] == rest[k - 1]);
                }
            }
        }
    }
}

} // verus!
