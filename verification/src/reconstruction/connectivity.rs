//! The largest group of hits that hang together.
//!
//! A candidate list of hits is seen as a graph on the positions of the list:
//! two positions are linked when the hits they hold are near each other. The
//! filter returns the hits of the largest connected component.

use vstd::prelude::*;
use crate::reconstruction::proximity::Proximity;

verus! {

/// Whether positions `i` and `j` of `points` hold hits that are near each
/// other.
pub open spec fn linked(points: Seq<usize>, prox: Proximity, i: int, j: int) -> bool {
    &&& 0 <= i < points.len()
    &&& 0 <= j < points.len()
    &&& prox.near(points[i], points[j])
}

/// Whether `chain` is a walk through `points` in which every step joins two
/// linked positions.
pub open spec fn is_chain(points: Seq<usize>, prox: Proximity, chain: Seq<int>) -> bool {
    &&& chain.len() > 0
    &&& 0 <= chain[0] < points.len()
    &&& forall|k: int|
        0 <= k < chain.len() - 1 ==> linked(points, prox, #[trigger] chain[k], chain[k + 1])
}

/// Whether position `j` can be reached from position `i` by a chain of
/// links. Every position of the list is connected to itself.
pub open spec fn connected(points: Seq<usize>, prox: Proximity, i: int, j: int) -> bool {
    exists|chain: Seq<int>|
        #[trigger] is_chain(points, prox, chain) && chain.first() == i && chain.last() == j
}

/// The hits at the positions below `upto` that are connected to position `s`,
/// in the order of `points`.
pub open spec fn members(points: Seq<usize>, prox: Proximity, s: int, upto: int) -> Seq<usize>
    decreases upto,
{
    if upto <= 0 {
        Seq::empty()
    } else if connected(points, prox, s, upto - 1) {
        members(points, prox, s, upto - 1).push(points[upto - 1])
    } else {
        members(points, prox, s, upto - 1)
    }
}

/// The number of positions in the component of position `s`.
pub open spec fn component_size(points: Seq<usize>, prox: Proximity, s: int) -> nat {
    members(points, prox, s, points.len() as int).len()
}

/// Whether `s` is the first position of the largest component: no component
/// is larger than its own, and every position before it lies in a strictly
/// smaller one.
pub open spec fn leads_largest(points: Seq<usize>, prox: Proximity, s: int) -> bool {
    &&& 0 <= s < points.len()
    &&& forall|j: int|
        0 <= j < points.len() ==> #[trigger] component_size(points, prox, j) <= component_size(
            points,
            prox,
            s,
        )
    &&& forall|j: int|
        0 <= j < s ==> #[trigger] component_size(points, prox, j) < component_size(points, prox, s)
}

/// The hits of the largest component of `points`, in the order of `points`.
/// Among components of equal size the one that starts first is taken. An
/// empty list has no component.
pub open spec fn largest_component(points: Seq<usize>, prox: Proximity) -> Seq<usize> {
    if exists|s: int| leads_largest(points, prox, s) {
        members(points, prox, choose|s: int| leads_largest(points, prox, s), points.len() as int)
    } else {
        Seq::empty()
    }
}

/// How many entries of `labels` equal `v`.
pub open spec fn count_of(labels: Seq<usize>, v: usize) -> nat
    decreases labels.len(),
{
    if labels.len() == 0 {
        0
    } else {
        count_of(labels.drop_last(), v) + if labels.last() == v { 1nat } else { 0nat }
    }
}

/// Every position of a chain lies within `points`.
pub proof fn lemma_chain_in_range(points: Seq<usize>, prox: Proximity, chain: Seq<int>, k: int)
    requires
        is_chain(points, prox, chain),
        0 <= k < chain.len(),
    ensures
        0 <= chain[k] < points.len(),
{
    if k > 0 {
        assert(linked(points, prox, chain[k - 1], chain[k - 1 + 1]));
    }
}

/// Every position is connected to itself.
pub proof fn lemma_connected_self(points: Seq<usize>, prox: Proximity, i: int)
    requires
        0 <= i < points.len(),
    ensures
        connected(points, prox, i, i),
{
    let chain = seq![i];
    assert(is_chain(points, prox, chain));
}

/// A link at the end of a chain lengthens it.
pub proof fn lemma_connected_extend(points: Seq<usize>, prox: Proximity, i: int, j: int, k: int)
    requires
        connected(points, prox, i, j),
        linked(points, prox, j, k),
    ensures
        connected(points, prox, i, k),
{
    let chain = choose|chain: Seq<int>|
        #[trigger] is_chain(points, prox, chain) && chain.first() == i && chain.last() == j;
    let longer = chain.push(k);
    assert forall|m: int| 0 <= m < longer.len() - 1 implies linked(
        points,
        prox,
        #[trigger] longer[m],
        longer[m + 1],
    ) by {
        if m < chain.len() - 1 {
            assert(linked(points, prox, chain[m], chain[m + 1]));
        }
    }
    assert(is_chain(points, prox, longer));
}

/// Being connected does not depend on the direction of the walk.
pub proof fn lemma_connected_symmetric(points: Seq<usize>, prox: Proximity, i: int, j: int)
    requires
        connected(points, prox, i, j),
    ensures
        connected(points, prox, j, i),
{
    let chain = choose|chain: Seq<int>|
        #[trigger] is_chain(points, prox, chain) && chain.first() == i && chain.last() == j;
    let n = chain.len() as int;
    let back = Seq::new(chain.len(), |m: int| chain[n - 1 - m]);
    lemma_chain_in_range(points, prox, chain, n - 1);
    assert forall|m: int| 0 <= m < back.len() - 1 implies linked(
        points,
        prox,
        #[trigger] back[m],
        back[m + 1],
    ) by {
        let f = n - 2 - m;
        assert(linked(points, prox, chain[f], chain[f + 1]));
        prox.lemma_near_symmetric(points[chain[f]], points[chain[f + 1]]);
    }
    assert(is_chain(points, prox, back));
    assert(back.first() == j);
    assert(back.last() == i);
}

/// Two walks that meet make one walk.
pub proof fn lemma_connected_transitive(
    points: Seq<usize>,
    prox: Proximity,
    i: int,
    j: int,
    k: int,
)
    requires
        connected(points, prox, i, j),
        connected(points, prox, j, k),
    ensures
        connected(points, prox, i, k),
{
    let first = choose|chain: Seq<int>|
        #[trigger] is_chain(points, prox, chain) && chain.first() == i && chain.last() == j;
    let second = choose|chain: Seq<int>|
        #[trigger] is_chain(points, prox, chain) && chain.first() == j && chain.last() == k;
    let tail = second.drop_first();
    let whole = first + tail;
    assert forall|m: int| 0 <= m < whole.len() - 1 implies linked(
        points,
        prox,
        #[trigger] whole[m],
        whole[m + 1],
    ) by {
        if m < first.len() - 1 {
            assert(linked(points, prox, first[m], first[m + 1]));
        } else {
            let f = m - (first.len() - 1);
            assert(linked(points, prox, second[f], second[f + 1]));
            assert(whole[m + 1] == second[f + 1]);
            if m == first.len() - 1 {
                assert(whole[m] == first.last());
            } else {
                assert(whole[m] == second[f]);
            }
        }
    }
    assert(is_chain(points, prox, whole));
    assert(whole.first() == i);
    assert(whole.last() == k);
}

/// Connected positions see the same component.
pub proof fn lemma_same_component(points: Seq<usize>, prox: Proximity, i: int, j: int)
    requires
        connected(points, prox, i, j),
    ensures
        forall|k: int| connected(points, prox, i, k) == connected(points, prox, j, k),
{
    lemma_connected_symmetric(points, prox, i, j);
    assert forall|k: int| connected(points, prox, i, k) == connected(points, prox, j, k) by {
        if connected(points, prox, i, k) {
            lemma_connected_transitive(points, prox, j, i, k);
        }
        if connected(points, prox, j, k) {
            lemma_connected_transitive(points, prox, i, j, k);
        }
    }
}

/// Positions with the same component have the same members.
pub proof fn lemma_members_agree(points: Seq<usize>, prox: Proximity, i: int, j: int, upto: int)
    requires
        forall|k: int| connected(points, prox, i, k) == connected(points, prox, j, k),
    ensures
        members(points, prox, i, upto) == members(points, prox, j, upto),
    decreases upto,
{
    if upto > 0 {
        lemma_members_agree(points, prox, i, j, upto - 1);
    }
}

/// Connected positions lie in components of the same size.
pub proof fn lemma_connected_same_size(points: Seq<usize>, prox: Proximity, i: int, j: int)
    requires
        connected(points, prox, i, j),
    ensures
        component_size(points, prox, i) == component_size(points, prox, j),
{
    lemma_same_component(points, prox, i, j);
    lemma_members_agree(points, prox, i, j, points.len() as int);
}

/// At most one position leads the largest component.
pub proof fn lemma_leader_unique(points: Seq<usize>, prox: Proximity, s: int, t: int)
    requires
        leads_largest(points, prox, s),
        leads_largest(points, prox, t),
    ensures
        s == t,
{
    if s < t {
        assert(component_size(points, prox, s) < component_size(points, prox, t));
        assert(component_size(points, prox, t) <= component_size(points, prox, s));
    }
    if t < s {
        assert(component_size(points, prox, t) < component_size(points, prox, s));
        assert(component_size(points, prox, s) <= component_size(points, prox, t));
    }
}

/// The members of a component are hits of the list, taken in order: each one
/// stands at a connected position, and later members stand at later
/// positions.
pub proof fn lemma_members_positions(points: Seq<usize>, prox: Proximity, s: int, upto: int)
    requires
        0 <= upto <= points.len(),
    ensures
        members(points, prox, s, upto).len() <= upto,
        exists|at: Seq<int>| #[trigger]
            member_positions(points, prox, s, upto, at),
    decreases upto,
{
    if upto <= 0 {
        assert(member_positions(points, prox, s, upto, Seq::<int>::empty()));
    } else {
        lemma_members_positions(points, prox, s, upto - 1);
        let at = choose|at: Seq<int>| #[trigger] member_positions(points, prox, s, upto - 1, at);
        if connected(points, prox, s, upto - 1) {
            let longer = at.push(upto - 1);
            assert forall|j: int| 0 <= j < upto && #[trigger] connected(points, prox, s, j)
                implies longer.contains(j) by {
                if j < upto - 1 {
                    assert(at.contains(j));
                    let k = choose|k: int| 0 <= k < at.len() && at[k] == j;
                    assert(longer[k] == j);
                } else {
                    assert(longer[at.len() as int] == j);
                }
            }
            assert(member_positions(points, prox, s, upto, longer));
        } else {
            assert(member_positions(points, prox, s, upto, at));
        }
    }
}

/// Whether `at` lists, in increasing order, the positions below `upto` that
/// are connected to `s`, one for each member.
pub open spec fn member_positions(
    points: Seq<usize>,
    prox: Proximity,
    s: int,
    upto: int,
    at: Seq<int>,
) -> bool {
    let m = members(points, prox, s, upto);
    &&& at.len() == m.len()
    &&& forall|k: int|
        0 <= k < at.len() ==> 0 <= #[trigger] at[k] < upto && connected(points, prox, s, at[k])
            && m[k] == points[at[k]]
    &&& forall|k: int, l: int| 0 <= k < l < at.len() ==> at[k] < at[l]
    &&& forall|j: int| 0 <= j < upto && #[trigger] connected(points, prox, s, j) ==> at.contains(j)
}

/// Whether the labelling is sound as far as it goes. An entry equal to the
/// length of the list marks a position not yet reached; any other entry names
/// the first position of the component. A labelled position is connected to
/// the one it names, and whatever is linked to it bears the same label.
pub open spec fn settled(points: Seq<usize>, prox: Proximity, labels: Seq<usize>) -> bool {
    &&& labels.len() == points.len()
    &&& forall|j: int|
        0 <= j < labels.len() && #[trigger] labels[j] != points.len() ==> connected(
            points,
            prox,
            labels[j] as int,
            j,
        )
    &&& forall|a: int, b: int|
        0 <= a < labels.len() && labels[a] != points.len() && #[trigger] linked(points, prox, a, b)
            ==> labels[b] == labels[a]
}

/// A label that spreads along every link reaches the end of every chain that
/// starts under it.
proof fn lemma_label_follows_chain(
    points: Seq<usize>,
    prox: Proximity,
    labels: Seq<usize>,
    v: usize,
    chain: Seq<int>,
)
    requires
        is_chain(points, prox, chain),
        labels.len() == points.len(),
        labels[chain[0]] == v,
        forall|a: int, b: int|
            0 <= a < labels.len() && labels[a] == v && #[trigger] linked(points, prox, a, b)
                ==> labels[b] == v,
    ensures
        labels[chain.last()] == v,
    decreases chain.len(),
{
    if chain.len() > 1 {
        let shorter = chain.drop_last();
        assert forall|k: int| 0 <= k < shorter.len() - 1 implies linked(
            points,
            prox,
            #[trigger] shorter[k],
            shorter[k + 1],
        ) by {
            assert(linked(points, prox, chain[k], chain[k + 1]));
        }
        lemma_label_follows_chain(points, prox, labels, v, shorter);
        let m = chain.len() - 2;
        assert(linked(points, prox, chain[m], chain[m + 1]));
    }
}

proof fn lemma_count_bound(labels: Seq<usize>, v: usize)
    ensures
        count_of(labels, v) <= labels.len(),
    decreases labels.len(),
{
    if labels.len() > 0 {
        lemma_count_bound(labels.drop_last(), v);
    }
}

/// Relabelling one position moves one unit of count from the old label to
/// the new one.
proof fn lemma_count_update(labels: Seq<usize>, j: int, v: usize, w: usize)
    requires
        0 <= j < labels.len(),
    ensures
        count_of(labels.update(j, v), w) == count_of(labels, w) + (if v == w { 1int } else { 0int })
            - (if labels[j] == w { 1int } else { 0int }),
    decreases labels.len(),
{
    let changed = labels.update(j, v);
    if j == labels.len() - 1 {
        assert(changed.drop_last() == labels.drop_last());
    } else {
        lemma_count_update(labels.drop_last(), j, v, w);
        assert(changed.drop_last() == labels.drop_last().update(j, v));
    }
}

/// When exactly the positions connected to `s` bear the label `v`, the label
/// occurs as often as the component has members.
proof fn lemma_count_is_size(
    points: Seq<usize>,
    prox: Proximity,
    labels: Seq<usize>,
    v: usize,
    s: int,
    upto: int,
)
    requires
        labels.len() == points.len(),
        0 <= upto <= labels.len(),
        forall|j: int| 0 <= j < labels.len() ==> (#[trigger] labels[j] == v
            <==> connected(points, prox, s, j)),
    ensures
        count_of(labels.take(upto), v) == members(points, prox, s, upto).len(),
    decreases upto,
{
    if upto > 0 {
        lemma_count_is_size(points, prox, labels, v, s, upto - 1);
        assert(labels.take(upto).drop_last() == labels.take(upto - 1));
    }
}

/// Labels every position connected to `seed` with `seed`, and returns how
/// many there are.
fn flood(points: &Vec<usize>, prox: &Proximity, labels: &mut Vec<usize>, seed: usize) -> (size:
    usize)
    requires
        prox.wf(),
        settled(points@, *prox, old(labels)@),
        seed < points@.len(),
        old(labels)@[seed as int] == points@.len(),
        forall|j: int| 0 <= j < points@.len() ==> #[trigger] old(labels)@[j] != seed,
    ensures
        settled(points@, *prox, final(labels)@),
        forall|j: int|
            0 <= j < points@.len() && #[trigger] old(labels)@[j] != points@.len()
                ==> final(labels)@[j] == old(labels)@[j],
        forall|j: int|
            0 <= j < points@.len() ==> (#[trigger] final(labels)@[j] == seed <==> connected(
                points@,
                *prox,
                seed as int,
                j,
            )),
        forall|j: int|
            0 <= j < points@.len() && #[trigger] final(labels)@[j] != seed ==> final(labels)@[j]
                == old(labels)@[j],
        size == component_size(points@, *prox, seed as int),
        size >= 1,
{
    let n = points.len();
    let ghost before = labels@;
    let mut work: Vec<usize> = Vec::new();
    work.push(seed);
    labels[seed] = seed;
    proof {
        lemma_count_update(before, seed as int, seed, seed);
        lemma_count_update(before, seed as int, seed, n);
        lemma_count_bound(before, n);
        lemma_connected_self(points@, *prox, seed as int);
        assert(work@[0] == seed);
        lemma_count_zero(before, seed);
    }
    let mut i: usize = 0;
    while i < work.len()
        invariant
            prox.wf(),
            n == points@.len(),
            labels@.len() == n,
            seed < n,
            labels@[seed as int] == seed,
            settled(points@, *prox, before),
            forall|j: int| 0 <= j < n ==> #[trigger] before[j] != seed,
            forall|j: int| 0 <= j < n && #[trigger] labels@[j] != seed ==> labels@[j] == before[j],
            forall|j: int| 0 <= j < n && #[trigger] labels@[j] == seed ==> before[j] == n,
            i <= work@.len(),
            forall|k: int| 0 <= k < work@.len()
                ==> #[trigger] work@[k] < n && labels@[work@[k] as int] == seed,
            forall|j: int| 0 <= j < n && #[trigger] labels@[j] == seed
                ==> work@.contains(j as usize),
            forall|j: int| 0 <= j < n && #[trigger] labels@[j] == seed
                ==> connected(points@, *prox, seed as int, j),
            forall|k: int, b: int| 0 <= k < i
                && #[trigger] linked(points@, *prox, work@[k] as int, b) ==> labels@[b] == seed,
            work@.len() == count_of(labels@, seed),
            work@.len() + count_of(labels@, n) == count_of(before, n),
        decreases count_of(labels@, n) + work@.len() - i,
    {
        let a = work[i];
        let mut j: usize = 0;
        while j < n
            invariant
                prox.wf(),
                n == points@.len(),
                labels@.len() == n,
                seed < n,
                labels@[seed as int] == seed,
                settled(points@, *prox, before),
                forall|j: int| 0 <= j < n ==> #[trigger] before[j] != seed,
                forall|j: int| 0 <= j < n && #[trigger] labels@[j] != seed
                    ==> labels@[j] == before[j],
                forall|j: int| 0 <= j < n && #[trigger] labels@[j] == seed ==> before[j] == n,
                i < work@.len(),
                a == work@[i as int],
                j <= n,
                forall|k: int| 0 <= k < work@.len()
                    ==> #[trigger] work@[k] < n && labels@[work@[k] as int] == seed,
                forall|j: int| 0 <= j < n && #[trigger] labels@[j] == seed
                    ==> work@.contains(j as usize),
                forall|j: int| 0 <= j < n && #[trigger] labels@[j] == seed
                    ==> connected(points@, *prox, seed as int, j),
                forall|k: int, b: int| 0 <= k < i
                    && #[trigger] linked(points@, *prox, work@[k] as int, b) ==> labels@[b] == seed,
                forall|b: int| 0 <= b < j && #[trigger] linked(points@, *prox, a as int, b)
                    ==> labels@[b] == seed,
                work@.len() == count_of(labels@, seed),
                work@.len() + count_of(labels@, n) == count_of(before, n),
            decreases n - j,
        {
            if labels[j] == n && prox.is_near(points[a], points[j]) {
                proof {
                    lemma_count_update(labels@, j as int, seed, seed);
                    lemma_count_update(labels@, j as int, seed, n);
                    assert(linked(points@, *prox, a as int, j as int));
                    lemma_connected_extend(points@, *prox, seed as int, a as int, j as int);
                }
                let ghost old_work = work@;
                labels[j] = seed;
                work.push(j);
                proof {
                    assert forall|p: int| 0 <= p < n && #[trigger] labels@[p] == seed
                        implies work@.contains(p as usize) by {
                        if p == j {
                            assert(work@[old_work.len() as int] == j);
                        } else {
                            assert(old_work.contains(p as usize));
                            let k = choose|k: int| 0 <= k < old_work.len()
                                && old_work[k] == p as usize;
                            assert(work@[k] == p as usize);
                        }
                    }
                }
            } else {
                proof {
                    if linked(points@, *prox, a as int, j as int) {
                        if labels@[j as int] != seed {
                            // The position belongs to an earlier component, which
                            // would then hold `a` as well.
                            prox.lemma_near_symmetric(points@[a as int], points@[j as int]);
                            assert(linked(points@, *prox, j as int, a as int));
                            assert(before[j as int] != n);
                            assert(before[a as int] == before[j as int]);
                        }
                    }
                }
            }
            j = j + 1;
        }
        i = i + 1;
    }
    proof {
        assert forall|x: int, b: int|
            0 <= x < labels@.len() && labels@[x] == seed && #[trigger] linked(points@, *prox, x, b)
            implies labels@[b] == seed by {
            assert(work@.contains(x as usize));
            let k = choose|k: int| 0 <= k < work@.len() && work@[k] == x as usize;
            assert(linked(points@, *prox, work@[k] as int, b));
        }
        assert forall|j: int| 0 <= j < n && connected(points@, *prox, seed as int, j)
            implies #[trigger] labels@[j] == seed by {
            let chain = choose|chain: Seq<int>|
                #[trigger] is_chain(points@, *prox, chain) && chain.first() == seed as int
                    && chain.last() == j;
            lemma_label_follows_chain(points@, *prox, labels@, seed, chain);
        }
        lemma_count_is_size(points@, *prox, labels@, seed, seed as int, n as int);
        assert(labels@.take(n as int) == labels@);
        lemma_count_bound(labels@, seed);
    }
    work.len()
}

/// A label that no position bears has count zero.
proof fn lemma_count_zero(labels: Seq<usize>, v: usize)
    requires
        forall|j: int| 0 <= j < labels.len() ==> #[trigger] labels[j] != v,
    ensures
        count_of(labels, v) == 0,
    decreases labels.len(),
{
    if labels.len() > 0 {
        lemma_count_zero(labels.drop_last(), v);
    }
}

/// The largest group of hits in `points` that hang together under `prox`:
/// any two of its hits are joined by a chain of hits of the list, each near
/// the next, and no hit outside it is near one inside. The hits come in the
/// order of `points`; among groups of equal size the one that starts first
/// wins.
pub fn largest_cluster(points: &Vec<usize>, prox: &Proximity) -> (cluster: Vec<usize>)
    requires
        prox.wf(),
    ensures
        cluster@ == largest_component(points@, *prox),
        hangs_together(cluster@, *prox),
        forall|x: usize, y: usize|
            cluster@.contains(x) && points@.contains(y) && !cluster@.contains(y)
                ==> !#[trigger] prox.near(x, y),
        forall|x: usize| #[trigger] cluster@.contains(x) ==> points@.contains(x),
        cluster@.len() <= points@.len(),
        points@.len() > 0 ==> cluster@.len() > 0,
{
    proof {
        lemma_component_hangs_together(points@, *prox);
        lemma_component_closed(points@, *prox);
        lemma_component_drawn(points@, *prox);
    }
    let n = points.len();
    let mut labels: Vec<usize> = Vec::new();
    let mut filled: usize = 0;
    while filled < n
        invariant
            filled <= n,
            labels@.len() == filled,
            forall|j: int| 0 <= j < filled ==> #[trigger] labels@[j] == n,
        decreases n - filled,
    {
        labels.push(n);
        filled = filled + 1;
    }
    let mut best: usize = n;
    let mut best_size: usize = 0;
    let mut seed: usize = 0;
    while seed < n
        invariant
            prox.wf(),
            n == points@.len(),
            seed <= n,
            settled(points@, *prox, labels@),
            forall|j: int| 0 <= j < n && #[trigger] labels@[j] != n ==> labels@[j] < seed,
            forall|j: int| 0 <= j < seed ==> #[trigger] labels@[j] != n,
            forall|j: int|
                0 <= j < n && #[trigger] labels@[j] != n ==> component_size(points@, *prox, j)
                    <= best_size,
            best_size > 0 ==> best < seed && labels@[best as int] == best && component_size(
                points@,
                *prox,
                best as int,
            ) == best_size,
            best_size > 0 ==> forall|j: int|
                0 <= j < best ==> #[trigger] component_size(points@, *prox, j) < best_size,
            seed > 0 ==> best_size > 0,
        decreases n - seed,
    {
        if labels[seed] == n {
            let ghost before = labels@;
            let size = flood(points, prox, &mut labels, seed);
            proof {
                assert forall|j: int| 0 <= j < n && #[trigger] labels@[j] != n
                    implies (if labels@[j]
                    == seed {
                    component_size(points@, *prox, j) == size
                } else {
                    component_size(points@, *prox, j) <= best_size
                }) by {
                    if labels@[j] == seed {
                        lemma_connected_same_size(points@, *prox, seed as int, j);
                    } else {
                        assert(labels@[j] == before[j]);
                    }
                }
                assert forall|j: int| 0 <= j < seed implies #[trigger] component_size(
                    points@,
                    *prox,
                    j,
                ) <= best_size by {
                    assert(before[j] != n);
                }
                assert forall|j: int| 0 <= j < seed implies #[trigger] labels@[j] != n by {
                    assert(before[j] != n);
                }
                lemma_connected_self(points@, *prox, seed as int);
                assert(labels@[seed as int] == seed);
                if best_size > 0 {
                    assert(before[best as int] != n);
                }
            }
            if size > best_size {
                best = seed;
                best_size = size;
            }
        }
        seed = seed + 1;
    }
    let mut cluster: Vec<usize> = Vec::new();
    proof {
        if n > 0 {
            assert forall|j: int| 0 <= j < n implies #[trigger] component_size(points@, *prox, j)
                <= component_size(points@, *prox, best as int) by {
                assert(labels@[j] != n);
            }
            assert(leads_largest(points@, *prox, best as int));
            let s = choose|s: int| leads_largest(points@, *prox, s);
            lemma_leader_unique(points@, *prox, s, best as int);
            assert(component_size(points@, *prox, best as int) == best_size);
        }
    }
    let mut j: usize = 0;
    while j < n
        invariant
            n == points@.len(),
            j <= n,
            settled(points@, *prox, labels@),
            n > 0 ==> best < n && labels@[best as int] == best,
            cluster@ == members(points@, *prox, best as int, j as int),
        decreases n - j,
    {
        proof {
            if labels@[j as int] == best {
                assert(connected(points@, *prox, labels@[j as int] as int, j as int));
            }
            if connected(points@, *prox, best as int, j as int) {
                let chain = choose|chain: Seq<int>|
                    #[trigger] is_chain(points@, *prox, chain) && chain.first() == best as int
                        && chain.last() == j as int;
                lemma_label_follows_chain(points@, *prox, labels@, best, chain);
            }
        }
        if labels[j] == best {
            cluster.push(points[j]);
        }
        j = j + 1;
    }
    cluster
}

/// The largest component is closed: a hit of the list that is near one of
/// its hits belongs to it.
pub proof fn lemma_component_closed(points: Seq<usize>, prox: Proximity)
    ensures
        forall|x: usize, y: usize|
            largest_component(points, prox).contains(x) && points.contains(y)
                && #[trigger] prox.near(x, y) ==> largest_component(points, prox).contains(y),
{
    if exists|s: int| leads_largest(points, prox, s) {
        let s = choose|s: int| leads_largest(points, prox, s);
        let n = points.len() as int;
        let m = members(points, prox, s, n);
        lemma_members_positions(points, prox, s, n);
        let at = choose|at: Seq<int>| #[trigger] member_positions(points, prox, s, n, at);
        assert forall|x: usize, y: usize|
            m.contains(x) && points.contains(y) && #[trigger] prox.near(x, y)
            implies m.contains(y) by {
            let k = choose|k: int| 0 <= k < m.len() && m[k] == x;
            let b = choose|b: int| 0 <= b < points.len() && points[b] == y;
            assert(linked(points, prox, at[k], b));
            lemma_connected_extend(points, prox, s, at[k], b);
            assert(at.contains(b));
            let l = choose|l: int| 0 <= l < at.len() && at[l] == b;
            assert(m[l] == y);
        }
    }
}

/// The largest component is drawn from the list: it holds only hits of the
/// list, and no hit twice unless the list does.
pub proof fn lemma_component_drawn(points: Seq<usize>, prox: Proximity)
    ensures
        forall|x: usize| #[trigger]
            largest_component(points, prox).contains(x) ==> points.contains(x),
        points.no_duplicates() ==> largest_component(points, prox).no_duplicates(),
        largest_component(points, prox).len() <= points.len(),
{
    if exists|s: int| leads_largest(points, prox, s) {
        let s = choose|s: int| leads_largest(points, prox, s);
        let n = points.len() as int;
        let m = members(points, prox, s, n);
        lemma_members_positions(points, prox, s, n);
        let at = choose|at: Seq<int>| #[trigger] member_positions(points, prox, s, n, at);
        assert forall|x: usize| #[trigger] m.contains(x) implies points.contains(x) by {
            let k = choose|k: int| 0 <= k < m.len() && m[k] == x;
            assert(points[at[k]] == x);
        }
        if points.no_duplicates() {
            assert forall|k: int, l: int| 0 <= k < m.len() && 0 <= l < m.len() && k != l
                implies m[k]
                != m[l] by {
                if k < l {
                    assert(at[k] < at[l]);
                } else {
                    assert(at[l] < at[k]);
                }
                assert(m[k] == points[at[k]]);
                assert(m[l] == points[at[l]]);
            }
        }
    }
}

/// Whether the hits of `group` hang together: any two of them are joined by
/// a chain of hits of the group, each near the next.
pub open spec fn hangs_together(group: Seq<usize>, prox: Proximity) -> bool {
    forall|i: int, j: int|
        0 <= i < group.len() && 0 <= j < group.len() ==> #[trigger] connected(group, prox, i, j)
}

/// Every position of a chain is connected to the first.
pub proof fn lemma_chain_stays_connected(
    points: Seq<usize>,
    prox: Proximity,
    chain: Seq<int>,
    k: int,
)
    requires
        is_chain(points, prox, chain),
        0 <= k < chain.len(),
    ensures
        connected(points, prox, chain[0], chain[k]),
{
    let front = chain.take(k + 1);
    assert forall|m: int| 0 <= m < front.len() - 1 implies linked(
        points,
        prox,
        #[trigger] front[m],
        front[m + 1],
    ) by {
        assert(linked(points, prox, chain[m], chain[m + 1]));
    }
    assert(is_chain(points, prox, front));
    assert(front.first() == chain[0]);
    assert(front.last() == chain[k]);
}

/// The members of a component hang together.
pub proof fn lemma_members_hang_together(points: Seq<usize>, prox: Proximity, s: int)
    requires
        0 <= s < points.len(),
    ensures
        hangs_together(members(points, prox, s, points.len() as int), prox),
{
    let n = points.len() as int;
    let group = members(points, prox, s, n);
    lemma_members_positions(points, prox, s, n);
    let at = choose|at: Seq<int>| #[trigger] member_positions(points, prox, s, n, at);
    assert forall|i: int, j: int| 0 <= i < group.len() && 0 <= j < group.len()
        implies #[trigger] connected(group, prox, i, j) by {
        // A chain through the list from the place of the one to the place of
        // the other never leaves the component.
        lemma_connected_symmetric(points, prox, s, at[i]);
        lemma_connected_transitive(points, prox, at[i], s, at[j]);
        let chain = choose|chain: Seq<int>|
            #[trigger] is_chain(points, prox, chain) && chain.first() == at[i]
                && chain.last() == at[j];
        assert forall|k: int| 0 <= k < chain.len() implies at.contains(#[trigger] chain[k]) by {
            lemma_chain_stays_connected(points, prox, chain, k);
            lemma_connected_transitive(points, prox, s, at[i], chain[k]);
            lemma_chain_in_range(points, prox, chain, k);
        }
        let inner = Seq::new(chain.len(), |k: int| at.index_of(chain[k]));
        assert forall|k: int| 0 <= k < inner.len() implies 0 <= #[trigger] inner[k] < group.len()
            && at[inner[k]] == chain[k] by {
            assert(at.contains(chain[k]));
        }
        assert forall|k: int| 0 <= k < inner.len() - 1 implies linked(
            group,
            prox,
            #[trigger] inner[k],
            inner[k + 1],
        ) by {
            assert(linked(points, prox, chain[k], chain[k + 1]));
            assert(at[inner[k]] == chain[k]);
            assert(at[inner[k + 1]] == chain[k + 1]);
        }
        assert(is_chain(group, prox, inner));
        assert(inner.first() == i) by {
            let f = inner[0];
            assert(at[f] == at[i]);
            if f < i {
                assert(at[f] < at[i]);
            }
            if i < f {
                assert(at[i] < at[f]);
            }
        }
        assert(inner.last() == j) by {
            let l = inner[inner.len() - 1];
            assert(at[l] == at[j]);
            if l < j {
                assert(at[l] < at[j]);
            }
            if j < l {
                assert(at[j] < at[l]);
            }
        }
    }
}

/// The largest component hangs together.
pub proof fn lemma_component_hangs_together(points: Seq<usize>, prox: Proximity)
    ensures
        hangs_together(largest_component(points, prox), prox),
{
    if exists|s: int| leads_largest(points, prox, s) {
        let s = choose|s: int| leads_largest(points, prox, s);
        lemma_members_hang_together(points, prox, s);
    }
}

} // verus!
