//! The voting structure: which hits currently vote for which bin.

use vstd::prelude::*;
use vstd::std_specs::iter::IteratorSpec;
use std::collections::HashMap;
use crate::reconstruction::hough::{
    bin_before, bins_for, sectors_fit, strictly_ordered, votes_for, HoughBin, RhoSample,
};

verus! {

/// What an accumulator holds, as plain mathematics.
///
/// Hits are named by their index. `ballots[p]` holds the bins that hit `p`
/// votes for whenever it is present, `present[p]` says whether it is, and
/// `bins` maps every bin that was ever voted for to its voters, in the order
/// in which the bin keeps them. A bin stays in the map when its last voter
/// leaves.
pub ghost struct AccumulatorState {
    pub ballots: Seq<Set<HoughBin>>,
    pub present: Seq<bool>,
    pub bins: Map<HoughBin, Seq<usize>>,
}

/// The position of the first occurrence of `p` in `s`.
pub open spec fn first_at(s: Seq<usize>, p: usize) -> int {
    choose|i: int| 0 <= i < s.len() && s[i] == p && forall|k: int| 0 <= k < i ==> s[k] != p
}

/// `s` after the first occurrence of `p` has been taken out and the last
/// entry moved into its place. A list that does not hold `p` stays as it is.
pub open spec fn without(s: Seq<usize>, p: usize) -> Seq<usize> {
    if s.contains(p) {
        s.update(first_at(s, p), s.last()).drop_last()
    } else {
        s
    }
}

/// The ballots of the hits whose lines were sampled as `samples`.
pub open spec fn ballots_of(samples: Seq<Vec<RhoSample>>) -> Seq<Set<HoughBin>> {
    Seq::new(samples.len(), |p: int| Set::new(|key: HoughBin| votes_for(samples[p]@, key)))
}

impl AccumulatorState {
    /// The state in which the hits with these ballots are known and none of
    /// them is present.
    pub open spec fn vacant(ballots: Seq<Set<HoughBin>>) -> AccumulatorState {
        AccumulatorState {
            ballots,
            present: Seq::new(ballots.len(), |p: int| false),
            bins: Map::empty(),
        }
    }

    /// Whether hit `p` is known and currently votes.
    pub open spec fn holds(self, p: usize) -> bool {
        p < self.present.len() && self.present[p as int]
    }

    /// Whether hit `p` is known and has `key` on its ballot.
    pub open spec fn on_ballot(self, p: usize, key: HoughBin) -> bool {
        p < self.ballots.len() && self.ballots[p as int].contains(key)
    }

    /// The voters of `key`; none for a bin that is not in the map.
    pub open spec fn bin(self, key: HoughBin) -> Seq<usize> {
        if self.bins.contains_key(key) {
            self.bins[key]
        } else {
            Seq::empty()
        }
    }

    /// Each bin holds, once each, exactly the present hits that have it on
    /// their ballot.
    pub open spec fn wf(self) -> bool {
        &&& self.ballots.len() == self.present.len()
        &&& forall|key: HoughBin| (#[trigger] self.bin(key)).no_duplicates()
        &&& forall|key: HoughBin, p: usize| #[trigger]
            self.bin(key).contains(p) <==> self.holds(p) && self.on_ballot(p, key)
    }

    /// The voters of `key` once hit `p` has been added.
    pub open spec fn bin_with(self, p: usize, key: HoughBin) -> Seq<usize> {
        if self.on_ballot(p, key) {
            self.bin(key).push(p)
        } else {
            self.bin(key)
        }
    }

    /// The voters of `key` once hit `p` has been removed.
    pub open spec fn bin_less(self, p: usize, key: HoughBin) -> Seq<usize> {
        if self.on_ballot(p, key) {
            without(self.bin(key), p)
        } else {
            self.bin(key)
        }
    }

    /// The state after hit `p` has been added: it is appended to every bin on
    /// its ballot, and a bin on its ballot that is not in the map yet comes
    /// into it. Adding an unknown hit, or one that is present already,
    /// changes nothing.
    pub open spec fn add(self, p: usize) -> AccumulatorState {
        if p < self.present.len() && !self.present[p as int] {
            AccumulatorState {
                ballots: self.ballots,
                present: self.present.update(p as int, true),
                bins: Map::new(
                    |key: HoughBin| self.bins.contains_key(key) || self.on_ballot(p, key),
                    |key: HoughBin| self.bin_with(p, key),
                ),
            }
        } else {
            self
        }
    }

    /// The state after hit `p` has been removed: it is taken out of every bin
    /// on its ballot, and nothing else changes. The map keeps its bins, also
    /// one that is left without a voter. Removing a hit that is not present
    /// changes nothing.
    pub open spec fn remove(self, p: usize) -> AccumulatorState {
        if self.holds(p) {
            AccumulatorState {
                ballots: self.ballots,
                present: self.present.update(p as int, false),
                bins: Map::new(
                    |key: HoughBin| self.bins.contains_key(key),
                    |key: HoughBin| self.bin_less(p, key),
                ),
            }
        } else {
            self
        }
    }

    /// The state after each hit of `points` has been added, first to last.
    pub open spec fn add_each(self, points: Seq<usize>) -> AccumulatorState
        decreases points.len(),
    {
        if points.len() == 0 {
            self
        } else {
            self.add_each(points.drop_last()).add(points.last())
        }
    }

    /// The state after each hit of `points` has been removed, first to last.
    pub open spec fn remove_each(self, points: Seq<usize>) -> AccumulatorState
        decreases points.len(),
    {
        if points.len() == 0 {
            self
        } else {
            self.remove_each(points.drop_last()).remove(points.last())
        }
    }

    /// The state after the hits of `out` have been removed and those of
    /// `back` have been added.
    pub open spec fn exchange(self, out: Seq<usize>, back: Seq<usize>) -> AccumulatorState {
        self.remove_each(out).add_each(back)
    }

    /// Whether `key` is the most popular bin: it has a voter, no bin has
    /// more, and of the bins with as many it comes first.
    pub open spec fn tops(self, key: HoughBin) -> bool {
        &&& self.bin(key).len() > 0
        &&& forall|other: HoughBin| (#[trigger] self.bin(other)).len() <= self.bin(key).len()
        &&& forall|other: HoughBin|
            (#[trigger] self.bin(other)).len() == self.bin(key).len() ==> !bin_before(other, key)
    }

    /// The voters of the most popular bin; none when no bin has a voter.
    pub open spec fn most_popular(self) -> Seq<usize> {
        if exists|key: HoughBin| self.tops(key) {
            self.bin(choose|key: HoughBin| self.tops(key))
        } else {
            Seq::empty()
        }
    }
}

/// The first occurrence of a hit that a list holds.
pub proof fn lemma_first_at(s: Seq<usize>, p: usize)
    requires
        s.contains(p),
    ensures
        0 <= first_at(s, p) < s.len(),
        s[first_at(s, p)] == p,
        forall|k: int| 0 <= k < first_at(s, p) ==> s[k] != p,
    decreases s.len(),
{
    let some = choose|i: int| 0 <= i < s.len() && s[i] == p;
    if exists|k: int| 0 <= k < some && s[k] == p {
        let shorter = s.take(some);
        let k = choose|k: int| 0 <= k < some && s[k] == p;
        assert(shorter[k] == p);
        lemma_first_at(shorter, p);
        let f = first_at(shorter, p);
        assert(s[f] == p);
        assert forall|m: int| 0 <= m < f implies s[m] != p by {
            assert(shorter[m] != p);
        }
    }
}

/// Taking a hit out of a list without repeats leaves the other hits, still
/// without repeats.
pub proof fn lemma_without(s: Seq<usize>, p: usize)
    requires
        s.no_duplicates(),
        s.contains(p),
    ensures
        without(s, p).len() == s.len() - 1,
        without(s, p).no_duplicates(),
        forall|x: usize| #[trigger] without(s, p).contains(x) <==> s.contains(x) && x != p,
{
    lemma_first_at(s, p);
    let i = first_at(s, p);
    let r = without(s, p);
    let last = s.len() - 1;
    assert forall|x: usize| #[trigger] r.contains(x) <==> s.contains(x) && x != p by {
        if r.contains(x) {
            let m = choose|m: int| 0 <= m < r.len() && r[m] == x;
            if m == i {
                assert(s[last] == x);
            } else {
                assert(s[m] == x);
            }
        }
        if s.contains(x) && x != p {
            let m = choose|m: int| 0 <= m < s.len() && s[m] == x;
            if m < last {
                assert(r[m] == x);
            } else {
                assert(r[i] == x);
            }
        }
    }
}

/// Appending a hit that a list without repeats does not hold keeps it
/// without repeats.
pub proof fn lemma_push_fresh(s: Seq<usize>, p: usize)
    requires
        s.no_duplicates(),
        !s.contains(p),
    ensures
        s.push(p).no_duplicates(),
        forall|x: usize| #[trigger] s.push(p).contains(x) <==> s.contains(x) || x == p,
{
    let r = s.push(p);
    assert forall|x: usize| #[trigger] r.contains(x) <==> s.contains(x) || x == p by {
        if r.contains(x) {
            let m = choose|m: int| 0 <= m < r.len() && r[m] == x;
            if m < s.len() {
                assert(s[m] == x);
            }
        }
        if s.contains(x) {
            let m = choose|m: int| 0 <= m < s.len() && s[m] == x;
            assert(r[m] == x);
        }
        if x == p {
            assert(r[s.len() as int] == x);
        }
    }
    assert forall|a: int, b: int| 0 <= a < r.len() && 0 <= b < r.len() && a != b
        implies r[a] != r[b] by {
        if a < s.len() && b < s.len() {
        } else if a < s.len() {
            assert(s.contains(s[a]));
        } else if b < s.len() {
            assert(s.contains(s[b]));
        }
    }
}

impl AccumulatorState {
    /// Two maps of bins are the same when they hold the same bins and each
    /// bin has the same voters in both.
    pub proof fn lemma_same_bins(self, other: AccumulatorState)
        requires
            forall|key: HoughBin| #[trigger] self.bins.contains_key(key)
                <==> other.bins.contains_key(key),
            forall|key: HoughBin| #[trigger] self.bin(key) == other.bin(key),
        ensures
            self.bins == other.bins,
    {
        assert forall|key: HoughBin| self.bins.contains_key(key)
            implies self.bins[key] == other.bins[key] by {
            assert(self.bin(key) == other.bin(key));
        }
        assert(self.bins =~= other.bins);
    }

    /// Adding a hit keeps the state well formed.
    pub proof fn lemma_add_wf(self, p: usize)
        requires
            self.wf(),
        ensures
            self.add(p).wf(),
            self.add(p).ballots == self.ballots,
            forall|key: HoughBin| #[trigger] self.add(p).bins.contains_key(key)
                <==> self.bins.contains_key(key) || (self.on_ballot(p, key) && p
                < self.present.len() && !self.present[p as int]),
            forall|key: HoughBin| #[trigger] self.add(p).bin(key) == (if p < self.present.len()
                && !self.present[p as int] { self.bin_with(p, key) } else { self.bin(key) }),
            forall|q: usize| #[trigger] self.add(p).holds(q)
                <==> self.holds(q) || (q == p && p < self.present.len()),
    {
        if p < self.present.len() && !self.present[p as int] {
            let next = self.add(p);
            assert forall|key: HoughBin| #[trigger] next.bin(key) == self.bin_with(p, key) by {
                if !next.bins.contains_key(key) {
                    assert(self.bin_with(p, key) =~= Seq::<usize>::empty());
                }
            }
            assert forall|key: HoughBin| (#[trigger] next.bin(key)).no_duplicates() by {
                assert(self.bin(key).no_duplicates());
                if self.on_ballot(p, key) {
                    assert(!self.bin(key).contains(p));
                    lemma_push_fresh(self.bin(key), p);
                }
            }
            assert forall|key: HoughBin, q: usize| #[trigger]
                next.bin(key).contains(q) <==> next.holds(q) && next.on_ballot(q, key) by {
                assert(self.bin(key).no_duplicates());
                assert(self.bin(key).contains(q) <==> self.holds(q) && self.on_ballot(q, key));
                assert(self.bin(key).contains(p) <==> self.holds(p) && self.on_ballot(p, key));
                if self.on_ballot(p, key) {
                    lemma_push_fresh(self.bin(key), p);
                }
            }
        }
    }

    /// Removing a hit changes nothing but its own votes: a bin that is not
    /// on its ballot stays as it is, and every bin keeps its other voters.
    pub proof fn lemma_remove_frame(self, p: usize)
        requires
            self.wf(),
        ensures
            forall|key: HoughBin|
                !self.on_ballot(p, key) ==> #[trigger] self.remove(p).bin(key) == self.bin(key),
            forall|key: HoughBin, q: usize|
                q != p ==> (#[trigger] self.remove(p).bin(key).contains(q)
                    <==> self.bin(key).contains(q)),
    {
        self.lemma_remove_wf(p);
        let next = self.remove(p);
        assert forall|key: HoughBin, q: usize| q != p implies (#[trigger] next.bin(key).contains(q)
            <==> self.bin(key).contains(q)) by {
            assert(next.bin(key).contains(q) <==> next.holds(q) && next.on_ballot(q, key));
            assert(self.bin(key).contains(q) <==> self.holds(q) && self.on_ballot(q, key));
        }
    }

    /// Removing a hit keeps the state well formed.
    pub proof fn lemma_remove_wf(self, p: usize)
        requires
            self.wf(),
        ensures
            self.remove(p).wf(),
            self.remove(p).ballots == self.ballots,
            self.remove(p).bins.dom() == self.bins.dom(),
            forall|key: HoughBin| #[trigger] self.remove(p).bin(key)
                == (if self.holds(p) { self.bin_less(p, key) } else { self.bin(key) }),
            forall|q: usize| #[trigger] self.remove(p).holds(q) <==> self.holds(q) && q != p,
    {
        if self.holds(p) {
            let next = self.remove(p);
            assert(next.bins.dom() =~= self.bins.dom());
            assert forall|key: HoughBin| #[trigger] next.bin(key) == self.bin_less(p, key) by {
                if !next.bins.contains_key(key) {
                    assert(self.bin_less(p, key) =~= Seq::<usize>::empty());
                }
            }
            assert forall|key: HoughBin| (#[trigger] next.bin(key)).no_duplicates() by {
                assert(self.bin(key).no_duplicates());
                assert(self.bin(key).contains(p) <==> self.holds(p) && self.on_ballot(p, key));
                if self.on_ballot(p, key) {
                    lemma_without(self.bin(key), p);
                }
            }
            assert forall|key: HoughBin, q: usize| #[trigger]
                next.bin(key).contains(q) <==> next.holds(q) && next.on_ballot(q, key) by {
                assert(self.bin(key).no_duplicates());
                assert(self.bin(key).contains(q) <==> self.holds(q) && self.on_ballot(q, key));
                assert(self.bin(key).contains(p) <==> self.holds(p) && self.on_ballot(p, key));
                if self.on_ballot(p, key) {
                    lemma_without(self.bin(key), p);
                }
            }
        }
    }
}

/// The number under which the voters of a bin are filed: sector first, ring
/// second.
pub open spec fn bin_code(key: HoughBin) -> u64 {
    (key.theta * 0x1_0000_0000 + key.rho) as u64
}

fn encode(key: HoughBin) -> (code: u64)
    ensures
        code == bin_code(key),
{
    let theta: u64 = key.theta as u64;
    let rho: u64 = key.rho as u64;
    theta * 0x1_0000_0000 + rho
}

fn decode(code: u64) -> (key: HoughBin)
    ensures
        bin_code(key) == code,
{
    let theta: u64 = code / 0x1_0000_0000;
    let rho: u64 = code % 0x1_0000_0000;
    HoughBin { theta: theta as u32, rho: rho as u32 }
}

/// Codes tell bins apart, and order them as the bins are ordered.
proof fn lemma_codes(a: HoughBin, b: HoughBin)
    ensures
        bin_code(a) == bin_code(b) <==> a == b,
        bin_code(a) < bin_code(b) <==> bin_before(a, b),
{
}

/// A strictly increasing list names no bin twice.
pub proof fn lemma_ordered_is_distinct(bins: Seq<HoughBin>)
    requires
        strictly_ordered(bins),
    ensures
        bins.no_duplicates(),
{
    assert forall|i: int, j: int| 0 <= i < bins.len() && 0 <= j < bins.len() && i != j
        implies bins[i]
        != bins[j] by {
        if i < j {
            assert(bin_before(bins[i], bins[j]));
        } else {
            assert(bin_before(bins[j], bins[i]));
        }
    }
}

fn copy_points(points: &Vec<usize>) -> (copy: Vec<usize>)
    ensures
        copy@ == points@,
{
    let mut copy: Vec<usize> = Vec::new();
    let mut i: usize = 0;
    while i < points.len()
        invariant
            i <= points@.len(),
            copy@ == points@.take(i as int),
        decreases points@.len() - i,
    {
        copy.push(points[i]);
        proof {
            assert(points@.take(i + 1) == points@.take(i as int).push(points@[i as int]));
        }
        i = i + 1;
    }
    proof {
        assert(points@.take(points@.len() as int) == points@);
    }
    copy
}

/// The voting structure over the bins of the Hough space.
///
/// It knows the ballot of every hit of one event, and keeps, for every bin,
/// the hits that currently vote for it.
pub struct HoughSpaceAccumulator {
    votes: Vec<Vec<HoughBin>>,
    present: Vec<bool>,
    bins: HashMap<u64, Vec<usize>>,
}

impl View for HoughSpaceAccumulator {
    type V = AccumulatorState;

    closed spec fn view(&self) -> AccumulatorState {
        AccumulatorState {
            ballots: Seq::new(self.votes@.len(), |p: int| self.votes@[p]@.to_set()),
            present: self.present@,
            bins: Map::new(
                |key: HoughBin| self.bins@.contains_key(bin_code(key)),
                |key: HoughBin| self.bins@[bin_code(key)]@,
            ),
        }
    }
}

impl HoughSpaceAccumulator {
    /// The invariant of the structure: that of its state, and every ballot
    /// is listed in increasing order, so that it names no bin twice.
    pub closed spec fn wf(&self) -> bool {
        &&& self@.wf()
        &&& forall|p: int| 0 <= p < self.votes@.len()
            ==> strictly_ordered((#[trigger] self.votes@[p])@)
    }

    /// A well-formed structure has a well-formed state.
    pub proof fn lemma_wf(&self)
        requires
            self.wf(),
        ensures
            self@.wf(),
    {
    }

    /// An accumulator for the hits whose lines were sampled as `samples`,
    /// with no hit present yet.
    pub fn new(samples: &Vec<Vec<RhoSample>>) -> (acc: HoughSpaceAccumulator)
        requires
            forall|p: int| 0 <= p < samples@.len() ==> sectors_fit((#[trigger] samples@[p])@),
        ensures
            acc.wf(),
            acc@ == AccumulatorState::vacant(ballots_of(samples@)),
    {
        let mut votes: Vec<Vec<HoughBin>> = Vec::new();
        let mut present: Vec<bool> = Vec::new();
        let mut p: usize = 0;
        while p < samples.len()
            invariant
                p <= samples@.len(),
                votes@.len() == p,
                present@.len() == p,
                forall|q: int| 0 <= q < samples@.len() ==> sectors_fit((#[trigger] samples@[q])@),
                forall|q: int| 0 <= q < p ==> !(#[trigger] present@[q]),
                forall|q: int| 0 <= q < p ==> strictly_ordered(#[trigger] votes@[q]@),
                forall|q: int, key: HoughBin|
                    0 <= q < p ==> (#[trigger] votes@[q]@.contains(key) <==> votes_for(
                        samples@[q]@,
                        key,
                    )),
            decreases samples@.len() - p,
        {
            let ballot = bins_for(&samples[p]);
            votes.push(ballot);
            present.push(false);
            p = p + 1;
        }
        let acc = HoughSpaceAccumulator { votes, present, bins: HashMap::new() };
        proof {
            let goal = AccumulatorState::vacant(ballots_of(samples@));
            assert(acc@.present =~= goal.present);
            assert(acc@.bins =~= goal.bins);
            assert forall|q: int| 0 <= q < acc.votes@.len()
                implies (#[trigger] acc.votes@[q])@.no_duplicates() by {
                assert(strictly_ordered(votes@[q]@));
                lemma_ordered_is_distinct(votes@[q]@);
            }
            assert forall|key: HoughBin| acc@.bin(key) =~= Seq::<usize>::empty() by {}
            assert forall|q: int| 0 <= q < samples@.len()
                implies #[trigger] acc@.ballots[q] == goal.ballots[q] by {
                assert forall|key: HoughBin| acc@.ballots[q].contains(key)
                    <==> goal.ballots[q].contains(key) by {
                    assert(votes@[q]@.contains(key) <==> votes_for(samples@[q]@, key));
                }
                assert(acc@.ballots[q] =~= goal.ballots[q]);
            }
            assert(acc@.ballots =~= goal.ballots);
        }
        acc
    }

    /// The number of hits whose ballots the accumulator knows.
    pub fn len(&self) -> (n: usize)
        requires
            self.wf(),
        ensures
            n == self@.ballots.len(),
    {
        self.votes.len()
    }

    /// Whether hit `point` currently votes.
    pub fn holds(&self, point: usize) -> (r: bool)
        requires
            self.wf(),
        ensures
            r == self@.holds(point),
    {
        point < self.present.len() && self.present[point]
    }

    /// The voters of `key`, in the order in which the bin keeps them, if the
    /// bin was ever voted for. A bin that has lost all its voters is still
    /// there, and empty.
    pub fn voters_of(&self, key: HoughBin) -> (voters: Option<Vec<usize>>)
        requires
            self.wf(),
        ensures
            voters matches Some(list) ==> self@.bins.contains_key(key) && list@ == self@.bins[key],
            voters is None ==> !self@.bins.contains_key(key),
    {
        match self.bins.get(&encode(key)) {
            Some(list) => Some(copy_points(list)),
            None => None,
        }
    }

    /// The bins that hit `point` votes for, each listed once, in increasing
    /// order. An unknown hit votes for nothing.
    pub fn get_bins(&self, point: usize) -> (bins: Vec<HoughBin>)
        requires
            self.wf(),
        ensures
            strictly_ordered(bins@),
            forall|key: HoughBin| #[trigger] bins@.contains(key) <==> self@.on_ballot(point, key),
    {
        let mut bins: Vec<HoughBin> = Vec::new();
        if point < self.votes.len() {
            let ballot = &self.votes[point];
            let mut i: usize = 0;
            while i < ballot.len()
                invariant
                    i <= ballot@.len(),
                    bins@ == ballot@.take(i as int),
                decreases ballot@.len() - i,
            {
                bins.push(ballot[i]);
                proof {
                    assert(ballot@.take(i + 1) == ballot@.take(i as int).push(ballot@[i as int]));
                }
                i = i + 1;
            }
            proof {
                assert(ballot@.take(ballot@.len() as int) == ballot@);
            }
        }
        bins
    }
}

impl HoughSpaceAccumulator {
    /// Adds hit `point`: it is appended to every bin on its ballot, and a
    /// bin that was never voted for before comes into being. Adding an
    /// unknown hit, or one that is present already, changes nothing.
    pub fn add(&mut self, point: usize)
        requires
            old(self).wf(),
        ensures
            final(self).wf(),
            final(self)@ == old(self)@.add(point),
    {
        let ghost before = self@;
        proof {
            before.lemma_add_wf(point);
        }
        if point < self.present.len() && !self.present[point] {
            self.present[point] = true;
            let count = self.votes[point].len();
            let ghost ballot = self.votes@[point as int]@;
            proof {
                lemma_ordered_is_distinct(ballot);
            }
            let mut i: usize = 0;
            while i < count
                invariant
                    before.wf(),
                    point < before.present.len(),
                    !before.present[point as int],
                    self@.ballots == before.ballots,
                    self.present@ == before.present.update(point as int, true),
                    ballot.to_set() == before.ballots[point as int],
                    ballot.no_duplicates(),
                    forall|p: int| 0 <= p < self.votes@.len()
                        ==> strictly_ordered((#[trigger] self.votes@[p])@),
                    ballot == self.votes@[point as int]@,
                    point < self.votes@.len(),
                    count == ballot.len(),
                    i <= count,
                    forall|key: HoughBin| #[trigger] self@.bins.contains_key(key)
                        <==> before.bins.contains_key(key) || ballot.take(i as int).contains(key),
                    forall|key: HoughBin| #[trigger] self@.bin(key)
                        == (if ballot.take(i as int).contains(key) {
                        before.bin(key).push(point)
                    } else {
                        before.bin(key)
                    }),
                decreases count - i,
            {
                let key = self.votes[point][i];
                let code = encode(key);
                let ghost stored = self.bins@;
                let ghost prev = *self;
                let ghost filed_before = self@.bin(key);
                let mut voters = match self.bins.remove(&code) {
                    Some(v) => v,
                    None => Vec::new(),
                };
                assert(voters@ == filed_before);
                voters.push(point);
                self.bins.insert(code, voters);
                proof {
                    assert(self.bins@ == stored.insert(code, voters));
                    assert forall|other: HoughBin| #[trigger] self@.bins.contains_key(other)
                        <==> before.bins.contains_key(other) || ballot.take(i + 1).contains(
                        other,
                    ) by {
                        lemma_codes(other, key);
                        lemma_take_step(ballot, i as int, other);
                        assert(prev@.bins.contains_key(other) <==> before.bins.contains_key(other)
                            || ballot.take(i as int).contains(other));
                    }
                    assert forall|other: HoughBin| #[trigger] self@.bin(other)
                        == (if ballot.take(i + 1).contains(other) {
                        before.bin(other).push(point)
                    } else {
                        before.bin(other)
                    }) by {
                        lemma_codes(other, key);
                        lemma_take_step(ballot, i as int, other);
                        assert(prev@.bin(other) == (if ballot.take(i as int).contains(other) {
                            before.bin(other).push(point)
                        } else {
                            before.bin(other)
                        }));
                        if other == key {
                            lemma_entry_is_new(ballot, i as int);
                        } else {
                            assert(stored.contains_key(bin_code(other))
                                == self.bins@.contains_key(bin_code(other)));
                        }
                    }
                }
                i = i + 1;
            }
            proof {
                assert(ballot.take(count as int) == ballot);
                before.add(point).lemma_same_bins(self@);
            }
        }
    }
}

/// An entry of a ballot that names no bin twice is not among the entries
/// before it.
proof fn lemma_entry_is_new(ballot: Seq<HoughBin>, i: int)
    requires
        ballot.no_duplicates(),
        0 <= i < ballot.len(),
    ensures
        !ballot.take(i).contains(ballot[i]),
{
    if ballot.take(i).contains(ballot[i]) {
        let k = choose|k: int| 0 <= k < i && ballot.take(i)[k] == ballot[i];
        assert(ballot[k] == ballot[i]);
    }
}

/// Which bins the first `i + 1` entries of a ballot name, given which the
/// first `i` name.
proof fn lemma_take_step(ballot: Seq<HoughBin>, i: int, key: HoughBin)
    requires
        0 <= i < ballot.len(),
    ensures
        ballot.take(i + 1).contains(key) <==> ballot.take(i).contains(key) || ballot[i] == key,
{
    let longer = ballot.take(i + 1);
    let shorter = ballot.take(i);
    if longer.contains(key) {
        let k = choose|k: int| 0 <= k < longer.len() && longer[k] == key;
        if k < i {
            assert(shorter[k] == key);
        }
    }
    if shorter.contains(key) {
        let k = choose|k: int| 0 <= k < shorter.len() && shorter[k] == key;
        assert(longer[k] == key);
    }
    if ballot[i] == key {
        assert(longer[i] == key);
    }
}

impl AccumulatorState {
    /// At most one bin is the most popular.
    pub proof fn lemma_top_unique(self, a: HoughBin, b: HoughBin)
        requires
            self.tops(a),
            self.tops(b),
        ensures
            a == b,
    {
        assert(self.bin(a).len() <= self.bin(b).len());
        assert(self.bin(b).len() <= self.bin(a).len());
        assert(!bin_before(a, b));
        assert(!bin_before(b, a));
    }
}

impl HoughSpaceAccumulator {
    /// Removes hit `point`: it is taken out of every bin on its ballot, the
    /// last voter of the bin moving into its place. Nothing else changes: the
    /// other bins and the other voters stay, and so does every bin, also one
    /// that is left without a voter. Removing a hit that is not present
    /// changes nothing.
    pub fn remove(&mut self, point: usize)
        requires
            old(self).wf(),
        ensures
            final(self).wf(),
            final(self)@ == old(self)@.remove(point),
            final(self)@.bins.dom() == old(self)@.bins.dom(),
            forall|key: HoughBin|
                !old(self)@.on_ballot(point, key)
                    ==> #[trigger] final(self)@.bin(key) == old(self)@.bin(key),
            forall|key: HoughBin, q: usize|
                q != point ==> (#[trigger] final(self)@.bin(key).contains(q)
                    <==> old(self)@.bin(key).contains(q)),
    {
        let ghost before = self@;
        proof {
            before.lemma_remove_wf(point);
            before.lemma_remove_frame(point);
        }
        if point < self.present.len() && self.present[point] {
            self.present[point] = false;
            let count = self.votes[point].len();
            let ghost ballot = self.votes@[point as int]@;
            proof {
                lemma_ordered_is_distinct(ballot);
            }
            let mut i: usize = 0;
            while i < count
                invariant
                    before.wf(),
                    before.holds(point),
                    self@.ballots == before.ballots,
                    self.present@ == before.present.update(point as int, false),
                    ballot.to_set() == before.ballots[point as int],
                    ballot.no_duplicates(),
                    forall|p: int| 0 <= p < self.votes@.len()
                        ==> strictly_ordered((#[trigger] self.votes@[p])@),
                    ballot == self.votes@[point as int]@,
                    point < self.votes@.len(),
                    count == ballot.len(),
                    i <= count,
                    forall|key: HoughBin| #[trigger] self@.bins.contains_key(key)
                        <==> before.bins.contains_key(key),
                    forall|key: HoughBin| #[trigger] self@.bin(key)
                        == (if ballot.take(i as int).contains(key) {
                        without(before.bin(key), point)
                    } else {
                        before.bin(key)
                    }),
                decreases count - i,
            {
                let key = self.votes[point][i];
                let code = encode(key);
                let ghost stored = self.bins@;
                let ghost prev = *self;
                let ghost filed_before = self@.bin(key);
                proof {
                    lemma_entry_is_new(ballot, i as int);
                    assert(filed_before == before.bin(key));
                    assert(ballot.contains(key));
                    assert(before.on_ballot(point, key));
                    assert(before.bin(key).contains(point));
                    lemma_first_at(before.bin(key), point);
                }
                match self.bins.remove(&code) {
                    Some(mut voters) => {
                        let mut at: usize = 0;
                        while at < voters.len() && voters[at] != point
                            invariant
                                at <= voters@.len(),
                                forall|k: int| 0 <= k < at ==> voters@[k] != point,
                            decreases voters@.len() - at,
                        {
                            at = at + 1;
                        }
                        assert(at == first_at(voters@, point));
                        voters.swap_remove(at);
                        self.bins.insert(code, voters);
                    },
                    None => {},
                }
                proof {
                    assert forall|other: HoughBin| #[trigger] self@.bin(other)
                        == (if ballot.take(i + 1).contains(other) {
                        without(before.bin(other), point)
                    } else {
                        before.bin(other)
                    }) by {
                        lemma_codes(other, key);
                        lemma_take_step(ballot, i as int, other);
                        assert(prev@.bin(other) == (if ballot.take(i as int).contains(other) {
                            without(before.bin(other), point)
                        } else {
                            before.bin(other)
                        }));
                        if other == key {
                            assert(self@.bin(key) =~= without(before.bin(key), point));
                        } else {
                            assert(stored.contains_key(bin_code(other))
                                == self.bins@.contains_key(bin_code(other)));
                        }
                    }
                }
                i = i + 1;
            }
            proof {
                assert(ballot.take(count as int) == ballot);
                before.remove(point).lemma_same_bins(self@);
            }
        }
    }

    /// The voters of the most popular bin, in the order in which the bin
    /// keeps them: the bin with the most voters, and of several such bins the
    /// first by sector, then by ring. No bin has more voters than are
    /// returned. Empty when no hit votes.
    pub fn most_popular(&self) -> (voters: Vec<usize>)
        requires
            self.wf(),
        ensures
            voters@ == self@.most_popular(),
            forall|key: HoughBin| (#[trigger] self@.bin(key)).len() <= voters@.len(),
    {
        let mut best_code: u64 = 0;
        let mut best_len: usize = 0;
        let ghost all = self.bins.keys().remaining();
        for code in it: self.bins.keys()
            invariant
                it.seq() == all,
                all.unref().to_set() == self.bins@.dom(),
                best_len > 0 ==> self.bins@.contains_key(best_code)
                    && best_len == self.bins@[best_code]@.len(),
                forall|i: int|
                    0 <= i < it.index() ==> {
                        let c = *#[trigger] all[i];
                        &&& self.bins@.contains_key(c)
                        &&& self.bins@[c]@.len() <= best_len
                        &&& self.bins@[c]@.len() == best_len && best_len > 0 ==> best_code <= c
                    },
        {
            assert(all.unref()[it.index()] == *code);
            assert(all.unref().to_set().contains(*code));
            match self.bins.get(code) {
                Some(points) => {
                    let n = points.len();
                    if n > best_len || (n == best_len && n > 0 && *code < best_code) {
                        best_code = *code;
                        best_len = n;
                    }
                },
                None => {},
            }
        }
        let ghost st = self@;
        proof {
            assert forall|other: HoughBin| (#[trigger] st.bin(other)).len() <= best_len && (
            st.bin(other).len() == best_len && best_len > 0 ==> best_code <= bin_code(other)) by {
                if st.bins.contains_key(other) {
                    let c = bin_code(other);
                    assert(all.unref().to_set().contains(c));
                    let i = choose|i: int| 0 <= i < all.unref().len() && all.unref()[i] == c;
                    assert(*all[i] == c);
                }
            }
        }
        if best_len > 0 {
            let top = decode(best_code);
            proof {
                assert(st.bin(top) == self.bins@[best_code]@);
                assert forall|other: HoughBin| (#[trigger] st.bin(other)).len() == st.bin(top).len()
                    implies !bin_before(other, top) by {
                    lemma_codes(other, top);
                }
                assert(st.tops(top));
                let chosen = choose|key: HoughBin| st.tops(key);
                st.lemma_top_unique(chosen, top);
            }
            match self.bins.get(&best_code) {
                Some(points) => copy_points(points),
                None => Vec::new(),
            }
        } else {
            proof {
                assert forall|key: HoughBin| !st.tops(key) by {
                    assert(st.bin(key).len() <= best_len);
                }
            }
            Vec::new()
        }
    }
}

impl AccumulatorState {
    /// Adding hits one after another keeps the state well formed and the
    /// ballots as they are, and makes present the known hits among them.
    pub proof fn lemma_add_each(self, points: Seq<usize>)
        requires
            self.wf(),
        ensures
            self.add_each(points).wf(),
            self.add_each(points).ballots == self.ballots,
            forall|q: usize| #[trigger]
                self.add_each(points).holds(q) <==> self.holds(q) || (points.contains(q) && q
                    < self.ballots.len()),
        decreases points.len(),
    {
        if points.len() > 0 {
            let front = points.drop_last();
            let mid = self.add_each(front);
            self.lemma_add_each(front);
            mid.lemma_add_wf(points.last());
            assert forall|q: usize| #[trigger]
                self.add_each(points).holds(q) <==> self.holds(q) || (points.contains(q) && q
                    < self.ballots.len()) by {
                lemma_last_step(points, q);
            }
        }
    }

    /// Removing hits one after another keeps the state well formed and the
    /// ballots as they are, and leaves present the hits not among them.
    pub proof fn lemma_remove_each(self, points: Seq<usize>)
        requires
            self.wf(),
        ensures
            self.remove_each(points).wf(),
            self.remove_each(points).ballots == self.ballots,
            forall|q: usize| #[trigger]
                self.remove_each(points).holds(q) <==> self.holds(q) && !points.contains(q),
        decreases points.len(),
    {
        if points.len() > 0 {
            let front = points.drop_last();
            let mid = self.remove_each(front);
            self.lemma_remove_each(front);
            mid.lemma_remove_wf(points.last());
            assert forall|q: usize| #[trigger]
                self.remove_each(points).holds(q) <==> self.holds(q) && !points.contains(q) by {
                lemma_last_step(points, q);
            }
        }
    }

    /// Taking hits out and putting others back keeps the state well formed
    /// and the ballots as they are. Afterwards the hits are present that were
    /// present and not taken out, and the known hits that were put back.
    pub proof fn lemma_exchange(self, out: Seq<usize>, back: Seq<usize>)
        requires
            self.wf(),
        ensures
            self.exchange(out, back).wf(),
            self.exchange(out, back).ballots == self.ballots,
            forall|q: usize| #[trigger]
                self.exchange(out, back).holds(q) <==> (self.holds(q) && !out.contains(q)) || (
                back.contains(q) && q < self.ballots.len()),
    {
        let taken = self.remove_each(out);
        self.lemma_remove_each(out);
        taken.lemma_add_each(back);
        assert forall|q: usize| #[trigger]
            self.exchange(out, back).holds(q) <==> (self.holds(q) && !out.contains(q)) || (
            back.contains(q) && q < self.ballots.len()) by {
            assert(taken.holds(q) <==> self.holds(q) && !out.contains(q));
        }
    }

    /// No bin has more voters than there are hits.
    pub proof fn lemma_bin_bounded(self, key: HoughBin)
        requires
            self.wf(),
        ensures
            self.bin(key).len() <= self.ballots.len(),
    {
        let voters = self.bin(key);
        assert(voters.no_duplicates());
        assert forall|i: int| 0 <= i < voters.len() implies #[trigger] voters[i]
            < self.ballots.len() by {
            assert(voters.contains(voters[i]));
        }
        lemma_distinct_bounded(voters, self.ballots.len());
    }

    /// Among bins of at most `bound` voters, one of which has a voter, some
    /// bin has the most.
    proof fn lemma_longest_bin(self, bound: nat) -> (key: HoughBin)
        requires
            forall|other: HoughBin| (#[trigger] self.bin(other)).len() <= bound,
            exists|other: HoughBin| (#[trigger] self.bin(other)).len() > 0,
        ensures
            self.bin(key).len() > 0,
            forall|other: HoughBin| (#[trigger] self.bin(other)).len() <= self.bin(key).len(),
        decreases bound,
    {
        if exists|other: HoughBin| (#[trigger] self.bin(other)).len() == bound {
            choose|other: HoughBin| (#[trigger] self.bin(other)).len() == bound
        } else {
            self.lemma_longest_bin((bound - 1) as nat)
        }
    }

    /// Among the bins with as many voters as `key`, one comes first.
    proof fn lemma_first_bin(self, key: HoughBin) -> (first: HoughBin)
        ensures
            self.bin(first).len() == self.bin(key).len(),
            forall|other: HoughBin|
                (#[trigger] self.bin(other)).len() == self.bin(key).len() ==> !bin_before(
                    other,
                    first,
                ),
        decreases bin_code(key),
    {
        if exists|other: HoughBin|
            (#[trigger] self.bin(other)).len() == self.bin(key).len() && bin_before(other, key) {
            let earlier = choose|other: HoughBin|
                (#[trigger] self.bin(other)).len() == self.bin(key).len() && bin_before(
                    other,
                    key,
                );
            lemma_codes(earlier, key);
            self.lemma_first_bin(earlier)
        } else {
            key
        }
    }

    /// As soon as a hit votes, there is a most popular bin.
    pub proof fn lemma_some_bin_tops(self)
        requires
            self.wf(),
            exists|key: HoughBin| self.bin(key).len() > 0,
        ensures
            exists|key: HoughBin| self.tops(key),
    {
        assert forall|other: HoughBin| (#[trigger] self.bin(other)).len()
            <= self.ballots.len() by {
            self.lemma_bin_bounded(other);
        }
        let longest = self.lemma_longest_bin(self.ballots.len());
        let first = self.lemma_first_bin(longest);
        assert(self.tops(first));
    }

    /// The voters of the most popular bin are present hits, each listed once.
    pub proof fn lemma_popular(self)
        requires
            self.wf(),
        ensures
            self.most_popular().no_duplicates(),
            forall|q: usize| #[trigger] self.most_popular().contains(q) ==> self.holds(q),
    {
        if exists|key: HoughBin| self.tops(key) {
            let key = choose|key: HoughBin| self.tops(key);
            assert(self.bin(key).no_duplicates());
            assert forall|q: usize| #[trigger] self.most_popular().contains(q)
                implies self.holds(q) by {
                assert(self.bin(key).contains(q));
            }
        }
    }
}

/// What a list holds, given what it holds before its last entry.
pub proof fn lemma_last_step(points: Seq<usize>, q: usize)
    requires
        points.len() > 0,
    ensures
        points.contains(q) <==> points.drop_last().contains(q) || points.last() == q,
{
    let front = points.drop_last();
    if points.contains(q) {
        let k = choose|k: int| 0 <= k < points.len() && points[k] == q;
        if k < front.len() {
            assert(front[k] == q);
        }
    }
    if front.contains(q) {
        let k = choose|k: int| 0 <= k < front.len() && front[k] == q;
        assert(points[k] == q);
    }
    if points.last() == q {
        assert(points[points.len() - 1] == q);
    }
}

/// A list of distinct hits, each below `n`, has at most `n` entries.
pub proof fn lemma_distinct_bounded(s: Seq<usize>, n: nat)
    requires
        s.no_duplicates(),
        forall|i: int| 0 <= i < s.len() ==> #[trigger] s[i] < n,
    ensures
        s.len() <= n,
    decreases n,
{
    if s.len() > 0 {
        if n == 0 {
            assert(s[0] < n);
        } else {
            let top = (n - 1) as usize;
            if s.contains(top) {
                lemma_without(s, top);
                let rest = without(s, top);
                assert forall|i: int| 0 <= i < rest.len() implies #[trigger] rest[i] < n - 1 by {
                    assert(rest.contains(rest[i]));
                    assert(s.contains(rest[i]));
                    let k = choose|k: int| 0 <= k < s.len() && s[k] == rest[i];
                    assert(s[k] < n);
                }
                lemma_distinct_bounded(rest, (n - 1) as nat);
            } else {
                assert forall|i: int| 0 <= i < s.len() implies #[trigger] s[i] < n - 1 by {
                    assert(s[i] < n);
                    assert(s.contains(s[i]));
                }
                lemma_distinct_bounded(s, (n - 1) as nat);
            }
        }
    }
}

} // verus!
