//! Which pairs of hits lie within reach of each other.

use vstd::prelude::*;

verus! {

/// A symmetric relation between the hits of one event, each hit named by its
/// index: two hits are near when the distance between them is within the
/// caller's threshold.
///
/// Only one half of the table is kept, so that a pair cannot be near in one
/// direction alone.
pub struct Proximity {
    rows: Vec<Vec<bool>>,
}

impl Proximity {
    /// Row `i` holds one entry for each hit up to and including `i`.
    pub closed spec fn wf(&self) -> bool {
        forall|i: int| 0 <= i < self.rows@.len() ==> (#[trigger] self.rows@[i])@.len() == i + 1
    }

    /// The number of hits that the relation speaks of.
    pub closed spec fn size(&self) -> nat {
        self.rows@.len()
    }

    /// Whether hits `a` and `b` are near. A hit that the relation does not
    /// speak of is near nothing.
    pub closed spec fn near(&self, a: usize, b: usize) -> bool {
        if a <= b {
            b < self.rows@.len() && self.rows@[b as int]@[a as int]
        } else {
            a < self.rows@.len() && self.rows@[a as int]@[b as int]
        }
    }

    /// Being near does not depend on the order of the two hits.
    pub proof fn lemma_near_symmetric(&self, a: usize, b: usize)
        ensures
            self.near(a, b) == self.near(b, a),
    {
    }

    /// A relation over `points` hits in which no pair is near.
    pub fn new(points: usize) -> (p: Proximity)
        ensures
            p.wf(),
            p.size() == points,
            forall|a: usize, b: usize| !p.near(a, b),
    {
        let mut rows: Vec<Vec<bool>> = Vec::new();
        let mut i: usize = 0;
        while i < points
            invariant
                i <= points,
                rows@.len() == i,
                forall|k: int| 0 <= k < i ==> (#[trigger] rows@[k])@.len() == k + 1,
                forall|k: int, m: int| 0 <= k < i && 0 <= m <= k ==> !(#[trigger] rows@[k]@[m]),
            decreases points - i,
        {
            let mut row: Vec<bool> = Vec::new();
            let mut j: usize = 0;
            while j <= i
                invariant
                    i < points,
                    j <= i + 1,
                    row@.len() == j,
                    forall|m: int| 0 <= m < j ==> !(#[trigger] row@[m]),
                decreases i + 1 - j,
            {
                row.push(false);
                j = j + 1;
            }
            rows.push(row);
            i = i + 1;
        }
        Proximity { rows }
    }

    /// The number of hits that the relation speaks of.
    pub fn len(&self) -> (n: usize)
        ensures
            n == self.size(),
    {
        self.rows.len()
    }

    /// Records that hits `a` and `b` are near each other. Nothing changes when
    /// the relation does not speak of both.
    pub fn connect(&mut self, a: usize, b: usize)
        requires
            old(self).wf(),
        ensures
            final(self).wf(),
            final(self).size() == old(self).size(),
            forall|x: usize, y: usize| #[trigger]
                final(self).near(x, y) <==> (old(self).near(x, y) || (a < old(self).size() && b
                    < old(self).size() && ((x == a && y == b) || (x == b && y == a)))),
    {
        let hi = if a <= b { b } else { a };
        let lo = if a <= b { a } else { b };
        if hi < self.rows.len() {
            self.rows[hi][lo] = true;
        }
    }

    /// Whether hits `a` and `b` are near.
    pub fn is_near(&self, a: usize, b: usize) -> (r: bool)
        requires
            self.wf(),
        ensures
            r == self.near(a, b),
    {
        if a <= b {
            b < self.rows.len() && self.rows[b][a]
        } else {
            a < self.rows.len() && self.rows[a][b]
        }
    }
}

} // verus!
