//! Votes of a hit in the discretised space of lines.

use vstd::prelude::*;

verus! {

/// One cell of the voting space: an angular sector and a distance ring.
#[derive(Clone, Copy, Debug, PartialEq, Eq, Structural)]
pub struct HoughBin {
    pub theta: u32,
    pub rho: u32,
}

/// The distance of a hit's line from the origin at one sampled angle.
///
/// `bin` is the distance ring the line falls in, with lines on the far side
/// of the origin clamped to ring 0; `negative` records that the line was on
/// the far side before clamping.
#[derive(Clone, Copy, Debug, PartialEq, Eq, Structural)]
pub struct RhoSample {
    pub bin: u32,
    pub negative: bool,
}

/// The smaller of two ring indices.
pub open spec fn ring_min(a: u32, b: u32) -> u32 {
    if a <= b { a } else { b }
}

/// The larger of two ring indices.
pub open spec fn ring_max(a: u32, b: u32) -> u32 {
    if a <= b { b } else { a }
}

/// Whether a hit whose line was sampled as `samples` votes for `bin`.
///
/// Sample `t` and sample `t + 1` bound sector `t`. The hit votes for every
/// ring between the two samples, both included, unless the line is on the far
/// side of the origin at both of them.
pub open spec fn votes_for(samples: Seq<RhoSample>, bin: HoughBin) -> bool {
    let t = bin.theta as int;
    &&& t + 1 < samples.len()
    &&& !(samples[t].negative && samples[t + 1].negative)
    &&& ring_min(samples[t].bin, samples[t + 1].bin) <= bin.rho
    &&& bin.rho <= ring_max(samples[t].bin, samples[t + 1].bin)
}

/// The order in which votes are listed: by sector, then by ring.
pub open spec fn bin_before(a: HoughBin, b: HoughBin) -> bool {
    a.theta < b.theta || (a.theta == b.theta && a.rho < b.rho)
}

/// Whether a list of bins is strictly increasing, hence free of repeats.
pub open spec fn strictly_ordered(bins: Seq<HoughBin>) -> bool {
    forall|i: int, j: int| 0 <= i < j < bins.len() ==> bin_before(bins[i], bins[j])
}

fn lower_ring(a: u32, b: u32) -> (r: u32)
    ensures
        r == ring_min(a, b),
{
    if a <= b { a } else { b }
}

fn upper_ring(a: u32, b: u32) -> (r: u32)
    ensures
        r == ring_max(a, b),
{
    if a <= b { b } else { a }
}

/// Whether every sector that the samples bound can be numbered: a sector
/// number has 32 bits.
pub open spec fn sectors_fit(samples: Seq<RhoSample>) -> bool {
    samples.len() <= 0x1_0000_0001
}

/// All the bins that a hit votes for, each listed once, in increasing order.
///
/// `samples` holds one more entry than there are sectors: the line's distance
/// at the start of the first sector, then at the end of each sector in turn.
pub fn bins_for(samples: &Vec<RhoSample>) -> (bins: Vec<HoughBin>)
    requires
        sectors_fit(samples@),
    ensures
        forall|b: HoughBin| bins@.contains(b) <==> votes_for(samples@, b),
        strictly_ordered(bins@),
{
    let mut bins: Vec<HoughBin> = Vec::new();
    if samples.len() == 0 {
        return bins;
    }
    let sectors = samples.len() - 1;
    let mut t: usize = 0;
    while t < sectors
        invariant
            sectors_fit(samples@),
            sectors + 1 == samples@.len(),
            t <= sectors,
            forall|b: HoughBin| #[trigger] bins@.contains(b)
                <==> (votes_for(samples@, b) && b.theta < t),
            strictly_ordered(bins@),
        decreases sectors - t,
    {
        let prev = samples[t];
        let cur = samples[t + 1];
        if !(prev.negative && cur.negative) {
            let lo = lower_ring(prev.bin, cur.bin);
            let hi = upper_ring(prev.bin, cur.bin);
            let theta = t as u32;
            let mut rho: u32 = lo;
            let ghost before = bins@;
            loop
                invariant_except_break
                    lo <= rho <= hi,
                    forall|b: HoughBin| #[trigger] bins@.contains(b)
                        <==> (before.contains(b) || (b.theta == theta && lo <= b.rho < rho)),
                invariant
                    theta == t,
                    t + 1 < samples@.len(),
                    forall|b: HoughBin| #[trigger] before.contains(b) ==> b.theta < t,
                    strictly_ordered(bins@),
                ensures
                    forall|b: HoughBin| #[trigger] bins@.contains(b)
                        <==> (before.contains(b) || (b.theta == theta && lo <= b.rho <= hi)),
                decreases hi - rho,
            {
                let vote = HoughBin { theta, rho };
                proof {
                    let old_bins = bins@;
                    assert forall|i: int| 0 <= i < old_bins.len()
                        implies bin_before(#[trigger] old_bins[i], vote) by {
                        assert(old_bins.contains(old_bins[i]));
                    }
                    assert forall|b: HoughBin| #[trigger] old_bins.push(vote).contains(b)
                        <==> (old_bins.contains(b) || b == vote) by {
                        if old_bins.push(vote).contains(b) {
                            let k = choose|k: int| 0 <= k < old_bins.push(vote).len()
                                && old_bins.push(vote)[k] == b;
                            if k < old_bins.len() {
                                assert(old_bins[k] == b);
                            }
                        }
                        if old_bins.contains(b) {
                            let k = choose|k: int| 0 <= k < old_bins.len() && old_bins[k] == b;
                            assert(old_bins.push(vote)[k] == b);
                        }
                        if b == vote {
                            assert(old_bins.push(vote)[old_bins.len() as int] == b);
                        }
                    }
                }
                bins.push(vote);
                if rho == hi {
                    break;
                }
                rho = rho + 1;
            }
        }
        t = t + 1;
    }
    bins
}

} // verus!
