use alpha_g::reconstruction::accumulator::HoughSpaceAccumulator;
use alpha_g::reconstruction::connectivity::largest_cluster;
use alpha_g::reconstruction::hough::{bins_for, HoughBin, RhoSample};
use alpha_g::reconstruction::proximity::Proximity;
use alpha_g::reconstruction::track_finding::{
    add_all, best_cluster, cluster_spacepoints, remove_all, Cluster, ClusteringResult,
};

// A hit in cylindrical coordinates.
#[derive(Clone, Copy)]
struct Hit {
    r: f64,
    phi: f64,
    z: f64,
}

fn hit(r: f64, phi: f64, z: f64) -> Hit {
    Hit { r, phi, z }
}

// The conformal map: circles through the origin become straight lines.
fn u_v(point: Hit) -> (f64, f64) {
    let u = (point.r * point.phi.cos()) / (point.r * point.r);
    let v = (point.r * point.phi.sin()) / (point.r * point.r);
    (u, v)
}

fn sample(rho: f64, delta_rho: f64) -> RhoSample {
    RhoSample { bin: (rho / delta_rho).floor() as u32, negative: !rho.is_sign_positive() }
}

fn samples_of(point: Hit, rho_max: f64, rho_bins: u32, theta_bins: u32) -> Vec<RhoSample> {
    let (u, v) = u_v(point);
    let delta_theta = std::f64::consts::TAU / f64::from(theta_bins);
    let delta_rho = rho_max / f64::from(rho_bins);
    let mut samples = vec![sample(u, delta_rho)];
    for theta_bin in 1..=theta_bins {
        let theta = f64::from(theta_bin) * delta_theta;
        let (sin, cos) = theta.sin_cos();
        samples.push(sample(u * cos + v * sin, delta_rho));
    }
    samples
}

fn distance(a: Hit, b: Hit) -> f64 {
    let (x_a, y_a) = (a.r * a.phi.cos(), a.r * a.phi.sin());
    let (x_b, y_b) = (b.r * b.phi.cos(), b.r * b.phi.sin());
    ((x_a - x_b).powi(2) + (y_a - y_b).powi(2) + (a.z - b.z).powi(2)).sqrt()
}

fn cluster_hits(
    hits: &[Hit],
    max_num_clusters: usize,
    min_num_points_per_cluster: usize,
    rho_bins: u32,
    theta_bins: u32,
    max_distance: f64,
) -> ClusteringResult {
    let rho_max = hits
        .iter()
        .map(|&point| {
            let (u, v) = u_v(point);
            (u * u + v * v).sqrt()
        })
        .fold(0.0, f64::max);
    let samples: Vec<Vec<RhoSample>> =
        hits.iter().map(|&point| samples_of(point, rho_max, rho_bins, theta_bins)).collect();
    let mut prox = Proximity::new(hits.len());
    for i in 0..hits.len() {
        for j in 0..=i {
            if distance(hits[i], hits[j]) <= max_distance {
                prox.connect(i, j);
            }
        }
    }
    cluster_spacepoints(&samples, &prox, max_num_clusters, min_num_points_per_cluster)
}

fn sorted(mut points: Vec<usize>) -> Vec<usize> {
    points.sort();
    points
}

fn nonneg(bin: u32) -> RhoSample {
    RhoSample { bin, negative: false }
}

fn neg() -> RhoSample {
    RhoSample { bin: 0, negative: true }
}

fn key(theta: u32, rho: u32) -> HoughBin {
    HoughBin { theta, rho }
}

#[test]
fn empty_input() {
    let result = cluster_hits(&[], 10, 2, 200, 200, 1.0);
    assert_eq!(result, ClusteringResult { clusters: Vec::new(), remainder: Vec::new() });

    // Not even with a minimum of zero hits does an empty event have clusters.
    let result = cluster_spacepoints(&Vec::new(), &Proximity::new(0), 5, 0);
    assert!(result.clusters.is_empty());
    assert!(result.remainder.is_empty());
}

#[test]
fn collinear_through_origin() {
    let hits = [hit(1.0, 0.0, 0.0), hit(2.0, 0.0, 0.0), hit(3.0, 0.0, 0.0)];
    let result = cluster_hits(&hits, 10, 2, 100, 100, 10.0);
    assert_eq!(result.clusters.len(), 1);
    assert_eq!(sorted(result.clusters[0].0.clone()), vec![0, 1, 2]);
    assert!(result.remainder.is_empty());
}

#[test]
fn distance_gated_split() {
    let hits = [hit(1.0, 0.0, 0.0), hit(1.0, 0.0, 0.1), hit(1.0, 0.0, 100.0)];
    let result = cluster_hits(&hits, 10, 2, 100, 100, 1.0);
    assert_eq!(result.clusters.len(), 1);
    assert_eq!(sorted(result.clusters[0].0.clone()), vec![0, 1]);
    assert_eq!(result.remainder, vec![2]);
}

#[test]
fn minimum_size_rejection() {
    let hits = [hit(1.0, 0.3, 0.0)];
    let result = cluster_hits(&hits, 10, 2, 100, 100, 1.0);
    assert!(result.clusters.is_empty());
    assert_eq!(result.remainder, vec![0]);
}

#[test]
fn lone_point_is_a_cluster_when_one_hit_is_enough() {
    let hits = [hit(1.0, 0.3, 0.0)];
    let result = cluster_hits(&hits, 10, 1, 100, 100, 1.0);
    assert_eq!(result.clusters, vec![Cluster(vec![0])]);
    assert!(result.remainder.is_empty());
}

#[test]
fn cluster_count_is_capped() {
    // Two tracks along the same line, far apart in z.
    let hits = [
        hit(1.0, 0.0, 0.0),
        hit(2.0, 0.0, 0.0),
        hit(3.0, 0.0, 0.0),
        hit(1.0, 0.0, 50.0),
        hit(2.0, 0.0, 50.0),
    ];
    let all = cluster_hits(&hits, 10, 2, 100, 100, 1.5);
    assert_eq!(all.clusters.len(), 2);
    assert_eq!(sorted(all.clusters[0].0.clone()), vec![0, 1, 2]);
    assert_eq!(sorted(all.clusters[1].0.clone()), vec![3, 4]);
    assert!(all.remainder.is_empty());

    let one = cluster_hits(&hits, 1, 2, 100, 100, 1.5);
    assert_eq!(one.clusters.len(), 1);
    assert_eq!(sorted(one.clusters[0].0.clone()), vec![0, 1, 2]);
    assert_eq!(one.remainder, vec![3, 4]);

    let none = cluster_hits(&hits, 0, 2, 100, 100, 1.5);
    assert!(none.clusters.is_empty());
    assert_eq!(none.remainder, vec![0, 1, 2, 3, 4]);

    // The search stops at the first cluster that is too small.
    let large_only = cluster_hits(&hits, 10, 3, 100, 100, 1.5);
    assert_eq!(large_only.clusters.len(), 1);
    assert_eq!(large_only.remainder, vec![3, 4]);
}

fn scattered_hits() -> Vec<Hit> {
    // A fixed sequence of pseudo-random hits, with a few radial tracks among them.
    let mut state: u64 = 0x2545_f491_4f6c_dd1d;
    let mut next = move || {
        state ^= state << 13;
        state ^= state >> 7;
        state ^= state << 17;
        (state >> 11) as f64 / (1u64 << 53) as f64
    };
    let mut hits = Vec::new();
    for track in 0..4 {
        let phi = 0.4 + 1.3 * f64::from(track);
        for step in 0..8 {
            hits.push(hit(110.0 + 8.0 * f64::from(step), phi, 5.0 * f64::from(step)));
        }
    }
    for _ in 0..40 {
        hits.push(hit(
            110.0 + 80.0 * next(),
            std::f64::consts::TAU * next(),
            -200.0 + 400.0 * next(),
        ));
    }
    hits
}

#[test]
fn partition_law_on_scattered_hits() {
    let hits = scattered_hits();
    for (max_clusters, min_points) in [(0, 1), (1, 1), (3, 2), (10, 3), (100, 0)] {
        let result = cluster_hits(&hits, max_clusters, min_points, 50, 60, 15.0);
        let mut seen: Vec<usize> = result.remainder.clone();
        for cluster in &result.clusters {
            seen.extend(cluster.0.iter().copied());
        }
        assert_eq!(sorted(seen), (0..hits.len()).collect::<Vec<usize>>());
    }
}

#[test]
fn cardinality_bounds_on_scattered_hits() {
    let hits = scattered_hits();
    for (max_clusters, min_points) in [(0, 1), (1, 1), (3, 2), (10, 3), (100, 5)] {
        let result = cluster_hits(&hits, max_clusters, min_points, 50, 60, 15.0);
        assert!(result.clusters.len() <= max_clusters);
        for cluster in &result.clusters {
            assert!(cluster.0.len() >= min_points);
        }
    }
}

#[test]
fn repeated_runs_agree() {
    let hits = scattered_hits();
    let first = cluster_hits(&hits, 10, 2, 50, 60, 15.0);
    for _ in 0..5 {
        assert_eq!(cluster_hits(&hits, 10, 2, 50, 60, 15.0), first);
    }
}

#[test]
fn zero_minimum_keeps_no_empty_cluster() {
    let hits = [hit(1.0, 0.3, 0.0)];
    let result = cluster_hits(&hits, 3, 0, 10, 10, 1.0);
    assert_eq!(result.clusters, vec![Cluster(vec![0])]);
    assert!(result.remainder.is_empty());
}

#[test]
fn hit_on_the_far_side_forms_no_cluster_with_zero_minimum() {
    // One sector, and the line of the hit is on the far side at both of its ends.
    let hits = [hit(1.0, std::f64::consts::PI, 0.0)];
    let samples = samples_of(hits[0], 1.0, 1, 1);
    assert_eq!(samples, vec![neg(), neg()]);
    let result = cluster_hits(&hits, 1, 0, 1, 1, 1.0);
    assert!(result.clusters.is_empty());
    assert_eq!(result.remainder, vec![0]);
}

#[test]
fn no_cluster_of_a_result_is_empty() {
    let hits = scattered_hits();
    for (max_clusters, min_points) in [(1, 0), (10, 0), (100, 0), (200, 1)] {
        let result = cluster_hits(&hits, max_clusters, min_points, 50, 60, 15.0);
        assert!(!result.clusters.is_empty());
        for cluster in &result.clusters {
            assert!(!cluster.0.is_empty());
        }
    }
}

#[test]
fn votes_fill_the_rings_between_two_samples() {
    let samples = vec![nonneg(2), nonneg(4), neg(), neg(), nonneg(1)];
    assert_eq!(
        bins_for(&samples),
        vec![
            key(0, 2),
            key(0, 3),
            key(0, 4),
            key(1, 0),
            key(1, 1),
            key(1, 2),
            key(1, 3),
            key(1, 4),
            key(3, 0),
            key(3, 1),
        ]
    );
}

#[test]
fn votes_of_short_sample_lists() {
    assert_eq!(bins_for(&Vec::new()), Vec::new());
    assert_eq!(bins_for(&vec![nonneg(3)]), Vec::new());
    assert_eq!(bins_for(&vec![nonneg(3), nonneg(3)]), vec![key(0, 3)]);
    assert_eq!(bins_for(&vec![neg(), neg()]), Vec::new());
    assert_eq!(bins_for(&vec![neg(), nonneg(0)]), vec![key(0, 0)]);
    assert_eq!(
        bins_for(&vec![nonneg(u32::MAX), nonneg(u32::MAX - 1)]),
        vec![key(0, u32::MAX - 1), key(0, u32::MAX)]
    );
}

#[test]
fn votes_match_the_sampled_line() {
    // A hit at u = 1, v = 0 with 4 sectors and 2 rings: rho = cos(theta).
    let samples = samples_of(hit(1.0, 0.0, 0.0), 1.0, 2, 4);
    assert_eq!(samples[0], nonneg(2));
    assert_eq!(samples[2], RhoSample { bin: 0, negative: true });
    assert_eq!(samples.len(), 5);
    let bins = bins_for(&samples);
    assert!(bins.contains(&key(0, 2)));
    assert!(bins.contains(&key(0, 0)));
    assert!(bins.contains(&key(3, 1)));
    assert!(bins.iter().all(|bin| bin.theta < 4));
}

#[test]
fn proximity_is_symmetric() {
    let mut prox = Proximity::new(4);
    assert_eq!(prox.len(), 4);
    for a in 0..5 {
        for b in 0..5 {
            assert!(!prox.is_near(a, b));
        }
    }
    prox.connect(1, 3);
    prox.connect(2, 2);
    prox.connect(0, 7);
    for a in 0..9 {
        for b in 0..9 {
            let expected = (a, b) == (1, 3) || (a, b) == (3, 1) || (a, b) == (2, 2);
            assert_eq!(prox.is_near(a, b), expected, "{a} {b}");
        }
    }
}

#[test]
fn largest_cluster_follows_chains() {
    let mut prox = Proximity::new(7);
    prox.connect(0, 3);
    prox.connect(3, 5);
    prox.connect(1, 2);
    prox.connect(4, 6);
    prox.connect(6, 1);
    // Components: {0, 3, 5} and {1, 2, 4, 6}.
    assert_eq!(largest_cluster(&vec![0, 1, 2, 3, 4, 5, 6], &prox), vec![1, 2, 4, 6]);
    // The hits come in the order of the list.
    assert_eq!(largest_cluster(&vec![6, 5, 4, 3, 2, 1, 0], &prox), vec![6, 4, 2, 1]);
    // Without hit 6 the chain from 4 to 1 is broken.
    assert_eq!(largest_cluster(&vec![0, 1, 2, 3, 4, 5], &prox), vec![0, 3, 5]);
    // Of two components of equal size the one that starts first wins.
    assert_eq!(largest_cluster(&vec![1, 2, 0, 3], &prox), vec![1, 2]);
    assert_eq!(largest_cluster(&vec![3, 2, 0, 1], &prox), vec![3, 0]);
    assert_eq!(largest_cluster(&vec![5], &prox), vec![5]);
    assert_eq!(largest_cluster(&Vec::new(), &prox), Vec::new());
    // Hits that the relation does not know are near nothing.
    assert_eq!(largest_cluster(&vec![9, 8], &prox), vec![9]);
}

fn three_hit_accumulator() -> HoughSpaceAccumulator {
    // Hits 0 and 2 vote for (0, 1) and (1, 1); hit 1 for those and for (1, 2) and (2, 2).
    let samples = vec![
        vec![nonneg(1), nonneg(1), nonneg(1)],
        vec![nonneg(1), nonneg(1), nonneg(2), nonneg(2)],
        vec![nonneg(1), nonneg(1), nonneg(1)],
    ];
    let mut acc = HoughSpaceAccumulator::new(&samples);
    assert_eq!(acc.len(), 3);
    assert!(acc.most_popular().is_empty());
    for point in 0..3 {
        assert!(!acc.holds(point));
        acc.add(point);
        assert!(acc.holds(point));
    }
    acc
}

#[test]
fn most_popular_bin_and_its_ties() {
    let mut acc = three_hit_accumulator();
    // Bin (0, 1) has three voters, in the order in which they were added.
    assert_eq!(acc.most_popular(), vec![0, 1, 2]);
    // Taking a voter out moves the last one into its place.
    acc.remove(0);
    assert!(!acc.holds(0));
    assert_eq!(acc.most_popular(), vec![2, 1]);
    // Bins (0, 1) and (1, 1) now tie on one voter once hit 1 is gone; the first bin wins.
    acc.remove(1);
    assert_eq!(acc.most_popular(), vec![2]);
    acc.remove(2);
    assert!(acc.most_popular().is_empty());
    // Putting a hit back appends it.
    acc.add(1);
    acc.add(0);
    assert_eq!(acc.most_popular(), vec![1, 0]);
}

#[test]
fn adding_and_removing_twice_changes_nothing() {
    let mut acc = three_hit_accumulator();
    acc.add(1);
    acc.add(7);
    assert_eq!(acc.most_popular(), vec![0, 1, 2]);
    acc.remove(7);
    acc.remove(1);
    acc.remove(1);
    assert_eq!(acc.most_popular(), vec![0, 2]);
    remove_all(&mut acc, &vec![0, 2, 0]);
    assert!(acc.most_popular().is_empty());
    add_all(&mut acc, &vec![2, 2, 1]);
    assert_eq!(acc.most_popular(), vec![2, 1]);
}

#[test]
fn best_cluster_climbs_to_the_larger_candidate() {
    // Hits 0 to 3 share bin (0, 0); hits 0, 4, 5, 6 and 7 share bin (1, 5).
    let shared = |first: u32, second: u32| vec![nonneg(first), nonneg(first), nonneg(second),
        nonneg(second)];
    let samples = vec![
        vec![nonneg(0), nonneg(0), nonneg(5), nonneg(5)],
        shared(0, 9),
        shared(0, 10),
        shared(0, 11),
        vec![nonneg(20), nonneg(20), nonneg(5), nonneg(5)],
        vec![nonneg(21), nonneg(21), nonneg(5), nonneg(5)],
        vec![nonneg(22), nonneg(22), nonneg(5), nonneg(5)],
        vec![nonneg(23), nonneg(23), nonneg(5), nonneg(5)],
    ];
    let mut acc = HoughSpaceAccumulator::new(&samples);
    add_all(&mut acc, &(0..8).collect());
    let mut prox = Proximity::new(8);
    // Of the voters of bin (1, 5) only hits 4 and 5 hang together; hits 1, 2 and 3 do.
    prox.connect(4, 5);
    prox.connect(1, 2);
    prox.connect(2, 3);
    // The most popular bin, (1, 5), yields only {4, 5}; with those gone bin (0, 0) yields
    // {1, 2, 3}, which is larger, so {4, 5} goes back.
    assert_eq!(sorted(best_cluster(&mut acc, &prox)), vec![1, 2, 3]);
    for point in [0, 4, 5, 6, 7] {
        assert!(acc.holds(point));
    }
    for point in [1, 2, 3] {
        assert!(!acc.holds(point));
    }
    assert_eq!(sorted(best_cluster(&mut acc, &prox)), vec![4, 5]);
}

#[test]
fn hits_on_no_common_line_form_no_cluster() {
    // Three hits far from each other in every direction.
    let hits = [hit(120.0, 0.1, -300.0), hit(150.0, 2.2, 0.0), hit(180.0, 4.3, 300.0)];
    let result = cluster_hits(&hits, 10, 2, 100, 100, 5.0);
    assert!(result.clusters.is_empty());
    assert_eq!(result.remainder, vec![0, 1, 2]);
}

#[test]
fn hit_without_votes_stays_in_the_remainder() {
    // Hit 1 has no samples, so it votes for nothing, though it is near the others.
    let line = vec![nonneg(4), nonneg(4), nonneg(5)];
    let samples = vec![line.clone(), Vec::new(), line.clone(), line];
    let mut prox = Proximity::new(4);
    for a in 0..4 {
        for b in 0..=a {
            prox.connect(a, b);
        }
    }
    let result = cluster_spacepoints(&samples, &prox, 10, 1);
    assert_eq!(result.clusters, vec![Cluster(vec![0, 2, 3])]);
    assert_eq!(result.remainder, vec![1]);
}

#[test]
fn remainder_takes_the_hits_of_a_rejected_cluster() {
    // Hits 0, 1 and 2 share a bin and hang together; hits 3 and 4 share another.
    let first = vec![nonneg(1), nonneg(1)];
    let second = vec![nonneg(7), nonneg(7)];
    let samples = vec![first.clone(), first.clone(), first, second.clone(), second];
    let mut prox = Proximity::new(5);
    prox.connect(0, 1);
    prox.connect(1, 2);
    prox.connect(3, 4);
    let result = cluster_spacepoints(&samples, &prox, 10, 3);
    assert_eq!(result.clusters, vec![Cluster(vec![0, 1, 2])]);
    assert_eq!(result.remainder, vec![3, 4]);
    let result = cluster_spacepoints(&samples, &prox, 10, 2);
    assert_eq!(result.clusters, vec![Cluster(vec![0, 1, 2]), Cluster(vec![3, 4])]);
    assert!(result.remainder.is_empty());
}

#[test]
fn bins_come_with_their_first_voter() {
    let samples = vec![vec![nonneg(1), nonneg(1), nonneg(1)]];
    let mut acc = HoughSpaceAccumulator::new(&samples);
    assert_eq!(acc.get_bins(0), vec![key(0, 1), key(1, 1)]);
    assert_eq!(acc.get_bins(1), Vec::new());
    assert_eq!(acc.voters_of(key(0, 1)), None);
    assert_eq!(acc.voters_of(key(1, 1)), None);
    acc.add(0);
    assert_eq!(acc.voters_of(key(0, 1)), Some(vec![0]));
    assert_eq!(acc.voters_of(key(1, 1)), Some(vec![0]));
    assert_eq!(acc.voters_of(key(1, 0)), None);
}

#[test]
fn remove_keeps_the_bin_of_its_last_voter() {
    let mut acc = three_hit_accumulator();
    assert_eq!(acc.voters_of(key(1, 2)), Some(vec![1]));
    assert_eq!(acc.voters_of(key(2, 2)), Some(vec![1]));
    assert_eq!(acc.voters_of(key(5, 5)), None);
    acc.remove(1);
    // The bins that hit 1 alone voted for are still there, and empty.
    assert_eq!(acc.voters_of(key(1, 2)), Some(Vec::new()));
    assert_eq!(acc.voters_of(key(2, 2)), Some(Vec::new()));
    assert_eq!(acc.voters_of(key(5, 5)), None);
    // An empty bin is not the most popular one, though it comes first among equals.
    acc.remove(0);
    acc.remove(2);
    assert_eq!(acc.voters_of(key(0, 1)), Some(Vec::new()));
    assert!(acc.most_popular().is_empty());
    acc.add(1);
    assert_eq!(acc.voters_of(key(1, 2)), Some(vec![1]));
    assert_eq!(acc.most_popular(), vec![1]);
}

#[test]
fn remove_leaves_other_bins_and_other_voters_alone() {
    let mut acc = three_hit_accumulator();
    acc.remove(0);
    // Bins off the ballot of hit 0 are as they were.
    assert_eq!(acc.voters_of(key(1, 2)), Some(vec![1]));
    assert_eq!(acc.voters_of(key(2, 2)), Some(vec![1]));
    // Bins on its ballot have lost hit 0 and nothing else.
    assert_eq!(acc.voters_of(key(0, 1)), Some(vec![2, 1]));
    assert_eq!(acc.voters_of(key(1, 1)), Some(vec![2, 1]));
    assert_eq!(acc.get_bins(0), vec![key(0, 1), key(1, 1)]);
    assert_eq!(acc.get_bins(1), vec![key(0, 1), key(1, 1), key(1, 2), key(2, 2)]);
    // Removing a hit that is not present changes nothing.
    acc.remove(0);
    acc.remove(9);
    assert_eq!(acc.voters_of(key(0, 1)), Some(vec![2, 1]));
    assert_eq!(acc.len(), 3);
}
