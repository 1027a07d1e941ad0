use dynops::cluster::{cluster, group_by_cluster, is_neighborhood_exec, Classification};
use dynops::cluster::Classification::{Core, Edge, Noise};
use dynops::text::split_coordinate_lines;

const EPSILON: f64 = 100.0;
const MIN_POINTS: usize = 6;

/// Every point within `eps` of each point (squared distance, strictly less),
/// as the radius query of the clustering computes it.
fn neighbors(points: &[(f64, f64)], eps: f64) -> Vec<Vec<usize>> {
    points
        .iter()
        .map(|&(x, y)| {
            points
                .iter()
                .enumerate()
                .filter(|(_, &(px, py))| (px - x) * (px - x) + (py - y) * (py - y) < eps * eps)
                .map(|(j, _)| j)
                .collect()
        })
        .collect()
}

fn cluster_points(eps: f64, min_points: usize, points: &[(f64, f64)]) -> Vec<Classification> {
    let nb = neighbors(points, eps);
    assert!(is_neighborhood_exec(&nb));
    cluster(&nb, min_points)
}

#[test]
fn cluster_nine_point_center() {
    let data = "0,0\n1,0\n2,0\n0,1\n1,1\n2,1\n0,2\n1,2\n2,2".to_owned();
    let fields = split_coordinate_lines(&data);
    assert_eq!(fields.len(), 9);
    let points: Vec<(f64, f64)> = fields
        .into_iter()
        .map(|f| {
            let (x, y) = f.expect("every line has a comma");
            (x.parse().unwrap(), y.parse().unwrap())
        })
        .collect();
    let labels = cluster_points(EPSILON, MIN_POINTS, &points);
    assert_eq!(labels, vec![Core(0); 9]);
    assert_eq!(group_by_cluster(&labels, true), vec![(0..9).collect::<Vec<usize>>()]);
}

#[test]
fn cluster_cluster_nine_points() {
    let args: Vec<(f64, f64)> = vec![
        (0., 0.),
        (1., 0.),
        (2., 0.),
        (0., 1.),
        (1., 1.),
        (2., 1.),
        (0., 2.),
        (1., 2.),
        (2., 2.),
    ];
    assert_eq!(
        vec![
            Core(0),
            Core(0),
            Core(0),
            Core(0),
            Core(0),
            Core(0),
            Core(0),
            Core(0),
            Core(0),
        ],
        cluster_points(5., 3, &args)
    );
}

#[test]
fn empty_input() {
    let points: Vec<(f64, f64)> = vec![];
    assert_eq!(
        Vec::<Classification>::new(),
        cluster_points(EPSILON, MIN_POINTS, &points)
    );
}

#[test]
fn all_noise_when_points_further_apart_than_eps() {
    let points: Vec<(f64, f64)> = (0..5)
        .flat_map(|x| (0..5).map(move |y| (x as f64 * 200., y as f64 * 200.)))
        .collect();
    let result = cluster_points(EPSILON, MIN_POINTS, &points);
    assert!(result.iter().all(|c| *c == Noise));
}

#[test]
fn two_well_separated_clusters_get_distinct_ids() {
    let mut points: Vec<(f64, f64)> = Vec::new();
    for x in 0..3 {
        for y in 0..3 {
            points.push((x as f64, y as f64));
        }
    }
    for x in 0..3 {
        for y in 0..3 {
            points.push((10_000. + x as f64, 10_000. + y as f64));
        }
    }
    let result = cluster_points(5., 3, &points);
    let first_cluster = result[0];
    let second_cluster = result[9];
    assert!(matches!(first_cluster, Core(_)));
    assert!(matches!(second_cluster, Core(_)));
    assert_ne!(first_cluster, second_cluster);
    for &c in &result[0..9] {
        assert_eq!(c, first_cluster);
    }
    for &c in &result[9..18] {
        assert_eq!(c, second_cluster);
    }
}

#[test]
fn long_chain_does_not_stack_overflow() {
    let n: usize = 50_000;
    let points: Vec<(f64, f64)> = (0..n).map(|i| (i as f64 * 10., 0.)).collect();
    // The chain is sorted along x, so each point's neighbours lie in a window.
    let nb: Vec<Vec<usize>> = (0..n)
        .map(|i| {
            let lo = i.saturating_sub(20);
            let hi = (i + 20).min(n - 1);
            (lo..=hi)
                .filter(|&j| {
                    let dx = points[j].0 - points[i].0;
                    dx * dx < EPSILON * EPSILON
                })
                .collect()
        })
        .collect();
    let result = cluster(&nb, MIN_POINTS);
    assert!(result.iter().all(|c| !matches!(c, Noise)));
    let Core(cluster_id) = result[0] else {
        panic!(
            "expected first point to be a core point, got {:?}",
            result[0]
        );
    };
    for c in &result {
        match c {
            Core(id) | Edge(id) => assert_eq!(*id, cluster_id),
            Noise => panic!("unexpected noise point in a dense chain"),
        }
    }
}

/// The recursive depth-first DBSCAN, for comparing labellings.
fn depth_first_cluster(nb: &[Vec<usize>], min_points: usize) -> Vec<Classification> {
    fn expand(
        nb: &[Vec<usize>],
        min_points: usize,
        c: &mut Vec<Classification>,
        v: &mut Vec<bool>,
        index: usize,
        cluster: usize,
    ) {
        c[index] = Core(cluster);
        for &n_idx in &nb[index] {
            let visited = v[n_idx];
            if c[n_idx] == Noise {
                c[n_idx] = Edge(cluster);
            }
            if !visited {
                v[n_idx] = true;
                if nb[n_idx].len() >= min_points {
                    expand(nb, min_points, c, v, n_idx, cluster);
                }
            }
        }
    }
    let mut c = vec![Noise; nb.len()];
    let mut v = vec![false; nb.len()];
    let mut cluster = 0;
    for idx in 0..nb.len() {
        if !v[idx] {
            v[idx] = true;
            if nb[idx].len() >= min_points {
                expand(nb, min_points, &mut c, &mut v, idx, cluster);
                cluster += 1;
            }
        }
    }
    c
}

struct Lcg(u64);
impl Lcg {
    fn next(&mut self) -> f64 {
        self.0 = self.0.wrapping_mul(6364136223846793005).wrapping_add(1);
        ((self.0 >> 33) as f64) / (u32::MAX as f64)
    }
}

#[test]
fn breadth_first_matches_depth_first_labelling() {
    let mut rng = Lcg(0x5eed);
    for round in 0..20 {
        let points: Vec<(f64, f64)> = (0..200)
            .map(|_| (rng.next() * 500., rng.next() * 500.))
            .collect();
        let nb = neighbors(&points, 30.0);
        for min_points in [1usize, 2, 3, 4, 6] {
            assert_eq!(
                cluster(&nb, min_points),
                depth_first_cluster(&nb, min_points),
                "round {round}, min_points {min_points}"
            );
        }
    }
}

#[test]
fn border_point_joins_first_cluster() {
    // Core groups meet through the border point 3.
    let nb: Vec<Vec<usize>> = vec![
        vec![0, 1, 2],
        vec![0, 1, 2],
        vec![0, 1, 2, 3],
        vec![2, 3, 4],
        vec![3, 4, 5, 6],
        vec![4, 5, 6],
        vec![4, 5, 6],
    ];
    assert!(is_neighborhood_exec(&nb));
    let labels = cluster(&nb, 3);
    assert_eq!(labels, vec![Core(0); 7]);
    let labels = cluster(&nb, 4);
    assert_eq!(labels, vec![Edge(0), Edge(0), Core(0), Edge(0), Core(1), Edge(1), Edge(1)]);
    assert_eq!(group_by_cluster(&labels, true), vec![vec![0, 1, 2, 3], vec![4, 5, 6]]);
    assert_eq!(group_by_cluster(&labels, false), vec![vec![2], vec![4]]);
}

#[test]
fn edge_point_reached_by_two_clusters_takes_the_lower_number() {
    // Point 6 borders the core points 0 (cluster 0) and 3 (cluster 1).
    let nb: Vec<Vec<usize>> = vec![
        vec![0, 1, 2, 6],
        vec![0, 1],
        vec![0, 2],
        vec![3, 4, 5, 6],
        vec![3, 4],
        vec![3, 5],
        vec![6, 3, 0],
    ];
    assert!(is_neighborhood_exec(&nb));
    let labels = cluster(&nb, 4);
    assert_eq!(
        labels,
        vec![Core(0), Edge(0), Edge(0), Core(1), Edge(1), Edge(1), Edge(0)]
    );
    assert_eq!(labels, depth_first_cluster(&nb, 4));
}

#[test]
fn min_points_two_is_connected_components() {
    let points = vec![(0., 0.), (10., 0.), (500., 0.), (1000., 0.), (1010., 0.), (1020., 0.)];
    let labels = cluster_points(EPSILON, 2, &points);
    assert_eq!(labels, vec![Core(0), Core(0), Noise, Core(1), Core(1), Core(1)]);
    assert!(labels.iter().all(|c| !matches!(c, Edge(_))));
    assert_eq!(group_by_cluster(&labels, true), vec![vec![0, 1], vec![3, 4, 5]]);
}

#[test]
fn neighborhood_check_rejects_bad_lists() {
    assert!(is_neighborhood_exec(&vec![vec![0, 1], vec![1, 0]]));
    assert!(!is_neighborhood_exec(&vec![vec![0, 1], vec![1]]));
    assert!(!is_neighborhood_exec(&vec![vec![0, 2], vec![1]]));
    assert!(is_neighborhood_exec(&Vec::<Vec<usize>>::new()));
}

#[test]
fn grouping_lists_members_in_order() {
    let labels = vec![Edge(1), Core(0), Noise, Core(1), Core(0), Edge(0)];
    assert_eq!(group_by_cluster(&labels, true), vec![vec![1, 4, 5], vec![0, 3]]);
    assert_eq!(group_by_cluster(&labels, false), vec![vec![1, 4], vec![3]]);
    assert_eq!(group_by_cluster(&vec![Noise, Noise], true), Vec::<Vec<usize>>::new());
}
