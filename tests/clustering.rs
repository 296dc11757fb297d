use palette_kmeans::cluster::{
    assign_all, cluster, cluster_with_seeds, is_closer, materialize, nearest_centroid,
    update_centroids, Centroid, ClusterError,
};
use palette_kmeans::color::Color;
use rand::rngs::StdRng;
use rand::SeedableRng;

fn c(r: u8, g: u8, b: u8) -> Color {
    Color::new(r, g, b)
}

fn single(x: Color) -> Centroid {
    Centroid { sum_r: x.r as u64, sum_g: x.g as u64, sum_b: x.b as u64, count: 1 }
}

fn sorted(mut v: Vec<Color>) -> Vec<Color> {
    v.sort_by_key(|x| x.to_key());
    v
}

fn four_colors() -> Vec<Color> {
    vec![c(0, 0, 0), c(1, 1, 1), c(255, 255, 255), c(254, 254, 254)]
}

fn assert_dark_light_split(groups: &[Vec<Color>]) {
    assert_eq!(groups.len(), 2);
    let dark = sorted(vec![c(0, 0, 0), c(1, 1, 1)]);
    let light = sorted(vec![c(254, 254, 254), c(255, 255, 255)]);
    let g0 = sorted(groups[0].clone());
    let g1 = sorted(groups[1].clone());
    assert!((g0 == dark && g1 == light) || (g0 == light && g1 == dark));
}

#[test]
fn end_to_end_two_pairs_every_seeding() {
    let colors = four_colors();
    for a in 0..4usize {
        for b in 0..4usize {
            if a != b {
                let r = cluster_with_seeds(&colors, &vec![a, b]).unwrap();
                assert!(r.converged);
                assert_dark_light_split(&r.groups);
            }
        }
    }
}

#[test]
fn end_to_end_two_pairs_random_seeding() {
    let colors = four_colors();
    for seed in 0..20u64 {
        let mut rng = StdRng::seed_from_u64(seed);
        let r = cluster(&colors, 2, &mut rng).unwrap();
        assert!(r.converged);
        assert_dark_light_split(&r.groups);
    }
}

#[test]
fn seeding_from_the_dark_pair_takes_an_update() {
    let colors = four_colors();
    let r = cluster_with_seeds(&colors, &vec![0, 1]).unwrap();
    assert_eq!(r.groups, vec![vec![c(0, 0, 0), c(1, 1, 1)], vec![c(255, 255, 255), c(254, 254, 254)]]);
    assert_eq!(r.iterations, 3);
    assert!(r.converged);
}

#[test]
fn single_cluster_holds_everything_after_one_pass() {
    let colors = vec![c(5, 6, 7), c(200, 1, 3), c(0, 0, 0), c(9, 90, 200)];
    for s in 0..4usize {
        let r = cluster_with_seeds(&colors, &vec![s]).unwrap();
        assert_eq!(r.groups, vec![colors.clone()]);
        assert_eq!(r.iterations, 1);
        assert!(r.converged);
    }
    let mut rng = StdRng::seed_from_u64(7);
    let r = cluster(&colors, 1, &mut rng).unwrap();
    assert_eq!(r.groups, vec![colors.clone()]);
}

#[test]
fn as_many_clusters_as_colors_gives_singletons() {
    let colors = vec![c(5, 6, 7), c(200, 1, 3), c(0, 0, 0), c(9, 90, 200)];
    let seeds = vec![2usize, 0, 3, 1];
    let r = cluster_with_seeds(&colors, &seeds).unwrap();
    assert!(r.converged);
    assert_eq!(r.iterations, 2);
    for (j, g) in r.groups.iter().enumerate() {
        assert_eq!(g, &vec![colors[seeds[j]]]);
    }
    let mut rng = StdRng::seed_from_u64(3);
    let r = cluster(&colors, 4, &mut rng).unwrap();
    assert!(r.groups.iter().all(|g| g.len() == 1));
}

#[test]
fn groups_cover_the_input_exactly_once() {
    let mut colors = Vec::new();
    for i in 0..40u32 {
        colors.push(Color::from_key(i * 409_123 % 0x100_0000));
    }
    for k in 1..8usize {
        let mut rng = StdRng::seed_from_u64(k as u64);
        let r = cluster(&colors, k, &mut rng).unwrap();
        assert_eq!(r.groups.len(), k);
        let all: Vec<Color> = r.groups.concat();
        assert_eq!(sorted(all), sorted(colors.clone()));
    }
}

#[test]
fn invalid_arguments_are_refused() {
    let colors = four_colors();
    let mut rng = StdRng::seed_from_u64(1);
    assert!(matches!(cluster(&colors, 0, &mut rng), Err(ClusterError::InvalidArgument)));
    assert!(matches!(cluster(&colors, 5, &mut rng), Err(ClusterError::InvalidArgument)));
    assert!(matches!(cluster(&Vec::new(), 1, &mut rng), Err(ClusterError::InvalidArgument)));
    assert!(matches!(cluster_with_seeds(&colors, &vec![]), Err(ClusterError::InvalidArgument)));
    assert!(matches!(cluster_with_seeds(&colors, &vec![0, 4]), Err(ClusterError::InvalidArgument)));
    assert!(matches!(
        cluster_with_seeds(&colors, &vec![0, 1, 2, 3, 0]),
        Err(ClusterError::InvalidArgument)
    ));
    assert!(matches!(cluster_with_seeds(&Vec::new(), &vec![0]), Err(ClusterError::InvalidArgument)));
}

#[test]
fn ties_go_to_the_lowest_index() {
    let x = c(1, 1, 1);
    let cents = vec![single(c(0, 0, 0)), single(c(2, 2, 2))];
    assert_eq!(nearest_centroid(x, &cents), 0);
    let cents = vec![single(c(9, 9, 9)), single(c(2, 2, 2)), single(c(0, 0, 0))];
    assert_eq!(nearest_centroid(x, &cents), 1);
    let same = vec![single(c(7, 7, 7)), single(c(7, 7, 7)), single(c(7, 7, 7))];
    assert_eq!(nearest_centroid(x, &same), 0);
    assert!(!is_closer(x, &cents[1], &cents[2]));
    assert!(!is_closer(x, &cents[2], &cents[1]));
}

#[test]
fn distance_to_a_mean_is_exact() {
    // Mean (0.5, 0.5, 0.5) against mean (1.5, 1.5, 1.5): color (1, 1, 1) is equidistant.
    let low = Centroid { sum_r: 1, sum_g: 1, sum_b: 1, count: 2 };
    let high = Centroid { sum_r: 3, sum_g: 3, sum_b: 3, count: 2 };
    assert!(!is_closer(c(1, 1, 1), &low, &high));
    assert!(!is_closer(c(1, 1, 1), &high, &low));
    assert!(is_closer(c(0, 0, 0), &low, &high));
    assert_eq!(assign_all(&vec![c(1, 1, 1), c(2, 2, 2), c(0, 0, 0)], &vec![low, high]), vec![0, 1, 0]);
}

#[test]
fn empty_cluster_keeps_its_centroid() {
    let colors = vec![c(0, 0, 0), c(10, 20, 30)];
    let prev = vec![single(c(0, 0, 0)), single(c(100, 100, 100)), single(c(50, 0, 0))];
    let next = update_centroids(&colors, &vec![0, 0], &prev);
    assert_eq!(next.len(), 3);
    assert_eq!((next[0].sum_r, next[0].sum_g, next[0].sum_b, next[0].count), (10, 20, 30, 2));
    assert_eq!((next[1].sum_r, next[1].sum_g, next[1].sum_b, next[1].count), (100, 100, 100, 1));
    assert_eq!((next[2].sum_r, next[2].sum_g, next[2].sum_b, next[2].count), (50, 0, 0, 1));
}

#[test]
fn materialize_makes_k_groups_in_order() {
    let colors = vec![c(1, 0, 0), c(2, 0, 0), c(3, 0, 0)];
    let groups = materialize(&colors, &vec![2, 0, 2], 4);
    assert_eq!(groups, vec![vec![c(2, 0, 0)], vec![], vec![c(1, 0, 0), c(3, 0, 0)], vec![]]);
}
