use gfalook::coverage::{GfaPath, PathStep};
use gfalook::cut::{count_labels, cut_dendrogram_at_height, find_leftmost_leaf, find_optimal_upgma_threshold};
use gfalook::dbscan::{dbscan_cluster, dbscan_count_clusters, find_optimal_eps, DIST_SCALE, EPS_FALLBACK};
use gfalook::dendrogram::build_dendrogram;
use gfalook::distance::{jaccard_to_edr, weighted_jaccard_similarity, Jaccard};
use gfalook::coverage::{coverage_total, path_coverage};
use gfalook::export::{cluster_tsv, medoids_tsv};
use gfalook::pipeline::{cluster_paths_by_similarity, path_distance_matrix};
use gfalook::union_find::UnionFind;

fn units(x: u64) -> u64 {
    x * (DIST_SCALE / 100)
}

fn matrix(rows: &[&[u64]]) -> Vec<Vec<u64>> {
    rows.iter().map(|r| r.iter().map(|&v| units(v)).collect()).collect()
}

fn path(name: &str, nodes: &[u64]) -> GfaPath {
    GfaPath {
        name: name.to_string(),
        steps: nodes.iter().map(|&n| PathStep { segment_id: n, is_reverse: false }).collect(),
    }
}

fn four_paths() -> Vec<Vec<u64>> {
    matrix(&[&[0, 10, 90, 90], &[10, 0, 90, 90], &[90, 90, 0, 20], &[90, 90, 20, 0]])
}

#[test]
fn dbscan_two_pairs_at_eps_030() {
    let ids = dbscan_cluster(&four_paths(), units(30));
    assert_eq!(ids, vec![0, 0, 1, 1]);
}

#[test]
fn dbscan_count_is_monotone_in_eps() {
    let m = matrix(&[&[0, 5, 40, 70], &[5, 0, 35, 80], &[40, 35, 0, 12], &[70, 80, 12, 0]]);
    let mut prev = usize::MAX;
    for k in 0..=100u64 {
        let c = dbscan_count_clusters(&m, units(k));
        assert!(c <= prev);
        prev = c;
    }
    assert_eq!(dbscan_count_clusters(&m, units(100)), 1);
}

#[test]
fn dbscan_at_zero_joins_only_zero_distances() {
    let m = matrix(&[&[0, 0, 30, 40], &[0, 0, 30, 1], &[30, 30, 0, 0], &[40, 1, 0, 0]]);
    assert_eq!(dbscan_count_clusters(&m, 0), 2);
    assert_eq!(dbscan_cluster(&m, 0), vec![0, 0, 1, 1]);
    let singles = matrix(&[&[0, 1], &[1, 0]]);
    assert_eq!(dbscan_count_clusters(&singles, 0), 2);
}

#[test]
fn dbscan_empty_matrix() {
    let m: Vec<Vec<u64>> = Vec::new();
    assert_eq!(dbscan_count_clusters(&m, units(30)), 0);
    assert!(dbscan_cluster(&m, units(30)).is_empty());
    assert_eq!(find_optimal_eps(&m, 0, None), EPS_FALLBACK);
}

#[test]
fn optimal_eps_settles_on_two_pairs() {
    // counts: 4 at 0; the pairs join at 0.10 and 0.20, everything at 0.90
    let eps = find_optimal_eps(&four_paths(), 4, Some(2));
    // at 0.005 the count is still 4 (change 0) but above the cap of 2;
    // at 0.100 it drops to 3 (change 1) still above the cap;
    // at 0.200 it drops to 2: within the cap with change 1
    assert_eq!(eps, units(20));
    assert_eq!(find_optimal_eps(&four_paths(), 4, Some(4)), 5_000_000);
}

#[test]
fn optimal_eps_falls_back_when_nothing_settles() {
    let m = matrix(&[&[0, 90], &[90, 0]]);
    assert_eq!(find_optimal_eps(&m, 2, Some(1)), EPS_FALLBACK);
}

#[test]
fn union_find_joins_sets() {
    let mut uf = UnionFind::new(5);
    uf.union(0, 1);
    uf.union(3, 4);
    uf.union(1, 0);
    assert_eq!(uf.count_clusters(), 3);
    assert_eq!(uf.find(0), uf.find(1));
    assert_ne!(uf.find(0), uf.find(3));
    assert_eq!(uf.cluster_ids(), vec![0, 0, 1, 2, 2]);
}

#[test]
fn upgma_tree_has_n_minus_one_nodes_and_a_permutation() {
    let dg = build_dendrogram(&four_paths(), None);
    assert_eq!(dg.nodes.len(), 3);
    let mut leaves = dg.leaf_order.clone();
    leaves.sort();
    assert_eq!(leaves, vec![0, 1, 2, 3]);
    assert_eq!((dg.nodes[0].left, dg.nodes[0].right, dg.nodes[0].height, dg.nodes[0].size), (0, 1, units(10), 2));
    assert_eq!((dg.nodes[1].left, dg.nodes[1].right, dg.nodes[1].height, dg.nodes[1].size), (2, 3, units(20), 2));
    assert_eq!((dg.nodes[2].left, dg.nodes[2].right, dg.nodes[2].height, dg.nodes[2].size), (4, 5, units(90), 4));
    assert_eq!(dg.max_height, units(90));
    assert_eq!(dg.leaf_order, vec![0, 1, 2, 3]);
}

#[test]
fn upgma_averages_by_cluster_size() {
    // 0 and 1 merge first; then d({0,1}, 2) = (30 + 50) / 2 = 40 < d(2, 3) = 60
    let m = matrix(&[&[0, 10, 30, 90], &[10, 0, 50, 90], &[30, 50, 0, 60], &[90, 90, 60, 0]]);
    let dg = build_dendrogram(&m, None);
    assert_eq!((dg.nodes[1].left, dg.nodes[1].right, dg.nodes[1].height), (4, 2, units(40)));
    // then d({0,1,2}, 3) = (90 * 2 + 60) / 3 = 80
    assert_eq!(dg.nodes[2].height, (units(90) * 2 + units(60)) / 3);
    assert_eq!(dg.leaf_order, vec![0, 1, 2, 3]);
}

#[test]
fn constrained_upgma_merges_within_tags_first() {
    let m = matrix(&[&[0, 50, 10], &[50, 0, 60], &[10, 60, 0]]);
    let tags = vec![0usize, 0, 1];
    let dg = build_dendrogram(&m, Some(&tags));
    assert_eq!((dg.nodes[0].left, dg.nodes[0].right), (0, 1));
    assert_eq!(dg.leaf_order, vec![0, 1, 2]);
    assert_eq!((dg.nodes[1].left, dg.nodes[1].right), (3, 2));
    let free = build_dendrogram(&m, None);
    assert_eq!((free.nodes[0].left, free.nodes[0].right), (0, 2));
}

#[test]
fn small_trees() {
    let empty: Vec<Vec<u64>> = Vec::new();
    let dg = build_dendrogram(&empty, None);
    assert!(dg.nodes.is_empty() && dg.leaf_order.is_empty());
    let one = vec![vec![0u64]];
    let dg = build_dendrogram(&one, None);
    assert!(dg.nodes.is_empty());
    assert_eq!(dg.leaf_order, vec![0]);
    assert_eq!(cut_dendrogram_at_height(&dg, 0), vec![0]);
}

#[test]
fn cut_at_max_height_gives_one_cluster_and_below_gives_n() {
    let dg = build_dendrogram(&four_paths(), None);
    let top = cut_dendrogram_at_height(&dg, dg.max_height);
    assert_eq!(top, vec![0, 0, 0, 0]);
    assert_eq!(count_labels(&top), 1);
    let below = cut_dendrogram_at_height(&dg, units(10) - 1);
    assert_eq!(below, vec![0, 1, 2, 3]);
    assert_eq!(count_labels(&below), 4);
    assert_eq!(cut_dendrogram_at_height(&dg, units(20)), vec![0, 0, 1, 1]);
}

#[test]
fn leftmost_leaf_follows_left_children() {
    let dg = build_dendrogram(&four_paths(), None);
    assert_eq!(find_leftmost_leaf(&dg, 6, 4), 0);
    assert_eq!(find_leftmost_leaf(&dg, 5, 4), 2);
    assert_eq!(find_leftmost_leaf(&dg, 3, 4), 3);
}

#[test]
fn upgma_threshold_reaches_target() {
    let dg = build_dendrogram(&four_paths(), None);
    assert_eq!(find_optimal_upgma_threshold(&dg, Some(2)), units(20));
    assert_eq!(find_optimal_upgma_threshold(&dg, Some(1)), units(90));
    assert_eq!(find_optimal_upgma_threshold(&dg, Some(9)), units(10));
    let one = build_dendrogram(&vec![vec![0u64]], None);
    assert_eq!(find_optimal_upgma_threshold(&one, None), 1_000_000_000);
}

#[test]
fn jaccard_and_edr_exact() {
    let lens = vec![10u64, 5, 7];
    let a = path_coverage(&path("a", &[0, 1]), &lens);
    let b = path_coverage(&path("b", &[0]), &lens);
    let j = weighted_jaccard_similarity(&a, &b, coverage_total(&a), coverage_total(&b));
    assert_eq!((j.intersection, j.union), (10, 15));
    // (1 - 2/3) / (1 + 2/3) = 0.2
    assert_eq!(jaccard_to_edr(j), 200_000_000);
    assert_eq!(jaccard_to_edr(Jaccard { intersection: 0, union: 0 }), 0);
    assert_eq!(jaccard_to_edr(Jaccard { intersection: 0, union: 9 }), DIST_SCALE);
}

#[test]
fn coverage_sums_repeated_visits() {
    let lens = vec![10u64, 5, 7];
    let c = path_coverage(&path("a", &[2, 0, 2, 9]), &lens);
    assert_eq!(c.nodes, vec![2, 0, 9]);
    assert_eq!(c.bp.get(&2), Some(&14));
    assert_eq!(c.bp.get(&9), Some(&0));
    assert_eq!(coverage_total(&c), 24);
}

#[test]
fn identical_paths_are_similar_and_form_one_cluster() {
    let lens = vec![10u64, 5, 7];
    let paths = vec![path("x", &[0, 1, 2]), path("y", &[0, 1, 2]), path("z", &[2, 1, 0])];
    let covs: Vec<_> = paths.iter().map(|p| path_coverage(p, &lens)).collect();
    for i in 0..3 {
        for j in 0..3 {
            let s = weighted_jaccard_similarity(&covs[i], &covs[j], coverage_total(&covs[i]), coverage_total(&covs[j]));
            assert_eq!(s.intersection as u128, s.union);
        }
    }
    let (dist, _) = path_distance_matrix(&paths, &lens, true);
    assert!(dist.iter().all(|r| r.iter().all(|&d| d == 0)));
    let res = cluster_paths_by_similarity(&paths, &lens, None, false, None, false, false, None);
    assert_eq!(res.num_clusters, 1);
    assert_eq!(res.cluster_sizes, vec![3]);
    assert_eq!(res.cluster_ids, vec![0, 0, 0]);
}

fn grouped_paths() -> Vec<GfaPath> {
    vec![
        path("p0", &[0, 1, 3]),
        path("p1", &[0, 2, 3]),
        path("p2", &[0, 1, 3]),
        path("p3", &[0, 2, 3, 4]),
        path("p4", &[0, 1, 3]),
    ]
}

#[test]
fn clustering_result_invariants() {
    let lens = vec![10u64, 50, 40, 10, 5];
    let paths = grouped_paths();
    let res = cluster_paths_by_similarity(&paths, &lens, Some(DIST_SCALE / 2), false, None, false, false, None);
    assert_eq!(res.num_clusters, 2);
    assert_eq!(res.cluster_sizes, vec![3, 2]);
    assert_eq!(res.cluster_sizes.iter().sum::<usize>(), paths.len());
    assert_eq!(res.representatives.len(), res.num_clusters);
    for (c, &rep) in res.representatives.iter().enumerate() {
        assert!(rep < paths.len());
        let pos = res.ordering.iter().position(|&p| p == rep).unwrap();
        assert_eq!(res.cluster_ids[pos], c);
    }
    let mut order = res.ordering.clone();
    order.sort();
    assert_eq!(order, vec![0, 1, 2, 3, 4]);
    assert_eq!(res.cluster_ids, vec![0, 0, 0, 1, 1]);
    assert!(res.dendrogram.is_none());
}

#[test]
fn clustering_with_dendrogram_uses_leaf_order() {
    let lens = vec![10u64, 50, 40, 10, 5];
    let paths = grouped_paths();
    let res = cluster_paths_by_similarity(&paths, &lens, None, true, None, true, false, None);
    let dg = res.dendrogram.as_ref().unwrap();
    assert_eq!(dg.nodes.len(), 4);
    assert_eq!(res.ordering, dg.leaf_order);
    let upgma = cluster_paths_by_similarity(&paths, &lens, None, false, Some(2), false, true, None);
    assert_eq!(upgma.num_clusters, 2);
    assert!(upgma.dendrogram.is_some());
    let whole = cluster_paths_by_similarity(&paths, &lens, None, false, None, false, true, Some(DIST_SCALE as i64));
    assert_eq!(whole.num_clusters, 1);
    let apart = cluster_paths_by_similarity(&paths, &lens, None, false, None, false, true, Some(-1));
    assert_eq!(apart.num_clusters, 5);
    assert_eq!(apart.dendrogram.as_ref().unwrap().nodes.len(), 4);
}

#[test]
fn no_paths_and_one_path() {
    let lens = vec![10u64];
    let none: Vec<GfaPath> = Vec::new();
    let res = cluster_paths_by_similarity(&none, &lens, None, false, None, false, false, None);
    assert_eq!(res.num_clusters, 0);
    assert!(res.ordering.is_empty() && res.representatives.is_empty());
    let one = vec![path("solo", &[0])];
    let res = cluster_paths_by_similarity(&one, &lens, None, false, None, true, false, None);
    assert_eq!(res.num_clusters, 1);
    assert_eq!(res.cluster_sizes, vec![1]);
    assert_eq!(res.representatives, vec![0]);
    assert_eq!(res.ordering, vec![0]);
}

#[test]
fn cluster_table_has_header_and_one_row_per_path() {
    let lens = vec![10u64, 50, 40, 10, 5];
    let paths = grouped_paths();
    let res = cluster_paths_by_similarity(&paths, &lens, Some(DIST_SCALE / 2), false, None, false, false, None);
    let display: Vec<GfaPath> = res.ordering.iter().map(|&i| paths[i].clone()).collect();
    let table = cluster_tsv(&display, &res);
    assert_eq!(table.lines().count(), paths.len() + 1);
    assert!(table.starts_with("path.name\tcluster\n"));
    for p in &paths {
        assert_eq!(table.lines().filter(|l| l.split('\t').next() == Some(p.name.as_str())).count(), 1);
    }
    assert_eq!(table, "path.name\tcluster\np0\t0\np2\t0\np4\t0\np3\t1\np1\t1\n");
}

#[test]
fn medoid_table_lists_each_cluster() {
    let lens = vec![10u64, 50, 40, 10, 5];
    let paths = grouped_paths();
    let res = cluster_paths_by_similarity(&paths, &lens, Some(DIST_SCALE / 2), false, None, false, false, None);
    let table = medoids_tsv(&paths, &res);
    assert_eq!(table, "cluster\tmedoid.path\tcluster.size\n0\tp0\t3\n1\tp1\t2\n");
}

#[test]
fn ties_merge_the_first_pair_in_row_order() {
    let m = matrix(&[&[0, 30, 30, 30], &[30, 0, 30, 30], &[30, 30, 0, 30], &[30, 30, 30, 0]]);
    let dg = build_dendrogram(&m, None);
    assert_eq!((dg.nodes[0].left, dg.nodes[0].right), (0, 1));
    assert_eq!((dg.nodes[1].left, dg.nodes[1].right), (4, 2));
    assert_eq!((dg.nodes[2].left, dg.nodes[2].right), (5, 3));
    assert_eq!(dg.leaf_order, vec![0, 1, 2, 3]);
}

#[test]
fn greedy_order_starts_at_the_longest_path() {
    let lens = vec![10u64, 50, 40, 10, 5];
    let paths = vec![path("short", &[0, 3]), path("long", &[0, 1, 3]), path("mid", &[0, 2, 3])];
    let res = cluster_paths_by_similarity(&paths, &lens, Some(0), true, None, false, false, None);
    assert_eq!(res.num_clusters, 1);
    assert_eq!(res.ordering[0], 1);
}

#[test]
fn similarity_threshold_above_one_keeps_paths_apart() {
    let lens = vec![10u64, 5, 7];
    let paths = vec![path("x", &[0, 1]), path("y", &[0, 1]), path("z", &[2])];
    let res = cluster_paths_by_similarity(&paths, &lens, Some(DIST_SCALE + 1), true, None, false, false, None);
    assert_eq!(res.num_clusters, 3);
    assert_eq!(res.cluster_sizes, vec![1, 1, 1]);
    let joined = cluster_paths_by_similarity(&paths, &lens, Some(DIST_SCALE), true, None, false, false, None);
    assert_eq!(joined.num_clusters, 2);
}

#[test]
fn jaccard_is_symmetric_and_accepts_larger_totals() {
    let lens = vec![10u64, 5, 7];
    let a = path_coverage(&path("a", &[0, 1, 1]), &lens);
    let b = path_coverage(&path("b", &[1, 2]), &lens);
    let ab = weighted_jaccard_similarity(&a, &b, coverage_total(&a), coverage_total(&b));
    let ba = weighted_jaccard_similarity(&b, &a, coverage_total(&b), coverage_total(&a));
    assert_eq!((ab.intersection, ab.union), (5, 20 + 12 - 5));
    assert_eq!((ab.intersection, ab.union), (ba.intersection, ba.union));
    let wide = weighted_jaccard_similarity(&a, &b, 100, 50);
    assert_eq!((wide.intersection, wide.union), (5, 145));
}

#[test]
fn constrained_tags_stay_contiguous_in_leaf_order() {
    let m = matrix(&[&[0, 40, 10, 45], &[40, 0, 50, 5], &[10, 50, 0, 60], &[45, 5, 60, 0]]);
    let tags = vec![0usize, 0, 1, 1];
    let dg = build_dendrogram(&m, Some(&tags));
    let order_tags: Vec<usize> = dg.leaf_order.iter().map(|&l| tags[l]).collect();
    assert_eq!(order_tags, vec![0, 0, 1, 1]);
    assert_eq!(dg.leaf_order, vec![0, 1, 2, 3]);
}
