//! The clustering pipeline: coverage, distances, a flat clustering by
//! DBSCAN or by cutting a UPGMA tree, and the display layout.

use vstd::prelude::*;
use crate::coverage::{
    coverage_maps, coverage_total, filter_coverages, filtered, first_seen, keeps, kept_nodes, lemma_filtered_total_le,
    node_bp, path_bp, path_coverage, total_bp, Coverage, GfaPath,
};
use crate::cut::{count_labels, cut_dendrogram_at_height, find_optimal_upgma_threshold, is_cut, optimal_cut};
use crate::dbscan::{dbscan_cluster, find_optimal_eps, is_square, matrix, optimal_eps, singleton_clusters, within_eps, DIST_SCALE};
use crate::dendrogram::{
    build_dendrogram, entries_bounded, is_permutation, lemma_full_range, subtree_leaves, tag_blocks, tags_view, upgma_node,
    Dendrogram,
};
use crate::labels::{canonical, is_components, lemma_label_set, label_set, num_labels, seen};
use crate::organize::{is_layout, layout_clusters, sum_sizes};
use crate::distance::{cov_views, coverages_with_totals, edr_entry, edr_matrix, matrix_max, normalize_matrix, normalized};

verus! {

/// A path's coverage as its node enumeration and its map.
pub open spec fn path_view(path: GfaPath, lens: Seq<u64>) -> (Seq<u64>, Map<u64, u64>) {
    let steps = path.steps@;
    let k = steps.len() as int;
    let nodes = first_seen(steps, k);
    (nodes, Map::new(|x: u64| nodes.contains(x), |x: u64| node_bp(steps, lens, x, k) as u64))
}

pub open spec fn path_views(paths: Seq<GfaPath>, lens: Seq<u64>) -> Seq<(Seq<u64>, Map<u64, u64>)> {
    paths.map_values(|p: GfaPath| path_view(p, lens))
}

pub open spec fn view_maps(views: Seq<(Seq<u64>, Map<u64, u64>)>) -> Seq<Map<u64, u64>> {
    views.map_values(|v: (Seq<u64>, Map<u64, u64>)| v.1)
}

/// A coverage restricted to the clustering nodes.
pub open spec fn filtered_view(v: (Seq<u64>, Map<u64, u64>), maps: Seq<Map<u64, u64>>, use_all_nodes: bool) -> (Seq<u64>, Map<u64, u64>) {
    let keep = keeps(maps, use_all_nodes);
    (kept_nodes(v.0, keep, v.0.len() as int), v.1.restrict(v.1.dom().filter(keep)))
}

/// The coverages clustering compares.
pub open spec fn clustering_views(paths: Seq<GfaPath>, lens: Seq<u64>, use_all_nodes: bool) -> Seq<(Seq<u64>, Map<u64, u64>)> {
    let views = path_views(paths, lens);
    views.map_values(|v: (Seq<u64>, Map<u64, u64>)| filtered_view(v, view_maps(views), use_all_nodes))
}

/// Each path's total over its clustering nodes.
pub open spec fn clustering_totals(views: Seq<(Seq<u64>, Map<u64, u64>)>) -> Seq<u64> {
    views.map_values(|v: (Seq<u64>, Map<u64, u64>)| total_bp(v.0, v.1) as u64)
}

/// The matrix of estimated difference rates.
pub open spec fn edr_of(views: Seq<(Seq<u64>, Map<u64, u64>)>, totals: Seq<u64>) -> Seq<Seq<u64>> {
    Seq::new(views.len(), |a: int| Seq::new(views.len(), |b: int| edr_entry(views, totals, a, b) as u64))
}

/// The normalized distance matrix of the paths.
pub open spec fn path_distances(paths: Seq<GfaPath>, lens: Seq<u64>, use_all_nodes: bool) -> Seq<Seq<u64>> {
    let views = clustering_views(paths, lens, use_all_nodes);
    let e = edr_of(views, clustering_totals(views));
    let mx = matrix_max(e, e.len() as int);
    Seq::new(e.len(), |a: int| Seq::new(e.len(), |b: int| normalized(e[a][b], mx)))
}

/// Every path's length in base pairs fits in a `u64`.
pub open spec fn lengths_fit(paths: Seq<GfaPath>, lens: Seq<u64>) -> bool {
    forall|p: int| 0 <= p < paths.len() ==> path_bp(#[trigger] paths[p].steps@, lens, paths[p].steps@.len() as int) <= u64::MAX
}

/// The normalized distance matrix and each path's clustering total.
pub fn path_distance_matrix(paths: &Vec<GfaPath>, segment_lengths: &Vec<u64>, use_all_nodes: bool) -> (r: (Vec<Vec<u64>>, Vec<u64>))
    requires
        paths@.len() >= 1,
        lengths_fit(paths@, segment_lengths@),
    ensures
        r.0@.len() == paths@.len(),
        matrix(r.0@) == path_distances(paths@, segment_lengths@, use_all_nodes),
        is_square(matrix(r.0@)),
        entries_bounded(matrix(r.0@)),
        r.1@ == clustering_totals(clustering_views(paths@, segment_lengths@, use_all_nodes)),
{
    let ghost lens = segment_lengths@;
    let ghost views = path_views(paths@, lens);
    let n = paths.len();
    let mut covs: Vec<Coverage> = Vec::new();
    let mut p: usize = 0;
    while p < n
        invariant
            n == paths@.len(),
            views == path_views(paths@, lens),
            lens == segment_lengths@,
            lengths_fit(paths@, lens),
            p <= n,
            covs@.len() == p,
            forall|q: int|
                0 <= q < p ==> #[trigger] covs@[q].wf() && (covs@[q].nodes@, covs@[q].bp@) == views[q]
                    && covs@[q].nodes@ == first_seen(paths@[q].steps@, paths@[q].steps@.len() as int)
                    && forall|x: u64| #[trigger] covs@[q].bp@.contains_key(x) ==> covs@[q].bp@[x] == node_bp(
                        paths@[q].steps@,
                        lens,
                        x,
                        paths@[q].steps@.len() as int,
                    ),
        decreases n - p,
    {
        let c = path_coverage(&paths[p], segment_lengths);
        proof {
            let v = path_view(paths@[p as int], lens);
            assert(c.bp@ =~= v.1);
        }
        covs.push(c);
        p = p + 1;
    }
    let ghost maps = coverage_maps(covs@);
    proof {
        assert forall|q: int| 0 <= q < n implies #[trigger] maps[q] == view_maps(views)[q] by {
            assert(covs@[q].wf());
        }
        assert(maps =~= view_maps(views));
        assert forall|q: int| 0 <= q < n implies #[trigger] covs@[q].wf() by {}
    }
    let filtered_covs = filter_coverages(&covs, use_all_nodes);
    proof {
        assert forall|q: int| 0 <= q < n implies (#[trigger] filtered_covs@[q]).nodes@ == filtered(covs@[q], maps, use_all_nodes).0
            && filtered_covs@[q].bp@ == filtered(covs@[q], maps, use_all_nodes).1 by {
            assert(filtered_covs@[q].wf());
        }
    }
    let ghost cviews = clustering_views(paths@, lens, use_all_nodes);
    let mut totals: Vec<u64> = Vec::new();
    let mut p: usize = 0;
    while p < n
        invariant
            n == paths@.len(),
            n == covs@.len(),
            n == filtered_covs@.len(),
            views == path_views(paths@, lens),
            lens == segment_lengths@,
            maps == coverage_maps(covs@),
            maps == view_maps(views),
            cviews == clustering_views(paths@, lens, use_all_nodes),
            lengths_fit(paths@, lens),
            forall|q: int|
                0 <= q < n ==> #[trigger] covs@[q].wf() && (covs@[q].nodes@, covs@[q].bp@) == views[q]
                    && covs@[q].nodes@ == first_seen(paths@[q].steps@, paths@[q].steps@.len() as int)
                    && forall|x: u64| #[trigger] covs@[q].bp@.contains_key(x) ==> covs@[q].bp@[x] == node_bp(
                        paths@[q].steps@,
                        lens,
                        x,
                        paths@[q].steps@.len() as int,
                    ),
            forall|q: int| 0 <= q < n ==> #[trigger] filtered_covs@[q].wf(),
            forall|q: int|
                0 <= q < n ==> (#[trigger] filtered_covs@[q]).nodes@ == filtered(covs@[q], maps, use_all_nodes).0
                    && filtered_covs@[q].bp@ == filtered(covs@[q], maps, use_all_nodes).1,
            p <= n,
            totals@.len() == p,
            forall|q: int| 0 <= q < p ==> #[trigger] totals@[q] == total_bp(filtered_covs@[q].nodes@, filtered_covs@[q].bp@),
        decreases n - p,
    {
        proof {
            let q = p as int;
            assert(covs@[q].wf());
            assert(filtered_covs@[q].wf());
            lemma_filtered_total_le(paths@[q], lens, covs@[q], maps, use_all_nodes);
        }
        let t = coverage_total(&filtered_covs[p]);
        totals.push(t);
        p = p + 1;
    }
    proof {
        assert(cov_views(filtered_covs@) =~= cviews) by {
            assert forall|q: int| 0 <= q < n implies #[trigger] cov_views(filtered_covs@)[q] == cviews[q] by {
                assert(filtered_covs@[q].wf());
                assert(covs@[q].wf());
                assert(views[q] == (covs@[q].nodes@, covs@[q].bp@));
            }
        }
        assert(totals@ =~= clustering_totals(cviews)) by {
            assert forall|q: int| 0 <= q < n implies #[trigger] totals@[q] == clustering_totals(cviews)[q] by {
                assert(filtered_covs@[q].wf());
                assert(cov_views(filtered_covs@)[q] == cviews[q]);
            }
        }
        assert(coverages_with_totals(filtered_covs@, totals@)) by {
            assert forall|q: int| 0 <= q < n implies #[trigger] filtered_covs@[q].wf() && totals@[q] == total_bp(filtered_covs@[q].nodes@, filtered_covs@[q].bp@) by {
                assert(filtered_covs@[q].wf());
            }
        }
    }
    let edr = edr_matrix(&filtered_covs, &totals);
    let dist = normalize_matrix(&edr);
    proof {
        let e = edr_of(cviews, clustering_totals(cviews));
        assert(matrix(edr@) =~= e) by {
            assert forall|a: int| 0 <= a < n implies #[trigger] matrix(edr@)[a] =~= e[a] by {
                assert forall|b: int| 0 <= b < n implies #[trigger] matrix(edr@)[a][b] == e[a][b] by {}
            }
        }
        let target = path_distances(paths@, lens, use_all_nodes);
        assert(matrix(dist@) =~= target) by {
            assert forall|a: int| 0 <= a < n implies #[trigger] matrix(dist@)[a] =~= target[a] by {
                assert forall|b: int| 0 <= b < n implies #[trigger] matrix(dist@)[a][b] == target[a][b] by {}
            }
        }
    }
    (dist, totals)
}

/// The outcome of clustering paths.
pub struct ClusteringResult {
    /// Path indices in display order.
    pub ordering: Vec<usize>,
    /// Cluster of the path at each display position.
    pub cluster_ids: Vec<usize>,
    pub num_clusters: usize,
    /// The medoid path of each cluster.
    pub representatives: Vec<usize>,
    /// Member count of each cluster.
    pub cluster_sizes: Vec<usize>,
    /// The merge tree, when one was built.
    pub dendrogram: Option<Dendrogram>,
}

/// The UPGMA cut height for a fraction `t` (in units of `1 / DIST_SCALE`)
/// of the tree's height. A negative fraction of a positive height lies
/// below every merge (-1); of a zero height it is 0.
pub open spec fn scaled_cut(t: i64, max_height: u64) -> int {
    if t < 0 {
        if max_height > 0 {
            -1
        } else {
            0
        }
    } else {
        let h = (t * max_height) / (DIST_SCALE as int);
        if h > u64::MAX {
            u64::MAX as int
        } else {
            h
        }
    }
}

/// `t` (a fraction in units of `1 / DIST_SCALE`) of the tree height;
/// `None` when that lies below every merge.
pub fn scale_cut(t: i64, max_height: u64) -> (h: Option<u64>)
    ensures
        match h {
            Some(v) => v == scaled_cut(t, max_height),
            None => scaled_cut(t, max_height) < 0,
        },
{
    if t < 0 {
        if max_height > 0 {
            return None;
        } else {
            return Some(0);
        }
    }
    proof {
        assert((t as int) * (max_height as int) <= (u64::MAX as int) * (u64::MAX as int)) by (nonlinear_arith)
            requires 0 <= t <= u64::MAX, max_height <= u64::MAX;
    }
    let p: u128 = t as u128 * max_height as u128;
    let h = p / DIST_SCALE as u128;
    if h > u64::MAX as u128 {
        Some(u64::MAX)
    } else {
        Some(h as u64)
    }
}

/// The DBSCAN threshold: `1 - t` for a similarity threshold `t` (below
/// every distance when `t > 1`), else the automatic choice.
pub open spec fn dbscan_eps(m: Seq<Seq<u64>>, threshold: Option<u64>, max_clusters: Option<usize>) -> int {
    match threshold {
        Some(t) => DIST_SCALE - t,
        None => optimal_eps(m, m.len() as int, max_clusters),
    }
}

/// The flat clustering `ids` and the tree of a result.
pub open spec fn clusters_as_specified(
    m: Seq<Seq<u64>>,
    ids: Seq<usize>,
    res: ClusteringResult,
    threshold: Option<u64>,
    max_clusters: Option<usize>,
    compute_dendrogram: bool,
    use_upgma: bool,
    upgma_threshold: Option<i64>,
) -> bool {
    let n = m.len();
    if use_upgma {
        &&& res.dendrogram is Some
        &&& ({
            let dg = res.dendrogram.unwrap();
            let h = match upgma_threshold {
                Some(t) => scaled_cut(t, dg.max_height),
                None => optimal_cut(dg, max_clusters) as int,
            };
            &&& forall|k: int| 0 <= k < dg.nodes@.len() ==> #[trigger] dg.nodes@[k] == upgma_node(m, None, k as nat)
            &&& dg.nodes@.len() == n - 1
            &&& (n >= 2 ==> dg.leaf_order@ == subtree_leaves(dg.nodes@, n as int, 2 * n - 2))
            &&& is_cut(dg, h as int, ids)
        })
    } else {
        &&& is_components(within_eps(m, dbscan_eps(m, threshold, max_clusters)), n, ids)
        &&& (compute_dendrogram <==> res.dendrogram is Some)
        &&& (compute_dendrogram ==> forall|k: int|
            0 <= k < res.dendrogram.unwrap().nodes@.len() ==> #[trigger] res.dendrogram.unwrap().nodes@[k] == upgma_node(
                m,
                Some(ids),
                k as nat,
            ))
        &&& (compute_dendrogram ==> res.dendrogram.unwrap().nodes@.len() == n - 1)
        &&& (compute_dendrogram ==> tag_blocks(res.dendrogram.unwrap().leaf_order@, ids))
        &&& (compute_dendrogram && n >= 2 ==> res.dendrogram.unwrap().leaf_order@ == subtree_leaves(
            res.dendrogram.unwrap().nodes@,
            n as int,
            2 * n - 2,
        ))
    }
}

/// The layout of a result: with a tree, its leaf order, else clusters by
/// size, each in greedy nearest-neighbour order.
pub open spec fn laid_out(m: Seq<Seq<u64>>, totals: Seq<u64>, ids: Seq<usize>, order: Seq<usize>, res: ClusteringResult) -> bool {
    let n = ids.len() as int;
    let num = res.num_clusters as int;
    &&& num == num_labels(ids)
    &&& exists|ordering: Seq<usize>, cluster_ids: Seq<usize>|
        #[trigger] is_layout(m, totals, ids, num, order, ordering, cluster_ids, res.representatives@, res.cluster_sizes@) && (
        res.dendrogram is None ==> res.ordering@ == ordering && res.cluster_ids@ == cluster_ids)
    &&& (res.dendrogram is Some ==> res.ordering@ == res.dendrogram.unwrap().leaf_order@)
    &&& res.ordering@.len() == n
    &&& res.cluster_ids@.len() == n
    &&& forall|pos: int| 0 <= pos < n ==> #[trigger] res.cluster_ids@[pos] < num && order[res.cluster_ids@[pos] as int] == ids[res.ordering@[pos] as int]
}

/// `res` is the clustering of `paths`: `ids` is its flat clustering and
/// `order` the display order of those clusters.
pub open spec fn clustered(
    paths: Seq<GfaPath>,
    lens: Seq<u64>,
    use_all_nodes: bool,
    threshold: Option<u64>,
    max_clusters: Option<usize>,
    compute_dendrogram: bool,
    use_upgma: bool,
    upgma_threshold: Option<i64>,
    ids: Seq<usize>,
    order: Seq<usize>,
    res: ClusteringResult,
) -> bool {
    let m = path_distances(paths, lens, use_all_nodes);
    let totals = clustering_totals(clustering_views(paths, lens, use_all_nodes));
    &&& clusters_as_specified(m, ids, res, threshold, max_clusters, compute_dendrogram, use_upgma, upgma_threshold)
    &&& laid_out(m, totals, ids, order, res)
}

/// Clusters paths by the similarity of their base-pair coverage. With
/// `use_upgma`, cuts a UPGMA tree at `upgma_threshold` (a fraction of its
/// height) or at the automatic height; otherwise runs DBSCAN at `1 -
/// threshold` or at the automatic `eps`, and builds a tree constrained by
/// those clusters if `compute_dendrogram`. Thresholds are in units of
/// `1 / DIST_SCALE`.
pub fn cluster_paths_by_similarity(
    paths: &Vec<GfaPath>,
    segment_lengths: &Vec<u64>,
    threshold: Option<u64>,
    use_all_nodes: bool,
    max_clusters: Option<usize>,
    compute_dendrogram: bool,
    use_upgma: bool,
    upgma_threshold: Option<i64>,
) -> (res: ClusteringResult)
    requires
        lengths_fit(paths@, segment_lengths@),
        paths@.len() <= usize::MAX / 2,
    ensures
        paths@.len() == 0 ==> res.ordering@.len() == 0 && res.cluster_ids@.len() == 0 && res.num_clusters == 0
            && res.representatives@.len() == 0 && res.cluster_sizes@.len() == 0 && res.dendrogram is None,
        paths@.len() > 0 ==> exists|ids: Seq<usize>, order: Seq<usize>|
            #[trigger] clustered(
                paths@,
                segment_lengths@,
                use_all_nodes,
                threshold,
                max_clusters,
                compute_dendrogram,
                use_upgma,
                upgma_threshold,
                ids,
                order,
                res,
            ),
        is_permutation(res.ordering@, paths@.len() as int),
        sum_sizes(res.cluster_sizes@, res.num_clusters as int) == paths@.len(),
        res.representatives@.len() == res.num_clusters,
        res.cluster_sizes@.len() == res.num_clusters,
        forall|r: int| 0 <= r < res.num_clusters ==> #[trigger] res.representatives@[r] < paths@.len(),
        forall|r: int, pos: int|
            0 <= r < res.num_clusters && 0 <= pos < res.ordering@.len() && #[trigger] res.ordering@[pos]
                == #[trigger] res.representatives@[r] ==> res.cluster_ids@[pos] == r,
        res.representatives@.no_duplicates(),
{
    let n = paths.len();
    if n == 0 {
        proof {
            assert(Seq::<usize>::empty().no_duplicates());
        }
        return ClusteringResult {
            ordering: Vec::new(),
            cluster_ids: Vec::new(),
            num_clusters: 0,
            representatives: Vec::new(),
            cluster_sizes: Vec::new(),
            dendrogram: None,
        };
    }
    let (dist_matrix, total_bp) = path_distance_matrix(paths, segment_lengths, use_all_nodes);
    let ghost m = matrix(dist_matrix@);
    let ghost totals = clustering_totals(clustering_views(paths@, segment_lengths@, use_all_nodes));
    let (cluster_assignments, upgma_tree) = flat_clustering(&dist_matrix, threshold, max_clusters, use_upgma, upgma_threshold);
    let ghost ids = cluster_assignments@;
    let num_clusters = count_labels(&cluster_assignments);
    proof {
        lemma_label_set(ids);
        assert forall|c: int| 0 <= c < num_clusters implies #[trigger] seen(ids, ids.len() as int, c) by {
            assert(label_set(ids).contains(c));
        }
    }
    let (ordering, cluster_ids, representatives, cluster_sizes, order) = layout_clusters(
        &dist_matrix,
        &total_bp,
        &cluster_assignments,
        num_clusters,
    );
    proof {
        lemma_full_range(order@, num_clusters as int);
        assert(is_layout(m, totals, ids, num_clusters as int, order@, ordering@, cluster_ids@, representatives@, cluster_sizes@));
    }
    let dendrogram = if use_upgma {
        upgma_tree
    } else if compute_dendrogram {
        Some(build_dendrogram(&dist_matrix, Some(&cluster_assignments)))
    } else {
        None
    };
    proof {
        if dendrogram is Some {
            assert(is_permutation(dendrogram.unwrap().leaf_order@, n as int));
            assert forall|p: int| 0 <= p < dendrogram.unwrap().leaf_order@.len() implies #[trigger] dendrogram.unwrap().leaf_order@[p] < ids.len() by {}
        }
    }
    let res = match dendrogram {
        Some(dg) => {
            let (dg_ordering, dg_cluster_ids) = tree_layout(&dg, &cluster_assignments, &order, num_clusters);
            ClusteringResult {
                ordering: dg_ordering,
                cluster_ids: dg_cluster_ids,
                num_clusters,
                representatives,
                cluster_sizes,
                dendrogram: Some(dg),
            }
        },
        None => ClusteringResult {
            ordering,
            cluster_ids,
            num_clusters,
            representatives,
            cluster_sizes,
            dendrogram: None,
        },
    };
    proof {
        assert(res.representatives@ == representatives@);
        assert(res.cluster_sizes@ == cluster_sizes@);
        if res.dendrogram is None {
            assert(res.ordering@ == ordering@ && res.cluster_ids@ == cluster_ids@);
        }
        lemma_laid_out(m, totals, ids, order@, res, ordering@, cluster_ids@);
        assert(is_permutation(res.ordering@, n as int));
        assert(clusters_as_specified(m, ids, res, threshold, max_clusters, compute_dendrogram, use_upgma, upgma_threshold));
        assert(clustered(paths@, segment_lengths@, use_all_nodes, threshold, max_clusters, compute_dendrogram, use_upgma, upgma_threshold, ids, order@, res));
        lemma_representatives_placed(ids, order@, res);
    }
    res
}

proof fn lemma_laid_out(
    m: Seq<Seq<u64>>,
    totals: Seq<u64>,
    ids: Seq<usize>,
    order: Seq<usize>,
    res: ClusteringResult,
    ordering: Seq<usize>,
    cluster_ids: Seq<usize>,
)
    requires
        res.num_clusters == num_labels(ids),
        is_layout(m, totals, ids, res.num_clusters as int, order, ordering, cluster_ids, res.representatives@, res.cluster_sizes@),
        res.dendrogram is None ==> res.ordering@ == ordering && res.cluster_ids@ == cluster_ids,
        res.dendrogram is Some ==> res.ordering@ == res.dendrogram.unwrap().leaf_order@,
        res.ordering@.len() == ids.len(),
        res.cluster_ids@.len() == ids.len(),
        forall|pos: int|
            0 <= pos < ids.len() ==> #[trigger] res.cluster_ids@[pos] < res.num_clusters && order[res.cluster_ids@[pos] as int]
                == ids[res.ordering@[pos] as int],
    ensures
        laid_out(m, totals, ids, order, res),
{
}

/// Each representative is shown under its own cluster id.
proof fn lemma_representatives_placed(ids: Seq<usize>, order: Seq<usize>, res: ClusteringResult)
    requires
        order.no_duplicates(),
        order.len() == res.num_clusters,
        res.representatives@.len() == res.num_clusters,
        res.ordering@.len() == ids.len(),
        res.cluster_ids@.len() == ids.len(),
        forall|r: int| 0 <= r < res.num_clusters ==> #[trigger] res.representatives@[r] < ids.len() && ids[res.representatives@[r] as int] == order[r],
        forall|pos: int|
            0 <= pos < ids.len() ==> #[trigger] res.cluster_ids@[pos] < res.num_clusters && order[res.cluster_ids@[pos] as int]
                == ids[res.ordering@[pos] as int],
    ensures
        forall|r: int, pos: int|
            0 <= r < res.num_clusters && 0 <= pos < res.ordering@.len() && #[trigger] res.ordering@[pos]
                == #[trigger] res.representatives@[r] ==> res.cluster_ids@[pos] == r,
        res.representatives@.no_duplicates(),
{
    assert forall|r: int, pos: int|
        0 <= r < res.num_clusters && 0 <= pos < res.ordering@.len() && #[trigger] res.ordering@[pos]
            == #[trigger] res.representatives@[r] implies res.cluster_ids@[pos] == r by {
        let c = res.cluster_ids@[pos] as int;
        assert(order[c] == order[r]);
    }
}

/// The flat clustering: a cut of the UPGMA tree, or DBSCAN.
fn flat_clustering(
    dist_matrix: &Vec<Vec<u64>>,
    threshold: Option<u64>,
    max_clusters: Option<usize>,
    use_upgma: bool,
    upgma_threshold: Option<i64>,
) -> (r: (Vec<usize>, Option<Dendrogram>))
    requires
        dist_matrix@.len() >= 1,
        dist_matrix@.len() <= usize::MAX / 2,
        is_square(matrix(dist_matrix@)),
        entries_bounded(matrix(dist_matrix@)),
    ensures
        r.0@.len() == dist_matrix@.len(),
        canonical(r.0@),
        use_upgma <==> r.1 is Some,
        use_upgma ==> ({
            let dg = r.1.unwrap();
            let h = match upgma_threshold {
                Some(t) => scaled_cut(t, dg.max_height),
                None => optimal_cut(dg, max_clusters) as int,
            };
            &&& forall|k: int| 0 <= k < dg.nodes@.len() ==> #[trigger] dg.nodes@[k] == upgma_node(matrix(dist_matrix@), None, k as nat)
            &&& dg.nodes@.len() == dist_matrix@.len() - 1
            &&& is_permutation(dg.leaf_order@, dist_matrix@.len() as int)
            &&& (dist_matrix@.len() >= 2 ==> dg.leaf_order@ == subtree_leaves(
                dg.nodes@,
                dist_matrix@.len() as int,
                2 * dist_matrix@.len() - 2,
            ))
            &&& is_cut(dg, h as int, r.0@)
        }),
        !use_upgma ==> is_components(
            within_eps(matrix(dist_matrix@), dbscan_eps(matrix(dist_matrix@), threshold, max_clusters)),
            dist_matrix@.len(),
            r.0@,
        ),
{
    let n = dist_matrix.len();
    if use_upgma {
        let dg = build_dendrogram(dist_matrix, None);
        let cut_threshold = match upgma_threshold {
            Some(t) => scale_cut(t, dg.max_height),
            None => Some(find_optimal_upgma_threshold(&dg, max_clusters)),
        };
        let ids = match cut_threshold {
            Some(h) => cut_dendrogram_at_height(&dg, h),
            None => {
                let ids = singleton_clusters(n);
                proof {
                    crate::cut::lemma_cut_below_zero(dg, scaled_cut(upgma_threshold.unwrap(), dg.max_height), ids@);
                }
                ids
            },
        };
        assert(tags_view(None) == None::<Seq<usize>>);
        (ids, Some(dg))
    } else {
        match threshold {
            Some(t) => if t > DIST_SCALE {
                let ids = singleton_clusters(n);
                proof {
                    let m = matrix(dist_matrix@);
                    assert(is_components(within_eps(m, DIST_SCALE - t), n as nat, ids@));
                }
                (ids, None)
            } else {
                (dbscan_cluster(dist_matrix, DIST_SCALE - t), None)
            },
            None => (dbscan_cluster(dist_matrix, find_optimal_eps(dist_matrix, n, max_clusters)), None),
        }
    }
}

/// Display order and cluster ids from a tree's leaf order; `order` lists
/// the flat clusters in display order.
fn tree_layout(dg: &Dendrogram, ids: &Vec<usize>, order: &Vec<usize>, num_clusters: usize) -> (r: (Vec<usize>, Vec<usize>))
    requires
        order@.len() == num_clusters,
        order@.no_duplicates(),
        forall|x: int| 0 <= x < num_clusters ==> #[trigger] order@.contains(x as usize),
        forall|q: int| 0 <= q < num_clusters ==> #[trigger] order@[q] < num_clusters,
        forall|j: int| 0 <= j < ids@.len() ==> #[trigger] ids@[j] < num_clusters,
        forall|p: int| 0 <= p < dg.leaf_order@.len() ==> #[trigger] dg.leaf_order@[p] < ids@.len(),
    ensures
        r.0@ == dg.leaf_order@,
        r.1@.len() == r.0@.len(),
        forall|pos: int|
            0 <= pos < r.1@.len() ==> #[trigger] r.1@[pos] < num_clusters && order@[r.1@[pos] as int] == ids@[r.0@[pos] as int],
{
    let mut rank: Vec<usize> = Vec::new();
    let mut c: usize = 0;
    while c < num_clusters
        invariant
            c <= num_clusters,
            rank@.len() == c,
            forall|x: int| 0 <= x < c ==> #[trigger] rank@[x] == 0,
        decreases num_clusters - c,
    {
        rank.push(0);
        c = c + 1;
    }
    let mut r: usize = 0;
    while r < num_clusters
        invariant
            rank@.len() == num_clusters,
            order@.len() == num_clusters,
            order@.no_duplicates(),
            forall|q: int| 0 <= q < num_clusters ==> #[trigger] order@[q] < num_clusters,
            r <= num_clusters,
            forall|q: int| 0 <= q < r ==> #[trigger] rank@[order@[q] as int] == q,
            forall|x: int| 0 <= x < num_clusters ==> #[trigger] rank@[x] < num_clusters,
        decreases num_clusters - r,
    {
        let ghost before = rank@;
        rank.set(order[r], r);
        proof {
            assert forall|q: int| 0 <= q < r + 1 implies #[trigger] rank@[order@[q] as int] == q by {
                if q < r {
                    assert(order@[q] != order@[r as int]);
                }
            }
        }
        r = r + 1;
    }
    let mut dg_ordering: Vec<usize> = Vec::new();
    let mut dg_cluster_ids: Vec<usize> = Vec::new();
    let mut pos: usize = 0;
    while pos < dg.leaf_order.len()
        invariant
            rank@.len() == num_clusters,
            order@.len() == num_clusters,
            forall|x: int| 0 <= x < num_clusters ==> #[trigger] order@.contains(x as usize),
            forall|q: int| 0 <= q < num_clusters ==> #[trigger] rank@[order@[q] as int] == q,
            forall|x: int| 0 <= x < num_clusters ==> #[trigger] rank@[x] < num_clusters,
            forall|j: int| 0 <= j < ids@.len() ==> #[trigger] ids@[j] < num_clusters,
            forall|p: int| 0 <= p < dg.leaf_order@.len() ==> #[trigger] dg.leaf_order@[p] < ids@.len(),
            pos <= dg.leaf_order@.len(),
            dg_ordering@ == dg.leaf_order@.subrange(0, pos as int),
            dg_cluster_ids@.len() == pos,
            forall|p: int|
                0 <= p < pos ==> #[trigger] dg_cluster_ids@[p] < num_clusters && order@[dg_cluster_ids@[p] as int]
                    == ids@[dg_ordering@[p] as int],
        decreases dg.leaf_order@.len() - pos,
    {
        let orig_idx = dg.leaf_order[pos];
        let c = ids[orig_idx];
        let rk = rank[c];
        proof {
            assert(c < num_clusters);
            assert(order@.contains((c as int) as usize));
            let q = choose|q: int| 0 <= q < order@.len() && order@[q] == c;
            assert(rank@[order@[q] as int] == q);
        }
        dg_ordering.push(orig_idx);
        dg_cluster_ids.push(rk);
        pos = pos + 1;
    }
    proof {
        assert(dg_ordering@ =~= dg.leaf_order@);
    }
    (dg_ordering, dg_cluster_ids)
}

} // verus!
