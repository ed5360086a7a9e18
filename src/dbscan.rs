//! Density clustering with `minPts = 1`: the connected components of the
//! graph joining paths whose distance is at most `eps`, and the automatic
//! choice of `eps`.

use vstd::prelude::*;
use crate::labels::{
    canonical, is_components, label_bound, lemma_components_unique, lemma_refines_num_labels, num_labels, refines, respects,
};
use crate::union_find::UnionFind;

verus! {

/// Distances are integers in units of `1 / DIST_SCALE`.
pub const DIST_SCALE: u64 = 1_000_000_000;

/// Step of the automatic `eps` scan: 0.005.
pub const EPS_STEP: u64 = 5_000_000;

/// Number of steps of the automatic `eps` scan (up to 0.300).
pub const EPS_STEPS: u64 = 60;

/// `eps` used when the scan accepts no step: 0.30.
pub const EPS_FALLBACK: u64 = 300_000_000;

/// The rows of a matrix as sequences.
pub open spec fn matrix(d: Seq<Vec<u64>>) -> Seq<Seq<u64>> {
    d.map_values(|r: Vec<u64>| r@)
}

/// Every row is as long as the matrix is tall.
pub open spec fn is_square(m: Seq<Seq<u64>>) -> bool {
    forall|i: int| 0 <= i < m.len() ==> #[trigger] m[i].len() == m.len()
}

/// Edges of the graph at threshold `eps`, read from the upper triangle.
pub open spec fn within_eps(m: Seq<Seq<u64>>, eps: int) -> spec_fn(int, int) -> bool {
    |i: int, j: int| m[i][j] <= eps
}

/// Edges between paths at distance exactly zero.
pub open spec fn zero_distance(m: Seq<Seq<u64>>) -> spec_fn(int, int) -> bool {
    |i: int, j: int| m[i][j] == 0
}

/// `c` is the number of clusters DBSCAN finds at threshold `eps`.
pub open spec fn is_cluster_count(m: Seq<Seq<u64>>, eps: int, c: int) -> bool {
    exists|ids: Seq<usize>| is_components(within_eps(m, eps), m.len(), ids) && num_labels(ids) == c
}

/// The number of clusters at threshold `eps`.
pub open spec fn cluster_count(m: Seq<Seq<u64>>, eps: int) -> int {
    num_labels(choose|ids: Seq<usize>| is_components(within_eps(m, eps), m.len(), ids))
}

/// The cluster cap of the automatic searches: the caller's, or `ceil(n / 9)`.
pub open spec fn max_clusters_for(n: int, max_clusters: Option<usize>) -> int {
    match max_clusters {
        Some(c) => c as int,
        None => (n + 8) / 9,
    }
}

/// A step of the scan is accepted when the count has settled (changed by at
/// most one) or has just dropped into range, and is within the cap.
pub open spec fn accepts_eps(prev: int, curr: int, max_clusters: int) -> bool {
    let change = if prev >= curr { prev - curr } else { curr - prev };
    let first_hit_max = prev > max_clusters && curr <= max_clusters;
    (change <= 1 || first_hit_max) && curr <= max_clusters
}

/// The scan from step `k` on, `prev` being the count at the step before.
pub open spec fn eps_scan(m: Seq<Seq<u64>>, max_clusters: int, prev: int, k: int) -> int
    decreases EPS_STEPS + 1 - k,
{
    if k < 1 || k > EPS_STEPS {
        EPS_FALLBACK as int
    } else {
        let curr = cluster_count(m, k * EPS_STEP);
        if accepts_eps(prev, curr, max_clusters) {
            k * EPS_STEP
        } else {
            eps_scan(m, max_clusters, curr, k + 1)
        }
    }
}

/// The automatically chosen `eps`.
pub open spec fn optimal_eps(m: Seq<Seq<u64>>, n_paths: int, max_clusters: Option<usize>) -> int {
    if m.len() == 0 {
        EPS_FALLBACK as int
    } else {
        eps_scan(m, max_clusters_for(n_paths, max_clusters), cluster_count(m, 0), 1)
    }
}

/// The component labeling at `eps` determines the count.
pub proof fn lemma_cluster_count_of(m: Seq<Seq<u64>>, eps: int, ids: Seq<usize>)
    requires
        is_components(within_eps(m, eps), m.len(), ids),
    ensures
        cluster_count(m, eps) == num_labels(ids),
        is_cluster_count(m, eps, num_labels(ids)),
{
    let c = choose|c: Seq<usize>| is_components(within_eps(m, eps), m.len(), c);
    lemma_components_unique(within_eps(m, eps), m.len(), c, ids);
}

/// Raising the threshold never splits a cluster: every cluster at `e1` lies
/// inside one cluster at `e2 >= e1`, so there are at most as many.
pub proof fn lemma_clusters_coarsen(m: Seq<Seq<u64>>, e1: int, e2: int, a: Seq<usize>, b: Seq<usize>)
    requires
        e1 <= e2,
        is_components(within_eps(m, e1), m.len(), a),
        is_components(within_eps(m, e2), m.len(), b),
    ensures
        refines(a, b),
        num_labels(b) <= num_labels(a),
{
    assert(respects(within_eps(m, e1), m.len(), b)) by {
        assert forall|i: int, j: int| 0 <= i < j < m.len() && #[trigger] within_eps(m, e1)(i, j) implies b[i] == b[j] by {
            assert(within_eps(m, e2)(i, j));
        }
    }
    lemma_refines_num_labels(a, b);
}

/// The cluster count is non-increasing in `eps`.
pub proof fn lemma_cluster_count_monotone(m: Seq<Seq<u64>>, e1: int, e2: int, c1: int, c2: int)
    requires
        e1 <= e2,
        is_cluster_count(m, e1, c1),
        is_cluster_count(m, e2, c2),
    ensures
        c2 <= c1,
{
    let a = choose|a: Seq<usize>| is_components(within_eps(m, e1), m.len(), a) && num_labels(a) == c1;
    let b = choose|b: Seq<usize>| is_components(within_eps(m, e2), m.len(), b) && num_labels(b) == c2;
    lemma_clusters_coarsen(m, e1, e2, a, b);
}

/// At `eps = 0` the clusters are the components joined by zero distances
/// alone.
pub proof fn lemma_zero_eps_components(m: Seq<Seq<u64>>, ids: Seq<usize>)
    ensures
        is_components(within_eps(m, 0), m.len(), ids) <==> is_components(zero_distance(m), m.len(), ids),
{
    assert(within_eps(m, 0) =~= zero_distance(m));
}

/// Unions every pair at distance at most `eps`.
fn connect(dist_matrix: &Vec<Vec<u64>>, eps: u64) -> (uf: UnionFind)
    requires
        is_square(matrix(dist_matrix@)),
    ensures
        uf.wf(),
        uf.size() == dist_matrix@.len(),
        respects(within_eps(matrix(dist_matrix@), eps as int), dist_matrix@.len(), uf.rep()),
        forall|lab: Seq<usize>| #[trigger]
            respects(within_eps(matrix(dist_matrix@), eps as int), dist_matrix@.len(), lab) ==> refines(uf.rep(), lab),
{
    let ghost m = matrix(dist_matrix@);
    let ghost edge = within_eps(m, eps as int);
    let n = dist_matrix.len();
    let mut uf = UnionFind::new(n);
    proof {
        assert forall|lab: Seq<usize>| #[trigger] respects(edge, n as nat, lab) implies refines(uf.rep(), lab) by {
            assert forall|a: int, b: int| 0 <= a < n && 0 <= b < n && #[trigger] uf.rep()[a] == #[trigger] uf.rep()[b] implies lab[a] == lab[b] by {
                assert(uf.rep()[a] == a && uf.rep()[b] == b);
            }
        }
    }
    let mut i: usize = 0;
    while i < n
        invariant
            m == matrix(dist_matrix@),
            edge == within_eps(m, eps as int),
            is_square(m),
            n == m.len(),
            i <= n,
            uf.wf(),
            uf.size() == n,
            uf.rep().len() == n,
            forall|a: int, b: int| 0 <= a < b < n && a < i && #[trigger] edge(a, b) ==> uf.rep()[a] == uf.rep()[b],
            forall|lab: Seq<usize>| #[trigger] respects(edge, n as nat, lab) ==> refines(uf.rep(), lab),
        decreases n - i,
    {
        let row = &dist_matrix[i];
        assert(row@ == m[i as int]);
        let mut j: usize = i + 1;
        while j < n
            invariant
                m == matrix(dist_matrix@),
                edge == within_eps(m, eps as int),
                is_square(m),
                n == m.len(),
                i < n,
                i + 1 <= j <= n,
                row@ == m[i as int],
                uf.wf(),
                uf.size() == n,
                uf.rep().len() == n,
                forall|a: int, b: int|
                    0 <= a < b < n && (a < i || (a == i && b < j)) && #[trigger] edge(a, b) ==> uf.rep()[a] == uf.rep()[b],
                forall|lab: Seq<usize>| #[trigger] respects(edge, n as nat, lab) ==> refines(uf.rep(), lab),
            decreases n - j,
        {
            if row[j] <= eps {
                let ghost before = uf.rep();
                uf.union(i, j);
                proof {
                    assert(edge(i as int, j as int));
                    assert forall|lab: Seq<usize>| #[trigger] respects(edge, n as nat, lab) implies refines(uf.rep(), lab) by {
                        assert(refines(before, lab));
                        assert(lab[i as int] == lab[j as int]);
                        assert forall|a: int, b: int|
                            0 <= a < n && 0 <= b < n && #[trigger] uf.rep()[a] == #[trigger] uf.rep()[b] implies lab[a] == lab[b] by {
                            let ra = before[a];
                            let rb = before[b];
                            assert(ra == before[a] && rb == before[b]);
                            if ra == before[i as int] || ra == before[j as int] {
                                if ra == before[i as int] {
                                    assert(lab[a] == lab[i as int]);
                                } else {
                                    assert(lab[a] == lab[j as int]);
                                }
                                if rb == before[i as int] {
                                    assert(lab[b] == lab[i as int]);
                                } else if rb == before[j as int] {
                                    assert(lab[b] == lab[j as int]);
                                }
                            } else if rb == before[i as int] || rb == before[j as int] {
                            } else {
                                assert(ra == rb);
                            }
                        }
                    }
                    assert forall|a: int, b: int|
                        0 <= a < b < n && (a < i || (a == i && b < j + 1)) && #[trigger] edge(a, b) implies uf.rep()[a] == uf.rep()[b] by {
                        let ri = before[i as int];
                        let rj = before[j as int];
                        assert(uf.rep()[i as int] == uf.rep()[i as int]);
                        if a == i && b == j {
                            assert(uf.rep()[j as int] == uf.rep()[i as int]);
                        } else {
                            assert(before[a] == before[b]);
                            let ra = before[a];
                            if ra == ri || ra == rj {
                                assert(uf.rep()[a] == uf.rep()[i as int]);
                                assert(uf.rep()[b] == uf.rep()[i as int]);
                            } else {
                                assert(uf.rep()[a] == ra);
                                assert(uf.rep()[b] == ra);
                            }
                        }
                    }
                }
            } else {
                proof {
                    assert(!edge(i as int, j as int));
                }
            }
            j = j + 1;
        }
        i = i + 1;
    }
    assert(respects(edge, n as nat, uf.rep())) by {
        assert forall|a: int, b: int| 0 <= a < b < n && #[trigger] edge(a, b) implies uf.rep()[a] == uf.rep()[b] by {}
    }
    uf
}

/// A canonical labeling that partitions like the forest is the component
/// labeling.
proof fn lemma_labels_are_components(m: Seq<Seq<u64>>, eps: int, rep: Seq<usize>, ids: Seq<usize>)
    requires
        rep.len() == m.len(),
        ids.len() == m.len(),
        canonical(ids),
        respects(within_eps(m, eps), m.len(), rep),
        forall|lab: Seq<usize>| #[trigger] respects(within_eps(m, eps), m.len(), lab) ==> refines(rep, lab),
        forall|a: int, b: int|
            0 <= a < ids.len() && 0 <= b < ids.len() ==> (#[trigger] ids[a] == #[trigger] ids[b] <==> rep[a] == rep[b]),
    ensures
        is_components(within_eps(m, eps), m.len(), ids),
{
    assert(respects(within_eps(m, eps), m.len(), ids)) by {
        assert forall|i: int, j: int| 0 <= i < j < m.len() && #[trigger] within_eps(m, eps)(i, j) implies ids[i] == ids[j] by {
            assert(rep[i] == rep[j]);
        }
    }
    assert forall|lab: Seq<usize>| #[trigger] respects(within_eps(m, eps), m.len(), lab) implies refines(ids, lab) by {
        assert(refines(rep, lab));
        assert forall|a: int, b: int| 0 <= a < ids.len() && 0 <= b < ids.len() && #[trigger] ids[a] == #[trigger] ids[b] implies lab[a] == lab[b] by {
            assert(rep[a] == rep[b]);
        }
    }
}

/// Number of DBSCAN clusters at threshold `eps`.
pub fn dbscan_count_clusters(dist_matrix: &Vec<Vec<u64>>, eps: u64) -> (r: usize)
    requires
        is_square(matrix(dist_matrix@)),
    ensures
        r == cluster_count(matrix(dist_matrix@), eps as int),
        is_cluster_count(matrix(dist_matrix@), eps as int, r as int),
{
    let mut uf = connect(dist_matrix, eps);
    let ghost rep = uf.rep();
    let r = uf.count_clusters();
    proof {
        let ids = choose|ids: Seq<usize>|
            {
                &&& ids.len() == rep.len()
                &&& canonical(ids)
                &&& r == num_labels(ids)
                &&& forall|a: int, b: int|
                    0 <= a < ids.len() && 0 <= b < ids.len() ==> (#[trigger] ids[a] == #[trigger] ids[b] <==> rep[a] == rep[b])
            };
        lemma_labels_are_components(matrix(dist_matrix@), eps as int, rep, ids);
        lemma_cluster_count_of(matrix(dist_matrix@), eps as int, ids);
    }
    r
}

/// DBSCAN cluster ids at threshold `eps`: the connected components,
/// numbered in order of their first path.
pub fn dbscan_cluster(dist_matrix: &Vec<Vec<u64>>, eps: u64) -> (ids: Vec<usize>)
    requires
        is_square(matrix(dist_matrix@)),
    ensures
        is_components(within_eps(matrix(dist_matrix@), eps as int), dist_matrix@.len(), ids@),
{
    let mut uf = connect(dist_matrix, eps);
    let ghost rep = uf.rep();
    let ids = uf.cluster_ids();
    proof {
        lemma_labels_are_components(matrix(dist_matrix@), eps as int, rep, ids@);
    }
    ids
}

/// Each of `n` paths in a cluster of its own: the components when `eps`
/// is below every distance, as it is when negative.
pub fn singleton_clusters(n: usize) -> (ids: Vec<usize>)
    ensures
        ids@.len() == n,
        canonical(ids@),
        forall|k: int| 0 <= k < n ==> #[trigger] ids@[k] == k,
        forall|m: Seq<Seq<u64>>, eps: int|
            m.len() == n && eps < 0 ==> #[trigger] is_components(within_eps(m, eps), n as nat, ids@),
{
    let mut ids: Vec<usize> = Vec::new();
    let mut i: usize = 0;
    while i < n
        invariant
            i <= n,
            ids@.len() == i,
            forall|k: int| 0 <= k < i ==> #[trigger] ids@[k] == k,
            label_bound(ids@, i as int) == i,
        decreases n - i,
    {
        let ghost before = ids@;
        ids.push(i);
        proof {
            lemma_label_bound_prefix_eq(ids@, before, i as int);
        }
        i = i + 1;
    }
    proof {
        assert(canonical(ids@)) by {
            assert forall|k: int| 0 <= k < ids@.len() implies #[trigger] ids@[k] <= label_bound(ids@, k) by {
                lemma_identity_bound(ids@, k);
            }
        }
        assert forall|m: Seq<Seq<u64>>, eps: int| m.len() == n && eps < 0 implies #[trigger] is_components(
            within_eps(m, eps),
            n as nat,
            ids@,
        ) by {
            assert forall|lab: Seq<usize>| #[trigger] respects(within_eps(m, eps), n as nat, lab) implies refines(ids@, lab) by {
                assert forall|a: int, b: int| 0 <= a < ids@.len() && 0 <= b < ids@.len() && #[trigger] ids@[a] == #[trigger] ids@[b] implies lab[a]
                    == lab[b] by {}
            }
            assert forall|a: int, b: int| 0 <= a < b < n && #[trigger] within_eps(m, eps)(a, b) implies ids@[a] == ids@[b] by {}
        }
    }
    ids
}

proof fn lemma_label_bound_prefix_eq(ids: Seq<usize>, prefix: Seq<usize>, k: int)
    requires
        0 <= k <= prefix.len() < ids.len(),
        forall|j: int| 0 <= j < prefix.len() ==> ids[j] == prefix[j],
    ensures
        label_bound(ids, k) == label_bound(prefix, k),
    decreases k,
{
    if k > 0 {
        lemma_label_bound_prefix_eq(ids, prefix, k - 1);
    }
}

proof fn lemma_identity_bound(ids: Seq<usize>, k: int)
    requires
        0 <= k < ids.len(),
        forall|j: int| 0 <= j < ids.len() ==> #[trigger] ids[j] == j,
    ensures
        label_bound(ids, k) == k,
    decreases k,
{
    if k > 0 {
        lemma_identity_bound(ids, k - 1);
    }
}

/// `ceil(n / 9)`, or the caller's cap.
pub fn max_clusters_or_default(n: usize, max_clusters: Option<usize>) -> (r: usize)
    ensures
        r == max_clusters_for(n as int, max_clusters),
{
    match max_clusters {
        Some(c) => c,
        None => n / 9 + if n % 9 != 0 {
            1
        } else {
            0
        },
    }
}

/// Chooses `eps` by scanning 0.005, 0.010, ..., 0.300 for the first step
/// whose cluster count has settled within the cap; 0.30 when none does.
pub fn find_optimal_eps(dist_matrix: &Vec<Vec<u64>>, n_paths: usize, max_clusters_override: Option<usize>) -> (eps: u64)
    requires
        is_square(matrix(dist_matrix@)),
    ensures
        eps == optimal_eps(matrix(dist_matrix@), n_paths as int, max_clusters_override),
{
    if dist_matrix.len() == 0 {
        return EPS_FALLBACK;
    }
    let ghost m = matrix(dist_matrix@);
    let max_clusters = max_clusters_or_default(n_paths, max_clusters_override);
    let mut prev_clusters = dbscan_count_clusters(dist_matrix, 0);
    let mut k: u64 = 1;
    while k <= EPS_STEPS
        invariant
            m == matrix(dist_matrix@),
            is_square(m),
            m.len() > 0,
            1 <= k <= EPS_STEPS + 1,
            max_clusters == max_clusters_for(n_paths as int, max_clusters_override),
            optimal_eps(m, n_paths as int, max_clusters_override) == eps_scan(m, max_clusters as int, prev_clusters as int, k as int),
        decreases EPS_STEPS + 1 - k,
    {
        let eps = k * EPS_STEP;
        let curr_clusters = dbscan_count_clusters(dist_matrix, eps);
        let change = if prev_clusters >= curr_clusters {
            prev_clusters - curr_clusters
        } else {
            curr_clusters - prev_clusters
        };
        let first_hit_max = prev_clusters > max_clusters && curr_clusters <= max_clusters;
        if (change <= 1 || first_hit_max) && curr_clusters <= max_clusters {
            return eps;
        }
        prev_clusters = curr_clusters;
        k = k + 1;
    }
    EPS_FALLBACK
}

} // verus!
