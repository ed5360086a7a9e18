//! Cutting a dendrogram into flat clusters.

use vstd::prelude::*;
use crate::dendrogram::{connects_leaves, joins_respected, Dendrogram, DendrogramNode, max_node_height, tree_wf};
use crate::dbscan::{max_clusters_for, max_clusters_or_default};
use crate::labels::{
    canonical, is_components, label_bound, label_set, lemma_components_unique, lemma_label_set, num_labels, refines, respects,
};
use vstd::set_lib::set_int_range;
use crate::union_find::UnionFind;

verus! {

/// The leaf reached from `id` by always going left.
pub open spec fn leftmost_leaf(nodes: Seq<DendrogramNode>, n: int, id: int) -> int
    decreases id,
{
    if id < n {
        id
    } else if id - n >= nodes.len() {
        0
    } else if 0 <= nodes[id - n].left < id {
        leftmost_leaf(nodes, n, nodes[id - n].left as int)
    } else {
        0
    }
}

/// Merge `k` applies at threshold `h` and joins leaves `a` and `b`: the
/// leftmost leaves of its two children.
pub open spec fn cut_joins(nodes: Seq<DendrogramNode>, n: int, h: int, k: int, a: int, b: int) -> bool {
    &&& 0 <= k < nodes.len()
    &&& nodes[k].height <= h
    &&& a == leftmost_leaf(nodes, n, nodes[k].left as int)
    &&& b == leftmost_leaf(nodes, n, nodes[k].right as int)
}

/// Edges of the cut at height `h`.
pub open spec fn cut_edge(nodes: Seq<DendrogramNode>, n: int, h: int) -> spec_fn(int, int) -> bool {
    |i: int, j: int| exists|k: int| cut_joins(nodes, n, h, k, i, j) || cut_joins(nodes, n, h, k, j, i)
}

/// The clusters of the cut at height `h`.
pub open spec fn is_cut(dg: Dendrogram, h: int, ids: Seq<usize>) -> bool {
    let n = dg.leaf_order@.len();
    if n == 0 {
        ids.len() == 0
    } else {
        is_components(cut_edge(dg.nodes@, n as int, h), n, ids)
    }
}

proof fn lemma_leftmost_below(nodes: Seq<DendrogramNode>, n: int, id: int)
    requires
        n >= 1,
        id >= 0,
    ensures
        0 <= leftmost_leaf(nodes, n, id) < n,
    decreases id,
{
    if id >= n && id - n < nodes.len() && 0 <= nodes[id - n].left < id {
        lemma_leftmost_below(nodes, n, nodes[id - n].left as int);
    }
}

/// The leftmost leaf below `node_idx`.
pub fn find_leftmost_leaf(dendrogram: &Dendrogram, node_idx: usize, n_leaves: usize) -> (r: usize)
    requires
        n_leaves >= 1,
    ensures
        r == leftmost_leaf(dendrogram.nodes@, n_leaves as int, node_idx as int),
        r < n_leaves,
    decreases node_idx,
{
    proof {
        lemma_leftmost_below(dendrogram.nodes@, n_leaves as int, node_idx as int);
    }
    if node_idx < n_leaves {
        return node_idx;
    }
    let internal_idx = node_idx - n_leaves;
    if internal_idx >= dendrogram.nodes.len() {
        return 0;
    }
    let left = dendrogram.nodes[internal_idx].left;
    if left < node_idx {
        find_leftmost_leaf(dendrogram, left, n_leaves)
    } else {
        0
    }
}

/// Flat clusters of the cut at height `threshold`: the merges at or below
/// it join their subtrees, numbered in order of the first leaf.
pub fn cut_dendrogram_at_height(dendrogram: &Dendrogram, threshold: u64) -> (ids: Vec<usize>)
    requires
        tree_wf(*dendrogram),
    ensures
        ids@.len() == dendrogram.leaf_order@.len(),
        is_cut(*dendrogram, threshold as int, ids@),
{
    let n_leaves = dendrogram.leaf_order.len();
    if n_leaves == 0 {
        return Vec::new();
    }
    let ghost nodes = dendrogram.nodes@;
    let ghost edge = cut_edge(nodes, n_leaves as int, threshold as int);
    if dendrogram.nodes.len() == 0 {
        let ids = vec![0usize];
        proof {
            assert(canonical(ids@)) by {
                assert(ids@[0] == 0);
            }
            assert forall|lab: Seq<usize>| #[trigger] respects(edge, 1, lab) implies refines(ids@, lab) by {
                assert forall|a: int, b: int| 0 <= a < 1 && 0 <= b < 1 && #[trigger] ids@[a] == #[trigger] ids@[b] implies lab[a] == lab[b] by {}
            }
        }
        return ids;
    }
    let mut uf = UnionFind::new(n_leaves);
    proof {
        assert forall|lab: Seq<usize>| #[trigger] respects(edge, n_leaves as nat, lab) implies refines(uf.rep(), lab) by {
            assert forall|a: int, b: int| 0 <= a < n_leaves && 0 <= b < n_leaves && #[trigger] uf.rep()[a] == #[trigger] uf.rep()[b] implies lab[a] == lab[b] by {
                assert(uf.rep()[a] == a && uf.rep()[b] == b);
            }
        }
    }
    let mut k: usize = 0;
    while k < dendrogram.nodes.len()
        invariant
            nodes == dendrogram.nodes@,
            edge == cut_edge(nodes, n_leaves as int, threshold as int),
            n_leaves == dendrogram.leaf_order@.len(),
            n_leaves >= 1,
            k <= nodes.len(),
            uf.wf(),
            uf.size() == n_leaves,
            uf.rep().len() == n_leaves,
            forall|q: int, a: int, b: int|
                0 <= q < k && #[trigger] cut_joins(nodes, n_leaves as int, threshold as int, q, a, b) ==> uf.rep()[a] == uf.rep()[b],
            forall|lab: Seq<usize>| #[trigger] respects(edge, n_leaves as nat, lab) ==> refines(uf.rep(), lab),
        decreases nodes.len() - k,
    {
        let node = &dendrogram.nodes[k];
        if node.height <= threshold {
            let left_leaf = find_leftmost_leaf(dendrogram, node.left, n_leaves);
            let right_leaf = find_leftmost_leaf(dendrogram, node.right, n_leaves);
            let ghost before = uf.rep();
            uf.union(left_leaf, right_leaf);
            proof {
                let x = left_leaf as int;
                let y = right_leaf as int;
                assert(cut_joins(nodes, n_leaves as int, threshold as int, k as int, x, y));
                let rx = before[x];
                let ry = before[y];
                assert forall|lab: Seq<usize>| #[trigger] respects(edge, n_leaves as nat, lab) implies refines(uf.rep(), lab) by {
                    assert(refines(before, lab));
                    assert(lab[x] == lab[y]) by {
                        if x < y {
                            assert(edge(x, y));
                        } else if y < x {
                            assert(edge(y, x));
                        }
                    }
                    assert forall|a: int, b: int|
                        0 <= a < n_leaves && 0 <= b < n_leaves && #[trigger] uf.rep()[a] == #[trigger] uf.rep()[b] implies lab[a] == lab[b] by {
                        let ra = before[a];
                        let rb = before[b];
                        if ra == rx || ra == ry {
                            if ra == rx {
                                assert(lab[a] == lab[x]);
                            } else {
                                assert(lab[a] == lab[y]);
                            }
                            if rb == rx {
                                assert(lab[b] == lab[x]);
                            } else if rb == ry {
                                assert(lab[b] == lab[y]);
                            }
                        } else if rb == rx || rb == ry {
                        } else {
                            assert(ra == rb);
                        }
                    }
                }
                assert forall|q: int, a: int, b: int|
                    0 <= q < k + 1 && #[trigger] cut_joins(nodes, n_leaves as int, threshold as int, q, a, b) implies uf.rep()[a] == uf.rep()[b] by {
                    lemma_leftmost_below(nodes, n_leaves as int, nodes[q].left as int);
                    lemma_leftmost_below(nodes, n_leaves as int, nodes[q].right as int);
                    assert(uf.rep()[x] == uf.rep()[x]);
                    if q == k {
                        assert(a == x && b == y);
                        assert(uf.rep()[y] == uf.rep()[x]);
                    } else {
                        assert(before[a] == before[b]);
                        let ra = before[a];
                        if ra == rx || ra == ry {
                            assert(uf.rep()[a] == uf.rep()[x]);
                            assert(uf.rep()[b] == uf.rep()[x]);
                        } else {
                            assert(uf.rep()[a] == ra);
                            assert(uf.rep()[b] == ra);
                        }
                    }
                }
            }
        } else {
            proof {
                assert forall|q: int, a: int, b: int|
                    0 <= q < k + 1 && #[trigger] cut_joins(nodes, n_leaves as int, threshold as int, q, a, b) implies uf.rep()[a] == uf.rep()[b] by {
                    if q == k {
                        assert(false);
                    }
                }
            }
        }
        k = k + 1;
    }
    let ghost rep = uf.rep();
    let ids = uf.cluster_ids();
    proof {
        assert(respects(edge, n_leaves as nat, ids@)) by {
            assert forall|i: int, j: int| 0 <= i < j < n_leaves && #[trigger] edge(i, j) implies ids@[i] == ids@[j] by {
                let q = choose|q: int| cut_joins(nodes, n_leaves as int, threshold as int, q, i, j) || cut_joins(nodes, n_leaves as int, threshold as int, q, j, i);
                if cut_joins(nodes, n_leaves as int, threshold as int, q, i, j) {
                    assert(rep[i] == rep[j]);
                } else {
                    assert(rep[j] == rep[i]);
                }
            }
        }
        assert forall|lab: Seq<usize>| #[trigger] respects(edge, n_leaves as nat, lab) implies refines(ids@, lab) by {
            assert(refines(rep, lab));
            assert forall|a: int, b: int| 0 <= a < ids@.len() && 0 <= b < ids@.len() && #[trigger] ids@[a] == #[trigger] ids@[b] implies lab[a] == lab[b] by {
                assert(rep[a] == rep[b]);
            }
        }
    }
    ids
}

/// Cut height used when there is no merge: half of the distance scale.
pub const DEFAULT_CUT_HEIGHT: u64 = 1_000_000_000;

/// Number of clusters of the cut at `h`.
pub open spec fn cut_count(dg: Dendrogram, h: int) -> int {
    num_labels(choose|ids: Seq<usize>| is_cut(dg, h, ids))
}

/// The cut labeling at `h` determines the count.
pub proof fn lemma_cut_count_of(dg: Dendrogram, h: int, ids: Seq<usize>)
    requires
        is_cut(dg, h, ids),
    ensures
        cut_count(dg, h) == num_labels(ids),
{
    let c = choose|c: Seq<usize>| is_cut(dg, h, c);
    if dg.leaf_order@.len() == 0 {
        assert(c =~= ids);
    } else {
        lemma_components_unique(cut_edge(dg.nodes@, dg.leaf_order@.len() as int, h), dg.leaf_order@.len(), c, ids);
    }
}

/// The largest of the heights of `nodes[0..k]` whose cut has at least
/// `target` clusters.
pub open spec fn best_reaching(dg: Dendrogram, target: int, k: int) -> Option<u64>
    decreases k,
{
    if k <= 0 {
        None
    } else {
        let prev = best_reaching(dg, target, k - 1);
        let h = dg.nodes@[k - 1].height;
        if cut_count(dg, h as int) >= target && (prev is None || h > prev.unwrap()) {
            Some(h)
        } else {
            prev
        }
    }
}

/// The smallest of the heights of `nodes[0..k]`, `k >= 1`.
pub open spec fn min_height(nodes: Seq<DendrogramNode>, k: int) -> u64
    decreases k,
{
    if k <= 1 {
        nodes[0].height
    } else {
        let prev = min_height(nodes, k - 1);
        if nodes[k - 1].height < prev {
            nodes[k - 1].height
        } else {
            prev
        }
    }
}

/// The automatic cut height: the largest merge height whose cut still has
/// at least the target number of clusters, else the smallest merge height.
pub open spec fn optimal_cut(dg: Dendrogram, max_clusters: Option<usize>) -> u64 {
    let nodes = dg.nodes@;
    if nodes.len() == 0 {
        DEFAULT_CUT_HEIGHT
    } else {
        match best_reaching(dg, max_clusters_for(dg.leaf_order@.len() as int, max_clusters), nodes.len() as int) {
            Some(h) => h,
            None => min_height(nodes, nodes.len() as int),
        }
    }
}

proof fn lemma_label_bound_le(ids: Seq<usize>, k: int)
    requires
        canonical(ids),
        0 <= k <= ids.len(),
    ensures
        0 <= label_bound(ids, k) <= k,
    decreases k,
{
    if k > 0 {
        lemma_label_bound_le(ids, k - 1);
        assert(ids[k - 1] <= label_bound(ids, k - 1));
    }
}

proof fn lemma_label_bound_step(ids: Seq<usize>, i: int)
    requires
        0 <= i < ids.len(),
    ensures
        label_bound(ids, i + 1) == if ids[i] + 1 > label_bound(ids, i) {
            ids[i] + 1
        } else {
            label_bound(ids, i)
        },
{
}

/// Number of clusters of a canonical labeling: the largest label plus one,
/// or 1 when there are no labels.
#[verifier::rlimit(50)]
pub fn count_labels(ids: &Vec<usize>) -> (r: usize)
    requires
        canonical(ids@),
    ensures
        r == if ids@.len() == 0 {
            1
        } else {
            num_labels(ids@)
        },
{
    if ids.len() == 0 {
        return 1;
    }
    let mut best: usize = 0;
    let mut i: usize = 0;
    while i < ids.len()
        invariant
            canonical(ids@),
            i <= ids@.len(),
            best == label_bound(ids@, i as int),
        decreases ids@.len() - i,
    {
        let v = ids[i];
        proof {
            lemma_label_bound_le(ids@, i as int);
            lemma_label_bound_step(ids@, i as int);
            assert(v <= label_bound(ids@, i as int));
        }
        if v + 1 > best {
            best = v + 1;
        }
        i = i + 1;
    }
    best
}

/// Chooses the cut height: the largest merge height whose cut still yields
/// at least `max_clusters` (or `ceil(n / 9)`) clusters, else the smallest.
pub fn find_optimal_upgma_threshold(dendrogram: &Dendrogram, max_clusters: Option<usize>) -> (h: u64)
    requires
        tree_wf(*dendrogram),
    ensures
        h == optimal_cut(*dendrogram, max_clusters),
{
    if dendrogram.nodes.len() == 0 {
        return DEFAULT_CUT_HEIGHT;
    }
    let n_leaves = dendrogram.leaf_order.len();
    let target = max_clusters_or_default(n_leaves, max_clusters);
    let ghost dg = *dendrogram;
    let mut found = false;
    let mut best: u64 = 0;
    let mut smallest: u64 = dendrogram.nodes[0].height;
    let mut k: usize = 0;
    while k < dendrogram.nodes.len()
        invariant
            dg == *dendrogram,
            tree_wf(dg),
            dg.nodes@.len() >= 1,
            n_leaves == dg.leaf_order@.len(),
            target == max_clusters_for(n_leaves as int, max_clusters),
            k <= dg.nodes@.len(),
            found == (best_reaching(dg, target as int, k as int) is Some),
            found ==> best == best_reaching(dg, target as int, k as int).unwrap(),
            k >= 1 ==> smallest == min_height(dg.nodes@, k as int),
            k == 0 ==> smallest == dg.nodes@[0].height,
        decreases dg.nodes@.len() - k,
    {
        let height = dendrogram.nodes[k].height;
        let clusters = cut_dendrogram_at_height(dendrogram, height);
        let num_clusters = count_labels(&clusters);
        proof {
            lemma_cut_count_of(dg, height as int, clusters@);
        }
        if num_clusters >= target && (!found || height > best) {
            best = height;
            found = true;
        }
        if k > 0 && height < smallest {
            smallest = height;
        }
        k = k + 1;
    }
    if found {
        best
    } else {
        smallest
    }
}

/// Cutting below every merge height leaves every leaf on its own: `n`
/// clusters.
#[verifier::rlimit(50)]
pub proof fn lemma_cut_below_all(dg: Dendrogram, h: int, ids: Seq<usize>)
    requires
        tree_wf(dg),
        dg.leaf_order@.len() <= usize::MAX,
        forall|k: int| 0 <= k < dg.nodes@.len() ==> h < (#[trigger] dg.nodes@[k]).height,
        is_cut(dg, h, ids),
    ensures
        num_labels(ids) == dg.leaf_order@.len(),
        forall|k: int| 0 <= k < ids.len() ==> #[trigger] ids[k] == k,
{
    let n = dg.leaf_order@.len();
    if n > 0 {
        let edge = cut_edge(dg.nodes@, n as int, h);
        let lab = Seq::new(n, |i: int| i as usize);
        assert(respects(edge, n, lab)) by {
            assert forall|i: int, j: int| 0 <= i < j < n && #[trigger] edge(i, j) implies lab[i] == lab[j] by {
                let q = choose|q: int| cut_joins(dg.nodes@, n as int, h, q, i, j) || cut_joins(dg.nodes@, n as int, h, q, j, i);
                assert(dg.nodes@[q].height > h);
            }
        }
        assert(refines(ids, lab));
        assert forall|a: int, b: int| 0 <= a < ids.len() && 0 <= b < ids.len() && #[trigger] ids[a] == #[trigger] ids[b] implies a == b by {
            assert(lab[a] == lab[b]);
        }
        lemma_canonical_distinct(ids);
    }
}

proof fn lemma_max_height_bounds(nodes: Seq<DendrogramNode>)
    ensures
        forall|k: int| 0 <= k < nodes.len() ==> (#[trigger] nodes[k]).height <= max_node_height(nodes),
    decreases nodes.len(),
{
    if nodes.len() > 0 {
        lemma_max_height_bounds(nodes.drop_last());
        assert forall|k: int| 0 <= k < nodes.len() implies (#[trigger] nodes[k]).height <= max_node_height(nodes) by {
            if k < nodes.len() - 1 {
                assert(nodes.drop_last()[k] == nodes[k]);
            }
        }
    }
}

/// Cutting a tree whose merges join all leaves at its largest merge height
/// leaves a single cluster.
pub proof fn lemma_cut_at_max_height(dg: Dendrogram, ids: Seq<usize>)
    requires
        tree_wf(dg),
        connects_leaves(dg),
        dg.max_height == max_node_height(dg.nodes@),
        dg.leaf_order@.len() >= 1,
        is_cut(dg, dg.max_height as int, ids),
    ensures
        num_labels(ids) == 1,
{
    let n = dg.leaf_order@.len() as int;
    let nodes = dg.nodes@;
    let h = dg.max_height as int;
    let edge = cut_edge(nodes, n, h);
    lemma_max_height_bounds(nodes);
    assert(respects(edge, n as nat, ids));
    assert(joins_respected(nodes, n, nodes.len() as int, ids)) by {
        assert forall|q: int| 0 <= q < nodes.len() implies #[trigger] ids[leftmost_leaf(nodes, n, nodes[q].left as int)] == ids[leftmost_leaf(
            nodes,
            n,
            nodes[q].right as int,
        )] by {
            let a = leftmost_leaf(nodes, n, nodes[q].left as int);
            let b = leftmost_leaf(nodes, n, nodes[q].right as int);
            lemma_leftmost_below(nodes, n, nodes[q].left as int);
            lemma_leftmost_below(nodes, n, nodes[q].right as int);
            assert(nodes[q].height <= h);
            assert(cut_joins(nodes, n, h, q, a, b));
            if a < b {
                assert(edge(a, b));
            } else if b < a {
                assert(edge(b, a));
            }
        }
    }
    assert forall|x: int| 0 <= x < n implies #[trigger] ids[x] == ids[0] by {}
    lemma_label_set(ids);
    assert(ids[0] <= label_bound(ids, 0));
    assert(label_set(ids).contains(0));
    if num_labels(ids) > 1 {
        assert(set_int_range(0, num_labels(ids)).contains(1));
        assert(label_set(ids).contains(1));
        let j = choose|j: int| 0 <= j < ids.len() && ids[j] == 1;
        assert(ids[j] == ids[0]);
    }
}

/// Cutting below zero joins nothing: each leaf is its own cluster.
pub proof fn lemma_cut_below_zero(dg: Dendrogram, h: int, ids: Seq<usize>)
    requires
        h < 0,
        ids.len() == dg.leaf_order@.len(),
        canonical(ids),
        forall|k: int| 0 <= k < ids.len() ==> #[trigger] ids[k] == k,
    ensures
        is_cut(dg, h, ids),
{
    let n = dg.leaf_order@.len();
    if n > 0 {
        let edge = cut_edge(dg.nodes@, n as int, h);
        assert forall|i: int, j: int| 0 <= i < j < n implies !#[trigger] edge(i, j) by {
            if edge(i, j) {
                let q = choose|q: int| cut_joins(dg.nodes@, n as int, h, q, i, j) || cut_joins(dg.nodes@, n as int, h, q, j, i);
                assert(dg.nodes@[q].height <= h);
            }
        }
        crate::labels::lemma_identity_components(edge, n, ids);
    }
}

/// A canonical labeling with no repeated label has as many labels as
/// entries.
proof fn lemma_canonical_distinct(ids: Seq<usize>)
    requires
        canonical(ids),
        forall|a: int, b: int| 0 <= a < ids.len() && 0 <= b < ids.len() && #[trigger] ids[a] == #[trigger] ids[b] ==> a == b,
    ensures
        num_labels(ids) == ids.len(),
        forall|k: int| 0 <= k < ids.len() ==> #[trigger] ids[k] == k,
{
    lemma_distinct_prefix(ids, ids.len() as int);
}

proof fn lemma_distinct_prefix(ids: Seq<usize>, k: int)
    requires
        canonical(ids),
        0 <= k <= ids.len(),
        forall|a: int, b: int| 0 <= a < ids.len() && 0 <= b < ids.len() && #[trigger] ids[a] == #[trigger] ids[b] ==> a == b,
    ensures
        label_bound(ids, k) == k,
        forall|j: int| 0 <= j < k ==> #[trigger] ids[j] == j,
    decreases k,
{
    if k > 0 {
        lemma_distinct_prefix(ids, k - 1);
        let i = k - 1;
        assert(ids[i] <= label_bound(ids, i));
        if ids[i] < i {
            let v = ids[i] as int;
            assert(ids[v] == v);
            assert(ids[v] == ids[i]);
        }
    }
}

} // verus!
