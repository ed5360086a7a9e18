//! Flat clusterings as label sequences, and the components of a graph.

use vstd::prelude::*;
use vstd::set_lib::*;

verus! {

/// Number of distinct labels among `ids[0..k]` when labels are handed out
/// as `0, 1, 2, ...` in order of first appearance.
pub open spec fn label_bound(ids: Seq<usize>, k: int) -> int
    decreases k,
{
    if k <= 0 {
        0
    } else {
        let prev = label_bound(ids, k - 1);
        if ids[k - 1] + 1 > prev {
            ids[k - 1] + 1
        } else {
            prev
        }
    }
}

/// Labels are numbered in order of first appearance: each label is either
/// one seen before or the next unused one.
pub open spec fn canonical(ids: Seq<usize>) -> bool {
    forall|k: int| 0 <= k < ids.len() ==> #[trigger] ids[k] <= label_bound(ids, k)
}

/// Number of clusters of a canonical labeling.
pub open spec fn num_labels(ids: Seq<usize>) -> int {
    label_bound(ids, ids.len() as int)
}

/// Elements with equal `a` labels have equal `b` labels.
pub open spec fn refines(a: Seq<usize>, b: Seq<usize>) -> bool {
    forall|i: int, j: int|
        0 <= i < a.len() && 0 <= j < a.len() && #[trigger] a[i] == #[trigger] a[j] ==> b[i] == b[j]
}

/// `lab` puts the two ends of every edge `(i, j)`, `i < j < n`, in one
/// cluster.
pub open spec fn respects(edge: spec_fn(int, int) -> bool, n: nat, lab: Seq<usize>) -> bool {
    &&& lab.len() == n
    &&& forall|i: int, j: int| 0 <= i < j < n && #[trigger] edge(i, j) ==> lab[i] == lab[j]
}

/// `ids` is the canonical labeling of the connected components of the graph
/// on `0..n` with the given edges: it keeps edges inside clusters, and any
/// labeling that does so is at most as fine.
pub open spec fn is_components(edge: spec_fn(int, int) -> bool, n: nat, ids: Seq<usize>) -> bool {
    &&& canonical(ids)
    &&& respects(edge, n, ids)
    &&& forall|lab: Seq<usize>| #[trigger] respects(edge, n, lab) ==> refines(ids, lab)
}

/// With no edges, the canonical labeling that gives every element its own
/// label is the component labeling.
pub proof fn lemma_identity_components(edge: spec_fn(int, int) -> bool, n: nat, ids: Seq<usize>)
    requires
        ids.len() == n,
        canonical(ids),
        forall|k: int| 0 <= k < n ==> #[trigger] ids[k] == k,
        forall|i: int, j: int| 0 <= i < j < n ==> !#[trigger] edge(i, j),
    ensures
        is_components(edge, n, ids),
{
    assert forall|lab: Seq<usize>| #[trigger] respects(edge, n, lab) implies refines(ids, lab) by {
        assert forall|a: int, b: int| 0 <= a < ids.len() && 0 <= b < ids.len() && #[trigger] ids[a] == #[trigger] ids[b] implies lab[a]
            == lab[b] by {}
    }
}

/// The set of labels used.
pub open spec fn label_set(ids: Seq<usize>) -> Set<int> {
    Set::new(|v: int| exists|j: int| 0 <= j < ids.len() && ids[j] == v)
}

/// Label `v` occurs among `ids[0..k]`.
pub open spec fn seen(ids: Seq<usize>, k: int, v: int) -> bool {
    exists|j: int| 0 <= j < k && ids[j] == v
}

proof fn lemma_label_bound_facts(ids: Seq<usize>, k: int)
    requires
        canonical(ids),
        0 <= k <= ids.len(),
    ensures
        label_bound(ids, k) >= 0,
        forall|j: int| 0 <= j < k ==> ids[j] < label_bound(ids, k),
        forall|v: int| 0 <= v < label_bound(ids, k) ==> #[trigger] seen(ids, k, v),
    decreases k,
{
    if k > 0 {
        lemma_label_bound_facts(ids, k - 1);
        assert(ids[k - 1] <= label_bound(ids, k - 1));
        assert forall|v: int| 0 <= v < label_bound(ids, k) implies #[trigger] seen(ids, k, v) by {
            if v == label_bound(ids, k - 1) {
                assert(ids[k - 1] == v);
            } else {
                assert(seen(ids, k - 1, v));
                let j = choose|j: int| 0 <= j < k - 1 && ids[j] == v;
                assert(0 <= j < k && ids[j] == v);
            }
        }
    }
}

/// A canonical labeling uses exactly the labels `0..num_labels`.
pub proof fn lemma_label_set(ids: Seq<usize>)
    requires
        canonical(ids),
    ensures
        label_set(ids) == set_int_range(0, num_labels(ids)),
        num_labels(ids) >= 0,
        forall|j: int| 0 <= j < ids.len() ==> ids[j] < num_labels(ids),
{
    lemma_label_bound_facts(ids, ids.len() as int);
    assert forall|v: int| label_set(ids).contains(v) <==> set_int_range(0, num_labels(ids)).contains(v) by {
        if 0 <= v < num_labels(ids) {
            assert(seen(ids, ids.len() as int, v));
        }
    }
    assert(label_set(ids) =~= set_int_range(0, num_labels(ids)));
}

/// Two canonical labelings of one partition are equal.
pub proof fn lemma_canonical_unique(a: Seq<usize>, b: Seq<usize>)
    requires
        canonical(a),
        canonical(b),
        a.len() == b.len(),
        refines(a, b),
        refines(b, a),
    ensures
        a == b,
{
    reveal(mutual_canonical);
    lemma_canonical_prefix(a, b, a.len() as int);
    assert(a =~= b);
}

/// Two canonical labelings of equal length that refine each other.
#[verifier::opaque]
pub open spec fn mutual_canonical(a: Seq<usize>, b: Seq<usize>) -> bool {
    &&& canonical(a)
    &&& canonical(b)
    &&& a.len() == b.len()
    &&& refines(a, b)
    &&& refines(b, a)
}

proof fn lemma_canonical_step(a: Seq<usize>, b: Seq<usize>, i: int)
    requires
        mutual_canonical(a, b),
        0 <= i < a.len(),
        forall|j: int| 0 <= j < i ==> a[j] == b[j],
        label_bound(a, i) == label_bound(b, i),
    ensures
        a[i] == b[i],
{
    reveal(mutual_canonical);
    lemma_label_bound_facts(a, i);
    lemma_label_bound_facts(b, i);
    assert(a[i] <= label_bound(a, i));
    assert(b[i] <= label_bound(b, i));
    if a[i] < label_bound(a, i) {
        assert(seen(a, i, a[i] as int));
        let j = choose|j: int| 0 <= j < i && a[j] == a[i];
        assert(b[j] == b[i]);
    } else if b[i] < label_bound(b, i) {
        assert(seen(b, i, b[i] as int));
        let j = choose|j: int| 0 <= j < i && b[j] == b[i];
        assert(a[j] == a[i]);
    }
}

proof fn lemma_canonical_prefix(a: Seq<usize>, b: Seq<usize>, k: int)
    requires
        mutual_canonical(a, b),
        0 <= k <= a.len(),
    ensures
        forall|j: int| 0 <= j < k ==> a[j] == b[j],
        label_bound(a, k) == label_bound(b, k),
    decreases k,
{
    if k > 0 {
        lemma_canonical_prefix(a, b, k - 1);
        lemma_canonical_step(a, b, k - 1);
    }
}

/// Two component labelings of one graph are equal.
pub proof fn lemma_components_unique(edge: spec_fn(int, int) -> bool, n: nat, a: Seq<usize>, b: Seq<usize>)
    requires
        is_components(edge, n, a),
        is_components(edge, n, b),
    ensures
        a == b,
{
    assert(respects(edge, n, b));
    assert(respects(edge, n, a));
    lemma_canonical_unique(a, b);
}

/// A coarser canonical labeling has at most as many clusters.
pub proof fn lemma_refines_num_labels(a: Seq<usize>, b: Seq<usize>)
    requires
        canonical(a),
        canonical(b),
        a.len() == b.len(),
        refines(a, b),
    ensures
        num_labels(b) <= num_labels(a),
{
    lemma_label_set(a);
    lemma_label_set(b);
    lemma_int_range(0, num_labels(a));
    lemma_int_range(0, num_labels(b));
    let f = |v: int| b[choose|j: int| 0 <= j < a.len() && a[j] == v] as int;
    assert(label_set(a).map(f) =~= label_set(b)) by {
        assert forall|w: int| label_set(b).contains(w) implies label_set(a).map(f).contains(w) by {
            let j = choose|j: int| 0 <= j < b.len() && b[j] == w;
            let v = a[j] as int;
            assert(label_set(a).contains(v));
            let jj = choose|jj: int| 0 <= jj < a.len() && a[jj] == v;
            assert(a[jj] == a[j]);
            assert(f(v) == w);
        }
        assert forall|w: int| label_set(a).map(f).contains(w) implies label_set(b).contains(w) by {
            let v = choose|v: int| label_set(a).contains(v) && f(v) == w;
            let jj = choose|jj: int| 0 <= jj < a.len() && a[jj] == v;
            assert(b[jj] == w);
        }
    }
    lemma_map_size_bound(label_set(a), label_set(b), f);
}

} // verus!
