//! Average-linkage (UPGMA) hierarchical clustering, optionally constrained
//! by a flat clustering, and cutting the tree into flat clusters.

use vstd::prelude::*;
use vstd::set_lib::*;
use crate::cut::leftmost_leaf;
use crate::dbscan::{is_square, matrix, DIST_SCALE};

verus! {

/// Merge heights are in units of `1 / HEIGHT_SCALE`. UPGMA puts a merge at
/// half the distance of the merged pair, so a merge at distance `d` (in
/// units of `1 / DIST_SCALE`) has height `d` in these units.
pub const HEIGHT_SCALE: u64 = 2_000_000_000;

/// One merge. Ids below the number of leaves `n` are leaves; id `n + k` is
/// the cluster made by merge `k`.
#[derive(Clone, Copy, Debug)]
pub struct DendrogramNode {
    pub left: usize,
    pub right: usize,
    /// Merge height, in units of `1 / HEIGHT_SCALE`.
    pub height: u64,
    /// Number of leaves below this node.
    pub size: usize,
}

/// A merge tree over `n` leaves.
#[derive(Clone, Debug)]
pub struct Dendrogram {
    /// The `n - 1` merges, in the order they were made.
    pub nodes: Vec<DendrogramNode>,
    /// The leaves in plotting order.
    pub leaf_order: Vec<usize>,
    /// The largest merge height, 0 without merges.
    pub max_height: u64,
}

/// The working state of UPGMA after some merges: the distance matrix, which
/// slots still hold a cluster, each slot's cluster id and its leaf count.
pub struct UpgmaState {
    pub d: Seq<Seq<u64>>,
    pub active: Seq<bool>,
    pub ids: Seq<usize>,
    pub sizes: Seq<usize>,
}

pub open spec fn upgma_start(m: Seq<Seq<u64>>) -> UpgmaState {
    UpgmaState {
        d: m,
        active: Seq::new(m.len(), |i: int| true),
        ids: Seq::new(m.len(), |i: int| i as usize),
        sizes: Seq::new(m.len(), |i: int| 1usize),
    }
}

/// `(i, j)` with `i < j` is a pair of live slots that may merge; with
/// `same_tag`, only slots of equal tag may.
pub open spec fn is_candidate(d: Seq<Seq<u64>>, active: Seq<bool>, tags: Seq<usize>, same_tag: bool, i: int, j: int) -> bool {
    &&& 0 <= i < j < d.len()
    &&& active[i]
    &&& active[j]
    &&& (same_tag ==> tags[i] == tags[j])
}

/// `(i, j)` is the closest candidate pair, the first in row-major order
/// among equally close ones.
pub open spec fn is_closest(d: Seq<Seq<u64>>, active: Seq<bool>, tags: Seq<usize>, same_tag: bool, i: int, j: int) -> bool {
    &&& is_candidate(d, active, tags, same_tag, i, j)
    &&& forall|a: int, b: int| #[trigger] is_candidate(d, active, tags, same_tag, a, b) ==> d[i][j] <= d[a][b]
    &&& forall|a: int, b: int|
        #[trigger] is_candidate(d, active, tags, same_tag, a, b) && (a < i || (a == i && b < j)) ==> d[i][j] < d[a][b]
}

pub open spec fn tags_or_empty(tags: Option<Seq<usize>>) -> Seq<usize> {
    match tags {
        Some(t) => t,
        None => Seq::empty(),
    }
}

/// With a constraint, merges stay within a tag while such a pair is left.
pub open spec fn merges_within_tag(st: UpgmaState, tags: Option<Seq<usize>>) -> bool {
    match tags {
        Some(t) => exists|a: int, b: int| is_candidate(st.d, st.active, t, true, a, b),
        None => false,
    }
}

/// The pair UPGMA merges next.
pub open spec fn closest_pair(st: UpgmaState, tags: Option<Seq<usize>>) -> (int, int) {
    choose|p: (int, int)|
        is_closest(st.d, st.active, tags_or_empty(tags), merges_within_tag(st, tags), p.0, p.1)
}

/// Size-weighted mean of the distances of the two merged clusters to a third.
pub open spec fn average(dik: u64, djk: u64, si: usize, sj: usize) -> u64 {
    ((dik * si + djk * sj) / (si + sj)) as u64
}

/// Entry `(a, b)` of the matrix after merging `j` (of `sj` leaves) into `i`
/// (of `si` leaves): the distances between `i` and every other live slot
/// become averages.
pub open spec fn merged_distance(d: Seq<Seq<u64>>, active: Seq<bool>, i: int, j: int, si: usize, sj: usize, a: int, b: int) -> u64 {
    if a == i && b != i && b != j && active[b] {
        average(d[i][b], d[j][b], si, sj)
    } else if b == i && a != i && a != j && active[a] {
        average(d[i][a], d[j][a], si, sj)
    } else {
        d[a][b]
    }
}

pub open spec fn merged_matrix(d: Seq<Seq<u64>>, active: Seq<bool>, i: int, j: int, si: usize, sj: usize) -> Seq<Seq<u64>> {
    Seq::new(d.len(), |a: int| Seq::new(d.len(), |b: int| merged_distance(d, active, i, j, si, sj, a, b)))
}

pub open spec fn merge_slots(st: UpgmaState, i: int, j: int, new_id: int) -> UpgmaState {
    UpgmaState {
        d: merged_matrix(st.d, st.active, i, j, st.sizes[i], st.sizes[j]),
        active: st.active.update(j, false),
        ids: st.ids.update(i, new_id as usize),
        sizes: st.sizes.update(i, (st.sizes[i] + st.sizes[j]) as usize),
    }
}

/// The state after `k` merges.
pub open spec fn upgma_state(m: Seq<Seq<u64>>, tags: Option<Seq<usize>>, k: nat) -> UpgmaState
    decreases k,
{
    if k == 0 {
        upgma_start(m)
    } else {
        let st = upgma_state(m, tags, (k - 1) as nat);
        let p = closest_pair(st, tags);
        merge_slots(st, p.0, p.1, m.len() + k - 1)
    }
}

/// Merge `k` of UPGMA: the ids merged, at half their distance.
pub open spec fn upgma_node(m: Seq<Seq<u64>>, tags: Option<Seq<usize>>, k: nat) -> DendrogramNode {
    let st = upgma_state(m, tags, k);
    let p = closest_pair(st, tags);
    DendrogramNode {
        left: st.ids[p.0],
        right: st.ids[p.1],
        height: st.d[p.0][p.1],
        size: (st.sizes[p.0] + st.sizes[p.1]) as usize,
    }
}

/// Every entry is a normalized distance, at most 1.
pub open spec fn entries_bounded(m: Seq<Seq<u64>>) -> bool {
    forall|i: int, j: int| 0 <= i < m.len() && 0 <= j < m[i].len() ==> #[trigger] m[i][j] <= DIST_SCALE
}

/// The closest pair is unique.
proof fn lemma_closest_unique(d: Seq<Seq<u64>>, active: Seq<bool>, tags: Seq<usize>, same_tag: bool, p: (int, int), q: (int, int))
    requires
        is_closest(d, active, tags, same_tag, p.0, p.1),
        is_closest(d, active, tags, same_tag, q.0, q.1),
    ensures
        p == q,
{
    assert(is_candidate(d, active, tags, same_tag, p.0, p.1));
    assert(is_candidate(d, active, tags, same_tag, q.0, q.1));
}

/// Scans the live pairs in row-major order for the closest one.
fn find_closest(dists: &Vec<Vec<u64>>, active: &Vec<bool>, tags: &Vec<usize>, same_tag: bool) -> (r: (bool, usize, usize))
    requires
        is_square(matrix(dists@)),
        active@.len() == dists@.len(),
        same_tag ==> tags@.len() == dists@.len(),
    ensures
        r.0 == exists|a: int, b: int| is_candidate(matrix(dists@), active@, tags@, same_tag, a, b),
        r.0 ==> is_closest(matrix(dists@), active@, tags@, same_tag, r.1 as int, r.2 as int),
{
    let ghost m = matrix(dists@);
    let n = dists.len();
    let mut min_dist: u64 = u64::MAX;
    let mut min_i: usize = 0;
    let mut min_j: usize = 0;
    let mut found = false;
    let mut i: usize = 0;
    while i < n
        invariant
            m == matrix(dists@),
            is_square(m),
            n == m.len(),
            active@.len() == n,
            same_tag ==> tags@.len() == n,
            i <= n,
            found ==> is_candidate(m, active@, tags@, same_tag, min_i as int, min_j as int) && min_dist == m[min_i as int][min_j as int]
                && min_i < i,
            forall|a: int, b: int|
                a < i && #[trigger] is_candidate(m, active@, tags@, same_tag, a, b) ==> found && min_dist <= m[a][b]
                    && ((a < min_i || (a == min_i && b < min_j)) ==> min_dist < m[a][b]),
        decreases n - i,
    {
        if active[i] {
            let row = &dists[i];
            assert(row@ == m[i as int]);
            let mut j: usize = i + 1;
            while j < n
                invariant
                    m == matrix(dists@),
                    is_square(m),
                    n == m.len(),
                    active@.len() == n,
                    same_tag ==> tags@.len() == n,
                    i < n,
                    active@[i as int],
                    row@ == m[i as int],
                    i + 1 <= j <= n,
                    found ==> is_candidate(m, active@, tags@, same_tag, min_i as int, min_j as int) && min_dist == m[min_i as int][min_j as int]
                        && (min_i < i || (min_i == i && min_j < j)),
                            forall|a: int, b: int|
                        (a < i || (a == i && b < j)) && #[trigger] is_candidate(m, active@, tags@, same_tag, a, b) ==> found && min_dist <= m[a][b]
                            && ((a < min_i || (a == min_i && b < min_j)) ==> min_dist < m[a][b]),
                decreases n - j,
            {
                if active[j] && (!same_tag || tags[i] == tags[j]) && (!found || row[j] < min_dist) {
                    min_dist = row[j];
                    min_i = i;
                    min_j = j;
                    found = true;
                }
                j = j + 1;
            }
        }
        i = i + 1;
    }
    proof {
        if found {
            assert forall|a: int, b: int| #[trigger] is_candidate(m, active@, tags@, same_tag, a, b) implies m[min_i as int][min_j as int] <= m[a][b] by {}
        } else {
            assert forall|a: int, b: int| !is_candidate(m, active@, tags@, same_tag, a, b) by {}
        }
    }
    (found, min_i, min_j)
}

/// A size-weighted mean of two values at most `bound` is at most `bound`.
proof fn lemma_average_bounded(dik: u64, djk: u64, si: usize, sj: usize, bound: int)
    requires
        dik <= bound,
        djk <= bound,
        si >= 1,
        sj >= 1,
    ensures
        (dik * si + djk * sj) / (si + sj) <= bound,
        (dik * si + djk * sj) <= bound * (si + sj),
{
    assert(dik * si <= bound * si) by (nonlinear_arith)
        requires dik <= bound, si >= 1;
    assert(djk * sj <= bound * sj) by (nonlinear_arith)
        requires djk <= bound, sj >= 1;
    let t = dik * si + djk * sj;
    let s = si + sj;
    assert(t <= bound * s) by (nonlinear_arith)
        requires t == dik * si + djk * sj, s == si + sj, dik * si <= bound * si, djk * sj <= bound * sj;
    assert(t / s <= bound) by (nonlinear_arith)
        requires t <= bound * s, s >= 1, t >= 0;
}

/// Merges slot `j` into slot `i`: the distances from `i` to every other
/// live slot become size-weighted means.
fn merge_distances(dists: &mut Vec<Vec<u64>>, active: &Vec<bool>, i: usize, j: usize, si: usize, sj: usize)
    requires
        is_square(matrix(old(dists)@)),
        active@.len() == old(dists)@.len(),
        i < old(dists)@.len(),
        j < old(dists)@.len(),
        i != j,
        si >= 1,
        sj >= 1,
        si + sj <= usize::MAX,
    ensures
        final(dists)@.len() == old(dists)@.len(),
        matrix(final(dists)@) == merged_matrix(matrix(old(dists)@), active@, i as int, j as int, si, sj),
        is_square(matrix(final(dists)@)),
{
    let ghost m = matrix(dists@);
    let ghost target = merged_matrix(m, active@, i as int, j as int, si, sj);
    let n = dists.len();
    let new_size = si + sj;
    let mut row_i = dists[i].clone();
    assert(row_i@ =~= m[i as int]);
    let row_j = dists[j].clone();
    assert(row_j@ =~= m[j as int]);
    assert forall|a: int| 0 <= a < n implies #[trigger] dists@[a]@ == m[a] by {}
    let mut k: usize = 0;
    while k < n
        invariant
            n == m.len(),
            is_square(m),
            active@.len() == n,
            i < n,
            j < n,
            i != j,
            si >= 1,
            sj >= 1,
            new_size == si + sj,
            target == merged_matrix(m, active@, i as int, j as int, si, sj),
            row_j@ == m[j as int],
            k <= n,
            dists@.len() == n,
            row_i@.len() == n,
            forall|b: int| 0 <= b < n ==> #[trigger] row_i@[b] == if b < k { target[i as int][b] } else { m[i as int][b] },
            forall|a: int| 0 <= a < n ==> #[trigger] dists@[a]@.len() == n,
            forall|a: int, b: int|
                0 <= a < n && 0 <= b < n ==> #[trigger] dists@[a]@[b] == if a != i && b == i && a < k {
                    target[a][b]
                } else {
                    m[a][b]
                },
        decreases n - k,
    {
        if k != i && k != j && active[k] {
            let dik = row_i[k];
            let djk = row_j[k];
            proof {
                lemma_average_bounded(dik, djk, si, sj, u64::MAX as int);
                assert((u64::MAX as int) * (si + sj) <= (u64::MAX as int) * (2 * (usize::MAX as int))) by (nonlinear_arith)
                    requires si + sj <= usize::MAX;
            }
            let total: u128 = dik as u128 * si as u128 + djk as u128 * sj as u128;
            let new_dist = (total / new_size as u128) as u64;
            assert(new_dist == average(m[i as int][k as int], m[j as int][k as int], si, sj));
            row_i.set(k, new_dist);
            let mut row_k = dists[k].clone();
            assert(row_k@ =~= dists@[k as int]@);
            row_k.set(i, new_dist);
            dists.set(k, row_k);
        }
        k = k + 1;
    }
    dists.set(i, row_i);
    proof {
        assert forall|a: int| 0 <= a < n implies #[trigger] matrix(dists@)[a] =~= target[a] by {}
        assert(matrix(dists@) =~= target);
    }
}

/// Node `k` joins ids made before it: leaves, or nodes `n + q` with `q < k`;
/// there are `n - 1` nodes for `n >= 1` leaves.
pub open spec fn tree_wf(dg: Dendrogram) -> bool {
    let n = dg.leaf_order@.len();
    &&& (n == 0 ==> dg.nodes@.len() == 0)
    &&& (n >= 1 ==> dg.nodes@.len() == n - 1)
    &&& forall|k: int| 0 <= k < dg.nodes@.len() ==> (#[trigger] dg.nodes@[k]).left < n + k && dg.nodes@[k].right < n + k
}

/// The flat constraint as sequences.
pub open spec fn tags_view(cluster_assignments: Option<&Vec<usize>>) -> Option<Seq<usize>> {
    match cluster_assignments {
        Some(t) => Some(t@),
        None => None,
    }
}

/// `s` lists each of `0..n` exactly once.
pub open spec fn is_permutation(s: Seq<usize>, n: int) -> bool {
    &&& s.len() == n
    &&& s.no_duplicates()
    &&& forall|i: int| 0 <= i < s.len() ==> #[trigger] s[i] < n
    &&& forall|x: int| 0 <= x < n ==> #[trigger] s.contains(x as usize)
}

/// The largest merge height, 0 for no merges.
pub open spec fn max_node_height(nodes: Seq<DendrogramNode>) -> u64
    decreases nodes.len(),
{
    if nodes.len() == 0 {
        0
    } else {
        let rest = max_node_height(nodes.drop_last());
        let h = nodes.last().height;
        if h > rest {
            h
        } else {
            rest
        }
    }
}

/// The slots still holding a cluster.
pub open spec fn live_slots(active: Seq<bool>) -> Set<int> {
    Set::new(|s: int| 0 <= s < active.len() && active[s])
}

/// Distinct values below `n` are at most `n` many, and exactly `n` when
/// all of `0..n` occur.
pub proof fn lemma_unique_below(s: Seq<usize>, n: int)
    requires
        s.no_duplicates(),
        0 <= n <= usize::MAX,
        forall|i: int| 0 <= i < s.len() ==> #[trigger] s[i] < n,
    ensures
        s.len() <= n,
        (forall|x: int| 0 <= x < n ==> #[trigger] s.contains(x as usize)) ==> s.len() == n,
{
    let t = s.map_values(|x: usize| x as int);
    assert(t.no_duplicates()) by {
        assert forall|i: int, j: int| 0 <= i < t.len() && 0 <= j < t.len() && i != j implies t[i] != t[j] by {
            assert(s[i] != s[j]);
        }
    }
    t.unique_seq_to_set();
    lemma_int_range(0, n);
    assert(t.to_set().subset_of(set_int_range(0, n))) by {
        assert forall|x: int| t.to_set().contains(x) implies set_int_range(0, n).contains(x) by {
            let i = choose|i: int| 0 <= i < t.len() && t[i] == x;
            assert(s[i] < n);
        }
    }
    lemma_len_subset(t.to_set(), set_int_range(0, n));
    if forall|x: int| 0 <= x < n ==> #[trigger] s.contains(x as usize) {
        assert(t.to_set() =~= set_int_range(0, n)) by {
            assert forall|x: int| set_int_range(0, n).contains(x) implies t.to_set().contains(x) by {
                assert(s.contains(x as usize));
                let i = choose|i: int| 0 <= i < s.len() && s[i] == x as usize;
                assert(t[i] == x);
            }
        }
    }
}

/// The leaf lists of the live clusters: each is free of repeats, as long
/// as the cluster's size, and holds exactly the leaves `owner` gives to its
/// slot; every leaf belongs to a live slot.
pub open spec fn owned(
    active: Seq<bool>,
    ids: Seq<usize>,
    sizes: Seq<usize>,
    children: Seq<Seq<usize>>,
    owner: Seq<int>,
    n: int,
) -> bool {
    &&& active.len() == n
    &&& ids.len() == n
    &&& sizes.len() == n
    &&& owner.len() == n
    &&& forall|s: int|
        0 <= s < n && #[trigger] active[s] ==> {
            &&& ids[s] < children.len()
            &&& sizes[s] >= 1
            &&& children[ids[s] as int].no_duplicates()
            &&& sizes[s] == children[ids[s] as int].len()
            &&& forall|x: int|
                0 <= x < children[ids[s] as int].len() ==> #[trigger] children[ids[s] as int][x] < n
                    && owner[children[ids[s] as int][x] as int] == s
        }
    &&& forall|l: int|
        0 <= l < n ==> 0 <= #[trigger] owner[l] < n && active[owner[l]] && children[ids[owner[l]] as int].contains(
            l as usize,
        )
}

pub open spec fn lists(children: Seq<Vec<usize>>) -> Seq<Seq<usize>> {
    children.map_values(|c: Vec<usize>| c@)
}

/// Merging slot `j` into slot `i` under the new id `children.len()`.
proof fn lemma_merge_owned(
    active: Seq<bool>,
    ids: Seq<usize>,
    sizes: Seq<usize>,
    children: Seq<Seq<usize>>,
    owner: Seq<int>,
    n: int,
    i: int,
    j: int,
)
    requires
        owned(active, ids, sizes, children, owner, n),
        0 <= i < n,
        0 <= j < n,
        i != j,
        active[i],
        active[j],
        children.len() <= usize::MAX,
        n <= usize::MAX,
    ensures
        sizes[i] + sizes[j] <= n,
        ({
            let new_list = children[ids[i] as int] + children[ids[j] as int];
            &&& new_list.no_duplicates()
            &&& new_list.len() == sizes[i] + sizes[j]
            &&& forall|x: int| 0 <= x < new_list.len() ==> #[trigger] new_list[x] < n
            &&& owned(
                active.update(j, false),
                ids.update(i, children.len() as usize),
                sizes.update(i, (sizes[i] + sizes[j]) as usize),
                children.push(new_list),
                owner.map_values(|o: int| if o == j { i } else { o }),
                n,
            )
        }),
{
    let li = children[ids[i] as int];
    let lj = children[ids[j] as int];
    let new_list = li + lj;
    assert forall|a: int, b: int| 0 <= a < li.len() && 0 <= b < lj.len() implies li[a] != lj[b] by {
        assert(owner[li[a] as int] == i);
        assert(owner[lj[b] as int] == j);
    }
    vstd::seq_lib::lemma_no_dup_in_concat(li, lj);
    assert forall|x: int| 0 <= x < new_list.len() implies #[trigger] new_list[x] < n by {
        if x < li.len() {
            assert(new_list[x] == li[x]);
        } else {
            assert(new_list[x] == lj[x - li.len()]);
        }
    }
    lemma_unique_below(new_list, n);
    let na = active.update(j, false);
    let ni = ids.update(i, children.len() as usize);
    let ns = sizes.update(i, (sizes[i] + sizes[j]) as usize);
    let nc = children.push(new_list);
    let no = owner.map_values(|o: int| if o == j { i } else { o });
    assert forall|x: int| 0 <= x < new_list.len() implies #[trigger] new_list[x] < n && no[new_list[x] as int] == i by {
        if x < li.len() {
            assert(new_list[x] == li[x]);
        } else {
            assert(new_list[x] == lj[x - li.len()]);
        }
    }
    assert forall|s: int| 0 <= s < n && #[trigger] na[s] implies {
        &&& ni[s] < nc.len()
        &&& ns[s] >= 1
        &&& nc[ni[s] as int].no_duplicates()
        &&& ns[s] == nc[ni[s] as int].len()
        &&& forall|x: int|
            0 <= x < nc[ni[s] as int].len() ==> #[trigger] nc[ni[s] as int][x] < n && no[nc[ni[s] as int][x] as int] == s
    } by {
        if s != i {
            assert(active[s]);
            assert(nc[ni[s] as int] == children[ids[s] as int]);
            assert forall|x: int| 0 <= x < nc[ni[s] as int].len() implies #[trigger] nc[ni[s] as int][x] < n
                && no[nc[ni[s] as int][x] as int] == s by {
                assert(owner[children[ids[s] as int][x] as int] == s);
            }
        }
    }
    assert forall|l: int| 0 <= l < n implies 0 <= #[trigger] no[l] < n && na[no[l]] && nc[ni[no[l]] as int].contains(
        l as usize,
    ) by {
        let o = owner[l];
        assert(children[ids[o] as int].contains(l as usize));
        let x = choose|x: int| 0 <= x < children[ids[o] as int].len() && children[ids[o] as int][x] == l as usize;
        if o == i {
            assert(new_list[x] == l as usize);
        } else if o == j {
            assert(new_list[li.len() + x] == l as usize);
        } else {
            assert(nc[ni[o] as int] == children[ids[o] as int]);
        }
    }
}

/// `n` distinct values below `n` are all of `0..n`.
pub proof fn lemma_full_range(s: Seq<usize>, n: int)
    requires
        s.no_duplicates(),
        s.len() == n,
        n <= usize::MAX,
        forall|i: int| 0 <= i < s.len() ==> #[trigger] s[i] < n,
    ensures
        forall|x: int| 0 <= x < n ==> #[trigger] s.contains(x as usize),
{
    let t = s.map_values(|x: usize| x as int);
    assert(t.no_duplicates()) by {
        assert forall|i: int, j: int| 0 <= i < t.len() && 0 <= j < t.len() && i != j implies t[i] != t[j] by {
            assert(s[i] != s[j]);
        }
    }
    t.unique_seq_to_set();
    lemma_int_range(0, n);
    assert(t.to_set().subset_of(set_int_range(0, n))) by {
        assert forall|x: int| t.to_set().contains(x) implies set_int_range(0, n).contains(x) by {
            let i = choose|i: int| 0 <= i < t.len() && t[i] == x;
            assert(s[i] < n);
        }
    }
    lemma_subset_equality(t.to_set(), set_int_range(0, n));
    assert forall|x: int| 0 <= x < n implies #[trigger] s.contains(x as usize) by {
        assert(set_int_range(0, n).contains(x));
        assert(t.to_set().contains(x));
        let i = choose|i: int| 0 <= i < t.len() && t[i] == x;
        assert(s[i] == x as usize);
    }
}

/// The leaves below id `id` in plotting order: a leaf alone, or the leaves
/// of node `id - n`'s left child followed by those of its right child.
pub open spec fn subtree_leaves(nodes: Seq<DendrogramNode>, n: int, id: int) -> Seq<usize>
    decreases id,
{
    if 0 <= id < n {
        seq![id as usize]
    } else if n <= id < n + nodes.len() && 0 <= nodes[id - n].left < id && 0 <= nodes[id - n].right < id {
        subtree_leaves(nodes, n, nodes[id - n].left as int) + subtree_leaves(nodes, n, nodes[id - n].right as int)
    } else {
        Seq::empty()
    }
}

/// Each live cluster's leaf list is the leaf order of its subtree.
pub open spec fn lists_are_subtrees(
    nodes: Seq<DendrogramNode>,
    n: int,
    active: Seq<bool>,
    ids: Seq<usize>,
    children: Seq<Seq<usize>>,
) -> bool {
    forall|s: int| 0 <= s < n && #[trigger] active[s] ==> children[ids[s] as int] == subtree_leaves(nodes, n, ids[s] as int)
}

proof fn lemma_subtree_push(nodes: Seq<DendrogramNode>, nd: DendrogramNode, n: int, id: int)
    requires
        0 <= id < n + nodes.len(),
    ensures
        subtree_leaves(nodes.push(nd), n, id) == subtree_leaves(nodes, n, id),
    decreases id,
{
    if id >= n {
        assert(nodes.push(nd)[id - n] == nodes[id - n]);
        let l = nodes[id - n].left as int;
        let r = nodes[id - n].right as int;
        if 0 <= l < id && 0 <= r < id {
            lemma_subtree_push(nodes, nd, n, l);
            lemma_subtree_push(nodes, nd, n, r);
        }
    }
}

/// Merging slot `j` into slot `i` with node `nd` keeps the leaf lists equal
/// to the subtrees' leaf orders.
proof fn lemma_merge_subtrees(
    nodes: Seq<DendrogramNode>,
    n: int,
    active: Seq<bool>,
    ids: Seq<usize>,
    children: Seq<Seq<usize>>,
    i: int,
    j: int,
    nd: DendrogramNode,
)
    requires
        lists_are_subtrees(nodes, n, active, ids, children),
        0 <= i < n,
        0 <= j < n,
        i != j,
        active[i],
        active[j],
        active.len() == n,
        ids.len() == n,
        children.len() == n + nodes.len(),
        n + nodes.len() <= usize::MAX,
        forall|s: int| 0 <= s < n && #[trigger] active[s] ==> ids[s] < n + nodes.len(),
        nd.left == ids[i],
        nd.right == ids[j],
    ensures
        lists_are_subtrees(
            nodes.push(nd),
            n,
            active.update(j, false),
            ids.update(i, (n + nodes.len()) as usize),
            children.push(children[ids[i] as int] + children[ids[j] as int]),
        ),
{
    let nn = nodes.push(nd);
    let k = nodes.len() as int;
    let na = active.update(j, false);
    let ni = ids.update(i, (n + k) as usize);
    let nc = children.push(children[ids[i] as int] + children[ids[j] as int]);
    assert forall|s: int| 0 <= s < n && #[trigger] na[s] implies nc[ni[s] as int] == subtree_leaves(nn, n, ni[s] as int) by {
        if s != i {
            assert(active[s]);
            lemma_subtree_push(nodes, nd, n, ids[s] as int);
            assert(ids[s] < n + k);
            assert(nc[ni[s] as int] == children[ids[s] as int]);
        } else {
            lemma_subtree_push(nodes, nd, n, ids[i] as int);
            lemma_subtree_push(nodes, nd, n, ids[j] as int);
            assert(nn[k] == nd);
            assert(subtree_leaves(nn, n, n + k) == subtree_leaves(nn, n, ids[i] as int) + subtree_leaves(nn, n, ids[j] as int));
        }
    }
}

/// The tags along `l` come in blocks: each tag occupies one contiguous run.
pub open spec fn tag_blocks(l: Seq<usize>, t: Seq<usize>) -> bool {
    forall|p: int, q: int, r: int|
        0 <= p < q < r < l.len() && t[l[p] as int] == t[l[r] as int] ==> #[trigger] t[l[q] as int] == #[trigger] t[l[p] as int]
            && #[trigger] t[l[r] as int] == t[l[p] as int]
}

/// Tag structure during constrained UPGMA: every live list is in tag
/// blocks; before the first merge across tags each live list carries only
/// its slot's tag, and after it all leaves of a tag share one list.
pub open spec fn tag_phase(
    t: Seq<usize>,
    n: int,
    active: Seq<bool>,
    ids: Seq<usize>,
    children: Seq<Seq<usize>>,
    owner: Seq<int>,
    across: bool,
) -> bool {
    &&& forall|s: int| 0 <= s < n && #[trigger] active[s] ==> tag_blocks(children[ids[s] as int], t)
    &&& (!across ==> forall|s: int, x: int|
        0 <= s < n && active[s] && 0 <= x < children[ids[s] as int].len() ==> #[trigger] t[children[ids[s] as int][x] as int]
            == t[s])
    &&& (across ==> forall|x: int, y: int| 0 <= x < n && 0 <= y < n && #[trigger] t[x] == #[trigger] t[y] ==> owner[x] == owner[y])
}

/// Merging slot `j` into slot `i` keeps the tag structure: a merge within
/// a tag keeps lists single-tagged, and once no pair within a tag is left
/// every tag sits in one list, so concatenations keep tags in blocks.
proof fn lemma_merge_tags(
    t: Seq<usize>,
    n: int,
    active: Seq<bool>,
    ids: Seq<usize>,
    sizes: Seq<usize>,
    children: Seq<Seq<usize>>,
    owner: Seq<int>,
    across: bool,
    i: int,
    j: int,
    d: Seq<Seq<u64>>,
)
    requires
        owned(active, ids, sizes, children, owner, n),
        tag_phase(t, n, active, ids, children, owner, across),
        t.len() == n,
        0 <= i < n,
        0 <= j < n,
        i != j,
        active[i],
        active[j],
        children.len() <= usize::MAX,
        n <= usize::MAX,
        t[i] == t[j] || !(exists|a: int, b: int| is_candidate(d, active, t, true, a, b)),
        d.len() == n,
    ensures
        ({
            let across2 = across || t[i] != t[j];
            tag_phase(
                t,
                n,
                active.update(j, false),
                ids.update(i, children.len() as usize),
                children.push(children[ids[i] as int] + children[ids[j] as int]),
                owner.map_values(|o: int| if o == j { i } else { o }),
                across2,
            )
        }),
{
    let li = children[ids[i] as int];
    let lj = children[ids[j] as int];
    let nl = li + lj;
    let na = active.update(j, false);
    let ni = ids.update(i, children.len() as usize);
    let nc = children.push(nl);
    let no = owner.map_values(|o: int| if o == j { i } else { o });
    let across2 = across || t[i] != t[j];
    // Once merges cross tags, every tag lies in one list.
    if across2 && !across {
        assert forall|x: int, y: int| 0 <= x < n && 0 <= y < n && #[trigger] t[x] == #[trigger] t[y] implies owner[x] == owner[y] by {
            let sx = owner[x];
            let sy = owner[y];
            assert(children[ids[sx] as int].contains(x as usize));
            assert(children[ids[sy] as int].contains(y as usize));
            let px = choose|p: int| 0 <= p < children[ids[sx] as int].len() && children[ids[sx] as int][p] == x as usize;
            let py = choose|p: int| 0 <= p < children[ids[sy] as int].len() && children[ids[sy] as int][p] == y as usize;
            assert(t[children[ids[sx] as int][px] as int] == t[sx]);
            assert(t[children[ids[sy] as int][py] as int] == t[sy]);
            if sx != sy {
                if sx < sy {
                    assert(is_candidate(d, active, t, true, sx, sy));
                } else {
                    assert(is_candidate(d, active, t, true, sy, sx));
                }
            }
        }
    }
    // The merged list keeps tags in blocks.
    assert(tag_blocks(nl, t)) by {
        if !across2 {
            assert forall|x: int| 0 <= x < nl.len() implies #[trigger] t[nl[x] as int] == t[i] by {
                if x < li.len() {
                    assert(nl[x] == li[x]);
                } else {
                    assert(nl[x] == lj[x - li.len()]);
                }
            }
        } else {
            assert(tag_blocks(li, t));
            assert(tag_blocks(lj, t));
            assert forall|p: int, q: int, r: int|
                0 <= p < q < r < nl.len() && t[nl[p] as int] == t[nl[r] as int] implies #[trigger] t[nl[q] as int] == #[trigger] t[nl[p] as int]
                    && #[trigger] t[nl[r] as int] == t[nl[p] as int] by {
                if r < li.len() {
                    assert(nl[p] == li[p] && nl[q] == li[q] && nl[r] == li[r]);
                } else if p >= li.len() {
                    let o = li.len() as int;
                    assert(nl[p] == lj[p - o] && nl[q] == lj[q - o] && nl[r] == lj[r - o]);
                } else {
                    let o = li.len() as int;
                    let x = nl[p] as int;
                    let y = nl[r] as int;
                    assert(nl[p] == li[p]);
                    assert(nl[r] == lj[r - o]);
                    assert(owner[x] == i);
                    assert(owner[y] == j);
                    assert(x < n && y < n);
                    assert(t[x] == t[y]);
                }
            }
        }
    }
    assert forall|s: int| 0 <= s < n && #[trigger] na[s] implies tag_blocks(nc[ni[s] as int], t) by {
        if s != i {
            assert(active[s]);
            assert(nc[ni[s] as int] == children[ids[s] as int]);
        } else {
            assert(nc[ni[s] as int] == nl);
        }
    }
    if !across2 {
        assert forall|s: int, x: int|
            0 <= s < n && na[s] && 0 <= x < nc[ni[s] as int].len() implies #[trigger] t[nc[ni[s] as int][x] as int] == t[s] by {
            if s != i {
                assert(active[s]);
                assert(nc[ni[s] as int] == children[ids[s] as int]);
            } else {
                assert(nc[ni[s] as int] == nl);
                if x < li.len() {
                    assert(nl[x] == li[x]);
                } else {
                    assert(nl[x] == lj[x - li.len()]);
                }
            }
        }
    } else {
        assert forall|x: int, y: int| 0 <= x < n && 0 <= y < n && #[trigger] t[x] == #[trigger] t[y] implies no[x] == no[y] by {
            assert(owner[x] == owner[y]);
        }
    }
}

/// The merges join all leaves: a labeling that keeps the leftmost leaves
/// of the two children of every merge together is constant.
pub open spec fn connects_leaves(dg: Dendrogram) -> bool {
    let n = dg.leaf_order@.len() as int;
    forall|lab: Seq<usize>|
        lab.len() == n && #[trigger] joins_respected(dg.nodes@, n, dg.nodes@.len() as int, lab) ==> forall|x: int, y: int|
            0 <= x < n && 0 <= y < n ==> #[trigger] lab[x] == #[trigger] lab[y]
}

/// `lab` puts the leftmost leaves of the two children of each of the
/// merges `0..k` in one cluster.
pub open spec fn joins_respected(nodes: Seq<DendrogramNode>, n: int, k: int, lab: Seq<usize>) -> bool {
    forall|q: int|
        0 <= q < k ==> #[trigger] lab[leftmost_leaf(nodes, n, nodes[q].left as int)] == lab[leftmost_leaf(
            nodes,
            n,
            nodes[q].right as int,
        )]
}

/// Every live cluster's leaves are tied to its first leaf, which is the
/// leftmost leaf of its subtree.
pub open spec fn spans(
    nodes: Seq<DendrogramNode>,
    n: int,
    active: Seq<bool>,
    ids: Seq<usize>,
    children: Seq<Seq<usize>>,
) -> bool {
    &&& forall|s: int|
        0 <= s < n && #[trigger] active[s] ==> children[ids[s] as int].len() >= 1 && leftmost_leaf(nodes, n, ids[s] as int)
            == children[ids[s] as int][0]
    &&& forall|lab: Seq<usize>|
        lab.len() == n && #[trigger] joins_respected(nodes, n, nodes.len() as int, lab) ==> forall|s: int, x: int|
            0 <= s < n && active[s] && 0 <= x < children[ids[s] as int].len() ==> #[trigger] lab[children[ids[s] as int][x] as int]
                == lab[children[ids[s] as int][0] as int]
}

proof fn lemma_leftmost_push(nodes: Seq<DendrogramNode>, nd: DendrogramNode, n: int, id: int)
    requires
        0 <= id < n + nodes.len(),
    ensures
        leftmost_leaf(nodes.push(nd), n, id) == leftmost_leaf(nodes, n, id),
    decreases id,
{
    if id >= n {
        assert(nodes.push(nd)[id - n] == nodes[id - n]);
        let l = nodes[id - n].left as int;
        if 0 <= l < id {
            lemma_leftmost_push(nodes, nd, n, l);
        }
    }
}

/// Merging slot `j` into slot `i` with node `nd` keeps every cluster spanned.
proof fn lemma_merge_spans(
    nodes: Seq<DendrogramNode>,
    n: int,
    active: Seq<bool>,
    ids: Seq<usize>,
    children: Seq<Seq<usize>>,
    i: int,
    j: int,
    nd: DendrogramNode,
)
    requires
        spans(nodes, n, active, ids, children),
        0 <= i < n,
        0 <= j < n,
        i != j,
        active[i],
        active[j],
        active.len() == n,
        ids.len() == n,
        children.len() == n + nodes.len(),
        n + nodes.len() <= usize::MAX,
        forall|s: int| 0 <= s < n && #[trigger] active[s] ==> ids[s] < n + nodes.len(),
        forall|q: int| 0 <= q < nodes.len() ==> (#[trigger] nodes[q]).left < n + q && nodes[q].right < n + q,
        nd.left == ids[i],
        nd.right == ids[j],
    ensures
        spans(
            nodes.push(nd),
            n,
            active.update(j, false),
            ids.update(i, (n + nodes.len()) as usize),
            children.push(children[ids[i] as int] + children[ids[j] as int]),
        ),
{
    let nn = nodes.push(nd);
    let k = nodes.len() as int;
    let na = active.update(j, false);
    let ni = ids.update(i, (n + k) as usize);
    let li = children[ids[i] as int];
    let lj = children[ids[j] as int];
    let nc = children.push(li + lj);
    assert forall|s: int| 0 <= s < n && #[trigger] active[s] implies leftmost_leaf(nn, n, ids[s] as int) == leftmost_leaf(nodes, n, ids[s] as int) by {
        lemma_leftmost_push(nodes, nd, n, ids[s] as int);
    }
    assert(leftmost_leaf(nn, n, n + k) == li[0]) by {
        assert(nn[k] == nd);
        assert(active[i]);
    }
    assert forall|s: int| 0 <= s < n && #[trigger] na[s] implies nc[ni[s] as int].len() >= 1 && leftmost_leaf(nn, n, ni[s] as int)
        == nc[ni[s] as int][0] by {
        if s != i {
            assert(active[s]);
            assert(nc[ni[s] as int] == children[ids[s] as int]);
        } else {
            assert(nc[ni[s] as int] == li + lj);
        }
    }
    assert forall|lab: Seq<usize>| lab.len() == n && #[trigger] joins_respected(nn, n, nn.len() as int, lab) implies forall|s: int, x: int|
        0 <= s < n && na[s] && 0 <= x < nc[ni[s] as int].len() ==> #[trigger] lab[nc[ni[s] as int][x] as int] == lab[nc[ni[s] as int][0] as int] by {
        assert(joins_respected(nodes, n, k, lab)) by {
            assert forall|q: int| 0 <= q < k implies #[trigger] lab[leftmost_leaf(nodes, n, nodes[q].left as int)] == lab[leftmost_leaf(
                nodes,
                n,
                nodes[q].right as int,
            )] by {
                assert(nn[q] == nodes[q]);
                lemma_leftmost_push(nodes, nd, n, nodes[q].left as int);
                lemma_leftmost_push(nodes, nd, n, nodes[q].right as int);
                assert(lab[leftmost_leaf(nn, n, nn[q].left as int)] == lab[leftmost_leaf(nn, n, nn[q].right as int)]);
            }
        }
        assert(lab[leftmost_leaf(nn, n, nn[k].left as int)] == lab[leftmost_leaf(nn, n, nn[k].right as int)]);
        lemma_leftmost_push(nodes, nd, n, ids[i] as int);
        lemma_leftmost_push(nodes, nd, n, ids[j] as int);
        assert(leftmost_leaf(nodes, n, ids[i] as int) == li[0]);
        assert(leftmost_leaf(nodes, n, ids[j] as int) == lj[0]);
        assert forall|s: int, x: int| 0 <= s < n && na[s] && 0 <= x < nc[ni[s] as int].len() implies #[trigger] lab[nc[ni[s] as int][x] as int]
            == lab[nc[ni[s] as int][0] as int] by {
            if s != i {
                assert(active[s]);
                assert(nc[ni[s] as int] == children[ids[s] as int]);
                assert(lab[children[ids[s] as int][x] as int] == lab[children[ids[s] as int][0] as int]);
            } else {
                let l = li + lj;
                assert(nc[ni[s] as int] == l);
                assert(l[0] == li[0]);
                if x < li.len() {
                    assert(l[x] == li[x]);
                    assert(lab[li[x] as int] == lab[li[0] as int]);
                } else {
                    assert(l[x] == lj[x - li.len()]);
                    assert(lab[lj[x - li.len()] as int] == lab[lj[0] as int]);
                }
            }
        }
    }
}

/// With two live slots there is a pair that may merge.
proof fn lemma_live_pair(active: Seq<bool>, tags: Seq<usize>, d: Seq<Seq<u64>>)
    requires
        live_slots(active).finite(),
        live_slots(active).len() >= 2,
        active.len() == d.len(),
    ensures
        exists|a: int, b: int| is_candidate(d, active, tags, false, a, b),
{
    let live = live_slots(active);
    let s1 = live.choose();
    assert(live.contains(s1));
    assert(live.remove(s1).len() >= 1);
    let s2 = live.remove(s1).choose();
    assert(live.remove(s1).contains(s2));
    if s1 < s2 {
        assert(is_candidate(d, active, tags, false, s1, s2));
    } else {
        assert(is_candidate(d, active, tags, false, s2, s1));
    }
}

/// Builds the UPGMA dendrogram. With `cluster_assignments`, each step merges
/// the closest pair of clusters of equal assignment while one is left, and
/// the closest pair overall after that.
pub fn build_dendrogram(dist_matrix: &Vec<Vec<u64>>, cluster_assignments: Option<&Vec<usize>>) -> (dg: Dendrogram)
    requires
        is_square(matrix(dist_matrix@)),
        dist_matrix@.len() <= usize::MAX / 2,
        match cluster_assignments {
            Some(t) => t@.len() == dist_matrix@.len(),
            None => true,
        },
    ensures
        dist_matrix@.len() <= 1 ==> dg.nodes@.len() == 0 && dg.max_height == 0,
        dist_matrix@.len() >= 1 ==> dg.nodes@.len() == dist_matrix@.len() - 1,
        forall|k: int|
            0 <= k < dg.nodes@.len() ==> #[trigger] dg.nodes@[k] == upgma_node(
                matrix(dist_matrix@),
                tags_view(cluster_assignments),
                k as nat,
            ),
        is_permutation(dg.leaf_order@, dist_matrix@.len() as int),
        dg.max_height == max_node_height(dg.nodes@),
        tree_wf(dg),
        connects_leaves(dg),
        dist_matrix@.len() >= 2 ==> dg.leaf_order@ == subtree_leaves(
            dg.nodes@,
            dist_matrix@.len() as int,
            2 * dist_matrix@.len() - 2,
        ),
        match cluster_assignments {
            Some(t) => tag_blocks(dg.leaf_order@, t@),
            None => true,
        },
{
    let n = dist_matrix.len();
    if n == 0 {
        return Dendrogram { nodes: Vec::new(), leaf_order: Vec::new(), max_height: 0 };
    }
    if n == 1 {
        let leaf_order = vec![0usize];
        assert(leaf_order@.contains(0usize)) by {
            assert(leaf_order@[0] == 0usize);
        }
        let dg = Dendrogram { nodes: Vec::new(), leaf_order, max_height: 0 };
        proof {
            assert forall|lab: Seq<usize>| lab.len() == 1 && #[trigger] joins_respected(dg.nodes@, 1, 0, lab) implies forall|x: int, y: int|
                0 <= x < 1 && 0 <= y < 1 ==> #[trigger] lab[x] == #[trigger] lab[y] by {}
        }
        return dg;
    }
    let ghost m = matrix(dist_matrix@);
    let ghost tg = tags_view(cluster_assignments);
    let empty: Vec<usize> = Vec::new();
    let tag_vec: &Vec<usize> = match cluster_assignments {
        Some(t) => t,
        None => &empty,
    };
    let constrained = cluster_assignments.is_some();

    let mut dists: Vec<Vec<u64>> = Vec::new();
    let mut r: usize = 0;
    while r < n
        invariant
            r <= n,
            n == dist_matrix@.len(),
            dists@.len() == r,
            forall|a: int| 0 <= a < r ==> #[trigger] dists@[a]@ == dist_matrix@[a]@,
        decreases n - r,
    {
        let row = dist_matrix[r].clone();
        assert(row@ =~= dist_matrix@[r as int]@);
        dists.push(row);
        r = r + 1;
    }
    let mut active: Vec<bool> = Vec::new();
    let mut cluster_id: Vec<usize> = Vec::new();
    let mut cluster_sizes: Vec<usize> = Vec::new();
    let mut children: Vec<Vec<usize>> = Vec::new();
    let mut i: usize = 0;
    while i < n
        invariant
            i <= n,
            active@.len() == i,
            cluster_id@.len() == i,
            cluster_sizes@.len() == i,
            children@.len() == i,
            forall|s: int|
                0 <= s < i ==> #[trigger] active@[s] && cluster_id@[s] == s && cluster_sizes@[s] == 1
                    && children@[s]@ == seq![s as usize],
        decreases n - i,
    {
        active.push(true);
        cluster_id.push(i);
        cluster_sizes.push(1);
        children.push(vec![i]);
        i = i + 1;
    }
    let ghost mut owner: Seq<int> = Seq::new(n as nat, |l: int| l);
    let ghost mut last: int = 0;
    let ghost mut across: bool = false;
    proof {
        assert(matrix(dists@) =~= m);
        assert(active@ =~= upgma_start(m).active);
        assert forall|a: int| 0 <= a < n implies #[trigger] cluster_id@[a] == upgma_start(m).ids[a] by {
            assert(active@[a]);
        }
        assert(cluster_id@ =~= upgma_start(m).ids);
        assert forall|a: int| 0 <= a < n implies #[trigger] cluster_sizes@[a] == upgma_start(m).sizes[a] by {
            assert(active@[a]);
        }
        assert(cluster_sizes@ =~= upgma_start(m).sizes);
        lemma_int_range(0, n as int);
        assert(live_slots(active@) =~= set_int_range(0, n as int));
        assert forall|s: int| 0 <= s < n implies #[trigger] children@[s]@.no_duplicates() by {
            assert(active@[s]);
            assert(children@[s]@ == seq![s as usize]);
        }
        assert(owned(active@, cluster_id@, cluster_sizes@, lists(children@), owner, n as int)) by {
            assert forall|l: int| 0 <= l < n implies lists(children@)[cluster_id@[owner[l]] as int].contains(l as usize) by {
                assert(active@[l]);
                assert(lists(children@)[l][0] == l as usize);
            }
            assert forall|a: int| 0 <= a < n && #[trigger] active@[a] implies lists(children@)[cluster_id@[a] as int] == seq![a as usize] by {}
        }
        if constrained {
            assert(tag_phase(tag_vec@, n as int, active@, cluster_id@, lists(children@), owner, across)) by {
                assert forall|a: int| 0 <= a < n && #[trigger] active@[a] implies tag_blocks(lists(children@)[cluster_id@[a] as int], tag_vec@) by {
                    assert(lists(children@)[cluster_id@[a] as int] == seq![a as usize]);
                }
                assert forall|a: int, x: int|
                    0 <= a < n && active@[a] && 0 <= x < lists(children@)[cluster_id@[a] as int].len() implies #[trigger] tag_vec@[lists(
                        children@,
                    )[cluster_id@[a] as int][x] as int] == tag_vec@[a] by {
                    assert(lists(children@)[cluster_id@[a] as int] == seq![a as usize]);
                }
            }
        }
        let e = Seq::<DendrogramNode>::empty();
        assert(lists_are_subtrees(e, n as int, active@, cluster_id@, lists(children@))) by {
            assert forall|a: int| 0 <= a < n && #[trigger] active@[a] implies lists(children@)[cluster_id@[a] as int] == subtree_leaves(
                e,
                n as int,
                cluster_id@[a] as int,
            ) by {
                assert(lists(children@)[cluster_id@[a] as int] == seq![a as usize]);
            }
        }
        assert(spans(e, n as int, active@, cluster_id@, lists(children@))) by {
            assert forall|a: int| 0 <= a < n && #[trigger] active@[a] implies lists(children@)[cluster_id@[a] as int].len() >= 1
                && leftmost_leaf(e, n as int, cluster_id@[a] as int) == lists(children@)[cluster_id@[a] as int][0] by {
                assert(lists(children@)[cluster_id@[a] as int] == seq![a as usize]);
            }
            assert forall|lab: Seq<usize>| lab.len() == n && #[trigger] joins_respected(e, n as int, e.len() as int, lab) implies forall|s: int, x: int|
                0 <= s < n && active@[s] && 0 <= x < lists(children@)[cluster_id@[s] as int].len() ==> #[trigger] lab[lists(children@)[cluster_id@[s] as int][x] as int]
                    == lab[lists(children@)[cluster_id@[s] as int][0] as int] by {
                assert forall|s: int, x: int|
                    0 <= s < n && active@[s] && 0 <= x < lists(children@)[cluster_id@[s] as int].len() implies #[trigger] lab[lists(children@)[cluster_id@[s] as int][x] as int]
                        == lab[lists(children@)[cluster_id@[s] as int][0] as int] by {
                    assert(lists(children@)[cluster_id@[s] as int] == seq![s as usize]);
                }
            }
        }
    }

    let mut nodes: Vec<DendrogramNode> = Vec::new();
    let mut max_height: u64 = 0;
    let mut merge_idx: usize = 0;
    while merge_idx < n - 1
        invariant
            n == m.len(),
            n >= 2,
            n <= usize::MAX / 2,
            m == matrix(dist_matrix@),
            tg == tags_view(cluster_assignments),
            constrained == tg.is_some(),
            constrained ==> tag_vec@ == tg.unwrap() && tag_vec@.len() == n,
            !constrained ==> tag_vec@ == Seq::<usize>::empty(),
            merge_idx <= n - 1,
            is_square(matrix(dists@)),
            matrix(dists@) == upgma_state(m, tg, merge_idx as nat).d,
            active@ == upgma_state(m, tg, merge_idx as nat).active,
            cluster_id@ == upgma_state(m, tg, merge_idx as nat).ids,
            cluster_sizes@ == upgma_state(m, tg, merge_idx as nat).sizes,
            active@.len() == n,
            cluster_id@.len() == n,
            cluster_sizes@.len() == n,
            live_slots(active@).finite(),
            live_slots(active@).len() == n - merge_idx,
            nodes@.len() == merge_idx,
            forall|k: int| 0 <= k < merge_idx ==> #[trigger] nodes@[k] == upgma_node(m, tg, k as nat),
            max_height == max_node_height(nodes@),
            dists@.len() == n,
            children@.len() == n + merge_idx,
            owned(active@, cluster_id@, cluster_sizes@, lists(children@), owner, n as int),
            forall|s: int| 0 <= s < n && #[trigger] active@[s] ==> cluster_id@[s] < n + merge_idx,
            forall|k: int| 0 <= k < merge_idx ==> (#[trigger] nodes@[k]).left < n + k && nodes@[k].right < n + k,
            spans(nodes@, n as int, active@, cluster_id@, lists(children@)),
            lists_are_subtrees(nodes@, n as int, active@, cluster_id@, lists(children@)),
            constrained ==> tag_phase(tag_vec@, n as int, active@, cluster_id@, lists(children@), owner, across),
            merge_idx >= 1 ==> 0 <= last < n && active@[last] && cluster_id@[last] == n + merge_idx - 1,
        decreases n - 1 - merge_idx,
    {
        let ghost st = upgma_state(m, tg, merge_idx as nat);
        let mut found = false;
        let mut min_i: usize = 0;
        let mut min_j: usize = 0;
        if constrained {
            let (f, a, b) = find_closest(&dists, &active, tag_vec, true);
            found = f;
            min_i = a;
            min_j = b;
        }
        proof {
            assert(found == merges_within_tag(st, tg));
        }
        if !found {
            proof {
                lemma_live_pair(active@, tag_vec@, matrix(dists@));
            }
            let (f, a, b) = find_closest(&dists, &active, tag_vec, false);
            proof {
                assert(f);
            }
            min_i = a;
            min_j = b;
        }
        proof {
            let same = merges_within_tag(st, tg);
            let q = (min_i as int, min_j as int);
            assert(is_closest(st.d, st.active, tags_or_empty(tg), same, q.0, q.1));
            let p = closest_pair(st, tg);
            lemma_closest_unique(st.d, st.active, tags_or_empty(tg), same, p, q);
            lemma_merge_owned(active@, cluster_id@, cluster_sizes@, lists(children@), owner, n as int, min_i as int, min_j as int);
            if constrained {
                if same {
                    assert(is_candidate(st.d, st.active, tag_vec@, true, min_i as int, min_j as int));
                }
                lemma_merge_tags(
                    tag_vec@,
                    n as int,
                    active@,
                    cluster_id@,
                    cluster_sizes@,
                    lists(children@),
                    owner,
                    across,
                    min_i as int,
                    min_j as int,
                    st.d,
                );
            }
        }
        let ghost spans_nodes = nodes@;
        let ghost spans_active = active@;
        let ghost spans_ids = cluster_id@;
        let ghost spans_lists = lists(children@);
        let left_id = cluster_id[min_i];
        let right_id = cluster_id[min_j];
        let left_size = cluster_sizes[min_i];
        let right_size = cluster_sizes[min_j];

        let ghost left_list = children@[left_id as int]@;
        let ghost right_list = children@[right_id as int]@;
        let mut new_children = children[left_id].clone();
        assert(new_children@ =~= left_list);
        let mut right_children = children[right_id].clone();
        assert(right_children@ =~= right_list);
        new_children.append(&mut right_children);
        proof {
            assert(new_children@ =~= left_list + right_list);
            lemma_unique_below(new_children@, n as int);
        }
        let new_size = left_size + right_size;
        let height = dists[min_i][min_j];
        let node = DendrogramNode { left: left_id, right: right_id, height, size: new_size };
        let ghost old_nodes = nodes@;
        nodes.push(node);
        proof {
            assert(nodes@.drop_last() =~= old_nodes);
        }
        if height > max_height {
            max_height = height;
        }
        let ghost old_children = lists(children@);
        children.push(new_children);
        proof {
            assert(lists(children@) =~= old_children.push(left_list + right_list));
        }

        merge_distances(&mut dists, &active, min_i, min_j, left_size, right_size);
        let ghost old_active = active@;
        active.set(min_j, false);
        cluster_id.set(min_i, n + merge_idx);
        cluster_sizes.set(min_i, new_size);
        proof {
            lemma_merge_spans(spans_nodes, n as int, spans_active, spans_ids, spans_lists, min_i as int, min_j as int, node);
            lemma_merge_subtrees(spans_nodes, n as int, spans_active, spans_ids, spans_lists, min_i as int, min_j as int, node);
            assert(nodes@ == spans_nodes.push(node));
            assert(active@ == spans_active.update(min_j as int, false));
            assert(cluster_id@ == spans_ids.update(min_i as int, (n + spans_nodes.len()) as usize));
            assert(live_slots(active@) =~= live_slots(old_active).remove(min_j as int));
            owner = owner.map_values(|o: int| if o == min_j as int { min_i as int } else { o });
            last = min_i as int;
            if constrained {
                across = across || tag_vec@[min_i as int] != tag_vec@[min_j as int];
            }
            let next = upgma_state(m, tg, (merge_idx + 1) as nat);
            assert(next == merge_slots(st, min_i as int, min_j as int, n + merge_idx));
        }
        merge_idx = merge_idx + 1;
    }
    let root_id = 2 * n - 2;
    let leaf_order = children[root_id].clone();
    proof {
        let live = live_slots(active@);
        assert(live.contains(last));
        assert(live.remove(last).len() == 0);
        assert forall|l: int| 0 <= l < n implies owner[l] == last by {
            if owner[l] != last {
                assert(live.remove(last).contains(owner[l]));
            }
        }
        assert(leaf_order@ =~= children@[root_id as int]@);
        assert(lists(children@)[root_id as int] == children@[root_id as int]@);
        assert(active@[last]);
        assert(cluster_id@[last] == root_id);
        assert forall|i: int| 0 <= i < leaf_order@.len() implies #[trigger] leaf_order@[i] < n by {
            assert(lists(children@)[cluster_id@[last] as int][i] < n);
        }
        assert forall|x: int| 0 <= x < n implies #[trigger] leaf_order@.contains(x as usize) by {
            assert(owner[x] == last);
        }
        lemma_unique_below(leaf_order@, n as int);
        let root_list = lists(children@)[root_id as int];
        assert(root_list == subtree_leaves(nodes@, n as int, root_id as int));
        if constrained {
            assert(tag_blocks(root_list, tag_vec@));
        }
        assert forall|lab: Seq<usize>| lab.len() == n && #[trigger] joins_respected(nodes@, n as int, nodes@.len() as int, lab) implies forall|x: int, y: int|
            0 <= x < n && 0 <= y < n ==> #[trigger] lab[x] == #[trigger] lab[y] by {
            assert forall|x: int| 0 <= x < n implies #[trigger] lab[x] == lab[root_list[0] as int] by {
                assert(leaf_order@.contains(x as usize));
                let p = choose|p: int| 0 <= p < leaf_order@.len() && leaf_order@[p] == x as usize;
                assert(root_list[p] == x as usize);
                assert(lab[root_list[p] as int] == lab[root_list[0] as int]);
            }
        }
    }
    let dg = Dendrogram { nodes, leaf_order, max_height };
    proof {
        assert(dg.leaf_order@.len() == n);
    }
    dg
}

} // verus!
