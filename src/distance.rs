//! Pairwise distances between paths: base-pair weighted Jaccard
//! similarity, turned into an estimated difference rate and normalized.

use vstd::prelude::*;
use crate::coverage::{sum_of, total_bp, Coverage};
use crate::dbscan::{is_square, matrix, DIST_SCALE};
use crate::dendrogram::entries_bounded;
use crate::fxmap::fx_get;

verus! {

/// Weighted Jaccard similarity as the exact fraction
/// `intersection / union`; a zero union means similarity 1.
#[derive(Clone, Copy, Debug)]
pub struct Jaccard {
    pub intersection: u64,
    pub union: u128,
}

impl Jaccard {
    /// The intersection is part of the union, and the union of two `u64`
    /// totals fits in twice their range.
    pub open spec fn wf(&self) -> bool {
        &&& self.intersection <= self.union
        &&& self.union <= 2 * (u64::MAX as int)
    }

    /// Similarity 1: identical coverage, or both paths empty.
    pub open spec fn is_identical(&self) -> bool {
        self.intersection == self.union
    }
}

pub open spec fn min_bp(a: u64, b: u64) -> int {
    if a < b {
        a as int
    } else {
        b as int
    }
}

/// Base pairs two coverages share: `min` of the two on each node of `a`
/// that `b` also covers.
pub open spec fn shared_bp(a_nodes: Seq<u64>, a: Map<u64, u64>, b: Map<u64, u64>) -> int {
    sum_of(a_nodes, |x: u64| if b.contains_key(x) { min_bp(a[x], b[x]) } else { 0 }, a_nodes.len() as int)
}

proof fn lemma_sum_le(nodes: Seq<u64>, f: spec_fn(u64) -> int, g: spec_fn(u64) -> int, k: int)
    requires
        0 <= k <= nodes.len(),
        forall|x: u64| 0 <= #[trigger] f(x) <= g(x),
    ensures
        0 <= sum_of(nodes, f, k) <= sum_of(nodes, g, k),
    decreases k,
{
    if k > 0 {
        lemma_sum_le(nodes, f, g, k - 1);
    }
}

proof fn lemma_sum_full_prefix(s: Seq<u64>, h: spec_fn(u64) -> int)
    requires
        s.len() > 0,
    ensures
        sum_of(s, h, s.len() as int) == sum_of(s.drop_last(), h, s.len() - 1) + h(s.last()),
{
    crate::coverage::lemma_sum_prefix(s, s.drop_last(), h, s.len() - 1);
}

/// Removing entry `i` takes its term out of the sum.
proof fn lemma_sum_remove(s: Seq<u64>, h: spec_fn(u64) -> int, i: int)
    requires
        0 <= i < s.len(),
    ensures
        sum_of(s, h, s.len() as int) == sum_of(s.remove(i), h, s.len() - 1) + h(s[i]),
    decreases s.len(),
{
    let r = s.remove(i);
    lemma_sum_full_prefix(s, h);
    if i == s.len() - 1 {
        assert(r =~= s.drop_last());
    } else {
        lemma_sum_remove(s.drop_last(), h, i);
        assert(r.drop_last() =~= s.drop_last().remove(i));
        assert(r.last() == s.last());
        lemma_sum_full_prefix(r, h);
    }
}

/// Terms over the nodes of `la` that `b` covers, each at most `b`'s own
/// value, sum to at most `b`'s total over its enumeration `lb`.
proof fn lemma_shared_le_total(la: Seq<u64>, lb: Seq<u64>, f: spec_fn(u64) -> int, b: Map<u64, u64>)
    requires
        la.no_duplicates(),
        lb.no_duplicates(),
        forall|x: u64| la.contains(x) && #[trigger] b.contains_key(x) ==> lb.contains(x),
        forall|x: u64| 0 <= #[trigger] f(x) && (b.contains_key(x) ==> f(x) <= b[x]) && (!b.contains_key(x) ==> f(x) == 0),
    ensures
        sum_of(la, f, la.len() as int) <= sum_of(lb, |x: u64| b[x] as int, lb.len() as int),
        0 <= sum_of(lb, |x: u64| b[x] as int, lb.len() as int),
    decreases la.len(),
{
    let g = |x: u64| b[x] as int;
    crate::coverage::lemma_sum_monotone(lb, g, 0, lb.len() as int);
    if la.len() > 0 {
        let x = la.last();
        let rest = la.drop_last();
        lemma_sum_full_prefix(la, f);
        assert forall|y: u64| rest.contains(y) implies la.contains(y) && y != x by {
            let k = choose|k: int| 0 <= k < rest.len() && rest[k] == y;
            assert(la[k] == y);
            assert(la[la.len() - 1] == x);
        }
        if b.contains_key(x) {
            assert(la.contains(x)) by {
                assert(la[la.len() - 1] == x);
            }
            let i = choose|i: int| 0 <= i < lb.len() && lb[i] == x;
            let lb2 = lb.remove(i);
            assert forall|y: u64| rest.contains(y) && #[trigger] b.contains_key(y) implies lb2.contains(y) by {
                assert(lb.contains(y));
                let k = choose|k: int| 0 <= k < lb.len() && lb[k] == y;
                assert(k != i);
                if k < i {
                    assert(lb2[k] == y);
                } else {
                    assert(lb2[k - 1] == y);
                }
            }
            assert(lb2.no_duplicates()) by {
                assert forall|p: int, q: int| 0 <= p < lb2.len() && 0 <= q < lb2.len() && p != q implies lb2[p] != lb2[q] by {
                    let pp = if p < i { p } else { p + 1 };
                    let qq = if q < i { q } else { q + 1 };
                    assert(lb2[p] == lb[pp] && lb2[q] == lb[qq]);
                }
            }
            lemma_shared_le_total(rest, lb2, f, b);
            lemma_sum_remove(lb, g, i);
        } else {
            lemma_shared_le_total(rest, lb, f, b);
        }
    }
}

/// Weighted Jaccard similarity of two coverages with totals `bp_a` and
/// `bp_b` (at least the coverages' sums): shared base pairs over
/// `bp_a + bp_b - shared`.
pub fn weighted_jaccard_similarity(counts_a: &Coverage, counts_b: &Coverage, bp_a: u64, bp_b: u64) -> (j: Jaccard)
    requires
        counts_a.wf(),
        counts_b.wf(),
        bp_a >= total_bp(counts_a.nodes@, counts_a.bp@),
        bp_b >= total_bp(counts_b.nodes@, counts_b.bp@),
    ensures
        j.wf(),
        j.intersection == shared_bp(counts_a.nodes@, counts_a.bp@, counts_b.bp@),
        j.union == bp_a + bp_b - j.intersection,
{
    broadcast use vstd::std_specs::hash::group_hash_axioms;

    let ghost a = counts_a.bp@;
    let ghost b = counts_b.bp@;
    let ghost f = |x: u64| if b.contains_key(x) { min_bp(a[x], b[x]) } else { 0 };
    let ghost g = |x: u64| a[x] as int;
    proof {
        lemma_sum_le(counts_a.nodes@, f, g, counts_a.nodes@.len() as int);
        assert forall|x: u64| counts_a.nodes@.contains(x) && #[trigger] b.contains_key(x) implies counts_b.nodes@.contains(x) by {}
        lemma_shared_le_total(counts_a.nodes@, counts_b.nodes@, f, b);
    }
    if bp_a == 0 && bp_b == 0 {
        return Jaccard { intersection: 0, union: 0 };
    }
    let mut intersection: u64 = 0;
    let mut k: usize = 0;
    while k < counts_a.nodes.len()
        invariant
            a == counts_a.bp@,
            b == counts_b.bp@,
            counts_a.wf(),
            f == (|x: u64| if b.contains_key(x) { min_bp(a[x], b[x]) } else { 0 }),
            g == (|x: u64| a[x] as int),
            bp_a >= sum_of(counts_a.nodes@, g, counts_a.nodes@.len() as int),
            k <= counts_a.nodes@.len(),
            intersection == sum_of(counts_a.nodes@, f, k as int),
        decreases counts_a.nodes@.len() - k,
    {
        let node = counts_a.nodes[k];
        proof {
            assert(counts_a.nodes@.contains(node)) by {
                assert(counts_a.nodes@[k as int] == node);
            }
            lemma_sum_le(counts_a.nodes@, f, g, k as int + 1);
            crate::coverage::lemma_sum_monotone(counts_a.nodes@, g, k as int + 1, counts_a.nodes@.len() as int);
        }
        if let Some(bp_a_on_node) = fx_get(&counts_a.bp, &node) {
            if let Some(bp_b_on_node) = fx_get(&counts_b.bp, &node) {
                let m = if bp_a_on_node < bp_b_on_node {
                    bp_a_on_node
                } else {
                    bp_b_on_node
                };
                intersection = intersection + m;
            }
        }
        k = k + 1;
    }
    let union: u128 = bp_a as u128 + bp_b as u128 - intersection as u128;
    Jaccard { intersection, union }
}

/// A coverage compared with itself: it shares all its base pairs, so the
/// similarity is 1 and the difference rate 0.
pub proof fn lemma_identical_coverage(c: Coverage)
    requires
        c.wf(),
        total_bp(c.nodes@, c.bp@) <= u64::MAX,
    ensures
        shared_bp(c.nodes@, c.bp@, c.bp@) == total_bp(c.nodes@, c.bp@),
        edr_units(
            Jaccard {
                intersection: total_bp(c.nodes@, c.bp@) as u64,
                union: total_bp(c.nodes@, c.bp@) as u128,
            },
        ) == 0,
{
    let a = c.bp@;
    let f = |x: u64| if a.contains_key(x) { min_bp(a[x], a[x]) } else { 0 };
    let g = |x: u64| a[x] as int;
    assert forall|i: int| 0 <= i < c.nodes@.len() implies f(#[trigger] c.nodes@[i]) == g(c.nodes@[i]) by {
        assert(c.nodes@.contains(c.nodes@[i]));
    }
    crate::coverage::lemma_sum_ext(c.nodes@, f, g, c.nodes@.len() as int);
    crate::coverage::lemma_sum_monotone(c.nodes@, g, 0, c.nodes@.len() as int);
}

/// Sums over two repeat-free lists agree for a function that is zero
/// outside the entries they share.
proof fn lemma_sum_common(la: Seq<u64>, lb: Seq<u64>, h: spec_fn(u64) -> int)
    requires
        la.no_duplicates(),
        lb.no_duplicates(),
        forall|x: u64| #[trigger] h(x) != 0 ==> la.contains(x) && lb.contains(x),
    ensures
        sum_of(la, h, la.len() as int) == sum_of(lb, h, lb.len() as int),
    decreases la.len(),
{
    if la.len() == 0 {
        if lb.len() > 0 {
            lemma_sum_zero(lb, h, lb.len() as int);
        }
    } else {
        let x = la.last();
        let rest = la.drop_last();
        lemma_sum_full_prefix(la, h);
        assert(!rest.contains(x)) by {
            if rest.contains(x) {
                let k = choose|k: int| 0 <= k < rest.len() && rest[k] == x;
                assert(la[k] == la[la.len() - 1]);
            }
        }
        assert forall|y: u64| rest.contains(y) || y == x <== la.contains(y) by {
            if la.contains(y) && y != x {
                let k = choose|k: int| 0 <= k < la.len() && la[k] == y;
                assert(k != la.len() - 1);
                assert(rest[k] == y);
            }
        }
        if lb.contains(x) {
            let i = choose|i: int| 0 <= i < lb.len() && lb[i] == x;
            let lb2 = lb.remove(i);
            let h2 = |y: u64| if y == x { 0 } else { h(y) };
            assert(lb2.no_duplicates()) by {
                assert forall|p: int, q: int| 0 <= p < lb2.len() && 0 <= q < lb2.len() && p != q implies lb2[p] != lb2[q] by {
                    let pp = if p < i { p } else { p + 1 };
                    let qq = if q < i { q } else { q + 1 };
                    assert(lb2[p] == lb[pp] && lb2[q] == lb[qq]);
                }
            }
            assert(!lb2.contains(x)) by {
                if lb2.contains(x) {
                    let k = choose|k: int| 0 <= k < lb2.len() && lb2[k] == x;
                    let kk = if k < i { k } else { k + 1 };
                    assert(lb[kk] == x);
                }
            }
            assert forall|y: u64| #[trigger] h2(y) != 0 implies rest.contains(y) && lb2.contains(y) by {
                assert(la.contains(y) && lb.contains(y));
                let k = choose|k: int| 0 <= k < lb.len() && lb[k] == y;
                assert(k != i);
                if k < i {
                    assert(lb2[k] == y);
                } else {
                    assert(lb2[k - 1] == y);
                }
            }
            lemma_sum_common(rest, lb2, h2);
            assert forall|k: int| 0 <= k < rest.len() implies h2(#[trigger] rest[k]) == h(rest[k]) by {
                assert(rest.contains(rest[k]));
            }
            crate::coverage::lemma_sum_ext(rest, h2, h, rest.len() as int);
            assert forall|k: int| 0 <= k < lb2.len() implies h2(#[trigger] lb2[k]) == h(lb2[k]) by {
                assert(lb2.contains(lb2[k]));
            }
            crate::coverage::lemma_sum_ext(lb2, h2, h, lb2.len() as int);
            lemma_sum_remove(lb, h, i);
        } else {
            assert(h(x) == 0);
            assert forall|y: u64| #[trigger] h(y) != 0 implies rest.contains(y) && lb.contains(y) by {
                assert(la.contains(y));
            }
            lemma_sum_common(rest, lb, h);
        }
    }
}

proof fn lemma_sum_zero(l: Seq<u64>, h: spec_fn(u64) -> int, k: int)
    requires
        0 <= k <= l.len(),
        forall|x: u64| #[trigger] h(x) != 0 ==> !l.contains(x),
    ensures
        sum_of(l, h, k) == 0,
    decreases k,
{
    if k > 0 {
        lemma_sum_zero(l, h, k - 1);
        assert(l.contains(l[k - 1]));
    }
}

/// Shared base pairs do not depend on which coverage comes first, so the
/// similarity of two paths is symmetric.
pub proof fn lemma_shared_symmetric(a: Coverage, b: Coverage)
    requires
        a.wf(),
        b.wf(),
    ensures
        shared_bp(a.nodes@, a.bp@, b.bp@) == shared_bp(b.nodes@, b.bp@, a.bp@),
{
    let ma = a.bp@;
    let mb = b.bp@;
    let h = |x: u64| if ma.contains_key(x) && mb.contains_key(x) { min_bp(ma[x], mb[x]) } else { 0 };
    let fab = |x: u64| if mb.contains_key(x) { min_bp(ma[x], mb[x]) } else { 0 };
    let fba = |x: u64| if ma.contains_key(x) { min_bp(mb[x], ma[x]) } else { 0 };
    assert forall|k: int| 0 <= k < a.nodes@.len() implies fab(#[trigger] a.nodes@[k]) == h(a.nodes@[k]) by {
        assert(a.nodes@.contains(a.nodes@[k]));
    }
    crate::coverage::lemma_sum_ext(a.nodes@, fab, h, a.nodes@.len() as int);
    assert forall|k: int| 0 <= k < b.nodes@.len() implies fba(#[trigger] b.nodes@[k]) == h(b.nodes@[k]) by {
        assert(b.nodes@.contains(b.nodes@[k]));
    }
    crate::coverage::lemma_sum_ext(b.nodes@, fba, h, b.nodes@.len() as int);
    assert forall|x: u64| #[trigger] h(x) != 0 implies a.nodes@.contains(x) && b.nodes@.contains(x) by {}
    lemma_sum_common(a.nodes@, b.nodes@, h);
}

/// Estimated difference rate `(1 - J) / (1 + J)` in units of
/// `1 / DIST_SCALE`, rounded down; for `J = s / u` it is `(u - s) / (u + s)`.
pub open spec fn edr_units(j: Jaccard) -> int {
    if j.union == 0 {
        0
    } else {
        (DIST_SCALE * (j.union - j.intersection)) / (j.union + j.intersection)
    }
}

/// The estimated difference rate of a similarity, in units of
/// `1 / DIST_SCALE`.
pub fn jaccard_to_edr(jaccard: Jaccard) -> (r: u64)
    requires
        jaccard.wf(),
    ensures
        r == edr_units(jaccard),
        r <= DIST_SCALE,
{
    if jaccard.union == 0 {
        return 0;
    }
    let diff: u128 = jaccard.union - jaccard.intersection as u128;
    let sum: u128 = jaccard.union + jaccard.intersection as u128;
    proof {
        let d = diff as int;
        let t = sum as int;
        let sc = DIST_SCALE as int;
        assert(sc * d <= sc * t) by (nonlinear_arith)
            requires d <= t, sc >= 0;
        assert((sc * d) / t <= sc) by (nonlinear_arith)
            requires sc * d <= sc * t, t > 0, d >= 0, sc >= 0;
        assert(sc * d <= sc * (2 * (u64::MAX as int))) by (nonlinear_arith)
            requires d <= 2 * (u64::MAX as int), sc >= 0;
    }
    ((DIST_SCALE as u128 * diff) / sum) as u64
}

/// A coverage as its node enumeration and its map.
pub open spec fn cov_views(covs: Seq<Coverage>) -> Seq<(Seq<u64>, Map<u64, u64>)> {
    covs.map_values(|c: Coverage| (c.nodes@, c.bp@))
}

/// The similarity of paths `i < j`, from their clustering coverages and
/// totals.
pub open spec fn pair_jaccard(covs: Seq<(Seq<u64>, Map<u64, u64>)>, totals: Seq<u64>, i: int, j: int) -> Jaccard {
    let s = shared_bp(covs[i].0, covs[i].1, covs[j].1);
    Jaccard { intersection: s as u64, union: (totals[i] + totals[j] - s) as u128 }
}

/// The EDR matrix: entry `(i, j)` of the pair `min(i, j), max(i, j)`, 0 on
/// the diagonal.
pub open spec fn edr_entry(covs: Seq<(Seq<u64>, Map<u64, u64>)>, totals: Seq<u64>, a: int, b: int) -> int {
    if a < b {
        edr_units(pair_jaccard(covs, totals, a, b))
    } else if b < a {
        edr_units(pair_jaccard(covs, totals, b, a))
    } else {
        0
    }
}

/// Clustering coverages whose totals are `totals`.
pub open spec fn coverages_with_totals(covs: Seq<Coverage>, totals: Seq<u64>) -> bool {
    &&& covs.len() == totals.len()
    &&& forall|p: int|
        0 <= p < covs.len() ==> #[trigger] covs[p].wf() && totals[p] == total_bp(covs[p].nodes@, covs[p].bp@)
}

/// All pairwise estimated difference rates.
pub fn edr_matrix(covs: &Vec<Coverage>, totals: &Vec<u64>) -> (m: Vec<Vec<u64>>)
    requires
        coverages_with_totals(covs@, totals@),
    ensures
        m@.len() == covs@.len(),
        is_square(matrix(m@)),
        entries_bounded(matrix(m@)),
        forall|a: int, b: int|
            0 <= a < m@.len() && 0 <= b < m@.len() ==> #[trigger] matrix(m@)[a][b] == edr_entry(cov_views(covs@), totals@, a, b),
{
    let n = covs.len();
    let mut m: Vec<Vec<u64>> = Vec::new();
    let mut i: usize = 0;
    while i < n
        invariant
            n == covs@.len(),
            coverages_with_totals(covs@, totals@),
            i <= n,
            m@.len() == i,
            forall|a: int| 0 <= a < i ==> #[trigger] m@[a]@.len() == n,
            forall|a: int, b: int| 0 <= a < i && 0 <= b < n ==> #[trigger] m@[a]@[b] == edr_entry(cov_views(covs@), totals@, a, b),
            forall|a: int, b: int| 0 <= a < i && 0 <= b < n ==> #[trigger] m@[a]@[b] <= DIST_SCALE,
        decreases n - i,
    {
        let mut row: Vec<u64> = Vec::new();
        let mut j: usize = 0;
        while j < n
            invariant
                n == covs@.len(),
                coverages_with_totals(covs@, totals@),
                i < n,
                j <= n,
                row@.len() == j,
                forall|b: int| 0 <= b < j ==> #[trigger] row@[b] == edr_entry(cov_views(covs@), totals@, i as int, b),
                forall|b: int| 0 <= b < j ==> #[trigger] row@[b] <= DIST_SCALE,
            decreases n - j,
        {
            let (a, b) = if i < j {
                (i, j)
            } else {
                (j, i)
            };
            let v = if i == j {
                0
            } else {
                assert(covs@[a as int].wf() && covs@[b as int].wf());
                let jac = weighted_jaccard_similarity(&covs[a], &covs[b], totals[a], totals[b]);
                jaccard_to_edr(jac)
            };
            row.push(v);
            j = j + 1;
        }
        m.push(row);
        i = i + 1;
    }
    proof {
        assert forall|a: int| 0 <= a < n implies #[trigger] matrix(m@)[a].len() == matrix(m@).len() by {}
        assert forall|a: int, b: int| 0 <= a < matrix(m@).len() && 0 <= b < matrix(m@)[a].len() implies #[trigger] matrix(m@)[a][b] <= DIST_SCALE by {}
    }
    m
}

/// Largest entry of rows `0..k`, or 0.
pub open spec fn matrix_max(m: Seq<Seq<u64>>, k: int) -> u64
    decreases k,
{
    if k <= 0 {
        0
    } else {
        let prev = matrix_max(m, k - 1);
        let r = row_max(m[k - 1], m[k - 1].len() as int);
        if r > prev {
            r
        } else {
            prev
        }
    }
}

/// Largest of `row[0..k]`, or 0.
pub open spec fn row_max(row: Seq<u64>, k: int) -> u64
    decreases k,
{
    if k <= 0 {
        0
    } else {
        let prev = row_max(row, k - 1);
        if row[k - 1] > prev {
            row[k - 1]
        } else {
            prev
        }
    }
}

/// An entry scaled so that the largest becomes `DIST_SCALE` (all 0 when
/// the largest is 0).
pub open spec fn normalized(v: u64, max: u64) -> u64 {
    if max == 0 {
        0
    } else {
        ((v * DIST_SCALE) / (max as int)) as u64
    }
}

proof fn lemma_row_max_bounds(row: Seq<u64>, k: int)
    requires
        0 <= k <= row.len(),
    ensures
        forall|b: int| 0 <= b < k ==> row[b] <= row_max(row, k),
        row_max(row, k) == 0 || exists|b: int| 0 <= b < k && row[b] == row_max(row, k),
    decreases k,
{
    if k > 0 {
        lemma_row_max_bounds(row, k - 1);
    }
}

proof fn lemma_matrix_max_bounds(m: Seq<Seq<u64>>, k: int)
    requires
        0 <= k <= m.len(),
    ensures
        forall|a: int, b: int| 0 <= a < k && 0 <= b < m[a].len() ==> #[trigger] m[a][b] <= matrix_max(m, k),
    decreases k,
{
    if k > 0 {
        lemma_matrix_max_bounds(m, k - 1);
        lemma_row_max_bounds(m[k - 1], m[k - 1].len() as int);
    }
}

/// Scales a matrix of values at most `DIST_SCALE` so that its largest
/// entry becomes `DIST_SCALE`.
pub fn normalize_matrix(edr: &Vec<Vec<u64>>) -> (dist: Vec<Vec<u64>>)
    requires
        is_square(matrix(edr@)),
        entries_bounded(matrix(edr@)),
    ensures
        dist@.len() == edr@.len(),
        is_square(matrix(dist@)),
        entries_bounded(matrix(dist@)),
        forall|a: int, b: int|
            0 <= a < dist@.len() && 0 <= b < dist@.len() ==> #[trigger] matrix(dist@)[a][b] == normalized(
                matrix(edr@)[a][b],
                matrix_max(matrix(edr@), edr@.len() as int),
            ),
{
    let ghost m = matrix(edr@);
    let n = edr.len();
    let mut max_edr: u64 = 0;
    let mut i: usize = 0;
    while i < n
        invariant
            m == matrix(edr@),
            is_square(m),
            n == m.len(),
            i <= n,
            max_edr == matrix_max(m, i as int),
        decreases n - i,
    {
        let row = &edr[i];
        assert(row@ == m[i as int]);
        let mut best: u64 = 0;
        let mut j: usize = 0;
        while j < row.len()
            invariant
                row@ == m[i as int],
                j <= row@.len(),
                best == row_max(row@, j as int),
            decreases row@.len() - j,
        {
            if row[j] > best {
                best = row[j];
            }
            j = j + 1;
        }
        if best > max_edr {
            max_edr = best;
        }
        i = i + 1;
    }
    proof {
        lemma_matrix_max_bounds(m, n as int);
    }
    let mut dist: Vec<Vec<u64>> = Vec::new();
    let mut i: usize = 0;
    while i < n
        invariant
            m == matrix(edr@),
            is_square(m),
            entries_bounded(m),
            n == m.len(),
            max_edr == matrix_max(m, n as int),
            forall|a: int, b: int| 0 <= a < n && 0 <= b < m[a].len() ==> #[trigger] m[a][b] <= max_edr,
            i <= n,
            dist@.len() == i,
            forall|a: int| 0 <= a < i ==> #[trigger] dist@[a]@.len() == n,
            forall|a: int, b: int| 0 <= a < i && 0 <= b < n ==> #[trigger] dist@[a]@[b] == normalized(m[a][b], max_edr),
            forall|a: int, b: int| 0 <= a < i && 0 <= b < n ==> #[trigger] dist@[a]@[b] <= DIST_SCALE,
        decreases n - i,
    {
        let row = &edr[i];
        assert(row@ == m[i as int]);
        let mut out: Vec<u64> = Vec::new();
        let mut j: usize = 0;
        while j < n
            invariant
                m == matrix(edr@),
                is_square(m),
                entries_bounded(m),
                n == m.len(),
                i < n,
                row@ == m[i as int],
                forall|a: int, b: int| 0 <= a < n && 0 <= b < m[a].len() ==> #[trigger] m[a][b] <= max_edr,
                j <= n,
                out@.len() == j,
                forall|b: int| 0 <= b < j ==> #[trigger] out@[b] == normalized(m[i as int][b], max_edr),
                forall|b: int| 0 <= b < j ==> #[trigger] out@[b] <= DIST_SCALE,
            decreases n - j,
        {
            let v = row[j];
            let d = if max_edr > 0 {
                proof {
                    assert(v <= DIST_SCALE && v <= max_edr);
                    assert(v * DIST_SCALE <= DIST_SCALE * DIST_SCALE) by (nonlinear_arith)
                        requires v <= DIST_SCALE;
                    assert((v * DIST_SCALE) / (max_edr as int) <= DIST_SCALE) by (nonlinear_arith)
                        requires v <= max_edr, max_edr > 0;
                }
                (v * DIST_SCALE) / max_edr
            } else {
                0
            };
            out.push(d);
            j = j + 1;
        }
        dist.push(out);
        i = i + 1;
    }
    proof {
        assert forall|a: int| 0 <= a < n implies #[trigger] matrix(dist@)[a].len() == matrix(dist@).len() by {}
        assert forall|a: int, b: int| 0 <= a < matrix(dist@).len() && 0 <= b < matrix(dist@)[a].len() implies #[trigger] matrix(dist@)[a][b] <= DIST_SCALE by {}
    }
    dist
}

} // verus!
