//! Turning a flat clustering into the display layout: clusters by size,
//! a medoid per cluster, and a nearest-neighbour order within each.

use vstd::prelude::*;
use crate::dbscan::{is_square, matrix, DIST_SCALE};
use crate::dendrogram::{entries_bounded, is_permutation, lemma_full_range, lemma_unique_below};
use crate::labels::seen;

verus! {

/// The indices `i < k` with `ids[i] == c`, in increasing order.
pub open spec fn members_of(ids: Seq<usize>, c: int, k: int) -> Seq<usize>
    decreases k,
{
    if k <= 0 {
        Seq::empty()
    } else {
        let prev = members_of(ids, c, k - 1);
        if ids[k - 1] == c {
            prev.push((k - 1) as usize)
        } else {
            prev
        }
    }
}

pub proof fn lemma_members_of_facts(ids: Seq<usize>, c: int, k: int)
    requires
        0 <= k <= ids.len(),
        ids.len() <= usize::MAX,
    ensures
        members_of(ids, c, k).no_duplicates(),
        forall|x: int| 0 <= x < members_of(ids, c, k).len() ==> #[trigger] members_of(ids, c, k)[x] < k,
        forall|x: int| 0 <= x < members_of(ids, c, k).len() ==> ids[#[trigger] members_of(ids, c, k)[x] as int] == c,
        forall|j: int| 0 <= j < k && ids[j] == c ==> #[trigger] members_of(ids, c, k).contains(j as usize),
        forall|j: usize| #[trigger] members_of(ids, c, k).contains(j) ==> j < k && ids[j as int] == c,
    decreases k,
{
    if k > 0 {
        lemma_members_of_facts(ids, c, k - 1);
        let prev = members_of(ids, c, k - 1);
        if ids[k - 1] == c {
            let cur = prev.push((k - 1) as usize);
            assert forall|j: int| 0 <= j < k && ids[j] == c implies #[trigger] cur.contains(j as usize) by {
                if j < k - 1 {
                    assert(members_of(ids, c, k - 1).contains(j as usize));
                    assert(prev.contains(j as usize));
                    let x = choose|x: int| 0 <= x < prev.len() && prev[x] == j as usize;
                    assert(cur[x] == j as usize);
                } else {
                    assert(cur[prev.len() as int] == j as usize);
                }
            }
            assert forall|j: usize| #[trigger] cur.contains(j) implies j < k && ids[j as int] == c by {
                let x = choose|x: int| 0 <= x < cur.len() && cur[x] == j;
                if x < prev.len() {
                    assert(prev[x] == j);
                    assert(prev.contains(j));
                }
            }
        }
    }
}

/// The members of each cluster `0..num_clusters`, in path order.
pub fn group_members(ids: &Vec<usize>, num_clusters: usize) -> (members: Vec<Vec<usize>>)
    ensures
        members@.len() == num_clusters,
        forall|c: int| 0 <= c < num_clusters ==> (#[trigger] members@[c])@ == members_of(ids@, c, ids@.len() as int),
{
    let mut members: Vec<Vec<usize>> = Vec::new();
    let mut c: usize = 0;
    while c < num_clusters
        invariant
            c <= num_clusters,
            members@.len() == c,
            forall|q: int| 0 <= q < c ==> (#[trigger] members@[q])@ == members_of(ids@, q, ids@.len() as int),
        decreases num_clusters - c,
    {
        let mut list: Vec<usize> = Vec::new();
        let mut i: usize = 0;
        while i < ids.len()
            invariant
                i <= ids@.len(),
                list@ == members_of(ids@, c as int, i as int),
            decreases ids@.len() - i,
        {
            if ids[i] == c {
                list.push(i);
            }
            i = i + 1;
        }
        members.push(list);
        c = c + 1;
    }
    members
}

/// Cluster `x` comes before cluster `y`: it is larger, or as large and
/// found first.
pub open spec fn size_before(sizes: Seq<usize>, x: int, y: int) -> bool {
    sizes[x] > sizes[y] || (sizes[x] == sizes[y] && x < y)
}

/// `order` lists `0..sizes.len()` by decreasing size, ties in their
/// index order.
pub open spec fn is_size_order(sizes: Seq<usize>, order: Seq<usize>) -> bool {
    &&& order.len() == sizes.len()
    &&& forall|a: int| 0 <= a < order.len() ==> #[trigger] order[a] < sizes.len()
    &&& forall|a: int, b: int| 0 <= a < b < order.len() ==> size_before(sizes, #[trigger] order[a] as int, #[trigger] order[b] as int)
}

/// The clusters in display order: largest first, ties in discovery order.
pub fn order_by_size(sizes: &Vec<usize>) -> (order: Vec<usize>)
    ensures
        is_size_order(sizes@, order@),
        order@.no_duplicates(),
{
    let k = sizes.len();
    let mut placed: Vec<bool> = Vec::new();
    let mut i: usize = 0;
    while i < k
        invariant
            i <= k,
            placed@.len() == i,
            forall|x: int| 0 <= x < i ==> !#[trigger] placed@[x],
        decreases k - i,
    {
        placed.push(false);
        i = i + 1;
    }
    let mut order: Vec<usize> = Vec::new();
    proof {
        lemma_count_all_unplaced(placed@, k as int);
    }
    let mut t: usize = 0;
    while t < k
        invariant
            k == sizes@.len(),
            placed@.len() == k,
            t <= k,
            order@.len() == t,
            forall|a: int| 0 <= a < t ==> #[trigger] order@[a] < k && placed@[order@[a] as int],
            forall|x: int| 0 <= x < k && #[trigger] placed@[x] ==> order@.contains(x as usize),
            forall|a: int, b: int| 0 <= a < b < t ==> size_before(sizes@, #[trigger] order@[a] as int, #[trigger] order@[b] as int),
            forall|a: int, y: int| 0 <= a < t && 0 <= y < k && !placed@[y] ==> #[trigger] size_before(sizes@, order@[a] as int, y),
            order@.no_duplicates(),
            forall|a: int| 0 <= a < t ==> #[trigger] placed@[order@[a] as int],
            t + count_unplaced(placed@, k as int) == k,
        decreases k - t,
    {
        proof {
            lemma_unplaced_exists(placed@, k as int);
        }
        let mut best: usize = k;
        let mut x: usize = 0;
        while x < k
            invariant
                k == sizes@.len(),
                placed@.len() == k,
                x <= k,
                best <= k,
                best == k ==> forall|y: int| 0 <= y < x ==> #[trigger] placed@[y],
                best < k ==> best < x && !placed@[best as int],
                best < k ==> forall|y: int| 0 <= y < x && !placed@[y] && y != best ==> size_before(sizes@, best as int, y),
            decreases k - x,
        {
            if !placed[x] {
                if best == k || sizes[x] > sizes[best] {
                    proof {
                        if best < k {
                            assert forall|y: int| 0 <= y < x + 1 && !placed@[y] && y != x implies size_before(sizes@, x as int, y) by {
                                if y != best {
                                    assert(size_before(sizes@, best as int, y));
                                }
                            }
                        }
                    }
                    best = x;
                }
            }
            x = x + 1;
        }
        proof {
            if best == k {
                lemma_unplaced_exists(placed@, k as int);
                assert(false);
            }
        }
        let ghost before = order@;
        let ghost placed_before = placed@;
        placed.set(best, true);
        order.push(best);
        proof {
            lemma_count_unplaced_set(placed_before, k as int, best as int);
            assert(!before.contains(best)) by {
                if before.contains(best) {
                    let a = choose|a: int| 0 <= a < before.len() && before[a] == best;
                    assert(placed_before[before[a] as int]);
                }
            }
            assert forall|y: int| 0 <= y < k && #[trigger] placed@[y] implies order@.contains(y as usize) by {
                if y == best {
                    assert(order@[t as int] == best);
                } else {
                    assert(placed_before[y]);
                    let a = choose|a: int| 0 <= a < before.len() && before[a] == y as usize;
                    assert(order@[a] == y as usize);
                }
            }
        }
        t = t + 1;
    }
    order
}

/// Sum of the distances from `cand` to the other entries of `members[0..k]`.
pub open spec fn spread(m: Seq<Seq<u64>>, members: Seq<usize>, cand: int, k: int) -> int
    decreases k,
{
    if k <= 0 {
        0
    } else {
        spread(m, members, cand, k - 1) + if members[k - 1] == cand {
            0int
        } else {
            m[cand][members[k - 1] as int] as int
        }
    }
}

/// `members[i]` has the least total distance to the rest of its cluster,
/// and no earlier member has as little.
pub open spec fn is_medoid_at(m: Seq<Seq<u64>>, members: Seq<usize>, i: int) -> bool {
    let len = members.len() as int;
    let best = spread(m, members, members[i] as int, len);
    &&& 0 <= i < len
    &&& forall|j: int| 0 <= j < len ==> best <= #[trigger] spread(m, members, members[j] as int, len)
    &&& forall|j: int| 0 <= j < i ==> best < #[trigger] spread(m, members, members[j] as int, len)
}

/// Every member is a path index below `n`.
pub open spec fn members_below(members: Seq<usize>, n: int) -> bool {
    forall|i: int| 0 <= i < members.len() ==> #[trigger] members[i] < n
}

proof fn lemma_spread_bounded(m: Seq<Seq<u64>>, members: Seq<usize>, cand: int, k: int)
    requires
        is_square(m),
        entries_bounded(m),
        0 <= cand < m.len(),
        0 <= k <= members.len(),
        members_below(members, m.len() as int),
    ensures
        0 <= spread(m, members, cand, k) <= k * DIST_SCALE,
    decreases k,
{
    if k > 0 {
        lemma_spread_bounded(m, members, cand, k - 1);
        assert(m[cand][members[k - 1] as int] <= DIST_SCALE);
    }
}

/// The medoid of a cluster: the member with the least total (so least
/// mean) distance to the other members, the first such on ties.
pub fn medoid(dist_matrix: &Vec<Vec<u64>>, members: &Vec<usize>) -> (r: usize)
    requires
        is_square(matrix(dist_matrix@)),
        entries_bounded(matrix(dist_matrix@)),
        members@.len() >= 1,
        members_below(members@, dist_matrix@.len() as int),
    ensures
        exists|i: int| is_medoid_at(matrix(dist_matrix@), members@, i) && members@[i] == r,
{
    let ghost m = matrix(dist_matrix@);
    let len = members.len();
    let mut best_medoid = members[0];
    let mut best_sum: u128 = u128::MAX;
    let ghost mut best_i: int = 0;
    let mut i: usize = 0;
    while i < len
        invariant
            m == matrix(dist_matrix@),
            is_square(m),
            entries_bounded(m),
            len == members@.len(),
            len >= 1,
            members_below(members@, m.len() as int),
            i <= len,
            i == 0 ==> best_sum == u128::MAX && best_i == 0 && best_medoid == members@[0],
            i > 0 ==> 0 <= best_i < i && best_medoid == members@[best_i] && best_sum == spread(m, members@, best_medoid as int, len as int),
            forall|j: int| 0 <= j < i ==> best_sum <= #[trigger] spread(m, members@, members@[j] as int, len as int),
            forall|j: int| 0 <= j < best_i ==> best_sum < #[trigger] spread(m, members@, members@[j] as int, len as int),
        decreases len - i,
    {
        let candidate = members[i];
        let row = &dist_matrix[candidate];
        assert(row@ == m[candidate as int]);
        let mut sum_dist: u128 = 0;
        let mut k: usize = 0;
        while k < len
            invariant
                m == matrix(dist_matrix@),
                is_square(m),
                entries_bounded(m),
                len == members@.len(),
                members_below(members@, m.len() as int),
                candidate < m.len(),
                row@ == m[candidate as int],
                k <= len,
                sum_dist == spread(m, members@, candidate as int, k as int),
            decreases len - k,
        {
            proof {
                lemma_spread_bounded(m, members@, candidate as int, k as int + 1);
                assert((k as int + 1) * DIST_SCALE <= (usize::MAX as int + 1) * DIST_SCALE) by (nonlinear_arith)
                    requires k < usize::MAX;
            }
            let other = members[k];
            if other != candidate {
                sum_dist = sum_dist + row[other] as u128;
            }
            k = k + 1;
        }
        proof {
            lemma_spread_bounded(m, members@, candidate as int, len as int);
            assert((len as int) * DIST_SCALE < u128::MAX) by (nonlinear_arith)
                requires len <= usize::MAX;
        }
        if sum_dist < best_sum {
            best_sum = sum_dist;
            best_medoid = candidate;
            proof {
                best_i = i as int;
            }
        }
        i = i + 1;
    }
    proof {
        assert(is_medoid_at(m, members@, best_i));
    }
    best_medoid
}

/// The member to start a tour at: the first with the most base pairs.
pub open spec fn is_tour_start(totals: Seq<u64>, members: Seq<usize>, s: int) -> bool {
    &&& 0 <= s < members.len()
    &&& forall|j: int| 0 <= j < members.len() ==> #[trigger] totals[members[j] as int] <= totals[members[s] as int]
    &&& forall|j: int| 0 <= j < s ==> #[trigger] totals[members[j] as int] < totals[members[s] as int]
}

/// `members[i]` is, among the members not in `placed`, the nearest to
/// `from`, and the first of the nearest.
pub open spec fn is_nearest(m: Seq<Seq<u64>>, members: Seq<usize>, placed: Seq<usize>, from: int, i: int) -> bool {
    &&& 0 <= i < members.len()
    &&& !placed.contains(members[i])
    &&& forall|j: int|
        0 <= j < members.len() && !placed.contains(#[trigger] members[j]) ==> m[from][members[i] as int] <= m[from][members[j] as int]
    &&& forall|j: int|
        0 <= j < i && !placed.contains(#[trigger] members[j]) ==> m[from][members[i] as int] < m[from][members[j] as int]
}

/// The greedy nearest-neighbour tour of a cluster: it starts at the member
/// with the most base pairs and each next stop is the nearest member not yet
/// visited. A fast, deterministic heuristic; not a shortest tour.
pub open spec fn is_greedy_tour(m: Seq<Seq<u64>>, totals: Seq<u64>, members: Seq<usize>, tour: Seq<usize>) -> bool {
    &&& tour.len() == members.len()
    &&& tour.len() > 0 ==> exists|s: int| is_tour_start(totals, members, s) && tour[0] == members[s]
    &&& forall|t: int|
        1 <= t < tour.len() ==> exists|i: int|
            is_nearest(m, members, tour.subrange(0, t), tour[t - 1] as int, i) && #[trigger] tour[t] == members[i]
}

/// Orders the members of a cluster by the greedy nearest-neighbour tour.
pub fn greedy_tour(dist_matrix: &Vec<Vec<u64>>, total_bp: &Vec<u64>, members: &Vec<usize>) -> (tour: Vec<usize>)
    requires
        is_square(matrix(dist_matrix@)),
        entries_bounded(matrix(dist_matrix@)),
        total_bp@.len() == dist_matrix@.len(),
        members@.no_duplicates(),
        members_below(members@, dist_matrix@.len() as int),
    ensures
        is_greedy_tour(matrix(dist_matrix@), total_bp@, members@, tour@),
        tour@.to_set() == members@.to_set(),
        tour@.no_duplicates(),
{
    let ghost m = matrix(dist_matrix@);
    let len = members.len();
    let mut tour: Vec<usize> = Vec::new();
    if len == 0 {
        proof {
            assert(tour@.to_set() =~= members@.to_set());
        }
        return tour;
    }
    let mut start: usize = 0;
    let mut i: usize = 1;
    while i < len
        invariant
            len == members@.len(),
            members_below(members@, m.len() as int),
            total_bp@.len() == m.len(),
            1 <= i <= len,
            start < i,
            forall|j: int| 0 <= j < i ==> #[trigger] total_bp@[members@[j] as int] <= total_bp@[members@[start as int] as int],
            forall|j: int| 0 <= j < start ==> #[trigger] total_bp@[members@[j] as int] < total_bp@[members@[start as int] as int],
        decreases len - i,
    {
        if total_bp[members[i]] > total_bp[members[start]] {
            start = i;
        }
        i = i + 1;
    }
    let mut placed: Vec<bool> = Vec::new();
    let mut k: usize = 0;
    while k < len
        invariant
            k <= len,
            placed@.len() == k,
            forall|x: int| 0 <= x < k ==> !#[trigger] placed@[x],
        decreases len - k,
    {
        placed.push(false);
        k = k + 1;
    }
    proof {
        lemma_count_placed_none(placed@, len as int);
        lemma_count_placed_set(placed@, len as int, start as int);
    }
    placed.set(start, true);
    tour.push(members[start]);
    assert(is_tour_start(total_bp@, members@, start as int));
    let mut current = start;
    proof {
        assert forall|x: int| 0 <= x < len implies #[trigger] placed@[x] == tour@.contains(members@[x]) by {
            if tour@.contains(members@[x]) {
                assert(tour@[0] == members@[start as int]);
                assert(x == start);
            }
            if x == start {
                assert(tour@[0] == members@[x]);
            }
        }
    }
    while tour.len() < len
        invariant
            m == matrix(dist_matrix@),
            is_square(m),
            entries_bounded(m),
            len == members@.len(),
            len >= 1,
            members@.no_duplicates(),
            members_below(members@, m.len() as int),
            placed@.len() == len,
            1 <= tour@.len() <= len,
            current < len,
            tour@.last() == members@[current as int],
            tour@.no_duplicates(),
            forall|x: int| 0 <= x < len ==> #[trigger] placed@[x] == tour@.contains(members@[x]),
            forall|t: int| 0 <= t < tour@.len() ==> members@.contains(#[trigger] tour@[t]),
            exists|s: int| is_tour_start(total_bp@, members@, s) && tour@[0] == members@[s],
            forall|t: int|
                1 <= t < tour@.len() ==> exists|i: int|
                    is_nearest(m, members@, tour@.subrange(0, t), tour@[t - 1] as int, i) && #[trigger] tour@[t] == members@[i],
            count_placed(placed@, len as int) == tour@.len(),
        decreases len - tour@.len(),
    {
        let from = members[current];
        let row = &dist_matrix[from];
        assert(row@ == m[from as int]);
        let mut best_local: usize = len;
        let mut best_dist: u64 = u64::MAX;
        let mut j: usize = 0;
        while j < len
            invariant
                m == matrix(dist_matrix@),
                is_square(m),
                entries_bounded(m),
                len == members@.len(),
                members_below(members@, m.len() as int),
                placed@.len() == len,
                from < m.len(),
                row@ == m[from as int],
                j <= len,
                best_local <= len,
                best_local == len ==> best_dist == u64::MAX && forall|y: int| 0 <= y < j ==> #[trigger] placed@[y],
                best_local < len ==> best_local < j && !placed@[best_local as int] && best_dist == m[from as int][members@[best_local as int] as int],
                forall|y: int| 0 <= y < j && !#[trigger] placed@[y] ==> best_dist <= m[from as int][members@[y] as int],
                forall|y: int| 0 <= y < best_local && y < j && !#[trigger] placed@[y] ==> best_dist < m[from as int][members@[y] as int],
            decreases len - j,
        {
            if !placed[j] {
                let d = row[members[j]];
                assert(d <= DIST_SCALE);
                if d < best_dist {
                    best_dist = d;
                    best_local = j;
                }
            }
            j = j + 1;
        }
        proof {
            if best_local == len {
                lemma_count_placed_all(placed@, len as int);
                assert(false);
            }
        }
        let ghost before = tour@;
        let ghost placed_before = placed@;
        placed.set(best_local, true);
        tour.push(members[best_local]);
        proof {
            lemma_count_placed_set(placed_before, len as int, best_local as int);
            let t = before.len() as int;
            assert(tour@.subrange(0, t) =~= before);
            assert(before.last() == members@[current as int]);
            assert(is_nearest(m, members@, before, from as int, best_local as int)) by {
                assert(!before.contains(members@[best_local as int]));
                assert forall|y: int| 0 <= y < len && !before.contains(#[trigger] members@[y]) implies !placed_before[y] by {}
            }
            assert forall|x: int| 0 <= x < len implies #[trigger] placed@[x] == tour@.contains(members@[x]) by {
                vstd::seq_lib::lemma_seq_contains_after_push(before, members@[best_local as int], members@[x]);
                if x != best_local {
                    assert(members@[x] != members@[best_local as int]);
                }
            }
            assert forall|t2: int| 1 <= t2 < tour@.len() implies exists|i: int|
                is_nearest(m, members@, tour@.subrange(0, t2), tour@[t2 - 1] as int, i) && #[trigger] tour@[t2] == members@[i] by {
                if t2 < t {
                    assert(tour@.subrange(0, t2) =~= before.subrange(0, t2));
                    assert(tour@[t2] == before[t2]);
                    assert(tour@[t2 - 1] == before[t2 - 1]);
                } else {
                    assert(tour@[t2] == members@[best_local as int]);
                }
            }
            assert forall|t2: int| 0 <= t2 < tour@.len() implies members@.contains(#[trigger] tour@[t2]) by {
                if t2 == t {
                    assert(members@[best_local as int] == tour@[t2]);
                } else {
                    assert(tour@[t2] == before[t2]);
                }
            }
            assert(tour@.no_duplicates()) by {
                assert forall|p: int, q: int| 0 <= p < tour@.len() && 0 <= q < tour@.len() && p != q implies tour@[p] != tour@[q] by {
                    if p == t && q < t {
                        assert(before.contains(before[q]));
                    } else if q == t && p < t {
                        assert(before.contains(before[p]));
                    }
                }
            }
            assert(tour@[0] == before[0]);
        }
        current = best_local;
    }
    proof {
        assert forall|x: usize| tour@.to_set().contains(x) <==> members@.to_set().contains(x) by {
            if members@.contains(x) {
                let i = choose|i: int| 0 <= i < len && members@[i] == x;
                lemma_count_placed_all_true(placed@, len as int);
                assert(placed@[i]);
            }
        }
        assert(tour@.to_set() =~= members@.to_set());
    }
    tour
}

/// Number of `true` entries among `placed[0..k]`.
pub open spec fn count_placed(placed: Seq<bool>, k: int) -> int
    decreases k,
{
    if k <= 0 {
        0
    } else {
        count_placed(placed, k - 1) + if placed[k - 1] {
            1int
        } else {
            0int
        }
    }
}

proof fn lemma_count_placed_all(placed: Seq<bool>, k: int)
    requires
        0 <= k <= placed.len(),
        forall|y: int| 0 <= y < k ==> #[trigger] placed[y],
    ensures
        count_placed(placed, k) == k,
    decreases k,
{
    if k > 0 {
        lemma_count_placed_all(placed, k - 1);
    }
}

proof fn lemma_count_placed_none(placed: Seq<bool>, k: int)
    requires
        0 <= k <= placed.len(),
        forall|y: int| 0 <= y < k ==> !#[trigger] placed[y],
    ensures
        count_placed(placed, k) == 0,
    decreases k,
{
    if k > 0 {
        lemma_count_placed_none(placed, k - 1);
    }
}

proof fn lemma_count_placed_all_true(placed: Seq<bool>, k: int)
    requires
        0 <= k <= placed.len(),
        count_placed(placed, k) == k,
    ensures
        forall|y: int| 0 <= y < k ==> #[trigger] placed[y],
    decreases k,
{
    if k > 0 {
        lemma_count_placed_le(placed, k - 1);
        lemma_count_placed_all_true(placed, k - 1);
    }
}

proof fn lemma_count_placed_le(placed: Seq<bool>, k: int)
    requires
        0 <= k <= placed.len(),
    ensures
        0 <= count_placed(placed, k) <= k,
    decreases k,
{
    if k > 0 {
        lemma_count_placed_le(placed, k - 1);
    }
}

proof fn lemma_count_placed_set(placed: Seq<bool>, k: int, x: int)
    requires
        0 <= x < k <= placed.len(),
        !placed[x],
    ensures
        count_placed(placed.update(x, true), k) == count_placed(placed, k) + 1,
    decreases k,
{
    if k - 1 > x {
        lemma_count_placed_set(placed, k - 1, x);
    } else {
        lemma_count_placed_same(placed, placed.update(x, true), x);
    }
}

proof fn lemma_count_placed_same(a: Seq<bool>, b: Seq<bool>, k: int)
    requires
        0 <= k <= a.len(),
        k <= b.len(),
        forall|i: int| 0 <= i < k ==> a[i] == b[i],
    ensures
        count_placed(a, k) == count_placed(b, k),
    decreases k,
{
    if k > 0 {
        lemma_count_placed_same(a, b, k - 1);
    }
}

/// Member counts of clusters `0..num`.
pub open spec fn sizes_of(ids: Seq<usize>, num: int) -> Seq<usize> {
    Seq::new(num as nat, |c: int| members_of(ids, c, ids.len() as int).len() as usize)
}

/// `sizes[0] + ... + sizes[k - 1]`.
pub open spec fn sum_sizes(sizes: Seq<usize>, k: int) -> int
    decreases k,
{
    if k <= 0 {
        0
    } else {
        sum_sizes(sizes, k - 1) + sizes[k - 1]
    }
}

/// `tours[0] + ... + tours[k - 1]`.
pub open spec fn concat_all(tours: Seq<Seq<usize>>, k: int) -> Seq<usize>
    decreases k,
{
    if k <= 0 {
        Seq::empty()
    } else {
        concat_all(tours, k - 1) + tours[k - 1]
    }
}

proof fn lemma_concat_contains(tours: Seq<Seq<usize>>, k: int, r: int, x: usize)
    requires
        0 <= r < k <= tours.len(),
        tours[r].contains(x),
    ensures
        concat_all(tours, k).contains(x),
    decreases k,
{
    let prev = concat_all(tours, k - 1);
    if r < k - 1 {
        lemma_concat_contains(tours, k - 1, r, x);
        let i = choose|i: int| 0 <= i < prev.len() && prev[i] == x;
        assert((prev + tours[k - 1])[i] == x);
    } else {
        let i = choose|i: int| 0 <= i < tours[r].len() && tours[r][i] == x;
        assert((prev + tours[k - 1])[prev.len() + i] == x);
    }
}

/// `rep` is the medoid of the cluster shown in slot `r`.
pub open spec fn is_rep(m: Seq<Seq<u64>>, ids: Seq<usize>, order: Seq<usize>, r: int, rep: usize) -> bool {
    let members = members_of(ids, order[r] as int, ids.len() as int);
    exists|i: int| is_medoid_at(m, members, i) && rep == members[i]
}

/// The display layout of a flat clustering `ids` with `num` clusters: the
/// clusters by decreasing size, each with its size and medoid, and the
/// paths cluster by cluster, each cluster in greedy nearest-neighbour order.
pub open spec fn is_layout(
    m: Seq<Seq<u64>>,
    totals: Seq<u64>,
    ids: Seq<usize>,
    num: int,
    order: Seq<usize>,
    ordering: Seq<usize>,
    cluster_ids: Seq<usize>,
    representatives: Seq<usize>,
    cluster_sizes: Seq<usize>,
) -> bool {
    let n = ids.len() as int;
    &&& is_size_order(sizes_of(ids, num), order)
    &&& order.no_duplicates()
    &&& cluster_sizes.len() == num
    &&& representatives.len() == num
    &&& forall|r: int| 0 <= r < num ==> #[trigger] cluster_sizes[r] == sizes_of(ids, num)[order[r] as int]
    &&& forall|r: int| 0 <= r < num ==> #[trigger] is_rep(m, ids, order, r, representatives[r])
    &&& forall|r: int| 0 <= r < num ==> #[trigger] representatives[r] < n && ids[representatives[r] as int] == order[r]
    &&& is_permutation(ordering, n)
    &&& cluster_ids.len() == n
    &&& forall|pos: int| 0 <= pos < n ==> #[trigger] cluster_ids[pos] < num && order[cluster_ids[pos] as int] == ids[ordering[pos] as int]
    &&& sum_sizes(cluster_sizes, num) == n
    &&& exists|tours: Seq<Seq<usize>>|
        {
            &&& tours.len() == num
            &&& ordering == concat_all(tours, num)
            &&& forall|r: int| 0 <= r < num ==> is_greedy_tour(m, totals, members_of(ids, order[r] as int, n), #[trigger] tours[r])
        }
}

/// Lays out a canonical flat clustering with `num` clusters.
pub fn layout_clusters(dist_matrix: &Vec<Vec<u64>>, total_bp: &Vec<u64>, ids: &Vec<usize>, num: usize) -> (r: (
    Vec<usize>,
    Vec<usize>,
    Vec<usize>,
    Vec<usize>,
    Vec<usize>,
))
    requires
        is_square(matrix(dist_matrix@)),
        entries_bounded(matrix(dist_matrix@)),
        total_bp@.len() == dist_matrix@.len(),
        ids@.len() == dist_matrix@.len(),
        forall|j: int| 0 <= j < ids@.len() ==> #[trigger] ids@[j] < num,
        forall|c: int| 0 <= c < num ==> #[trigger] seen(ids@, ids@.len() as int, c),
    ensures
        is_layout(matrix(dist_matrix@), total_bp@, ids@, num as int, r.4@, r.0@, r.1@, r.2@, r.3@),
{
    let ghost m = matrix(dist_matrix@);
    let n = ids.len();
    let members = group_members(ids, num);
    let mut sizes0: Vec<usize> = Vec::new();
    let mut c: usize = 0;
    while c < num
        invariant
            c <= num,
            members@.len() == num,
            sizes0@.len() == c,
            forall|q: int| 0 <= q < c ==> #[trigger] sizes0@[q] == sizes_of(ids@, num as int)[q],
            forall|q: int| 0 <= q < num ==> (#[trigger] members@[q])@ == members_of(ids@, q, ids@.len() as int),
        decreases num - c,
    {
        sizes0.push(members[c].len());
        c = c + 1;
    }
    proof {
        assert(sizes0@ =~= sizes_of(ids@, num as int));
    }
    let order = order_by_size(&sizes0);
    proof {
        lemma_full_range(order@, num as int);
    }
    let mut ordering: Vec<usize> = Vec::new();
    let mut cluster_ids: Vec<usize> = Vec::new();
    let mut representatives: Vec<usize> = Vec::new();
    let mut cluster_sizes: Vec<usize> = Vec::new();
    let ghost mut tours: Seq<Seq<usize>> = Seq::empty();
    let mut r: usize = 0;
    while r < num
        invariant
            m == matrix(dist_matrix@),
            is_square(m),
            entries_bounded(m),
            total_bp@.len() == m.len(),
            n == ids@.len(),
            n == m.len(),
            forall|j: int| 0 <= j < n ==> #[trigger] ids@[j] < num,
            forall|c: int| 0 <= c < num ==> #[trigger] seen(ids@, ids@.len() as int, c),
            forall|x: int| 0 <= x < num ==> #[trigger] order@.contains(x as usize),
            members@.len() == num,
            forall|q: int| 0 <= q < num ==> (#[trigger] members@[q])@ == members_of(ids@, q, n as int),
            sizes0@ == sizes_of(ids@, num as int),
            is_size_order(sizes0@, order@),
            order@.no_duplicates(),
            order@.len() == num,
            r <= num,
            cluster_sizes@.len() == r,
            representatives@.len() == r,
            tours.len() == r,
            forall|q: int| 0 <= q < r ==> #[trigger] cluster_sizes@[q] == sizes0@[order@[q] as int],
            forall|q: int| 0 <= q < r ==> #[trigger] is_rep(m, ids@, order@, q, representatives@[q]),
            forall|q: int| 0 <= q < r ==> #[trigger] representatives@[q] < n && ids@[representatives@[q] as int] == order@[q],
            forall|q: int|
                0 <= q < r ==> is_greedy_tour(m, total_bp@, members_of(ids@, order@[q] as int, n as int), #[trigger] tours[q]),
            forall|q: int|
                0 <= q < r ==> (#[trigger] tours[q]).to_set() == members_of(ids@, order@[q] as int, n as int).to_set(),
            ordering@ == concat_all(tours, r as int),
            ordering@.len() == sum_sizes(cluster_sizes@, r as int),
            ordering@.no_duplicates(),
            cluster_ids@.len() == ordering@.len(),
            forall|pos: int| 0 <= pos < ordering@.len() ==> #[trigger] ordering@[pos] < n,
            forall|pos: int|
                0 <= pos < ordering@.len() ==> #[trigger] cluster_ids@[pos] < r && order@[cluster_ids@[pos] as int]
                    == ids@[ordering@[pos] as int],
        decreases num - r,
    {
        let c = order[r];
        let list = &members[c];
        proof {
            lemma_members_of_facts(ids@, c as int, n as int);
            assert(seen(ids@, n as int, c as int));
            let j = choose|j: int| 0 <= j < n && ids@[j] == c;
            assert(list@.contains(j as usize));
            assert(members_below(list@, n as int));
        }
        let size = list.len();
        let ghost sizes_before = cluster_sizes@;
        cluster_sizes.push(size);
        proof {
            lemma_sum_sizes_prefix(cluster_sizes@, sizes_before, r as int);
        }
        let rep = medoid(dist_matrix, list);
        let ghost reps_before = representatives@;
        representatives.push(rep);
        proof {
            assert forall|q: int| 0 <= q < r + 1 implies #[trigger] is_rep(m, ids@, order@, q, representatives@[q]) by {
                if q == r {
                    let i = choose|i: int| is_medoid_at(m, list@, i) && list@[i] == rep;
                    assert(representatives@[q] == rep);
                } else {
                    assert(representatives@[q] == reps_before[q]);
                    assert(is_rep(m, ids@, order@, q, reps_before[q]));
                }
            }
            let i = choose|i: int| is_medoid_at(m, list@, i) && list@[i] == rep;
            assert(list@.contains(rep)) by {
                assert(list@[i] == rep);
            }
        }
        let tour = greedy_tour(dist_matrix, total_bp, list);
        let ghost before = ordering@;
        let ghost before_ids = cluster_ids@;
        let mut t: usize = 0;
        while t < tour.len()
            invariant
                n == ids@.len(),
                order@.no_duplicates(),
                order@.len() == num,
                r < num,
                c == order@[r as int],
                t <= tour@.len(),
                tour@.no_duplicates(),
                forall|x: int| 0 <= x < tour@.len() ==> #[trigger] tour@[x] < n && ids@[tour@[x] as int] == c,
                before.no_duplicates(),
                forall|pos: int| 0 <= pos < before.len() ==> #[trigger] before[pos] < n,
                forall|pos: int|
                    0 <= pos < before.len() ==> #[trigger] before_ids[pos] < r && order@[before_ids[pos] as int]
                        == ids@[before[pos] as int],
                before_ids.len() == before.len(),
                ordering@ == before + tour@.subrange(0, t as int),
                cluster_ids@.len() == ordering@.len(),
                forall|pos: int| 0 <= pos < before.len() ==> #[trigger] cluster_ids@[pos] == before_ids[pos],
                forall|pos: int| before.len() <= pos < ordering@.len() ==> #[trigger] cluster_ids@[pos] == r,
                ordering@.no_duplicates(),
            decreases tour@.len() - t,
        {
            let ghost prev = ordering@;
            ordering.push(tour[t]);
            cluster_ids.push(r);
            proof {
                assert(ordering@ =~= before + tour@.subrange(0, t as int + 1));
                assert forall|p: int, q: int| 0 <= p < ordering@.len() && 0 <= q < ordering@.len() && p != q implies ordering@[p] != ordering@[q] by {
                    let last = prev.len() as int;
                    if p == last || q == last {
                        let o = if p == last { q } else { p };
                        if o < before.len() {
                            assert(order@[before_ids[o] as int] == ids@[before[o] as int]);
                            assert(ids@[tour@[t as int] as int] == c);
                            assert(before_ids[o] != r);
                        } else {
                            assert(ordering@[o] == tour@[o - before.len()]);
                            assert(ordering@[last] == tour@[t as int]);
                        }
                    } else {
                        assert(prev[p] == ordering@[p] && prev[q] == ordering@[q]);
                    }
                }
            }
            t = t + 1;
        }
        proof {
            assert(tour@.subrange(0, tour@.len() as int) =~= tour@);
            let old_tours = tours;
            tours = tours.push(tour@);
            lemma_concat_prefix(tours, old_tours, r as int);
            assert(concat_all(tours, r as int + 1) == concat_all(tours, r as int) + tours[r as int]);
            assert(ordering@ =~= concat_all(tours, r as int + 1));
            assert forall|q: int| 0 <= q < r implies #[trigger] tours[q] == old_tours[q] by {}
            assert forall|q: int| 0 <= q < r + 1 implies is_greedy_tour(m, total_bp@, members_of(ids@, order@[q] as int, n as int), #[trigger] tours[q]) by {}
            assert forall|pos: int|
                0 <= pos < ordering@.len() implies #[trigger] cluster_ids@[pos] < r + 1 && order@[cluster_ids@[pos] as int] == ids@[ordering@[pos] as int] by {
                if pos >= before.len() {
                    assert(ordering@[pos] == tour@[pos - before.len()]);
                }
            }
            assert forall|pos: int| 0 <= pos < ordering@.len() implies #[trigger] ordering@[pos] < n by {
                if pos >= before.len() {
                    assert(ordering@[pos] == tour@[pos - before.len()]);
                }
            }
        }
        r = r + 1;
    }
    proof {
        assert forall|j: int| 0 <= j < n implies #[trigger] ordering@.contains(j as usize) by {
            let cj = ids@[j] as int;
            assert(order@.contains(cj as usize));
            let q = choose|q: int| 0 <= q < order@.len() && order@[q] == cj as usize;
            lemma_members_of_facts(ids@, cj, n as int);
            assert(members_of(ids@, cj, n as int).contains(j as usize));
            assert(members_of(ids@, cj, n as int).to_set().contains(j as usize));
            assert(tours[q].to_set().contains(j as usize));
            lemma_concat_contains(tours, num as int, q, j as usize);
        }
        lemma_unique_below(ordering@, n as int);
    }
    (ordering, cluster_ids, representatives, cluster_sizes, order)
}

proof fn lemma_sum_sizes_prefix(a: Seq<usize>, b: Seq<usize>, k: int)
    requires
        0 <= k <= a.len(),
        k <= b.len(),
        forall|i: int| 0 <= i < k ==> a[i] == b[i],
    ensures
        sum_sizes(a, k) == sum_sizes(b, k),
    decreases k,
{
    if k > 0 {
        lemma_sum_sizes_prefix(a, b, k - 1);
    }
}

proof fn lemma_concat_prefix(a: Seq<Seq<usize>>, b: Seq<Seq<usize>>, k: int)
    requires
        0 <= k <= a.len(),
        k <= b.len(),
        forall|i: int| 0 <= i < k ==> a[i] == b[i],
    ensures
        concat_all(a, k) == concat_all(b, k),
    decreases k,
{
    if k > 0 {
        lemma_concat_prefix(a, b, k - 1);
    }
}

/// Number of `false` entries among `placed[0..k]`.
pub open spec fn count_unplaced(placed: Seq<bool>, k: int) -> int
    decreases k,
{
    if k <= 0 {
        0
    } else {
        count_unplaced(placed, k - 1) + if placed[k - 1] {
            0int
        } else {
            1int
        }
    }
}

proof fn lemma_unplaced_exists(placed: Seq<bool>, k: int)
    requires
        0 <= k <= placed.len(),
    ensures
        count_unplaced(placed, k) >= 0,
        count_unplaced(placed, k) <= k,
        count_unplaced(placed, k) > 0 ==> exists|y: int| 0 <= y < k && !#[trigger] placed[y],
    decreases k,
{
    if k > 0 {
        lemma_unplaced_exists(placed, k - 1);
    }
}

proof fn lemma_count_all_unplaced(placed: Seq<bool>, k: int)
    requires
        0 <= k <= placed.len(),
        forall|x: int| 0 <= x < k ==> !#[trigger] placed[x],
    ensures
        count_unplaced(placed, k) == k,
    decreases k,
{
    if k > 0 {
        lemma_count_all_unplaced(placed, k - 1);
    }
}

proof fn lemma_count_unplaced_set(placed: Seq<bool>, k: int, x: int)
    requires
        0 <= x < k <= placed.len(),
        !placed[x],
    ensures
        count_unplaced(placed.update(x, true), k) == count_unplaced(placed, k) - 1,
    decreases k,
{
    if k - 1 > x {
        lemma_count_unplaced_set(placed, k - 1, x);
    } else {
        lemma_count_unplaced_same(placed, placed.update(x, true), x);
    }
}

proof fn lemma_count_unplaced_same(a: Seq<bool>, b: Seq<bool>, k: int)
    requires
        0 <= k <= a.len(),
        k <= b.len(),
        forall|i: int| 0 <= i < k ==> a[i] == b[i],
    ensures
        count_unplaced(a, k) == count_unplaced(b, k),
    decreases k,
{
    if k > 0 {
        lemma_count_unplaced_same(a, b, k - 1);
    }
}

} // verus!
