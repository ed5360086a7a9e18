//! Per-path base-pair coverage of graph nodes.

use rustc_hash::FxHashMap;
use vstd::prelude::*;
use crate::fxmap::{fx_get, fx_insert, fx_new};

verus! {

/// One step of a path: a node and the strand it is walked on.
#[derive(Clone, Copy, Debug)]
pub struct PathStep {
    pub segment_id: u64,
    pub is_reverse: bool,
}

/// A named walk through the graph.
#[derive(Clone, Debug)]
pub struct GfaPath {
    pub name: String,
    pub steps: Vec<PathStep>,
}

/// Base pairs a path puts on each node. `nodes` lists the nodes with an
/// entry in `bp`, each once, in the order the path first reached them.
pub struct Coverage {
    pub nodes: Vec<u64>,
    pub bp: FxHashMap<u64, u64>,
}

/// `nodes` enumerates the keys of `bp` without repeats.
pub open spec fn enumerates(nodes: Seq<u64>, bp: Map<u64, u64>) -> bool {
    &&& nodes.no_duplicates()
    &&& forall|x: u64| #[trigger] bp.contains_key(x) <==> nodes.contains(x)
}

impl Coverage {
    pub open spec fn wf(&self) -> bool {
        enumerates(self.nodes@, self.bp@)
    }
}

/// Length of node `id`; nodes outside the table have length 0.
pub open spec fn seg_len(lens: Seq<u64>, id: u64) -> int {
    if id < lens.len() {
        lens[id as int] as int
    } else {
        0
    }
}

/// Base pairs that `steps[0..k]` put on `node`.
pub open spec fn node_bp(steps: Seq<PathStep>, lens: Seq<u64>, node: u64, k: int) -> int
    decreases k,
{
    if k <= 0 {
        0
    } else {
        node_bp(steps, lens, node, k - 1) + if steps[k - 1].segment_id == node {
            seg_len(lens, node)
        } else {
            0
        }
    }
}

/// Base pairs of `steps[0..k]`.
pub open spec fn path_bp(steps: Seq<PathStep>, lens: Seq<u64>, k: int) -> int
    decreases k,
{
    if k <= 0 {
        0
    } else {
        path_bp(steps, lens, k - 1) + seg_len(lens, steps[k - 1].segment_id)
    }
}

/// The nodes of `steps[0..k]` in order of first visit.
pub open spec fn first_seen(steps: Seq<PathStep>, k: int) -> Seq<u64>
    decreases k,
{
    if k <= 0 {
        Seq::empty()
    } else {
        let prev = first_seen(steps, k - 1);
        let id = steps[k - 1].segment_id;
        if prev.contains(id) {
            prev
        } else {
            prev.push(id)
        }
    }
}

proof fn lemma_node_bp_bounded(steps: Seq<PathStep>, lens: Seq<u64>, node: u64, k: int)
    requires
        0 <= k <= steps.len(),
    ensures
        0 <= node_bp(steps, lens, node, k) <= path_bp(steps, lens, k),
        path_bp(steps, lens, k) >= 0,
    decreases k,
{
    if k > 0 {
        lemma_node_bp_bounded(steps, lens, node, k - 1);
    }
}

proof fn lemma_path_bp_monotone(steps: Seq<PathStep>, lens: Seq<u64>, j: int, k: int)
    requires
        0 <= j <= k <= steps.len(),
    ensures
        path_bp(steps, lens, j) <= path_bp(steps, lens, k),
    decreases k - j,
{
    if j < k {
        lemma_path_bp_monotone(steps, lens, j, k - 1);
    }
}

/// Length of a node from the table, 0 for nodes outside it.
pub fn segment_length(segment_lengths: &Vec<u64>, id: u64) -> (r: u64)
    ensures
        r == seg_len(segment_lengths@, id),
{
    if id < segment_lengths.len() as u64 {
        segment_lengths[id as usize]
    } else {
        0
    }
}

/// The coverage of one path: each node's length summed over the path's
/// visits to it.
pub fn path_coverage(path: &GfaPath, segment_lengths: &Vec<u64>) -> (c: Coverage)
    requires
        path_bp(path.steps@, segment_lengths@, path.steps@.len() as int) <= u64::MAX,
    ensures
        c.wf(),
        c.nodes@ == first_seen(path.steps@, path.steps@.len() as int),
        forall|x: u64| #[trigger] c.bp@.contains_key(x) ==> c.bp@[x] == node_bp(path.steps@, segment_lengths@, x, path.steps@.len() as int),
{
    let ghost steps = path.steps@;
    let ghost lens = segment_lengths@;
    let mut counts: FxHashMap<u64, u64> = fx_new();
    let mut nodes: Vec<u64> = Vec::new();
    let mut k: usize = 0;
    while k < path.steps.len()
        invariant
            steps == path.steps@,
            lens == segment_lengths@,
            path_bp(steps, lens, steps.len() as int) <= u64::MAX,
            k <= steps.len(),
            enumerates(nodes@, counts@),
            nodes@ == first_seen(steps, k as int),
            forall|x: u64| #[trigger] counts@.contains_key(x) ==> counts@[x] == node_bp(steps, lens, x, k as int),
            forall|x: u64| !counts@.contains_key(x) ==> #[trigger] node_bp(steps, lens, x, k as int) == 0,
        decreases steps.len() - k,
    {
        broadcast use vstd::std_specs::hash::group_hash_axioms;

        let id = path.steps[k].segment_id;
        let len = segment_length(segment_lengths, id);
        proof {
            lemma_node_bp_bounded(steps, lens, id, k as int + 1);
            lemma_path_bp_monotone(steps, lens, k as int + 1, steps.len() as int);
            assert(forall|x: u64| x != id ==> #[trigger] node_bp(steps, lens, x, k as int + 1) == node_bp(steps, lens, x, k as int));
            assert(node_bp(steps, lens, id, k as int + 1) == node_bp(steps, lens, id, k as int) + len);
        }
        let ghost before = nodes@;
        match fx_get(&counts, &id) {
            Some(c) => {
                fx_insert(&mut counts, id, c + len);
                proof {
                    assert(nodes@.contains(id));
                    assert(counts@[id] == node_bp(steps, lens, id, k as int + 1));
                }
            },
            None => {
                fx_insert(&mut counts, id, len);
                nodes.push(id);
                proof {
                    assert(node_bp(steps, lens, id, k as int) == 0);
                    assert(counts@[id] == node_bp(steps, lens, id, k as int + 1));
                    assert(!before.contains(id));
                    assert forall|x: u64| #[trigger] counts@.contains_key(x) <==> nodes@.contains(x) by {
                        if x != id && before.contains(x) {
                            let i = choose|i: int| 0 <= i < before.len() && before[i] == x;
                            assert(nodes@[i] == x);
                        }
                        if nodes@.contains(x) && x != id {
                            let i = choose|i: int| 0 <= i < nodes@.len() && nodes@[i] == x;
                            assert(i < before.len());
                            assert(before.contains(x));
                        }
                        if x == id {
                            assert(nodes@[before.len() as int] == id);
                        }
                    }
                }
            },
        }
        k = k + 1;
    }
    Coverage { nodes, bp: counts }
}

/// Coverage of `node`, 0 where the path has no entry.
pub open spec fn bp_or_zero(bp: Map<u64, u64>, node: u64) -> int {
    if bp.contains_key(node) {
        bp[node] as int
    } else {
        0
    }
}

/// `node` is covered differently by some path than by the first.
pub open spec fn is_variable(maps: Seq<Map<u64, u64>>, node: u64) -> bool {
    exists|p: int| 1 <= p < maps.len() && bp_or_zero(#[trigger] maps[p], node) != bp_or_zero(maps[0], node)
}

pub open spec fn coverage_maps(covs: Seq<Coverage>) -> Seq<Map<u64, u64>> {
    covs.map_values(|c: Coverage| c.bp@)
}

/// Whether `node` is covered differently by some path than by the first.
pub fn node_is_variable(covs: &Vec<Coverage>, node: u64) -> (r: bool)
    requires
        covs@.len() >= 1,
    ensures
        r == is_variable(coverage_maps(covs@), node),
{
    broadcast use vstd::std_specs::hash::group_hash_axioms;

    let ghost maps = coverage_maps(covs@);
    let first_bp: u64 = match fx_get(&covs[0].bp, &node) {
        Some(v) => v,
        None => 0,
    };
    let mut p: usize = 1;
    while p < covs.len()
        invariant
            maps == coverage_maps(covs@),
            covs@.len() >= 1,
            1 <= p <= covs@.len(),
            first_bp == bp_or_zero(maps[0], node),
            forall|q: int| 1 <= q < p ==> bp_or_zero(#[trigger] maps[q], node) == bp_or_zero(maps[0], node),
        decreases covs@.len() - p,
    {
        let v: u64 = match fx_get(&covs[p].bp, &node) {
            Some(v) => v,
            None => 0,
        };
        assert(maps[p as int] == covs@[p as int].bp@);
        if v != first_bp {
            return true;
        }
        p = p + 1;
    }
    false
}

/// `nodes[0..k]` without those that `keep` drops.
pub open spec fn kept_nodes(nodes: Seq<u64>, keep: spec_fn(u64) -> bool, k: int) -> Seq<u64>
    decreases k,
{
    if k <= 0 {
        Seq::empty()
    } else {
        let prev = kept_nodes(nodes, keep, k - 1);
        if keep(nodes[k - 1]) {
            prev.push(nodes[k - 1])
        } else {
            prev
        }
    }
}

/// Which nodes take part in clustering: all, or only the variable ones.
pub open spec fn keeps(maps: Seq<Map<u64, u64>>, use_all_nodes: bool) -> spec_fn(u64) -> bool {
    |x: u64| use_all_nodes || is_variable(maps, x)
}

/// Coverage restricted to the nodes kept for clustering.
pub open spec fn filtered(c: Coverage, maps: Seq<Map<u64, u64>>, use_all_nodes: bool) -> (Seq<u64>, Map<u64, u64>) {
    let keep = keeps(maps, use_all_nodes);
    (kept_nodes(c.nodes@, keep, c.nodes@.len() as int), c.bp@.restrict(c.bp@.dom().filter(keep)))
}

/// Sum of `f` over `nodes[0..k]`.
pub open spec fn sum_of(nodes: Seq<u64>, f: spec_fn(u64) -> int, k: int) -> int
    decreases k,
{
    if k <= 0 {
        0
    } else {
        sum_of(nodes, f, k - 1) + f(nodes[k - 1])
    }
}

/// Sum of `bp` over all of `nodes`.
pub open spec fn total_bp(nodes: Seq<u64>, bp: Map<u64, u64>) -> int {
    sum_of(nodes, |x: u64| bp[x] as int, nodes.len() as int)
}

/// Sums over equal prefixes are equal.
pub proof fn lemma_sum_prefix(s: Seq<u64>, t: Seq<u64>, f: spec_fn(u64) -> int, k: int)
    requires
        0 <= k <= s.len(),
        k <= t.len(),
        forall|i: int| 0 <= i < k ==> s[i] == t[i],
    ensures
        sum_of(s, f, k) == sum_of(t, f, k),
    decreases k,
{
    if k > 0 {
        lemma_sum_prefix(s, t, f, k - 1);
    }
}

/// Sums of two functions that agree on the entries are equal.
pub proof fn lemma_sum_ext(s: Seq<u64>, f: spec_fn(u64) -> int, g: spec_fn(u64) -> int, k: int)
    requires
        0 <= k <= s.len(),
        forall|i: int| 0 <= i < k ==> f(#[trigger] s[i]) == g(s[i]),
    ensures
        sum_of(s, f, k) == sum_of(s, g, k),
    decreases k,
{
    if k > 0 {
        lemma_sum_ext(s, f, g, k - 1);
    }
}

/// The clustering total of a path is at most its length in base pairs.
pub proof fn lemma_filtered_total_le(path: GfaPath, lens: Seq<u64>, c: Coverage, maps: Seq<Map<u64, u64>>, use_all_nodes: bool)
    requires
        c.wf(),
        c.nodes@ == first_seen(path.steps@, path.steps@.len() as int),
        forall|x: u64| #[trigger] c.bp@.contains_key(x) ==> c.bp@[x] == node_bp(path.steps@, lens, x, path.steps@.len() as int),
    ensures
        0 <= total_bp(filtered(c, maps, use_all_nodes).0, filtered(c, maps, use_all_nodes).1) <= path_bp(path.steps@, lens, path.steps@.len() as int),
{
    let steps = path.steps@;
    let k = steps.len() as int;
    let keep = keeps(maps, use_all_nodes);
    let l = c.nodes@;
    let kept = kept_nodes(l, keep, l.len() as int);
    let r = c.bp@.restrict(c.bp@.dom().filter(keep));
    let fb = |x: u64| c.bp@[x] as int;
    let fr = |x: u64| r[x] as int;
    lemma_kept_facts(l, keep, l.len() as int);
    assert forall|i: int| 0 <= i < kept.len() implies fr(#[trigger] kept[i]) == fb(kept[i]) by {
        assert(kept.contains(kept[i]));
        let j = choose|j: int| 0 <= j < l.len() && #[trigger] l[j] == kept[i];
        assert(l.contains(kept[i]));
    }
    lemma_sum_ext(kept, fr, fb, kept.len() as int);
    lemma_kept_sum_le(l, keep, fb, l.len() as int);
    let fn_ = |x: u64| node_bp(steps, lens, x, k);
    assert forall|i: int| 0 <= i < l.len() implies fb(#[trigger] l[i]) == fn_(l[i]) by {
        assert(l.contains(l[i]));
        assert(c.bp@.contains_key(l[i]));
        assert(c.bp@[l[i]] == node_bp(steps, lens, l[i], k));
    }
    lemma_sum_ext(l, fb, fn_, l.len() as int);
    lemma_coverage_sums_to_length(steps, lens, k);
}

proof fn lemma_sum_push(s: Seq<u64>, a: u64, f: spec_fn(u64) -> int)
    ensures
        sum_of(s.push(a), f, s.len() + 1 as int) == sum_of(s, f, s.len() as int) + f(a),
{
    lemma_sum_prefix(s.push(a), s, f, s.len() as int);
}

/// Sums of `f` and `g` over `s[0..k]` differ by `d` when the two differ
/// only at `id`, by `d`, and `id` occurs at most once.
proof fn lemma_sum_bump(s: Seq<u64>, f: spec_fn(u64) -> int, g: spec_fn(u64) -> int, id: u64, d: int, k: int)
    requires
        0 <= k <= s.len(),
        s.no_duplicates(),
        forall|x: u64| x != id ==> #[trigger] g(x) == f(x),
        g(id) == f(id) + d,
    ensures
        sum_of(s, g, k) == sum_of(s, f, k) + if s.subrange(0, k).contains(id) {
            d
        } else {
            0
        },
    decreases k,
{
    if k > 0 {
        lemma_sum_bump(s, f, g, id, d, k - 1);
        let pre = s.subrange(0, k - 1);
        let cur = s.subrange(0, k);
        if s[k - 1] == id {
            assert(cur.contains(id)) by {
                assert(cur[k - 1] == id);
            }
            if pre.contains(id) {
                let i = choose|i: int| 0 <= i < pre.len() && pre[i] == id;
                assert(s[i] == s[k - 1]);
            }
        } else {
            if cur.contains(id) {
                let i = choose|i: int| 0 <= i < cur.len() && cur[i] == id;
                assert(pre[i] == id);
            }
            if pre.contains(id) {
                let i = choose|i: int| 0 <= i < pre.len() && pre[i] == id;
                assert(cur[i] == id);
            }
        }
    }
}

proof fn lemma_first_seen_facts(steps: Seq<PathStep>, k: int)
    requires
        0 <= k <= steps.len(),
    ensures
        first_seen(steps, k).no_duplicates(),
        forall|x: u64| first_seen(steps, k).contains(x) <==> exists|i: int| 0 <= i < k && #[trigger] steps[i].segment_id == x,
    decreases k,
{
    if k > 0 {
        lemma_first_seen_facts(steps, k - 1);
        let prev = first_seen(steps, k - 1);
        let id = steps[k - 1].segment_id;
        if !prev.contains(id) {
            assert forall|x: u64| prev.push(id).contains(x) <==> prev.contains(x) || x == id by {
                if prev.push(id).contains(x) && x != id {
                    let i = choose|i: int| 0 <= i < prev.len() + 1 && prev.push(id)[i] == x;
                    assert(prev[i] == x);
                }
                if prev.contains(x) {
                    let i = choose|i: int| 0 <= i < prev.len() && prev[i] == x;
                    assert(prev.push(id)[i] == x);
                }
                if x == id {
                    assert(prev.push(id)[prev.len() as int] == x);
                }
            }
        }
        assert forall|x: u64| first_seen(steps, k).contains(x) implies exists|i: int| 0 <= i < k && #[trigger] steps[i].segment_id == x by {
            if prev.contains(x) {
                let i = choose|i: int| 0 <= i < k - 1 && #[trigger] steps[i].segment_id == x;
            } else {
                assert(steps[k - 1].segment_id == x);
            }
        }
        assert forall|x: u64| (exists|i: int| 0 <= i < k && #[trigger] steps[i].segment_id == x) implies first_seen(steps, k).contains(x) by {
            let i = choose|i: int| 0 <= i < k && #[trigger] steps[i].segment_id == x;
            if i < k - 1 {
                assert(prev.contains(x));
            }
        }
    }
}

/// Summed over the distinct nodes of a path, coverage adds up to the
/// path's length in base pairs.
proof fn lemma_coverage_sums_to_length(steps: Seq<PathStep>, lens: Seq<u64>, k: int)
    requires
        0 <= k <= steps.len(),
    ensures
        sum_of(first_seen(steps, k), |x: u64| node_bp(steps, lens, x, k), first_seen(steps, k).len() as int) == path_bp(steps, lens, k),
    decreases k,
{
    if k > 0 {
        lemma_coverage_sums_to_length(steps, lens, k - 1);
        lemma_first_seen_facts(steps, k - 1);
        let prev = first_seen(steps, k - 1);
        let id = steps[k - 1].segment_id;
        let f = |x: u64| node_bp(steps, lens, x, k - 1);
        let g = |x: u64| node_bp(steps, lens, x, k);
        let d = seg_len(lens, id);
        assert forall|x: u64| x != id implies #[trigger] g(x) == f(x) by {}
        if prev.contains(id) {
            lemma_sum_bump(prev, f, g, id, d, prev.len() as int);
            assert(prev.subrange(0, prev.len() as int) =~= prev);
        } else {
            lemma_node_bp_absent(steps, lens, id, k - 1);
            lemma_sum_bump(prev, f, g, id, d, prev.len() as int);
            assert(prev.subrange(0, prev.len() as int) =~= prev);
            lemma_sum_push(prev, id, g);
        }
    }
}

proof fn lemma_node_bp_absent(steps: Seq<PathStep>, lens: Seq<u64>, node: u64, k: int)
    requires
        0 <= k <= steps.len(),
        !first_seen(steps, k).contains(node),
    ensures
        node_bp(steps, lens, node, k) == 0,
    decreases k,
{
    lemma_first_seen_facts(steps, k);
    if k > 0 {
        assert(steps[k - 1].segment_id != node);
        lemma_first_seen_facts(steps, k - 1);
        if first_seen(steps, k - 1).contains(node) {
            let i = choose|i: int| 0 <= i < k - 1 && #[trigger] steps[i].segment_id == node;
            assert(0 <= i < k && steps[i].segment_id == node);
        }
        lemma_node_bp_absent(steps, lens, node, k - 1);
    }
}

/// Dropping nodes does not raise a sum of non-negative terms.
proof fn lemma_kept_sum_le(nodes: Seq<u64>, keep: spec_fn(u64) -> bool, f: spec_fn(u64) -> int, k: int)
    requires
        0 <= k <= nodes.len(),
        forall|x: u64| #[trigger] f(x) >= 0,
    ensures
        0 <= sum_of(kept_nodes(nodes, keep, k), f, kept_nodes(nodes, keep, k).len() as int) <= sum_of(nodes, f, k),
        kept_nodes(nodes, keep, k).len() <= k,
    decreases k,
{
    if k > 0 {
        lemma_kept_sum_le(nodes, keep, f, k - 1);
        let prev = kept_nodes(nodes, keep, k - 1);
        if keep(nodes[k - 1]) {
            lemma_sum_push(prev, nodes[k - 1], f);
        }
    }
}

proof fn lemma_push_contains(s: Seq<u64>, a: u64)
    ensures
        forall|y: u64| #[trigger] s.push(a).contains(y) <==> s.contains(y) || y == a,
{
    assert forall|y: u64| #[trigger] s.push(a).contains(y) <==> s.contains(y) || y == a by {
        if s.push(a).contains(y) && y != a {
            let i = choose|i: int| 0 <= i < s.len() + 1 && s.push(a)[i] == y;
            assert(s[i] == y);
        }
        if s.contains(y) {
            let i = choose|i: int| 0 <= i < s.len() && s[i] == y;
            assert(s.push(a)[i] == y);
        }
        if y == a {
            assert(s.push(a)[s.len() as int] == y);
        }
    }
}

proof fn lemma_kept_facts(nodes: Seq<u64>, keep: spec_fn(u64) -> bool, k: int)
    requires
        0 <= k <= nodes.len(),
        nodes.no_duplicates(),
    ensures
        kept_nodes(nodes, keep, k).no_duplicates(),
        forall|x: u64|
            kept_nodes(nodes, keep, k).contains(x) <==> (keep(x) && exists|i: int| 0 <= i < k && #[trigger] nodes[i] == x),
    decreases k,
{
    if k > 0 {
        lemma_kept_facts(nodes, keep, k - 1);
        let prev = kept_nodes(nodes, keep, k - 1);
        let a = nodes[k - 1];
        if keep(a) {
            assert(!prev.contains(a)) by {
                if prev.contains(a) {
                    let i = choose|i: int| 0 <= i < k - 1 && #[trigger] nodes[i] == a;
                    assert(nodes[i] == nodes[k - 1]);
                }
            }
            assert forall|x: u64| prev.push(a).contains(x) <==> prev.contains(x) || x == a by {
                if prev.push(a).contains(x) && x != a {
                    let i = choose|i: int| 0 <= i < prev.len() + 1 && prev.push(a)[i] == x;
                    assert(prev[i] == x);
                }
                if prev.contains(x) {
                    let i = choose|i: int| 0 <= i < prev.len() && prev[i] == x;
                    assert(prev.push(a)[i] == x);
                }
                if x == a {
                    assert(prev.push(a)[prev.len() as int] == x);
                }
            }
        }
        assert forall|x: u64| kept_nodes(nodes, keep, k).contains(x) implies (keep(x) && exists|i: int| 0 <= i < k && #[trigger] nodes[i] == x) by {
            if prev.contains(x) {
                let i = choose|i: int| 0 <= i < k - 1 && #[trigger] nodes[i] == x;
            } else {
                assert(nodes[k - 1] == x);
            }
        }
        assert forall|x: u64| (keep(x) && exists|i: int| 0 <= i < k && #[trigger] nodes[i] == x) implies kept_nodes(nodes, keep, k).contains(x) by {
            let i = choose|i: int| 0 <= i < k && #[trigger] nodes[i] == x;
            if i < k - 1 {
                assert(prev.contains(x));
            } else {
                assert(kept_nodes(nodes, keep, k).last() == x);
            }
        }
    }
}

/// Restricts each path's coverage to the clustering nodes: all of them, or
/// only those covered differently by some path than by the first.
pub fn filter_coverages(covs: &Vec<Coverage>, use_all_nodes: bool) -> (out: Vec<Coverage>)
    requires
        covs@.len() >= 1,
        forall|p: int| 0 <= p < covs@.len() ==> #[trigger] covs@[p].wf(),
    ensures
        out@.len() == covs@.len(),
        forall|p: int|
            0 <= p < out@.len() ==> #[trigger] out@[p].wf() && (out@[p].nodes@, out@[p].bp@) == filtered(
                covs@[p],
                coverage_maps(covs@),
                use_all_nodes,
            ),
{
    broadcast use vstd::std_specs::hash::group_hash_axioms;

    let ghost maps = coverage_maps(covs@);
    let ghost keep = keeps(maps, use_all_nodes);
    let mut memo: FxHashMap<u64, bool> = fx_new();
    let mut out: Vec<Coverage> = Vec::new();
    let mut p: usize = 0;
    while p < covs.len()
        invariant
            maps == coverage_maps(covs@),
            keep == keeps(maps, use_all_nodes),
            covs@.len() >= 1,
            forall|q: int| 0 <= q < covs@.len() ==> #[trigger] covs@[q].wf(),
            p <= covs@.len(),
            out@.len() == p,
            forall|q: int|
                0 <= q < p ==> #[trigger] out@[q].wf() && (out@[q].nodes@, out@[q].bp@) == filtered(covs@[q], maps, use_all_nodes),
            forall|x: u64| #[trigger] memo@.contains_key(x) ==> memo@[x] == is_variable(maps, x),
        decreases covs@.len() - p,
    {
        let c = &covs[p];
        assert(c.wf());
        let mut nodes: Vec<u64> = Vec::new();
        let mut bp: FxHashMap<u64, u64> = fx_new();
        let mut k: usize = 0;
        proof {
            lemma_kept_facts(c.nodes@, keep, 0);
        }
        while k < c.nodes.len()
            invariant
                maps == coverage_maps(covs@),
                keep == keeps(maps, use_all_nodes),
                covs@.len() >= 1,
                c.wf(),
                k <= c.nodes@.len(),
                nodes@ == kept_nodes(c.nodes@, keep, k as int),
                forall|x: u64| #[trigger] bp@.contains_key(x) <==> nodes@.contains(x),
                forall|x: u64| #[trigger] bp@.contains_key(x) ==> c.bp@.contains_key(x) && bp@[x] == c.bp@[x],
                forall|x: u64| #[trigger] memo@.contains_key(x) ==> memo@[x] == is_variable(maps, x),
            decreases c.nodes@.len() - k,
        {
            let x = c.nodes[k];
            let keep_x = if use_all_nodes {
                true
            } else {
                match fx_get(&memo, &x) {
                    Some(v) => v,
                    None => {
                        let v = node_is_variable(covs, x);
                        fx_insert(&mut memo, x, v);
                        v
                    },
                }
            };
            assert(keep_x == keep(x));
            proof {
                lemma_kept_facts(c.nodes@, keep, k as int + 1);
                assert(c.nodes@.contains(x)) by {
                    assert(c.nodes@[k as int] == x);
                }
            }
            let ghost before = nodes@;
            if keep_x {
                proof {
                    lemma_push_contains(before, x);
                }
                match fx_get(&c.bp, &x) {
                    Some(v) => {
                        fx_insert(&mut bp, x, v);
                    },
                    None => {
                        proof {
                            assert(false);
                        }
                    },
                }
                nodes.push(x);
            }
            k = k + 1;
        }
        proof {
            lemma_kept_facts(c.nodes@, keep, c.nodes@.len() as int);
            let target = c.bp@.restrict(c.bp@.dom().filter(keep));
            assert forall|x: u64| #[trigger] bp@.contains_key(x) <==> target.contains_key(x) by {
                if c.bp@.contains_key(x) && keep(x) {
                    assert(c.nodes@.contains(x));
                    let i = choose|i: int| 0 <= i < c.nodes@.len() && c.nodes@[i] == x;
                    assert(nodes@.contains(x));
                }
            }
            assert(bp@ =~= target);
        }
        out.push(Coverage { nodes, bp });
        p = p + 1;
    }
    out
}

/// Total base pairs of a coverage.
pub fn coverage_total(c: &Coverage) -> (r: u64)
    requires
        c.wf(),
        total_bp(c.nodes@, c.bp@) <= u64::MAX,
    ensures
        r == total_bp(c.nodes@, c.bp@),
{
    broadcast use vstd::std_specs::hash::group_hash_axioms;

    let ghost f = |x: u64| c.bp@[x] as int;
    let mut total: u64 = 0;
    let mut k: usize = 0;
    while k < c.nodes.len()
        invariant
            c.wf(),
            f == (|x: u64| c.bp@[x] as int),
            total_bp(c.nodes@, c.bp@) <= u64::MAX,
            k <= c.nodes@.len(),
            total == sum_of(c.nodes@, f, k as int),
        decreases c.nodes@.len() - k,
    {
        let x = c.nodes[k];
        proof {
            assert(c.nodes@.contains(x)) by {
                assert(c.nodes@[k as int] == x);
            }
            lemma_sum_monotone(c.nodes@, f, k as int + 1, c.nodes@.len() as int);
        }
        match fx_get(&c.bp, &x) {
            Some(v) => {
                total = total + v;
            },
            None => {
                proof {
                    assert(false);
                }
            },
        }
        k = k + 1;
    }
    total
}

/// Partial sums of non-negative terms grow with the prefix.
pub proof fn lemma_sum_monotone(nodes: Seq<u64>, f: spec_fn(u64) -> int, j: int, k: int)
    requires
        0 <= j <= k <= nodes.len(),
        forall|x: u64| #[trigger] f(x) >= 0,
    ensures
        0 <= sum_of(nodes, f, j) <= sum_of(nodes, f, k),
    decreases k,
{
    if j < k {
        lemma_sum_monotone(nodes, f, j, k - 1);
    } else if k > 0 {
        lemma_sum_monotone(nodes, f, k - 1, k - 1);
    }
}

} // verus!
