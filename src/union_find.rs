//! Disjoint-set forest with path compression and union by rank.

use vstd::prelude::*;
use vstd::set_lib::*;
use crate::fxmap::{fx_get, fx_insert, fx_new};
use crate::labels::{canonical, label_bound, num_labels};
use rustc_hash::FxHashMap;

verus! {

/// The indices `i < parent.len()` that are their own parent.
pub open spec fn root_set(parent: Seq<usize>) -> Set<int> {
    Set::new(|i: int| 0 <= i < parent.len() && parent[i] == i)
}

/// Well-formed forest: `root` gives each element's root, ranks grow
/// strictly towards the root and never exceed the number of merges, and
/// merges plus roots account for every element.
#[verifier::opaque]
pub open spec fn forest_wf(parent: Seq<usize>, rank: Seq<usize>, root: Seq<usize>, merges: nat) -> bool {
    let n = parent.len();
    &&& rank.len() == n
    &&& root.len() == n
    &&& forall|i: int|
        #![trigger parent[i]]
        #![trigger root[i]]
        0 <= i < n ==> {
            &&& parent[i] < n
            &&& root[i] < n
            &&& parent[root[i] as int] == root[i]
            &&& root[parent[i] as int] == root[i]
            &&& (parent[i] == i ==> root[i] == i)
            &&& (parent[i] != i ==> rank[i] < rank[parent[i] as int])
            &&& rank[i] <= rank[root[i] as int]
            &&& (parent[i] != i ==> rank[i] < rank[root[i] as int])
            &&& rank[i] <= merges
        }
    &&& root_set(parent).finite()
    &&& merges + root_set(parent).len() == n
}

/// Linking root `loser` under root `winner` keeps the forest well formed.
proof fn lemma_link(
    parent: Seq<usize>,
    rank: Seq<usize>,
    root: Seq<usize>,
    merges: nat,
    winner: usize,
    loser: usize,
    new_rank: Seq<usize>,
)
    requires
        forest_wf(parent, rank, root, merges),
        winner < parent.len(),
        loser < parent.len(),
        winner != loser,
        parent[winner as int] == winner,
        parent[loser as int] == loser,
        rank[loser as int] <= rank[winner as int],
        new_rank.len() == rank.len(),
        forall|i: int| 0 <= i < rank.len() && i != winner ==> new_rank[i] == rank[i],
        new_rank[winner as int] == rank[winner as int]
            || (rank[winner as int] == rank[loser as int] && new_rank[winner as int] == rank[winner as int] + 1),
        new_rank[winner as int] > rank[loser as int],
        new_rank[winner as int] <= merges + 1,
    ensures
        forest_wf(
            parent.update(loser as int, winner),
            new_rank,
            root.map_values(|v: usize| if v == loser { winner } else { v }),
            merges + 1,
        ),
{
    reveal(forest_wf);
    let np = parent.update(loser as int, winner);
    let nr = root.map_values(|v: usize| if v == loser { winner } else { v });
    assert(root_set(np) =~= root_set(parent).remove(loser as int));
    assert forall|i: int| 0 <= i < np.len() implies {
        &&& np[i] < np.len()
        &&& nr[i] < np.len()
        &&& np[nr[i] as int] == nr[i]
        &&& nr[np[i] as int] == nr[i]
        &&& (np[i] == i ==> nr[i] == i)
        &&& (np[i] != i ==> new_rank[i] < new_rank[np[i] as int])
        &&& new_rank[i] <= new_rank[nr[i] as int]
        &&& (np[i] != i ==> new_rank[i] < new_rank[nr[i] as int])
        &&& new_rank[i] <= merges + 1
    } by {
        assert(root[winner as int] == winner);
        assert(root[loser as int] == loser);
        assert(rank[root[i] as int] <= new_rank[nr[i] as int]);
    }
}

/// What a well-formed forest says of the root of `x`.
proof fn lemma_root_facts(parent: Seq<usize>, rank: Seq<usize>, root: Seq<usize>, merges: nat, x: int)
    requires
        forest_wf(parent, rank, root, merges),
        0 <= x < parent.len(),
    ensures
        rank.len() == parent.len(),
        root.len() == parent.len(),
        root[x] < parent.len(),
        parent[root[x] as int] == root[x],
        root[root[x] as int] == root[x],
        rank[root[x] as int] <= merges,
        root_set(parent).finite(),
        root_set(parent).contains(root[x] as int),
        merges + root_set(parent).len() == parent.len(),
{
    reveal(forest_wf);
    let r = root[x] as int;
    assert(parent[r] == r);
}

/// Disjoint sets over `0..n`.
pub struct UnionFind {
    parent: Vec<usize>,
    rank: Vec<usize>,
    /// The representative (root) of each element.
    root: Ghost<Seq<usize>>,
    /// The number of unions that joined two different sets.
    merges: Ghost<nat>,
}

impl UnionFind {
    /// Number of elements.
    pub closed spec fn size(&self) -> nat {
        self.parent@.len()
    }

    /// The representative of each element; two elements are in one set
    /// exactly when their representatives are equal.
    pub closed spec fn rep(&self) -> Seq<usize> {
        self.root@
    }

    pub closed spec fn wf(&self) -> bool {
        forest_wf(self.parent@, self.rank@, self.root@, self.merges@)
    }

    /// `n` singleton sets.
    pub fn new(n: usize) -> (uf: UnionFind)
        ensures
            uf.wf(),
            uf.size() == n,
            uf.rep().len() == n,
            forall|i: int| 0 <= i < n ==> #[trigger] uf.rep()[i] == i,
    {
        let mut parent: Vec<usize> = Vec::new();
        let mut rank: Vec<usize> = Vec::new();
        let mut i: usize = 0;
        while i < n
            invariant
                i <= n,
                parent@.len() == i,
                rank@.len() == i,
                forall|k: int| 0 <= k < i ==> #[trigger] parent@[k] == k && rank@[k] == 0,
            decreases n - i,
        {
            parent.push(i);
            rank.push(0);
            i = i + 1;
        }
        let ghost root = parent@;
        proof {
            reveal(forest_wf);
            lemma_int_range(0, n as int);
            assert(root_set(parent@) =~= set_int_range(0, n as int));
        }
        UnionFind { parent, rank, root: Ghost(root), merges: Ghost(0) }
    }

    fn find_root(&mut self, x: usize) -> (r: usize)
        requires
            old(self).wf(),
            x < old(self).size(),
        ensures
            final(self).wf(),
            final(self).root@ == old(self).root@,
            final(self).rank@ == old(self).rank@,
            final(self).merges@ == old(self).merges@,
            final(self).parent@.len() == old(self).parent@.len(),
            r == old(self).root@[x as int],
        decreases usize::MAX - old(self).rank@[x as int],
    {
        proof {
            reveal(forest_wf);
        }
        let p = self.parent[x];
        if p != x {
            let r = self.find_root(p);
            let ghost before = self.parent@;
            self.parent.set(x, r);
            proof {
                reveal(forest_wf);
                assert(root_set(self.parent@) =~= root_set(before));
            }
            r
        } else {
            x
        }
    }

    /// The representative of `x`, compressing the path to it.
    pub fn find(&mut self, x: usize) -> (r: usize)
        requires
            old(self).wf(),
            x < old(self).size(),
        ensures
            final(self).wf(),
            final(self).size() == old(self).size(),
            final(self).rep() == old(self).rep(),
            final(self).rep().len() == final(self).size(),
            r == old(self).rep()[x as int],
    {
        proof {
            reveal(forest_wf);
        }
        self.find_root(x)
    }

    /// Joins the sets of `x` and `y`; the root of higher rank stays root.
    pub fn union(&mut self, x: usize, y: usize)
        requires
            old(self).wf(),
            x < old(self).size(),
            y < old(self).size(),
        ensures
            final(self).wf(),
            final(self).size() == old(self).size(),
            final(self).rep().len() == final(self).size(),
            final(self).rep()[x as int] == old(self).rep()[x as int]
                || final(self).rep()[x as int] == old(self).rep()[y as int],
            forall|i: int|
                0 <= i < old(self).size() ==> {
                    let was = #[trigger] old(self).rep()[i];
                    if was == old(self).rep()[x as int] || was == old(self).rep()[y as int] {
                        final(self).rep()[i] == final(self).rep()[x as int]
                    } else {
                        final(self).rep()[i] == was
                    }
                },
    {
        let px = self.find(x);
        let py = self.find(y);
        proof {
            reveal(forest_wf);
        }
        if px != py {
            let ghost old_parent = self.parent@;
            let ghost old_rank = self.rank@;
            let ghost old_root = self.root@;
            let ghost m = self.merges@;
            let n = self.parent.len();
            proof {
                lemma_root_facts(old_parent, old_rank, old_root, m, x as int);
                lemma_root_facts(old_parent, old_rank, old_root, m, y as int);
                let s = root_set(old_parent);
                assert(s.remove(px as int).contains(py as int));
                assert(s.remove(px as int).len() >= 1);
            }
            let rx = self.rank[px];
            let ry = self.rank[py];
            let (winner, loser) = if rx < ry {
                (py, px)
            } else {
                (px, py)
            };
            self.parent.set(loser, winner);
            if rx == ry {
                self.rank.set(px, rx + 1);
            }
            proof {
                lemma_link(old_parent, old_rank, old_root, m, winner, loser, self.rank@);
            }
            self.root = Ghost(old_root.map_values(|v: usize| if v == loser { winner } else { v }));
            self.merges = Ghost(m + 1);
            proof {
                assert(self.root@[x as int] == winner);
                assert forall|i: int| 0 <= i < n implies {
                    let was = #[trigger] old_root[i];
                    if was == old_root[x as int] || was == old_root[y as int] {
                        self.root@[i] == self.root@[x as int]
                    } else {
                        self.root@[i] == was
                    }
                } by {}
            }
        }
    }

    /// Numbers the sets `0, 1, 2, ...` in order of their first element.
    fn label_roots(&mut self) -> (r: (Vec<usize>, usize))
        requires
            old(self).wf(),
        ensures
            final(self).wf(),
            final(self).size() == old(self).size(),
            final(self).rep() == old(self).rep(),
            r.0@.len() == old(self).size(),
            canonical(r.0@),
            r.1 == num_labels(r.0@),
            forall|a: int, b: int|
                0 <= a < r.0@.len() && 0 <= b < r.0@.len() ==> (#[trigger] r.0@[a] == #[trigger] r.0@[b]
                    <==> old(self).rep()[a] == old(self).rep()[b]),
    {
        broadcast use vstd::std_specs::hash::group_hash_axioms;

        let n = self.parent.len();
        let ghost rep = self.root@;
        proof {
            reveal(forest_wf);
        }
        let mut root_to_cluster: FxHashMap<usize, usize> = fx_new();
        let mut ids: Vec<usize> = Vec::new();
        let mut next_cluster: usize = 0;
        let mut i: usize = 0;
        while i < n
            invariant
                self.wf(),
                self.parent@.len() == n,
                self.root@ == rep,
                rep.len() == n,
                i <= n,
                ids@.len() == i,
                canonical(ids@),
                next_cluster == label_bound(ids@, i as int),
                next_cluster <= i,
                forall|a: int|
                    0 <= a < i ==> root_to_cluster@.contains_key(#[trigger] rep[a])
                        && root_to_cluster@[rep[a]] == ids@[a],
                forall|r: usize|
                    #[trigger] root_to_cluster@.contains_key(r) ==> root_to_cluster@[r] < next_cluster,
                forall|r1: usize, r2: usize|
                    #[trigger] root_to_cluster@.contains_key(r1) && #[trigger] root_to_cluster@.contains_key(r2)
                        && root_to_cluster@[r1] == root_to_cluster@[r2] ==> r1 == r2,
            decreases n - i,
        {
            let root = self.find(i);
            let ghost before = ids@;
            let ghost map_before = root_to_cluster@;
            match fx_get(&root_to_cluster, &root) {
                Some(c) => {
                    ids.push(c);
                    proof {
                        lemma_push_canonical(before, c);
                    }
                },
                None => {
                    fx_insert(&mut root_to_cluster, root, next_cluster);
                    ids.push(next_cluster);
                    proof {
                        lemma_push_canonical(before, next_cluster);
                        assert forall|a: int| 0 <= a < i + 1 implies root_to_cluster@.contains_key(#[trigger] rep[a])
                            && root_to_cluster@[rep[a]] == ids@[a] by {
                            if a < i {
                                assert(map_before.contains_key(rep[a]));
                                assert(rep[a] != root);
                            }
                        }
                    }
                    next_cluster = next_cluster + 1;
                },
            }
            i = i + 1;
        }
        proof {
            assert forall|a: int, b: int|
                0 <= a < ids@.len() && 0 <= b < ids@.len() implies (#[trigger] ids@[a] == #[trigger] ids@[b]
                    <==> rep[a] == rep[b]) by {
                assert(root_to_cluster@.contains_key(rep[a]));
                assert(root_to_cluster@.contains_key(rep[b]));
            }
        }
        (ids, next_cluster)
    }

    /// Canonical cluster ids: equal exactly for elements of one set, and
    /// numbered in order of first appearance.
    pub fn cluster_ids(&mut self) -> (ids: Vec<usize>)
        requires
            old(self).wf(),
        ensures
            final(self).wf(),
            final(self).size() == old(self).size(),
            final(self).rep() == old(self).rep(),
            ids@.len() == old(self).size(),
            canonical(ids@),
            forall|a: int, b: int|
                0 <= a < ids@.len() && 0 <= b < ids@.len() ==> (#[trigger] ids@[a] == #[trigger] ids@[b]
                    <==> old(self).rep()[a] == old(self).rep()[b]),
    {
        let (ids, _) = self.label_roots();
        ids
    }

    /// The number of sets.
    pub fn count_clusters(&mut self) -> (r: usize)
        requires
            old(self).wf(),
        ensures
            final(self).wf(),
            final(self).size() == old(self).size(),
            final(self).rep() == old(self).rep(),
            exists|ids: Seq<usize>|
                {
                    &&& ids.len() == old(self).size()
                    &&& canonical(ids)
                    &&& r == num_labels(ids)
                    &&& forall|a: int, b: int|
                        0 <= a < ids.len() && 0 <= b < ids.len() ==> (#[trigger] ids[a] == #[trigger] ids[b]
                            <==> old(self).rep()[a] == old(self).rep()[b])
                },
    {
        let (ids, count) = self.label_roots();
        count
    }
}

/// Appending a label that is old or the next unused one keeps a labeling
/// canonical.
proof fn lemma_push_canonical(before: Seq<usize>, v: usize)
    requires
        canonical(before),
        v <= label_bound(before, before.len() as int),
    ensures
        canonical(before.push(v)),
        label_bound(before.push(v), before.len() + 1 as int) == if v + 1 > label_bound(before, before.len() as int) {
            v + 1
        } else {
            label_bound(before, before.len() as int)
        },
{
    let ids = before.push(v);
    let i = before.len() as int;
    assert forall|k: int| 0 <= k <= i implies label_bound(ids, k) == label_bound(before, k) by {
        lemma_label_bound_prefix(ids, before, k);
    }
    assert forall|k: int| 0 <= k < ids.len() implies #[trigger] ids[k] <= label_bound(ids, k) by {
        if k < i {
            assert(before[k] <= label_bound(before, k));
        }
    }
}

/// `label_bound` of a prefix depends on the prefix alone.
proof fn lemma_label_bound_prefix(ids: Seq<usize>, prefix: Seq<usize>, k: int)
    requires
        0 <= k <= prefix.len() <= ids.len(),
        forall|j: int| 0 <= j < prefix.len() ==> ids[j] == prefix[j],
    ensures
        label_bound(ids, k) == label_bound(prefix, k),
    decreases k,
{
    if k > 0 {
        lemma_label_bound_prefix(ids, prefix, k - 1);
    }
}

} // verus!
