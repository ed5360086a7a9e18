//! The two flat tables of a clustering: one row per path, one per cluster.

use vstd::prelude::*;
use vstd::string::StringExecFns;
use crate::coverage::GfaPath;
use crate::pipeline::ClusteringResult;

verus! {

/// The decimal digit of `d < 10`.
pub open spec fn digit_char(d: nat) -> char {
    if d == 0 { '0' }
    else if d == 1 { '1' }
    else if d == 2 { '2' }
    else if d == 3 { '3' }
    else if d == 4 { '4' }
    else if d == 5 { '5' }
    else if d == 6 { '6' }
    else if d == 7 { '7' }
    else if d == 8 { '8' }
    else { '9' }
}

/// `n` in decimal, without leading zeros.
pub open spec fn decimal(n: nat) -> Seq<char>
    decreases n,
{
    if n < 10 {
        seq![digit_char(n)]
    } else {
        decimal(n / 10).push(digit_char(n % 10))
    }
}

fn digit(d: usize) -> (c: char)
    requires
        d < 10,
    ensures
        c == digit_char(d as nat),
{
    if d == 0 { '0' }
    else if d == 1 { '1' }
    else if d == 2 { '2' }
    else if d == 3 { '3' }
    else if d == 4 { '4' }
    else if d == 5 { '5' }
    else if d == 6 { '6' }
    else if d == 7 { '7' }
    else if d == 8 { '8' }
    else { '9' }
}

/// `n` in decimal.
fn decimal_string(n: usize) -> (r: String)
    ensures
        r@ == decimal(n as nat),
    decreases n,
{
    if n < 10 {
        let mut s = String::new();
        crate::csv::push_char(&mut s, digit(n));
        assert(s@ =~= seq![digit_char(n as nat)]);
        s
    } else {
        let mut s = decimal_string(n / 10);
        crate::csv::push_char(&mut s, digit(n % 10));
        s
    }
}

pub open spec fn cluster_header() -> Seq<char> {
    "path.name\tcluster\n"@
}

pub open spec fn medoid_header() -> Seq<char> {
    "cluster\tmedoid.path\tcluster.size\n"@
}

/// Row of the path table: name, tab, cluster id, newline.
pub open spec fn cluster_row(name: Seq<char>, cluster_id: usize) -> Seq<char> {
    name + seq!['\t'] + decimal(cluster_id as nat) + seq!['\n']
}

/// Rows `0..k` of the path table.
pub open spec fn cluster_rows(paths: Seq<GfaPath>, cluster_ids: Seq<usize>, k: int) -> Seq<char>
    decreases k,
{
    if k <= 0 {
        Seq::empty()
    } else {
        cluster_rows(paths, cluster_ids, k - 1) + cluster_row(paths[k - 1].name@, cluster_ids[k - 1])
    }
}

/// Row of the cluster table: cluster id, medoid name, size.
pub open spec fn medoid_row(cluster_id: nat, name: Seq<char>, size: usize) -> Seq<char> {
    decimal(cluster_id) + seq!['\t'] + name + seq!['\t'] + decimal(size as nat) + seq!['\n']
}

/// Rows `0..k` of the cluster table.
pub open spec fn medoid_rows(paths: Seq<GfaPath>, representatives: Seq<usize>, sizes: Seq<usize>, k: int) -> Seq<char>
    decreases k,
{
    if k <= 0 {
        Seq::empty()
    } else {
        medoid_rows(paths, representatives, sizes, k - 1) + medoid_row(
            (k - 1) as nat,
            paths[representatives[k - 1] as int].name@,
            sizes[k - 1],
        )
    }
}

/// The path table: a header, then for each displayed path its name and
/// the cluster id at its display position.
pub fn cluster_tsv(display_paths: &Vec<GfaPath>, cluster_result: &ClusteringResult) -> (content: String)
    requires
        cluster_result.cluster_ids@.len() >= display_paths@.len(),
    ensures
        content@ == cluster_header() + cluster_rows(display_paths@, cluster_result.cluster_ids@, display_paths@.len() as int),
{
    let mut content = String::from_str("path.name\tcluster\n");
    let mut path_idx: usize = 0;
    while path_idx < display_paths.len()
        invariant
            cluster_result.cluster_ids@.len() >= display_paths@.len(),
            path_idx <= display_paths@.len(),
            content@ == cluster_header() + cluster_rows(display_paths@, cluster_result.cluster_ids@, path_idx as int),
        decreases display_paths@.len() - path_idx,
    {
        let path = &display_paths[path_idx];
        let cluster_id = cluster_result.cluster_ids[path_idx];
        content.append(path.name.as_str());
        content.append("\t");
        let id = decimal_string(cluster_id);
        content.append(id.as_str());
        content.append("\n");
        proof {
            reveal_strlit("\t");
            reveal_strlit("\n");
            let prev = cluster_header() + cluster_rows(display_paths@, cluster_result.cluster_ids@, path_idx as int);
            assert(content@ =~= prev + cluster_row(path.name@, cluster_id));
        }
        path_idx = path_idx + 1;
    }
    content
}

/// The cluster table: a header, then for each cluster its id, the name of
/// its medoid among `clustered_paths` (in input order), and its size.
pub fn medoids_tsv(clustered_paths: &Vec<GfaPath>, cluster_result: &ClusteringResult) -> (content: String)
    requires
        cluster_result.cluster_sizes@.len() == cluster_result.representatives@.len(),
        forall|r: int|
            0 <= r < cluster_result.representatives@.len() ==> #[trigger] cluster_result.representatives@[r]
                < clustered_paths@.len(),
    ensures
        content@ == medoid_header() + medoid_rows(
            clustered_paths@,
            cluster_result.representatives@,
            cluster_result.cluster_sizes@,
            cluster_result.representatives@.len() as int,
        ),
{
    let mut content = String::from_str("cluster\tmedoid.path\tcluster.size\n");
    let mut cluster_id: usize = 0;
    while cluster_id < cluster_result.representatives.len()
        invariant
            cluster_result.cluster_sizes@.len() == cluster_result.representatives@.len(),
            forall|r: int|
                0 <= r < cluster_result.representatives@.len() ==> #[trigger] cluster_result.representatives@[r]
                    < clustered_paths@.len(),
            cluster_id <= cluster_result.representatives@.len(),
            content@ == medoid_header() + medoid_rows(
                clustered_paths@,
                cluster_result.representatives@,
                cluster_result.cluster_sizes@,
                cluster_id as int,
            ),
        decreases cluster_result.representatives@.len() - cluster_id,
    {
        let medoid_idx = cluster_result.representatives[cluster_id];
        let size = cluster_result.cluster_sizes[cluster_id];
        let medoid_name = &clustered_paths[medoid_idx].name;
        let ghost prev = content@;
        let id = decimal_string(cluster_id);
        content.append(id.as_str());
        content.append("\t");
        content.append(medoid_name.as_str());
        content.append("\t");
        let sz = decimal_string(size);
        content.append(sz.as_str());
        content.append("\n");
        proof {
            reveal_strlit("\t");
            reveal_strlit("\n");
            assert(content@ =~= prev + medoid_row(cluster_id as nat, medoid_name@, size));
        }
        cluster_id = cluster_id + 1;
    }
    content
}

/// Occurrences of `c` in `s`.
pub open spec fn count_char(s: Seq<char>, c: char) -> nat
    decreases s.len(),
{
    if s.len() == 0 {
        0
    } else {
        count_char(s.drop_last(), c) + if s.last() == c {
            1nat
        } else {
            0nat
        }
    }
}

proof fn lemma_count_concat(a: Seq<char>, b: Seq<char>, c: char)
    ensures
        count_char(a + b, c) == count_char(a, c) + count_char(b, c),
    decreases b.len(),
{
    if b.len() > 0 {
        assert((a + b).drop_last() =~= a + b.drop_last());
        lemma_count_concat(a, b.drop_last(), c);
    } else {
        assert(a + b =~= a);
    }
}

proof fn lemma_count_absent(s: Seq<char>, c: char)
    requires
        forall|i: int| 0 <= i < s.len() ==> s[i] != c,
    ensures
        count_char(s, c) == 0,
    decreases s.len(),
{
    if s.len() > 0 {
        lemma_count_absent(s.drop_last(), c);
    }
}

proof fn lemma_decimal_no_newline(n: nat)
    ensures
        count_char(decimal(n), '\n') == 0,
    decreases n,
{
    if n >= 10 {
        lemma_decimal_no_newline(n / 10);
        assert(decimal(n).drop_last() =~= decimal(n / 10));
        assert(decimal(n).last() == digit_char(n % 10));
        assert(digit_char(n % 10) != '\n');
    } else {
        assert(seq![digit_char(n)].drop_last() =~= Seq::<char>::empty());
        assert(digit_char(n) != '\n');
        assert(count_char(Seq::<char>::empty(), '\n') == 0);
    }
}

proof fn lemma_rows_lines(paths: Seq<GfaPath>, cluster_ids: Seq<usize>, k: int)
    requires
        0 <= k <= paths.len(),
        k <= cluster_ids.len(),
        forall|i: int| 0 <= i < paths.len() ==> count_char(#[trigger] paths[i].name@, '\n') == 0,
    ensures
        count_char(cluster_rows(paths, cluster_ids, k), '\n') == k,
    decreases k,
{
    if k > 0 {
        lemma_rows_lines(paths, cluster_ids, k - 1);
        let name = paths[k - 1].name@;
        let id = decimal(cluster_ids[k - 1] as nat);
        lemma_decimal_no_newline(cluster_ids[k - 1] as nat);
        lemma_count_concat(name, seq!['\t'], '\n');
        lemma_count_concat(name + seq!['\t'], id, '\n');
        lemma_count_concat(name + seq!['\t'] + id, seq!['\n'], '\n');
        assert(seq!['\t'].drop_last() =~= Seq::<char>::empty());
        assert(seq!['\n'].drop_last() =~= Seq::<char>::empty());
        assert(count_char(Seq::<char>::empty(), '\n') == 0);
        assert(count_char(seq!['\t'], '\n') == 0);
        assert(count_char(seq!['\n'], '\n') == 1);
        lemma_count_concat(cluster_rows(paths, cluster_ids, k - 1), cluster_row(name, cluster_ids[k - 1]), '\n');
    }
}

/// The path table of `n` paths has `n + 1` lines, a header and one row
/// per path, when no path name holds a line break.
pub proof fn lemma_cluster_tsv_lines(paths: Seq<GfaPath>, cluster_ids: Seq<usize>)
    requires
        cluster_ids.len() >= paths.len(),
        forall|i: int| 0 <= i < paths.len() ==> count_char(#[trigger] paths[i].name@, '\n') == 0,
    ensures
        count_char(cluster_header() + cluster_rows(paths, cluster_ids, paths.len() as int), '\n') == paths.len() + 1,
{
    lemma_rows_lines(paths, cluster_ids, paths.len() as int);
    lemma_count_concat(cluster_header(), cluster_rows(paths, cluster_ids, paths.len() as int), '\n');
    reveal_strlit("path.name\tcluster\n");
    let h = cluster_header();
    assert(h.len() == 18);
    let body = h.subrange(0, 17);
    assert forall|i: int| 0 <= i < body.len() implies body[i] != '\n' by {
        assert(body[i] == h[i]);
    }
    lemma_count_absent(body, '\n');
    assert(h =~= body + seq!['\n']);
    lemma_count_concat(body, seq!['\n'], '\n');
    assert(seq!['\n'].drop_last() =~= Seq::<char>::empty());
}

} // verus!
