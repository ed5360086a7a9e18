//! Grouping paths by name prefix.

use vstd::prelude::*;
use vstd::string::StrSliceExecFns;

verus! {

/// `s` begins with `p`.
pub open spec fn starts_with(s: Seq<char>, p: Seq<char>) -> bool {
    p.len() <= s.len() && s.subrange(0, p.len() as int) == p
}

/// Whether `s` begins with `p`.
pub fn has_prefix(s: &str, p: &str) -> (r: bool)
    ensures
        r == starts_with(s@, p@),
{
    let n = s.unicode_len();
    let m = p.unicode_len();
    if m > n {
        return false;
    }
    let mut i: usize = 0;
    while i < m
        invariant
            n == s@.len(),
            m == p@.len(),
            m <= n,
            i <= m,
            forall|k: int| 0 <= k < i ==> s@[k] == p@[k],
        decreases m - i,
    {
        if s.get_char(i) != p.get_char(i) {
            assert(s@.subrange(0, m as int)[i as int] != p@[i as int]);
            return false;
        }
        i = i + 1;
    }
    assert(s@.subrange(0, m as int) =~= p@);
    true
}

pub open spec fn views(v: Seq<String>) -> Seq<Seq<char>> {
    v.map_values(|s: String| s@)
}

/// The lines of `lines[0..k]` that occurred before them: (first
/// occurrences, repeats).
pub open spec fn split_repeats(lines: Seq<Seq<char>>, k: int) -> (Seq<Seq<char>>, Seq<Seq<char>>)
    decreases k,
{
    if k <= 0 {
        (Seq::empty(), Seq::empty())
    } else {
        let (firsts, repeats) = split_repeats(lines, k - 1);
        if firsts.contains(lines[k - 1]) {
            (firsts, repeats.push(lines[k - 1]))
        } else {
            (firsts.push(lines[k - 1]), repeats)
        }
    }
}

/// Splits prefix lines into their first occurrences, in order, and the
/// repeated lines.
pub fn distinct_prefixes(lines: &Vec<String>) -> (r: (Vec<String>, Vec<String>))
    ensures
        (views(r.0@), views(r.1@)) == split_repeats(views(lines@), lines@.len() as int),
{
    let mut firsts: Vec<String> = Vec::new();
    let mut repeats: Vec<String> = Vec::new();
    let mut k: usize = 0;
    while k < lines.len()
        invariant
            k <= lines@.len(),
            (views(firsts@), views(repeats@)) == split_repeats(views(lines@), k as int),
        decreases lines@.len() - k,
    {
        let line = &lines[k];
        let mut seen = false;
        let mut j: usize = 0;
        while j < firsts.len()
            invariant
                j <= firsts@.len(),
                seen == exists|q: int| 0 <= q < j && views(firsts@)[q] == line@,
            decreases firsts@.len() - j,
        {
            assert(views(firsts@)[j as int] == firsts@[j as int]@);
            if firsts[j] == *line {
                seen = true;
            }
            proof {
                if seen && !(exists|q: int| 0 <= q < j && views(firsts@)[q] == line@) {
                    assert(views(firsts@)[j as int] == line@);
                }
            }
            j = j + 1;
        }
        let ghost before = (views(firsts@), views(repeats@));
        assert(views(lines@)[k as int] == line@);
        if seen {
            repeats.push(line.clone());
            proof {
                let q = choose|q: int| 0 <= q < firsts@.len() && views(firsts@)[q] == line@;
                assert(before.0.contains(line@)) by {
                    assert(before.0[q] == line@);
                }
                assert(views(repeats@) =~= before.1.push(line@));
            }
        } else {
            firsts.push(line.clone());
            proof {
                assert(!before.0.contains(line@)) by {
                    if before.0.contains(line@) {
                        let q = choose|q: int| 0 <= q < before.0.len() && before.0[q] == line@;
                        assert(views(firsts@)[q] == line@);
                    }
                }
                assert(views(firsts@) =~= before.0.push(line@));
            }
        }
        k = k + 1;
    }
    (firsts, repeats)
}

/// The first `i >= k` with `name` starting with `ps[i]`, or -1.
pub open spec fn first_match_from(ps: Seq<Seq<char>>, name: Seq<char>, k: int) -> int
    decreases ps.len() - k,
{
    if k < 0 || k >= ps.len() {
        -1
    } else if starts_with(name, ps[k]) {
        k
    } else {
        first_match_from(ps, name, k + 1)
    }
}

/// Group of each of `names[0..k]` and the prefixes in group order: a path
/// joins the first group whose prefix it starts with, else opens a group
/// with the first listed prefix it starts with, else gets -1.
pub open spec fn grouping(names: Seq<Seq<char>>, prefixes: Seq<Seq<char>>, k: int) -> (Seq<i64>, Seq<Seq<char>>)
    decreases k,
{
    if k <= 0 {
        (Seq::empty(), Seq::empty())
    } else {
        let (groups, used) = grouping(names, prefixes, k - 1);
        let name = names[k - 1];
        let hit = first_match_from(used, name, 0);
        if hit >= 0 {
            (groups.push(hit as i64), used)
        } else {
            let p = first_match_from(prefixes, name, 0);
            if p >= 0 {
                (groups.push(used.len() as i64), used.push(prefixes[p]))
            } else {
                (groups.push(-1i64), used)
            }
        }
    }
}

proof fn lemma_first_match_bounds(ps: Seq<Seq<char>>, name: Seq<char>, k: int)
    requires
        0 <= k,
    ensures
        first_match_from(ps, name, k) == -1 || (k <= first_match_from(ps, name, k) < ps.len()),
    decreases ps.len() - k,
{
    if k < ps.len() && !starts_with(name, ps[k]) {
        lemma_first_match_bounds(ps, name, k + 1);
    }
}

/// The index of the first of `ps` that `name` starts with.
pub fn first_match(ps: &Vec<String>, name: &str) -> (r: Option<usize>)
    ensures
        match r {
            Some(i) => i == first_match_from(views(ps@), name@, 0),
            None => first_match_from(views(ps@), name@, 0) == -1,
        },
{
    let mut i: usize = 0;
    while i < ps.len()
        invariant
            i <= ps@.len(),
            first_match_from(views(ps@), name@, 0) == first_match_from(views(ps@), name@, i as int),
        decreases ps@.len() - i,
    {
        assert(views(ps@)[i as int] == ps@[i as int]@);
        if has_prefix(name, ps[i].as_str()) {
            return Some(i);
        }
        i = i + 1;
    }
    None
}

/// Result of grouping paths by prefix.
pub struct PathGrouping {
    /// For each path, its group index (-1 if not grouped).
    pub path_to_group: Vec<i64>,
    /// The prefixes that name a group, in group order.
    pub prefixes: Vec<String>,
    pub num_groups: usize,
}

/// Groups paths by the first matching prefix, groups numbered in order of
/// first use.
pub fn group_paths_by_prefix(names: &Vec<String>, prefixes: &Vec<String>) -> (g: PathGrouping)
    requires
        names@.len() < i64::MAX,
    ensures
        (g.path_to_group@, views(g.prefixes@)) == grouping(views(names@), views(prefixes@), names@.len() as int),
        g.num_groups == g.prefixes@.len(),
{
    let mut path_to_group: Vec<i64> = Vec::new();
    let mut used: Vec<String> = Vec::new();
    let mut k: usize = 0;
    while k < names.len()
        invariant
            names@.len() < i64::MAX,
            k <= names@.len(),
            used@.len() <= k,
            (path_to_group@, views(used@)) == grouping(views(names@), views(prefixes@), k as int),
        decreases names@.len() - k,
    {
        let name = names[k].as_str();
        assert(views(names@)[k as int] == name@);
        proof {
            lemma_first_match_bounds(views(used@), name@, 0);
            lemma_first_match_bounds(views(prefixes@), name@, 0);
        }
        match first_match(&used, name) {
            Some(g) => {
                path_to_group.push(g as i64);
            },
            None => match first_match(prefixes, name) {
                Some(p) => {
                    let ghost before = views(used@);
                    path_to_group.push(used.len() as i64);
                    used.push(prefixes[p].clone());
                    proof {
                        assert(views(prefixes@)[p as int] == prefixes@[p as int]@);
                        assert(views(used@) =~= before.push(views(prefixes@)[p as int]));
                    }
                },
                None => {
                    path_to_group.push(-1);
                },
            },
        }
        k = k + 1;
    }
    let num_groups = used.len();
    PathGrouping { path_to_group, prefixes: used, num_groups }
}

} // verus!
