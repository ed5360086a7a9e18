//! The step lists of GFA path (`P`) and walk (`W`) lines.

use vstd::prelude::*;
use vstd::string::{StrSliceExecFns, StringExecFns};
use crate::coverage::{GfaPath, PathStep};
use crate::csv::{trim_to_string, trimmed};
use crate::names::{canonical_edge, edge_key};

verus! {

pub open spec fn is_marker(c: char) -> bool {
    c == '>' || c == '<'
}

/// First index `>= i` holding `>` or `<`, or the length.
pub open spec fn next_marker(s: Seq<char>, i: int) -> int
    decreases s.len() - i,
{
    if i < 0 || i >= s.len() {
        s.len() as int
    } else if is_marker(s[i]) {
        i
    } else {
        next_marker(s, i + 1)
    }
}

/// The steps of a walk from position `i`: each `>name` or `<name` is a
/// step on `name`, reversed for `<`; empty names are skipped, and so is
/// text before the first marker.
pub open spec fn walk_steps_from(s: Seq<char>, i: int) -> Seq<(Seq<char>, bool)>
    decreases s.len() - i,
{
    if i < 0 || i >= s.len() {
        Seq::empty()
    } else if is_marker(s[i]) {
        let j = next_marker(s, i + 1);
        let name = s.subrange(i + 1, j);
        let rest = if i < j <= s.len() {
            walk_steps_from(s, j)
        } else {
            Seq::empty()
        };
        if name.len() > 0 {
            seq![(name, s[i] == '<')] + rest
        } else {
            rest
        }
    } else {
        walk_steps_from(s, i + 1)
    }
}

pub open spec fn step_views(v: Seq<(String, bool)>) -> Seq<(Seq<char>, bool)> {
    v.map_values(|p: (String, bool)| (p.0@, p.1))
}

proof fn lemma_next_marker(s: Seq<char>, i: int)
    requires
        0 <= i <= s.len(),
    ensures
        i <= next_marker(s, i) <= s.len(),
        forall|k: int| i <= k < next_marker(s, i) ==> !is_marker(#[trigger] s[k]),
        next_marker(s, i) < s.len() ==> is_marker(s[next_marker(s, i)]),
    decreases s.len() - i,
{
    if i < s.len() && !is_marker(s[i]) {
        lemma_next_marker(s, i + 1);
    }
}

/// The steps of a `W` line's walk, as segment names and strands.
pub fn parse_walk(walk: &str) -> (steps: Vec<(String, bool)>)
    ensures
        step_views(steps@) == walk_steps_from(walk@, 0),
{
    let len = walk.unicode_len();
    let mut steps: Vec<(String, bool)> = Vec::new();
    let mut i: usize = 0;
    while i < len
        invariant
            len == walk@.len(),
            i <= len,
            step_views(steps@) + walk_steps_from(walk@, i as int) == walk_steps_from(walk@, 0),
        decreases len - i,
    {
        let c = walk.get_char(i);
        if c == '>' || c == '<' {
            let mut j: usize = i + 1;
            while j < len && !(walk.get_char(j) == '>' || walk.get_char(j) == '<')
                invariant
                    len == walk@.len(),
                    i < j <= len,
                    next_marker(walk@, i + 1) == next_marker(walk@, j as int),
                decreases len - j,
            {
                j = j + 1;
            }
            let name = walk.substring_char(i + 1, j);
            proof {
                lemma_next_marker(walk@, i as int + 1);
            }
            let ghost before = step_views(steps@);
            if j > i + 1 {
                steps.push((String::from_str(name), c == '<'));
                proof {
                    assert(step_views(steps@) =~= before + seq![(name@, c == '<')]);
                    assert(before + seq![(name@, c == '<')] + walk_steps_from(walk@, j as int) =~= before + (seq![
                        (name@, c == '<'),
                    ] + walk_steps_from(walk@, j as int)));
                }
            }
            i = j;
        } else {
            i = i + 1;
        }
    }
    proof {
        assert(step_views(steps@) + Seq::<(Seq<char>, bool)>::empty() =~= step_views(steps@));
    }
    steps
}

/// The pieces of `s[i..]` between commas, `current` being the piece read
/// so far.
pub open spec fn comma_pieces(s: Seq<char>, i: int, current: Seq<char>) -> Seq<Seq<char>>
    decreases s.len() - i,
{
    if i < 0 || i >= s.len() {
        seq![current]
    } else if s[i] == ',' {
        seq![current] + comma_pieces(s, i + 1, Seq::empty())
    } else {
        comma_pieces(s, i + 1, current.push(s[i]))
    }
}

/// One entry of a `P` line's segment list: `name+` or `name` forward,
/// `name-` reversed; `None` for an empty entry.
pub open spec fn path_step_of(piece: Seq<char>) -> Option<(Seq<char>, bool)> {
    let t = trimmed(piece);
    if t.len() == 0 {
        None
    } else if t.last() == '+' {
        Some((t.drop_last(), false))
    } else if t.last() == '-' {
        Some((t.drop_last(), true))
    } else {
        Some((t, false))
    }
}

/// The steps of pieces `ps[0..k]`.
pub open spec fn path_steps_of(ps: Seq<Seq<char>>, k: int) -> Seq<(Seq<char>, bool)>
    decreases k,
{
    if k <= 0 {
        Seq::empty()
    } else {
        let prev = path_steps_of(ps, k - 1);
        match path_step_of(ps[k - 1]) {
            Some(st) => prev.push(st),
            None => prev,
        }
    }
}

/// The steps of a `P` line's comma-separated segment list.
pub fn parse_path_segments(segments: &str) -> (steps: Vec<(String, bool)>)
    ensures
        ({
            let ps = comma_pieces(segments@, 0, Seq::empty());
            step_views(steps@) == path_steps_of(ps, ps.len() as int)
        }),
{
    let len = segments.unicode_len();
    let mut pieces: Vec<String> = Vec::new();
    let mut current = String::new();
    let mut i: usize = 0;
    assert(current@ =~= Seq::<char>::empty());
    while i < len
        invariant
            len == segments@.len(),
            i <= len,
            pieces@.map_values(|p: String| p@) + comma_pieces(segments@, i as int, current@) == comma_pieces(
                segments@,
                0,
                Seq::empty(),
            ),
        decreases len - i,
    {
        let c = segments.get_char(i);
        if c == ',' {
            let ghost before = pieces@.map_values(|p: String| p@);
            let ghost cur = current@;
            pieces.push(current);
            current = String::new();
            proof {
                assert(pieces@.map_values(|p: String| p@) =~= before.push(cur));
                assert(current@ =~= Seq::<char>::empty());
                assert(before.push(cur) + comma_pieces(segments@, i as int + 1, current@) =~= before + (seq![cur]
                    + comma_pieces(segments@, i as int + 1, Seq::empty())));
            }
        } else {
            let ghost cur = current@;
            let mut buf = String::new();
            crate::csv::push_char(&mut buf, c);
            current.append(buf.as_str());
            proof {
                assert(buf@ =~= seq![c]);
                assert(current@ =~= cur.push(c));
            }
        }
        i = i + 1;
    }
    let ghost before = pieces@.map_values(|p: String| p@);
    pieces.push(current);
    let ghost ps = pieces@.map_values(|p: String| p@);
    proof {
        assert(ps =~= comma_pieces(segments@, 0, Seq::empty()));
    }
    let mut steps: Vec<(String, bool)> = Vec::new();
    let mut k: usize = 0;
    while k < pieces.len()
        invariant
            k <= pieces@.len(),
            ps == pieces@.map_values(|p: String| p@),
            step_views(steps@) == path_steps_of(ps, k as int),
        decreases pieces@.len() - k,
    {
        let t = trim_to_string(&pieces[k]);
        let n = t.as_str().unicode_len();
        let ghost before = step_views(steps@);
        assert(ps[k as int] == pieces@[k as int]@);
        if n > 0 {
            let last = t.as_str().get_char(n - 1);
            let name = t.as_str().substring_char(0, n - 1);
            if last == '+' {
                steps.push((String::from_str(name), false));
            } else if last == '-' {
                steps.push((String::from_str(name), true));
            } else {
                steps.push((t.clone(), false));
            }
            proof {
                assert(t@.drop_last() =~= name@);
                assert(step_views(steps@) =~= before.push(path_step_of(ps[k as int]).unwrap()));
            }
        }
        k = k + 1;
    }
    steps
}

/// Number of uncalled bases (`N` or `n`) among `s[0..k]`.
pub open spec fn uncalled(s: Seq<char>, k: int) -> int
    decreases k,
{
    if k <= 0 {
        0
    } else {
        uncalled(s, k - 1) + if s[k - 1] == 'N' || s[k - 1] == 'n' {
            1int
        } else {
            0int
        }
    }
}

/// Counts the uncalled bases of a segment sequence.
pub fn count_uncalled(seq: &str) -> (r: u64)
    ensures
        r == uncalled(seq@, seq@.len() as int),
{
    let len = seq.unicode_len();
    let mut count: u64 = 0;
    let mut i: usize = 0;
    while i < len
        invariant
            len == seq@.len(),
            i <= len,
            count == uncalled(seq@, i as int),
            count <= i,
        decreases len - i,
    {
        let c = seq.get_char(i);
        if c == 'N' || c == 'n' {
            count = count + 1;
        }
        i = i + 1;
    }
    count
}

/// The canonical keys of the edges between consecutive steps of the
/// paths `paths[0..p]`, path by path.
pub open spec fn step_edges(paths: Seq<GfaPath>, p: int) -> Seq<(u64, bool, u64, bool)>
    decreases p,
{
    if p <= 0 {
        Seq::empty()
    } else {
        step_edges(paths, p - 1) + consecutive_edges(paths[p - 1].steps@, paths[p - 1].steps@.len() as int)
    }
}

/// Canonical keys of the edges between `steps[k - 1]` and `steps[k]` for
/// `1 <= k < n`.
pub open spec fn consecutive_edges(steps: Seq<PathStep>, n: int) -> Seq<(u64, bool, u64, bool)>
    decreases n,
{
    if n <= 1 {
        Seq::empty()
    } else {
        consecutive_edges(steps, n - 1).push(
            canonical_edge(steps[n - 2].segment_id, steps[n - 2].is_reverse, steps[n - 1].segment_id, steps[n - 1].is_reverse),
        )
    }
}

/// The edges that paths imply between their consecutive steps.
pub fn path_edges(paths: &Vec<GfaPath>) -> (edges: Vec<(u64, bool, u64, bool)>)
    ensures
        edges@ == step_edges(paths@, paths@.len() as int),
{
    let mut edges: Vec<(u64, bool, u64, bool)> = Vec::new();
    let mut p: usize = 0;
    while p < paths.len()
        invariant
            p <= paths@.len(),
            edges@ == step_edges(paths@, p as int),
        decreases paths@.len() - p,
    {
        let steps = &paths[p].steps;
        let ghost base = edges@;
        assert(consecutive_edges(steps@, 1) =~= Seq::<(u64, bool, u64, bool)>::empty());
        assert(base + consecutive_edges(steps@, 1) =~= base);
        let mut k: usize = 1;
        while k < steps.len()
            invariant
                p < paths@.len(),
                base == step_edges(paths@, p as int),
                steps@ == paths@[p as int].steps@,
                1 <= k,
                k <= steps@.len() || k == 1,
                edges@ == base + consecutive_edges(steps@, k as int),
            decreases steps@.len() - k,
        {
            let from = &steps[k - 1];
            let to = &steps[k];
            let ghost before = edges@;
            edges.push(edge_key(from.segment_id, from.is_reverse, to.segment_id, to.is_reverse));
            proof {
                assert(edges@ =~= base + consecutive_edges(steps@, k as int + 1));
            }
            k = k + 1;
        }
        proof {
            let full = consecutive_edges(steps@, steps@.len() as int);
            if steps@.len() == 0 {
                assert(full =~= Seq::<(u64, bool, u64, bool)>::empty());
                assert(k == 1);
                assert(edges@ =~= base + full);
            } else {
                assert(k == steps@.len());
                assert(edges@ == base + full);
            }
            assert(step_edges(paths@, p as int + 1) == step_edges(paths@, p as int) + consecutive_edges(
                paths@[p as int].steps@,
                paths@[p as int].steps@.len() as int,
            ));
            assert(edges@ =~= step_edges(paths@, p as int + 1));
        }
        p = p + 1;
    }
    edges
}

} // verus!
