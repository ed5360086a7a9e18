use gfalook::coverage::{GfaPath, PathStep};
use gfalook::gfa::{count_uncalled, parse_path_segments, parse_walk, path_edges};

fn steps(v: &[(&str, bool)]) -> Vec<(String, bool)> {
    v.iter().map(|(n, r)| (n.to_string(), *r)).collect()
}

#[test]
fn walk_steps_follow_the_markers() {
    assert_eq!(parse_walk(">s1<s2>s10"), steps(&[("s1", false), ("s2", true), ("s10", false)]));
    assert_eq!(parse_walk("x>a><b"), steps(&[("a", false), ("b", true)]));
    assert_eq!(parse_walk(""), steps(&[]));
}

#[test]
fn path_segments_take_strand_suffixes() {
    assert_eq!(parse_path_segments("1+,2-,3"), steps(&[("1", false), ("2", true), ("3", false)]));
    assert_eq!(parse_path_segments(" 7+ ,, 8- "), steps(&[("7", false), ("8", true)]));
    assert_eq!(parse_path_segments(""), steps(&[]));
}

#[test]
fn uncalled_bases_are_counted_in_both_cases() {
    assert_eq!(count_uncalled("ACGTNNnA"), 3);
    assert_eq!(count_uncalled(""), 0);
}

#[test]
fn consecutive_steps_give_canonical_edges() {
    let p = GfaPath {
        name: "p".to_string(),
        steps: vec![
            PathStep { segment_id: 2, is_reverse: false },
            PathStep { segment_id: 1, is_reverse: true },
            PathStep { segment_id: 3, is_reverse: false },
        ],
    };
    let empty = GfaPath { name: "e".to_string(), steps: vec![] };
    assert_eq!(path_edges(&vec![p, empty]), vec![(1, false, 2, true), (1, true, 3, false)]);
}
