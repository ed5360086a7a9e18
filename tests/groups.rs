use gfalook::csv::parse_csv_fields;
use gfalook::groups::{distinct_prefixes, first_match, group_paths_by_prefix, has_prefix};

fn strings(v: &[&str]) -> Vec<String> {
    v.iter().map(|s| s.to_string()).collect()
}

#[test]
fn repeated_prefix_lines_are_split_off() {
    let (firsts, repeats) = distinct_prefixes(&strings(&["HG002", "HG003", "HG002", "HG004", "HG003"]));
    assert_eq!(firsts, strings(&["HG002", "HG003", "HG004"]));
    assert_eq!(repeats, strings(&["HG002", "HG003"]));
}

#[test]
fn paths_join_groups_in_order_of_first_use() {
    let names = strings(&["HG003#1", "HG002#1", "other", "HG003#2", "HG002#2"]);
    let prefixes = strings(&["HG002", "HG003"]);
    let g = group_paths_by_prefix(&names, &prefixes);
    assert_eq!(g.path_to_group, vec![0, 1, -1, 0, 1]);
    assert_eq!(g.prefixes, strings(&["HG003", "HG002"]));
    assert_eq!(g.num_groups, 2);
}

#[test]
fn an_existing_group_wins_over_a_longer_prefix() {
    let names = strings(&["HG0", "HG002#1"]);
    let prefixes = strings(&["HG0", "HG002"]);
    let g = group_paths_by_prefix(&names, &prefixes);
    assert_eq!(g.path_to_group, vec![0, 0]);
    assert_eq!(g.num_groups, 1);
}

#[test]
fn prefix_test_on_characters() {
    assert!(has_prefix("HG002#1", "HG002"));
    assert!(has_prefix("abc", ""));
    assert!(!has_prefix("HG", "HG002"));
    assert!(!has_prefix("HG003", "HG002"));
}

#[test]
fn csv_fields_respect_quotes() {
    assert_eq!(parse_csv_fields("a, b ,c"), vec!["a", "b", "c"]);
    assert_eq!(parse_csv_fields("\"x, y\",z"), vec!["x, y", "z"]);
    assert_eq!(parse_csv_fields("\"say \"\"hi\"\"\",2"), vec!["say \"hi\"", "2"]);
    assert_eq!(parse_csv_fields(""), vec![""]);
    assert_eq!(parse_csv_fields("a,,"), vec!["a", "", ""]);
}

#[test]
fn first_matching_prefix_wins() {
    let prefixes = strings(&["HG002#1", "HG002", "HG"]);
    assert_eq!(first_match(&prefixes, "HG002#1#chr6"), Some(0));
    assert_eq!(first_match(&prefixes, "HG002#2"), Some(1));
    assert_eq!(first_match(&prefixes, "HG1"), Some(2));
    assert_eq!(first_match(&prefixes, "NA1"), None);
}

#[test]
fn csv_fields_trim_like_str_trim() {
    let line = "\u{3000} a\u{a0},\t b \u{2028},\u{200b}c";
    let want: Vec<String> = line.split(',').map(|f| f.trim().to_string()).collect();
    assert_eq!(parse_csv_fields(line), want);
}
