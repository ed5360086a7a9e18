use gfalook::names::{edge_key, parse_decimal_u64, parse_subpath_start, path_color_key, path_color_seed, strip_subpath_range};
use sha2::{Digest, Sha256};

#[test]
fn subpath_start_is_read_from_the_last_range() {
    assert_eq!(parse_subpath_start("chr1:100-200"), 100);
    assert_eq!(parse_subpath_start("HG002#1#chr6:a:31972046-32055647"), 31972046);
    assert_eq!(parse_subpath_start("plain"), 0);
    assert_eq!(parse_subpath_start("chr1:x-200"), 0);
    assert_eq!(parse_subpath_start("chr1:100"), 0);
    assert_eq!(parse_subpath_start("chr1:+7-9"), 7);
}

#[test]
fn subpath_range_is_stripped_only_when_both_ends_are_numbers() {
    assert_eq!(strip_subpath_range("chr1:100-200"), "chr1");
    assert_eq!(strip_subpath_range("a:b:1-2"), "a:b");
    assert_eq!(strip_subpath_range("chr1:100-x"), "chr1:100-x");
    assert_eq!(strip_subpath_range("chr1"), "chr1");
    assert_eq!(strip_subpath_range("chr1:-5"), "chr1:-5");
}

#[test]
fn decimal_parsing_matches_std() {
    for s in ["0", "42", "+42", "", "+", "-1", "18446744073709551615", "18446744073709551616", "1a", "007"] {
        assert_eq!(parse_decimal_u64(s), s.parse::<u64>().ok(), "{}", s);
    }
}

#[test]
fn color_key_cuts_at_the_first_separator() {
    assert_eq!(path_color_key("HG002#1#chr6", Some('#')), "HG002");
    assert_eq!(path_color_key("HG002#1#chr6", None), "HG002#1#chr6");
    assert_eq!(path_color_key("HG002", Some('#')), "HG002");
}

#[test]
fn color_seed_takes_digest_bytes() {
    for (name, sep, key) in [("HG002#1#chr6", Some('#'), "HG002"), ("grch38", None, "grch38")] {
        let digest = Sha256::digest(key.as_bytes());
        assert_eq!(path_color_seed(name, sep), (digest[24], digest[8], digest[16]));
    }
}

#[test]
fn edge_keys_agree_for_both_readings() {
    assert_eq!(edge_key(1, false, 2, true), (1, false, 2, true));
    assert_eq!(edge_key(2, false, 1, true), (1, false, 2, true));
    assert_eq!(edge_key(3, true, 3, true), (3, false, 3, false));
    assert_eq!(edge_key(3, false, 3, false), (3, false, 3, false));
}

#[test]
fn xml_special_characters_become_entities() {
    assert_eq!(gfalook::names::escape_xml("a<b>&\"c'"), "a&lt;b&gt;&amp;&quot;c&apos;");
    assert_eq!(gfalook::names::escape_xml("plain"), "plain");
    assert_eq!(gfalook::names::escape_xml("&amp;"), "&amp;amp;");
}

#[test]
fn palette_arguments() {
    use_palette("Spectral:9", Some(("Spectral", 9)));
    use_palette("RdBu", Some(("RdBu", 11)));
    use_palette("RdBu:x", None);
    use_palette("a:1:2", None);
    use_palette(":", None);
    use_palette("PiYG:", None);
}

fn use_palette(arg: &str, want: Option<(&str, usize)>) {
    let got = gfalook::names::parse_colorbrewer_arg(arg);
    assert_eq!(got, want.map(|(s, n)| (s.to_string(), n)), "{}", arg);
}
