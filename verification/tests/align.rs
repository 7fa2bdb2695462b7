//! Lining up the `=` of every key in a group.

use documented_toml::align::aligned;
use documented_toml::{MergeOptions, merge};

fn align(src: &str) -> String {
    aligned(src).unwrap()
}

#[test]
fn pads_keys_to_the_widest_in_the_section() {
    let out = align("a = 1\nlonger = 2\n");
    assert_eq!(out, "a      = 1\nlonger = 2\n");
}

#[test]
fn comments_and_blank_lines_start_a_new_group() {
    let out = align("a = 1\nbb = 2\n# note\nlonger = 3\nc = 4\n\nd     = 5\n");
    assert_eq!(out, "a  = 1\nbb = 2\n# note\nlonger = 3\nc      = 4\n\nd = 5\n");
}

#[test]
fn a_comment_above_a_dotted_key_starts_a_new_group() {
    let out = align("longer = 1\n# note\na.b = 2\na.cc = 3\n");
    assert_eq!(out, "longer = 1\n# note\na.b  = 2\na.cc = 3\n");
}

#[test]
fn a_comment_above_a_skipped_multiline_value_still_separates() {
    let out = align("longer = 1\n# note\ntext = '''\nx\n'''\nb = 2\n");
    assert_eq!(out, "longer = 1\n# note\ntext = '''\nx\n'''\nb = 2\n");
}

#[test]
fn each_header_opens_a_new_span() {
    let out = align("a = 1\nbb = 2\n[s]\nlonger = 3\nc = 4\n[[t]]\nx = 1\nyy = 2\n");
    assert_eq!(
        out,
        "a  = 1\nbb = 2\n[s]\nlonger = 3\nc      = 4\n[[t]]\nx  = 1\nyy = 2\n"
    );
}

#[test]
fn dotted_keys_measure_their_whole_path() {
    let out = align("a.b = 1\nlonger.key.path = 2\nc = 3\n");
    assert_eq!(
        out,
        "a.b             = 1\nlonger.key.path = 2\nc               = 3\n"
    );
}

#[test]
fn multiline_values_neither_set_nor_take_the_width() {
    let src = "a = 1\nlonger = 2\nmultiline_key = '''\nx\n'''\nlist = [\n  1,\n]\n";
    let out = align(src);
    assert_eq!(
        out,
        "a      = 1\nlonger = 2\nmultiline_key = '''\nx\n'''\nlist = [\n  1,\n]\n"
    );
}

#[test]
fn a_lone_key_gets_one_space() {
    assert_eq!(align("a   = 1\n"), "a = 1\n");
}

#[test]
fn existing_padding_is_recomputed() {
    assert_eq!(align("a        = 1\nbb = 2\n"), "a  = 1\nbb = 2\n");
}

#[test]
fn indentation_counts_toward_the_column() {
    assert_eq!(align("  a = 1\nbb = 2\n"), "  a = 1\nbb  = 2\n");
}

#[test]
fn a_merge_aligns_unless_told_not_to() {
    let defaults = "a = 1\nlonger = 2\n";
    assert_eq!(merge(defaults, "").unwrap().to_toml_string(), "a      = 1\nlonger = 2\n");
    let plain = MergeOptions::new().align_values(false).merge(defaults, "").unwrap();
    assert_eq!(plain.to_toml_string(), defaults);
}
