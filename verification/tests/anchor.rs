use documented_toml::anchor::Anchor;
use documented_toml::decor::{Marker, PrefixLine};
use documented_toml::path::DottedPath;

fn lines(text: &str) -> Vec<PrefixLine> {
    let marker = Marker::default();
    text.lines().map(|line| marker.classify(line)).collect()
}

#[test]
fn a_bare_assignment_names_a_key_in_the_table_it_sits_in() {
    let anchor = Anchor::of(&lines("##: prose\n#: editor = \"kak\""), &Marker::default()).unwrap();
    assert_eq!(anchor.path.to_string(), "editor");
    assert!(!anchor.absolute);
    assert_eq!(
        anchor.resolve(Some(&DottedPath::new("general"))).to_string(),
        "general.editor"
    );
}

#[test]
fn a_table_header_names_a_key_from_the_root() {
    let anchor = Anchor::of(
        &lines("#: [[accounts]]\n#: name = \"Personal\"\n#: [accounts.ui]\n#: separators = []"),
        &Marker::default(),
    )
    .unwrap();
    assert_eq!(anchor.path.to_string(), "accounts");
    assert!(anchor.absolute);
    assert_eq!(
        anchor.resolve(Some(&DottedPath::new("flags"))).to_string(),
        "accounts"
    );
}

#[test]
fn prose_alone_anchors_nothing() {
    assert!(Anchor::of(&lines("##: an explanation and nothing else"), &Marker::default()).is_none());
}

#[test]
fn only_the_first_sample_line_decides_what_a_block_is_about() {
    // The block goes on to show a second variant of the same table, which
    // as one TOML document would be a duplicate key.
    let template = "#: [[accounts]]\n#: name = \"a\"\n#: [accounts.incoming]\n#: protocol = \"imap\"\n#: [accounts.incoming]\n#: protocol = \"jmap\"";
    let anchor = Anchor::of(&lines(template), &Marker::default()).unwrap();
    assert_eq!(anchor.path.to_string(), "accounts");
}

#[test]
fn a_sample_naming_nothing_anchors_nothing() {
    assert!(Anchor::of(&lines("#: not a toml line at all"), &Marker::default()).is_none());
}

#[test]
fn a_value_spanning_several_lines_still_anchors_on_its_key() {
    let anchor = Anchor::of(
        &lines("#: signature = \"\"\"\n#: Jane Doe\n#: Acme Corp\"\"\""),
        &Marker::default(),
    )
    .unwrap();
    assert_eq!(anchor.path.to_string(), "signature");
}

#[test]
fn an_indented_sample_keeps_its_indentation_when_undressed() {
    let marker = Marker::default();
    assert_eq!(marker.undress("#:   layout = \"a\""), "  layout = \"a\"");
    assert_eq!(marker.undress("#: port = 993"), "port = 993");
    assert_eq!(marker.undress("#:"), "");
}

#[test]
fn a_header_path_ends_at_its_closing_bracket() {
    assert_eq!(
        documented_toml::anchor::strip_header("[a.b] # note", "[", "]"),
        Some("a.b".to_string())
    );
    assert_eq!(
        documented_toml::anchor::strip_header("[[list]]", "[[", "]]"),
        Some("list".to_string())
    );
    assert_eq!(documented_toml::anchor::strip_header("key = 1", "[", "]"), None);
    assert_eq!(documented_toml::anchor::strip_header("[open", "[", "]"), None);
}
