//! The library's promises, on concrete documents.

use documented_toml::decor::{DefaultEcho, Marker};
use documented_toml::{DiagnosticKind, MergeOptions, TomlType, merge};

#[test]
fn an_optional_key_the_person_sets_is_documented_and_kept() {
    let defaults = "##: Maximum cache entries.\n#: cache_size = 4096\n";
    let merged = merge(defaults, "cache_size = 10\n").unwrap();
    assert_eq!(
        merged.to_toml_string(),
        "##: Maximum cache entries.\n#: cache_size = 4096\ncache_size = 10\n"
    );
    assert!(merged.report.diagnostics().is_empty());
}

#[test]
fn a_persons_closing_comments_survive_and_the_tools_are_refreshed() {
    let defaults = "a = 1\n\n##: End of options.\n";
    let user = "a = 1\n\n#: stale tool line\n# my closing note\n";
    let text = merge(defaults, user).unwrap().to_toml_string();
    assert!(text.contains("##: End of options.\n"), "{text}");
    assert!(text.contains("# my closing note\n"), "{text}");
    assert!(!text.contains("stale tool line"), "{text}");
}

#[test]
fn the_echo_line_reads_back_as_the_default_assignment() {
    let marker = Marker::default();
    let echo = DefaultEcho { key: "count".to_owned(), value: "1".to_owned() };
    let line = marker.echo_line(&echo);
    assert_eq!(line, "#: count = 1");
    assert!(marker.owns(&line));
    assert_eq!(marker.undress(&line), "count = 1");
}

#[test]
fn nested_default_keys_are_materialised() {
    let merged = merge("[a]\nb = 1\n[a.c]\nd = 2\n", "[a]\nb = 5\n").unwrap();
    let document = merged.document();
    assert_eq!(document["a"]["b"].as_integer(), Some(5));
    assert_eq!(document["a"]["c"]["d"].as_integer(), Some(2));
}

#[test]
fn a_value_of_the_wrong_type_stays_as_the_person_wrote_it() {
    let merged = merge("[server]\nport = 1\n", "server = 5\n").unwrap();
    assert_eq!(merged.document()["server"].as_integer(), Some(5));
    assert_eq!(
        merged.report.diagnostics()[0].kind,
        DiagnosticKind::TypeMismatch {
            expected: TomlType::Table,
            found: TomlType::Integer,
        }
    );
}

#[test]
fn maintainers_notes_in_the_defaults_never_reach_the_file() {
    let defaults = "# maintainer: keep in sync with the code\n##: Doc.\na = 1\n";
    let merged = merge(defaults, "").unwrap();
    assert_eq!(merged.to_toml_string(), "##: Doc.\na = 1\n");
}

#[test]
fn a_documented_optional_key_is_not_unknown() {
    let defaults = "##: An option.\n#: opt = 1\n\nreal = 2\n";
    let merged = merge(defaults, "opt = 5\nreal = 2\n").unwrap();
    assert!(merged.report.diagnostics().is_empty());
    assert_eq!(merged.document()["opt"].as_integer(), Some(5));
}

#[test]
fn a_header_already_set_apart_gets_no_second_blank_line() {
    let user = "a = 1\n\n[s]\nb = 2\n";
    let merged = MergeOptions::new()
        .align_values(false)
        .merge("a = 1\n[s]\nb = 2\n", user)
        .unwrap();
    assert_eq!(merged.to_toml_string(), user);
}

#[test]
fn the_persons_lines_above_a_key_stay_closest_to_it() {
    let defaults = "##: How long to wait.\ntimeout = 30\n";
    let user = "#: an old echo\n# mine, first\n\n# mine, second\ntimeout = 5\n";
    let merged = merge(defaults, user).unwrap();
    assert_eq!(
        merged.to_toml_string(),
        "##: How long to wait.\n#: timeout = 30\n# mine, first\n\n# mine, second\ntimeout = 5\n"
    );
}

#[test]
fn a_header_comment_of_the_persons_is_kept() {
    let merged = merge("[server]\nport = 1\n", "[server] # mine\nport = 2\n").unwrap();
    assert!(merged.to_toml_string().contains("[server] # mine\n"));
}

#[test]
fn samples_written_against_a_key_document_that_key_only() {
    let defaults = "##: An option.\n#: opt = 1\nreal = 2\n";
    let merged = merge(defaults, "opt = 5\nreal = 2\n").unwrap();
    let kinds: Vec<_> = merged.report.diagnostics().iter().map(|d| d.kind.clone()).collect();
    assert_eq!(kinds, [DiagnosticKind::UnknownKey]);
}

#[test]
fn the_defaults_give_the_order_and_the_persons_extra_keys_follow_theirs() {
    let merged = merge("a = 1\nb = 2\n", "z = 9\nb = 5\ny = 8\n").unwrap();
    let keys: Vec<&str> = merged
        .document()
        .as_table()
        .iter()
        .map(|(key, _)| key)
        .collect();
    assert_eq!(keys, vec!["a", "b", "z", "y"]);
}

#[test]
fn an_optional_key_the_person_leaves_unset_stays_a_sample_line() {
    let defaults = "##: Optional counter.\n#: counter = 1\nlive = 2\n";
    let merged = merge(defaults, "").unwrap();
    assert!(merged.document().get("counter").is_none());
    assert!(merged.to_toml_string().contains("#: counter = 1\n"));
    assert_eq!(merged.document()["live"].as_integer(), Some(2));
}

#[test]
fn a_move_is_reported_where_the_old_key_was_written() {
    let merged = MergeOptions::new()
        .migrate("old", "new")
        .merge("new = 1\n", "x = 1\nold = 7\n")
        .unwrap();
    let moved = &merged.report.diagnostics()[0];
    assert_eq!(moved.path.to_string(), "new");
    assert_eq!((moved.line, moved.column), (2, 1));
    assert_eq!(merged.document()["new"].as_integer(), Some(7));
}

#[test]
fn an_unknown_key_is_reported_where_the_person_wrote_it() {
    let merged = merge("a = 1\n", "a = 2\n\n  zz = 3\n").unwrap();
    let unknown = &merged.report.diagnostics()[0];
    assert_eq!(unknown.kind, DiagnosticKind::UnknownKey);
    assert_eq!(unknown.path.to_string(), "zz");
    assert_eq!((unknown.line, unknown.column), (3, 3));
    assert_eq!(merged.document()["zz"].as_integer(), Some(3));
}

#[test]
fn a_persons_array_of_tables_replaces_the_defaults_whole() {
    let defaults = "[[server]]\nname = \"primary\"\nport = 8080\n";
    let merged = merge(defaults, "[[server]]\nname = \"mine\"\n").unwrap();
    let servers = merged.document()["server"].as_array_of_tables().unwrap();
    assert_eq!(servers.len(), 1);
    let first = servers.get(0).unwrap();
    assert_eq!(first["name"].as_str(), Some("mine"));
    assert!(first.get("port").is_none());
}

#[test]
fn a_crlf_file_written_back_merges_again_to_the_same_text() {
    let defaults = "##: How many.\na = 1\n\n##: Where.\nb = \"x\"\n";
    let first = merge(defaults, "a = 2\r\n").unwrap().to_toml_string();
    assert!(first.contains("\r\n"));
    assert!(!first.replace("\r\n", "").contains('\n'));
    let second = merge(defaults, &first).unwrap().to_toml_string();
    assert_eq!(first, second);
}

#[test]
fn plain_defaults_without_markers_merge() {
    let merged = merge("timeout = 30\n", "").unwrap();
    assert_eq!(merged.document()["timeout"].as_integer(), Some(30));
    assert_eq!(merged.to_toml_string(), merged.document().to_string());
}

#[test]
fn diagnostics_and_errors_describe_themselves() {
    assert_eq!(DiagnosticKind::UnknownKey.describe(), "no such option in the defaults");
    let mismatch = DiagnosticKind::TypeMismatch { expected: TomlType::Integer, found: TomlType::String };
    assert_eq!(mismatch.describe(), "expected integer, found string");
    assert_eq!(
        documented_toml::Error::DefaultsDeclareNoKeys.describe(),
        "the default document declares no keys"
    );
    let error = merge("# only a note\n", "").unwrap_err();
    assert_eq!(error.describe(), "the default document declares no keys");
    let broken = merge("= nope", "").unwrap_err();
    assert!(broken.describe().starts_with("the default document does not parse: "));
}

#[test]
fn a_set_optional_key_merges_under_its_documented_sample() {
    let defaults = "##: This value is counter\ncounter = 1\n\n##: Optional counter\n#: optional_counter = 1\n";
    let merged = merge(defaults, "counter = 3\noptional_counter = 5\n").unwrap();
    let text = merged.to_toml_string();
    assert!(
        text.contains("##: This value is counter\n#: counter = 1\ncounter = 3\n"),
        "{}",
        text
    );
    assert!(
        text.contains("##: Optional counter\n#: optional_counter = 1\noptional_counter = 5\n"),
        "{}",
        text
    );
    assert!(merged.report.diagnostics().is_empty());
}
