//! The examples the documentation gives.

use documented_toml::{MergeOptions, merge};

#[test]
fn the_documented_example_merges_as_shown() {
    let defaults = "##: Request timeout in seconds.\ntimeout = 30\n\n##: Where logs are written. An empty path means stderr.\nlog = \"\"\n\n##: Maximum cache entries.\n#: cache_size = 4096\n";
    let user = "# The staging server is slow.\ntimeout = 120\n";
    let expected = "##: Request timeout in seconds.\n#: timeout = 30\n# The staging server is slow.\ntimeout = 120\n\n##: Where logs are written. An empty path means stderr.\nlog = \"\"\n\n##: Maximum cache entries.\n#: cache_size = 4096\n";
    let merged = merge(defaults, user).unwrap();
    assert_eq!(merged.to_toml_string(), expected);
    assert!(merged.report.diagnostics().is_empty());
}

#[test]
fn the_library_example_merges_as_shown() {
    let merged = merge("##: How many.\ncount = 1\n", "count = 7\n").unwrap();
    assert_eq!(merged.to_toml_string(), "##: How many.\n#: count = 1\ncount = 7\n");
}

#[test]
fn custom_markers_and_a_rename_work_together() {
    let merged = MergeOptions::new()
        .markers("#|", "#=")
        .migrate("server.timeout", "network.timeout")
        .merge("##: How long.\n[network]\ntimeout = 30\n", "[server]\ntimeout = 90\n")
        .unwrap();
    assert!(merged.to_toml_string().contains("timeout = 90"));
}

#[test]
fn a_value_equal_to_the_default_gets_no_echo() {
    let merged = merge("##: How many.\ncount = 1\n", "count = 1\n").unwrap();
    assert_eq!(merged.to_toml_string(), "##: How many.\ncount = 1\n");
}

#[test]
fn a_second_merge_of_the_output_changes_nothing() {
    let defaults = "##: Request timeout in seconds.\ntimeout = 30\n\n##: Where logs are written.\nlog = \"\"\n\n[server]\n##: Port.\nport = 80\n";
    let user = "# mine\ntimeout = 120\n[server]\nport = 8080\nextra = true\n";
    let once = merge(defaults, user).unwrap().to_toml_string();
    let twice = merge(defaults, &once).unwrap().to_toml_string();
    assert_eq!(once, twice);
}

#[test]
fn an_unknown_key_loses_the_tools_lines_but_keeps_the_persons() {
    let merged = merge("a = 1\n", "a = 1\n#: stale = 2\n# mine\nstale = 3\n").unwrap();
    assert_eq!(merged.to_toml_string(), "a = 1\n# mine\nstale = 3\n");
}
