use documented_toml::cli::{Command, Destination, Invocation, USAGE};

fn parse(args: &[&str]) -> Result<Invocation, String> {
    Invocation::parse(&args.iter().map(|a| (*a).to_owned()).collect::<Vec<_>>())
}

#[test]
fn merge_defaults_to_stdout() {
    let invocation = parse(&["merge", "--default", "d.toml", "--user", "u.toml"]).unwrap();
    assert_eq!(invocation.command, Command::Merge);
    assert_eq!(invocation.destination, Destination::Stdout);
}

#[test]
fn output_and_in_place_are_destinations() {
    let to_file = parse(&["merge", "--default", "d", "--user", "u", "--output", "o"]).unwrap();
    assert_eq!(to_file.destination, Destination::File("o".to_owned()));
    let over_target = parse(&["merge", "--default", "d", "--user", "u", "--in-place"]).unwrap();
    assert_eq!(over_target.destination, Destination::InPlace);
}

#[test]
fn check_takes_no_destination() {
    let error = parse(&["check", "--default", "d", "--user", "u", "--in-place"]).unwrap_err();
    assert!(error.contains("writes nothing"), "{error}");
}

#[test]
fn both_documents_are_required() {
    assert!(parse(&["merge", "--user", "u"]).unwrap_err().contains("--default"));
    assert!(parse(&["merge", "--default", "d"]).unwrap_err().contains("--user"));
}

#[test]
fn an_option_without_its_path_is_an_error() {
    let error = parse(&["merge", "--default"]).unwrap_err();
    assert!(error.contains("needs a path"), "{error}");
}

#[test]
fn an_unknown_command_is_an_error() {
    assert!(parse(&["frobnicate"]).unwrap_err().contains("no such command"));
    let error = parse(&["merge", "--default", "d", "--user", "u", "--wat"]).unwrap_err();
    assert!(error.contains("no such option"), "{error}");
}

#[test]
fn help_and_nothing_at_all_show_the_usage() {
    assert_eq!(parse(&[]).unwrap_err(), USAGE);
    assert_eq!(parse(&["--help"]).unwrap_err(), USAGE);
    assert_eq!(parse(&["-h"]).unwrap_err(), USAGE);
}

#[test]
fn the_paths_are_taken_as_given() {
    let invocation = parse(&["check", "--user", "u.toml", "--default", "d.toml"]).unwrap();
    assert_eq!(invocation.command, Command::Check);
    assert_eq!(invocation.default, "d.toml");
    assert_eq!(invocation.user, "u.toml");
    let later = parse(&["merge", "--default", "a", "--default", "b", "--user", "u"]).unwrap();
    assert_eq!(later.default, "b");
}

#[test]
fn no_align_keeps_the_spacing_as_written() {
    let invocation = parse(&["merge", "--default", "d", "--user", "u", "--no-align"]).unwrap();
    assert_eq!(invocation.command, Command::Merge);
    assert_eq!(invocation.default, "d");
    assert_eq!(invocation.user, "u");
    assert_eq!(invocation.destination, Destination::Stdout);
    assert!(!invocation.align);
    assert!(parse(&["merge", "--default", "d", "--user", "u"]).unwrap().align);
}
