//! What the template reads from the standing text of a defaults document.

use documented_toml::decor::Marker;
use documented_toml::template::Template;
use documented_toml::{DottedPath, SourceDocument};

fn template_of(defaults: &str) -> Template {
    let document = SourceDocument::parse(defaults).unwrap();
    Template::of(&document, &Marker::default())
}

#[test]
fn a_sample_block_introduces_the_keys_it_writes() {
    let template = template_of("##: Seconds to wait.\n#: timeout = 30\n\nlive = 1\n");
    assert!(template.knows(&DottedPath::parse("timeout").unwrap()));
    assert!(!template.knows(&DottedPath::parse("live").unwrap()));
}

#[test]
fn a_block_ending_in_prose_is_left_where_it_was_written() {
    let template = template_of("#: timeout = 30\n##: What follows nothing.\n\nlive = 1\n");
    assert!(!template.knows(&DottedPath::parse("timeout").unwrap()));
}

#[test]
fn a_block_that_is_not_toml_is_not_read() {
    let template = template_of("##: Broken.\n#: timeout = = 30\n\nlive = 1\n");
    assert!(!template.knows(&DottedPath::parse("timeout").unwrap()));
}

#[test]
fn a_parsed_document_keeps_the_text_after_its_last_key() {
    match SourceDocument::parse("a = 1\n# the end\n").unwrap() {
        SourceDocument::Content { trailing, .. } => assert_eq!(trailing, "# the end\n"),
        SourceDocument::Empty => panic!("a document with a key is not empty"),
    }
}
