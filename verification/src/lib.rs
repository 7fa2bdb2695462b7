//! Format-preserving merge of a user's TOML configuration with the defaults an
//! application ships.

pub mod align;
pub mod anchor;
pub mod cli;
pub mod merge;
pub mod model;
pub mod options;
pub mod decor;
pub mod path;
pub mod report;
pub mod source;
pub mod standing;
pub mod template;
pub mod text;
pub mod toml;

use vstd::prelude::*;

pub use anchor::Anchor;
pub use decor::{
    DefaultEcho, DocBlock, Marker, Prefix, PrefixLine, Sample, DEFAULT_PROSE_MARKER,
    DEFAULT_SAMPLE_MARKER,
};
pub use path::DottedPath;
pub use report::{Diagnostic, DiagnosticKind, Position, Report, Severity, Span, TomlType};
pub use merge::{MergeEngine, Merged, Newline};
pub use options::{Error, MergeOptions, Migration};
pub use report::SpanIndex;
pub use source::SourceDocument;

verus! {

/// Merges a user document against the defaults with the default markers and
/// no rename rules. See [`MergeOptions`] for the configurable form.
pub fn merge(default_src: &str, user_src: &str) -> (r: Result<Merged, Error>)
    ensures
        r matches Ok(m) ==> (m.newline is CrLf <==> options::has_crlf(user_src@)),
        r matches Ok(m) ==> m.text@ == toml::rendering(m.document),
        r matches Ok(m) ==> toml::document_keys(m.document) == model::first_names(model::names(m.tree)),
        r matches Ok(m) ==> forall|k: int|
            0 <= k < m.tree.entries@.len() ==> #[trigger] model::holds_value_of(
                toml::document_table(m.document),
                m.tree.entries@,
                k,
            ),
        r matches Ok(m) ==> (options::lf_only(default_src@).len() > 0 ==> forall|n: Seq<char>|
            toml::text_keys(options::lf_only(default_src@)).contains(n) ==> model::has_name(m.tree, n)),
        r matches Ok(m) ==> (options::lf_only(user_src@).len() > 0 ==> forall|n: Seq<char>|
            toml::text_keys(options::lf_only(user_src@)).contains(n) ==> model::has_name(m.tree, n)),
        r matches Ok(m) ==> forall|n: Seq<char>|
            model::has_name(m.tree, n) ==> (options::lf_only(default_src@).len() > 0 && toml::text_keys(
                options::lf_only(default_src@),
            ).contains(n)) || (options::lf_only(user_src@).len() > 0 && toml::text_keys(
                options::lf_only(user_src@),
            ).contains(n)),
        r matches Ok(m) ==> forall|n: Seq<char>|
            (options::lf_only(user_src@).len() > 0 && toml::text_keys(options::lf_only(user_src@)).contains(n)
                && !(options::lf_only(default_src@).len() > 0 && toml::text_keys(
                options::lf_only(default_src@),
            ).contains(n)) && !model::path_in(m.documented, seq![n])) ==> merge::unknown_noted(
                m.report.entries(),
                seq![n],
            ),
        r matches Ok(m) ==> forall|k: int|
            0 <= k < m.report.entries().len() ==> merge::raised_by_merge(#[trigger] m.report.entries()[k]),
        r matches Err(Error::DefaultParse { .. }) <==> !options::readable(default_src@),
        r matches Err(Error::UserParse { .. }) ==> options::readable(default_src@)
            && !options::readable(user_src@),
        !(r matches Err(Error::MigrationPath { .. })),
        r matches Err(Error::DefaultsDeclareNoKeys) <==> options::declares_nothing(
            DEFAULT_PROSE_MARKER@,
            DEFAULT_SAMPLE_MARKER@,
            default_src@,
        ),
        options::readable(default_src@) && options::readable(user_src@) && !options::declares_nothing(
            DEFAULT_PROSE_MARKER@,
            DEFAULT_SAMPLE_MARKER@,
            default_src@,
        ) ==> r is Ok,
        options::readable(default_src@) && options::readable(user_src@) && (options::lf_only(
            default_src@,
        ).len() == 0 || options::owns_a_line_spec(
            DEFAULT_PROSE_MARKER@,
            DEFAULT_SAMPLE_MARKER@,
            options::lf_only(default_src@),
        )) ==> r is Ok,
{
    MergeOptions::new().merge(default_src, user_src)
}

} // verus!
