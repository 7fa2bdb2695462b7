//! Input documents, before the merge walks them.

use vstd::prelude::*;

use toml_edit::TomlError;

use crate::model::{TableNode, names, read_from_raw, table_node};
use crate::report::SpanIndex;
use crate::toml::{document_root, document_trailing, into_editable, is_toml, parse_editable, parse_spanned,
    spanned_root, table_keys, text_keys, text_trailing};

verus! {

/// One of the two documents a merge is given, after parsing.
///
/// Zero bytes and "parsed, but declares no keys" are different states, and
/// only byte length decides which. A file holding `# notes to self` is not
/// empty: it has text that has to survive the merge, and default keys are
/// written in beneath it. Only a file of no length has nothing to preserve.
#[derive(Debug)]
pub enum SourceDocument {
    /// Zero bytes. Nothing to parse, nothing to keep.
    Empty,
    /// Text that parsed. The root table may hold no keys, which is a document
    /// with content all the same.
    Content {
        /// The root table. Every key, table and array of tables in the
        /// document nests inside it.
        root: TableNode,
        /// White space and comments after the last element, which belong to
        /// no key. A comment-only document is all trailing and no keys.
        trailing: String,
    },
}

impl SourceDocument {
    /// Parses a document. Zero bytes are [`SourceDocument::Empty`]; anything
    /// else is parsed, and `toml_edit` decides whether it is TOML.
    pub fn parse(src: &str) -> (r: Result<Self, TomlError>)
        ensures
            src@.len() == 0 ==> r matches Ok(SourceDocument::Empty),
            src@.len() > 0 ==> (r is Ok <==> is_toml(src@)),
            r matches Ok(SourceDocument::Content { .. }) ==> src@.len() > 0,
            r matches Ok(SourceDocument::Content { root, .. }) ==> names(root) == text_keys(src@),
            r matches Ok(SourceDocument::Content { root, .. }) ==> forall|k: int|
                0 <= k < root.entries@.len() ==> read_from_raw(#[trigger] root.entries@[k]),
            r matches Ok(SourceDocument::Content { trailing, .. }) ==> trailing@ == match text_trailing(src@) {
                Some(t) => t,
                None => Seq::<char>::empty(),
            },
            src@.len() > 0 && r is Ok ==> r matches Ok(SourceDocument::Content { .. }),
    {
        if src.is_empty() {
            return Ok(SourceDocument::Empty);
        }
        let document = parse_editable(src)?;
        let trailing = match document_trailing(&document) {
            Some(text) => text,
            None => String::new(),
        };
        let depth: usize = if src.len() > 0 {
            src.len()
        } else {
            1
        };
        let root = table_node(document_root(&document), depth);
        Ok(SourceDocument::Content { root, trailing })
    }

    /// Parses a document and keeps where each key was found.
    pub fn parse_with_spans(src: &str) -> (r: Result<(Self, SpanIndex), TomlError>)
        ensures
            src@.len() == 0 ==> r matches Ok((SourceDocument::Empty, _)),
            src@.len() > 0 ==> (r is Ok <==> is_toml(src@)),
            r matches Ok((SourceDocument::Content { .. }, _)) ==> src@.len() > 0,
            r matches Ok((SourceDocument::Content { root, .. }, _)) ==> names(root) == text_keys(src@),
            r matches Ok((SourceDocument::Content { root, .. }, _)) ==> forall|k: int|
                0 <= k < root.entries@.len() ==> read_from_raw(#[trigger] root.entries@[k]),
            src@.len() > 0 && r is Ok ==> r matches Ok((SourceDocument::Content { .. }, _)),
            r matches Ok((_, spans)) ==> src@.len() > 0 ==> exists|written: TableNode|
                names(written) == text_keys(src@) && forall|segs: Seq<Seq<char>>|
                    crate::merge::taken_at(written, segs) is Some ==> #[trigger] crate::report::recorded(
                        spans.spans@,
                        segs,
                    ),
    {
        if src.is_empty() {
            return Ok((SourceDocument::Empty, SpanIndex::new()));
        }
        let spanned = parse_spanned(src)?;
        let sroot = spanned_root(&spanned);
        let reach: usize = if src.len() > 0 {
            src.len()
        } else {
            1
        };
        let written = table_node(sroot, reach);
        assert(src@.len() > 0);
        assert(table_keys(*sroot) == text_keys(src@));
        assert(names(written) == text_keys(src@));
        let spans = SpanIndex::build(&written);
        let document = into_editable(spanned);
        let trailing = match document_trailing(&document) {
            Some(text) => text,
            None => String::new(),
        };
        let depth: usize = if src.len() > 0 {
            src.len()
        } else {
            1
        };
        let root = table_node(document_root(&document), depth);
        proof {
            assert(names(written) == text_keys(src@));
            assert(forall|segs: Seq<Seq<char>>|
                crate::merge::taken_at(written, segs) is Some ==> #[trigger] crate::report::recorded(
                    spans.spans@,
                    segs,
                ));
        }
        Ok((SourceDocument::Content { root, trailing }, spans))
    }

    /// The root table, unless the document is empty.
    pub fn root(&self) -> (r: Option<&TableNode>)
        ensures
            self is Empty ==> r is None,
            self matches SourceDocument::Content { root, .. } ==> r == Some(root),
    {
        match self {
            SourceDocument::Empty => None,
            SourceDocument::Content { root, .. } => Some(root),
        }
    }

    /// The text after the last element, or nothing for an empty document.
    pub fn trailing(&self) -> (r: &str)
        ensures
            self is Empty ==> r@.len() == 0,
            self matches SourceDocument::Content { trailing, .. } ==> r@ == trailing@,
    {
        match self {
            SourceDocument::Empty => {
                proof {
                    reveal_strlit("");
                }
                ""
            },
            SourceDocument::Content { trailing, .. } => trailing.as_str(),
        }
    }

    /// Whether the document has text but declares no key at all.
    pub fn has_text_but_no_keys(&self) -> (r: bool)
        ensures
            r == (self matches SourceDocument::Content { root, .. } && root.entries@.len() == 0),
    {
        match self {
            SourceDocument::Empty => false,
            SourceDocument::Content { root, .. } => root.entries.len() == 0,
        }
    }
}

} // verus!
