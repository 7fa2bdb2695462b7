//! What the merge noticed on the way through.

use vstd::prelude::*;

use crate::merge::taken_at;
use crate::model::{Node, TableNode};
use crate::path::{DottedPath, path_text};
use crate::toml::key_span;
use vstd::string::StringSliceAdditionalSpecFns;

verus! {

/// Whether a diagnostic is worth stopping for.
#[derive(Clone, Copy, PartialEq, Eq, Structural, Debug)]
pub enum Severity {
    /// Reported, but the merged document is usable.
    Warning,
    /// The document holds something the defaults cannot account for.
    Error,
}

impl Severity {
    /// The word a report prints for the severity.
    pub fn name(self) -> (r: &'static str)
        ensures
            self is Warning ==> r@ == "warning"@,
            self is Error ==> r@ == "error"@,
    {
        match self {
            Severity::Warning => "warning",
            Severity::Error => "error",
        }
    }
}

/// The TOML types a value can have, as the merge compares them.
#[derive(Clone, Copy, PartialEq, Eq, Structural, Debug)]
pub enum TomlType {
    /// A string.
    String,
    /// An integer.
    Integer,
    /// A float.
    Float,
    /// A boolean.
    Boolean,
    /// An offset or local date, time, or date-time.
    Datetime,
    /// An array.
    Array,
    /// An inline table.
    InlineTable,
    /// A standalone table.
    Table,
    /// An array of tables.
    ArrayOfTables,
}

/// The name TOML gives a type.
pub open spec fn toml_type_name(t: TomlType) -> Seq<char> {
    match t {
        TomlType::String => "string"@,
        TomlType::Integer => "integer"@,
        TomlType::Float => "float"@,
        TomlType::Boolean => "boolean"@,
        TomlType::Datetime => "datetime"@,
        TomlType::Array => "array"@,
        TomlType::InlineTable => "inline table"@,
        TomlType::Table => "table"@,
        TomlType::ArrayOfTables => "array of tables"@,
    }
}

impl TomlType {
    /// The name TOML gives the type.
    pub fn name(self) -> (r: &'static str)
        ensures
            r@ == toml_type_name(self),
    {
        match self {
            TomlType::String => "string",
            TomlType::Integer => "integer",
            TomlType::Float => "float",
            TomlType::Boolean => "boolean",
            TomlType::Datetime => "datetime",
            TomlType::Array => "array",
            TomlType::InlineTable => "inline table",
            TomlType::Table => "table",
            TomlType::ArrayOfTables => "array of tables",
        }
    }
}

/// Whether a value of type `found` may stand where the defaults declare one
/// of type `expected`: the same type, or an integer for a float.
pub open spec fn accepts(expected: TomlType, found: TomlType) -> bool {
    expected == found || (expected == TomlType::Float && found == TomlType::Integer)
}

/// Whether a user value of type `found` stands where the defaults declare
/// one of type `expected`. Integers are accepted for floats, not the reverse.
pub fn compatible(expected: TomlType, found: TomlType) -> (r: bool)
    ensures
        r == accepts(expected, found),
{
    expected == found || (expected == TomlType::Float && found == TomlType::Integer)
}

/// A byte range in the user's source.
#[derive(Clone, Copy, PartialEq, Eq, Structural, Debug)]
pub struct Span {
    /// First byte, inclusive.
    pub start: usize,
    /// Last byte, exclusive.
    pub end: usize,
}

/// A 1-based line and column in the user's source.
#[derive(Clone, Copy, PartialEq, Eq, Structural, Debug)]
pub struct Position {
    /// 1-based line.
    pub line: usize,
    /// 1-based column.
    pub column: usize,
}

/// How many `\n` bytes there are in `bytes`.
pub open spec fn newlines(bytes: Seq<u8>) -> nat
    decreases bytes.len(),
{
    if bytes.len() == 0 {
        0
    } else {
        newlines(bytes.drop_last()) + if bytes.last() == 10u8 {
            1nat
        } else {
            0nat
        }
    }
}

/// How many characters UTF-8 bytes after the last `\n` in `bytes` encode:
/// the bytes that are not continuation bytes, counted from that newline on.
pub open spec fn chars_since_newline(bytes: Seq<u8>) -> nat
    decreases bytes.len(),
{
    if bytes.len() == 0 {
        0
    } else if bytes.last() == 10u8 {
        0
    } else {
        chars_since_newline(bytes.drop_last()) + if bytes.last() < 0x80u8 || bytes.last()
            >= 0xC0u8 {
            1nat
        } else {
            0nat
        }
    }
}

/// The line and column of a byte offset into UTF-8 text.
pub open spec fn position_of(bytes: Seq<u8>, offset: int) -> (nat, nat) {
    let at = if offset < bytes.len() {
        offset
    } else {
        bytes.len() as int
    };
    (newlines(bytes.subrange(0, at)) + 1, chars_since_newline(bytes.subrange(0, at)) + 1)
}

impl Position {
    /// The line and column of a byte offset. The column counts characters, so a
    /// multi-byte character before the key counts once.
    pub fn of(src: &str, offset: usize) -> (p: Self)
        requires
            src.spec_bytes().len() < usize::MAX,
        ensures
            (p.line as nat, p.column as nat) == position_of(src.spec_bytes(), offset as int),
    {
        let bytes = src.as_bytes();
        let end: usize = if offset < bytes.len() {
            offset
        } else {
            bytes.len()
        };
        let mut line: usize = 1;
        let mut column: usize = 1;
        let mut i: usize = 0;
        assert(bytes@.subrange(0, 0) =~= Seq::<u8>::empty());
        while i < end
            invariant
                end <= bytes@.len(),
                bytes@ == src.spec_bytes(),
                i <= end,
                line == newlines(bytes@.subrange(0, i as int)) + 1,
                column == chars_since_newline(bytes@.subrange(0, i as int)) + 1,
                line <= i + 1,
                column <= i + 1,
                bytes@.len() < usize::MAX,
            decreases end - i,
        {
            let b = bytes[i];
            let ghost next = bytes@.subrange(0, i + 1);
            assert(next.drop_last() =~= bytes@.subrange(0, i as int));
            assert(next.last() == b);
            if b == 10u8 {
                line = line + 1;
                column = 1;
            } else if b < 0x80u8 || b >= 0xC0u8 {
                column = column + 1;
            }
            i = i + 1;
        }
        Position { line, column }
    }
}

/// One observation about one key, positioned in the user's source.
#[derive(Debug, Clone, PartialEq, Eq)]
pub struct Diagnostic {
    /// What was observed.
    pub kind: DiagnosticKind,
    /// Whether an application should refuse to start.
    pub severity: Severity,
    /// The key this concerns.
    pub path: DottedPath,
    /// 1-based line in the user's source.
    pub line: usize,
    /// 1-based column in the user's source.
    pub column: usize,
}

/// The severity every diagnostic of a kind carries.
pub open spec fn severity_spec(kind: DiagnosticKind) -> Severity {
    match kind {
        DiagnosticKind::TypeMismatch { .. } => Severity::Error,
        _ => Severity::Warning,
    }
}

impl Diagnostic {
    /// The severity every diagnostic of a given kind carries.
    pub fn severity_of(kind: &DiagnosticKind) -> (r: Severity)
        ensures
            r == severity_spec(*kind),
    {
        match kind {
            DiagnosticKind::UnknownKey => Severity::Warning,
            DiagnosticKind::Migrated { .. } => Severity::Warning,
            DiagnosticKind::TypeMismatch { .. } => Severity::Error,
        }
    }

    /// A diagnostic of a kind, at a position.
    pub fn new(kind: DiagnosticKind, path: DottedPath, at: Position) -> (d: Self)
        ensures
            d.kind == kind,
            d.severity == severity_spec(kind),
            d.path == path,
            d.line == at.line,
            d.column == at.column,
    {
        let severity = Self::severity_of(&kind);
        Diagnostic { kind, severity, path, line: at.line, column: at.column }
    }
}

/// The kinds of observation a merge produces.
#[derive(Debug, Clone, PartialEq, Eq)]
pub enum DiagnosticKind {
    /// The defaults do not declare this key. The value is kept, never deleted.
    UnknownKey,
    /// The user's value has an incompatible TOML type. Integer values are
    /// accepted for float defaults. The value is kept exactly as written.
    TypeMismatch {
        /// The type the defaults declare.
        expected: TomlType,
        /// The type the user wrote.
        found: TomlType,
    },
    /// A rename rule moved this value.
    Migrated {
        /// Where the value was before the rule ran.
        from: DottedPath,
    },
}

/// What a diagnostic observed, in the words a report prints.
pub open spec fn kind_text(kind: DiagnosticKind) -> Seq<char> {
    match kind {
        DiagnosticKind::UnknownKey => "no such option in the defaults"@,
        DiagnosticKind::TypeMismatch { expected, found } => "expected "@ + toml_type_name(expected)
            + ", found "@ + toml_type_name(found),
        DiagnosticKind::Migrated { from } => "moved from "@ + path_text(from@),
    }
}

impl DiagnosticKind {
    /// What the diagnostic observed, in the words a report prints.
    pub fn describe(&self) -> (r: String)
        ensures
            r@ == kind_text(*self),
    {
        match self {
            DiagnosticKind::UnknownKey => {
                let r = "no such option in the defaults".to_owned();
                proof {
                    reveal_strlit("no such option in the defaults");
                }
                r
            },
            DiagnosticKind::TypeMismatch { expected, found } => {
                let mut r = "expected ".to_owned();
                r.append(expected.name());
                r.append(", found ");
                r.append(found.name());
                r
            },
            DiagnosticKind::Migrated { from } => {
                let mut r = "moved from ".to_owned();
                r.append(from.to_string().as_str());
                r
            },
        }
    }
}

/// Everything the merge has to say about the user's document.
///
/// Every diagnostic in it carries the severity its kind calls for.
#[derive(Debug, PartialEq, Eq)]
pub struct Report {
    diagnostics: Vec<Diagnostic>,
}

/// Whether any diagnostic is an error.
pub open spec fn any_error(ds: Seq<Diagnostic>) -> bool {
    exists|i: int| 0 <= i < ds.len() && ds[i].severity == Severity::Error
}

/// Whether any diagnostic is a type mismatch.
pub open spec fn any_mismatch(ds: Seq<Diagnostic>) -> bool {
    exists|i: int| 0 <= i < ds.len() && ds[i].kind is TypeMismatch
}

/// Whether every diagnostic carries the severity its kind calls for.
pub open spec fn severities_fit(ds: Seq<Diagnostic>) -> bool {
    forall|i: int| 0 <= i < ds.len() ==> (#[trigger] ds[i]).severity == severity_spec(ds[i].kind)
}

/// In a list of diagnostics whose severities fit their kinds, an error is
/// there exactly when a type mismatch is: unknown keys and moved values are
/// warnings, a value of the wrong type is an error.
pub proof fn lemma_errors_are_type_mismatches(ds: Seq<Diagnostic>)
    requires
        severities_fit(ds),
    ensures
        any_error(ds) <==> any_mismatch(ds),
{
    if any_error(ds) {
        let i = choose|i: int| 0 <= i < ds.len() && ds[i].severity == Severity::Error;
        assert(ds[i].severity == severity_spec(ds[i].kind));
    }
    if any_mismatch(ds) {
        let i = choose|i: int| 0 <= i < ds.len() && ds[i].kind is TypeMismatch;
        assert(ds[i].severity == severity_spec(ds[i].kind));
    }
}

impl Report {
    #[verifier::type_invariant]
    spec fn fits(self) -> bool {
        severities_fit(self.diagnostics@)
    }

    /// The diagnostics, in the order they were noticed.
    pub closed spec fn entries(self) -> Seq<Diagnostic> {
        self.diagnostics@
    }

    /// A report of nothing.
    pub fn new() -> (r: Self)
        ensures
            r.entries().len() == 0,
    {
        Report { diagnostics: Vec::new() }
    }

    /// Everything the merge noticed, in the order it was noticed.
    pub fn diagnostics(&self) -> (r: &[Diagnostic])
        ensures
            r@ == self.entries(),
    {
        self.diagnostics.as_slice()
    }

    /// Whether anything in the report is an [`Severity::Error`], which is
    /// whether the merge found a value of a type the defaults do not accept.
    pub fn has_errors(&self) -> (r: bool)
        ensures
            r == any_error(self.entries()),
            r == any_mismatch(self.entries()),
    {
        proof {
            use_type_invariant(self);
            lemma_errors_are_type_mismatches(self.diagnostics@);
        }
        let mut i: usize = 0;
        while i < self.diagnostics.len()
            invariant
                i <= self.diagnostics@.len(),
                any_error(self.diagnostics@) <==> any_mismatch(self.diagnostics@),
                forall|j: int| 0 <= j < i ==> self.diagnostics@[j].severity != Severity::Error,
            decreases self.diagnostics.len() - i,
        {
            if self.diagnostics[i].severity == Severity::Error {
                return true;
            }
            i = i + 1;
        }
        false
    }

    /// Adds one observation at the end.
    pub fn push(&mut self, diagnostic: Diagnostic)
        requires
            diagnostic.severity == severity_spec(diagnostic.kind),
        ensures
            final(self).entries() == old(self).entries().push(diagnostic),
    {
        proof {
            use_type_invariant(&*self);
        }
        let mut all: Vec<Diagnostic> = Vec::new();
        std::mem::swap(&mut all, &mut self.diagnostics);
        all.push(diagnostic);
        self.diagnostics = all;
    }
}

/// Where each key sits in the user's source, harvested before the spans are
/// dropped by the editable form of the document: every key the person wrote
/// in a table, by its path, with its span where `toml_edit` kept one.
#[derive(Debug)]
pub struct SpanIndex {
    pub spans: Vec<(DottedPath, Option<Span>)>,
}

/// The span recorded last for a path.
pub open spec fn span_of(spans: Seq<(DottedPath, Option<Span>)>, path: Seq<Seq<char>>) -> Option<Span>
    decreases spans.len(),
{
    if spans.len() == 0 {
        None
    } else if spans.last().0@ == path {
        spans.last().1
    } else {
        span_of(spans.drop_last(), path)
    }
}

/// Whether an index has recorded a path.
pub open spec fn recorded(spans: Seq<(DottedPath, Option<Span>)>, path: Seq<Seq<char>>) -> bool {
    exists|k: int| 0 <= k < spans.len() && (#[trigger] spans[k]).0@ == path
}

/// A path one name deeper, or the name alone at the root.
pub open spec fn under_path(path: Option<&DottedPath>, rest: Seq<Seq<char>>) -> Seq<Seq<char>> {
    match path {
        Some(p) => p@ + rest,
        None => rest,
    }
}

impl SpanIndex {
    /// An index of nothing.
    pub fn new() -> (r: Self)
        ensures
            r.spans@.len() == 0,
    {
        SpanIndex { spans: Vec::new() }
    }

    /// Harvests the key spans of a parsed table, through the tables under it:
    /// every key reached from the root through tables is recorded under its
    /// whole path.
    ///
    /// Entries of an array of tables are never walked into: the user's array
    /// replaces the default one whole, so nothing inside it is ever compared
    /// against a default and nothing there is reported.
    pub(crate) fn build(root: &TableNode) -> (r: Self)
        ensures
            forall|segs: Seq<Seq<char>>| taken_at(*root, segs) is Some ==> recorded(r.spans@, segs),
    {
        let mut index = SpanIndex::new();
        index.walk(root, None);
        index
    }

    fn walk(&mut self, table: &TableNode, path: Option<&DottedPath>)
        ensures
            final(self).spans@.len() >= old(self).spans@.len(),
            forall|k: int| 0 <= k < old(self).spans@.len() ==> #[trigger] final(self).spans@[k] == old(self).spans@[k],
            forall|segs: Seq<Seq<char>>|
                taken_at(*table, segs) is Some ==> recorded(final(self).spans@, under_path(path, segs)),
        decreases table,
    {
        let mut i: usize = 0;
        while i < table.entries.len()
            invariant
                i <= table.entries@.len(),
                self.spans@.len() >= old(self).spans@.len(),
                forall|k: int| 0 <= k < old(self).spans@.len() ==> #[trigger] self.spans@[k] == old(self).spans@[k],
                forall|segs: Seq<Seq<char>>|
                    taken_at(*table, segs) is Some && crate::model::first_from(table.entries@, segs[0], 0) < i
                        ==> recorded(self.spans@, under_path(path, segs)),
            decreases table.entries.len() - i,
        {
            let entry = &table.entries[i];
            assert(decreases_to!(table => table.entries@[i as int]));
            let child = match path {
                Some(p) => p.child(entry.key.name.as_str()),
                None => DottedPath::new(entry.key.name.as_str()),
            };
            let ghost before = self.spans@;
            let span = match key_span(&entry.key.raw) {
                Some((start, end)) => Some(Span { start, end }),
                None => None,
            };
            self.spans.push((child.duplicate(), span));
            let ghost mid = self.spans@;
            proof {
                assert(mid[before.len() as int].0@ == child@);
            }
            match &entry.item {
                Node::Table(sub) => {
                    assert(decreases_to!(table => sub));
                    self.walk(sub, Some(&child));
                },
                _ => {},
            }
            proof {
                assert forall|segs: Seq<Seq<char>>|
                    taken_at(*table, segs) is Some && crate::model::first_from(table.entries@, segs[0], 0) < i + 1
                        implies recorded(self.spans@, under_path(path, segs)) by {
                    let f = crate::model::first_from(table.entries@, segs[0], 0);
                    if f < i {
                        let k = choose|k: int| 0 <= k < before.len() && (#[trigger] before[k]).0@ == under_path(path, segs);
                        assert(self.spans@[k] == mid[k]);
                    } else {
                        crate::model::lemma_first_from_found(table.entries@, segs[0], 0);
                        assert(segs[0] == entry.key.name@);
                        if segs.len() == 1 {
                            assert(under_path(path, segs) =~= child@);
                            assert(self.spans@[before.len() as int] == mid[before.len() as int]);
                        } else {
                            if let Node::Table(sub) = entry.item {
                                assert(taken_at(sub, segs.drop_first()) is Some);
                                assert(under_path(Some(&child), segs.drop_first()) =~= under_path(path, segs));
                            }
                        }
                    }
                }
            }
            i = i + 1;
        }
        proof {
            assert forall|segs: Seq<Seq<char>>| taken_at(*table, segs) is Some implies recorded(
                self.spans@,
                under_path(path, segs),
            ) by {
                crate::model::lemma_first_from_found(table.entries@, segs[0], 0);
            }
        }
    }

    /// The last span recorded for a path.
    pub fn find(&self, path: &DottedPath) -> (r: Option<Span>)
        ensures
            r == span_of(self.spans@, path@),
    {
        let mut i: usize = self.spans.len();
        assert(self.spans@.subrange(0, i as int) =~= self.spans@);
        while i > 0
            invariant
                i <= self.spans@.len(),
                span_of(self.spans@, path@) == span_of(self.spans@.subrange(0, i as int), path@),
            decreases i,
        {
            let ghost s = self.spans@.subrange(0, i as int);
            assert(s.drop_last() =~= self.spans@.subrange(0, i - 1));
            if self.spans[i - 1].0.same(path) {
                return self.spans[i - 1].1;
            }
            i = i - 1;
        }
        None
    }

    /// Where a key sits in the user's source, or the start of the document
    /// when the key is not one the user wrote.
    pub fn position(&self, src: &str, path: &DottedPath) -> (p: Position)
        ensures
            match span_of(self.spans@, path@) {
                Some(span) => src.spec_bytes().len() < usize::MAX ==> (p.line as nat, p.column as nat)
                    == position_of(src.spec_bytes(), span.start as int),
                None => p.line == 1 && p.column == 1,
            },
    {
        match self.find(path) {
            Some(span) => {
                let n = src.as_bytes().len();
                if n < usize::MAX {
                    Position::of(src, span.start)
                } else {
                    Position { line: 1, column: 1 }
                }
            },
            None => Position { line: 1, column: 1 },
        }
    }
}

} // verus!
