//! What the caller configures before a merge, and what stops one.

use vstd::prelude::*;

use toml_edit::TomlError;

use crate::decor::{DEFAULT_PROSE_MARKER, DEFAULT_SAMPLE_MARKER, Marker, kind_of};
use crate::merge::{MergeEngine, Merged, Newline, unknown_noted};
use crate::model::{has_name, path_in};
use crate::path::{DottedPath, PathError};
use crate::source::SourceDocument;
use crate::template::{all_lines, text_lines};
use crate::text::{chars_of, push_char, starts_with};
use crate::toml::{error_text, is_toml, key_path_names, rendering, text_keys};

verus! {

/// A document that could not be parsed, or a merge that cannot start. Which
/// document is part of the error, because a broken default document is the
/// application's fault and a broken user document is the person's.
#[derive(Debug)]
#[allow(inconsistent_fields)]
pub enum Error {
    /// The shipped default document failed to parse.
    DefaultParse {
        /// The underlying parse failure.
        source: TomlError,
    },
    /// The user's document failed to parse.
    UserParse {
        /// The underlying parse failure.
        source: TomlError,
    },
    /// The defaults parsed and hold text, but declare no keys and carry no
    /// line the tool owns.
    ///
    /// A defaults document made only of comments has nothing to merge into
    /// and nothing to document. That is an application bug, so it fails here
    /// instead of becoming a state the merge has to carry. A zero-byte
    /// defaults document is a separate case and is allowed.
    DefaultsDeclareNoKeys,
    /// A rename rule was given a path that is not a TOML key path.
    MigrationPath {
        /// Why the path is not one.
        source: PathError,
    },
}

impl Error {
    /// What went wrong, in the words the command prints. A parse failure is
    /// followed by `toml_edit`'s own message.
    pub fn describe(&self) -> (r: String)
        ensures
            self is DefaultsDeclareNoKeys ==> r@ == "the default document declares no keys"@,
            self is DefaultParse ==> starts_with(r@, "the default document does not parse: "@),
            self is UserParse ==> starts_with(r@, "the user document does not parse: "@),
            self matches Error::MigrationPath { source: PathError::Empty } ==> r@
                == "a rename rule has an unreadable path: it names no key"@,
            self matches Error::MigrationPath { source: PathError::Toml(_) } ==> starts_with(
                r@,
                "a rename rule has an unreadable path: "@,
            ),
    {
        match self {
            Error::DefaultParse { source } => led_by("the default document does not parse: ", source),
            Error::UserParse { source } => led_by("the user document does not parse: ", source),
            Error::DefaultsDeclareNoKeys => "the default document declares no keys".to_owned(),
            Error::MigrationPath { source } => match source {
                PathError::Toml(source) => led_by("a rename rule has an unreadable path: ", source),
                PathError::Empty => "a rename rule has an unreadable path: it names no key".to_owned(),
            },
        }
    }
}

/// A lead-in, then `toml_edit`'s message for a parse failure.
fn led_by(lead: &str, error: &TomlError) -> (r: String)
    ensures
        starts_with(r@, lead@),
{
    let mut r = lead.to_owned();
    r.append(error_text(error).as_str());
    assert(r@.subrange(0, lead@.len() as int) =~= lead@);
    r
}

/// One rename rule, applied before the merge walk.
///
/// It fires when `from` is present in the user document and `to` is absent.
/// The paths are held as written until the merge reads them, so a builder
/// call never fails.
#[derive(Debug)]
pub struct Migration {
    pub from: Result<DottedPath, PathError>,
    pub to: Result<DottedPath, PathError>,
}

/// Builder holding the marker, the rename rules and the output alignment.
#[derive(Debug)]
pub struct MergeOptions {
    pub marker: Marker,
    pub migrations: Vec<Migration>,
    pub align: bool,
}

/// Text with every `\r\n` written as `\n`.
pub open spec fn lf_only(s: Seq<char>) -> Seq<char>
    decreases s.len(),
{
    if s.len() == 0 {
        seq![]
    } else if s.len() >= 2 && s[0] == '\r' && s[1] == '\n' {
        seq!['\n'] + lf_only(s.skip(2))
    } else {
        seq![s[0]] + lf_only(s.skip(1))
    }
}

/// Whether some line of a text is one that markers of the given text own.
pub open spec fn owns_a_line_spec(prose: Seq<char>, sample: Seq<char>, text: Seq<char>) -> bool {
    exists|i: int|
        0 <= i < all_lines(text).len() && {
            let k = kind_of(prose, sample, #[trigger] all_lines(text)[i]);
            k is Prose || k is Sample
        }
}

/// Whether every rename rule's paths read as key paths.
pub open spec fn rules_readable(rules: Seq<Migration>) -> bool {
    forall|i: int| 0 <= i < rules.len() ==> (#[trigger] rules[i]).from is Ok && rules[i].to is Ok
}

/// Whether defaults, their line endings made `\n`, are TOML that holds text
/// but declares no key and carries no line the markers own.
pub open spec fn declares_nothing(prose: Seq<char>, sample: Seq<char>, text: Seq<char>) -> bool {
    &&& readable(text)
    &&& lf_only(text).len() > 0
    &&& text_keys(lf_only(text)).len() == 0
    &&& !owns_a_line_spec(prose, sample, lf_only(text))
}

/// Whether a document's text, with its line endings made `\n`, is one the
/// merge can read: nothing at all, or TOML.
pub open spec fn readable(text: Seq<char>) -> bool {
    lf_only(text).len() == 0 || is_toml(lf_only(text))
}

/// Whether text holds a `\r\n`.
pub open spec fn has_crlf(s: Seq<char>) -> bool {
    exists|i: int| 0 <= i < s.len() - 1 && #[trigger] s[i] == '\r' && s[i + 1] == '\n'
}

/// Text with every `\r\n` written as `\n`.
pub fn to_lf(text: &str) -> (r: String)
    ensures
        r@ == lf_only(text@),
{
    let cs = chars_of(text);
    let mut out = String::new();
    let mut i: usize = 0;
    assert(cs@.skip(0) =~= cs@);
    assert(out@ =~= Seq::<char>::empty());
    while i < cs.len()
        invariant
            i <= cs@.len(),
            cs@ == text@,
            lf_only(cs@) == out@ + lf_only(cs@.skip(i as int)),
        decreases cs.len() - i,
    {
        let ghost rest = cs@.skip(i as int);
        if cs[i] == '\r' && i + 1 < cs.len() && cs[i + 1] == '\n' {
            assert(rest.skip(2) =~= cs@.skip(i + 2));
            push_char(&mut out, '\n');
            i = i + 2;
        } else {
            assert(rest.skip(1) =~= cs@.skip(i + 1));
            push_char(&mut out, cs[i]);
            i = i + 1;
        }
        assert(lf_only(cs@) =~= out@ + lf_only(cs@.skip(i as int)));
    }
    assert(cs@.skip(i as int) =~= Seq::<char>::empty());
    assert(out@ + lf_only(Seq::<char>::empty()) =~= out@);
    out
}

/// Whether text holds a `\r\n`.
pub fn holds_crlf(text: &str) -> (r: bool)
    ensures
        r == has_crlf(text@),
{
    let cs = chars_of(text);
    let mut i: usize = 0;
    while i < cs.len()
        invariant
            i <= cs@.len(),
            cs@ == text@,
            forall|j: int| 0 <= j < i && j + 1 < cs@.len() ==> !(#[trigger] cs@[j] == '\r' && cs@[j + 1] == '\n'),
        decreases cs.len() - i,
    {
        if cs[i] == '\r' && i + 1 < cs.len() && cs[i + 1] == '\n' {
            assert(text@[i as int] == '\r' && text@[i + 1] == '\n');
            return true;
        }
        i = i + 1;
    }
    false
}

impl Default for MergeOptions {
    /// The default markers, no rename rules, and `=` aligned.
    fn default() -> (o: Self)
        ensures
            o.marker.prose@ == DEFAULT_PROSE_MARKER@,
            o.marker.sample@ == DEFAULT_SAMPLE_MARKER@,
            o.migrations@.len() == 0,
            o.align,
    {
        MergeOptions { marker: Marker::standard(), migrations: Vec::new(), align: true }
    }
}

impl MergeOptions {
    /// The default markers, no rename rules, and `=` aligned.
    pub fn new() -> (o: Self)
        ensures
            o.marker.prose@ == DEFAULT_PROSE_MARKER@,
            o.marker.sample@ == DEFAULT_SAMPLE_MARKER@,
            o.migrations@.len() == 0,
            o.align,
    {
        MergeOptions { marker: Marker::standard(), migrations: Vec::new(), align: true }
    }

    /// Sets the two comment prefixes the tool owns: prose first, then the one
    /// on its TOML text.
    pub fn markers(self, prose: &str, sample: &str) -> (o: Self)
        ensures
            o.marker.prose@ == prose@,
            o.marker.sample@ == sample@,
            o.migrations == self.migrations,
            o.align == self.align,
    {
        MergeOptions { marker: Marker::new(prose, sample), ..self }
    }

    /// Adds a rename rule, moving a value from one dotted path to another.
    ///
    /// The paths are read as TOML key paths, so a quoted segment holding a
    /// dot is one segment. An unreadable path is an error at merge time, not
    /// here.
    pub fn migrate(self, from: &str, to: &str) -> (o: Self)
        ensures
            o.migrations@.len() == self.migrations@.len() + 1,
            o.migrations@.subrange(0, self.migrations@.len() as int) == self.migrations@,
            o.migrations@.last().from is Ok <==> (key_path_names(from@) matches Some(n) && n.len() > 0),
            o.migrations@.last().to is Ok <==> (key_path_names(to@) matches Some(n) && n.len() > 0),
            o.migrations@.last().from matches Ok(p) ==> key_path_names(from@) == Some(p@),
            o.migrations@.last().to matches Ok(p) ==> key_path_names(to@) == Some(p@),
            o.migrations@.last().from matches Err(PathError::Toml(_)) <==> key_path_names(from@) is None,
            o.migrations@.last().to matches Err(PathError::Toml(_)) <==> key_path_names(to@) is None,
            o.migrations@.last().from matches Err(PathError::Empty) <==> key_path_names(from@) == Some(
                Seq::<Seq<char>>::empty(),
            ),
            o.migrations@.last().to matches Err(PathError::Empty) <==> key_path_names(to@) == Some(
                Seq::<Seq<char>>::empty(),
            ),
            o.marker == self.marker,
            o.align == self.align,
    {
        let MergeOptions { marker, mut migrations, align } = self;
        migrations.push(Migration { from: DottedPath::parse(from), to: DottedPath::parse(to) });
        assert(migrations@.subrange(0, self.migrations@.len() as int) =~= self.migrations@);
        MergeOptions { marker, migrations, align }
    }

    /// Whether to line up the `=` of every key in a section. On unless
    /// turned off.
    ///
    /// A section is what sits under one `[table]` header, or above the first.
    /// Comments and blank lines between keys start a new group. A value
    /// written over several lines keeps its own spacing and sets no width.
    pub fn align_values(self, yes: bool) -> (o: Self)
        ensures
            o.align == yes,
            o.marker == self.marker,
            o.migrations == self.migrations,
    {
        MergeOptions { align: yes, ..self }
    }

    /// Whether this merge lines up the `=` of every key in a section.
    pub fn aligns_values(&self) -> (r: bool)
        ensures
            r == self.align,
    {
        self.align
    }

    /// The prefix this merge writes prose under.
    pub fn prose_marker(&self) -> (r: &str)
        ensures
            r@ == self.marker.prose@,
    {
        self.marker.prose()
    }

    /// The prefix this merge writes TOML text under.
    pub fn sample_marker(&self) -> (r: &str)
        ensures
            r@ == self.marker.sample@,
    {
        self.marker.sample()
    }

    /// A copy of the options.
    pub fn duplicate(&self) -> (o: Self)
        ensures
            o.marker == self.marker,
            o.align == self.align,
            o.migrations@.len() == self.migrations@.len(),
    {
        let mut migrations: Vec<Migration> = Vec::new();
        let mut i: usize = 0;
        while i < self.migrations.len()
            invariant
                i <= self.migrations@.len(),
                migrations@.len() == i,
            decreases self.migrations.len() - i,
        {
            let m = &self.migrations[i];
            migrations.push(Migration { from: copy_rule_path(&m.from), to: copy_rule_path(&m.to) });
            i = i + 1;
        }
        MergeOptions { marker: self.marker.duplicate(), migrations, align: self.align }
    }

    /// The rename rules with their paths read, or the first that cannot be.
    pub fn resolved_migrations(&self) -> (r: Result<Vec<(DottedPath, DottedPath)>, Error>)
        ensures
            r is Ok <==> forall|i: int|
                0 <= i < self.migrations@.len() ==> (#[trigger] self.migrations@[i]).from is Ok
                    && self.migrations@[i].to is Ok,
            r matches Ok(rules) ==> rules@.len() == self.migrations@.len() && forall|i: int|
                0 <= i < rules@.len() ==> (#[trigger] rules@[i]).0@
                    == self.migrations@[i].from->Ok_0@ && rules@[i].1@
                    == self.migrations@[i].to->Ok_0@,
            r matches Err(e) ==> e is MigrationPath,
    {
        let mut out: Vec<(DottedPath, DottedPath)> = Vec::new();
        let mut i: usize = 0;
        while i < self.migrations.len()
            invariant
                i <= self.migrations@.len(),
                out@.len() == i,
                forall|j: int|
                    0 <= j < i ==> (#[trigger] self.migrations@[j]).from is Ok
                        && self.migrations@[j].to is Ok,
                forall|j: int|
                    0 <= j < i ==> (#[trigger] out@[j]).0@ == self.migrations@[j].from->Ok_0@
                        && out@[j].1@ == self.migrations@[j].to->Ok_0@,
            decreases self.migrations.len() - i,
        {
            let m = &self.migrations[i];
            let from = match &m.from {
                Ok(p) => p.duplicate(),
                Err(e) => return Err(Error::MigrationPath { source: copy_path_error(e) }),
            };
            let to = match &m.to {
                Ok(p) => p.duplicate(),
                Err(e) => return Err(Error::MigrationPath { source: copy_path_error(e) }),
            };
            out.push((from, to));
            i = i + 1;
        }
        Ok(out)
    }

    /// Merges a user document against the defaults.
    ///
    /// The defaults are read first, then the person's document, then the
    /// rename rules; the first of them that cannot be read is the error. A
    /// merge of readable documents and rules succeeds, unless the defaults
    /// hold text but declare no key and carry no line the marker owns.
    pub fn merge(&self, default_src: &str, user_src: &str) -> (r: Result<Merged, Error>)
        ensures
            r matches Ok(m) ==> (m.newline is CrLf <==> has_crlf(user_src@)),
            r matches Ok(m) ==> m.text@ == rendering(m.document),
            r matches Ok(m) ==> crate::toml::document_keys(m.document) == crate::model::first_names(
                crate::model::raw_names(m.tree.entries@),
            ),
            r matches Ok(m) ==> self.migrations@.len() == 0 ==> crate::toml::document_keys(m.document)
                == crate::model::first_names(crate::model::names(m.tree)),
            r matches Ok(m) ==> forall|k: int|
                0 <= k < m.tree.entries@.len() ==> #[trigger] crate::model::holds_value_of(
                    crate::toml::document_table(m.document),
                    m.tree.entries@,
                    k,
                ),
            r matches Ok(m) ==> (lf_only(default_src@).len() > 0 ==> forall|n: Seq<char>|
                text_keys(lf_only(default_src@)).contains(n) ==> has_name(m.tree, n)),
            r matches Ok(m) ==> (lf_only(user_src@).len() > 0 && self.migrations@.len() == 0 ==> forall|
                n: Seq<char>,
            | text_keys(lf_only(user_src@)).contains(n) ==> has_name(m.tree, n)),
            r matches Ok(m) ==> self.migrations@.len() == 0 ==> forall|n: Seq<char>|
                has_name(m.tree, n) ==> (lf_only(default_src@).len() > 0 && text_keys(
                    lf_only(default_src@),
                ).contains(n)) || (lf_only(user_src@).len() > 0 && text_keys(lf_only(user_src@)).contains(
                    n,
                )),
            r matches Ok(m) ==> self.migrations@.len() == 0 ==> forall|n: Seq<char>|
                (lf_only(user_src@).len() > 0 && text_keys(lf_only(user_src@)).contains(n) && !(lf_only(
                    default_src@,
                ).len() > 0 && text_keys(lf_only(default_src@)).contains(n)) && !path_in(
                    m.documented,
                    seq![n],
                )) ==> unknown_noted(m.report.entries(), seq![n]),
            r matches Ok(m) ==> forall|k: int|
                0 <= k < m.report.entries().len() ==> crate::merge::raised_by_merge(
                    #[trigger] m.report.entries()[k],
                ) || (m.report.entries()[k].kind is Migrated && self.migrations@.len() > 0),
            r matches Err(Error::DefaultParse { .. }) <==> !readable(default_src@),
            r matches Err(Error::UserParse { .. }) ==> readable(default_src@) && !readable(
                user_src@,
            ),
            r matches Err(Error::DefaultsDeclareNoKeys) <==> declares_nothing(
                self.marker.prose@,
                self.marker.sample@,
                default_src@,
            ),
            r matches Err(Error::MigrationPath { .. }) ==> readable(default_src@) && readable(
                user_src@,
            ) && !rules_readable(self.migrations@),
            readable(default_src@) && readable(user_src@) && rules_readable(self.migrations@) && (
            lf_only(default_src@).len() == 0 || owns_a_line_spec(self.marker.prose@, self.marker.sample@, lf_only(default_src@)))
                ==> r is Ok,
            readable(default_src@) && readable(user_src@) && rules_readable(self.migrations@)
                && !declares_nothing(self.marker.prose@, self.marker.sample@, default_src@) ==> r is Ok,
            readable(default_src@) && readable(user_src@) && !rules_readable(self.migrations@)
                && !declares_nothing(self.marker.prose@, self.marker.sample@, default_src@) ==> r matches Err(
                Error::MigrationPath { .. },
            ),
            readable(default_src@) && !(r matches Err(Error::DefaultsDeclareNoKeys)) && !readable(
                user_src@,
            ) ==> r matches Err(Error::UserParse { .. }),
    {
        let newline = if holds_crlf(user_src) {
            Newline::CrLf
        } else {
            Newline::Lf
        };
        let ghost default_text = default_src@;
        let ghost user_text = user_src@;
        let default_src = to_lf(default_src);
        let user_src = to_lf(user_src);
        let defaults = match SourceDocument::parse(default_src.as_str()) {
            Ok(d) => d,
            Err(source) => return Err(Error::DefaultParse { source }),
        };
        proof {
            if defaults is Content {
                let root = defaults->root;
                assert(crate::model::names(root).len() == root.entries@.len());
            }
        }
        if defaults.has_text_but_no_keys() && !self.owns_a_line(default_src.as_str()) {
            return Err(Error::DefaultsDeclareNoKeys);
        }
        let (user, spans) = match SourceDocument::parse_with_spans(user_src.as_str()) {
            Ok(parsed) => parsed,
            Err(source) => return Err(Error::UserParse { source }),
        };
        let migrations = self.resolved_migrations()?;
        let engine = MergeEngine::new(
            defaults,
            user,
            user_src.as_str(),
            self.duplicate(),
            migrations,
            spans,
        );
        let ghost u = user;
        let ghost d = defaults;
        let ghost sp = spans;
        let ghost src = user_src@;
        let merged = engine.run(newline);
        proof {
            if d is Content {
                assert forall|j: int| 0 <= j < d->root.entries@.len() implies crate::model::raw_named(
                    #[trigger] d->root.entries@[j],
                ) by {
                    assert(crate::model::read_from_raw(d->root.entries@[j]));
                }
            }
            if u is Content {
                assert forall|j: int| 0 <= j < u->root.entries@.len() implies crate::model::raw_named(
                    #[trigger] u->root.entries@[j],
                ) by {
                    assert(crate::model::read_from_raw(u->root.entries@[j]));
                }
            }
            if self.migrations@.len() == 0 {
                assert forall|n: Seq<char>|
                    (lf_only(user_text).len() > 0 && text_keys(lf_only(user_text)).contains(n) && !(lf_only(
                        default_text,
                    ).len() > 0 && text_keys(lf_only(default_text)).contains(n)) && !path_in(
                        merged.documented,
                        seq![n],
                    )) implies unknown_noted(merged.report.entries(), seq![n]) by {
                    assert(u is Content);
                    assert(has_name(u->root, n));
                    assert(crate::merge::reported_unknown(
                        merged.report.entries(),
                        sp.spans@,
                        vstd::utf8::encode_utf8(src),
                        seq![n],
                    ));
                }
            }
        }
        Ok(merged)
    }

    /// Whether any line of a text is one this merge's marker owns.
    fn owns_a_line(&self, text: &str) -> (r: bool)
        ensures
            r == owns_a_line_spec(self.marker.prose@, self.marker.sample@, text@),
    {
        let lines = text_lines(text);
        let mut i: usize = 0;
        while i < lines.len()
            invariant
                i <= lines@.len(),
                crate::text::views(lines@) == all_lines(text@),
                forall|j: int| 0 <= j < i ==> !self.marker.owns_spec(#[trigger] all_lines(text@)[j]),
            decreases lines.len() - i,
        {
            assert(crate::text::views(lines@)[i as int] == lines@[i as int]@);
            if self.marker.owns(lines[i].as_str()) {
                return true;
            }
            i = i + 1;
        }
        false
    }
}

/// A copy of a rule's path as it was read.
fn copy_rule_path(p: &Result<DottedPath, PathError>) -> (r: Result<DottedPath, PathError>)
    ensures
        r is Ok <==> p is Ok,
        r matches Ok(q) ==> q@ == p->Ok_0@,
{
    match p {
        Ok(path) => Ok(path.duplicate()),
        Err(e) => Err(copy_path_error(e)),
    }
}

/// A copy of a path error.
fn copy_path_error(e: &PathError) -> (r: PathError)
    ensures
        r is Empty <==> e is Empty,
{
    match e {
        PathError::Toml(t) => PathError::Toml(crate::toml::error_copy(t)),
        PathError::Empty => PathError::Empty,
    }
}

} // verus!
