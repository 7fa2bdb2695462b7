//! The merge itself: what runs it, and what comes out.

use vstd::prelude::*;
use vstd::utf8::encode_utf8;

use toml_edit::DocumentMut;

use crate::decor::{
    DefaultEcho, DocBlock, Marker, Prefix, PrefixLine, Sample, opening_blanks, persons_lines,
    render_spec, texts_of, classified, kind_texts, touching_start, LineKind,
};
use crate::model::{
    Entry, KeyNode, Node, TableNode, copy_text, extends, has_name, lemma_extends_names,
    lemma_extends_trans, lemma_first_from_skip, node_type, path_in, table_out, first_from, opt_text, same_entries, value_carried, raw_names, first_names, holds_value_of, raw_named, all_raw_named, gained_raw,
};
use crate::options::{MergeOptions, has_crlf, lf_only};
use crate::path::DottedPath;
use crate::report::{
    Diagnostic, DiagnosticKind, Position, Report, Severity, Span, SpanIndex, TomlType, accepts, compatible,
    position_of, severity_spec, span_of,
};
use crate::source::SourceDocument;
use crate::standing::{Run, Standing, leading_blanks, runs_from, runs_of, standing_runs};
use crate::template::{
    Template, above, above_of, child_names, child_path, comment_out, holds, named_key, prefixed,
    text_or_empty, tool_texts,
};
use crate::text::{after_last_newline, all_ws, chars_of, joined, complete_lines, is_blank, push_char, starts_with, terminated,
    text_eq, views};
use crate::toml::{
    document_new, document_set_root, document_set_trailing, document_text,
    key_new, key_repr_of, rendering, document_keys, document_table, key_text_of,
};

verus! {

/// The line ending a merged file is written with.
#[derive(Clone, Copy, PartialEq, Eq, Debug, Structural)]
pub enum Newline {
    /// `\n`.
    Lf,
    /// `\r\n`.
    CrLf,
}

/// Text with every `\n` written as `\r\n`.
pub open spec fn with_crlf(s: Seq<char>) -> Seq<char>
    decreases s.len(),
{
    if s.len() == 0 {
        seq![]
    } else if s[0] == '\n' {
        seq!['\r', '\n'] + with_crlf(s.skip(1))
    } else {
        seq![s[0]] + with_crlf(s.skip(1))
    }
}

/// Diagnostics `b` that begin with every diagnostic of `a`: a report only
/// ever grows.
pub open spec fn grows(a: Seq<Diagnostic>, b: Seq<Diagnostic>) -> bool {
    a.len() <= b.len() && forall|i: int| 0 <= i < a.len() ==> #[trigger] b[i] == a[i]
}

/// Whether a report says that a key is one the defaults do not know, at
/// the line and column where the person wrote it.
pub open spec fn reported_unknown(
    ds: Seq<Diagnostic>,
    spans: Seq<(DottedPath, Option<Span>)>,
    src: Seq<u8>,
    path: Seq<Seq<char>>,
) -> bool {
    exists|k: int|
        0 <= k < ds.len() && (#[trigger] ds[k]).kind is UnknownKey && ds[k].path@ == path
            && placed_at(spans, src, path, ds[k].line, ds[k].column)
}

/// Whether a report says that a value is of a type the defaults do not
/// accept there, as an error naming both types, at the line and column where
/// the person wrote it.
pub open spec fn reported_mismatch(
    ds: Seq<Diagnostic>,
    spans: Seq<(DottedPath, Option<Span>)>,
    src: Seq<u8>,
    path: Seq<Seq<char>>,
    expected: TomlType,
    found: TomlType,
) -> bool {
    exists|k: int|
        0 <= k < ds.len() && (#[trigger] ds[k]).kind == (DiagnosticKind::TypeMismatch { expected, found })
            && ds[k].severity == Severity::Error && ds[k].path@ == path && placed_at(
            spans,
            src,
            path,
            ds[k].line,
            ds[k].column,
        )
}

/// Whether the report flags the person's value under the `j`th entry of the
/// defaults' table at `path`, where that value is of a type the default
/// does not accept.
pub open spec fn mismatch_flagged(
    defaults: TableNode,
    user: TableNode,
    j: int,
    ds: Seq<Diagnostic>,
    spans: Seq<(DottedPath, Option<Span>)>,
    src: Seq<u8>,
    path: Option<&DottedPath>,
) -> bool {
    let n = defaults.entries@[j].key.name@;
    let u = first_from(user.entries@, n, 0);
    (u >= 0 && !accepts(node_type(defaults.entries@[j].item), node_type(user.entries@[u].item)))
        ==> reported_mismatch(
        ds,
        spans,
        src,
        child_names(path, n),
        node_type(defaults.entries@[j].item),
        node_type(user.entries@[u].item),
    )
}

/// A flag once raised stays in a report that only grows.
proof fn lemma_flagged_grows(
    defaults: TableNode,
    user: TableNode,
    j: int,
    a: Seq<Diagnostic>,
    b: Seq<Diagnostic>,
    spans: Seq<(DottedPath, Option<Span>)>,
    src: Seq<u8>,
    path: Option<&DottedPath>,
)
    requires
        mismatch_flagged(defaults, user, j, a, spans, src, path),
        grows(a, b),
    ensures
        mismatch_flagged(defaults, user, j, b, spans, src, path),
{
    let n = defaults.entries@[j].key.name@;
    let u = first_from(user.entries@, n, 0);
    if u >= 0 && !accepts(node_type(defaults.entries@[j].item), node_type(user.entries@[u].item)) {
        let e = node_type(defaults.entries@[j].item);
        let f = node_type(user.entries@[u].item);
        let k = choose|k: int|
            0 <= k < a.len() && (#[trigger] a[k]).kind == (DiagnosticKind::TypeMismatch { expected: e, found: f })
                && a[k].severity == Severity::Error && a[k].path@ == child_names(path, n) && placed_at(
                spans,
                src,
                child_names(path, n),
                a[k].line,
                a[k].column,
            );
        assert(b[k] == a[k]);
    }
}

/// A move once reported stays in a report that only grows.
proof fn lemma_move_grows(a: Seq<Diagnostic>, b: Seq<Diagnostic>, from: int, rule: (DottedPath, DottedPath))
    requires
        reports_move(a, from, rule),
        grows(a, b),
        0 <= from,
    ensures
        reports_move(b, from, rule),
{
    let k = choose|k: int|
        from <= k < a.len() && ((#[trigger] a[k]).kind matches DiagnosticKind::Migrated { from: f }
            && f@ == rule.0@) && a[k].path@ == rule.1@;
    assert(0 <= k < a.len());
    assert(b[k] == a[k]);
}

/// A flag raised over copies of two tables is one raised over the tables:
/// a copy holds the same names, and items of the same types, in the same
/// places.
proof fn lemma_flagged_copies(
    d: TableNode,
    dc: TableNode,
    u: TableNode,
    uc: TableNode,
    j: int,
    ds: Seq<Diagnostic>,
    spans: Seq<(DottedPath, Option<Span>)>,
    src: Seq<u8>,
)
    requires
        crate::model::same_shape(dc, d),
        crate::model::same_shape(uc, u),
        0 <= j < d.entries@.len(),
        mismatch_flagged(dc, uc, j, ds, spans, src, None),
    ensures
        mismatch_flagged(d, u, j, ds, spans, src, None),
{
    assert(crate::model::names(d)[j] == d.entries@[j].key.name@);
    assert(crate::model::names(dc)[j] == dc.entries@[j].key.name@);
    assert forall|i: int| 0 <= i < u.entries@.len() implies (#[trigger] u.entries@[i]).key.name@
        == uc.entries@[i].key.name@ by {
        assert(crate::model::names(u)[i] == u.entries@[i].key.name@);
        assert(crate::model::names(uc)[i] == uc.entries@[i].key.name@);
    }
    let n = d.entries@[j].key.name@;
    crate::model::lemma_first_from_same_names(u.entries@, uc.entries@, n, 0);
    crate::model::lemma_first_from_found(u.entries@, n, 0);
}

/// Whether a report says that the key at a path is one the defaults do not
/// know.
pub open spec fn unknown_noted(ds: Seq<Diagnostic>, path: Seq<Seq<char>>) -> bool {
    exists|k: int| 0 <= k < ds.len() && (#[trigger] ds[k]).kind is UnknownKey && ds[k].path@ == path
}

/// Whether a diagnostic is one a merge of two tables raises: an unknown
/// key, or a type mismatch between two types the defaults do not accept
/// together, so that an integer given for a float is never one.
pub open spec fn raised_by_merge(d: Diagnostic) -> bool {
    d.kind is UnknownKey || (d.kind matches DiagnosticKind::TypeMismatch { expected, found } && !accepts(
        expected,
        found,
    ))
}

/// Whether every diagnostic `b` has past `a`'s length is one a merge of two
/// tables raises.
pub open spec fn added_by_merge(a: Seq<Diagnostic>, b: Seq<Diagnostic>) -> bool {
    forall|k: int| a.len() <= k < b.len() ==> raised_by_merge(#[trigger] b[k])
}

/// Diagnostics a merge raises in two steps are raised by the merge.
proof fn lemma_added_trans(a: Seq<Diagnostic>, b: Seq<Diagnostic>, c: Seq<Diagnostic>)
    requires
        added_by_merge(a, b),
        added_by_merge(b, c),
        grows(a, b),
        grows(b, c),
    ensures
        added_by_merge(a, c),
        grows(a, c),
{
    assert forall|k: int| a.len() <= k < c.len() implies raised_by_merge(#[trigger] c[k]) by {
        if k < b.len() {
            assert(c[k] == b[k]);
        }
    }
}

/// Whether a key of the person's, in the table at `path`, is one the defaults
/// neither declare there nor document.
pub open spec fn unknown_at(
    defaults: TableNode,
    template: TableNode,
    path: Option<&DottedPath>,
    n: Seq<char>,
) -> bool {
    !has_name(defaults, n) && !path_in(template, child_names(path, n))
}

/// Positions in `out`, from entry `from` on: `dp[j]` holds the defaults'
/// `j`-th key and `up[j]` the person's `j`-th key where that key is unknown
/// there. The defaults' keys come in their order, and after all of them the
/// unknown keys in the order the person wrote them.
pub open spec fn placed(
    defaults: TableNode,
    user: TableNode,
    template: TableNode,
    path: Option<&DottedPath>,
    out: TableNode,
    from: int,
    dp: Seq<int>,
    up: Seq<int>,
) -> bool {
    &&& dp.len() == defaults.entries@.len()
    &&& up.len() == user.entries@.len()
    &&& forall|j: int|
        0 <= j < dp.len() ==> from <= #[trigger] dp[j] < out.entries@.len()
            && out.entries@[dp[j]].key.name@ == defaults.entries@[j].key.name@
    &&& forall|j: int, k: int| 0 <= j < k < dp.len() ==> dp[j] < dp[k]
    &&& forall|j: int|
        0 <= j < up.len() && unknown_at(defaults, template, path, user.entries@[j].key.name@)
            ==> from <= #[trigger] up[j] < out.entries@.len() && out.entries@[up[j]].key.name@
            == user.entries@[j].key.name@
    &&& forall|j: int, k: int|
        0 <= j < up.len() && 0 <= k < dp.len() && unknown_at(
            defaults,
            template,
            path,
            user.entries@[j].key.name@,
        ) ==> dp[k] < up[j]
    &&& forall|j: int, k: int|
        0 <= j < k < up.len() && unknown_at(defaults, template, path, user.entries@[j].key.name@)
            && unknown_at(defaults, template, path, user.entries@[k].key.name@) ==> up[j] < up[k]
}

/// The defaults' keys stand in `out` after entry `from` in the defaults'
/// order, and after all of them the keys only the person has, in the
/// person's order.
pub open spec fn laid_out(
    defaults: TableNode,
    user: TableNode,
    template: TableNode,
    path: Option<&DottedPath>,
    out: TableNode,
    from: int,
) -> bool {
    exists|dp: Seq<int>, up: Seq<int>|
        #[trigger] placed(defaults, user, template, path, out, from, dp, up)
}

/// Every entry `b` holds past the length of `a` is named in `t`.
pub open spec fn gained_from(a: Seq<Entry>, b: Seq<Entry>, t: TableNode) -> bool {
    forall|x: int| a.len() <= x < b.len() ==> has_name(t, #[trigger] b[x].key.name@)
}

/// The entry at a position of a table is one of its names.
proof fn lemma_name_at(t: TableNode, x: int)
    requires
        0 <= x < t.entries@.len(),
    ensures
        has_name(t, t.entries@[x].key.name@),
{
    assert(crate::model::names(t)[x] == t.entries@[x].key.name@);
}

/// A name a grown table has is one it had before, or the name of an entry
/// it gained.
proof fn lemma_grown_name(a: TableNode, b: TableNode, n: Seq<char>) -> (x: int)
    requires
        extends(a.entries@, b.entries@),
        has_name(b, n),
    ensures
        has_name(a, n) || (a.entries@.len() <= x < b.entries@.len() && b.entries@[x].key.name@
            == n),
{
    let k = crate::model::names(b).index_of(n);
    assert(b.entries@[k].key.name@ == n);
    if k < a.entries@.len() {
        lemma_extends_at(a.entries@, b.entries@, k);
        lemma_name_at(a, k);
    }
    k
}

/// Positions `dp` in `out` of the keys of `defaults`, in the defaults' order.
pub open spec fn order_at(defaults: TableNode, out: TableNode, dp: Seq<int>) -> bool {
    let d = crate::model::names(defaults);
    let o = crate::model::names(out);
    &&& dp.len() == d.len()
    &&& forall|j: int| 0 <= j < dp.len() ==> 0 <= #[trigger] dp[j] < o.len() && o[dp[j]] == d[j]
    &&& forall|j: int, k: int| 0 <= j < k < dp.len() ==> dp[j] < dp[k]
}

/// The keys of `defaults` stand in `out` in the order the defaults give them.
pub open spec fn keeps_order(defaults: TableNode, out: TableNode) -> bool {
    exists|dp: Seq<int>| #[trigger] order_at(defaults, out, dp)
}

/// An entry a table had before it grew is still where it was.
proof fn lemma_extends_at(a: Seq<Entry>, b: Seq<Entry>, x: int)
    requires
        extends(a, b),
        0 <= x < a.len(),
    ensures
        b[x] == a[x],
{
    assert(b.subrange(0, a.len() as int)[x] == b[x]);
}

/// Whether a line and column are where the person's
/// file has the key at `path`, or at the file's start where it has none.
pub open spec fn placed_at(
    spans: Seq<(DottedPath, Option<Span>)>,
    src: Seq<u8>,
    path: Seq<Seq<char>>,
    line: usize,
    column: usize,
) -> bool {
    match span_of(spans, path) {
        Some(span) => src.len() < usize::MAX ==> (line as nat, column as nat) == position_of(
            src,
            span.start as int,
        ),
        None => line == 1 && column == 1,
    }
}

/// Whether a diagnostic reports a move one of the rename rules made: it names
/// the rule's old path, stands at its new one, and is placed where the old
/// path stands in the person's file.
pub open spec fn moved_by_a_rule(
    rules: Seq<(DottedPath, DottedPath)>,
    spans: Seq<(DottedPath, Option<Span>)>,
    src: Seq<u8>,
    d: Diagnostic,
) -> bool {
    exists|r: int|
        0 <= r < rules.len() && (d.kind matches DiagnosticKind::Migrated { from } && from@ == (
        #[trigger] rules[r]).0@) && d.path@ == rules[r].1@ && d.severity == Severity::Warning
            && placed_at(spans, src, rules[r].0@, d.line, d.column)
}

/// A line the tool writes: blank, one of its own, or one that opens with the
/// sample marker.
pub open spec fn tools_line(m: Marker, line: Seq<char>) -> bool {
    !(m.kind(line) is User) || starts_with(line, m.sample@)
}

/// Whether every line of a list is one the tool writes.
pub open spec fn tools_lines(m: Marker, lines: Seq<String>) -> bool {
    forall|j: int| 0 <= j < lines.len() ==> tools_line(m, #[trigger] lines[j]@)
}

/// Sample lines written out, with blank lines before them, keep a list of
/// the tool's lines the tool's.
proof fn lemma_tools_grow(m: Marker, a: Seq<String>, gap: Seq<String>, b: Seq<String>)
    requires
        tools_lines(m, a),
        forall|j: int| 0 <= j < gap.len() ==> (#[trigger] gap[j])@.len() == 0,
        forall|j: int|
            0 <= j < b.len() ==> (#[trigger] b[j])@.len() == 0 || m.owns_spec(b[j]@) || starts_with(
                b[j]@,
                m.sample@,
            ),
    ensures
        tools_lines(m, a + gap + b),
{
    let all = a + gap + b;
    assert forall|j: int| 0 <= j < all.len() implies tools_line(m, #[trigger] all[j]@) by {
        if j < a.len() {
            assert(all[j] == a[j]);
        } else if j < a.len() + gap.len() {
            assert(all[j] == gap[j - a.len()]);
            assert(all_ws(all[j]@));
        } else {
            assert(all[j] == b[j - a.len() - gap.len()]);
            if all[j]@.len() == 0 {
                assert(all_ws(all[j]@));
            }
        }
    }
}

/// The text after a document's last element.
pub open spec fn trailing_of(d: SourceDocument) -> Seq<char> {
    match d {
        SourceDocument::Empty => seq![],
        SourceDocument::Content { trailing, .. } => trailing@,
    }
}

/// The text after the last key: empty, or a blank line, then the tool's
/// lines, then the person's. The person's are every comment they wrote there
/// and none of the tool's lines, so the text is empty only where they wrote
/// no comment there.
pub open spec fn closing(
    m: Marker,
    persons: Seq<Seq<char>>,
    r: Seq<char>,
    tool: Seq<Seq<char>>,
    mine: Seq<Seq<char>>,
) -> bool {
    &&& r.len() > 0 ==> r == seq!['\n'] + terminated(tool) + terminated(mine)
    &&& forall|j: int| 0 <= j < tool.len() ==> tools_line(m, #[trigger] tool[j])
    &&& forall|j: int| 0 <= j < mine.len() ==> !m.owns_spec(#[trigger] mine[j])
    &&& forall|i: int|
        0 <= i < persons.len() && #[trigger] m.kind(persons[i]) is User ==> r.len() > 0
            && mine.contains(persons[i])
}

/// Lines from the first one that is not blank.
pub open spec fn skip_blanks(ls: Seq<Seq<char>>) -> Seq<Seq<char>>
    decreases ls.len(),
{
    if ls.len() == 0 || !all_ws(ls[0]) {
        ls
    } else {
        skip_blanks(ls.drop_first())
    }
}

/// The text after the last key, from its parts: the optional keys nothing
/// came after, a blank line between them and the defaults' standing text,
/// that text, then the person's lines. The tool's part starts at its first
/// line that is not blank, and where neither part holds anything nothing is
/// written at all.
pub open spec fn closing_text(pending: Seq<Seq<char>>, standing: Seq<Seq<char>>, mine: Seq<Seq<char>>) -> Seq<
    char,
> {
    let gap: Seq<Seq<char>> = if pending.len() > 0 && standing.len() > 0 {
        seq![seq![]]
    } else {
        seq![]
    };
    let tool = skip_blanks(pending + gap + standing);
    if tool.len() == 0 && mine.len() == 0 {
        seq![]
    } else {
        seq!['\n'] + terminated(tool) + terminated(mine)
    }
}

/// Whether a block's floating lines open with the optional keys that were
/// waiting: set apart by a blank line unless the block opens its table, and
/// followed by one.
pub open spec fn opens_with_pending(pending: Seq<Seq<char>>, first: bool, floating: Seq<Seq<char>>) -> bool {
    pending.len() > 0 ==> {
        let lead = (if first {
            Seq::<Seq<char>>::empty()
        } else {
            seq![Seq::<char>::empty()]
        }) + pending + seq![Seq::<char>::empty()];
        lead.len() <= floating.len() && floating.subrange(0, lead.len() as int) == lead
    }
}

/// The sample a key's block shows for a value the defaults ship: none of
/// its own where the person kept that value, the shipped value echoed where
/// their value differs or is of a type the defaults do not accept there.
pub open spec fn echo_rule(default: Entry, user: Entry, s: Sample) -> bool {
    default.item matches Node::Value(d) ==> {
        let agreed = accepts(node_type(default.item), node_type(user.item));
        if agreed && user.item is Value && user.item->Value_0.text@ == d.text@ {
            !(s is Echo)
        } else if !agreed || user.item is Value {
            s matches Sample::Echo(e) && e.key@ == default.key.repr@ && e.value@ == d.text@
        } else {
            true
        }
    }
}

/// The sample a set optional key's block shows for a value the template
/// documents: none of its own where the person kept that value, the
/// documented value echoed where theirs differs.
pub open spec fn optional_echo(template: Entry, user: Entry, s: Sample) -> bool {
    (template.item is Value && user.item is Value) ==> if user.item->Value_0.text@
        == template.item->Value_0.text@ {
        !(s is Echo)
    } else {
        s matches Sample::Echo(e) && e.key@ == template.key.repr@ && e.value@ == template.item->Value_0.text@
    }
}

/// Whether a block shows the given sample lines: none where there are none,
/// those lines otherwise.
pub open spec fn sample_shows(s: Sample, lines: Seq<Seq<char>>) -> bool {
    if lines.len() == 0 {
        s is Absent
    } else {
        s matches Sample::Lines(l) && views(l@) == lines
    }
}

/// Whether a block shows the prose of the block touching a key in the text
/// above it, and, unless it echoes a shipped value, that block's sample
/// lines.
pub open spec fn shows_touching(m: Marker, above: Seq<char>, b: DocBlock) -> bool {
    exists|ls: Seq<PrefixLine>|
        #[trigger] classified(m, complete_lines(above), ls) && {
            let t = ls.subrange(touching_start(ls), ls.len() as int);
            &&& views(b.prose@) == kind_texts(t, LineKind::Prose)
            &&& !(b.sample is Echo) ==> sample_shows(b.sample, kind_texts(t, LineKind::Sample))
        }
}

/// Whether a text ends with another.
pub open spec fn ends_with(s: Seq<char>, t: Seq<char>) -> bool {
    t.len() <= s.len() && s.subrange(s.len() - t.len(), s.len() as int) == t
}

/// What a key's prefix keeps of the person's text: their comment lines, with
/// the blank lines among and after them, then the key's indentation.
pub open spec fn persons_tail(m: Marker, above: Seq<char>) -> Seq<char> {
    terminated(persons_lines(m, complete_lines(above))) + after_last_newline(above)
}

/// What a key the defaults do not declare keeps above it: its leading blank
/// lines, then the person's text.
pub open spec fn kept_above(m: Marker, above: Seq<char>) -> Seq<char> {
    terminated(opening_blanks(m, complete_lines(above))) + persons_tail(m, above)
}

/// A rendered block ends with the person's lines and the key's indentation.
pub proof fn lemma_render_tail(b: DocBlock, m: Marker)
    ensures
        ends_with(render_spec(b, m), terminated(views(b.user_lines@)) + b.indent@),
{
    let t = terminated(views(b.user_lines@)) + b.indent@;
    let r = render_spec(b, m);
    let head = terminated(views(b.floating@)) + (if b.floating@.len() == 0 {
        terminated(views(b.leading_blanks@))
    } else {
        seq![]
    }) + terminated(views(b.prose@)) + crate::decor::sample_text(m, b.sample);
    assert(r =~= head + t);
    assert(r.subrange(r.len() - t.len(), r.len() as int) =~= t);
}

/// A file written back with `\r\n` has no line ending in a bare `\n`: every
/// `\n` in it comes right after a `\r`.
pub proof fn lemma_no_bare_line_feed(s: Seq<char>)
    ensures
        forall|i: int|
            0 <= i < with_crlf(s).len() && #[trigger] with_crlf(s)[i] == '\n' ==> i > 0
                && with_crlf(s)[i - 1] == '\r',
    decreases s.len(),
{
    if s.len() > 0 {
        lemma_no_bare_line_feed(s.skip(1));
        let rest = with_crlf(s.skip(1));
        let head = if s[0] == '\n' {
            seq!['\r', '\n']
        } else {
            seq![s[0]]
        };
        assert(with_crlf(s) =~= head + rest);
        assert forall|i: int|
            0 <= i < with_crlf(s).len() && #[trigger] with_crlf(s)[i] == '\n' implies i > 0
                && with_crlf(s)[i - 1] == '\r' by {
            if i >= head.len() {
                let j = i - head.len();
                assert(rest[j] == '\n');
                if j == 0 {
                    assert(head.last() == '\r' || head == seq![s[0]]);
                }
            }
        }
    }
}

/// What is written with `\r\n` never opens with a line feed.
proof fn lemma_crlf_opens(s: Seq<char>)
    requires
        s.len() > 0,
    ensures
        with_crlf(s).len() > 0,
        with_crlf(s)[0] != '\n',
{
}

/// A file written back with `\r\n` reads back, its line endings made `\n`
/// again, as exactly the text that was written; and where that text has a
/// line ending, the file is again one written with `\r\n`, so the next merge
/// keeps the person's line ending.
pub proof fn lemma_crlf_reads_back(s: Seq<char>)
    ensures
        lf_only(with_crlf(s)) == s,
        s.contains('\n') ==> has_crlf(with_crlf(s)),
    decreases s.len(),
{
    if s.len() > 0 {
        let rest = s.skip(1);
        lemma_crlf_reads_back(rest);
        let w = with_crlf(rest);
        if s[0] == '\n' {
            assert(with_crlf(s) =~= seq!['\r', '\n'] + w);
            assert(with_crlf(s).skip(2) =~= w);
            assert(lf_only(with_crlf(s)) =~= seq!['\n'] + lf_only(w));
            assert(s =~= seq!['\n'] + rest);
            assert(with_crlf(s)[0] == '\r' && with_crlf(s)[1] == '\n');
        } else {
            assert(with_crlf(s) =~= seq![s[0]] + w);
            assert(with_crlf(s).skip(1) =~= w);
            if rest.len() > 0 {
                lemma_crlf_opens(rest);
            }
            assert(lf_only(with_crlf(s)) =~= seq![s[0]] + lf_only(w));
            assert(s =~= seq![s[0]] + rest);
            if s.contains('\n') {
                let k = s.index_of('\n');
                assert(rest[k - 1] == '\n');
                assert(rest.contains('\n'));
                let i = choose|i: int| 0 <= i < w.len() - 1 && #[trigger] w[i] == '\r' && w[i + 1] == '\n';
                assert(with_crlf(s)[i + 1] == '\r' && with_crlf(s)[i + 2] == '\n');
            }
        }
    }
}

/// Text with every `\n` written as `\r\n`.
pub fn to_crlf(text: &str) -> (r: String)
    ensures
        r@ == with_crlf(text@),
{
    let cs = chars_of(text);
    let mut out = String::new();
    let mut i: usize = 0;
    assert(cs@.skip(0) =~= cs@);
    assert(out@ =~= Seq::<char>::empty());
    while i < cs.len()
        invariant
            i <= cs@.len(),
            cs@ == text@,
            with_crlf(cs@) == out@ + with_crlf(cs@.skip(i as int)),
        decreases cs.len() - i,
    {
        assert(cs@.skip(i as int).skip(1) =~= cs@.skip(i + 1));
        if cs[i] == '\n' {
            push_char(&mut out, '\r');
            push_char(&mut out, '\n');
        } else {
            push_char(&mut out, cs[i]);
        }
        i = i + 1;
        assert(with_crlf(cs@) =~= out@ + with_crlf(cs@.skip(i as int)));
    }
    assert(cs@.skip(i as int) =~= Seq::<char>::empty());
    assert(out@ + with_crlf(Seq::<char>::empty()) =~= out@);
    out
}

/// The merged document and its report.
///
/// This is also the effective configuration. Every default key is
/// materialised with a live value, so the file written back and the
/// configuration a caller deserializes cannot drift apart.
#[derive(Debug)]
pub struct Merged {
    /// Everything the merge noticed.
    pub report: Report,
    /// The merged document.
    pub document: DocumentMut,
    /// The document as rendered, with `\n` line endings.
    pub text: String,
    /// The line ending the person's file was written with.
    pub newline: Newline,
    /// The merged document as the library reads it.
    pub tree: TableNode,
    /// The keys the defaults document without declaring, as the merge read
    /// them: a key of the person's named here is not reported as unknown.
    pub documented: TableNode,
}

impl Merged {
    /// The merged document, for callers that want to deserialize it.
    pub fn document(&self) -> (r: &DocumentMut)
        ensures
            *r == self.document,
    {
        &self.document
    }

    /// The merged document, taken by value.
    pub fn into_document(self) -> (r: DocumentMut)
        ensures
            r == self.document,
    {
        self.document
    }

    /// The file to write back, with the person's line ending.
    pub fn to_toml_string(&self) -> (r: String)
        ensures
            r@ == match self.newline {
                Newline::Lf => self.text@,
                Newline::CrLf => with_crlf(self.text@),
            },
    {
        match self.newline {
            Newline::Lf => self.text.clone(),
            Newline::CrLf => to_crlf(self.text.as_str()),
        }
    }

    /// The line ending the person's file was written with.
    pub fn newline(&self) -> (r: Newline)
        ensures
            r == self.newline,
    {
        self.newline
    }
}

/// Walks the default document as the spine and transplants user values.
///
/// The defaults give the shape and the order; the user gives the values.
#[derive(Debug)]
pub struct MergeEngine {
    /// The shipped document, which gives the shape and the order.
    pub defaults: SourceDocument,
    /// The person's document, which gives the values.
    pub user: SourceDocument,
    /// The text the spans point into, needed to turn a byte offset into a
    /// line and a column.
    pub user_src: String,
    pub options: MergeOptions,
    /// The rename rules, with their paths read.
    pub migrations: Vec<(DottedPath, DottedPath)>,
    pub spans: SpanIndex,
    pub report: Report,
    /// The keys the defaults document without declaring.
    pub template: Template,
    /// Optional keys the person has not set, written back as sample lines
    /// and waiting for something to sit above.
    pub pending: Vec<String>,
}

/// Whether every line of a list is blank.
fn all_blank(lines: &Vec<String>) -> (r: bool)
    ensures
        r == forall|j: int| 0 <= j < lines@.len() ==> all_ws(#[trigger] lines@[j]@),
{
    let mut i: usize = 0;
    while i < lines.len()
        invariant
            i <= lines@.len(),
            forall|j: int| 0 <= j < i ==> all_ws(#[trigger] lines@[j]@),
        decreases lines.len() - i,
    {
        let cs = chars_of(lines[i].as_str());
        if !is_blank(&cs) {
            return false;
        }
        i = i + 1;
    }
    true
}

/// Whether a line is blank.
fn blank_line(line: &str) -> (r: bool)
    ensures
        r == all_ws(line@),
{
    let cs = chars_of(line);
    is_blank(&cs)
}

/// Drops the blank lines at the end of a list.
/// Lines without the blank lines at their end.
pub open spec fn blank_tail_dropped(s: Seq<Seq<char>>) -> Seq<Seq<char>>
    decreases s.len(),
{
    if s.len() > 0 && all_ws(s.last()) {
        blank_tail_dropped(s.drop_last())
    } else {
        s
    }
}

fn drop_blank_tail(lines: &mut Vec<String>)
    ensures
        views(final(lines)@) == blank_tail_dropped(views(old(lines)@)),
        final(lines)@.len() <= old(lines)@.len(),
        final(lines)@ == old(lines)@.subrange(0, final(lines)@.len() as int),
        forall|k: int|
            final(lines)@.len() <= k < old(lines)@.len() ==> all_ws(#[trigger] old(lines)@[k]@),
        final(lines)@.len() == 0 || !all_ws(final(lines)@.last()@),
{
    while lines.len() > 0 && blank_line(lines[lines.len() - 1].as_str())
        invariant
            blank_tail_dropped(views(lines@)) == blank_tail_dropped(views(old(lines)@)),
            lines@.len() <= old(lines)@.len(),
            lines@ == old(lines)@.subrange(0, lines@.len() as int),
            forall|k: int| lines@.len() <= k < old(lines)@.len() ==> all_ws(#[trigger] old(lines)@[k]@),
        decreases lines.len(),
    {
        let ghost before = lines@;
        lines.pop();
        proof {
            assert(views(before).drop_last() =~= views(lines@));
            assert(views(before).last() == before.last()@);
        }
    }
    proof {
        if lines@.len() > 0 {
            assert(views(lines@).last() == lines@.last()@);
        }
    }
}

/// The person's lines at the end of a file, read in turn: a line the marker
/// owns is left out, and a blank line is kept only after a line that is not
/// blank.
pub open spec fn persons_kept(m: Marker, ts: Seq<Seq<char>>) -> Seq<Seq<char>>
    decreases ts.len(),
{
    if ts.len() == 0 {
        seq![]
    } else {
        let before = persons_kept(m, ts.drop_last());
        let t = ts.last();
        if m.owns_spec(t) || (all_ws(t) && (before.len() == 0 || all_ws(before.last()))) {
            before
        } else {
            before.push(t)
        }
    }
}

/// Whether `idx` picks the lines of `a` out of `b`: each line of `a` is the
/// line of `b` at its index, and the indices climb strictly.
pub open spec fn picks(idx: Seq<int>, a: Seq<Seq<char>>, b: Seq<Seq<char>>) -> bool {
    &&& idx.len() == a.len()
    &&& forall|i: int| 0 <= i < idx.len() ==> 0 <= #[trigger] idx[i] < b.len() && a[i] == b[idx[i]]
    &&& forall|i: int, j: int| 0 <= i < j < idx.len() ==> idx[i] < idx[j]
}

/// Whether `a` is `b` with some lines left out: every line of `a` is a line
/// of `b`, taken once each and in `b`'s order.
pub open spec fn selected_from(a: Seq<Seq<char>>, b: Seq<Seq<char>>) -> bool {
    exists|idx: Seq<int>| #[trigger] picks(idx, a, b)
}

/// The lines kept of the person's closing text are picked out of it.
proof fn lemma_persons_kept_picks(m: Marker, ts: Seq<Seq<char>>) -> (idx: Seq<int>)
    ensures
        picks(idx, persons_kept(m, ts), ts),
    decreases ts.len(),
{
    if ts.len() == 0 {
        Seq::<int>::empty()
    } else {
        let front = ts.drop_last();
        let idx0 = lemma_persons_kept_picks(m, front);
        let before = persons_kept(m, front);
        let t = ts.last();
        assert forall|i: int| 0 <= i < idx0.len() implies 0 <= #[trigger] idx0[i] < ts.len() && before[i]
            == ts[idx0[i]] by {
            assert(front[idx0[i]] == ts[idx0[i]]);
        }
        if m.owns_spec(t) || (all_ws(t) && (before.len() == 0 || all_ws(before.last()))) {
            idx0
        } else {
            let idx = idx0.push(ts.len() - 1);
            assert forall|i: int| 0 <= i < idx.len() implies 0 <= #[trigger] idx[i] < ts.len()
                && before.push(t)[i] == ts[idx[i]] by {
                if i < idx0.len() {
                    assert(idx[i] == idx0[i]);
                }
            }
            idx
        }
    }
}

/// Dropping the blank lines at the end keeps a front part of the lines.
proof fn lemma_blank_tail_front(s: Seq<Seq<char>>)
    ensures
        blank_tail_dropped(s).len() <= s.len(),
        blank_tail_dropped(s) == s.subrange(0, blank_tail_dropped(s).len() as int),
    decreases s.len(),
{
    if s.len() > 0 && all_ws(s.last()) {
        lemma_blank_tail_front(s.drop_last());
        assert(s.drop_last().subrange(0, blank_tail_dropped(s).len() as int) =~= s.subrange(
            0,
            blank_tail_dropped(s).len() as int,
        ));
    } else {
        assert(s.subrange(0, s.len() as int) =~= s);
    }
}

/// What is kept of the person's closing text is their lines, each at most
/// once and in the order they wrote them, with the tool's lines left out and
/// no blank line at its end: a merge can only take lines away from it, so
/// merging a merged file again leaves those lines as they are.
pub proof fn law_the_persons_closing_lines_are_kept_once_in_order(m: Marker, ts: Seq<Seq<char>>)
    ensures
        selected_from(blank_tail_dropped(persons_kept(m, ts)), ts),
        forall|i: int|
            0 <= i < blank_tail_dropped(persons_kept(m, ts)).len() ==> !m.owns_spec(
                #[trigger] blank_tail_dropped(persons_kept(m, ts))[i],
            ),
        blank_tail_dropped(persons_kept(m, ts)).len() == 0 || !all_ws(
            blank_tail_dropped(persons_kept(m, ts)).last(),
        ),
{
    let kept = persons_kept(m, ts);
    let idx = lemma_persons_kept_picks(m, ts);
    lemma_blank_tail_front(kept);
    let front = blank_tail_dropped(kept);
    let sub = idx.subrange(0, front.len() as int);
    assert forall|i: int| 0 <= i < sub.len() implies 0 <= #[trigger] sub[i] < ts.len() && front[i] == ts[sub[i]] by {
        assert(sub[i] == idx[i]);
        assert(front[i] == kept[i]);
    }
    assert(picks(sub, front, ts));
    lemma_kept_not_owned(m, ts);
    lemma_blank_tail_ends(kept);
}

/// No line the marker owns is kept.
proof fn lemma_kept_not_owned(m: Marker, ts: Seq<Seq<char>>)
    ensures
        forall|i: int| 0 <= i < persons_kept(m, ts).len() ==> !m.owns_spec(#[trigger] persons_kept(m, ts)[i]),
    decreases ts.len(),
{
    if ts.len() > 0 {
        lemma_kept_not_owned(m, ts.drop_last());
        let before = persons_kept(m, ts.drop_last());
        let kept = persons_kept(m, ts);
        assert forall|i: int| 0 <= i < kept.len() implies !m.owns_spec(#[trigger] kept[i]) by {
            if i < before.len() {
                assert(kept[i] == before[i]);
            }
        }
    }
}

/// Lines with their blank end dropped end in a line that is not blank.
proof fn lemma_blank_tail_ends(s: Seq<Seq<char>>)
    ensures
        blank_tail_dropped(s).len() == 0 || !all_ws(blank_tail_dropped(s).last()),
        forall|i: int| 0 <= i < blank_tail_dropped(s).len() ==> blank_tail_dropped(s)[i] == s[i],
    decreases s.len(),
{
    lemma_blank_tail_front(s);
    if s.len() > 0 && all_ws(s.last()) {
        lemma_blank_tail_ends(s.drop_last());
    }
}

/// The person's lines at the end of the file, from its trailing text.
///
/// The tool's lines there are written again from the defaults, so they are
/// left out. Taking them out leaves the blank lines that separated them, which
/// have nothing left to separate: a blank line is kept only after a line that
/// is not, and none is kept at either end. Every comment of the person's is
/// kept, in order.
pub fn persons_trailing(lines: &[PrefixLine], marker: &Marker) -> (r: Vec<String>)
    requires
        forall|i: int| 0 <= i < lines@.len() ==> (#[trigger] lines@[i]).kind() == marker.kind(
            lines@[i].text_view(),
        ),
    ensures
        forall|i: int|
            0 <= i < lines@.len() && (#[trigger] lines@[i]) is User ==> views(r@).contains(
                lines@[i].text_view(),
            ),
        forall|j: int| 0 <= j < r@.len() ==> !marker.owns_spec(#[trigger] r@[j]@),
        r@.len() == 0 || !all_ws(r@.last()@),
        views(r@) == blank_tail_dropped(persons_kept(*marker, texts_of(lines@))),
        selected_from(views(r@), texts_of(lines@)),
{
    proof {
        law_the_persons_closing_lines_are_kept_once_in_order(*marker, texts_of(lines@));
    }
    let ghost ts = texts_of(lines@);
    let mut mine: Vec<String> = Vec::new();
    assert(ts.subrange(0, 0) =~= Seq::<Seq<char>>::empty());
    assert(views(mine@) =~= Seq::<Seq<char>>::empty());
    let mut j: usize = 0;
    while j < lines.len()
        invariant
            j <= lines@.len(),
            forall|i: int| 0 <= i < lines@.len() ==> (#[trigger] lines@[i]).kind() == marker.kind(
                lines@[i].text_view(),
            ),
            forall|i: int|
                0 <= i < j && (#[trigger] lines@[i]) is User ==> views(mine@).contains(
                    lines@[i].text_view(),
                ),
            forall|k: int| 0 <= k < mine@.len() ==> !marker.owns_spec(#[trigger] mine@[k]@),
            mine@.len() == 0 || !all_ws(mine@[0]@),
            ts == texts_of(lines@),
            views(mine@) == persons_kept(*marker, ts.subrange(0, j as int)),
        decreases lines.len() - j,
    {
        proof {
            assert(ts.subrange(0, j + 1).drop_last() =~= ts.subrange(0, j as int));
            assert(ts.subrange(0, j + 1).last() == lines@[j as int].text_view());
            if mine@.len() > 0 {
                assert(views(mine@).last() == mine@[mine@.len() - 1]@);
            }
        }
        let text = lines[j].text();
        if !marker.owns(text) {
            let blank = blank_line(text);
            let after_blank = mine.len() == 0 || blank_line(mine[mine.len() - 1].as_str());
            if !(blank && after_blank) {
                let ghost before = mine@;
                let t = text.to_owned();
                mine.push(t);
                proof {
                    crate::text::lemma_views_push(before, t);
                    assert(views(mine@)[before.len() as int] == t@);
                    assert forall|i: int|
                        0 <= i < j && (#[trigger] lines@[i]) is User implies views(mine@).contains(
                        lines@[i].text_view(),
                    ) by {
                        let k = views(before).index_of(lines@[i].text_view());
                        assert(views(mine@)[k] == lines@[i].text_view());
                    }
                }
            }
        }
        proof {
            if lines@[j as int] is User {
                assert(!all_ws(lines@[j as int].text_view()));
                assert(!marker.owns_spec(lines@[j as int].text_view()));
            }
        }
        j = j + 1;
    }
    assert(ts.subrange(0, j as int) =~= ts);
    let ghost full = mine@;
    drop_blank_tail(&mut mine);
    proof {
        assert forall|i: int|
            0 <= i < lines@.len() && (#[trigger] lines@[i]) is User implies views(mine@).contains(
            lines@[i].text_view(),
        ) by {
            let k = views(full).index_of(lines@[i].text_view());
            assert(!all_ws(full[k]@));
            assert(k < mine@.len());
            assert(views(mine@)[k] == lines@[i].text_view());
        }
    }
    mine
}

/// Lines joined by `\n`.
fn join_lines(lines: &Vec<String>) -> (r: String)
    ensures
        r@ == crate::text::joined(views(lines@)),
{
    let mut out = String::new();
    let mut i: usize = 0;
    proof {
        assert(views(lines@).subrange(0, 0) =~= Seq::<Seq<char>>::empty());
        assert(out@ =~= Seq::<char>::empty());
    }
    while i < lines.len()
        invariant
            i <= lines@.len(),
            out@ == crate::text::joined(views(lines@).subrange(0, i as int)),
        decreases lines.len() - i,
    {
        let ghost before = views(lines@).subrange(0, i as int);
        if i > 0 {
            push_char(&mut out, '\n');
        }
        out.append(lines[i].as_str());
        proof {
            assert(views(lines@).subrange(0, i + 1) =~= before.push(lines@[i as int]@));
            crate::text::lemma_joined_push(before, lines@[i as int]@);
        }
        i = i + 1;
    }
    assert(views(lines@).subrange(0, i as int) =~= views(lines@));
    out
}

/// Copies of some strings.
fn copy_lines_of(lines: &Vec<String>) -> (r: Vec<String>)
    ensures
        r@.len() == lines@.len(),
        forall|i: int| 0 <= i < r@.len() ==> (#[trigger] r@[i])@ == lines@[i]@,
{
    let mut out: Vec<String> = Vec::new();
    let mut i: usize = 0;
    while i < lines.len()
        invariant
            i <= lines@.len(),
            out@.len() == i,
            forall|k: int| 0 <= k < i ==> (#[trigger] out@[k])@ == lines@[k]@,
        decreases lines.len() - i,
    {
        out.push(lines[i].clone());
        i = i + 1;
    }
    out
}

/// Whether the first line of a text is there, ended by a `\n`, and blank.
pub open spec fn blank_first_line(s: Seq<char>) -> bool
    decreases s.len(),
{
    s.len() > 0 && (s[0] == '\n' || (crate::text::is_ws(s[0]) && blank_first_line(s.drop_first())))
}

/// Whether the first line of a text is there and blank.
fn opens_with_blank_line(text: &str) -> (r: bool)
    ensures
        r == blank_first_line(text@),
{
    let cs = chars_of(text);
    let mut i: usize = 0;
    assert(cs@.skip(0) =~= cs@);
    while i < cs.len()
        invariant
            i <= cs@.len(),
            cs@ == text@,
            blank_first_line(text@) == blank_first_line(cs@.skip(i as int)),
        decreases cs.len() - i,
    {
        assert(cs@.skip(i as int).drop_first() =~= cs@.skip(i + 1));
        if cs[i] == '\n' {
            return true;
        }
        if !crate::text::is_whitespace(cs[i]) {
            return false;
        }
        i = i + 1;
    }
    false
}

/// Whether entries hold a key-value pair, directly or through dotted
/// tables.
pub open spec fn values_in(es: Seq<Entry>) -> bool
    decreases es,
{
    if es.len() == 0 {
        false
    } else {
        let here = match es[0].item {
            Node::Value(_) => true,
            Node::Table(sub) => {
                proof {
                    assert(decreases_to!(es => es[0]));
                    assert(decreases_to!(es[0] => es[0].item));
                    assert(decreases_to!(es[0].item => sub));
                    assert(decreases_to!(sub => sub.entries));
                    assert(decreases_to!(sub.entries => sub.entries@));
                }
                sub.dotted && values_in(sub.entries@)
            },
            Node::Array(_) => false,
        };
        here || values_in(es.subrange(1, es.len() as int))
    }
}

/// Whether a table holds key-value pairs of its own, directly or through
/// dotted tables: what is written under its header.
pub(crate) fn has_values(table: &TableNode) -> (r: bool)
    ensures
        r == values_in(table.entries@),
    decreases table,
{
    let mut i: usize = 0;
    assert(table.entries@.subrange(0, table.entries@.len() as int) =~= table.entries@);
    while i < table.entries.len()
        invariant
            i <= table.entries@.len(),
            values_in(table.entries@) == values_in(table.entries@.subrange(i as int, table.entries@.len() as int)),
        decreases table.entries.len() - i,
    {
        let ghost rest = table.entries@.subrange(i as int, table.entries@.len() as int);
        assert(rest[0] == table.entries@[i as int]);
        assert(rest.subrange(1, rest.len() as int) =~= table.entries@.subrange(i + 1, table.entries@.len() as int));
        assert(decreases_to!(table => table.entries@[i as int]));
        match &table.entries[i].item {
            Node::Value(_) => return true,
            Node::Table(sub) => {
                assert(decreases_to!(table => sub));
                if sub.dotted && has_values(sub) {
                    return true;
                }
            },
            Node::Array(_) => {},
        }
        i = i + 1;
    }
    false
}

/// The text above a header, set apart from what is written before it: it
/// opens with a blank line, and what was there before follows unchanged.
fn set_apart(prefix: &Option<String>) -> (r: Option<String>)
    ensures
        r matches Some(t) && t@ == (if blank_first_line(text_or_empty(*prefix)) {
            text_or_empty(*prefix)
        } else {
            seq!['\n'] + text_or_empty(*prefix)
        }),
        r matches Some(t) && blank_first_line(t@),
{
    let text = match prefix {
        Some(p) => p.clone(),
        None => {
            let e = String::new();
            assert(e@ =~= Seq::<char>::empty());
            e
        },
    };
    if opens_with_blank_line(text.as_str()) {
        Some(text)
    } else {
        let mut out = String::new();
        push_char(&mut out, '\n');
        out.append(text.as_str());
        assert(out@ =~= seq!['\n'] + text@);
        Some(out)
    }
}

/// A table whose headers are set apart by a blank line from whatever is
/// written before them, unless the text above them already opens with one.
/// `seen` says whether anything has been written yet; it is carried through in
/// the order the headers are written.
fn headers_apart(table: &TableNode, seen: &mut bool) -> (r: TableNode)
    ensures
        crate::model::names(r) == crate::model::names(*table),
        r.entries@.len() == table.entries@.len(),
        forall|j: int| 0 <= j < table.entries@.len() ==> value_carried(table.entries@[j], #[trigger] r.entries@[j]),
        forall|j: int|
            0 <= j < table.entries@.len() ==> key_text_of((#[trigger] r.entries@[j]).key.raw) == key_text_of(
                table.entries@[j].key.raw,
            ) && opt_text(r.entries@[j].key.prefix) == opt_text(table.entries@[j].key.prefix),
    decreases table,
{
    let mut out = TableNode {
        dotted: table.dotted,
        implicit: table.implicit,
        prefix: copy_text(&table.prefix),
        suffix: copy_text(&table.suffix),
        entries: Vec::new(),
    };
    let mut i: usize = 0;
    while i < table.entries.len()
        invariant
            i <= table.entries@.len(),
            crate::model::names(out) == crate::model::names(*table).subrange(0, i as int),
            out.entries@.len() == i,
            forall|j: int| 0 <= j < i ==> value_carried(table.entries@[j], #[trigger] out.entries@[j]),
            forall|j: int|
                0 <= j < i ==> key_text_of((#[trigger] out.entries@[j]).key.raw) == key_text_of(
                    table.entries@[j].key.raw,
                ) && opt_text(out.entries@[j].key.prefix) == opt_text(table.entries@[j].key.prefix),
        decreases table.entries.len() - i,
    {
        let entry = &table.entries[i];
        assert(decreases_to!(table => table.entries@[i as int]));
        let item = match &entry.item {
            Node::Value(v) => Node::Value(v.duplicate()),
            Node::Table(sub) => {
                assert(decreases_to!(table => sub));
                if sub.dotted {
                    Node::Table(headers_apart(sub, seen))
                } else {
                    let visible = !(sub.implicit && !has_values(sub));
                    let mut prefix = copy_text(&sub.prefix);
                    if visible {
                        if *seen {
                            prefix = set_apart(&sub.prefix);
                        }
                        *seen = true;
                    }
                    let mut t = headers_apart(sub, seen);
                    t.prefix = prefix;
                    Node::Table(t)
                }
            },
            Node::Array(ts) => {
                let mut out_ts: Vec<TableNode> = Vec::new();
                let mut j: usize = 0;
                while j < ts.len()
                    invariant
                        i < table.entries@.len(),
                        table.entries@[i as int].item == Node::Array(*ts),
                    decreases ts.len() - j,
                {
                    assert(decreases_to!(table => table.entries));
                    assert(decreases_to!(table.entries => table.entries@));
                    assert(decreases_to!(table.entries@ => table.entries@[i as int]));
                    assert(decreases_to!(table.entries@[i as int] => table.entries@[i as int].item));
                    assert(decreases_to!(table.entries@[i as int].item => table.entries@[i as int].item->Array_0));
                    assert(decreases_to!(*ts => ts@));
                    assert(decreases_to!(ts@ => ts@[j as int]));
                    let prefix = if *seen {
                        set_apart(&ts[j].prefix)
                    } else {
                        copy_text(&ts[j].prefix)
                    };
                    *seen = true;
                    let mut t = headers_apart(&ts[j], seen);
                    t.prefix = prefix;
                    out_ts.push(t);
                    j = j + 1;
                }
                Node::Array(out_ts)
            },
        };
        out.push(Entry { key: entry.key.duplicate(), item });
        i = i + 1;
        assert(crate::model::names(out) =~= crate::model::names(*table).subrange(0, i as int));
    }
    assert(crate::model::names(*table).subrange(0, i as int) =~= crate::model::names(*table));
    out
}

/// The document's headers set apart from what comes before them. Only the
/// text above headers changes: every entry stays, in its place.
pub fn space_headers(root: &TableNode) -> (r: TableNode)
    ensures
        crate::model::names(r) == crate::model::names(*root),
        r.entries@.len() == root.entries@.len(),
        forall|j: int| 0 <= j < root.entries@.len() ==> value_carried(root.entries@[j], #[trigger] r.entries@[j]),
        forall|j: int|
            0 <= j < root.entries@.len() ==> key_text_of((#[trigger] r.entries@[j]).key.raw) == key_text_of(
                root.entries@[j].key.raw,
            ) && opt_text(r.entries@[j].key.prefix) == opt_text(root.entries@[j].key.prefix),
{
    let mut seen = has_values(root);
    headers_apart(root, &mut seen)
}

// -- path navigation, for migrations -------------------------------------

/// The entry a path of names leads to through tables only, taking the first
/// entry of each name along the way.
pub open spec fn taken_at(t: TableNode, segs: Seq<Seq<char>>) -> Option<Entry>
    decreases segs.len(),
{
    if segs.len() == 0 {
        None
    } else {
        let i = first_from(t.entries@, segs[0], 0);
        if i < 0 {
            None
        } else if segs.len() == 1 {
            Some(t.entries@[i])
        } else {
            match t.entries@[i].item {
                Node::Table(sub) => taken_at(sub, segs.drop_first()),
                _ => None,
            }
        }
    }
}

/// Whether a path names an entry that can be taken out of a table: one
/// reached through tables only.
fn can_take(table: &TableNode, segments: &Vec<String>, k: usize) -> (r: bool)
    requires
        k <= segments@.len(),
    ensures
        r == taken_at(*table, views(segments@).skip(k as int)) is Some,
    decreases segments.len() - k,
{
    let ghost segs = views(segments@);
    if k >= segments.len() {
        assert(segs.skip(k as int).len() == 0);
        return false;
    }
    assert(segs.skip(k as int)[0] == segments@[k as int]@);
    let at = match table.find(segments[k].as_str()) {
        Some(at) => at,
        None => return false,
    };
    if k + 1 == segments.len() {
        return true;
    }
    assert(segs.skip(k as int).drop_first() =~= segs.skip(k + 1));
    match &table.entries[at].item {
        Node::Table(sub) => can_take(sub, segments, k + 1),
        _ => false,
    }
}

/// Takes the entry a path names out of a table, through the tables above it.
fn take_at(table: &mut TableNode, segments: &Vec<String>, k: usize) -> (r: Option<Entry>)
    requires
        k <= segments@.len(),
    ensures
        r == taken_at(*old(table), views(segments@).skip(k as int)),
        r is Some ==> took(*old(table), *final(table), views(segments@).skip(k as int)),
    decreases segments.len() - k,
{
    let ghost segs = views(segments@);
    if k >= segments.len() {
        assert(segs.skip(k as int).len() == 0);
        return None;
    }
    assert(segs.skip(k as int)[0] == segments@[k as int]@);
    let at = match table.find(segments[k].as_str()) {
        Some(at) => at,
        None => return None,
    };
    if k + 1 == segments.len() {
        return Some(table.entries.remove(at));
    }
    assert(segs.skip(k as int).drop_first() =~= segs.skip(k + 1));
    let ghost before = table.entries@;
    let mut entry = table.entries.remove(at);
    let taken = match &mut entry.item {
        Node::Table(sub) => take_at(sub, segments, k + 1),
        _ => None,
    };
    table.entries.insert(at, entry);
    proof {
        assert(table.entries@ =~= before.update(at as int, entry));
    }
    taken
}

/// How taking the entry at a path of names leaves a table: the entry gone
/// from the table that held it, every table above it otherwise as it was.
pub open spec fn took(a: TableNode, b: TableNode, segs: Seq<Seq<char>>) -> bool
    decreases segs.len(),
{
    let i = first_from(a.entries@, segs[0], 0);
    &&& segs.len() > 0
    &&& 0 <= i < a.entries@.len()
    &&& b.dotted == a.dotted
    &&& b.implicit == a.implicit
    &&& b.prefix == a.prefix
    &&& b.suffix == a.suffix
    &&& if segs.len() == 1 {
        b.entries@ == a.entries@.remove(i)
    } else {
        &&& b.entries@ == a.entries@.update(i, b.entries@[i])
        &&& b.entries@[i].key == a.entries@[i].key
        &&& a.entries@[i].item matches Node::Table(sa)
        &&& b.entries@[i].item matches Node::Table(sb)
        &&& took(sa, sb, segs.drop_first())
    }
}

/// Whether an entry can be put at a path of names: every name above its
/// last is missing, so a table is made for it, or leads to a table, the
/// first entry of that name being the one followed.
pub open spec fn placeable(t: TableNode, segs: Seq<Seq<char>>) -> bool
    decreases segs.len(),
{
    if segs.len() == 0 {
        false
    } else if segs.len() == 1 {
        true
    } else {
        let i = first_from(t.entries@, segs[0], 0);
        if i < 0 {
            true
        } else {
            match t.entries@[i].item {
                Node::Table(sub) => placeable(sub, segs.drop_first()),
                _ => false,
            }
        }
    }
}

/// Anything can be put under a table that has nothing in it.
proof fn lemma_placeable_empty(t: TableNode, segs: Seq<Seq<char>>)
    requires
        t.entries@.len() == 0,
        segs.len() > 0,
    ensures
        placeable(t, segs),
{
    assert(first_from(t.entries@, segs[0], 0) == -1);
}

/// Puts an entry at a path, creating the tables above it as implicit ones.
/// Answers whether the path could be reached at all; when it could, the path
/// leads to the entry.
fn place_at(table: &mut TableNode, segments: &Vec<String>, k: usize, entry: Entry) -> (r: bool)
    requires
        segments@.len() > 0 ==> entry.key.name@ == segments@.last()@,
    ensures
        r ==> k < segments@.len() && path_in(*final(table), views(segments@).skip(k as int)),
        r ==> taken_at(*final(table), views(segments@).skip(k as int)) == Some(entry),
        k <= segments@.len() ==> r == placeable(*old(table), views(segments@).skip(k as int)),
    decreases segments.len() - k,
{
    if k >= segments.len() {
        return false;
    }
    let ghost segs = views(segments@);
    if k + 1 == segments.len() {
        let ghost name = entry.key.name@;
        assert(segs.skip(k as int) =~= seq![name]);
        match table.find(entry.key.name.as_str()) {
            Some(at) => {
                proof {
                    crate::model::lemma_first_from_found(table.entries@, name, 0);
                }
                let ghost before = table.entries@;
                table.entries.set(at, entry);
                proof {
                    lemma_first_from_skip(table.entries@, name, 0, at as int);
                }
            },
            None => {
                proof {
                    crate::model::lemma_first_from_none(table.entries@, name, 0);
                }
                let ghost before = table.entries@;
                table.entries.push(entry);
                proof {
                    lemma_first_from_skip(table.entries@, name, 0, before.len() as int);
                }
            },
        }
        return true;
    }
    let ghost seg = segs[k as int];
    assert(segs[k as int] == segments@[k as int]@);
    let at = match table.find(segments[k].as_str()) {
        Some(at) => {
            proof {
                crate::model::lemma_first_from_found(table.entries@, seg, 0);
            }
            at
        },
        None => {
            proof {
                crate::model::lemma_first_from_none(table.entries@, seg, 0);
            }
            let mut created = TableNode::empty();
            created.implicit = true;
            table.entries.push(Entry { key: named_key(segments[k].as_str()), item: Node::Table(created) });
            table.entries.len() - 1
        },
    };
    assert(table.entries@[at as int].key.name@ == seg);
    assert(forall|j: int| 0 <= j < at ==> (#[trigger] table.entries@[j]).key.name@ != seg);
    let ghost mid = table.entries@;
    let mut holder = table.entries.remove(at);
    let ghost held = holder;
    let placed = match &mut holder.item {
        Node::Table(sub) => place_at(sub, segments, k + 1, entry),
        _ => false,
    };
    let ghost moved = holder;
    table.entries.insert(at, holder);
    proof {
        assert(segs.skip(k as int).drop_first() =~= segs.skip(k + 1));
        assert(segs.skip(k as int)[0] == seg);
        let f = first_from(old(table).entries@, seg, 0);
        crate::model::lemma_first_from_found(old(table).entries@, seg, 0);
        if f < 0 {
            if let Node::Table(c) = held.item {
                lemma_placeable_empty(c, segs.skip(k + 1));
            }
        } else {
            assert(held == old(table).entries@[f]);
        }
        assert(table.entries@ =~= mid.update(at as int, moved));
        if placed {
            lemma_first_from_skip(table.entries@, seg, 0, at as int);
            assert(segs.skip(k as int).drop_first() =~= segs.skip(k + 1));
            assert(segs.skip(k as int)[0] == seg);
        }
    }
    placed
}

/// Whether an entry can be put at `to` once the entry at `from` has been
/// taken out of a table: [`placeable`] of the table the taking leaves,
/// read off the table as it stands.
pub open spec fn placeable_without(t: TableNode, from: Seq<Seq<char>>, to: Seq<Seq<char>>) -> bool
    decreases to.len(),
{
    if to.len() == 0 {
        false
    } else if to.len() == 1 {
        true
    } else {
        let i = first_from(t.entries@, from[0], 0);
        let shared = to[0] == from[0];
        let j = if from.len() == 1 && shared {
            first_from(t.entries@, to[0], i + 1)
        } else {
            first_from(t.entries@, to[0], 0)
        };
        if j < 0 {
            true
        } else {
            match t.entries@[j].item {
                Node::Table(sub) => if from.len() > 1 && shared {
                    placeable_without(sub, from.drop_first(), to.drop_first())
                } else {
                    placeable(sub, to.drop_first())
                },
                _ => false,
            }
        }
    }
}

/// The first entry of a name is the one that has it with none of that name
/// before it.
proof fn lemma_first_from_is(es: Seq<Entry>, n: Seq<char>, f: int)
    requires
        -1 <= f < es.len(),
        f >= 0 ==> es[f].key.name@ == n,
        forall|j: int| 0 <= j < es.len() && (f < 0 || j < f) ==> (#[trigger] es[j]).key.name@ != n,
    ensures
        first_from(es, n, 0) == f,
{
    crate::model::lemma_first_from_found(es, n, 0);
    if f >= 0 {
        lemma_first_from_skip(es, n, 0, f);
    }
}

/// Once the entry at `from` is taken, whether `to` can be placed is what
/// [`placeable_without`] reads off the table before.
proof fn lemma_placeable_after_taking(a: TableNode, mid: TableNode, from: Seq<Seq<char>>, to: Seq<Seq<char>>)
    requires
        took(a, mid, from),
    ensures
        placeable(mid, to) == placeable_without(a, from, to),
    decreases to.len(),
{
    if to.len() <= 1 {
        return;
    }
    let es = a.entries@;
    let ms = mid.entries@;
    let i = first_from(es, from[0], 0);
    crate::model::lemma_first_from_found(es, from[0], 0);
    let n = to[0];
    let f = first_from(es, n, 0);
    crate::model::lemma_first_from_found(es, n, 0);
    if f < 0 {
        crate::model::lemma_first_from_none(es, n, 0);
    }
    if from.len() == 1 {
        assert(ms == es.remove(i));
        if n == from[0] {
            let g = first_from(es, n, i + 1);
            crate::model::lemma_first_from_found(es, n, i + 1);
            if g < 0 {
                crate::model::lemma_first_from_none(es, n, i + 1);
                lemma_first_from_is(ms, n, -1);
            } else {
                assert(ms[g - 1] == es[g]);
                lemma_first_from_is(ms, n, g - 1);
            }
        } else if f < 0 {
            lemma_first_from_is(ms, n, -1);
        } else if f < i {
            assert(ms[f] == es[f]);
            lemma_first_from_is(ms, n, f);
        } else {
            assert(ms[f - 1] == es[f]);
            lemma_first_from_is(ms, n, f - 1);
        }
    } else {
        assert(forall|j: int| 0 <= j < ms.len() && j != i ==> ms[j] == es[j]);
        assert(forall|j: int| 0 <= j < ms.len() ==> (#[trigger] ms[j]).key.name@ == es[j].key.name@);
        if f < 0 {
            lemma_first_from_is(ms, n, -1);
        } else {
            lemma_first_from_is(ms, n, f);
            if n == from[0] {
                assert(f == i);
                match (es[i].item, ms[i].item) {
                    (Node::Table(sa), Node::Table(sb)) => {
                        lemma_placeable_after_taking(sa, sb, from.drop_first(), to.drop_first());
                    },
                    _ => {},
                }
            } else {
                assert(ms[f] == es[f]);
            }
        }
    }
}

/// The index of the first entry of a name from `start` on.
fn find_after(table: &TableNode, name: &str, start: usize) -> (r: Option<usize>)
    ensures
        r matches Some(j) ==> j < table.entries@.len() && first_from(table.entries@, name@, start as int) == j,
        r is None ==> first_from(table.entries@, name@, start as int) == -1,
{
    let n = name.to_owned();
    let mut j: usize = start;
    if j > table.entries.len() {
        return None;
    }
    while j < table.entries.len()
        invariant
            start <= j <= table.entries@.len(),
            n@ == name@,
            first_from(table.entries@, name@, start as int) == first_from(table.entries@, name@, j as int),
        decreases table.entries.len() - j,
    {
        if crate::text::text_eq(&table.entries[j].key.name, &n) {
            return Some(j);
        }
        j = j + 1;
    }
    None
}

/// Whether an entry can be put at a path of names, from its `k`th name on.
fn can_place(table: &TableNode, segments: &Vec<String>, k: usize) -> (r: bool)
    requires
        k <= segments@.len(),
    ensures
        r == placeable(*table, views(segments@).skip(k as int)),
    decreases segments.len() - k,
{
    let ghost segs = views(segments@).skip(k as int);
    if k >= segments.len() {
        assert(segs.len() == 0);
        return false;
    }
    if k + 1 == segments.len() {
        assert(segs.len() == 1);
        return true;
    }
    assert(segs[0] == segments@[k as int]@);
    match table.find(segments[k].as_str()) {
        None => true,
        Some(at) => {
            assert(segs.drop_first() =~= views(segments@).skip(k + 1));
            match &table.entries[at].item {
                Node::Table(sub) => can_place(sub, segments, k + 1),
                _ => false,
            }
        },
    }
}

/// Whether the entry at `from` could be put at `to` once taken out, read
/// off the table before anything is taken.
fn can_move(table: &TableNode, from: &Vec<String>, k: usize, to: &Vec<String>, m: usize) -> (r: bool)
    requires
        k < from@.len(),
        m <= to@.len(),
    ensures
        r == placeable_without(*table, views(from@).skip(k as int), views(to@).skip(m as int)),
    decreases to.len() - m,
{
    let ghost fs = views(from@).skip(k as int);
    let ghost ts = views(to@).skip(m as int);
    if m >= to.len() {
        assert(ts.len() == 0);
        return false;
    }
    if m + 1 == to.len() {
        assert(ts.len() == 1);
        return true;
    }
    assert(fs[0] == from@[k as int]@);
    assert(ts[0] == to@[m as int]@);
    let same = crate::text::text_eq(&from[k], &to[m]);
    let last_from = k == from.len() - 1;
    let found = if last_from && same {
        match table.find(from[k].as_str()) {
            Some(i) => if i < table.entries.len() - 1 {
                find_after(table, to[m].as_str(), i + 1)
            } else {
                None
            },
            None => find_after(table, to[m].as_str(), 0),
        }
    } else {
        table.find(to[m].as_str())
    };
    match found {
        None => true,
        Some(j) => {
            assert(ts.drop_first() =~= views(to@).skip(m + 1));
            match &table.entries[j].item {
                Node::Table(sub) => {
                    if !last_from && same {
                        assert(fs.drop_first() =~= views(from@).skip(k + 1));
                        can_move(sub, from, k + 1, to, m + 1)
                    } else {
                        can_place(sub, to, m + 1)
                    }
                },
                _ => false,
            }
        },
    }
}

/// Moves the value at `from` to `to` in a table, under the key `to` ends
/// with, keeping the text above it. A rule moves nothing when something is
/// already at `to`; after a move, `to` leads to the value.
pub fn migrate_one(root: &mut TableNode, from: &DottedPath, to: &DottedPath) -> (moved: bool)
    ensures
        !moved ==> *final(root) == *old(root),
        moved <==> (!path_in(*old(root), to@) && taken_at(*old(root), from@) is Some
            && placeable_without(*old(root), from@, to@)),
        moved ==> path_in(*final(root), to@),
        moved ==> (taken_at(*old(root), from@) matches Some(e) && taken_at(*final(root), to@)
            matches Some(f) && f.item == e.item && f.key.name@ == to@.last() && opt_text(f.key.prefix)
            == opt_text(e.key.prefix) && opt_text(f.key.suffix) == opt_text(e.key.suffix)),
        moved ==> exists|mid: TableNode| took(*old(root), mid, from@) && placeable(mid, to@),
{
    if crate::model::reaches(root, to) {
        return false;
    }
    let from_segments = from.segments();
    let to_segments = to.segments();
    proof {
        assert(views(from_segments@).skip(0) =~= from@);
        assert(views(to_segments@).skip(0) =~= to@);
    }
    if !can_take(root, &from_segments, 0) {
        return false;
    }
    // A rule whose value could not be put at its new path moves nothing:
    // the value stays where the person wrote it.
    if !can_move(root, &from_segments, 0, &to_segments, 0) {
        return false;
    }
    match take_at(root, &from_segments, 0) {
        Some(entry) => {
            let leaf = to.leaf();
            let renamed = KeyNode {
                name: leaf.clone(),
                repr: key_repr_of(leaf.as_str()),
                prefix: copy_text(&entry.key.prefix),
                suffix: copy_text(&entry.key.suffix),
                dotted_prefix: None,
                dotted_suffix: None,
                raw: key_new(leaf.as_str()),
            };
            let ghost mid = *root;
            proof {
                assert(views(to_segments@).last() == to_segments@.last()@);
                assert(took(*old(root), mid, from@));
                lemma_placeable_after_taking(*old(root), mid, from@, to@);
            }
            let moved = place_at(root, &to_segments, 0, Entry { key: renamed, item: entry.item });
            moved
        },
        None => false,
    }
}

/// Whether an output entry keeps what the person wrote under a name: where
/// the first entry of that name in their table holds a value, the output
/// entry holds that value as they wrote it.
pub open spec fn value_kept(user: TableNode, e: Entry, n: Seq<char>) -> bool {
    let u = first_from(user.entries@, n, 0);
    (u >= 0 && user.entries@[u].item is Value) ==> (e.item matches Node::Value(v) && v.text@
        == user.entries@[u].item->Value_0.text@ && v.kind == user.entries@[u].item->Value_0.kind)
}

/// What a person wrote under a name, kept in an entry, is kept from a copy
/// of their table as from the table itself, and through anything that
/// carries the entry's value on.
proof fn lemma_value_kept_through(user: TableNode, copy: TableNode, e: Entry, f: Entry, n: Seq<char>)
    requires
        crate::model::same_shape(copy, user),
        forall|j: int| 0 <= j < user.entries@.len() ==> value_carried(user.entries@[j], #[trigger] copy.entries@[j]),
        value_kept(copy, e, n),
        value_carried(e, f),
    ensures
        value_kept(user, f, n),
{
    assert forall|j: int| 0 <= j < user.entries@.len() implies (#[trigger] user.entries@[j]).key.name@
        == copy.entries@[j].key.name@ by {
        assert(crate::model::names(user)[j] == user.entries@[j].key.name@);
        assert(crate::model::names(copy)[j] == copy.entries@[j].key.name@);
    }
    crate::model::lemma_first_from_same_names(user.entries@, copy.entries@, n, 0);
    let i = first_from(user.entries@, n, 0);
    crate::model::lemma_first_from_found(user.entries@, n, 0);
    if i >= 0 && user.entries@[i].item is Value {
        assert(value_carried(user.entries@[i], copy.entries@[i]));
        assert(copy.entries@[i].item is Value);
    }
}

/// Whether an output entry keeps the comments the person wrote above a
/// value under a name: where the first entry of that name in their table
/// holds a value, the text above the output entry ends with their lines.
pub open spec fn comments_kept(m: Marker, user: TableNode, e: Entry, n: Seq<char>) -> bool {
    let u = first_from(user.entries@, n, 0);
    (u >= 0 && user.entries@[u].item is Value) ==> ends_with(
        text_or_empty(above_of(e)),
        persons_tail(m, text_or_empty(above_of(user.entries@[u]))),
    )
}

/// The person's comments above a value, kept in an entry, are kept from a
/// copy of their table as from the table itself, and through anything that
/// carries the entry's value and the text above its key on.
proof fn lemma_comments_kept_through(m: Marker, user: TableNode, copy: TableNode, e: Entry, f: Entry, n: Seq<char>)
    requires
        crate::model::same_shape(copy, user),
        forall|j: int| 0 <= j < user.entries@.len() ==> value_carried(user.entries@[j], #[trigger] copy.entries@[j]),
        forall|j: int|
            0 <= j < user.entries@.len() ==> opt_text((#[trigger] copy.entries@[j]).key.prefix) == opt_text(
                user.entries@[j].key.prefix,
            ),
        value_kept(copy, e, n),
        comments_kept(m, copy, e, n),
        value_carried(e, f),
        opt_text(f.key.prefix) == opt_text(e.key.prefix),
    ensures
        comments_kept(m, user, f, n),
{
    assert forall|j: int| 0 <= j < user.entries@.len() implies (#[trigger] user.entries@[j]).key.name@
        == copy.entries@[j].key.name@ by {
        assert(crate::model::names(user)[j] == user.entries@[j].key.name@);
        assert(crate::model::names(copy)[j] == copy.entries@[j].key.name@);
    }
    crate::model::lemma_first_from_same_names(user.entries@, copy.entries@, n, 0);
    let i = first_from(user.entries@, n, 0);
    crate::model::lemma_first_from_found(user.entries@, n, 0);
    if i >= 0 && user.entries@[i].item is Value {
        assert(value_carried(user.entries@[i], copy.entries@[i]));
        assert(copy.entries@[i].item is Value);
        assert(e.item is Value);
        assert(f.item is Value);
        assert(text_or_empty(above_of(f)) == text_or_empty(above_of(e)));
        assert(text_or_empty(above_of(user.entries@[i])) == text_or_empty(above_of(copy.entries@[i])));
    }
}

/// Whether an output entry holds the `j`th default's value, where that
/// default is a value the person sets nothing under the name of.
pub open spec fn default_kept(defaults: TableNode, user: TableNode, e: Entry, j: int) -> bool {
    (first_from(user.entries@, defaults.entries@[j].key.name@, 0) < 0 && defaults.entries@[j].item is Value)
        ==> value_carried(defaults.entries@[j], e)
}

/// Whether an output entry holds the `j`th default's value, where that
/// default is a value the person's document sets nothing under the name of.
pub open spec fn default_kept_in(defaults: TableNode, user: SourceDocument, e: Entry, j: int) -> bool {
    match user {
        SourceDocument::Content { root, .. } => default_kept(defaults, root, e, j),
        SourceDocument::Empty => defaults.entries@[j].item is Value ==> value_carried(defaults.entries@[j], e),
    }
}

/// What one rename rule does to a table, as [`migrate_one`] states it.
pub open spec fn migration_step(
    a: TableNode,
    b: TableNode,
    from: Seq<Seq<char>>,
    to: Seq<Seq<char>>,
    moved: bool,
) -> bool {
    &&& !moved ==> b == a
    &&& moved <==> (!path_in(a, to) && taken_at(a, from) is Some && placeable_without(a, from, to))
    &&& moved ==> (taken_at(a, from) matches Some(e) && taken_at(b, to) matches Some(f) && f.item
        == e.item && f.key.name@ == to.last() && opt_text(f.key.prefix) == opt_text(e.key.prefix)
        && opt_text(f.key.suffix) == opt_text(e.key.suffix))
}

/// The rename rules run in turn: `states[i]` is the table before rule `i`,
/// and `moved[i]` whether it moved anything.
pub open spec fn migrations_run(
    states: Seq<TableNode>,
    moved: Seq<bool>,
    rules: Seq<(DottedPath, DottedPath)>,
) -> bool {
    &&& states.len() == rules.len() + 1
    &&& moved.len() == rules.len()
    &&& forall|i: int|
        0 <= i < rules.len() ==> migration_step(
            states[i],
            states[i + 1],
            rules[i].0@,
            rules[i].1@,
            #[trigger] moved[i],
        )
}

/// Whether diagnostics from position `from` on report a move by a rule.
pub open spec fn reports_move(ds: Seq<Diagnostic>, from: int, rule: (DottedPath, DottedPath)) -> bool {
    exists|k: int|
        from <= k < ds.len() && ((#[trigger] ds[k]).kind matches DiagnosticKind::Migrated { from: f }
            && f@ == rule.0@) && ds[k].path@ == rule.1@
}

/// The standing text the runs of a block of lines give, in turn: blank lines
/// as they are; a block's lines that are not the person's, unless the
/// template has already read that block, which then takes the blank lines
/// before it away with it.
pub open spec fn standing_spec(runs: Seq<Run>, lines: Seq<PrefixLine>, read: Seq<Seq<char>>) -> Seq<
    Seq<char>,
>
    decreases runs.len(),
{
    if runs.len() == 0 {
        seq![]
    } else {
        let before = standing_spec(runs.drop_last(), lines, read);
        match runs.last() {
            Run::Blanks(ts) => before + ts,
            Run::Block(a, b) => if 0 <= a <= b <= lines.len() {
                let text = tool_texts(lines.subrange(a, b));
                if read.contains(joined(text)) {
                    blank_tail_dropped(before)
                } else {
                    before + text
                }
            } else {
                before
            },
        }
    }
}

/// Standing text, or nothing where it is only blank lines.
pub open spec fn unless_blank(s: Seq<Seq<char>>) -> Seq<Seq<char>> {
    if forall|j: int| 0 <= j < s.len() ==> all_ws(#[trigger] s[j]) {
        seq![]
    } else {
        s
    }
}

impl MergeEngine {
    /// An engine ready to run.
    pub fn new(
        defaults: SourceDocument,
        user: SourceDocument,
        user_src: &str,
        options: MergeOptions,
        migrations: Vec<(DottedPath, DottedPath)>,
        spans: SpanIndex,
    ) -> (r: Self)
        ensures
            r.defaults == defaults,
            r.user == user,
            r.user_src@ == user_src@,
            r.options == options,
            r.migrations == migrations,
            r.spans == spans,
            r.report.entries().len() == 0,
            r.template.root.entries@.len() == 0,
            r.template.read@.len() == 0,
            r.template.unread@.len() == 0,
            r.template.written_above@.len() == 0,
            r.pending@.len() == 0,
    {
        MergeEngine {
            defaults,
            user,
            user_src: user_src.to_owned(),
            options,
            migrations,
            spans,
            report: Report::new(),
            template: Template::empty(),
            pending: Vec::new(),
        }
    }

    /// Runs the merge.
    pub fn run(self, newline: Newline) -> (r: Merged)
        ensures
            r.newline == newline,
            self.migrations@.len() == 0 && self.defaults is Content ==> forall|j: int|
                #![trigger self.defaults->root.entries@[j]]
                0 <= j < self.defaults->root.entries@.len() ==> exists|x: int|
                    0 <= x < r.tree.entries@.len() && (#[trigger] r.tree.entries@[x]).key.name@
                        == self.defaults->root.entries@[j].key.name@ && default_kept_in(
                        self.defaults->root,
                        self.user,
                        r.tree.entries@[x],
                        j,
                    ),
            forall|k: int|
                self.report.entries().len() <= k < r.report.entries().len() ==> moved_by_a_rule(
                    self.migrations@,
                    self.spans.spans@,
                    encode_utf8(self.user_src@),
                    #[trigger] r.report.entries()[k],
                ) || raised_by_merge(r.report.entries()[k]),
            grows(self.report.entries(), r.report.entries()),
            r.text@ == rendering(r.document),
            (self.migrations@.len() == 0 && (self.defaults is Content ==> all_raw_named(
                self.defaults->root.entries@,
            )) && (self.user is Content ==> all_raw_named(self.user->root.entries@))) ==> raw_names(
                r.tree.entries@,
            ) == crate::model::names(r.tree),
            document_keys(r.document) == first_names(raw_names(r.tree.entries@)),
            forall|k: int|
                0 <= k < r.tree.entries@.len() ==> #[trigger] holds_value_of(
                    document_table(r.document),
                    r.tree.entries@,
                    k,
                ),
            forall|n: Seq<char>|
                (self.defaults matches SourceDocument::Content { root, .. } && has_name(root, n))
                    ==> has_name(r.tree, n),
            self.migrations@.len() == 0 ==> forall|n: Seq<char>|
                (self.user matches SourceDocument::Content { root, .. } && has_name(root, n))
                    ==> has_name(r.tree, n),
            self.defaults matches SourceDocument::Content { root, .. } ==> keeps_order(root, r.tree),
            self.migrations@.len() == 0 ==> forall|n: Seq<char>|
                has_name(r.tree, n) ==> (self.defaults matches SourceDocument::Content { root, .. }
                    && has_name(root, n)) || (self.user matches SourceDocument::Content { root, .. }
                    && has_name(root, n)),
            self.migrations@.len() == 0 ==> forall|n: Seq<char>|
                (self.defaults is Content && has_name(self.defaults->root, n) && self.user is Content)
                    ==> exists|x: int|
                    0 <= x < r.tree.entries@.len() && (#[trigger] r.tree.entries@[x]).key.name@ == n
                        && value_kept(self.user->root, r.tree.entries@[x], n)
                        && comments_kept(self.options.marker, self.user->root, r.tree.entries@[x], n),
            self.migrations@.len() == 0 && self.defaults is Content && self.user is Content
                ==> forall|j: int|
                0 <= j < self.defaults->root.entries@.len() ==> #[trigger] mismatch_flagged(
                    self.defaults->root,
                    self.user->root,
                    j,
                    r.report.entries(),
                    self.spans.spans@,
                    encode_utf8(self.user_src@),
                    None,
                ),
            self.migrations@.len() == 0 && self.user is Content ==> forall|n: Seq<char>|
                has_name(self.user->root, n) && !(self.defaults is Content && has_name(
                    self.defaults->root,
                    n,
                )) && !path_in(r.documented, seq![n]) ==> reported_unknown(
                    r.report.entries(),
                    self.spans.spans@,
                    encode_utf8(self.user_src@),
                    seq![n],
                ),
            self.user is Content ==> exists|states: Seq<TableNode>, moved: Seq<bool>|
                #[trigger] migrations_run(states, moved, self.migrations@) && states[0]
                    == self.user->root && (forall|k: int|
                    0 <= k < moved.len() && moved[k] ==> reports_move(
                        r.report.entries(),
                        self.report.entries().len() as int,
                        self.migrations@[k],
                    )) && forall|n: Seq<char>|
                    (self.defaults is Content && has_name(self.defaults->root, n)) ==> exists|x: int|
                        0 <= x < r.tree.entries@.len() && (#[trigger] r.tree.entries@[x]).key.name@ == n
                            && value_kept(states.last(), r.tree.entries@[x], n),
    {
        let mut engine = self;
        engine.walk_all(newline)
    }

    /// Runs the merge on an engine the caller may change.
    fn walk_all(&mut self, newline: Newline) -> (r: Merged)
        ensures
            r.newline == newline,
            old(self).migrations@.len() == 0 && old(self).defaults is Content ==> forall|j: int|
                #![trigger old(self).defaults->root.entries@[j]]
                0 <= j < old(self).defaults->root.entries@.len() ==> exists|x: int|
                    0 <= x < r.tree.entries@.len() && (#[trigger] r.tree.entries@[x]).key.name@
                        == old(self).defaults->root.entries@[j].key.name@ && default_kept_in(
                        old(self).defaults->root,
                        old(self).user,
                        r.tree.entries@[x],
                        j,
                    ),
            forall|k: int|
                old(self).report.entries().len() <= k < r.report.entries().len() ==> moved_by_a_rule(
                    old(self).migrations@,
                    old(self).spans.spans@,
                    encode_utf8(old(self).user_src@),
                    #[trigger] r.report.entries()[k],
                ) || raised_by_merge(r.report.entries()[k]),
            grows(old(self).report.entries(), r.report.entries()),
            r.text@ == rendering(r.document),
            (old(self).migrations@.len() == 0 && (old(self).defaults is Content ==> all_raw_named(
                old(self).defaults->root.entries@,
            )) && (old(self).user is Content ==> all_raw_named(old(self).user->root.entries@))) ==> raw_names(
                r.tree.entries@,
            ) == crate::model::names(r.tree),
            document_keys(r.document) == first_names(raw_names(r.tree.entries@)),
            forall|k: int|
                0 <= k < r.tree.entries@.len() ==> #[trigger] holds_value_of(
                    document_table(r.document),
                    r.tree.entries@,
                    k,
                ),
            forall|n: Seq<char>|
                (old(self).defaults matches SourceDocument::Content { root, .. } && has_name(root, n))
                    ==> has_name(r.tree, n),
            old(self).migrations@.len() == 0 ==> forall|n: Seq<char>|
                (old(self).user matches SourceDocument::Content { root, .. } && has_name(root, n))
                    ==> has_name(r.tree, n),
            old(self).defaults matches SourceDocument::Content { root, .. } ==> keeps_order(root, r.tree),
            old(self).migrations@.len() == 0 ==> forall|n: Seq<char>|
                has_name(r.tree, n) ==> (old(self).defaults matches SourceDocument::Content { root, .. }
                    && has_name(root, n)) || (old(self).user matches SourceDocument::Content { root, .. }
                    && has_name(root, n)),
            old(self).migrations@.len() == 0 ==> forall|n: Seq<char>|
                (old(self).defaults is Content && has_name(old(self).defaults->root, n) && old(
                    self,
                ).user is Content) ==> exists|x: int|
                    0 <= x < r.tree.entries@.len() && (#[trigger] r.tree.entries@[x]).key.name@ == n
                        && value_kept(old(self).user->root, r.tree.entries@[x], n)
                        && comments_kept(old(self).options.marker, old(self).user->root, r.tree.entries@[x], n),
            old(self).migrations@.len() == 0 && old(self).defaults is Content && old(self).user is Content
                ==> forall|j: int|
                0 <= j < old(self).defaults->root.entries@.len() ==> #[trigger] mismatch_flagged(
                    old(self).defaults->root,
                    old(self).user->root,
                    j,
                    r.report.entries(),
                    old(self).spans.spans@,
                    encode_utf8(old(self).user_src@),
                    None,
                ),
            old(self).migrations@.len() == 0 && old(self).user is Content ==> forall|n: Seq<char>|
                has_name(old(self).user->root, n) && !(old(self).defaults is Content && has_name(
                    old(self).defaults->root,
                    n,
                )) && !path_in(r.documented, seq![n]) ==> reported_unknown(
                    r.report.entries(),
                    old(self).spans.spans@,
                    encode_utf8(old(self).user_src@),
                    seq![n],
                ),
            old(self).user is Content ==> exists|states: Seq<TableNode>, moved: Seq<bool>|
                #[trigger] migrations_run(states, moved, old(self).migrations@) && states[0]
                    == old(self).user->root && (forall|k: int|
                    0 <= k < moved.len() && moved[k] ==> reports_move(
                        r.report.entries(),
                        old(self).report.entries().len() as int,
                        old(self).migrations@[k],
                    )) && forall|n: Seq<char>|
                    (old(self).defaults is Content && has_name(old(self).defaults->root, n)) ==> exists|x: int|
                        0 <= x < r.tree.entries@.len() && (#[trigger] r.tree.entries@[x]).key.name@ == n
                            && value_kept(states.last(), r.tree.entries@[x], n),
    {
        self.apply_migrations();
        let ghost rep_a = self.report.entries();
        let ghost runs = choose|states: Seq<TableNode>, moved: Seq<bool>|
            #[trigger] migrations_run(states, moved, old(self).migrations@) && states[0]
                == old(self).user->root && self.user == (SourceDocument::Content {
                root: states.last(),
                trailing: old(self).user->trailing,
            }) && forall|k: int|
                0 <= k < moved.len() && moved[k] ==> reports_move(
                    rep_a,
                    old(self).report.entries().len() as int,
                    old(self).migrations@[k],
                );
        self.template = Template::of(&self.defaults, &self.options.marker);
        let defaults = match self.defaults.root() {
            Some(root) => root.duplicate(),
            None => TableNode::empty(),
        };
        let user = match self.user.root() {
            Some(root) => root.duplicate(),
            None => TableNode::empty(),
        };
        let mut root = TableNode::empty();
        let ghost start = root;
        self.merge_table(&defaults, &user, &mut root, None, usize::MAX);
        let ghost merged = root;
        let ghost pair = choose|dp: Seq<int>, up: Seq<int>|
            placed(defaults, user, self.template.root, None, merged, 0, dp, up);
        proof {
            assert(order_at(defaults, merged, pair.0));
        }
        if self.options.align {
            root = crate::align::align_sections(&root);
        }
        let ghost aligned = root;
        proof {
            assert forall|x: int| 0 <= x < merged.entries@.len() implies aligned.entries@.len() == merged.entries@.len()
                && aligned.entries@[x].key.name@ == merged.entries@[x].key.name@ && value_carried(
                merged.entries@[x],
                #[trigger] aligned.entries@[x],
            ) by {
                if self.options.align {
                    assert(crate::model::names(aligned)[x] == aligned.entries@[x].key.name@);
                }
            }
        }
        let root = space_headers(&root);
        proof {
            if old(self).migrations@.len() == 0 {
                assert forall|n: Seq<char>|
                    (old(self).defaults is Content && has_name(old(self).defaults->root, n) && old(
                        self,
                    ).user is Content) implies exists|x: int|
                    0 <= x < root.entries@.len() && (#[trigger] root.entries@[x]).key.name@ == n
                        && value_kept(old(self).user->root, root.entries@[x], n)
                        && comments_kept(old(self).options.marker, old(self).user->root, root.entries@[x], n) by {
                    let u = old(self).user->root;
                    assert(has_name(defaults, n));
                    let x = choose|x: int|
                        0 <= x < merged.entries@.len() && (#[trigger] merged.entries@[x]).key.name@ == n
                            && value_kept(user, merged.entries@[x], n)
                            && comments_kept(self.options.marker, user, merged.entries@[x], n);
                    assert(opt_text(root.entries@[x].key.prefix) == opt_text(merged.entries@[x].key.prefix));
                    assert(value_carried(merged.entries@[x], aligned.entries@[x]));
                    assert(value_carried(aligned.entries@[x], root.entries@[x]));
                    assert(crate::model::names(root)[x] == root.entries@[x].key.name@);
                    assert(crate::model::names(aligned)[x] == aligned.entries@[x].key.name@);
                    lemma_value_kept_through(u, user, merged.entries@[x], root.entries@[x], n);
                    lemma_comments_kept_through(self.options.marker, u, user, merged.entries@[x], root.entries@[x], n);
                }
            }
        }
        proof {
            if let SourceDocument::Content { root: d, .. } = old(self).defaults {
                assert(crate::model::names(d) == crate::model::names(defaults));
                assert(order_at(d, root, pair.0));
            }
            assert forall|n: Seq<char>|
                (old(self).defaults matches SourceDocument::Content { root: d, .. } && has_name(d, n))
                    implies has_name(root, n) by {
                assert(has_name(defaults, n));
            }
            if old(self).migrations@.len() == 0 {
                assert forall|n: Seq<char>|
                    (old(self).user matches SourceDocument::Content { root: u, .. } && has_name(u, n))
                        implies has_name(root, n) by {
                    assert(has_name(user, n));
                }
                assert forall|n: Seq<char>| has_name(root, n) implies (old(
                    self,
                ).defaults matches SourceDocument::Content { root: d, .. } && has_name(d, n)) || (old(
                    self,
                ).user matches SourceDocument::Content { root: u, .. } && has_name(u, n)) by {
                    assert(has_name(merged, n));
                    assert(crate::model::names(start).len() == 0);
                    assert(!has_name(start, n));
                    assert(has_name(defaults, n) || has_name(user, n));
                    if has_name(defaults, n) {
                        assert(crate::model::names(defaults).len() > 0);
                    }
                    if has_name(user, n) {
                        assert(crate::model::names(user).len() > 0);
                    }
                }
            }
        }
        let ghost rep_t = self.report.entries();
        let trailing = self.merged_trailing();
        assert(self.report.entries() == rep_t);
        let mut next: isize = 0;
        let table = table_out(&root, &mut next);
        let mut document = document_new();
        document_set_root(&mut document, table);
        document_set_trailing(&mut document, trailing.as_str());
        let text = document_text(&document);
        let mut report = Report::new();
        std::mem::swap(&mut report, &mut self.report);
        proof {
            if old(self).migrations@.len() == 0 && old(self).defaults is Content {
                let d = old(self).defaults->root;
                assert forall|j: int| #![trigger d.entries@[j]] 0 <= j < d.entries@.len() implies exists|x: int|
                    0 <= x < root.entries@.len() && (#[trigger] root.entries@[x]).key.name@
                        == d.entries@[j].key.name@ && default_kept_in(d, old(self).user, root.entries@[x], j) by {
                    assert(defaults.entries@[j] == defaults.entries@[j]);
                    assert(crate::model::names(defaults)[j] == defaults.entries@[j].key.name@);
                    assert(crate::model::names(d)[j] == d.entries@[j].key.name@);
                    let x = choose|x: int|
                        0 <= x < merged.entries@.len() && (#[trigger] merged.entries@[x]).key.name@
                            == defaults.entries@[j].key.name@ && default_kept(defaults, user, merged.entries@[x], j);
                    assert(value_carried(merged.entries@[x], aligned.entries@[x]));
                    assert(value_carried(aligned.entries@[x], root.entries@[x]));
                    assert(crate::model::names(root)[x] == root.entries@[x].key.name@);
                    assert(crate::model::names(aligned)[x] == aligned.entries@[x].key.name@);
                    assert(value_carried(d.entries@[j], defaults.entries@[j]));
                    let n = d.entries@[j].key.name@;
                    if old(self).user is Content {
                        let u = old(self).user->root;
                        assert forall|i: int| 0 <= i < u.entries@.len() implies (#[trigger] u.entries@[i]).key.name@
                            == user.entries@[i].key.name@ by {
                            assert(crate::model::names(u)[i] == u.entries@[i].key.name@);
                            assert(crate::model::names(user)[i] == user.entries@[i].key.name@);
                        }
                        crate::model::lemma_first_from_same_names(u.entries@, user.entries@, n, 0);
                    } else {
                        assert(user.entries@.len() == 0);
                    }
                }
            }
            assert(report.entries() == rep_t);
            assert(grows(rep_a, rep_t));
            assert forall|k: int|
                old(self).report.entries().len() <= k < rep_t.len() implies moved_by_a_rule(
                    old(self).migrations@,
                    old(self).spans.spans@,
                    encode_utf8(old(self).user_src@),
                    #[trigger] rep_t[k],
                ) || raised_by_merge(rep_t[k]) by {
                if k < rep_a.len() {
                    assert(rep_t[k] == rep_a[k]);
                }
            }
            if old(self).user is Content {
                let (states, moved) = runs;
                assert forall|k: int| 0 <= k < moved.len() && moved[k] implies reports_move(
                    rep_t,
                    old(self).report.entries().len() as int,
                    old(self).migrations@[k],
                ) by {
                    lemma_move_grows(rep_a, rep_t, old(self).report.entries().len() as int, old(self).migrations@[k]);
                }
                assert(migrations_run(states, moved, old(self).migrations@));
                assert forall|n: Seq<char>|
                    (old(self).defaults is Content && has_name(old(self).defaults->root, n)) implies exists|x: int|
                    0 <= x < root.entries@.len() && (#[trigger] root.entries@[x]).key.name@ == n
                        && value_kept(states.last(), root.entries@[x], n) by {
                    assert(has_name(defaults, n));
                    let x = choose|x: int|
                        0 <= x < merged.entries@.len() && (#[trigger] merged.entries@[x]).key.name@ == n
                            && value_kept(user, merged.entries@[x], n);
                    assert(value_carried(merged.entries@[x], aligned.entries@[x]));
                    assert(value_carried(aligned.entries@[x], root.entries@[x]));
                    assert(crate::model::names(root)[x] == root.entries@[x].key.name@);
                    assert(crate::model::names(aligned)[x] == aligned.entries@[x].key.name@);
                    lemma_value_kept_through(states.last(), user, merged.entries@[x], root.entries@[x], n);
                }
            }
            if old(self).migrations@.len() == 0 && old(self).user is Content {
                let u = old(self).user->root;
                assert forall|n: Seq<char>|
                    has_name(u, n) && !(old(self).defaults is Content && has_name(old(self).defaults->root, n))
                        && !path_in(self.template.root, seq![n]) implies reported_unknown(
                    rep_t,
                    old(self).spans.spans@,
                    encode_utf8(old(self).user_src@),
                    seq![n],
                ) by {
                    assert(has_name(user, n));
                    if old(self).defaults is Content {
                        assert(crate::model::names(defaults) == crate::model::names(old(self).defaults->root));
                    }
                    assert(child_names(None, n) == seq![n]);
                }
                if old(self).defaults is Content {
                    let d = old(self).defaults->root;
                    assert forall|j: int| 0 <= j < d.entries@.len() implies #[trigger] mismatch_flagged(
                        d,
                        u,
                        j,
                        rep_t,
                        old(self).spans.spans@,
                        encode_utf8(old(self).user_src@),
                        None,
                    ) by {
                        assert(mismatch_flagged(
                            defaults,
                            user,
                            j,
                            rep_t,
                            old(self).spans.spans@,
                            encode_utf8(old(self).user_src@),
                            None,
                        ));
                        lemma_flagged_copies(d, defaults, u, user, j, rep_t, old(self).spans.spans@, encode_utf8(old(self).user_src@));
                    }
                }
            }
        }
        proof {
            if old(self).migrations@.len() == 0 && (old(self).defaults is Content ==> all_raw_named(
                old(self).defaults->root.entries@,
            )) && (old(self).user is Content ==> all_raw_named(old(self).user->root.entries@)) {
                assert forall|j: int| 0 <= j < defaults.entries@.len() implies raw_named(#[trigger] defaults.entries@[j]) by {
                    let d = old(self).defaults->root;
                    assert(raw_named(d.entries@[j]));
                    assert(crate::model::names(defaults)[j] == defaults.entries@[j].key.name@);
                    assert(crate::model::names(d)[j] == d.entries@[j].key.name@);
                }
                assert forall|j: int| 0 <= j < user.entries@.len() implies raw_named(#[trigger] user.entries@[j]) by {
                    let u = old(self).user->root;
                    assert(raw_named(u.entries@[j]));
                    assert(crate::model::names(user)[j] == user.entries@[j].key.name@);
                    assert(crate::model::names(u)[j] == u.entries@[j].key.name@);
                }
                assert forall|x: int| 0 <= x < root.entries@.len() implies raw_named(#[trigger] root.entries@[x]) by {
                    assert(raw_named(merged.entries@[x]));
                    assert(crate::model::names(aligned)[x] == aligned.entries@[x].key.name@);
                    assert(crate::model::names(merged)[x] == merged.entries@[x].key.name@);
                    assert(crate::model::names(root)[x] == root.entries@[x].key.name@);
                    if self.options.align {
                        assert(key_text_of(aligned.entries@[x].key.raw) == key_text_of(merged.entries@[x].key.raw));
                    }
                }
                assert(raw_names(root.entries@) =~= crate::model::names(root));
            }
        }
        let mut documented = TableNode::empty();
        std::mem::swap(&mut documented, &mut self.template.root);
        Merged { report, document, text, newline, tree: root, documented }
    }

    /// Where a key sits in the person's file.
    fn position(&self, path: &DottedPath) -> (p: Position)
        ensures
            placed_at(self.spans.spans@, encode_utf8(self.user_src@), path@, p.line, p.column),
    {
        self.spans.position(self.user_src.as_str(), path)
    }

    /// Records one observation about a key, placed where the person's file
    /// has the key at `seen`.
    fn note(&mut self, kind: DiagnosticKind, path: &DottedPath, seen: &DottedPath)
        ensures
            final(self).report.entries().len() == old(self).report.entries().len() + 1,
            final(self).report.entries().last().kind == kind,
            final(self).report.entries().last().path@ == path@,
            placed_at(
                old(self).spans.spans@,
                encode_utf8(old(self).user_src@),
                seen@,
                final(self).report.entries().last().line,
                final(self).report.entries().last().column,
            ),
            final(self).report.entries().last().severity == severity_spec(kind),
            final(self).report.entries().subrange(0, old(self).report.entries().len() as int)
                == old(self).report.entries(),
            final(self).pending == old(self).pending,
            final(self).options == old(self).options,
            grows(old(self).report.entries(), final(self).report.entries()),
            final(self).template == old(self).template,
            final(self).spans == old(self).spans,
            final(self).user_src == old(self).user_src,
            final(self).defaults == old(self).defaults,
            final(self).user == old(self).user,
            final(self).migrations == old(self).migrations,
    {
        let at = self.position(seen);
        self.report.push(Diagnostic::new(kind, path.duplicate(), at));
        assert(self.report.entries().subrange(0, old(self).report.entries().len() as int)
            =~= old(self).report.entries());
    }

    // -- migrations ------------------------------------------------------

    /// Moves values the rename rules name, before the merge walk, so a
    /// migrated value takes part in the merge as if the person had written it
    /// in place.
    fn apply_migrations(&mut self)
        ensures
            final(self).defaults == old(self).defaults,
            final(self).options == old(self).options,
            grows(old(self).report.entries(), final(self).report.entries()),
            final(self).template == old(self).template,
            final(self).spans == old(self).spans,
            final(self).user_src == old(self).user_src,
            tools_lines(old(self).options.marker, old(self).pending@) ==> tools_lines(
                old(self).options.marker,
                final(self).pending@,
            ),
            old(self).migrations@.len() == 0 ==> final(self).user == old(self).user,
            final(self).migrations@.len() == old(self).migrations@.len(),
            old(self).user is Empty ==> final(self).user is Empty,
            old(self).user matches SourceDocument::Content { root, trailing } ==> exists|
                states: Seq<TableNode>,
                moved: Seq<bool>,
            |
                #[trigger] migrations_run(states, moved, old(self).migrations@) && states[0] == root
                    && final(self).user == (SourceDocument::Content { root: states.last(), trailing })
                    && forall|r: int|
                    0 <= r < moved.len() && moved[r] ==> reports_move(
                        final(self).report.entries(),
                        old(self).report.entries().len() as int,
                        old(self).migrations@[r],
                    ),
            forall|k: int|
                old(self).report.entries().len() <= k < final(self).report.entries().len()
                    ==> moved_by_a_rule(
                    old(self).migrations@,
                    old(self).spans.spans@,
                    encode_utf8(old(self).user_src@),
                    #[trigger] final(self).report.entries()[k],
                ),
    {
        let mut rules: Vec<(DottedPath, DottedPath)> = Vec::new();
        std::mem::swap(&mut rules, &mut self.migrations);
        let ghost start = self.report.entries().len() as int;
        let ghost mut states: Seq<TableNode> = match old(self).user {
            SourceDocument::Content { root, .. } => seq![root],
            SourceDocument::Empty => seq![vstd::pervasive::arbitrary()],
        };
        let ghost mut flags: Seq<bool> = Seq::empty();
        let mut i: usize = 0;
        while i < rules.len()
            invariant
                i <= rules@.len(),
                start == old(self).report.entries().len(),
                old(self).user is Empty ==> self.user is Empty,
                states.len() == i + 1,
                flags.len() == i,
                forall|j: int|
                    0 <= j < i ==> migration_step(
                        states[j],
                        states[j + 1],
                        rules@[j].0@,
                        rules@[j].1@,
                        #[trigger] flags[j],
                    ),
                old(self).user matches SourceDocument::Content { root, trailing } ==> (states[0] == root
                    && self.user == (SourceDocument::Content { root: states.last(), trailing })),
                forall|j: int|
                    0 <= j < i && #[trigger] flags[j] ==> reports_move(self.report.entries(), start, rules@[j]),
                self.defaults == old(self).defaults,
                self.options == old(self).options,
                grows(old(self).report.entries(), self.report.entries()),
                self.template == old(self).template,
                self.spans == old(self).spans,
                self.user_src == old(self).user_src,
                tools_lines(old(self).options.marker, old(self).pending@) ==> tools_lines(
                    old(self).options.marker,
                    self.pending@,
                ),
                self.migrations@.len() == 0,
                rules@ == old(self).migrations@,
                old(self).migrations@.len() == 0 ==> self.user == old(self).user,
                forall|k: int|
                    old(self).report.entries().len() <= k < self.report.entries().len()
                        ==> moved_by_a_rule(
                        old(self).migrations@,
                        old(self).spans.spans@,
                        encode_utf8(old(self).user_src@),
                        #[trigger] self.report.entries()[k],
                    ),
            ensures
                old(self).user is Content ==> i == rules@.len(),
            decreases rules.len() - i,
        {
            let from = rules[i].0.duplicate();
            let to = rules[i].1.duplicate();
            let mut user = SourceDocument::Empty;
            std::mem::swap(&mut user, &mut self.user);
            let (mut root, trailing) = match user {
                SourceDocument::Empty => {
                    break;
                },
                SourceDocument::Content { root, trailing } => (root, trailing),
            };
            let ghost root0 = root;
            let moved = migrate_one(&mut root, &from, &to);
            proof {
                assert(migration_step(root0, root, rules@[i as int].0@, rules@[i as int].1@, moved));
                states = states.push(root);
                flags = flags.push(moved);
            }
            self.user = SourceDocument::Content { root, trailing };
            if moved {
                let ghost before = self.report.entries();
                let named = from.duplicate();
                self.note(DiagnosticKind::Migrated { from: named }, &to, &from);
                proof {
                    let last = self.report.entries().len() - 1;
                    assert(self.report.entries()[last].kind == DiagnosticKind::Migrated { from: named });
                    assert(reports_move(self.report.entries(), start, rules@[i as int]));
                    assert forall|j: int| 0 <= j < i && #[trigger] flags[j] implies reports_move(
                        self.report.entries(),
                        start,
                        rules@[j],
                    ) by {
                        let k = choose|k: int|
                            start <= k < before.len() && ((#[trigger] before[k]).kind matches DiagnosticKind::Migrated { from: f }
                                && f@ == rules@[j].0@) && before[k].path@ == rules@[j].1@;
                        assert(self.report.entries().subrange(0, before.len() as int)[k] == self.report.entries()[k]);
                    }
                }
                proof {
                    let last = self.report.entries().len() - 1;
                    assert(moved_by_a_rule(
                        old(self).migrations@,
                        old(self).spans.spans@,
                        encode_utf8(old(self).user_src@),
                        self.report.entries()[last],
                    ) ) by {
                        assert(rules@[i as int] == old(self).migrations@[i as int]);
                    }
                    assert forall|k: int|
                        old(self).report.entries().len() <= k < self.report.entries().len()
                            implies moved_by_a_rule(
                            old(self).migrations@,
                            old(self).spans.spans@,
                            encode_utf8(old(self).user_src@),
                            #[trigger] self.report.entries()[k],
                        ) by {
                        if k < before.len() {
                            assert(self.report.entries().subrange(0, before.len() as int)[k]
                                == self.report.entries()[k]);
                        }
                    }
                }
            }
            i = i + 1;
        }
        self.migrations = rules;
        proof {
            if old(self).user is Content {
                assert(migrations_run(states, flags, old(self).migrations@));
            }
        }
    }

    // -- the walk --------------------------------------------------------

    /// Merges one table: the defaults' keys in their order, the keys the
    /// defaults only document where they were written, then the keys only
    /// the person has.
    ///
    /// Every key of either table comes out: the defaults' keys are written in
    /// with a live value where the person has none, and no key of the
    /// person's is dropped.
    #[verifier::rlimit(40)]
    #[verifier::spinoff_prover]
    pub fn merge_table(
        &mut self,
        defaults: &TableNode,
        user: &TableNode,
        out: &mut TableNode,
        path: Option<&DottedPath>,
        depth: usize,
    )
        ensures
            extends(old(out).entries@, final(out).entries@),
            forall|n: Seq<char>| has_name(*defaults, n) ==> has_name(*final(out), n),
            forall|n: Seq<char>| has_name(*user, n) ==> has_name(*final(out), n),
            forall|n: Seq<char>|
                has_name(*user, n) && !has_name(*defaults, n) && !path_in(
                    old(self).template.root,
                    child_names(path, n),
                ) ==> reported_unknown(
                    final(self).report.entries(),
                    old(self).spans.spans@,
                    encode_utf8(old(self).user_src@),
                    child_names(path, n),
                ),
            laid_out(
                *defaults,
                *user,
                old(self).template.root,
                path,
                *final(out),
                old(out).entries@.len() as int,
            ),
            forall|n: Seq<char>|
                has_name(*final(out), n) ==> has_name(*old(out), n) || has_name(*defaults, n)
                    || has_name(*user, n),
            (all_raw_named(defaults.entries@) && all_raw_named(user.entries@)) ==> gained_raw(
                old(out).entries@,
                final(out).entries@,
            ),
            forall|j: int|
                #![trigger defaults.entries@[j]]
                0 <= j < defaults.entries@.len() ==> exists|x: int|
                    old(out).entries@.len() <= x < final(out).entries@.len()
                        && (#[trigger] final(out).entries@[x]).key.name@ == defaults.entries@[j].key.name@
                        && default_kept(*defaults, *user, final(out).entries@[x], j),
            forall|n: Seq<char>|
                has_name(*defaults, n) ==> exists|x: int|
                    old(out).entries@.len() <= x < final(out).entries@.len()
                        && (#[trigger] final(out).entries@[x]).key.name@ == n
                        && value_kept(*user, final(out).entries@[x], n)
                        && comments_kept(old(self).options.marker, *user, final(out).entries@[x], n),
            forall|j: int|
                0 <= j < defaults.entries@.len() ==> #[trigger] mismatch_flagged(
                    *defaults,
                    *user,
                    j,
                    final(self).report.entries(),
                    old(self).spans.spans@,
                    encode_utf8(old(self).user_src@),
                    path,
                ),
            forall|n: Seq<char>|
                has_name(*user, n) && unknown_at(*defaults, old(self).template.root, path, n) ==> exists|x: int|
                    old(out).entries@.len() <= x < final(out).entries@.len()
                        && (#[trigger] final(out).entries@[x]).key.name@ == n
                        && value_kept(*user, final(out).entries@[x], n),
            final(self).options == old(self).options,
            grows(old(self).report.entries(), final(self).report.entries()),
            added_by_merge(old(self).report.entries(), final(self).report.entries()),
            final(self).template == old(self).template,
            final(self).spans == old(self).spans,
            final(self).user_src == old(self).user_src,
            tools_lines(old(self).options.marker, old(self).pending@) ==> tools_lines(
                old(self).options.marker,
                final(self).pending@,
            ),
        decreases depth, 3usize,
    {
        let found = self.template.under(path);
        let optional = match found {
            Some(t) => t.duplicate(),
            None => TableNode::empty(),
        };
        proof {
            assert forall|n: Seq<char>| has_name(optional, n) implies path_in(
                self.template.root,
                child_names(path, n),
            ) by {
                match found {
                    Some(t) => {
                        assert(crate::model::names(optional) == crate::model::names(*t));
                        assert(has_name(*t, n));
                    },
                    None => {
                        assert(crate::model::names(optional).len() == 0);
                    },
                }
            }
        }
        let mut done: Vec<String> = Vec::new();
        let mut i: usize = 0;
        while i < defaults.entries.len()
            invariant
                i <= defaults.entries@.len(),
                views(done@) == crate::model::names(*defaults).subrange(0, i as int),
            decreases defaults.entries.len() - i,
        {
            let ghost before = done@;
            let name = defaults.entries[i].key.name.clone();
            done.push(name);
            proof {
                crate::text::lemma_views_push(before, name);
            }
            i = i + 1;
            assert(views(done@) =~= crate::model::names(*defaults).subrange(0, i as int));
        }
        assert(crate::model::names(*defaults).subrange(0, i as int) =~= crate::model::names(*defaults));
        assert(out.entries@.subrange(0, out.entries@.len() as int) =~= out.entries@);
        let ghost mut dp: Seq<int> = Seq::empty();
        let mut i: usize = 0;
        while i < defaults.entries.len()
            invariant
                i <= defaults.entries@.len(),
                extends(old(out).entries@, out.entries@),
                forall|j: int| 0 <= j < i ==> has_name(*out, (#[trigger] defaults.entries@[j]).key.name@),
                dp.len() == i,
                forall|x: int|
                    old(out).entries@.len() <= x < out.entries@.len() ==> has_name(
                        *defaults,
                        #[trigger] out.entries@[x].key.name@,
                    ) || has_name(*user, out.entries@[x].key.name@),
                forall|j: int|
                    0 <= j < i ==> old(out).entries@.len() <= #[trigger] dp[j] < out.entries@.len()
                        && out.entries@[dp[j]].key.name@ == defaults.entries@[j].key.name@
                        && value_kept(*user, out.entries@[dp[j]], defaults.entries@[j].key.name@)
                        && comments_kept(
                        old(self).options.marker,
                        *user,
                        out.entries@[dp[j]],
                        defaults.entries@[j].key.name@,
                    ) && default_kept(*defaults, *user, out.entries@[dp[j]], j),
                forall|j: int, k: int| 0 <= j < k < i ==> dp[j] < dp[k],
                forall|n: Seq<char>|
                    views(done@).contains(n) ==> has_name(*defaults, n) || (has_name(*user, n)
                        ==> has_name(*out, n)),
                forall|n: Seq<char>|
                    views(done@).contains(n) ==> has_name(*defaults, n) || has_name(optional, n),
                self.options == old(self).options,
                grows(old(self).report.entries(), self.report.entries()),
                added_by_merge(old(self).report.entries(), self.report.entries()),
                self.template == old(self).template,
                self.spans == old(self).spans,
                self.user_src == old(self).user_src,
                tools_lines(old(self).options.marker, old(self).pending@) ==> tools_lines(
                    old(self).options.marker,
                    self.pending@,
                ),
                forall|j: int|
                    0 <= j < i ==> #[trigger] mismatch_flagged(
                        *defaults,
                        *user,
                        j,
                        self.report.entries(),
                        old(self).spans.spans@,
                        encode_utf8(old(self).user_src@),
                        path,
                    ),
                (all_raw_named(defaults.entries@) && all_raw_named(user.entries@)) ==> gained_raw(
                    old(out).entries@,
                    out.entries@,
                ),
            decreases defaults.entries.len() - i,
        {
            let entry = &defaults.entries[i];
            let child = child_path(path, entry.key.name.as_str());
            let ghost out0 = *out;
            let ghost report0 = self.report.entries();
            // Anything the defaults documented above this key was written to
            // be read above it, so it goes out first.
            self.merge_optional(&optional, &mut done, user, out, path, Some(&child), depth);
            let ghost out1 = *out;
            match user.find(entry.key.name.as_str()) {
                None => {
                    let first = out.entries.len() == 0;
                    let made = self.default_entry(entry, &child, first, depth);
                    out.push(made);
                    proof {
                        lemma_name_at(*defaults, i as int);
                        if all_raw_named(defaults.entries@) {
                            assert(raw_named(defaults.entries@[i as int]));
                            assert(raw_named(out.entries@[out.entries@.len() - 1]));
                        }
                    }
                },
                Some(at) => {
                    self.merge_item(entry, &user.entries[at], out, &child, depth);
                    proof {
                        crate::model::lemma_last_name(*out);
                        lemma_name_at(*user, at as int);
                        if all_raw_named(user.entries@) {
                            assert(raw_named(user.entries@[at as int]));
                            assert(raw_named(out.entries@[out.entries@.len() - 1]));
                        }
                        let ds = self.report.entries();
                        if !accepts(node_type(entry.item), node_type(user.entries@[at as int].item)) {
                            assert(ds[ds.len() - 1].kind == DiagnosticKind::TypeMismatch {
                                expected: node_type(entry.item),
                                found: node_type(user.entries@[at as int].item),
                            });
                        }
                        assert(mismatch_flagged(
                            *defaults,
                            *user,
                            i as int,
                            ds,
                            old(self).spans.spans@,
                            encode_utf8(old(self).user_src@),
                            path,
                        ));
                    }
                },
            }
            proof {
                if all_raw_named(defaults.entries@) && all_raw_named(user.entries@) {
                    assert forall|x: int|
                        old(out).entries@.len() <= x < out.entries@.len() implies raw_named(
                        #[trigger] out.entries@[x],
                    ) by {
                        if x < out1.entries@.len() {
                            lemma_extends_at(out1.entries@, out.entries@, x);
                            if x < out0.entries@.len() {
                                lemma_extends_at(out0.entries@, out1.entries@, x);
                            }
                        }
                    }
                }
                assert forall|j: int| 0 <= j < i implies #[trigger] mismatch_flagged(
                    *defaults,
                    *user,
                    j,
                    self.report.entries(),
                    old(self).spans.spans@,
                    encode_utf8(old(self).user_src@),
                    path,
                ) by {
                    lemma_flagged_grows(
                        *defaults,
                        *user,
                        j,
                        report0,
                        self.report.entries(),
                        old(self).spans.spans@,
                        encode_utf8(old(self).user_src@),
                        path,
                    );
                }

                assert forall|x: int|
                    old(out).entries@.len() <= x < out.entries@.len() implies has_name(
                    *defaults,
                    #[trigger] out.entries@[x].key.name@,
                ) || has_name(*user, out.entries@[x].key.name@) by {
                    if x < out1.entries@.len() {
                        lemma_extends_at(out1.entries@, out.entries@, x);
                        if x < out0.entries@.len() {
                            lemma_extends_at(out0.entries@, out1.entries@, x);
                        }
                    }
                }
                lemma_extends_trans(out0.entries@, out1.entries@, out.entries@);
                lemma_extends_trans(old(out).entries@, out0.entries@, out.entries@);
                lemma_extends_names(out0, *out);
                lemma_extends_names(out1, *out);
                assert forall|j: int| 0 <= j < i implies out.entries@[dp[j]] == out0.entries@[dp[j]] by {
                    lemma_extends_at(out0.entries@, out.entries@, dp[j]);
                }
                dp = dp.push(out.entries@.len() - 1);
            }
            i = i + 1;
        }
        proof {
            assert forall|n: Seq<char>| has_name(*defaults, n) implies has_name(*out, n) by {
                let k = crate::model::names(*defaults).index_of(n);
                assert(defaults.entries@[k].key.name@ == n);
            }
        }
        let ghost out2 = *out;
        let ghost report2 = self.report.entries();
        self.merge_optional(&optional, &mut done, user, out, path, None, depth);
        proof {
            if all_raw_named(defaults.entries@) && all_raw_named(user.entries@) {
                assert forall|x: int|
                    old(out).entries@.len() <= x < out.entries@.len() implies raw_named(
                    #[trigger] out.entries@[x],
                ) by {
                    if x < out2.entries@.len() {
                        lemma_extends_at(out2.entries@, out.entries@, x);
                    }
                }
            }
            assert forall|j: int| 0 <= j < defaults.entries@.len() implies #[trigger] mismatch_flagged(
                *defaults,
                *user,
                j,
                self.report.entries(),
                old(self).spans.spans@,
                encode_utf8(old(self).user_src@),
                path,
            ) by {
                lemma_flagged_grows(
                    *defaults,
                    *user,
                    j,
                    report2,
                    self.report.entries(),
                    old(self).spans.spans@,
                    encode_utf8(old(self).user_src@),
                    path,
                );
            }
            lemma_extends_trans(old(out).entries@, out2.entries@, out.entries@);
            lemma_extends_names(out2, *out);
            assert forall|j: int| 0 <= j < dp.len() implies out.entries@[dp[j]] == out2.entries@[dp[j]] by {
                lemma_extends_at(out2.entries@, out.entries@, dp[j]);
            }
            assert forall|x: int|
                old(out).entries@.len() <= x < out.entries@.len() implies has_name(
                *defaults,
                #[trigger] out.entries@[x].key.name@,
            ) || has_name(*user, out.entries@[x].key.name@) by {
                if x < out2.entries@.len() {
                    lemma_extends_at(out2.entries@, out.entries@, x);
                }
            }
        }
        let ghost mark = out.entries@.len();
        let ghost mut up: Seq<int> = Seq::empty();
        let ghost template_root = self.template.root;
        let mut i: usize = 0;
        while i < user.entries.len()
            invariant
                i <= user.entries@.len(),
                extends(old(out).entries@, out.entries@),
                mark <= out.entries@.len(),
                forall|x: int|
                    old(out).entries@.len() <= x < out.entries@.len() ==> has_name(
                        *defaults,
                        #[trigger] out.entries@[x].key.name@,
                    ) || has_name(*user, out.entries@[x].key.name@),
                template_root == old(self).template.root,
                dp.len() == defaults.entries@.len(),
                forall|j: int|
                    0 <= j < dp.len() ==> old(out).entries@.len() <= #[trigger] dp[j] < mark
                        && out.entries@[dp[j]].key.name@ == defaults.entries@[j].key.name@
                        && value_kept(*user, out.entries@[dp[j]], defaults.entries@[j].key.name@)
                        && comments_kept(
                        old(self).options.marker,
                        *user,
                        out.entries@[dp[j]],
                        defaults.entries@[j].key.name@,
                    ) && default_kept(*defaults, *user, out.entries@[dp[j]], j),
                forall|j: int, k: int| 0 <= j < k < dp.len() ==> dp[j] < dp[k],
                up.len() == i,
                forall|j: int|
                    0 <= j < i && unknown_at(*defaults, template_root, path, user.entries@[j].key.name@)
                        ==> mark <= #[trigger] up[j] < out.entries@.len() && out.entries@[up[j]].key.name@
                        == user.entries@[j].key.name@,
                forall|j: int, k: int|
                    0 <= j < k < i && unknown_at(*defaults, template_root, path, user.entries@[j].key.name@)
                        && unknown_at(*defaults, template_root, path, user.entries@[k].key.name@)
                        ==> up[j] < up[k],
                forall|j: int|
                    0 <= j < i && unknown_at(*defaults, template_root, path, user.entries@[j].key.name@)
                        ==> value_carried(user.entries@[j], #[trigger] out.entries@[up[j]]),
                forall|n: Seq<char>| has_name(*defaults, n) ==> has_name(*out, n),
                forall|j: int| 0 <= j < i ==> has_name(*out, (#[trigger] user.entries@[j]).key.name@),
                forall|n: Seq<char>| views(done@).contains(n) ==> (has_name(*user, n) ==> has_name(*out, n)),
                forall|n: Seq<char>|
                    views(done@).contains(n) ==> has_name(*defaults, n) || has_name(optional, n),
                forall|n: Seq<char>|
                    has_name(optional, n) ==> path_in(self.template.root, child_names(path, n)),
                self.template == old(self).template,
                self.spans == old(self).spans,
                self.user_src == old(self).user_src,
                tools_lines(old(self).options.marker, old(self).pending@) ==> tools_lines(
                    old(self).options.marker,
                    self.pending@,
                ),
                forall|j: int|
                    0 <= j < i ==> (!has_name(*defaults, (#[trigger] user.entries@[j]).key.name@)
                        && !path_in(self.template.root, child_names(path, user.entries@[j].key.name@)))
                        ==> reported_unknown(
                        self.report.entries(),
                        old(self).spans.spans@,
                        encode_utf8(old(self).user_src@),
                        child_names(path, user.entries@[j].key.name@),
                    ),
                self.options == old(self).options,
                grows(old(self).report.entries(), self.report.entries()),
                added_by_merge(old(self).report.entries(), self.report.entries()),
                forall|j: int|
                    0 <= j < defaults.entries@.len() ==> #[trigger] mismatch_flagged(
                        *defaults,
                        *user,
                        j,
                        self.report.entries(),
                        old(self).spans.spans@,
                        encode_utf8(old(self).user_src@),
                        path,
                    ),
                (all_raw_named(defaults.entries@) && all_raw_named(user.entries@)) ==> gained_raw(
                    old(out).entries@,
                    out.entries@,
                ),
            decreases user.entries.len() - i,
        {
            let entry = &user.entries[i];
            let ghost out0 = *out;
            proof {
                assert(crate::model::names(*user)[i as int] == entry.key.name@);
                assert(has_name(*user, entry.key.name@));
            }
            let ghost report0 = self.report.entries();
            if !holds(&done, &entry.key.name) {
                let child = child_path(path, entry.key.name.as_str());
                if !self.template.knows(&child) {
                    self.note(DiagnosticKind::UnknownKey, &child, &child);
                    proof {
                        let last = (self.report.entries().len() - 1) as int;
                        assert(self.report.entries()[last].kind is UnknownKey);
                        assert(self.report.entries()[last].path@ == child_names(path, entry.key.name@));
                    }
                }
                let kept = self.keep_unknown(entry, &child, depth);
                out.push(kept);
                proof {
                    if all_raw_named(defaults.entries@) && all_raw_named(user.entries@) {
                        assert(raw_named(user.entries@[i as int]));
                        assert forall|x: int|
                            old(out).entries@.len() <= x < out.entries@.len() implies raw_named(
                            #[trigger] out.entries@[x],
                        ) by {
                            if x < out0.entries@.len() {
                                lemma_extends_at(out0.entries@, out.entries@, x);
                            }
                        }
                    }
                    lemma_extends_trans(old(out).entries@, out0.entries@, out.entries@);
                    lemma_extends_names(out0, *out);
                    assert forall|j: int| 0 <= j < dp.len() implies out.entries@[dp[j]] == out0.entries@[dp[j]] by {
                        lemma_extends_at(out0.entries@, out.entries@, dp[j]);
                    }
                    assert forall|j: int|
                        0 <= j < i && unknown_at(*defaults, template_root, path, user.entries@[j].key.name@)
                            implies out.entries@[up[j]] == out0.entries@[up[j]] by {
                        lemma_extends_at(out0.entries@, out.entries@, up[j]);
                    }
                    up = up.push(out.entries@.len() - 1);
                    lemma_name_at(*user, i as int);
                    assert forall|x: int|
                        old(out).entries@.len() <= x < out.entries@.len() implies has_name(
                        *defaults,
                        #[trigger] out.entries@[x].key.name@,
                    ) || has_name(*user, out.entries@[x].key.name@) by {
                        if x < out0.entries@.len() {
                            lemma_extends_at(out0.entries@, out.entries@, x);
                        }
                    }
                }
            } else {
                proof {
                    assert(!unknown_at(*defaults, template_root, path, entry.key.name@));
                    up = up.push(0);
                }
            }
            proof {
                assert forall|j: int| 0 <= j < defaults.entries@.len() implies #[trigger] mismatch_flagged(
                    *defaults,
                    *user,
                    j,
                    self.report.entries(),
                    old(self).spans.spans@,
                    encode_utf8(old(self).user_src@),
                    path,
                ) by {
                    lemma_flagged_grows(
                        *defaults,
                        *user,
                        j,
                        report0,
                        self.report.entries(),
                        old(self).spans.spans@,
                        encode_utf8(old(self).user_src@),
                        path,
                    );
                }
            }
            i = i + 1;
        }
        proof {
            assert forall|n: Seq<char>| has_name(*user, n) implies has_name(*out, n) by {
                let k = crate::model::names(*user).index_of(n);
                assert(user.entries@[k].key.name@ == n);
            }
            assert(placed(*defaults, *user, old(self).template.root, path, *out, old(out).entries@.len() as int, dp, up));
            assert forall|n: Seq<char>|
                has_name(*user, n) && unknown_at(*defaults, old(self).template.root, path, n) implies exists|x: int|
                old(out).entries@.len() <= x < out.entries@.len() && (#[trigger] out.entries@[x]).key.name@ == n
                    && value_kept(*user, out.entries@[x], n) by {
                let j = first_from(user.entries@, n, 0);
                crate::model::lemma_first_from_found(user.entries@, n, 0);
                if j < 0 {
                    crate::model::lemma_first_from_none(user.entries@, n, 0);
                    let k = crate::model::names(*user).index_of(n);
                    assert(user.entries@[k].key.name@ == n);
                }
                assert(out.entries@[up[j]].key.name@ == n);
            }
            assert forall|j: int| #![trigger defaults.entries@[j]] 0 <= j < defaults.entries@.len() implies exists|x: int|
                old(out).entries@.len() <= x < out.entries@.len()
                    && (#[trigger] out.entries@[x]).key.name@ == defaults.entries@[j].key.name@
                    && default_kept(*defaults, *user, out.entries@[x], j) by {
                assert(out.entries@[dp[j]].key.name@ == defaults.entries@[j].key.name@);
            }
            assert forall|n: Seq<char>| has_name(*defaults, n) implies exists|x: int|
                old(out).entries@.len() <= x < out.entries@.len() && (#[trigger] out.entries@[x]).key.name@ == n
                    && value_kept(*user, out.entries@[x], n)
                    && comments_kept(old(self).options.marker, *user, out.entries@[x], n) by {
                let k = crate::model::names(*defaults).index_of(n);
                assert(defaults.entries@[k].key.name@ == n);
                assert(out.entries@[dp[k]].key.name@ == n);
            }
            assert forall|n: Seq<char>| has_name(*out, n) implies has_name(*old(out), n) || has_name(
                *defaults,
                n,
            ) || has_name(*user, n) by {
                let x = lemma_grown_name(*old(out), *out, n);
            }
        }
    }

    /// Writes out the keys the defaults document without declaring, the ones
    /// due at this point in the order.
    ///
    /// A key the person has set merges like any other, its sample line being
    /// the default the defaults wrote by hand because there was no live value
    /// to take one from. A key they have not set stays a sample line.
    fn merge_optional(
        &mut self,
        optional: &TableNode,
        done: &mut Vec<String>,
        user: &TableNode,
        out: &mut TableNode,
        path: Option<&DottedPath>,
        next: Option<&DottedPath>,
        depth: usize,
    )
        ensures
            extends(old(out).entries@, final(out).entries@),
            forall|n: Seq<char>|
                views(final(done)@).contains(n) ==> views(old(done)@).contains(n) || (has_name(
                    *user,
                    n,
                ) ==> has_name(*final(out), n)),
            forall|n: Seq<char>|
                views(final(done)@).contains(n) ==> views(old(done)@).contains(n) || has_name(
                    *optional,
                    n,
                ),
            gained_from(old(out).entries@, final(out).entries@, *user),
            all_raw_named(user.entries@) ==> gained_raw(old(out).entries@, final(out).entries@),
            final(self).options == old(self).options,
            grows(old(self).report.entries(), final(self).report.entries()),
            added_by_merge(old(self).report.entries(), final(self).report.entries()),
            final(self).template == old(self).template,
            final(self).spans == old(self).spans,
            final(self).user_src == old(self).user_src,
            tools_lines(old(self).options.marker, old(self).pending@) ==> tools_lines(
                old(self).options.marker,
                final(self).pending@,
            ),
        decreases depth, 2usize,
    {
        assert(out.entries@.subrange(0, out.entries@.len() as int) =~= out.entries@);
        let mut i: usize = 0;
        while i < optional.entries.len()
            invariant
                i <= optional.entries@.len(),
                extends(old(out).entries@, out.entries@),
                forall|n: Seq<char>|
                    views(done@).contains(n) ==> views(old(done)@).contains(n) || (has_name(
                        *user,
                        n,
                    ) ==> has_name(*out, n)),
                forall|n: Seq<char>|
                    views(done@).contains(n) ==> views(old(done)@).contains(n) || has_name(
                        *optional,
                        n,
                    ),
                gained_from(old(out).entries@, out.entries@, *user),
                all_raw_named(user.entries@) ==> gained_raw(old(out).entries@, out.entries@),
                self.options == old(self).options,
                grows(old(self).report.entries(), self.report.entries()),
                added_by_merge(old(self).report.entries(), self.report.entries()),
                self.template == old(self).template,
                self.spans == old(self).spans,
                self.user_src == old(self).user_src,
                tools_lines(old(self).options.marker, old(self).pending@) ==> tools_lines(
                    old(self).options.marker,
                    self.pending@,
                ),
            decreases optional.entries.len() - i,
        {
            let entry = &optional.entries[i];
            if !holds(done, &entry.key.name) {
                let child = child_path(path, entry.key.name.as_str());
                let due = match next {
                    Some(next) => match self.template.written_before(&child) {
                        Some(written) => written.same(next),
                        None => false,
                    },
                    // Whatever is left was written below the last key of its
                    // table, or below a key this table does not have.
                    None => true,
                };
                if due {
                    let ghost out0 = *out;
                    let ghost done0 = done@;
                    let name = entry.key.name.clone();
                    done.push(name);
                    proof {
                        crate::text::lemma_views_push(done0, name);
                    }
                    match user.find(entry.key.name.as_str()) {
                        Some(at) => {
                            self.optional_set(entry, &user.entries[at], out, &child, depth);
                            proof {
                                crate::model::lemma_last_name(*out);
                                lemma_name_at(*user, at as int);
                                assert forall|x: int|
                                    old(out).entries@.len() <= x < out.entries@.len() implies has_name(
                                    *user,
                                    #[trigger] out.entries@[x].key.name@,
                                ) by {
                                    if x < out0.entries@.len() {
                                        lemma_extends_at(out0.entries@, out.entries@, x);
                                    }
                                }
                                if all_raw_named(user.entries@) {
                                    assert(raw_named(user.entries@[at as int]));
                                    assert forall|x: int|
                                        old(out).entries@.len() <= x < out.entries@.len() implies raw_named(
                                        #[trigger] out.entries@[x],
                                    ) by {
                                        if x < out0.entries@.len() {
                                            lemma_extends_at(out0.entries@, out.entries@, x);
                                        }
                                    }
                                }
                            }
                        },
                        None => {
                            // Nothing to sit above yet. It waits for whatever
                            // the walk reaches next, and for the end of the
                            // file if nothing.
                            let ghost pending0 = self.pending@;
                            if self.pending.len() > 0 {
                                self.pending.push(String::new());
                            }
                            let ghost gap = self.pending@.skip(pending0.len() as int);
                            let mut lines = comment_out(
                                &child,
                                &entry.key,
                                &entry.item,
                                &self.options.marker,
                            );
                            let ghost written = lines@;
                            self.pending.append(&mut lines);
                            proof {
                                assert(self.pending@ =~= pending0 + gap + written);
                                if tools_lines(old(self).options.marker, pending0) {
                                    lemma_tools_grow(old(self).options.marker, pending0, gap, written);
                                }
                            }
                            assert(out.entries@.subrange(0, out0.entries@.len() as int) =~= out0.entries@);
                        },
                    }
                    proof {
                        lemma_extends_trans(old(out).entries@, out0.entries@, out.entries@);
                        lemma_extends_names(out0, *out);
                        assert forall|n: Seq<char>|
                            views(done@).contains(n) implies views(old(done)@).contains(n) || (
                            has_name(*user, n) ==> has_name(*out, n)) by {
                            if n != name@ {
                                let k = views(done@).index_of(n);
                                assert(views(done0)[k] == n);
                            }
                        }
                        assert(crate::model::names(*optional)[i as int] == name@);
                        assert forall|n: Seq<char>|
                            views(done@).contains(n) implies views(old(done)@).contains(n) || has_name(
                            *optional,
                            n,
                        ) by {
                            if n != name@ {
                                let k = views(done@).index_of(n);
                                assert(views(done0)[k] == n);
                            }
                        }
                    }
                }
            }
            i = i + 1;
        }
    }

    /// An optional key the person has set.
    fn optional_set(
        &mut self,
        template: &Entry,
        user: &Entry,
        out: &mut TableNode,
        path: &DottedPath,
        depth: usize,
    )
        ensures
            extends(old(out).entries@, final(out).entries@),
            final(out).entries@.len() == old(out).entries@.len() + 1,
            final(out).entries@.last().key.name@ == user.key.name@,
            key_text_of(final(out).entries@.last().key.raw) == key_text_of(user.key.raw),
            node_type(final(out).entries@.last().item) == node_type(user.item),
            user.item matches Node::Value(u) ==> final(out).entries@.last().item matches Node::Value(
                v,
            ) && v.text@ == u.text@ && v.kind == u.kind,
            ends_with(
                text_or_empty(above_of(final(out).entries@.last())),
                persons_tail(old(self).options.marker, text_or_empty(above_of(*user))),
            ),
            user.item matches Node::Table(u) ==> final(out).entries@.last().item matches Node::Table(o)
                && forall|n: Seq<char>| has_name(u, n) ==> has_name(o, n),
            exists|b: DocBlock|
                text_or_empty(above_of(final(out).entries@.last())) == #[trigger] render_spec(
                    b,
                    old(self).options.marker,
                ) && views(b.user_lines@) == persons_lines(
                    old(self).options.marker,
                    complete_lines(text_or_empty(above_of(*user))),
                ) && b.indent@ == after_last_newline(text_or_empty(above_of(*user))) && views(b.floating@)
                    == (if old(self).pending@.len() > 0 {
                    seq![Seq::<char>::empty()] + views(old(self).pending@) + seq![Seq::<char>::empty()]
                } else {
                    Seq::<Seq<char>>::empty()
                }) && views(b.leading_blanks@) == (if opening_blanks(
                    old(self).options.marker,
                    complete_lines(text_or_empty(above_of(*user))),
                ).len() == 0 && old(out).entries@.len() > 0 && (b.prose@.len() > 0 || !(b.sample is Absent)) {
                    seq![Seq::<char>::empty()]
                } else {
                    opening_blanks(old(self).options.marker, complete_lines(text_or_empty(above_of(*user))))
                }) && optional_echo(*template, *user, b.sample) && shows_touching(
                    old(self).options.marker,
                    text_or_empty(above_of(*template)),
                    b,
                ),
            user.item is Value ==> final(self).report == old(self).report,
            user.item is Value ==> final(self).pending@.len() == 0,
            final(self).options == old(self).options,
            grows(old(self).report.entries(), final(self).report.entries()),
            added_by_merge(old(self).report.entries(), final(self).report.entries()),
            final(self).template == old(self).template,
            final(self).spans == old(self).spans,
            final(self).user_src == old(self).user_src,
            tools_lines(old(self).options.marker, old(self).pending@) ==> tools_lines(
                old(self).options.marker,
                final(self).pending@,
            ),
        decreases depth, 1usize,
    {
        let first = out.entries.len() == 0;
        let mut block = DocBlock::empty();
        let user_above = above(user);
        assert(views(block.user_lines@) =~= Seq::<Seq<char>>::empty());
        assert(views(block.leading_blanks@) =~= Seq::<Seq<char>>::empty());
        block.keep_user_text(&Prefix::from_text(user_above.as_str()), &self.options.marker);
        let template_above = above(template);
        let (apart, touching) = Prefix::from_text(template_above.as_str()).split(&self.options.marker);
        let ghost ls = apart@ + touching@;
        proof {
            assert(ls.subrange(touching_start(ls), ls.len() as int) =~= touching@);
        }
        assert(views(block.prose@) =~= Seq::<Seq<char>>::empty());
        block.take_docs(&touching);
        let mut floating: Vec<String> = Vec::new();
        std::mem::swap(&mut floating, &mut self.pending);
        let ghost p0 = floating@;
        if floating.len() > 0 {
            let open = String::new();
            let close = String::new();
            proof {
                assert(open@ =~= Seq::<char>::empty());
                assert(close@ =~= Seq::<char>::empty());
            }
            floating.insert(0, open);
            floating.push(close);
            proof {
                assert(floating@ =~= seq![open] + p0 + seq![close]);
                assert(views(floating@) =~= seq![Seq::<char>::empty()] + views(p0) + seq![Seq::<char>::empty()]);
            }
        } else {
            assert(views(floating@) =~= Seq::<Seq<char>>::empty());
        }
        block.floating = floating;
        let ghost shaped = block;

        let merged = match (&template.item, &user.item) {
            (Node::Value(_), Node::Value(user_value)) => {
                self.record_default(&mut block, template, Some(&user_value.text));
                Node::Value(user_value.duplicate())
            },
            (_, Node::Table(user_table)) => {
                let mut merged = TableNode::empty();
                merged.dotted = user_table.dotted;
                merged.suffix = copy_text(&user_table.suffix);
                if depth > 0 {
                    self.merge_table(&TableNode::empty(), user_table, &mut merged, Some(path), depth - 1);
                    Node::Table(merged)
                } else {
                    Node::Table(user_table.duplicate())
                }
            },
            (_, Node::Array(user_array)) => {
                // The template describes one entry's shape. It documents the
                // first, which is where a person reads what the rest may hold.
                let mut array: Vec<TableNode> = Vec::new();
                let mut j: usize = 0;
                while j < user_array.len()
                    decreases user_array.len() - j,
                {
                    array.push(user_array[j].duplicate());
                    j = j + 1;
                }
                if user_array.len() > 0 && array.len() > 0 && depth > 0 {
                    let mut merged = TableNode::empty();
                    self.merge_table(&TableNode::empty(), &user_array[0], &mut merged, Some(path), depth - 1);
                    array.set(0, merged);
                }
                // Entries the template has beyond the first are further
                // examples, not the shape of what is already there. They stay
                // written out, like any optional key nobody has set.
                match &template.item {
                    Node::Array(template_array) => {
                        let mut k: usize = 1;
                        while k < template_array.len()
                            invariant
                                self.options == old(self).options,
                                grows(old(self).report.entries(), self.report.entries()),
                                added_by_merge(old(self).report.entries(), self.report.entries()),
                                self.template == old(self).template,
                                self.spans == old(self).spans,
                                self.user_src == old(self).user_src,
                                tools_lines(old(self).options.marker, old(self).pending@) ==> tools_lines(
                                    old(self).options.marker,
                                    self.pending@,
                                ),
                            decreases template_array.len() - k,
                        {
                            let mut single: Vec<TableNode> = Vec::new();
                            single.push(template_array[k].duplicate());
                            let ghost pending0 = self.pending@;
                            if self.pending.len() > 0 {
                                self.pending.push(String::new());
                            }
                            let ghost gap = self.pending@.skip(pending0.len() as int);
                            let mut lines = comment_out(
                                path,
                                &template.key,
                                &Node::Array(single),
                                &self.options.marker,
                            );
                            let ghost written = lines@;
                            self.pending.append(&mut lines);
                            proof {
                                assert(self.pending@ =~= pending0 + gap + written);
                                if tools_lines(old(self).options.marker, pending0) {
                                    lemma_tools_grow(old(self).options.marker, pending0, gap, written);
                                }
                            }
                            k = k + 1;
                        }
                    },
                    _ => {},
                }
                Node::Array(array)
            },
            (_, Node::Value(user_value)) => Node::Value(user_value.duplicate()),
        };

        // A documented key is set apart from the one before it. A key with
        // nothing written above it needs no setting apart.
        let documented = block.prose.len() > 0 || !matches!(block.sample, Sample::Absent);
        let ghost lead0 = block.leading_blanks@;
        if block.leading_blanks.len() == 0 && !first && documented {
            let blank = String::new();
            proof {
                assert(blank@ =~= Seq::<char>::empty());
            }
            block.leading_blanks.push(blank);
            proof {
                assert(views(block.leading_blanks@) =~= seq![Seq::<char>::empty()]);
            }
        }
        let text = block.render(&self.options.marker);
        proof {
            lemma_render_tail(block, self.options.marker);
        }
        let entry = prefixed(Entry { key: user.key.duplicate(), item: merged }, text);
        out.push(entry);
        proof {
            let m = old(self).options.marker;
            assert(out.entries@.last() == entry);
            assert(text_or_empty(above_of(entry)) == render_spec(block, self.options.marker));
            assert(classified(m, complete_lines(text_or_empty(above_of(*template))), ls));
        }
    }

    /// Merges one key present in both documents.
    ///
    /// The person's value stays as they wrote it, whatever its type; what is
    /// rebuilt is the tool's text above it. A value of a type the defaults do
    /// not accept there is reported as a type mismatch.
    fn merge_item(
        &mut self,
        default: &Entry,
        user: &Entry,
        out: &mut TableNode,
        path: &DottedPath,
        depth: usize,
    )
        ensures
            extends(old(out).entries@, final(out).entries@),
            final(out).entries@.len() == old(out).entries@.len() + 1,
            final(out).entries@.last().key.name@ == user.key.name@,
            key_text_of(final(out).entries@.last().key.raw) == key_text_of(user.key.raw),
            node_type(final(out).entries@.last().item) == node_type(user.item),
            user.item matches Node::Value(u) ==> final(out).entries@.last().item matches Node::Value(
                v,
            ) && v.text@ == u.text@ && v.kind == u.kind,
            ends_with(
                text_or_empty(above_of(final(out).entries@.last())),
                persons_tail(old(self).options.marker, text_or_empty(above_of(*user))),
            ),
            !accepts(node_type(default.item), node_type(user.item)) ==> {
                &&& final(self).report.entries().len() == old(self).report.entries().len() + 1
                &&& final(self).report.entries().last().kind == DiagnosticKind::TypeMismatch {
                    expected: node_type(default.item),
                    found: node_type(user.item),
                }
                &&& final(self).report.entries().last().severity == Severity::Error
                &&& final(self).report.entries().last().path@ == path@
                &&& placed_at(
                    old(self).spans.spans@,
                    encode_utf8(old(self).user_src@),
                    path@,
                    final(self).report.entries().last().line,
                    final(self).report.entries().last().column,
                )
            },
            accepts(node_type(default.item), node_type(user.item)) && !(user.item is Table)
                ==> final(self).report == old(self).report,
            (default.item matches Node::Table(d) && user.item matches Node::Table(u) && depth > 0)
                ==> (final(out).entries@.last().item matches Node::Table(o) && (forall|n: Seq<char>|
                has_name(default.item->Table_0, n) ==> has_name(o, n)) && (forall|n: Seq<char>|
                has_name(user.item->Table_0, n) ==> has_name(o, n))),
            user.item matches Node::Array(u) ==> final(out).entries@.last().item matches Node::Array(
                o,
            ) && same_entries(o@, u@),
            exists|b: DocBlock|
                text_or_empty(above_of(final(out).entries@.last())) == #[trigger] render_spec(
                    b,
                    old(self).options.marker,
                ) && views(b.user_lines@) == persons_lines(
                    old(self).options.marker,
                    complete_lines(text_or_empty(above_of(*user))),
                ) && b.indent@ == after_last_newline(text_or_empty(above_of(*user))) && opens_with_pending(
                    views(old(self).pending@),
                    old(out).entries@.len() == 0,
                    views(b.floating@),
                ) && echo_rule(*default, *user, b.sample) && shows_touching(
                    old(self).options.marker,
                    text_or_empty(above_of(*default)),
                    b,
                ),
            final(self).options == old(self).options,
            grows(old(self).report.entries(), final(self).report.entries()),
            added_by_merge(old(self).report.entries(), final(self).report.entries()),
            final(self).template == old(self).template,
            final(self).spans == old(self).spans,
            final(self).user_src == old(self).user_src,
            tools_lines(old(self).options.marker, old(self).pending@) ==> tools_lines(
                old(self).options.marker,
                final(self).pending@,
            ),
        decreases depth, 1usize,
    {
        let first = out.entries.len() == 0;
        let default_above = above(default);
        let user_above = above(user);
        let mut block = self.block(default_above.as_str(), user_above.as_str());
        let ghost pending0 = views(self.pending@);
        let ghost floating0 = views(block.floating@);
        self.flush_pending(&mut block, first);
        proof {
            if pending0.len() > 0 {
                let lead = (if first {
                    Seq::<Seq<char>>::empty()
                } else {
                    seq![Seq::<char>::empty()]
                }) + pending0 + seq![Seq::<char>::empty()];
                assert(views(block.floating@) == lead + floating0);
                assert(views(block.floating@).subrange(0, lead.len() as int) =~= lead);
            }
        }
        let ghost flushed = block.floating;
        let ghost shown = block;
        let expected = crate::model::type_of(&default.item);
        let found = crate::model::type_of(&user.item);

        let item = if !compatible(expected, found) {
            self.note(DiagnosticKind::TypeMismatch { expected, found }, path, path);
            // The person's value stays exactly as they wrote it. Only the
            // block above it is rebuilt, because that text belongs to the tool.
            self.record_default(&mut block, default, None);
            crate::model::copy_node(&user.item)
        } else {
            match (&default.item, &user.item) {
                (Node::Value(_), Node::Value(user_value)) => {
                    self.record_default(&mut block, default, Some(&user_value.text));
                    Node::Value(user_value.duplicate())
                },
                (Node::Table(default_table), Node::Table(user_table)) => {
                    let mut merged = TableNode::empty();
                    merged.dotted = user_table.dotted;
                    merged.implicit = default_table.implicit && user_table.implicit;
                    merged.suffix = copy_text(&user_table.suffix);
                    if depth > 0 {
                        self.merge_table(default_table, user_table, &mut merged, Some(path), depth - 1);
                        Node::Table(merged)
                    } else {
                        Node::Table(user_table.duplicate())
                    }
                },
                // The person's set is complete: the defaults contribute no
                // entries and no fields. Only the documentation is refreshed.
                _ => crate::model::copy_node(&user.item),
            }
        };
        let text = block.render(&self.options.marker);
        proof {
            lemma_render_tail(block, self.options.marker);
            assert(block.floating == flushed);
            let m = self.options.marker;
            let ls = choose|ls: Seq<PrefixLine>|
                #[trigger] classified(m, complete_lines(default_above@), ls) && {
                    let t = ls.subrange(touching_start(ls), ls.len() as int);
                    &&& views(shown.prose@) == kind_texts(t, LineKind::Prose)
                    &&& !(shown.sample is Echo) ==> sample_shows(shown.sample, kind_texts(t, LineKind::Sample))
                };
            assert(block.prose == shown.prose);
            assert(classified(m, complete_lines(text_or_empty(above_of(*default))), ls));
        }
        let entry = prefixed(Entry { key: user.key.duplicate(), item }, text);
        out.push(entry);
        proof {
            assert(out.entries@.last() == entry);
            assert(text_or_empty(above_of(entry)) == render_spec(block, self.options.marker));
        }
    }

    /// Moves any optional keys waiting to be written above whatever comes
    /// next.
    ///
    /// `first` says the block opens its table, where there is nothing to be
    /// set apart from. Anywhere else the waiting lines are separated from the
    /// key above them, the way the defaults separated them.
    fn flush_pending(&mut self, block: &mut DocBlock, first: bool)
        ensures
            final(block).user_lines == old(block).user_lines,
            final(block).indent == old(block).indent,
            final(block).prose == old(block).prose,
            final(block).sample == old(block).sample,
            final(block).leading_blanks == old(block).leading_blanks,
            final(self).pending@.len() == 0,
            final(self).options == old(self).options,
            grows(old(self).report.entries(), final(self).report.entries()),
            final(self).template == old(self).template,
            final(self).spans == old(self).spans,
            final(self).user_src == old(self).user_src,
            tools_lines(old(self).options.marker, old(self).pending@) ==> tools_lines(
                old(self).options.marker,
                final(self).pending@,
            ),
            final(self).report == old(self).report,
            old(self).pending@.len() == 0 ==> final(block).floating == old(block).floating,
            old(self).pending@.len() > 0 ==> views(final(block).floating@) == (if first {
                Seq::<Seq<char>>::empty()
            } else {
                seq![Seq::<char>::empty()]
            }) + views(old(self).pending@) + seq![Seq::<char>::empty()] + views(old(block).floating@),
    {
        if self.pending.len() == 0 {
            return;
        }
        let mut waiting: Vec<String> = Vec::new();
        std::mem::swap(&mut waiting, &mut self.pending);
        let ghost w0 = waiting@;
        let ghost f0 = block.floating@;
        if !first {
            let gap = String::new();
            proof {
                assert(gap@ =~= Seq::<char>::empty());
            }
            waiting.insert(0, gap);
            proof {
                assert(views(waiting@) =~= seq![Seq::<char>::empty()] + views(w0));
            }
        } else {
            assert(views(waiting@) =~= Seq::<Seq<char>>::empty() + views(w0));
        }
        let ghost w1 = waiting@;
        let end = String::new();
        proof {
            assert(end@ =~= Seq::<char>::empty());
        }
        waiting.push(end);
        proof {
            crate::text::lemma_views_push(w1, end);
        }
        let ghost w2 = waiting@;
        waiting.append(&mut block.floating);
        proof {
            assert(waiting@ =~= w2 + f0);
            assert(views(w2 + f0) =~= views(w2) + views(f0));
        }
        block.floating = waiting;
    }

    /// The doc block for a key present in both documents: the defaults'
    /// standing text and prose, the person's blanks and comments.
    ///
    /// Of the defaults' text, no plain comment comes into it: those are notes
    /// for whoever maintains the defaults. Of the person's, no line the tool
    /// owns does: those are written again from the defaults.
    fn block(&self, default_above: &str, user_above: &str) -> (r: DocBlock)
        ensures
            views(r.user_lines@) == persons_lines(self.options.marker, complete_lines(user_above@)),
            r.indent@ == after_last_newline(user_above@),
            forall|j: int|
                0 <= j < r.floating@.len() ==> !(self.options.marker.kind(#[trigger] r.floating@[j]@) is User),
            forall|j: int|
                0 <= j < r.prose@.len() ==> self.options.marker.kind(#[trigger] r.prose@[j]@) is Prose,
            forall|j: int|
                0 <= j < r.user_lines@.len() ==> !self.options.marker.owns_spec(#[trigger] r.user_lines@[j]@),
            !(r.sample is Echo),
            shows_touching(self.options.marker, default_above@, r),
    {
        let marker = &self.options.marker;
        let (floating, touching) = Prefix::from_text(default_above).split(marker);
        let ghost ls = floating@ + touching@;
        proof {
            assert(ls.subrange(touching_start(ls), ls.len() as int) =~= touching@);
        }
        proof {
            crate::decor::lemma_classified_parts(*marker, complete_lines(default_above@), floating@, touching@);
        }
        let mut block = DocBlock::empty();
        assert(views(block.user_lines@) =~= Seq::<Seq<char>>::empty());
        block.keep_user_text(&Prefix::from_text(user_above), marker);
        assert(views(block.prose@) =~= Seq::<Seq<char>>::empty());
        block.take_docs(&touching);
        block.floating = self.standing_text(&floating);
        proof {
            crate::decor::lemma_kind_texts_read_back(*marker, touching@, crate::decor::LineKind::Prose);
            assert forall|j: int| 0 <= j < block.prose@.len() implies marker.kind(#[trigger] block.prose@[j]@) is Prose by {
                assert(views(block.prose@)[j] == block.prose@[j]@);
            }
            crate::decor::lemma_persons_lines_are_theirs(*marker, complete_lines(user_above@));
            assert forall|j: int| 0 <= j < block.user_lines@.len() implies !marker.owns_spec(#[trigger] block.user_lines@[j]@) by {
                assert(views(block.user_lines@)[j] == block.user_lines@[j]@);
            }
        }
        if block.leading_blanks.len() == 0 && block.floating.len() == 0 {
            // The person wrote nothing above this key, so the separation the
            // defaults put there is what keeps the file readable.
            block.leading_blanks = leading_blanks(&floating);
        }
        proof {
            assert(classified(*marker, complete_lines(default_above@), ls));
        }
        block
    }

    /// The defaults' text that stands a blank line away from the key, with
    /// the maintainers' own notes dropped and the blocks that have travelled
    /// left out. Documentation anchored on this key arrives here.
    ///
    /// Plain comments there are notes for whoever maintains the defaults:
    /// none of them is in what comes back.
    fn standing_text(&self, floating: &[PrefixLine]) -> (r: Vec<String>)
        requires
            forall|k: int|
                0 <= k < floating@.len() ==> (#[trigger] floating@[k]).kind()
                    == self.options.marker.kind(floating@[k].text_view()),
        ensures
            forall|j: int| 0 <= j < r@.len() ==> !(self.options.marker.kind(#[trigger] r@[j]@) is User),
            views(r@) == unless_blank(
                standing_spec(
                    runs_from(floating@, self.options.marker, 0),
                    floating@,
                    views(self.template.read@),
                ),
            ),
    {
        let ghost m = self.options.marker;
        let runs = standing_runs(floating, &self.options.marker);
        let ghost rs = runs_of(runs@);
        let ghost read = views(self.template.read@);
        proof {
            assert forall|k: int| 0 <= k < floating@.len() && (#[trigger] floating@[k]) is Blank implies all_ws(
                floating@[k].text_view(),
            ) by {
                assert(floating@[k].kind() == m.kind(floating@[k].text_view()));
            }
        }
        let mut out: Vec<String> = Vec::new();
        let mut i: usize = 0;
        while i < runs.len()
            invariant
                m == self.options.marker,
                forall|k: int|
                    0 <= k < floating@.len() ==> (#[trigger] floating@[k]).kind() == m.kind(
                        floating@[k].text_view(),
                    ),
                forall|a: int, b: int|
                    0 <= a < runs@.len() && runs@[a] is Blanks && 0 <= b < runs@[a]->Blanks_0@.len()
                        ==> all_ws(#[trigger] runs@[a]->Blanks_0@[b]@),
                forall|j: int| 0 <= j < out@.len() ==> !(m.kind(#[trigger] out@[j]@) is User),
                i <= runs@.len(),
                rs == runs_of(runs@),
                rs == runs_from(floating@, m, 0),
                read == views(self.template.read@),
                views(out@) == standing_spec(rs.subrange(0, i as int), floating@, read),
            decreases runs.len() - i,
        {
            let ghost spec_before = views(out@);
            proof {
                assert(rs.subrange(0, i + 1).drop_last() =~= rs.subrange(0, i as int));
                assert(rs.subrange(0, i + 1).last() == runs@[i as int].run());
            }
            match &runs[i] {
                Standing::Blanks(lines) => {
                    let mut copies = copy_lines_of(lines);
                    let ghost before = out@;
                    let ghost added = copies@;
                    proof {
                        assert forall|j: int| 0 <= j < copies@.len() implies !(m.kind(#[trigger] copies@[j]@) is User) by {
                            assert(runs@[i as int] is Blanks);
                            assert(all_ws(runs@[i as int]->Blanks_0@[j]@));
                        }
                    }
                    out.append(&mut copies);
                    proof {
                        assert forall|j: int| 0 <= j < out@.len() implies !(m.kind(#[trigger] out@[j]@) is User) by {
                            if j >= before.len() {
                                assert(out@[j] == added[j - before.len()]);
                            }
                        }
                        assert(views(added) =~= views(lines@));
                        assert(views(out@) =~= views(before) + views(added));
                    }
                },
                Standing::Block(a, b) => {
                    if *a <= *b && *b <= floating.len() {
                        let mut text: Vec<String> = Vec::new();
                        let mut j: usize = *a;
                        while j < *b
                            invariant
                                *a <= j <= *b,
                                *b <= floating@.len(),
                                forall|k: int|
                                    0 <= k < floating@.len() ==> (#[trigger] floating@[k]).kind() == m.kind(
                                        floating@[k].text_view(),
                                    ),
                                forall|t: int| 0 <= t < text@.len() ==> !(m.kind(#[trigger] text@[t]@) is User),
                                views(text@) == tool_texts(floating@.subrange(*a as int, j as int)),
                            decreases *b - j,
                        {
                            let ghost tb = text@;
                            assert(floating@.subrange(*a as int, j + 1).drop_last() =~= floating@.subrange(
                                *a as int,
                                j as int,
                            ));
                            match &floating[j] {
                                PrefixLine::User { .. } => {},
                                line => {
                                    let t = line.text().to_owned();
                                    assert(floating@[j as int].kind() == m.kind(t@));
                                    text.push(t);
                                    proof {
                                        crate::text::lemma_views_push(tb, t);
                                    }
                                },
                            }
                            j = j + 1;
                        }
                        let joined = join_lines(&text);
                        if holds(&self.template.read, &joined) {
                            drop_blank_tail(&mut out);
                        } else {
                            let ghost before = out@;
                            let ghost added = text@;
                            out.append(&mut text);
                            proof {
                                assert forall|t: int| 0 <= t < out@.len() implies !(m.kind(#[trigger] out@[t]@) is User) by {
                                    if t >= before.len() {
                                        assert(out@[t] == added[t - before.len()]);
                                    }
                                }
                                assert(views(out@) =~= views(before) + views(added));
                            }
                        }
                    }
                },
            }
            i = i + 1;
        }
        proof {
            assert(rs.subrange(0, i as int) =~= rs);
        }
        let ghost whole = out@;
        let blank = all_blank(&out);
        if blank {
            out.clear();
        }
        proof {
            if blank {
                assert forall|j: int| 0 <= j < views(whole).len() implies all_ws(#[trigger] views(whole)[j]) by {
                    assert(views(whole)[j] == whole[j]@);
                }
                assert(views(out@) =~= Seq::<Seq<char>>::empty());
            } else {
                if forall|j: int| 0 <= j < views(whole).len() ==> all_ws(#[trigger] views(whole)[j]) {
                    assert forall|j: int| 0 <= j < whole.len() implies all_ws(#[trigger] whole[j]@) by {
                        assert(views(whole)[j] == whole[j]@);
                    }
                }
            }
        }
        out
    }

    /// Records the shipped default above the key when the person's value
    /// differs from it. A generated line replaces whatever samples the
    /// defaults wrote for the same key: both occupy the slot under the prose.
    fn record_default(&self, block: &mut DocBlock, default: &Entry, user_text: Option<&String>)
        ensures
            final(block).user_lines == old(block).user_lines,
            final(block).indent == old(block).indent,
            final(block).prose == old(block).prose,
            final(block).floating == old(block).floating,
            final(block).leading_blanks == old(block).leading_blanks,
            match default.item {
                Node::Value(d) => if (user_text matches Some(t) && t@ == d.text@) {
                    final(block).sample == old(block).sample
                } else {
                    final(block).sample matches Sample::Echo(e) && e.key@ == default.key.repr@
                        && e.value@ == d.text@
                },
                _ => final(block).sample == old(block).sample,
            },
    {
        let default_value = match &default.item {
            Node::Value(v) => v,
            _ => return,
        };
        match user_text {
            Some(text) => {
                if text_eq(text, &default_value.text) {
                    return;
                }
            },
            None => {},
        }
        block.sample = Sample::Echo(
            DefaultEcho { key: default.key.repr.clone(), value: default_value.text.clone() },
        );
    }

    // -- keys only on one side -------------------------------------------

    /// A key the person does not have yet, taken from the defaults with the
    /// maintainers' own notes stripped out.
    ///
    /// Optional keys waiting to be written arrive here too. The block above a
    /// key is where the defaults put it, and that is where it goes, whether
    /// or not the person has written the key it belongs above.
    fn default_entry(&mut self, default: &Entry, path: &DottedPath, first: bool, depth: usize) -> (r: Entry)
        ensures
            r.key.name@ == default.key.name@,
            key_text_of(r.key.raw) == key_text_of(default.key.raw),
            node_type(r.item) == node_type(default.item),
            default.item matches Node::Value(d) ==> r.item matches Node::Value(v) && v.text@
                == d.text@ && v.kind == d.kind,
            default.item matches Node::Table(d) ==> r.item matches Node::Table(o) && forall|n: Seq<char>|
                has_name(d, n) ==> has_name(o, n),
            final(self).options == old(self).options,
            grows(old(self).report.entries(), final(self).report.entries()),
            added_by_merge(old(self).report.entries(), final(self).report.entries()),
            final(self).template == old(self).template,
            final(self).spans == old(self).spans,
            final(self).user_src == old(self).user_src,
            tools_lines(old(self).options.marker, old(self).pending@) ==> tools_lines(
                old(self).options.marker,
                final(self).pending@,
            ),
        decreases depth, 1usize,
    {
        let text = above(default);
        let prefix = Prefix::from_text(text.as_str());
        let (floating, touching) = prefix.split(&self.options.marker);
        proof {
            crate::decor::lemma_classified_parts(self.options.marker, complete_lines(prefix.raw@), floating@, touching@);
        }
        let mut block = DocBlock::empty();
        block.leading_blanks = leading_blanks(&floating);
        block.indent = prefix.indent();
        block.take_docs(&touching);
        block.floating = self.standing_text(&floating);
        self.flush_pending(&mut block, first);
        let item = self.docs_only(&default.item, path, depth);
        let rendered = block.render(&self.options.marker);
        prefixed(Entry { key: default.key.duplicate(), item }, rendered)
    }

    /// The same stripping, applied through a table or an array of tables.
    ///
    /// An array of tables documents its first entry, which is where a person
    /// reads what the rest may hold, so the optional keys are due there and
    /// in no entry after it.
    fn docs_only(&mut self, item: &Node, path: &DottedPath, depth: usize) -> (r: Node)
        ensures
            node_type(r) == node_type(*item),
            item matches Node::Value(d) ==> r matches Node::Value(v) && v.text@ == d.text@
                && v.kind == d.kind,
            item matches Node::Table(t) ==> r matches Node::Table(o) && forall|n: Seq<char>|
                has_name(*t, n) ==> has_name(o, n),
            final(self).options == old(self).options,
            grows(old(self).report.entries(), final(self).report.entries()),
            added_by_merge(old(self).report.entries(), final(self).report.entries()),
            final(self).template == old(self).template,
            final(self).spans == old(self).spans,
            final(self).user_src == old(self).user_src,
            tools_lines(old(self).options.marker, old(self).pending@) ==> tools_lines(
                old(self).options.marker,
                final(self).pending@,
            ),
        decreases depth, 0usize,
    {
        if depth == 0 {
            return crate::model::copy_node(item);
        }
        match item {
            Node::Table(table) => Node::Table(self.docs_only_table(table, path, true, depth - 1)),
            Node::Array(tables) => {
                let mut out: Vec<TableNode> = Vec::new();
                let mut j: usize = 0;
                while j < tables.len()
                    invariant
                        depth > 0,
                        self.options == old(self).options,
                        grows(old(self).report.entries(), self.report.entries()),
                        added_by_merge(old(self).report.entries(), self.report.entries()),
                        self.template == old(self).template,
                        self.spans == old(self).spans,
                        self.user_src == old(self).user_src,
                        tools_lines(old(self).options.marker, old(self).pending@) ==> tools_lines(
                            old(self).options.marker,
                            self.pending@,
                        ),
                    decreases tables.len() - j,
                {
                    let t = self.docs_only_table(&tables[j], path, j == 0, depth - 1);
                    out.push(t);
                    j = j + 1;
                }
                Node::Array(out)
            },
            Node::Value(v) => Node::Value(v.duplicate()),
        }
    }

    /// The keys of a table the person has not written.
    ///
    /// `documented` walks it as a merge against an empty table, so the keys
    /// the defaults document without declaring are written out at the point
    /// in the order they were written. A person who has not opened a section
    /// still reads what it may hold.
    fn docs_only_table(&mut self, table: &TableNode, path: &DottedPath, documented: bool, depth: usize) -> (r: TableNode)
        ensures
            forall|n: Seq<char>| has_name(*table, n) ==> has_name(r, n),
            final(self).options == old(self).options,
            grows(old(self).report.entries(), final(self).report.entries()),
            added_by_merge(old(self).report.entries(), final(self).report.entries()),
            final(self).template == old(self).template,
            final(self).spans == old(self).spans,
            final(self).user_src == old(self).user_src,
            tools_lines(old(self).options.marker, old(self).pending@) ==> tools_lines(
                old(self).options.marker,
                final(self).pending@,
            ),
        decreases depth, 4usize,
    {
        let mut out = TableNode::empty();
        out.dotted = table.dotted;
        out.implicit = table.implicit;
        if documented {
            self.merge_table(table, &TableNode::empty(), &mut out, Some(path), depth);
            return out;
        }
        let mut i: usize = 0;
        while i < table.entries.len()
            invariant
                i <= table.entries@.len(),
                forall|j: int| 0 <= j < i ==> has_name(out, (#[trigger] table.entries@[j]).key.name@),
                self.options == old(self).options,
                grows(old(self).report.entries(), self.report.entries()),
                added_by_merge(old(self).report.entries(), self.report.entries()),
                self.template == old(self).template,
                self.spans == old(self).spans,
                self.user_src == old(self).user_src,
                tools_lines(old(self).options.marker, old(self).pending@) ==> tools_lines(
                    old(self).options.marker,
                    self.pending@,
                ),
            decreases table.entries.len() - i,
        {
            let entry = &table.entries[i];
            let first = out.entries.len() == 0;
            let child = path.child(entry.key.name.as_str());
            let made = self.default_entry(entry, &child, first, depth);
            let ghost out0 = out;
            out.push(made);
            proof {
                lemma_extends_names(out0, out);
            }
            i = i + 1;
        }
        proof {
            assert forall|n: Seq<char>| has_name(*table, n) implies has_name(out, n) by {
                let k = crate::model::names(*table).index_of(n);
                assert(table.entries@[k].key.name@ == n);
            }
        }
        out
    }

    /// A key the defaults do not declare. It is never deleted and never
    /// rewritten, but the marker lines above it go: their key has left the
    /// defaults, so the tool no longer has anything to say about it. What is
    /// left above it is its leading blank lines and the person's own text.
    fn keep_unknown(&self, entry: &Entry, path: &DottedPath, depth: usize) -> (r: Entry)
        ensures
            r.key.name@ == entry.key.name@,
            key_text_of(r.key.raw) == key_text_of(entry.key.raw),
            node_type(r.item) == node_type(entry.item),
            entry.item matches Node::Value(u) ==> r.item matches Node::Value(v) && v.text@
                == u.text@ && v.kind == u.kind,
            text_or_empty(above_of(r)) == kept_above(
                self.options.marker,
                text_or_empty(above_of(*entry)),
            ),
        decreases depth, 0usize,
    {
        let mut block = DocBlock::empty();
        let text = above(entry);
        assert(views(block.user_lines@) =~= Seq::<Seq<char>>::empty());
        assert(views(block.leading_blanks@) =~= Seq::<Seq<char>>::empty());
        block.keep_user_text(&Prefix::from_text(text.as_str()), &self.options.marker);
        let item = if depth == 0 {
            crate::model::copy_node(&entry.item)
        } else {
            match &entry.item {
                Node::Table(table) => Node::Table(self.keep_unknown_table(table, path, depth - 1)),
                Node::Array(tables) => {
                    let mut out: Vec<TableNode> = Vec::new();
                    let mut j: usize = 0;
                    while j < tables.len()
                        invariant
                            depth > 0,
                        decreases tables.len() - j,
                    {
                        out.push(self.keep_unknown_table(&tables[j], path, depth - 1));
                        j = j + 1;
                    }
                    Node::Array(out)
                },
                Node::Value(v) => Node::Value(v.duplicate()),
            }
        };
        let rendered = block.render(&self.options.marker);
        proof {
            let m = self.options.marker;
            let lines = complete_lines(text@);
            assert(views(block.floating@) =~= Seq::<Seq<char>>::empty());
            assert(views(block.prose@) =~= Seq::<Seq<char>>::empty());
            assert(terminated(Seq::<Seq<char>>::empty()) =~= Seq::<char>::empty());
            assert(rendered@ =~= kept_above(m, text@));
        }
        prefixed(Entry { key: entry.key.duplicate(), item }, rendered)
    }

    fn keep_unknown_table(&self, table: &TableNode, path: &DottedPath, depth: usize) -> (r: TableNode)
        ensures
            forall|n: Seq<char>| has_name(*table, n) ==> has_name(r, n),
        decreases depth, 1usize,
    {
        let mut out = TableNode {
            dotted: table.dotted,
            implicit: table.implicit,
            prefix: copy_text(&table.prefix),
            suffix: copy_text(&table.suffix),
            entries: Vec::new(),
        };
        let mut i: usize = 0;
        while i < table.entries.len()
            invariant
                i <= table.entries@.len(),
                forall|j: int| 0 <= j < i ==> has_name(out, (#[trigger] table.entries@[j]).key.name@),
            decreases table.entries.len() - i,
        {
            let entry = &table.entries[i];
            let child = path.child(entry.key.name.as_str());
            let kept = self.keep_unknown(entry, &child, depth);
            let ghost out0 = out;
            out.push(kept);
            proof {
                lemma_extends_names(out0, out);
            }
            i = i + 1;
        }
        proof {
            assert forall|n: Seq<char>| has_name(*table, n) implies has_name(out, n) by {
                let k = crate::model::names(*table).index_of(n);
                assert(table.entries@[k].key.name@ == n);
            }
        }
        out
    }

    // -- the end of the file ---------------------------------------------

    /// The text after the last key belongs to no key, so it is not a doc
    /// block. The same ownership holds: the tool's lines there come from the
    /// defaults, and everything else is the person's and is kept as written.
    #[verifier::rlimit(40)]
    fn merged_trailing(&mut self) -> (r: String)
        ensures
            final(self).pending@.len() == 0,
            final(self).report == old(self).report,
            final(self).template == old(self).template,
            r@.len() == 0 || (r@[0] == '\n' && r@.last() == '\n'),
            tools_lines(old(self).options.marker, old(self).pending@) ==> exists|
                tool: Seq<Seq<char>>,
                mine: Seq<Seq<char>>,
            |
                #[trigger] closing(
                    old(self).options.marker,
                    complete_lines(trailing_of(old(self).user)),
                    r@,
                    tool,
                    mine,
                ),
            exists|lines: Seq<PrefixLine>|
                #[trigger] classified(
                    old(self).options.marker,
                    complete_lines(trailing_of(old(self).defaults)),
                    lines,
                ) && r@ == closing_text(
                    views(old(self).pending@),
                    unless_blank(
                        standing_spec(
                            runs_from(lines, old(self).options.marker, 0),
                            lines,
                            views(old(self).template.read@),
                        ),
                    ),
                    blank_tail_dropped(
                        persons_kept(old(self).options.marker, complete_lines(trailing_of(old(self).user))),
                    ),
                ),
    {
        let ghost ok = tools_lines(self.options.marker, self.pending@);
        let ghost pend = views(self.pending@);
        let mut waiting: Vec<String> = Vec::new();
        std::mem::swap(&mut waiting, &mut self.pending);
        let marker = &self.options.marker;
        let ghost m = *marker;
        let prefix = Prefix::from_text(self.defaults.trailing());
        let (mut lines, mut touching) = prefix.split(marker);
        let ghost whole = lines@ + touching@;
        lines.append(&mut touching);
        proof {
            assert(lines@ == whole);
            crate::decor::lemma_classified_parts(*marker, complete_lines(prefix.raw@), lines@, Seq::<PrefixLine>::empty());
            assert(lines@ + Seq::<PrefixLine>::empty() =~= lines@);
        }
        let mut docs = self.standing_text(&lines);
        let ghost stand = views(docs@);
        proof {
            assert forall|j: int| 0 <= j < docs@.len() implies tools_line(m, #[trigger] docs@[j]@) by {}
            assert(prefix.raw@ == trailing_of(old(self).defaults));
            assert(classified(m, complete_lines(trailing_of(old(self).defaults)), lines@));
        }
        // Optional keys nothing came after belong at the end of the last
        // table they were written in, which is here.
        if waiting.len() > 0 {
            let ghost waiting0 = waiting@;
            if docs.len() > 0 {
                waiting.push(String::new());
            }
            let ghost gap = waiting@.skip(waiting0.len() as int);
            let ghost standing = docs@;
            waiting.append(&mut docs);
            docs = waiting;
            proof {
                assert(docs@ =~= waiting0 + gap + standing);
                assert(views(waiting0 + gap + standing) =~= views(waiting0) + views(gap) + views(standing));
                if standing.len() > 0 {
                    assert(gap.len() == 1);
                    assert(gap[0]@ =~= Seq::<char>::empty());
                    assert(views(gap) =~= seq![Seq::<char>::empty()]);
                } else {
                    assert(views(gap) =~= Seq::<Seq<char>>::empty());
                }
                if ok {
                    let all = waiting0 + gap + standing;
                    assert forall|j: int| 0 <= j < all.len() implies tools_line(m, #[trigger] all[j]@) by {
                        if j < waiting0.len() {
                            assert(all[j] == waiting0[j]);
                        } else if j < waiting0.len() + gap.len() {
                            assert(all[j] == gap[j - waiting0.len()]);
                            assert(all_ws(all[j]@));
                        } else {
                            assert(all[j] == standing[j - waiting0.len() - gap.len()]);
                        }
                    }
                }
            }
        }
        let ghost gap_spec: Seq<Seq<char>> = if pend.len() > 0 && stand.len() > 0 {
            seq![seq![]]
        } else {
            seq![]
        };
        proof {
            if pend.len() == 0 {
                assert(pend + gap_spec + stand =~= stand);
            }
            assert(views(docs@) == pend + gap_spec + stand);
        }
        // One blank line separates the end of the file from the last key,
        // whatever the defaults happened to leave above their own trailing
        // text.
        let mut start: usize = 0;
        assert(views(docs@).skip(0) =~= views(docs@));
        while start < docs.len() && blank_line(docs[start].as_str())
            invariant
                start <= docs@.len(),
                skip_blanks(views(docs@)) == skip_blanks(views(docs@).skip(start as int)),
            decreases docs.len() - start,
        {
            assert(views(docs@).skip(start as int).drop_first() =~= views(docs@).skip(start + 1));
            assert(views(docs@).skip(start as int)[0] == docs@[start as int]@);
            start = start + 1;
        }
        proof {
            if start < docs.len() {
                assert(views(docs@).skip(start as int)[0] == docs@[start as int]@);
            } else {
                assert(views(docs@).skip(start as int) =~= Seq::<Seq<char>>::empty());
            }
            assert(views(docs@).skip(start as int) =~= views(docs@).subrange(start as int, docs@.len() as int));
        }
        let user = Prefix::from_text(self.user.trailing());
        let user_lines = user.lines(marker);
        proof {
            assert(user.raw@ == trailing_of(old(self).user));
        }
        let mine = persons_trailing(&user_lines, marker);
        let ghost persons = complete_lines(trailing_of(old(self).user));
        let ghost tool = views(docs@).subrange(start as int, docs@.len() as int);
        let ghost kept = views(mine@);
        proof {
            assert forall|i: int|
                0 <= i < persons.len() && #[trigger] m.kind(persons[i]) is User implies kept.contains(
                persons[i],
            ) && !all_ws(persons[i]) by {
                assert(user_lines@[i].text_view() == persons[i]);
                assert(user_lines@[i].kind() == m.kind(persons[i]));
            }
            assert forall|j: int| 0 <= j < kept.len() implies !m.owns_spec(#[trigger] kept[j]) by {
                assert(kept[j] == mine@[j]@);
            }
            if ok {
                assert forall|j: int| 0 <= j < tool.len() implies tools_line(m, #[trigger] tool[j]) by {
                    assert(tool[j] == docs@[start + j]@);
                }
            }
        }

        let mut content = false;
        let mut k: usize = start;
        while k < docs.len()
            invariant
                start <= k <= docs@.len(),
                content == exists|i: int| start <= i < k && !all_ws(#[trigger] docs@[i]@),
            decreases docs.len() - k,
        {
            if !blank_line(docs[k].as_str()) {
                content = true;
            }
            k = k + 1;
        }
        proof {
            if start < docs.len() {
                assert(!all_ws(docs@[start as int]@));
                assert(content);
            }
            assert(user_lines@.len() == persons.len());
            assert(texts_of(user_lines@) == persons);
            assert(skip_blanks(pend + gap_spec + stand) == tool);
        }
        if !all_blank(&mine) {
            content = true;
        }
        proof {
            if mine@.len() > 0 {
                assert(!all_ws(mine@[mine@.len() - 1]@));
            }
            assert(content <==> (tool.len() > 0 || kept.len() > 0));
        }
        if !content {
            proof {
                assert forall|i: int|
                    0 <= i < persons.len() && #[trigger] m.kind(persons[i]) is User implies false by {
                    assert(kept.contains(persons[i]));
                    assert(!all_ws(persons[i]));
                    let at = kept.index_of(persons[i]);
                    assert(kept[at] == mine@[at]@);
                    assert(all_ws(mine@[at]@));
                }
                if ok {
                    assert(closing(m, persons, Seq::<char>::empty(), tool, kept));
                }
            }
            let none = String::new();
            proof {
                assert(none@ =~= Seq::<char>::empty());
            }
            return none;
        }
        let mut out = String::new();
        push_char(&mut out, '\n');
        let mut k: usize = start;
        proof {
            assert(views(docs@).subrange(start as int, start as int) =~= Seq::<Seq<char>>::empty());
            assert(out@ =~= seq!['\n'] + terminated(Seq::<Seq<char>>::empty()));
        }
        while k < docs.len()
            invariant
                start <= k <= docs@.len(),
                out@ == seq!['\n'] + terminated(views(docs@).subrange(start as int, k as int)),
                out@.len() > 0,
                out@[0] == '\n',
                out@.last() == '\n',
            decreases docs.len() - k,
        {
            let ghost before = views(docs@).subrange(start as int, k as int);
            out.append(docs[k].as_str());
            push_char(&mut out, '\n');
            proof {
                assert(views(docs@).subrange(start as int, k + 1) =~= before.push(docs@[k as int]@));
                crate::text::lemma_terminated_push(before, docs@[k as int]@);
            }
            k = k + 1;
        }
        proof {
            assert(views(docs@).subrange(start as int, k as int) == tool);
            assert(kept.subrange(0, 0) =~= Seq::<Seq<char>>::empty());
            assert(out@ =~= seq!['\n'] + terminated(tool) + terminated(kept.subrange(0, 0)));
        }
        let mut k: usize = 0;
        while k < mine.len()
            invariant
                k <= mine@.len(),
                kept == views(mine@),
                out@ == seq!['\n'] + terminated(tool) + terminated(kept.subrange(0, k as int)),
                out@.len() > 0,
                out@[0] == '\n',
                out@.last() == '\n',
            decreases mine.len() - k,
        {
            let ghost before = kept.subrange(0, k as int);
            out.append(mine[k].as_str());
            push_char(&mut out, '\n');
            proof {
                assert(kept.subrange(0, k + 1) =~= before.push(mine@[k as int]@));
                crate::text::lemma_terminated_push(before, mine@[k as int]@);
            }
            k = k + 1;
        }
        proof {
            assert(kept.subrange(0, k as int) =~= kept);
            assert(out@[0] == '\n');
            assert forall|i: int|
                0 <= i < persons.len() && #[trigger] m.kind(persons[i]) is User implies out@.len() > 0
                && kept.contains(persons[i]) by {}
            if ok {
                assert(closing(m, persons, out@, tool, kept));
            }
        }
        out
    }
}

} // verus!
