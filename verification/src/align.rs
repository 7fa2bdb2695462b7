//! Lining up the `=` of every key in a group.
//!
//! A section is the run of key-value pairs under one `[table]` header, or
//! above the first one. A comment or blank line above a key starts a new group
//! within it. The keys of a group are padded after their name so every `=`
//! sits in one column; a key alone in its group gets one space. A value
//! written over several lines, such as a `'''` string or a multi-line array,
//! is left as it is and sets no width: its `=` is its own affair.

use vstd::prelude::*;

use toml_edit::{DocumentMut, TomlError};

use crate::decor::Prefix;
use crate::model::{Entry, Node, TableNode, copy_text, names, node_type, opt_text, table_out, raw_names, first_names};
use crate::source::SourceDocument;
use crate::text::{chars_of, has_char, push_char, text_eq, views};
use crate::template::text_or_empty;
use crate::text::after_last_newline;
use crate::toml::{document_new, document_set_root, document_set_trailing, document_text, is_toml, key_text_of, rendering, document_keys, trailing_text, text_keys, text_trailing};

verus! {

/// One key-value pair of a section: where it is, and how wide its key
/// renders.
pub struct Aligned {
    /// The names leading to the key, through the dotted tables of the
    /// section.
    pub path: Vec<String>,
    /// Characters from the start of the line to the end of the key text.
    pub width: usize,
    /// Whether a comment or blank line sits above this key, or above a key
    /// skipped since the previous entry.
    pub separated: bool,
}

/// The padding between a key and its `=`: the width the widest key of its
/// group leaves it, and one space.
pub open spec fn padding(widest: int, width: int) -> int {
    widest - width + 1
}

/// Spaces, `n` of them.
fn spaces(n: usize) -> (r: String)
    ensures
        r@.len() == n,
        forall|i: int| 0 <= i < n ==> r@[i] == ' ',
{
    let mut out = String::new();
    let mut i: usize = 0;
    while i < n
        invariant
            i <= n,
            out@.len() == i,
            forall|j: int| 0 <= j < i ==> out@[j] == ' ',
        decreases n - i,
    {
        push_char(&mut out, ' ');
        i = i + 1;
    }
    out
}

/// How many characters a string holds.
fn width_of(text: &str) -> (r: usize)
    ensures
        r == text@.len(),
{
    chars_of(text).len()
}

/// Copies of some names.
fn copy_names(names: &Vec<String>) -> (r: Vec<String>)
    ensures
        r@.len() == names@.len(),
        forall|i: int| 0 <= i < r@.len() ==> (#[trigger] r@[i])@ == names@[i]@,
{
    let mut out: Vec<String> = Vec::new();
    let mut i: usize = 0;
    while i < names.len()
        invariant
            i <= names@.len(),
            out@.len() == i,
            forall|j: int| 0 <= j < i ==> (#[trigger] out@[j])@ == names@[j]@,
        decreases names.len() - i,
    {
        out.push(names[i].clone());
        i = i + 1;
    }
    out
}

/// Whether two name paths are the same.
fn same_names(a: &Vec<String>, b: &Vec<String>) -> (r: bool)
    ensures
        r == (a@.len() == b@.len() && forall|i: int| 0 <= i < a@.len() ==> a@[i]@ == b@[i]@),
{
    if a.len() != b.len() {
        return false;
    }
    let mut i: usize = 0;
    while i < a.len()
        invariant
            a@.len() == b@.len(),
            i <= a@.len(),
            forall|j: int| 0 <= j < i ==> a@[j]@ == b@[j]@,
        decreases a.len() - i,
    {
        if !text_eq(&a[i], &b[i]) {
            return false;
        }
        i = i + 1;
    }
    true
}

/// The text of an optional string, or nothing.
fn text_or_nothing(o: &Option<String>) -> (r: String)
    ensures
        r@ == text_or_empty(*o),
{
    match o {
        Some(s) => s.clone(),
        None => String::new(),
    }
}

/// What an [`Aligned`] records: the names leading to the key, its width, and
/// whether something is written above it.
pub open spec fn aligned_view(a: Aligned) -> (Seq<Seq<char>>, int, bool) {
    (views(a.path@), a.width as int, a.separated)
}

/// The entries a walk of `es` records, and whether something written above
/// a key is still waiting for the next entry: each single-line inline value,
/// reached through dotted tables, with its path and the width of what
/// precedes its `=`.
pub open spec fn collected(es: Seq<Entry>, path: Seq<Seq<char>>, before: Seq<char>, sep: bool) -> (
    Seq<(Seq<Seq<char>>, int, bool)>,
    bool,
)
    decreases es,
{
    if es.len() == 0 {
        (seq![], sep)
    } else {
        let e = es[0];
        let kp = text_or_empty(e.key.prefix);
        let sep1 = sep || kp.contains('\n');
        let p2 = path.push(e.key.name@);
        let text = before + (if p2.len() > 1 {
            seq!['.'] + text_or_empty(e.key.dotted_prefix)
        } else {
            seq![]
        }) + e.key.repr@;
        let here: (Seq<(Seq<Seq<char>>, int, bool)>, bool) = match e.item {
            Node::Table(sub) => if sub.dotted {
                proof {
                    assert(decreases_to!(es => es[0]));
                    assert(decreases_to!(es[0] => es[0].item));
                    assert(decreases_to!(es[0].item => sub));
                    assert(decreases_to!(sub => sub.entries));
                    assert(decreases_to!(sub.entries => sub.entries@));
                }
                collected(sub.entries@, p2, text + text_or_empty(e.key.dotted_suffix), sep1)
            } else {
                (seq![], sep1)
            },
            Node::Value(v) => if !v.dotted_table && !v.multiline && after_last_newline(kp).len()
                < usize::MAX - text.len() {
                (seq![(p2, (after_last_newline(kp).len() + text.len()) as int, sep1)], false)
            } else {
                (seq![], sep1)
            },
            Node::Array(_) => (seq![], sep1),
        };
        let rest = collected(es.subrange(1, es.len() as int), path, before, here.1);
        (here.0 + rest.0, rest.1)
    }
}

/// Every inline key-value pair of a section, with the text that precedes its
/// `=` measured the way the renderer writes it: the indentation, the key, and
/// each dotted segment with the text around its dot. `separated` carries a
/// comment or blank line forward to the next entry pushed.
fn collect(
    table: &TableNode,
    path: &mut Vec<String>,
    before: &String,
    separated: &mut bool,
    out: &mut Vec<Aligned>,
)
    requires
        forall|k: int| 0 <= k < old(out)@.len() ==> (#[trigger] old(out)@[k]).width < usize::MAX,
    ensures
        forall|k: int| 0 <= k < final(out)@.len() ==> (#[trigger] final(out)@[k]).width < usize::MAX,
        final(out)@.len() >= old(out)@.len(),
        final(out)@.subrange(0, old(out)@.len() as int) == old(out)@,
        final(path)@ == old(path)@,
        final(out)@.subrange(old(out)@.len() as int, final(out)@.len() as int).map_values(
            |a: Aligned| aligned_view(a),
        ) == collected(table.entries@, views(old(path)@), before@, *old(separated)).0,
        *final(separated) == collected(table.entries@, views(old(path)@), before@, *old(separated)).1,
    decreases table,
{
    let ghost es = table.entries@;
    let ghost whole = collected(es, views(old(path)@), before@, *old(separated));
    let mut i: usize = 0;
    assert(out@.subrange(0, out@.len() as int) =~= out@);
    assert(es.subrange(0, es.len() as int) =~= es);
    assert(out@.subrange(old(out)@.len() as int, out@.len() as int).map_values(|a: Aligned| aligned_view(a))
        =~= Seq::<(Seq<Seq<char>>, int, bool)>::empty());
    while i < table.entries.len()
        invariant
            forall|k: int| 0 <= k < out@.len() ==> (#[trigger] out@[k]).width < usize::MAX,
            out@.len() >= old(out)@.len(),
            out@.subrange(0, old(out)@.len() as int) == old(out)@,
            path@ == old(path)@,
            i <= es.len(),
            es == table.entries@,
            whole == collected(es, views(old(path)@), before@, *old(separated)),
            whole.0 == out@.subrange(old(out)@.len() as int, out@.len() as int).map_values(
                |a: Aligned| aligned_view(a),
            ) + collected(es.subrange(i as int, es.len() as int), views(path@), before@, *separated).0,
            whole.1 == collected(es.subrange(i as int, es.len() as int), views(path@), before@, *separated).1,
        decreases table.entries.len() - i,
    {
        let ghost now = es.subrange(i as int, es.len() as int);
        let ghost sep0 = *separated;
        let ghost done = out@.subrange(old(out)@.len() as int, out@.len() as int).map_values(
            |a: Aligned| aligned_view(a),
        );
        let ghost out0 = out@;
        assert(now[0] == es[i as int]);
        assert(now.subrange(1, now.len() as int) =~= es.subrange(i + 1, es.len() as int));
        let entry = &table.entries[i];
        assert(decreases_to!(table => table.entries@[i as int]));
        let key_prefix = text_or_nothing(&entry.key.prefix);
        if has_char(key_prefix.as_str(), '\n') {
            *separated = true;
        }
        let ghost sep1 = *separated;
        let ghost path0 = path@;
        let name = entry.key.name.clone();
        path.push(name);
        proof {
            crate::text::lemma_views_push(path0, name);
        }
        let ghost p2 = views(path@);
        let mut text = before.clone();
        if path.len() > 1 {
            push_char(&mut text, '.');
            text.append(text_or_nothing(&entry.key.dotted_prefix).as_str());
        }
        text.append(entry.key.repr.as_str());
        let ghost text0 = text@;
        proof {
            assert(text0 =~= before@ + (if p2.len() > 1 {
                seq!['.'] + text_or_empty(entry.key.dotted_prefix)
            } else {
                seq![]
            }) + entry.key.repr@);
        }
        let ghost here: (Seq<(Seq<Seq<char>>, int, bool)>, bool) = match table.entries@[i as int].item {
            Node::Table(sub) => if sub.dotted {
                collected(sub.entries@, p2, text0 + text_or_empty(entry.key.dotted_suffix), sep1)
            } else {
                (seq![], sep1)
            },
            Node::Value(v) => if !v.dotted_table && !v.multiline && after_last_newline(
                text_or_empty(entry.key.prefix),
            ).len() < usize::MAX - text0.len() {
                (seq![(p2, (after_last_newline(text_or_empty(entry.key.prefix)).len() + text0.len()) as int, sep1)], false)
            } else {
                (seq![], sep1)
            },
            Node::Array(_) => (seq![], sep1),
        };
        let ghost out1 = out@;
        match &entry.item {
            Node::Table(sub) => {
                assert(decreases_to!(table => sub));
                if sub.dotted {
                    text.append(text_or_nothing(&entry.key.dotted_suffix).as_str());
                    let ghost before = out@;
                    collect(sub, path, &text, separated, out);
                    assert(out@.subrange(0, old(out)@.len() as int) =~= before.subrange(0, old(out)@.len() as int));
                    proof {
                        assert(out@.subrange(0, out1.len() as int) =~= out1);
                        assert(out@.subrange(old(out)@.len() as int, out@.len() as int).map_values(
                            |a: Aligned| aligned_view(a),
                        ) =~= done + out@.subrange(out1.len() as int, out@.len() as int).map_values(
                            |a: Aligned| aligned_view(a),
                        )) by {
                            assert forall|q: int| 0 <= q < out@.len() - old(out)@.len() implies #[trigger] out@.subrange(
                                old(out)@.len() as int,
                                out@.len() as int,
                            )[q] == out@[old(out)@.len() + q] by {}
                            assert forall|q: int| 0 <= q < out1.len() - old(out)@.len() implies out@[old(out)@.len() + q]
                                == #[trigger] out1[old(out)@.len() + q] by {
                                assert(out@.subrange(0, out1.len() as int)[old(out)@.len() + q] == out@[old(out)@.len() + q]);
                            }
                        }
                    }
                } else {
                    assert(out@.subrange(old(out)@.len() as int, out@.len() as int).map_values(
                        |a: Aligned| aligned_view(a),
                    ) =~= done + here.0);
                }
            },
            Node::Value(value) => {
                if !value.dotted_table && !value.multiline {
                    let indent = Prefix::from_text(key_prefix.as_str()).indent();
                    let a = width_of(indent.as_str());
                    let b = width_of(text.as_str());
                    if a < usize::MAX - b {
                        let ghost before = out@;
                        let names_now = copy_names(path);
                        let item = Aligned { path: names_now, width: a + b, separated: *separated };
                        out.push(item);
                        *separated = false;
                        assert(out@.subrange(0, old(out)@.len() as int) =~= before.subrange(0, old(out)@.len() as int));
                        proof {
                            assert(views(names_now@) =~= p2);
                            assert(aligned_view(item) == (p2, (after_last_newline(text_or_empty(entry.key.prefix)).len() + text0.len()) as int, sep1));
                            assert(out@.subrange(old(out)@.len() as int, out@.len() as int).map_values(
                                |a: Aligned| aligned_view(a),
                            ) =~= done + here.0);
                        }
                    } else {
                        assert(out@.subrange(old(out)@.len() as int, out@.len() as int).map_values(
                            |a: Aligned| aligned_view(a),
                        ) =~= done + here.0);
                    }
                } else {
                    assert(out@.subrange(old(out)@.len() as int, out@.len() as int).map_values(
                        |a: Aligned| aligned_view(a),
                    ) =~= done + here.0);
                }
            },
            Node::Array(_) => {
                assert(out@.subrange(old(out)@.len() as int, out@.len() as int).map_values(
                    |a: Aligned| aligned_view(a),
                ) =~= done + here.0);
            },
        }
        proof {
            assert(*separated == here.1);
            assert(views(path0) == views(old(path)@));
        }
        path.pop();
        assert(path@ =~= old(path)@);
        i = i + 1;
    }
    proof {
        assert(es.subrange(i as int, es.len() as int) =~= Seq::<Entry>::empty());
        assert(whole.0 =~= out@.subrange(old(out)@.len() as int, out@.len() as int).map_values(
            |a: Aligned| aligned_view(a),
        ));
    }
}

/// Where the group of entry `k` starts: at the nearest entry at or before it
/// with something written above it, or at the first.
pub open spec fn group_start(es: Seq<Aligned>, k: int) -> int
    decreases k,
{
    if k <= 0 || es[k].separated {
        if k <= 0 {
            0
        } else {
            k
        }
    } else {
        group_start(es, k - 1)
    }
}

/// Where the group of entry `k` ends: at the next entry with something
/// written above it, or past the last.
pub open spec fn group_end(es: Seq<Aligned>, k: int) -> int
    decreases es.len() - k,
{
    if k + 1 >= es.len() {
        es.len() as int
    } else if es[k + 1].separated {
        k + 1
    } else {
        group_end(es, k + 1)
    }
}

/// The widest entry of `es[a..b]`.
pub open spec fn widest(es: Seq<Aligned>, a: int, b: int) -> int
    decreases b - a,
{
    if b <= a {
        0
    } else {
        let w = widest(es, a, b - 1);
        if es[b - 1].width > w {
            es[b - 1].width as int
        } else {
            w
        }
    }
}

/// The padding an entry gets: enough to bring its `=` to the column of the
/// widest key of its group, and one space.
pub open spec fn pad_of(es: Seq<Aligned>, k: int) -> int {
    widest(es, group_start(es, k), group_end(es, k)) - es[k].width + 1
}

proof fn lemma_widest_bound(es: Seq<Aligned>, a: int, b: int, k: int)
    requires
        a <= k < b <= es.len(),
        0 <= a,
    ensures
        es[k].width <= widest(es, a, b),
    decreases b - a,
{
    if k < b - 1 {
        lemma_widest_bound(es, a, b - 1, k);
    }
}

proof fn lemma_widest_below(es: Seq<Aligned>, a: int, b: int)
    requires
        0 <= a,
        b <= es.len(),
        forall|k: int| 0 <= k < es.len() ==> (#[trigger] es[k]).width < usize::MAX,
    ensures
        widest(es, a, b) < usize::MAX,
    decreases b - a,
{
    if b > a {
        lemma_widest_below(es, a, b - 1);
    }
}

proof fn lemma_group_end(es: Seq<Aligned>, j: int, end: int)
    requires
        0 <= j < end <= es.len(),
        forall|i: int| j < i < end ==> !(#[trigger] es[i]).separated,
        end == es.len() || es[end].separated,
    ensures
        group_end(es, j) == end,
    decreases end - j,
{
    if j + 1 < end {
        lemma_group_end(es, j + 1, end);
    }
}

proof fn lemma_group_bounds(es: Seq<Aligned>, k: int)
    requires
        0 <= k < es.len(),
    ensures
        0 <= group_start(es, k) <= k < group_end(es, k) <= es.len(),
    decreases es.len() - k,
{
    lemma_group_start_bound(es, k);
    if k + 1 < es.len() && !es[k + 1].separated {
        lemma_group_bounds(es, k + 1);
    }
}

proof fn lemma_group_start_bound(es: Seq<Aligned>, k: int)
    requires
        0 <= k < es.len(),
    ensures
        0 <= group_start(es, k) <= k,
    decreases k,
{
    if k > 0 && !es[k].separated {
        lemma_group_start_bound(es, k - 1);
    }
}

/// Two neighbours with nothing written between them are in one group, and
/// their `=` signs share a column.
pub proof fn lemma_neighbours_share_a_column(es: Seq<Aligned>, k: int)
    requires
        0 <= k,
        k + 1 < es.len(),
        !es[k + 1].separated,
    ensures
        group_start(es, k + 1) == group_start(es, k),
        group_end(es, k + 1) == group_end(es, k),
        es[k].width + pad_of(es, k) == es[k + 1].width + pad_of(es, k + 1),
{
}

/// A key alone in its group, and the widest key of any group, are written
/// with one space before their `=`.
pub proof fn lemma_lone_and_widest_keys_get_one_space(es: Seq<Aligned>, k: int)
    requires
        0 <= k < es.len(),
    ensures
        (group_start(es, k) == k && group_end(es, k) == k + 1) ==> pad_of(es, k) == 1,
        es[k].width == widest(es, group_start(es, k), group_end(es, k)) ==> pad_of(es, k) == 1,
        pad_of(es, k) >= 1,
{
    lemma_group_bounds(es, k);
    lemma_widest_bound(es, group_start(es, k), group_end(es, k), k);
    if group_start(es, k) == k && group_end(es, k) == k + 1 {
        assert(widest(es, k, k) == 0);
    }
}

/// One key's padding per entry, by [`pad_of`].
fn pads_of(es: &Vec<Aligned>) -> (r: Vec<String>)
    requires
        forall|k: int| 0 <= k < es@.len() ==> (#[trigger] es@[k]).width < usize::MAX,
    ensures
        r@.len() == es@.len(),
        forall|k: int| 0 <= k < r@.len() ==> (#[trigger] r@[k])@.len() == pad_of(es@, k),
        forall|k: int, j: int| 0 <= k < r@.len() && 0 <= j < r@[k]@.len() ==> r@[k]@[j] == ' ',
{
    let mut out: Vec<String> = Vec::new();
    let mut start: usize = 0;
    while start < es.len()
        invariant
            start <= es@.len(),
            out@.len() == start,
            start < es@.len() ==> group_start(es@, start as int) == start,
            forall|k: int| 0 <= k < es@.len() ==> (#[trigger] es@[k]).width < usize::MAX,
            forall|k: int| 0 <= k < out@.len() ==> (#[trigger] out@[k])@.len() == pad_of(es@, k),
            forall|k: int, j: int| 0 <= k < out@.len() && 0 <= j < out@[k]@.len() ==> out@[k]@[j] == ' ',
        decreases es.len() - start,
    {
        // A group runs from one separated entry to the next.
        let mut end: usize = start + 1;
        while end < es.len() && !es[end].separated
            invariant
                start < end <= es@.len(),
                start < es@.len() ==> group_start(es@, start as int) == start,
                forall|k: int| start <= k < end ==> group_start(es@, k) == start,
                forall|i: int| start < i < end ==> !(#[trigger] es@[i]).separated,
            decreases es.len() - end,
        {
            assert(group_start(es@, end as int) == group_start(es@, end - 1));
            end = end + 1;
        }
        proof {
            assert forall|j: int| start <= j < end implies group_end(es@, j) == end by {
                lemma_group_end(es@, j, end as int);
            }
        }
        let mut most: usize = 0;
        let mut k: usize = start;
        assert(widest(es@, start as int, start as int) == 0);
        while k < end
            invariant
                start <= k <= end,
                end <= es@.len(),
                most == widest(es@, start as int, k as int),
            decreases end - k,
        {
            if es[k].width > most {
                most = es[k].width;
            }
            k = k + 1;
        }
        let mut k: usize = start;
        while k < end
            invariant
                start <= k <= end,
                end <= es@.len(),
                out@.len() == k,
                most == widest(es@, start as int, end as int),
                group_end(es@, start as int) == end,
                forall|j: int| start <= j < end ==> group_start(es@, j) == start,
                forall|j: int| start <= j < end ==> group_end(es@, j) == end,
                forall|j: int| 0 <= j < es@.len() ==> (#[trigger] es@[j]).width < usize::MAX,
                forall|j: int| 0 <= j < out@.len() ==> (#[trigger] out@[j])@.len() == pad_of(es@, j),
                forall|j: int, i: int| 0 <= j < out@.len() && 0 <= i < out@[j]@.len() ==> out@[j]@[i] == ' ',
            decreases end - k,
        {
            proof {
                lemma_widest_bound(es@, start as int, end as int, k as int);
            }
            let pad = most - es[k].width;
            proof {
                lemma_widest_below(es@, start as int, end as int);
                assert(pad + 1 == pad_of(es@, k as int));
            }
            out.push(spaces(pad + 1));
            k = k + 1;
        }
        start = end;
    }
    out
}

/// An entry as alignment leaves it: the same key but for the text between
/// it and its `=`, which is left as it was or made a run of spaces, and the
/// same value.
pub open spec fn realigned(a: Entry, b: Entry) -> bool {
    &&& b.key.name@ == a.key.name@
    &&& b.key.repr@ == a.key.repr@
    &&& key_text_of(b.key.raw) == key_text_of(a.key.raw)
    &&& opt_text(b.key.prefix) == opt_text(a.key.prefix)
    &&& (opt_text(b.key.suffix) == opt_text(a.key.suffix) || (b.key.suffix matches Some(p)
        && forall|j: int| 0 <= j < p@.len() ==> p@[j] == ' '))
    &&& node_type(b.item) == node_type(a.item)
    &&& a.item matches Node::Value(v) ==> b.item matches Node::Value(w) && w.text@ == v.text@
        && w.kind == v.kind && w.multiline == v.multiline
}

/// Whether a key's text before its `=` is the padding a list of paddings
/// records for its path, where one is recorded, and is as it was otherwise.
pub open spec fn padded_by(
    pads: Seq<(Vec<String>, String)>,
    p: Seq<Seq<char>>,
    new: Option<String>,
    old: Option<String>,
) -> bool {
    if exists|q: int| 0 <= q < pads.len() && views(#[trigger] pads[q].0@) == p {
        new matches Some(s) && exists|q: int|
            0 <= q < pads.len() && views(#[trigger] pads[q].0@) == p && s@ == pads[q].1@
    } else {
        opt_text(new) == opt_text(old)
    }
}

/// Whether a key's text before its `=` is the padding its group gives it:
/// where the section's walk records the key's path, spaces as many as the
/// widest key of its group leaves it, and one; as it was otherwise.
pub open spec fn padded(es: Seq<Aligned>, p: Seq<Seq<char>>, new: Option<String>, old: Option<String>) -> bool {
    if exists|k: int| 0 <= k < es.len() && views(#[trigger] es[k].path@) == p {
        new matches Some(s) && (forall|j: int| 0 <= j < s@.len() ==> s@[j] == ' ') && exists|k: int|
            0 <= k < es.len() && views(#[trigger] es[k].path@) == p && s@.len() == pad_of(es, k)
    } else {
        opt_text(new) == opt_text(old)
    }
}

/// The padding each key of a section gets, by the path that reaches it.
fn paddings(table: &TableNode) -> (r: Vec<(Vec<String>, String)>)
    ensures
        forall|k: int, j: int| 0 <= k < r@.len() && 0 <= j < r@[k].1@.len() ==> r@[k].1@[j] == ' ',
        exists|es: Seq<Aligned>|
            #[trigger] aligned_views(es) == collected(table.entries@, seq![], seq![], false).0
                && r@.len() == es.len() && forall|k: int|
                0 <= k < es.len() ==> views((#[trigger] r@[k]).0@) == views(es[k].path@) && r@[k].1@.len()
                    == pad_of(es, k),
{
    let mut entries: Vec<Aligned> = Vec::new();
    let mut separated = false;
    let mut path: Vec<String> = Vec::new();
    let before = String::new();
    collect(table, &mut path, &before, &mut separated, &mut entries);
    let pads = pads_of(&entries);
    let mut out: Vec<(Vec<String>, String)> = Vec::new();
    let mut k: usize = 0;
    proof {
        assert(path@ =~= Seq::<String>::empty());
        assert(views(path@) =~= Seq::<Seq<char>>::empty());
        assert(before@ =~= Seq::<char>::empty());
        assert(entries@.subrange(0, entries@.len() as int) =~= entries@);
        assert(aligned_views(entries@) =~= entries@.subrange(0, entries@.len() as int).map_values(
            |a: Aligned| aligned_view(a),
        ));
    }
    while k < entries.len()
        invariant
            k <= entries@.len(),
            out@.len() == k,
            forall|q: int|
                0 <= q < k ==> views((#[trigger] out@[q]).0@) == views(entries@[q].path@) && out@[q].1@.len()
                    == pad_of(entries@, q),
            forall|q: int| 0 <= q < pads@.len() ==> (#[trigger] pads@[q])@.len() == pad_of(entries@, q),
            pads@.len() == entries@.len(),
            forall|k: int, j: int| 0 <= k < pads@.len() && 0 <= j < pads@[k]@.len() ==> pads@[k]@[j] == ' ',
            forall|q: int, j: int| 0 <= q < out@.len() && 0 <= j < out@[q].1@.len() ==> out@[q].1@[j] == ' ',
        decreases entries.len() - k,
    {
        let pad = pads[k].clone();
        let names_k = copy_names(&entries[k].path);
        proof {
            assert(views(names_k@) =~= views(entries@[k as int].path@));
        }
        out.push((names_k, pad));
        k = k + 1;
    }
    out
}

/// What each of a list of [`Aligned`] records.
pub open spec fn aligned_views(es: Seq<Aligned>) -> Seq<(Seq<Seq<char>>, int, bool)> {
    es.map_values(|a: Aligned| aligned_view(a))
}

/// The padding recorded for a path, if any.
fn padding_at(pads: &Vec<(Vec<String>, String)>, path: &Vec<String>) -> (r: Option<String>)
    requires
        forall|k: int, j: int| 0 <= k < pads@.len() && 0 <= j < pads@[k].1@.len() ==> pads@[k].1@[j] == ' ',
    ensures
        r matches Some(p) ==> forall|j: int| 0 <= j < p@.len() ==> p@[j] == ' ',
        r matches Some(p) ==> exists|i: int|
            0 <= i < pads@.len() && views(pads@[i].0@) == views(path@) && p@ == pads@[i].1@,
        r is None ==> forall|i: int| 0 <= i < pads@.len() ==> views(#[trigger] pads@[i].0@) != views(path@),
{
    let mut i: usize = 0;
    while i < pads.len()
        invariant
            i <= pads@.len(),
            forall|k: int, j: int| 0 <= k < pads@.len() && 0 <= j < pads@[k].1@.len() ==> pads@[k].1@[j] == ' ',
            forall|k: int| 0 <= k < i ==> views(#[trigger] pads@[k].0@) != views(path@),
        decreases pads.len() - i,
    {
        if same_names(&pads[i].0, path) {
            assert(views(pads@[i as int].0@) =~= views(path@));
            return Some(pads[i].1.clone());
        }
        proof {
            let a = pads@[i as int].0@;
            if views(a) == views(path@) {
                assert(views(a).len() == a.len() && views(path@).len() == path@.len());
                assert forall|j: int| 0 <= j < a.len() implies a[j]@ == path@[j]@ by {
                    assert(views(a)[j] == a[j]@);
                    assert(views(path@)[j] == path@[j]@);
                }
                assert(false);
            }
        }
        i = i + 1;
    }
    None
}

/// A section with the padding of its keys set, through its dotted tables;
/// the tables under it with headers of their own are sections of their own
/// and are aligned as such.
fn aligned_in(table: &TableNode, path: &mut Vec<String>, pads: &Vec<(Vec<String>, String)>) -> (r: TableNode)
    requires
        forall|k: int, j: int| 0 <= k < pads@.len() && 0 <= j < pads@[k].1@.len() ==> pads@[k].1@[j] == ' ',
    ensures
        names(r) == names(*table),
        r.entries@.len() == table.entries@.len(),
        forall|i: int|
            0 <= i < r.entries@.len() ==> realigned(table.entries@[i], #[trigger] r.entries@[i]),
        final(path)@ == old(path)@,
        forall|i: int|
            0 <= i < r.entries@.len() && table.entries@[i].item is Value ==> #[trigger] padded_by(
                pads@,
                views(old(path)@).push(table.entries@[i].key.name@),
                r.entries@[i].key.suffix,
                table.entries@[i].key.suffix,
            ),
    decreases table, 0usize,
{
    let mut out = TableNode {
        dotted: table.dotted,
        implicit: table.implicit,
        prefix: copy_text(&table.prefix),
        suffix: copy_text(&table.suffix),
        entries: Vec::new(),
    };
    let mut i: usize = 0;
    while i < table.entries.len()
        invariant
            i <= table.entries@.len(),
            names(out) == names(*table).subrange(0, i as int),
            out.entries@.len() == i,
            forall|j: int| 0 <= j < i ==> realigned(table.entries@[j], #[trigger] out.entries@[j]),
            forall|k: int, j: int| 0 <= k < pads@.len() && 0 <= j < pads@[k].1@.len() ==> pads@[k].1@[j] == ' ',
            path@ == old(path)@,
            forall|j: int|
                0 <= j < i && table.entries@[j].item is Value ==> #[trigger] padded_by(
                    pads@,
                    views(old(path)@).push(table.entries@[j].key.name@),
                    out.entries@[j].key.suffix,
                    table.entries@[j].key.suffix,
                ),
        decreases table.entries.len() - i,
    {
        let entry = &table.entries[i];
        assert(decreases_to!(table => table.entries@[i as int]));
        path.push(entry.key.name.clone());
        proof {
            assert(views(path@) =~= views(old(path)@).push(entry.key.name@));
        }
        let mut key = entry.key.duplicate();
        let item = match &entry.item {
            Node::Table(sub) => {
                assert(decreases_to!(table => sub));
                if sub.dotted {
                    Node::Table(aligned_in(sub, path, pads))
                } else {
                    Node::Table(align_sections(sub))
                }
            },
            Node::Value(v) => {
                match padding_at(pads, path) {
                    Some(pad) => {
                        key.suffix = Some(pad);
                    },
                    None => {},
                }
                proof {
                    assert(padded_by(
                        pads@,
                        views(old(path)@).push(entry.key.name@),
                        key.suffix,
                        entry.key.suffix,
                    ));
                }
                Node::Value(v.duplicate())
            },
            Node::Array(ts) => {
                let mut out_ts: Vec<TableNode> = Vec::new();
                let mut j: usize = 0;
                while j < ts.len()
                    invariant
                        i < table.entries@.len(),
                        table.entries@[i as int].item == Node::Array(*ts),
                    decreases ts.len() - j,
                {
                    assert(decreases_to!(table => table.entries));
                    assert(decreases_to!(table.entries => table.entries@));
                    assert(decreases_to!(table.entries@ => table.entries@[i as int]));
                    assert(decreases_to!(table.entries@[i as int] => table.entries@[i as int].item));
                    assert(decreases_to!(table.entries@[i as int].item => table.entries@[i as int].item->Array_0));
                    assert(decreases_to!(*ts => ts@));
                    assert(decreases_to!(ts@ => ts@[j as int]));
                    out_ts.push(align_sections(&ts[j]));
                    j = j + 1;
                }
                Node::Array(out_ts)
            },
        };
        path.pop();
        let ghost before = out;
        out.push(Entry { key, item });
        proof {
            assert(out.entries@[i as int].key == key);
        }
        i = i + 1;
        assert(names(out) =~= names(*table).subrange(0, i as int));
    }
    assert(names(*table).subrange(0, i as int) =~= names(*table));
    out
}

/// Aligns every section under `table`, itself included. Only the text
/// between keys and their `=` changes: every entry stays, in its place.
pub fn align_sections(table: &TableNode) -> (r: TableNode)
    ensures
        names(r) == names(*table),
        r.entries@.len() == table.entries@.len(),
        forall|i: int|
            0 <= i < r.entries@.len() ==> realigned(table.entries@[i], #[trigger] r.entries@[i]),
        exists|es: Seq<Aligned>|
            #[trigger] aligned_views(es) == collected(table.entries@, seq![], seq![], false).0 && forall|i: int|
                0 <= i < r.entries@.len() && table.entries@[i].item is Value ==> padded(
                    es,
                    seq![table.entries@[i].key.name@],
                    (#[trigger] r.entries@[i]).key.suffix,
                    table.entries@[i].key.suffix,
                ),
    decreases table, 1usize,
{
    let pads = paddings(table);
    let mut path: Vec<String> = Vec::new();
    let r = aligned_in(table, &mut path, &pads);
    proof {
        let es = choose|es: Seq<Aligned>|
            #[trigger] aligned_views(es) == collected(table.entries@, seq![], seq![], false).0
                && pads@.len() == es.len() && forall|k: int|
                0 <= k < es.len() ==> views((#[trigger] pads@[k]).0@) == views(es[k].path@) && pads@[k].1@.len()
                    == pad_of(es, k);
        assert(views(Seq::<String>::empty()) =~= Seq::<Seq<char>>::empty());
        assert forall|i: int|
            0 <= i < r.entries@.len() && table.entries@[i].item is Value implies padded(
                es,
                seq![table.entries@[i].key.name@],
                (#[trigger] r.entries@[i]).key.suffix,
                table.entries@[i].key.suffix,
            ) by {
            let p = seq![table.entries@[i].key.name@];
            assert(Seq::<Seq<char>>::empty().push(table.entries@[i].key.name@) =~= p);
            assert(padded_by(pads@, p, r.entries@[i].key.suffix, table.entries@[i].key.suffix));
            if exists|k: int| 0 <= k < es.len() && views(#[trigger] es[k].path@) == p {
                let k = choose|k: int| 0 <= k < es.len() && views(#[trigger] es[k].path@) == p;
                assert(views(pads@[k].0@) == p);
                let q = choose|q: int| 0 <= q < pads@.len() && views(#[trigger] pads@[q].0@) == p && r.entries@[i].key.suffix->Some_0@ == pads@[q].1@;
                assert(views(es[q].path@) == p);
            } else {
                if exists|q: int| 0 <= q < pads@.len() && views(#[trigger] pads@[q].0@) == p {
                    let q = choose|q: int| 0 <= q < pads@.len() && views(#[trigger] pads@[q].0@) == p;
                    assert(views(es[q].path@) == p);
                }
            }
        }
    }
    r
}

/// A document with its sections aligned, as text. It fails exactly on text
/// that is not TOML.
pub fn aligned(src: &str) -> (r: Result<String, TomlError>)
    ensures
        src@.len() == 0 ==> r is Ok,
        src@.len() > 0 ==> (r is Ok <==> is_toml(src@)),
        r matches Ok(t) ==> exists|d: DocumentMut|
            t@ == #[trigger] rendering(d) && document_keys(d) == (if src@.len() == 0 {
                Seq::<Seq<char>>::empty()
            } else {
                first_names(text_keys(src@))
            }) && trailing_text(d) == Some(
                if src@.len() == 0 {
                    Seq::<char>::empty()
                } else {
                    match text_trailing(src@) {
                        Some(t) => t,
                        None => Seq::<char>::empty(),
                    }
                },
            ),
{
    let (root, trailing) = match SourceDocument::parse(src)? {
        SourceDocument::Empty => (TableNode::empty(), String::new()),
        SourceDocument::Content { root, trailing } => (root, trailing),
    };
    let ghost read = root;
    let root = align_sections(&root);
    let mut next: isize = 0;
    let table = table_out(&root, &mut next);
    let mut document = document_new();
    document_set_root(&mut document, table);
    document_set_trailing(&mut document, trailing.as_str());
    let text = document_text(&document);
    proof {
        assert forall|x: int| 0 <= x < root.entries@.len() implies key_text_of(
            (#[trigger] root.entries@[x]).key.raw,
        ) == read.entries@[x].key.name@ by {
            assert(realigned(read.entries@[x], root.entries@[x]));
            if src@.len() > 0 {
                assert(crate::model::read_from_raw(read.entries@[x]));
            }
        }
        assert(raw_names(root.entries@) =~= names(read));
        if src@.len() == 0 {
            assert(names(read) =~= Seq::<Seq<char>>::empty());
        }
    }
    Ok(text)
}

} // verus!
