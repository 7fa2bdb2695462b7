//! The keys the defaults document without declaring.
//!
//! A sample line is TOML, so a run of them is a document: the keys an
//! application cannot ship a value for, written out as the person would write
//! them. Read back into a table, with the prose above each key kept as that
//! key's own comment, they merge exactly like keys the defaults declare. The
//! one difference is a key the person has not set: it stays a sample line
//! instead of becoming a live value.

use vstd::prelude::*;

use toml_edit::DocumentMut;

use crate::decor::{Marker, Prefix, PrefixLine, classified, undress_spec};
use crate::model::{
    Entry, KeyNode, Node, TableNode, copy_text, first_from, opt_text, has_name, names, node_type, path_in,
    same_entries, table_node, table_out, raw_names, first_names, holds_value_of,
};
use crate::path::{DottedPath, path_text};
use crate::source::SourceDocument;
use crate::standing::{blocks, blocks_of, copy_lines, opens_table, opens_table_spec, runs_from};
use crate::text::{after_last_newline, all_ws, chars_of, complete_lines, joined, is_blank, leading_ws, lines_from,
    push_char, slice_string, starts_with, tail_from, text_eq, trim, trim_start, trimmed, views, find_from, terminated};
use crate::toml::{document_new, document_root, document_set_root, document_text,
    document_trailing, key_new, key_repr_of, parse_editable, key_path_names, is_toml, rendering, text_keys, text_trailing, document_keys, document_table, item_value_of, table_item_of, key_text_of, value_rendering};

verus! {

/// Every key the defaults document but do not declare, under the path it
/// would be written at.
#[derive(Debug)]
pub struct Template {
    pub root: TableNode,
    /// Blocks that could not be read as TOML, by their text. They stay where
    /// the defaults wrote them.
    pub unread: Vec<String>,
    /// Blocks that were read, by their text, so the walk that emits the
    /// defaults' standing text leaves them out.
    pub read: Vec<String>,
    /// The key each block was written above, so an optional key keeps the
    /// place in the order the defaults gave it. Absent means it was written
    /// below the last key of its table.
    pub written_above: Vec<(DottedPath, DottedPath)>,
}

/// A path one segment deeper than an optional one.
pub fn child_path(path: Option<&DottedPath>, name: &str) -> (r: DottedPath)
    ensures
        r@ == match path {
            Some(p) => p@.push(name@),
            None => seq![name@],
        },
{
    match path {
        Some(p) => p.child(name),
        None => DottedPath::new(name),
    }
}

/// A copy of an optional path.
pub fn copy_path(path: Option<&DottedPath>) -> (r: Option<DottedPath>)
    ensures
        r is Some <==> path is Some,
        r matches Some(p) ==> p@ == path->Some_0@,
{
    match path {
        Some(p) => Some(p.duplicate()),
        None => None,
    }
}

/// A key of a given name, written the way `toml_edit` writes a fresh one.
pub fn named_key(name: &str) -> (r: KeyNode)
    ensures
        r.name@ == name@,
        r.prefix is None,
        r.suffix is None,
        key_text_of(r.raw) == name@,
{
    KeyNode {
        name: name.to_owned(),
        repr: key_repr_of(name),
        prefix: None,
        suffix: None,
        dotted_prefix: None,
        dotted_suffix: None,
        raw: key_new(name),
    }
}

/// Where the text above an entry lives, as a spec.
///
/// For a key-value pair it is the key's own text. A table with a header
/// carries it in its own text, and an array of tables in that of its first
/// entry, because that is what sits under the comment in the file.
pub open spec fn above_of(e: Entry) -> Option<String> {
    match e.item {
        Node::Table(t) => if !t.dotted {
            t.prefix
        } else {
            e.key.prefix
        },
        Node::Array(ts) => if ts@.len() > 0 {
            ts@[0].prefix
        } else {
            e.key.prefix
        },
        _ => e.key.prefix,
    }
}

/// The text of an optional string, or nothing.
pub open spec fn text_or_empty(o: Option<String>) -> Seq<char> {
    match o {
        Some(s) => s@,
        None => seq![],
    }
}

/// The text above an entry, as [`above_of`] places it.
pub fn above(entry: &Entry) -> (r: String)
    ensures
        r@ == text_or_empty(above_of(*entry)),
{
    let found = match &entry.item {
        Node::Table(t) => if !t.dotted {
            &t.prefix
        } else {
            &entry.key.prefix
        },
        Node::Array(ts) => if ts.len() > 0 {
            &ts[0].prefix
        } else {
            &entry.key.prefix
        },
        _ => &entry.key.prefix,
    };
    match found {
        Some(s) => s.clone(),
        None => {
            let e = String::new();
            assert(e@ =~= Seq::<char>::empty());
            e
        },
    }
}

impl Prefix {
    /// The text above an entry, where [`above_of`] finds it.
    pub fn of(entry: &Entry) -> (p: Prefix)
        ensures
            p.raw@ == text_or_empty(above_of(*entry)),
    {
        let text = above(entry);
        Prefix::from_text(text.as_str())
    }
}

/// An entry with new text above it, written where [`above_of`] finds it and
/// nothing left behind in the place it did not use.
pub fn prefixed(entry: Entry, prefix: String) -> (r: Entry)
    ensures
        r.key.name@ == entry.key.name@,
        node_type(r.item) == node_type(entry.item),
        text_or_empty(above_of(r)) == prefix@,
        r.key.raw == entry.key.raw,
        r.item matches Node::Value(v) ==> entry.item matches Node::Value(w) && v == w,
        entry.item matches Node::Value(w) ==> r.item matches Node::Value(v) && v == w,
        entry.item matches Node::Table(t) ==> r.item matches Node::Table(o) && names(o) == names(t),
        entry.item matches Node::Array(ts) ==> r.item matches Node::Array(os) && same_entries(
            os@,
            ts@,
        ),
{
    let Entry { mut key, item } = entry;
    match item {
        Node::Table(mut t) => {
            if !t.dotted {
                key.prefix = Some(String::new());
                t.prefix = Some(prefix);
            } else {
                key.prefix = Some(prefix);
            }
            Entry { key, item: Node::Table(t) }
        },
        Node::Array(mut ts) => {
            if ts.len() > 0 {
                key.prefix = Some(String::new());
                let ghost before = ts@;
                let mut first = ts.remove(0);
                first.prefix = Some(prefix);
                ts.insert(0, first);
                proof {
                    assert(ts@ =~= before.update(0, first));
                }
            } else {
                key.prefix = Some(prefix);
            }
            Entry { key, item: Node::Array(ts) }
        },
        Node::Value(v) => {
            key.prefix = Some(prefix);
            Entry { key, item: Node::Value(v) }
        },
    }
}

/// The texts of the lines of a block that are not the person's, in order.
pub open spec fn tool_texts(block: Seq<PrefixLine>) -> Seq<Seq<char>>
    decreases block.len(),
{
    if block.len() == 0 {
        seq![]
    } else if block.last() is User {
        tool_texts(block.drop_last())
    } else {
        tool_texts(block.drop_last()).push(block.last().text_view())
    }
}

/// The lines of a block that are the tool's, joined by `\n`.
pub(crate) fn block_text(block: &[PrefixLine]) -> (r: String)
    ensures
        r@ == joined(tool_texts(block@)),
{
    let mut out = String::new();
    let mut any = false;
    let mut i: usize = 0;
    proof {
        assert(block@.subrange(0, 0) =~= Seq::<PrefixLine>::empty());
        assert(out@ =~= Seq::<char>::empty());
    }
    while i < block.len()
        invariant
            i <= block@.len(),
            out@ == joined(tool_texts(block@.subrange(0, i as int))),
            any == (tool_texts(block@.subrange(0, i as int)).len() > 0),
        decreases block.len() - i,
    {
        let ghost before = tool_texts(block@.subrange(0, i as int));
        assert(block@.subrange(0, i + 1).drop_last() =~= block@.subrange(0, i as int));
        match &block[i] {
            PrefixLine::User { .. } => {},
            line => {
                if any {
                    push_char(&mut out, '\n');
                }
                out.append(line.text());
                any = true;
                proof {
                    crate::text::lemma_joined_push(before, block@[i as int].text_view());
                }
            },
        }
        i = i + 1;
    }
    assert(block@.subrange(0, i as int) =~= block@);
    out
}

/// Whether a list of strings holds one with the given text.
pub fn holds(list: &Vec<String>, text: &String) -> (r: bool)
    ensures
        r == views(list@).contains(text@),
{
    let mut i: usize = 0;
    while i < list.len()
        invariant
            i <= list@.len(),
            forall|j: int| 0 <= j < i ==> list@[j]@ != text@,
        decreases list.len() - i,
    {
        if text_eq(&list[i], text) {
            assert(views(list@)[i as int] == text@);
            return true;
        }
        i = i + 1;
    }
    proof {
        if views(list@).contains(text@) {
            let k = views(list@).index_of(text@);
            assert(list@[k]@ == text@);
        }
    }
    false
}

/// How many of some line ranges lie within `n` lines.
pub open spec fn valid_blocks(bs: Seq<(int, int)>, n: int) -> nat
    decreases bs.len(),
{
    if bs.len() == 0 {
        0
    } else {
        valid_blocks(bs.drop_last(), n) + (if 0 <= bs.last().0 <= bs.last().1 <= n {
            1nat
        } else {
            0nat
        })
    }
}

/// The names a path leads through, none for the root.
pub open spec fn path_names(p: Option<DottedPath>) -> Option<Seq<Seq<char>>> {
    match p {
        Some(q) => Some(q@),
        None => None,
    }
}

/// The section the last table with a header of its own among entries opens,
/// at any depth, the entries sitting under the names `within`.
pub open spec fn last_section(es: Seq<Entry>, within: Seq<Seq<char>>) -> Option<Seq<Seq<char>>>
    decreases es,
{
    if es.len() == 0 {
        None
    } else {
        let rest = last_section(es.subrange(1, es.len() as int), within);
        if rest is Some {
            rest
        } else {
            match es[0].item {
                Node::Table(sub) => {
                    proof {
                        assert(decreases_to!(es => es[0]));
                        assert(decreases_to!(es[0] => es[0].item));
                        assert(decreases_to!(es[0].item => sub));
                        assert(decreases_to!(sub => sub.entries));
                        assert(decreases_to!(sub.entries => sub.entries@));
                    }
                    let child = within.push(es[0].key.name@);
                    let inner = last_section(sub.entries@, child);
                    if inner is Some {
                        inner
                    } else if !sub.dotted {
                        Some(child)
                    } else {
                        None
                    }
                },
                _ => None,
            }
        }
    }
}

impl Template {
    /// A template documenting nothing.
    pub fn empty() -> (t: Self)
        ensures
            t.root.entries@.len() == 0,
            !t.root.dotted,
            !t.root.implicit,
            t.root.prefix is None,
            t.root.suffix is None,
            t.read@.len() == 0,
            t.unread@.len() == 0,
            t.written_above@.len() == 0,
    {
        Template {
            root: TableNode::empty(),
            unread: Vec::new(),
            read: Vec::new(),
            written_above: Vec::new(),
        }
    }

    /// Reads the standing text of a defaults document.
    pub fn of(defaults: &SourceDocument, marker: &Marker) -> (t: Self)
        ensures
            defaults is Empty ==> t.root.entries@.len() == 0 && t.read@.len() == 0,
            t.read@.len() == 0 ==> t.root.entries@.len() == 0,
            defaults matches SourceDocument::Content { trailing, .. } ==> exists|ls: Seq<PrefixLine>|
                classified(*marker, complete_lines(trailing@), ls) && t.read@.len() + t.unread@.len()
                    >= #[trigger] valid_blocks(blocks_of(runs_from(ls, *marker, 0)), ls.len() as int),
    {
        let mut template = Self::empty();
        let root = match defaults.root() {
            Some(root) => root,
            None => return template,
        };
        let mut section: Option<DottedPath> = None;
        template.walk(root, None, &mut section, marker);
        let prefix = Prefix::from_text(defaults.trailing());
        let (mut lines, mut touching) = prefix.split(marker);
        let ghost whole = lines@ + touching@;
        lines.append(&mut touching);
        assert(lines@ == whole);
        template.read_region(&lines, section.as_ref(), None, marker);
        proof {
            assert(classified(*marker, complete_lines(prefix.raw@), lines@));
            assert(valid_blocks(blocks_of(runs_from(lines@, *marker, 0)), lines@.len() as int) >= 0);
        }
        template
    }

    /// Walks the defaults in the order they are written, tracking which
    /// table's section the text between keys belongs to.
    fn walk(
        &mut self,
        table: &TableNode,
        within: Option<&DottedPath>,
        section: &mut Option<DottedPath>,
        marker: &Marker,
    )
        ensures
            forall|n: Seq<char>| has_name(old(self).root, n) ==> has_name(final(self).root, n),
            path_names(*final(section)) == match last_section(
                table.entries@,
                match within {
                    Some(p) => p@,
                    None => seq![],
                },
            ) {
                Some(p) => Some(p),
                None => path_names(*old(section)),
            },
            final(self).read@.len() >= old(self).read@.len(),
            final(self).read@.subrange(0, old(self).read@.len() as int) == old(self).read@,
            final(self).unread@.len() >= old(self).unread@.len(),
            final(self).unread@.subrange(0, old(self).unread@.len() as int) == old(self).unread@,
            final(self).read@.len() == old(self).read@.len() ==> final(self).root == old(self).root,
        decreases table,
    {
        let ghost es = table.entries@;
        let ghost w: Seq<Seq<char>> = match within {
            Some(p) => p@,
            None => seq![],
        };
        let ghost goal = match last_section(es, w) {
            Some(p) => Some(p),
            None => path_names(*old(section)),
        };
        let mut i: usize = 0;
        assert(es.subrange(0, es.len() as int) =~= es);
        assert(self.read@.subrange(0, self.read@.len() as int) =~= self.read@);
        assert(self.unread@.subrange(0, self.unread@.len() as int) =~= self.unread@);
        while i < table.entries.len()
            invariant
                forall|n: Seq<char>| has_name(old(self).root, n) ==> has_name(self.root, n),
                i <= es.len(),
                es == table.entries@,
                w == match within {
                    Some(p) => p@,
                    None => seq![],
                },
                goal == match last_section(es.subrange(i as int, es.len() as int), w) {
                    Some(p) => Some(p),
                    None => path_names(*section),
                },
                self.read@.len() >= old(self).read@.len(),
                self.read@.subrange(0, old(self).read@.len() as int) == old(self).read@,
                self.unread@.len() >= old(self).unread@.len(),
                self.unread@.subrange(0, old(self).unread@.len() as int) == old(self).unread@,
                self.read@.len() == old(self).read@.len() ==> self.root == old(self).root,
            decreases table.entries.len() - i,
        {
            let ghost now = es.subrange(i as int, es.len() as int);
            assert(now[0] == es[i as int]);
            assert(now.subrange(1, now.len() as int) =~= es.subrange(i + 1, es.len() as int));
            let ghost read0 = self.read@;
            let ghost unread0 = self.unread@;
            let entry = &table.entries[i];
            assert(decreases_to!(table => table.entries@[i as int]));
            let child = child_path(within, entry.key.name.as_str());
            // Text above a `[table]` header closes the section before it, so it
            // is read against the table it follows, not the one it precedes.
            let reading = match &entry.item {
                Node::Table(sub) => if !sub.dotted {
                    copy_path(section.as_ref())
                } else {
                    copy_path(within)
                },
                Node::Array(_) => copy_path(section.as_ref()),
                _ => copy_path(within),
            };
            let text = above(entry);
            let (floating, _) = Prefix::from_text(text.as_str()).split(marker);
            self.read_region(&floating, reading.as_ref(), Some(&child), marker);
            proof {
                lemma_grown_prefix(read0, self.read@, old(self).read@.len() as int);
                lemma_grown_prefix(unread0, self.unread@, old(self).unread@.len() as int);
            }
            let ghost read1 = self.read@;
            let ghost unread1 = self.unread@;
            let ghost sec0 = path_names(*section);
            proof {
                assert(child@ =~= w.push(entry.key.name@));
            }
            match &entry.item {
                Node::Table(sub) => {
                    assert(decreases_to!(table => sub));
                    if !sub.dotted {
                        *section = Some(child.duplicate());
                    }
                    self.walk(sub, Some(&child), section, marker);
                    proof {
                        lemma_grown_prefix(read1, self.read@, old(self).read@.len() as int);
                        lemma_grown_prefix(unread1, self.unread@, old(self).unread@.len() as int);
                        let inner = last_section(sub.entries@, child@);
                        let rest = last_section(es.subrange(i + 1, es.len() as int), w);
                        assert(now[0].item == Node::Table(*sub));
                        assert(last_section(now, w) == (if rest is Some {
                            rest
                        } else if inner is Some {
                            inner
                        } else if !sub.dotted {
                            Some(w.push(entry.key.name@))
                        } else {
                            None
                        }));
                    }
                },
                _ => {
                    proof {
                        let rest = last_section(es.subrange(i + 1, es.len() as int), w);
                        assert(!(now[0].item is Table));
                        assert(last_section(now, w) == rest);
                    }
                },
            }
            i = i + 1;
        }
        assert(es.subrange(i as int, es.len() as int) =~= Seq::<Entry>::empty());
    }

    /// Reads one stretch of standing text, block by block.
    ///
    /// Every block is recorded, as read or as left where it was written.
    ///
    /// A block opening a `[table]` header moves the section the blocks after
    /// it are read against, the way the header would in a file of its own.
    fn read_region(
        &mut self,
        lines: &[PrefixLine],
        within: Option<&DottedPath>,
        above: Option<&DottedPath>,
        marker: &Marker,
    )
        ensures
            forall|n: Seq<char>| has_name(old(self).root, n) ==> has_name(final(self).root, n),
            final(self).read@.len() + final(self).unread@.len() == old(self).read@.len()
                + old(self).unread@.len() + valid_blocks(
                blocks_of(runs_from(lines@, *marker, 0)),
                lines@.len() as int,
            ),
            final(self).read@.len() >= old(self).read@.len(),
            final(self).read@.subrange(0, old(self).read@.len() as int) == old(self).read@,
            final(self).unread@.len() >= old(self).unread@.len(),
            final(self).unread@.subrange(0, old(self).unread@.len() as int) == old(self).unread@,
            final(self).read@.len() == old(self).read@.len() ==> final(self).root == old(self).root,
    {
        let mut scaffold = copy_path(within);
        let ranges = blocks(lines, marker);
        let ghost bs = blocks_of(runs_from(lines@, *marker, 0));
        let mut i: usize = 0;
        assert(self.read@.subrange(0, self.read@.len() as int) =~= self.read@);
        assert(self.unread@.subrange(0, self.unread@.len() as int) =~= self.unread@);
        assert(bs.subrange(0, 0) =~= Seq::<(int, int)>::empty());
        while i < ranges.len()
            invariant
                forall|n: Seq<char>| has_name(old(self).root, n) ==> has_name(self.root, n),
                i <= ranges@.len(),
                ranges@.len() == bs.len(),
                forall|q: int| 0 <= q < ranges@.len() ==> ((#[trigger] ranges@[q]).0 as int, ranges@[q].1 as int) == bs[q],
                self.read@.len() + self.unread@.len() == old(self).read@.len() + old(self).unread@.len()
                    + valid_blocks(bs.subrange(0, i as int), lines@.len() as int),
                self.read@.len() >= old(self).read@.len(),
                self.read@.subrange(0, old(self).read@.len() as int) == old(self).read@,
                self.unread@.len() >= old(self).unread@.len(),
                self.unread@.subrange(0, old(self).unread@.len() as int) == old(self).unread@,
                self.read@.len() == old(self).read@.len() ==> self.root == old(self).root,
            decreases ranges.len() - i,
        {
            proof {
                assert(bs.subrange(0, i + 1).drop_last() =~= bs.subrange(0, i as int));
                assert(bs.subrange(0, i + 1).last() == bs[i as int]);
            }
            let ghost read0 = self.read@;
            let ghost unread0 = self.unread@;
            let (a, b) = ranges[i];
            if a <= b && b <= lines.len() {
                let block = copy_lines(lines, a, b);
                match header_of(&block, marker) {
                    Some(header) => {
                        scaffold = Some(header);
                    },
                    None => {},
                }
                let text = block_text(&block);
                if self.read_block(&block, scaffold.as_ref(), above, marker) {
                    self.read.push(text);
                    proof {
                        assert(self.read@.subrange(0, old(self).read@.len() as int) =~= read0.subrange(
                            0,
                            old(self).read@.len() as int,
                        ));
                    }
                } else {
                    self.unread.push(text);
                    proof {
                        assert(self.unread@.subrange(0, old(self).unread@.len() as int) =~= unread0.subrange(
                            0,
                            old(self).unread@.len() as int,
                        ));
                    }
                }
            }
            i = i + 1;
        }
        assert(bs.subrange(0, i as int) =~= bs);
    }

    /// Reads one block, answering whether it could be read at all.
    ///
    /// A block is left where it was written when it is not TOML, when it
    /// names a key another block has already named, or when it ends in prose
    /// that introduces no key. The first two are a defaults author showing
    /// two ways to fill in one table, which means both to be read, not merged.
    fn read_block(
        &mut self,
        block: &[PrefixLine],
        scaffold: Option<&DottedPath>,
        above: Option<&DottedPath>,
        marker: &Marker,
    ) -> (r: bool)
        ensures
            !r ==> final(self).root == old(self).root,
            r ==> forall|n: Seq<char>| has_name(old(self).root, n) ==> has_name(final(self).root, n),
            final(self).read == old(self).read,
            final(self).unread == old(self).unread,
            r ==> exists|i: int| 0 <= i < block@.len() && block@[i] is Sample,
            r ==> is_toml(block_source(*marker, block@, scaffold)),
            r ==> !prose_after(text_trailing(block_source(*marker, block@, scaffold))),
            r ==> forall|n: Seq<char>|
                text_keys(block_source(*marker, block@, scaffold)).contains(n) ==> has_name(final(self).root, n),
            ((exists|i: int| 0 <= i < block@.len() && block@[i] is Sample) && is_toml(
                block_source(*marker, block@, scaffold),
            ) && !prose_after(text_trailing(block_source(*marker, block@, scaffold))) && !names_clash(
                old(self).root,
                text_keys(block_source(*marker, block@, scaffold)),
            )) ==> r,
    {
        let mut any_sample = false;
        let mut i: usize = 0;
        while i < block.len()
            invariant
                i <= block@.len(),
                any_sample ==> exists|k: int| 0 <= k < block@.len() && block@[k] is Sample,
                !any_sample ==> forall|k: int| 0 <= k < i ==> !(block@[k] is Sample),
            decreases block.len() - i,
        {
            match &block[i] {
                PrefixLine::Sample { .. } => {
                    any_sample = true;
                },
                _ => {},
            }
            i = i + 1;
        }
        if !any_sample {
            return false;
        }
        let source = source_of(block, scaffold, marker);
        let document = match parse_editable(source.as_str()) {
            Ok(document) => document,
            Err(_) => return false,
        };
        // Prose introduces what follows it. Prose with nothing following it
        // introduces nothing, and reading the block would drop it, so the
        // block is left where it was written instead.
        match document_trailing(&document) {
            Some(text) => {
                let cs = chars_of(text.as_str());
                if !is_blank(&cs) {
                    return false;
                }
            },
            None => {},
        }
        let depth = if source.as_str().len() == 0 {
            1
        } else {
            source.as_str().len()
        };
        let parsed = table_node(document_root(&document), depth);
        let mut merged = self.root.duplicate();
        let ghost before = merged;
        assert(names(parsed) == text_keys(source@));
        if !graft(&mut merged, &parsed) {
            proof {
                let j = choose|j: int|
                    0 <= j < parsed.entries@.len() && (has_name(before, (#[trigger] parsed.entries@[j]).key.name@)
                        || exists|k: int| 0 <= k < j && parsed.entries@[k].key.name@ == parsed.entries@[j].key.name@);
                assert(text_keys(source@)[j] == parsed.entries@[j].key.name@);
                if !has_name(before, parsed.entries@[j].key.name@) {
                    let k = choose|k: int| 0 <= k < j && parsed.entries@[k].key.name@ == parsed.entries@[j].key.name@;
                    assert(text_keys(source@)[k] == parsed.entries@[k].key.name@);
                }
                assert(names_clash(self.root, text_keys(source@)));
            }
            return false;
        }
        proof {
            assert forall|n: Seq<char>| text_keys(source@).contains(n) implies has_name(merged, n) by {
                assert(has_name(parsed, n));
            }
        }
        self.root = merged;
        match above {
            Some(above) => {
                let mut paths: Vec<DottedPath> = Vec::new();
                collect_paths(&parsed, None, &mut paths);
                let mut j: usize = 0;
                while j < paths.len()
                    invariant
                        self.root == merged,
                        self.read == old(self).read,
                        self.unread == old(self).unread,
                    decreases paths.len() - j,
                {
                    if self.written_before(&paths[j]).is_none() {
                        self.written_above.push((paths[j].duplicate(), above.duplicate()));
                    }
                    j = j + 1;
                }
            },
            None => {},
        }
        true
    }

    /// The key an optional key was written above, if it was written above one.
    pub fn written_before(&self, path: &DottedPath) -> (r: Option<&DottedPath>)
        ensures
            r matches Some(above) ==> exists|i: int|
                0 <= i < self.written_above@.len() && self.written_above@[i].0@ == path@
                    && self.written_above@[i].1 == *above,
            r is None ==> forall|i: int|
                0 <= i < self.written_above@.len() ==> (#[trigger] self.written_above@[i]).0@
                    != path@,
    {
        let mut i: usize = 0;
        while i < self.written_above.len()
            invariant
                i <= self.written_above@.len(),
                forall|j: int|
                    0 <= j < i ==> (#[trigger] self.written_above@[j]).0@ != path@,
            decreases self.written_above.len() - i,
        {
            if self.written_above[i].0.same(path) {
                return Some(&self.written_above[i].1);
            }
            i = i + 1;
        }
        None
    }

    /// Whether the template names a key, so a person setting it is not being
    /// told about an option that does not exist.
    pub fn knows(&self, path: &DottedPath) -> (r: bool)
        ensures
            r == path_in(self.root, path@),
    {
        crate::model::reaches(&self.root, path)
    }

    /// The keys this template holds under a path, if any. Each of them is a
    /// key the template knows.
    pub fn under(&self, path: Option<&DottedPath>) -> (r: Option<&TableNode>)
        ensures
            path is None ==> r == Some(&self.root),
            r matches Some(t) ==> forall|n: Seq<char>|
                has_name(*t, n) ==> path_in(self.root, child_names(path, n)),
            r matches Some(t) ==> forall|n: Seq<char>|
                path_in(self.root, child_names(path, n)) ==> has_name(*t, n),
            r is None ==> forall|n: Seq<char>| !path_in(self.root, child_names(path, n)),
    {
        let p = match path {
            Some(p) => p,
            None => {
                proof {
                    assert forall|n: Seq<char>| has_name(self.root, n) implies path_in(
                        self.root,
                        child_names(None, n),
                    ) by {
                        lemma_named_is_reached(self.root, n);
                    }
                    assert forall|n: Seq<char>| path_in(self.root, child_names(None, n)) implies has_name(
                        self.root,
                        n,
                    ) by {
                        crate::model::lemma_first_from_found(self.root.entries@, n, 0);
                        let i = first_from(self.root.entries@, n, 0);
                        assert(names(self.root)[i] == n);
                    }
                }
                return Some(&self.root);
            },
        };
        let segments = p.segments();
        let ghost segs = p@;
        let mut table: &TableNode = &self.root;
        let mut k: usize = 0;
        proof {
            assert forall|rest: Seq<Seq<char>>| rest.len() > 0 implies path_in(
                self.root,
                segs.subrange(0, 0) + rest,
            ) == path_in(*table, rest) by {
                assert(segs.subrange(0, 0) + rest =~= rest);
            }
        }
        while k < segments.len()
            invariant
                k <= segments@.len(),
                views(segments@) == segs,
                segs == p@,
                path == Some(p),
                forall|rest: Seq<Seq<char>>|
                    rest.len() > 0 ==> path_in(self.root, segs.subrange(0, k as int) + rest)
                        == path_in(*table, rest),
            decreases segments.len() - k,
        {
            let ghost name = segs[k as int];
            assert(name == segments@[k as int]@);
            let at = match table.find(segments[k].as_str()) {
                Some(at) => at,
                None => {
                    proof {
                        assert forall|n: Seq<char>| !path_in(self.root, child_names(path, n)) by {
                            let rest = segs.subrange(k as int, segs.len() as int).push(n);
                            assert(segs.subrange(0, k as int) + rest =~= p@.push(n));
                            assert(rest[0] == name);
                            assert(path_in(self.root, segs.subrange(0, k as int) + rest) == path_in(*table, rest));
                            assert(first_from(table.entries@, rest[0], 0) == -1);
                        }
                    }
                    return None;
                },
            };
            let ghost before = *table;
            table = match &table.entries[at].item {
                Node::Table(sub) => sub,
                Node::Array(ts) => {
                    if ts.len() == 0 {
                        proof {
                            assert forall|n: Seq<char>| !path_in(self.root, child_names(path, n)) by {
                                let rest = segs.subrange(k as int, segs.len() as int).push(n);
                                assert(segs.subrange(0, k as int) + rest =~= p@.push(n));
                                assert(rest[0] == name);
                                assert(rest.len() > 1);
                                assert(path_in(self.root, segs.subrange(0, k as int) + rest) == path_in(*table, rest));
                                assert(first_from(table.entries@, rest[0], 0) == at);
                                assert(table.entries@[at as int].item == Node::Array(*ts));
                                assert(ts@.len() == 0);

                            }
                        }
                        return None;
                    }
                    &ts[0]
                },
                _ => {
                    proof {
                        assert forall|n: Seq<char>| !path_in(self.root, child_names(path, n)) by {
                            let rest = segs.subrange(k as int, segs.len() as int).push(n);
                            assert(segs.subrange(0, k as int) + rest =~= p@.push(n));
                            assert(rest[0] == name);
                            assert(rest.len() > 1);
                            assert(path_in(self.root, segs.subrange(0, k as int) + rest) == path_in(*table, rest));
                            assert(first_from(table.entries@, rest[0], 0) == at);
                        }
                    }
                    return None;
                },
            };
            proof {
                assert forall|rest: Seq<Seq<char>>| rest.len() > 0 implies path_in(
                    self.root,
                    segs.subrange(0, k + 1) + rest,
                ) == path_in(*table, rest) by {
                    let x = seq![name] + rest;
                    assert(segs.subrange(0, k + 1) + rest =~= segs.subrange(0, k as int) + x);
                    assert(x.drop_first() =~= rest);
                    assert(x[0] == name);
                    assert(path_in(self.root, segs.subrange(0, k as int) + x) == path_in(before, x));
                }
            }
            k = k + 1;
        }
        proof {
            assert forall|n: Seq<char>| has_name(*table, n) implies path_in(
                self.root,
                child_names(path, n),
            ) by {
                lemma_named_is_reached(*table, n);
                assert(segs.subrange(0, k as int) + seq![n] =~= p@.push(n));
            }
            assert forall|n: Seq<char>| path_in(self.root, child_names(path, n)) implies has_name(*table, n) by {
                assert(segs.subrange(0, k as int) + seq![n] =~= p@.push(n));
                assert(path_in(*table, seq![n]));
                crate::model::lemma_first_from_found(table.entries@, n, 0);
                let i = first_from(table.entries@, n, 0);
                assert(names(*table)[i] == n);
            }
        }
        Some(table)
    }
}

/// The path one name deeper than an optional one, as names.
pub open spec fn child_names(path: Option<&DottedPath>, n: Seq<char>) -> Seq<Seq<char>> {
    match path {
        Some(p) => p@.push(n),
        None => seq![n],
    }
}

/// A name a table has is reached in it.
pub proof fn lemma_named_is_reached(t: TableNode, n: Seq<char>)
    requires
        has_name(t, n),
    ensures
        path_in(t, seq![n]),
{
    let s = seq![n];
    assert(s[0] == n && s.len() == 1);
    crate::model::lemma_first_from_found(t.entries@, n, 0);
    if first_from(t.entries@, n, 0) == -1 {
        crate::model::lemma_first_from_none(t.entries@, n, 0);
        let k = names(t).index_of(n);
        assert(t.entries@[k].key.name@ == n);
    }
}

/// The line of source a block's line gives: a sample line undressed, a prose
/// line without its indentation, a blank line as it is; none for the
/// person's lines.
pub open spec fn source_line(m: Marker, line: PrefixLine) -> Option<Seq<char>> {
    match line {
        PrefixLine::Sample { text } => Some(undress_spec(m.prose@, m.sample@, text@)),
        PrefixLine::Prose { text } => Some(trim_start(text@)),
        PrefixLine::Blank { text } => Some(text@),
        PrefixLine::User { .. } => None,
    }
}

/// The lines of source a block gives, in order.
pub open spec fn source_lines(m: Marker, block: Seq<PrefixLine>) -> Seq<Seq<char>>
    decreases block.len(),
{
    if block.len() == 0 {
        seq![]
    } else {
        match source_line(m, block.last()) {
            Some(t) => source_lines(m, block.drop_last()).push(t),
            None => source_lines(m, block.drop_last()),
        }
    }
}

/// The header a block's source opens with: the section it sits in, where
/// it has one and the block opens no table of its own.
pub open spec fn source_head(m: Marker, block: Seq<PrefixLine>, scaffold: Option<&DottedPath>) -> Seq<char> {
    match scaffold {
        Some(p) => if header_from(m, block, 0) is None {
            seq!['['] + path_text(p@) + seq![']', '\n']
        } else {
            seq![]
        },
        None => seq![],
    }
}

/// The TOML text a block is read as: a header opening the section it sits
/// in, when it does not open one itself, then its sample lines.
pub open spec fn block_source(m: Marker, block: Seq<PrefixLine>, scaffold: Option<&DottedPath>) -> Seq<char> {
    source_head(m, block, scaffold) + terminated(source_lines(m, block))
}

/// Whether the text after a document's last item holds prose: anything but
/// blanks.
pub open spec fn prose_after(trailing: Option<Seq<char>>) -> bool {
    trailing matches Some(t) && !all_ws(t)
}

/// Whether names read from a block clash with one another or with a name a
/// table already holds.
pub open spec fn names_clash(t: TableNode, ns: Seq<Seq<char>>) -> bool {
    exists|j: int|
        0 <= j < ns.len() && (has_name(t, #[trigger] ns[j]) || exists|k: int| 0 <= k < j && ns[k] == ns[j])
}

/// The block's source as TOML: sample lines undressed, prose kept as the
/// comments they already are, under the header of the section it sits in so
/// a bare assignment lands where it was written.
pub(crate) fn source_of(block: &[PrefixLine], scaffold: Option<&DottedPath>, marker: &Marker) -> (r: String)
    ensures
        r@ == source_head(*marker, block@, scaffold) + terminated(source_lines(*marker, block@)),
{
    let mut source = String::new();
    match scaffold {
        Some(path) => {
            if header_of(block, marker).is_none() {
                push_char(&mut source, '[');
                source.append(path.to_string().as_str());
                push_char(&mut source, ']');
                push_char(&mut source, '\n');
            }
        },
        None => {},
    }
    assert(source@ =~= source_head(*marker, block@, scaffold));
    let ghost head = source@;
    let mut i: usize = 0;
    assert(block@.subrange(0, 0) =~= Seq::<PrefixLine>::empty());
    assert(source@ =~= head + terminated(source_lines(*marker, block@.subrange(0, 0))));
    while i < block.len()
        invariant
            i <= block@.len(),
            source@ == head + terminated(source_lines(*marker, block@.subrange(0, i as int))),
        decreases block.len() - i,
    {
        let ghost before = source_lines(*marker, block@.subrange(0, i as int));
        assert(block@.subrange(0, i + 1).drop_last() =~= block@.subrange(0, i as int));
        match &block[i] {
            PrefixLine::Sample { text } => {
                source.append(marker.undress(text.as_str()).as_str());
                push_char(&mut source, '\n');
            },
            PrefixLine::Prose { text } => {
                let cs = chars_of(text.as_str());
                let k = leading_ws(&cs);
                source.append(slice_string(&cs, k, cs.len()).as_str());
                push_char(&mut source, '\n');
            },
            PrefixLine::Blank { text } => {
                source.append(text.as_str());
                push_char(&mut source, '\n');
            },
            PrefixLine::User { .. } => {},
        }
        proof {
            match source_line(*marker, block@[i as int]) {
                Some(t) => {
                    crate::text::lemma_terminated_push(before, t);
                },
                None => {},
            }
        }
        i = i + 1;
    }
    assert(block@.subrange(0, i as int) =~= block@);
    source
}

/// Every key path a parsed block declares.
fn collect_paths(table: &TableNode, within: Option<&DottedPath>, out: &mut Vec<DottedPath>)
    ensures
        final(out)@.len() >= old(out)@.len(),
        final(out)@.subrange(0, old(out)@.len() as int) == old(out)@,
        forall|n: Seq<char>|
            has_name(*table, n) ==> exists|k: int|
                old(out)@.len() <= k < final(out)@.len() && (#[trigger] final(out)@[k])@ == child_names(
                    within,
                    n,
                ),
    decreases table,
{
    let mut i: usize = 0;
    let ghost mut at: Seq<int> = Seq::empty();
    assert(out@.subrange(0, out@.len() as int) =~= out@);
    while i < table.entries.len()
        invariant
            i <= table.entries@.len(),
            out@.len() >= old(out)@.len(),
            out@.subrange(0, old(out)@.len() as int) == old(out)@,
            at.len() == i,
            forall|j: int|
                0 <= j < i ==> old(out)@.len() <= #[trigger] at[j] < out@.len() && out@[at[j]]@
                    == child_names(within, table.entries@[j].key.name@),
        decreases table.entries.len() - i,
    {
        let entry = &table.entries[i];
        assert(decreases_to!(table => table.entries@[i as int]));
        let child = child_path(within, entry.key.name.as_str());
        let ghost before = out@;
        out.push(child.duplicate());
        proof {
            assert(out@.subrange(0, old(out)@.len() as int) =~= before.subrange(0, old(out)@.len() as int));
            at = at.push(before.len() as int);
        }
        let ghost mid = out@;
        assert(mid.subrange(0, mid.len() as int) =~= mid);
        match &entry.item {
            Node::Table(sub) => {
                assert(decreases_to!(table => sub));
                collect_paths(sub, Some(&child), out);
            },
            Node::Array(ts) => {
                let mut j: usize = 0;
                while j < ts.len()
                    invariant
                        i < table.entries@.len(),
                        table.entries@[i as int].item == Node::Array(*ts),
                        out@.len() >= mid.len(),
                        out@.subrange(0, mid.len() as int) == mid,
                    decreases ts.len() - j,
                {
                    assert(decreases_to!(table => table.entries));
                    assert(decreases_to!(table.entries => table.entries@));
                    assert(decreases_to!(table.entries@ => table.entries@[i as int]));
                    assert(decreases_to!(table.entries@[i as int] => table.entries@[i as int].item));
                    assert(decreases_to!(table.entries@[i as int].item => table.entries@[i as int].item->Array_0));
                    assert(decreases_to!(*ts => ts@));
                    assert(decreases_to!(ts@ => ts@[j as int]));
                    let ghost b = out@;
                    collect_paths(&ts[j], Some(&child), out);
                    proof {
                        lemma_grown_prefix(b, out@, mid.len() as int);
                    }
                    j = j + 1;
                }
            },
            _ => {
                assert(out@.subrange(0, mid.len() as int) =~= mid);
            },
        }
        proof {
            lemma_grown_prefix(mid, out@, old(out)@.len() as int);
            assert forall|j: int| 0 <= j < i + 1 implies old(out)@.len() <= #[trigger] at[j] < out@.len()
                && out@[at[j]]@ == child_names(within, table.entries@[j].key.name@) by {
                assert(out@.subrange(0, mid.len() as int)[at[j]] == out@[at[j]]);
            }
        }
        i = i + 1;
    }
    proof {
        assert forall|n: Seq<char>| has_name(*table, n) implies exists|k: int|
            old(out)@.len() <= k < out@.len() && (#[trigger] out@[k])@ == child_names(within, n) by {
            let j = names(*table).index_of(n);
            assert(table.entries@[j].key.name@ == n);
            assert(out@[at[j]]@ == child_names(within, n));
        }
    }
}

/// A list that grew at its end keeps its first entries.
proof fn lemma_grown_prefix<T>(a: Seq<T>, b: Seq<T>, n: int)
    requires
        0 <= n <= a.len() <= b.len(),
        b.subrange(0, a.len() as int) == a,
    ensures
        b.subrange(0, n) == a.subrange(0, n),
{
    assert(b.subrange(0, n) =~= b.subrange(0, a.len() as int).subrange(0, n));
}

/// Text with its leading white space left off.
fn without_indent(text: &str) -> (r: String)
    ensures
        r@ == trim_start(text@),
{
    let cs = chars_of(text);
    let k = leading_ws(&cs);
    slice_string(&cs, k, cs.len())
}

/// The text after `open` up to the first `close`, or to the end when there
/// is none, when `body` starts with `open`.
pub open spec fn header_inner(body: Seq<char>, open: Seq<char>, close: Seq<char>) -> Option<Seq<char>> {
    if !starts_with(body, open) {
        None
    } else {
        let rest = body.skip(open.len() as int);
        match find_from(rest, close, 0) {
            Some(e) => if 0 <= e <= rest.len() {
                Some(rest.take(e))
            } else {
                Some(rest)
            },
            None => Some(rest),
        }
    }
}

/// The key path a header line names: the text inside `[[..]]`, or else
/// inside `[..]`, read as a dotted key of at least one name.
pub open spec fn header_path(m: Marker, line: PrefixLine) -> Option<Seq<Seq<char>>> {
    let body = trim(undress_spec(m.prose@, m.sample@, line.text_view()));
    let inner = match header_inner(body, seq!['[', '['], seq![']', ']']) {
        Some(x) => Some(x),
        None => header_inner(body, seq!['['], seq![']']),
    };
    match inner {
        Some(t) => match key_path_names(t) {
            Some(ns) => if ns.len() > 0 {
                Some(ns)
            } else {
                None
            },
            None => None,
        },
        None => None,
    }
}

/// The key path of the first line from `i` on that opens a table, if that
/// line names one.
pub open spec fn header_from(m: Marker, block: Seq<PrefixLine>, i: int) -> Option<Seq<Seq<char>>>
    decreases block.len() - i,
{
    if i < 0 || i >= block.len() {
        None
    } else if opens_table_spec(m, block[i]) {
        header_path(m, block[i])
    } else {
        header_from(m, block, i + 1)
    }
}

fn header_body(body: &[char], open: &[char], close: &[char]) -> (r: Option<String>)
    ensures
        opt_text(r) == header_inner(body@, open@, close@),
{
    assert(body@.skip(0) =~= body@);
    if !crate::text::starts_with_at(body, 0, open) {
        return None;
    }
    if open.len() > body.len() {
        return None;
    }
    let rest = slice_string(body, open.len(), body.len());
    let rc = chars_of(rest.as_str());
    assert(rest@ =~= body@.skip(open@.len() as int));
    match crate::text::find_at(&rc, close, 0) {
        Some(e) => {
            if e <= rc.len() {
                assert(rc@.subrange(0, e as int) =~= rc@.take(e as int));
                Some(slice_string(&rc, 0, e))
            } else {
                Some(rest)
            }
        },
        None => Some(rest),
    }
}

/// The key path of the first `[table]` or `[[array]]` header in a block.
pub(crate) fn header_of(block: &[PrefixLine], marker: &Marker) -> (r: Option<DottedPath>)
    ensures
        match header_from(*marker, block@, 0) {
            Some(ns) => r matches Some(p) && p@ == ns,
            None => r is None,
        },
{
    let mut i: usize = 0;
    while i < block.len()
        invariant
            i <= block@.len(),
            header_from(*marker, block@, 0) == header_from(*marker, block@, i as int),
        decreases block.len() - i,
    {
        if opens_table(&block[i], marker) {
            let body = trimmed(marker.undress(block[i].text()).as_str());
            let cs = chars_of(body.as_str());
            let double_open: [char; 2] = ['[', '['];
            let double_close: [char; 2] = [']', ']'];
            let single_open: [char; 1] = ['['];
            let single_close: [char; 1] = [']'];
            assert(double_open@ =~= seq!['[', '[']);
            assert(double_close@ =~= seq![']', ']']);
            assert(single_open@ =~= seq!['[']);
            assert(single_close@ =~= seq![']']);
            let inner = match header_body(&cs, &double_open, &double_close) {
                Some(inner) => Some(inner),
                None => header_body(&cs, &single_open, &single_close),
            };
            return match inner {
                Some(inner) => match DottedPath::parse(inner.as_str()) {
                    Ok(path) => Some(path),
                    Err(_) => None,
                },
                None => None,
            };
        }
        i = i + 1;
    }
    None
}

/// Adds one block's keys to the template, answering whether they all fit.
///
/// Tables combine; anything already holding a value does not.
pub(crate) fn graft(into: &mut TableNode, from: &TableNode) -> (r: bool)
    ensures
        r ==> forall|name: Seq<char>| has_name(*old(into), name) ==> has_name(*final(into), name),
        r ==> forall|name: Seq<char>| has_name(*from, name) ==> has_name(*final(into), name),
        !r ==> exists|j: int|
            0 <= j < from.entries@.len() && (has_name(*old(into), (#[trigger] from.entries@[j]).key.name@)
                || exists|k: int| 0 <= k < j && from.entries@[k].key.name@ == from.entries@[j].key.name@),
    decreases from,
{
    let mut i: usize = 0;
    while i < from.entries.len()
        invariant
            i <= from.entries@.len(),
            forall|name: Seq<char>| has_name(*old(into), name) ==> has_name(*into, name),
            forall|name: Seq<char>|
                has_name(*into, name) ==> has_name(*old(into), name) || exists|k: int|
                    0 <= k < i && (#[trigger] from.entries@[k]).key.name@ == name,
            forall|j: int| 0 <= j < i ==> has_name(*into, (#[trigger] from.entries@[j]).key.name@),
        decreases from.entries.len() - i,
    {
        let entry = &from.entries[i];
        assert(decreases_to!(from => from.entries@[i as int]));
        let ghost before = *into;
        match into.find(entry.key.name.as_str()) {
            None => {
                into.push(entry.duplicate());
                proof {
                    assert forall|name: Seq<char>| has_name(before, name) implies has_name(*into, name) by {
                        let k = names(before).index_of(name);
                        assert(names(*into)[k] == name);
                    }
                    assert(names(*into)[names(before).len() as int] == entry.key.name@);
                    assert(names(*into) =~= names(before).push(entry.key.name@));
                    assert forall|name: Seq<char>| has_name(*into, name) implies has_name(*old(into), name)
                        || exists|k: int| 0 <= k < i + 1 && (#[trigger] from.entries@[k]).key.name@ == name by {
                        if name != entry.key.name@ {
                            let k = names(*into).index_of(name);
                            assert(names(before)[k] == name);
                        }
                    }
                    assert forall|j: int| 0 <= j < i + 1 implies has_name(*into, (#[trigger] from.entries@[j]).key.name@) by {
                        if j < i {
                            let k = names(before).index_of(from.entries@[j].key.name@);
                            assert(names(*into)[k] == from.entries@[j].key.name@);
                        }
                    }
                }
            },
            Some(at) => {
                let mut there = into.entries.remove(at);
                let ok = match (&mut there.item, &entry.item) {
                    (Node::Table(t), Node::Table(here)) => {
                        assert(decreases_to!(from => here));
                        graft(t, here)
                    },
                    (Node::Array(ts), Node::Table(here)) => {
                        assert(decreases_to!(from => here));
                        if ts.len() == 0 {
                            false
                        } else {
                            let mut first = ts.remove(0);
                            let ok = graft(&mut first, here);
                            ts.insert(0, first);
                            ok
                        }
                    },
                    (Node::Array(ts), Node::Array(here)) => {
                        let mut j: usize = 0;
                        while j < here.len()
                            decreases here.len() - j,
                        {
                            ts.push(here[j].duplicate());
                            j = j + 1;
                        }
                        true
                    },
                    _ => false,
                };
                let ghost name = there.key.name@;
                into.entries.insert(at, there);
                if !ok {
                    proof {
                        assert(names(before)[at as int] == entry.key.name@);
                        assert(has_name(before, from.entries@[i as int].key.name@));
                    }
                    return false;
                }
                proof {
                    assert(names(*into) =~= names(before).update(at as int, name));
                    assert(names(before)[at as int] == name);
                    assert(names(*into) =~= names(before));
                    assert forall|nm: Seq<char>| has_name(before, nm) implies has_name(*into, nm) by {
                        let k = names(before).index_of(nm);
                        assert(names(*into)[k] == nm);
                    }
                    assert forall|j: int| 0 <= j < i + 1 implies has_name(*into, (#[trigger] from.entries@[j]).key.name@) by {
                        if j < i {
                            let k = names(before).index_of(from.entries@[j].key.name@);
                            assert(names(*into)[k] == from.entries@[j].key.name@);
                        } else {
                            assert(names(*into)[at as int] == from.entries@[j].key.name@);
                        }
                    }
                }
            },
        }
        i = i + 1;
    }
    proof {
        assert forall|name: Seq<char>| has_name(*from, name) implies has_name(*into, name) by {
            let k = names(*from).index_of(name);
            assert(from.entries@[k].key.name@ == name);
        }
    }
    true
}

/// Text above a header with a blank line put above it: nothing where it is
/// only white space, as it is where it opens with a line of its own, and
/// moved down one line otherwise.
pub open spec fn space_spec(prefix: Option<Seq<char>>) -> Option<Seq<char>> {
    match prefix {
        None => None,
        Some(p) => if all_ws(p) {
            None
        } else if p.len() > 0 && p[0] == '\n' {
            Some(p)
        } else {
            Some(seq!['\n'] + p)
        },
    }
}

/// Puts a blank line above a header the way a person writing it by hand
/// would: text that is only white space gives way to the renderer's own blank
/// line, and text that does not start a line of its own is moved down one.
pub(crate) fn space(prefix: &Option<String>) -> (r: Option<String>)
    ensures
        opt_text(r) == space_spec(opt_text(*prefix)),
{
    match prefix {
        None => None,
        Some(p) => {
            let cs = chars_of(p.as_str());
            if is_blank(&cs) {
                None
            } else if cs.len() > 0 && cs[0] == '\n' {
                Some(p.clone())
            } else {
                let mut out = String::new();
                push_char(&mut out, '\n');
                out.append(p.as_str());
                Some(out)
            }
        },
    }
}

/// A table kept as it was but for the text above its header.
pub open spec fn same_but_above(a: TableNode, b: TableNode) -> bool {
    &&& b.dotted == a.dotted
    &&& b.implicit == a.implicit
    &&& opt_text(b.suffix) == opt_text(a.suffix)
    &&& names(b) == names(a)
    &&& b.entries@.len() == a.entries@.len()
}

/// An entry of a spaced table: the same key and kind of item, a value kept,
/// and each table under it, of its own or in an array, with a blank line
/// put above its header.
pub open spec fn spaced_entry(a: Entry, b: Entry) -> bool {
    &&& b.key.name@ == a.key.name@
    &&& node_type(b.item) == node_type(a.item)
    &&& (a.item matches Node::Value(v) ==> b.item matches Node::Value(w) && w.text@ == v.text@
        && w.kind == v.kind)
    &&& (a.item matches Node::Table(t) ==> b.item matches Node::Table(o) && same_but_above(t, o)
        && opt_text(o.prefix) == space_spec(opt_text(t.prefix)))
    &&& (a.item matches Node::Array(ts) ==> b.item matches Node::Array(os) && os@.len() == ts@.len()
        && forall|j: int|
        0 <= j < ts@.len() ==> same_but_above(ts@[j], #[trigger] os@[j]) && opt_text(os@[j].prefix)
            == space_spec(opt_text(ts@[j].prefix)))
}

/// A table with a blank line put above every table nested in it.
fn spaced_table(table: &TableNode) -> (r: TableNode)
    ensures
        same_but_above(*table, r),
        opt_text(r.prefix) == opt_text(table.prefix),
        forall|i: int| 0 <= i < r.entries@.len() ==> spaced_entry(table.entries@[i], #[trigger] r.entries@[i]),
    decreases table,
{
    let mut out = TableNode {
        dotted: table.dotted,
        implicit: table.implicit,
        prefix: copy_text(&table.prefix),
        suffix: copy_text(&table.suffix),
        entries: Vec::new(),
    };
    let mut i: usize = 0;
    while i < table.entries.len()
        invariant
            i <= table.entries@.len(),
            out.dotted == table.dotted,
            out.implicit == table.implicit,
            opt_text(out.prefix) == opt_text(table.prefix),
            opt_text(out.suffix) == opt_text(table.suffix),
            out.entries@.len() == i,
            forall|k: int| 0 <= k < i ==> spaced_entry(table.entries@[k], #[trigger] out.entries@[k]),
        decreases table.entries.len() - i,
    {
        let entry = &table.entries[i];
        assert(decreases_to!(table => table.entries@[i as int]));
        let item = match &entry.item {
            Node::Value(v) => Node::Value(v.duplicate()),
            Node::Table(sub) => {
                assert(decreases_to!(table => sub));
                let mut t = spaced_table(sub);
                t.prefix = space(&t.prefix);
                Node::Table(t)
            },
            Node::Array(ts) => {
                let mut out_ts: Vec<TableNode> = Vec::new();
                let mut j: usize = 0;
                while j < ts.len()
                    invariant
                        i < table.entries@.len(),
                        table.entries@[i as int].item == Node::Array(*ts),
                        j <= ts@.len(),
                        out_ts@.len() == j,
                        forall|q: int|
                            0 <= q < j ==> same_but_above(ts@[q], #[trigger] out_ts@[q]) && opt_text(
                                out_ts@[q].prefix,
                            ) == space_spec(opt_text(ts@[q].prefix)),
                    decreases ts.len() - j,
                {
                    assert(decreases_to!(table => table.entries));
                    assert(decreases_to!(table.entries => table.entries@));
                    assert(decreases_to!(table.entries@ => table.entries@[i as int]));
                    assert(decreases_to!(table.entries@[i as int] => table.entries@[i as int].item));
                    assert(decreases_to!(table.entries@[i as int].item => table.entries@[i as int].item->Array_0));
                    assert(decreases_to!(*ts => ts@));
                    assert(decreases_to!(ts@ => ts@[j as int]));
                    let mut t = spaced_table(&ts[j]);
                    t.prefix = space(&t.prefix);
                    out_ts.push(t);
                    j = j + 1;
                }
                Node::Array(out_ts)
            },
        };
        out.entries.push(Entry { key: entry.key.duplicate(), item });
        i = i + 1;
    }
    proof {
        assert(names(out) =~= names(*table));
    }
    out
}

/// An item with a blank line put above every table nested in it. An array of
/// tables opens a header for every entry after the first, so those are set
/// apart too.
pub(crate) fn spaced(item: &Node) -> (r: Node)
    ensures
        node_type(r) == node_type(*item),
        item matches Node::Value(v) ==> r matches Node::Value(w) && w.text@ == v.text@ && w.kind == v.kind
            && value_rendering(w.raw) == value_rendering(v.raw),
        item matches Node::Table(t) ==> r matches Node::Table(o) && same_but_above(*t, o) && opt_text(
            o.prefix,
        ) == opt_text(t.prefix) && forall|i: int|
            0 <= i < o.entries@.len() ==> spaced_entry(t.entries@[i], #[trigger] o.entries@[i]),
        item matches Node::Array(ts) ==> r matches Node::Array(os) && os@.len() == ts@.len() && forall|j: int|
            0 <= j < ts@.len() ==> same_but_above(ts@[j], #[trigger] os@[j]) && opt_text(os@[j].prefix)
                == (if j == 0 {
                opt_text(ts@[j].prefix)
            } else {
                space_spec(opt_text(ts@[j].prefix))
            }),
{
    match item {
        Node::Value(v) => Node::Value(v.duplicate()),
        Node::Table(t) => Node::Table(spaced_table(t)),
        Node::Array(ts) => {
            let mut out: Vec<TableNode> = Vec::new();
            let mut j: usize = 0;
            while j < ts.len()
                invariant
                    j <= ts@.len(),
                    out@.len() == j,
                    forall|q: int|
                        0 <= q < j ==> same_but_above(ts@[q], #[trigger] out@[q]) && opt_text(out@[q].prefix)
                            == (if q == 0 {
                            opt_text(ts@[q].prefix)
                        } else {
                            space_spec(opt_text(ts@[q].prefix))
                        }),
                decreases ts.len() - j,
            {
                let mut t = spaced_table(&ts[j]);
                if j > 0 {
                    t.prefix = space(&t.prefix);
                }
                out.push(t);
                j = j + 1;
            }
            Node::Array(out)
        },
    }
}

/// The lines of a text: each line a `\n` ends, and the text after the last
/// `\n` when there is any.
pub open spec fn all_lines(s: Seq<char>) -> Seq<Seq<char>> {
    let tail = after_last_newline(s);
    if tail.len() > 0 {
        complete_lines(s).push(tail)
    } else {
        complete_lines(s)
    }
}

/// The lines of a text, as [`all_lines`] reads them.
pub fn text_lines(text: &str) -> (r: Vec<String>)
    ensures
        views(r@) == all_lines(text@),
{
    let cs = chars_of(text);
    let mut out: Vec<String> = Vec::new();
    let mut start: usize = 0;
    let mut i: usize = 0;
    assert(cs@.skip(0) =~= cs@);
    assert(cs@.subrange(0, 0) =~= Seq::<char>::empty());
    while i < cs.len()
        invariant
            start <= i <= cs@.len(),
            cs@ == text@,
            complete_lines(cs@) == views(out@) + lines_from(
                cs@.skip(i as int),
                cs@.subrange(start as int, i as int),
            ),
            tail_from(cs@, seq![]) == tail_from(
                cs@.skip(i as int),
                cs@.subrange(start as int, i as int),
            ),
        decreases cs.len() - i,
    {
        proof {
            lemma_line_step(cs@, start as int, i as int);
        }
        if cs[i] == '\n' {
            let piece = slice_string(&cs, start, i);
            let ghost before = out@;
            out.push(piece);
            proof {
                crate::text::lemma_views_push(before, piece);
            }
            assert(views(out@) =~= views(before) + seq![cs@.subrange(start as int, i as int)]);
            start = i + 1;
        }
        i = i + 1;
    }
    assert(cs@.skip(i as int) =~= Seq::<char>::empty());
    assert(complete_lines(cs@) =~= views(out@));
    let ghost lines = out@;
    if start < cs.len() {
        let piece = slice_string(&cs, start, cs.len());
        out.push(piece);
        proof {
            crate::text::lemma_views_push(lines, piece);
        }
    }
    out
}

proof fn lemma_line_step(s: Seq<char>, start: int, i: int)
    requires
        0 <= start <= i < s.len(),
    ensures
        s[i] == '\n' ==> lines_from(s.skip(i), s.subrange(start, i)) == seq![
            s.subrange(start, i),
        ] + lines_from(s.skip(i + 1), s.subrange(i + 1, i + 1)),
        s[i] != '\n' ==> lines_from(s.skip(i), s.subrange(start, i)) == lines_from(
            s.skip(i + 1),
            s.subrange(start, i + 1),
        ),
        s[i] == '\n' ==> tail_from(s.skip(i), s.subrange(start, i)) == tail_from(
            s.skip(i + 1),
            s.subrange(i + 1, i + 1),
        ),
        s[i] != '\n' ==> tail_from(s.skip(i), s.subrange(start, i)) == tail_from(
            s.skip(i + 1),
            s.subrange(start, i + 1),
        ),
{
    assert(s.skip(i).drop_first() =~= s.skip(i + 1));
    assert(s.subrange(start, i).push(s[i]) =~= s.subrange(start, i + 1));
    assert(s.subrange(i + 1, i + 1) =~= Seq::<char>::empty());
}

/// One key of the template written back as the sample lines it came from.
///
/// A table comes with its header, because that is how a person would write
/// it. A bare assignment does not: it is written where the table it belongs
/// to is already open. The prose sitting above the key in the template comes
/// with it either way.
pub(crate) fn comment_out(path: &DottedPath, key: &KeyNode, item: &Node, marker: &Marker) -> (r: Vec<
    String,
>)
    ensures
        forall|i: int|
            0 <= i < r@.len() ==> (#[trigger] r@[i])@.len() == 0 || marker.owns_spec(r@[i]@)
                || starts_with(r@[i]@, marker.sample@),
        exists|d: DocumentMut|
            r@.len() == #[trigger] all_lines(rendering(d)).len() && (forall|i: int|
                0 <= i < r@.len() ==> (#[trigger] r@[i])@ == dressed(*marker, all_lines(rendering(d))[i]))
                && document_keys(d) == seq![written_first(path@, *key, *item)] && (item matches Node::Value(
                v,
            ) ==> item_value_of(table_item_of(document_table(d), key_text_of(key.raw))) matches Some(w)
                && value_rendering(w) == value_rendering(v.raw)),
{
    let segments: Vec<String> = match item {
        Node::Value(_) => Vec::new(),
        _ => path.segments(),
    };
    let mut entry = Entry { key: key.duplicate(), item: spaced(item) };
    let mut k: usize = segments.len();
    if k > 0 {
        k = k - 1;
    }
    let ghost start = k;
    while k > 0
        invariant
            k <= start,
            start < segments@.len() || start == 0,
            k == start ==> key_text_of(entry.key.raw) == key_text_of(key.raw),
            k == start && item is Value ==> (entry.item matches Node::Value(w) && value_rendering(w.raw)
                == value_rendering(item->Value_0.raw)),
            k < start ==> key_text_of(entry.key.raw) == segments@[k as int]@,
        decreases k,
    {
        k = k - 1;
        let mut holder = TableNode::empty();
        holder.implicit = true;
        holder.entries.push(entry);
        entry = Entry { key: named_key(segments[k].as_str()), item: Node::Table(holder) };
    }
    let ghost top = entry;
    let mut root = TableNode::empty();
    root.entries.push(entry);
    let mut next: isize = 0;
    let table = table_out(&root, &mut next);
    let mut document = document_new();
    document_set_root(&mut document, table);
    proof {
        assert(root.entries@ =~= seq![top]);
        assert(raw_names(root.entries@) =~= seq![key_text_of(top.key.raw)]);
        assert(seq![key_text_of(top.key.raw)].drop_last() =~= Seq::<Seq<char>>::empty());
        assert(first_names(Seq::<Seq<char>>::empty()) =~= Seq::<Seq<char>>::empty());
        assert(first_names(seq![key_text_of(top.key.raw)]) =~= seq![key_text_of(top.key.raw)]);
        if item is Value {
            assert(segments@.len() == 0);
        } else if path@.len() > 1 {
            assert(views(segments@)[0] == segments@[0]@);
        }
        assert(key_text_of(top.key.raw) == written_first(path@, *key, *item));
        assert(holds_value_of(table, root.entries@, 0));
    }
    let text = document_text(&document);
    let lines = text_lines(text.as_str());
    let mut out: Vec<String> = Vec::new();
    let mut i: usize = 0;
    while i < lines.len()
        invariant
            forall|k: int|
                0 <= k < out@.len() ==> (#[trigger] out@[k])@.len() == 0 || marker.owns_spec(
                    out@[k]@,
                ) || starts_with(out@[k]@, marker.sample@),
            i <= lines@.len(),
            out@.len() == i,
            views(lines@) == all_lines(text@),
            forall|k: int| 0 <= k < i ==> (#[trigger] out@[k])@ == dressed(*marker, lines@[k]@),
        decreases lines.len() - i,
    {
        let line = &lines[i];
        let cs = chars_of(line.as_str());
        if marker.owns(line.as_str()) || cs.len() == 0 {
            out.push(line.clone());
        } else if is_blank(&cs) {
            let bare = marker.sample().to_owned();
            assert(bare@.subrange(0, marker.sample@.len() as int) =~= marker.sample@);
            out.push(bare);
        } else {
            let mut dressed = marker.sample().to_owned();
            push_char(&mut dressed, ' ');
            dressed.append(line.as_str());
            assert(dressed@.subrange(0, marker.sample@.len() as int) =~= marker.sample@);
            out.push(dressed);
        }
        i = i + 1;
    }
    proof {
        assert forall|k: int| 0 <= k < out@.len() implies (#[trigger] out@[k])@ == dressed(
            *marker,
            all_lines(text@)[k],
        ) by {
            assert(views(lines@)[k] == lines@[k]@);
        }
        assert(out@.len() == all_lines(text@).len());
        assert(text@ == rendering(document));
    }
    out
}

/// The name the first key of a commented-out entry holds: the first name
/// of its path where a table is written under a path of several names, the
/// key's own otherwise.
pub open spec fn written_first(path: Seq<Seq<char>>, key: KeyNode, item: Node) -> Seq<char> {
    if !(item is Value) && path.len() > 1 {
        path[0]
    } else {
        key_text_of(key.raw)
    }
}

/// A line of rendered TOML written as a sample line: a line the marker
/// already owns, or an empty one, as it is; a blank one as the bare marker;
/// any other after the marker and a space.
pub open spec fn dressed(m: Marker, line: Seq<char>) -> Seq<char> {
    if m.owns_spec(line) || line.len() == 0 {
        line
    } else if all_ws(line) {
        m.sample@
    } else {
        m.sample@ + seq![' '] + line
    }
}

} // verus!
