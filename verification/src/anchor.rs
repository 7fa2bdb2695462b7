//! What a run of sample lines says it documents.
//!
//! A sample line is TOML text, so it names a key. That name is an anchor: it
//! ties a block of documentation to an option even when the defaults ship no
//! live value for it, and it says where the block belongs once the person
//! declares that option for real.

use vstd::prelude::*;

use crate::decor::{Marker, PrefixLine, undress_spec};
use crate::path::DottedPath;
use crate::text::{all_ws, chars_of, find_at, find_from, is_blank, slice_string, starts_with,
    starts_with_at, trim, trimmed};
use crate::toml::key_path_names;

verus! {

/// The key a block of documentation is about.
#[derive(Debug, PartialEq, Eq)]
pub struct Anchor {
    /// The key the sample lines declare.
    pub path: DottedPath,
    /// Whether the sample opened a `[table]` header, which names a key from the
    /// root, as against a bare assignment naming one in the table it sits in.
    pub absolute: bool,
}

/// The text between `open` and the first `close` after it, when `body`
/// starts with `open`.
pub open spec fn strip_header_spec(body: Seq<char>, open: Seq<char>, close: Seq<char>) -> Option<
    Seq<char>,
> {
    if starts_with(body, open) {
        let rest = body.skip(open.len() as int);
        match find_from(rest, close, 0) {
            Some(e) => Some(rest.subrange(0, e)),
            None => None,
        }
    } else {
        None
    }
}

/// The trimmed TOML text of the first sample line from `i` on whose text is
/// not blank.
pub open spec fn first_sample_body(lines: Seq<PrefixLine>, m: Marker, i: int) -> Option<Seq<char>>
    decreases lines.len() - i,
{
    if i < 0 || i >= lines.len() {
        None
    } else {
        match lines[i] {
            PrefixLine::Sample { text } => {
                let body = undress_spec(m.prose@, m.sample@, text@);
                if all_ws(body) {
                    first_sample_body(lines, m, i + 1)
                } else {
                    Some(trim(body))
                }
            },
            _ => first_sample_body(lines, m, i + 1),
        }
    }
}

/// The path inside a header line, `[[...]]` tried before `[...]`.
pub open spec fn header_inner(body: Seq<char>) -> Option<Seq<char>> {
    match strip_header_spec(body, seq!['[', '['], seq![']', ']']) {
        Some(inner) => Some(inner),
        None => strip_header_spec(body, seq!['['], seq![']']),
    }
}

/// The key a block names, and whether it names it from the root.
pub open spec fn anchor_spec(lines: Seq<PrefixLine>, m: Marker) -> Option<(Seq<Seq<char>>, bool)> {
    match first_sample_body(lines, m, 0) {
        None => None,
        Some(body) => match header_inner(body) {
            Some(inner) => match key_path_names(inner) {
                Some(names) => if names.len() > 0 {
                    Some((names, true))
                } else {
                    None
                },
                None => None,
            },
            None => match find_from(body, seq!['='], 0) {
                Some(e) => match key_path_names(trim(body.subrange(0, e))) {
                    Some(names) => if names.len() > 0 {
                        Some((names, false))
                    } else {
                        None
                    },
                    None => None,
                },
                None => None,
            },
        },
    }
}

/// The key path inside a `[table]` or `[[array]]` header, with any trailing
/// comment left off.
pub fn strip_header(body: &str, open: &str, close: &str) -> (r: Option<String>)
    ensures
        r matches Some(s) ==> strip_header_spec(body@, open@, close@) == Some(s@),
        r is None ==> strip_header_spec(body@, open@, close@) is None,
{
    let cs = chars_of(body);
    let o = chars_of(open);
    let c = chars_of(close);
    if !starts_with_at(&cs, 0, &o) {
        assert(cs@.skip(0) =~= cs@);
        return None;
    }
    assert(cs@.skip(0) =~= cs@);
    let from = o.len();
    let rest = slice_string(&cs, from, cs.len());
    let rs = chars_of(rest.as_str());
    assert(rs@ =~= body@.skip(open@.len() as int));
    match find_at(&rs, &c, 0) {
        Some(e) => {
            proof {
                lemma_find_bound(rs@, c@, 0);
            }
            Some(slice_string(&rs, 0, e))
        },
        None => None,
    }
}

proof fn lemma_find_bound(s: Seq<char>, p: Seq<char>, from: int)
    ensures
        find_from(s, p, from) matches Some(i) ==> from <= i && i + p.len() <= s.len(),
    decreases s.len() - from,
{
    if from >= 0 && from < s.len() && from + p.len() <= s.len() && s.subrange(from, from + p.len()) != p {
        lemma_find_bound(s, p, from + 1);
    }
    if from >= 0 && from + p.len() <= s.len() && p.len() == 0 {
        assert(s.subrange(from, from + p.len()) =~= p);
    }
}

/// Whether a sample line's text opens a table header: it starts with `[`
/// and a `]` comes somewhere after it.
pub open spec fn opens_header(b: Seq<char>) -> bool {
    b.len() > 0 && b[0] == '[' && exists|k: int| 1 <= k < b.len() && b[k] == ']'
}

/// Where a search finds a pattern, the pattern is there.
proof fn lemma_found_is_there(s: Seq<char>, p: Seq<char>, from: int)
    ensures
        find_from(s, p, from) matches Some(i) ==> 0 <= from <= i && i + p.len() <= s.len() && s.subrange(
            i,
            i + p.len(),
        ) == p,
    decreases s.len() - from,
{
    if from >= 0 && from + p.len() <= s.len() && s.subrange(from, from + p.len()) != p && from < s.len() {
        lemma_found_is_there(s, p, from + 1);
    }
}

/// A character that occurs from `from` on is found by a search for it.
proof fn lemma_char_found(s: Seq<char>, c: char, from: int, at: int)
    requires
        0 <= from <= at < s.len(),
        s[at] == c,
    ensures
        find_from(s, seq![c], from) is Some,
    decreases at - from,
{
    if s.subrange(from, from + 1) != seq![c] {
        if from == at {
            assert(s.subrange(from, from + 1) =~= seq![c]);
        }
        lemma_char_found(s, c, from + 1, at);
    }
}

/// A block anchors from the root exactly when its first sample line opens a
/// header, `[table]` and `[[array]]` alike; a block whose first sample line
/// is an assignment names its key in the table it sits in.
pub proof fn law_a_header_anchors_from_the_root(lines: Seq<PrefixLine>, m: Marker)
    ensures
        anchor_spec(lines, m) matches Some((names, abs)) ==> (first_sample_body(lines, m, 0) matches Some(
            b,
        ) && abs == opens_header(b)),
{
    if let Some(b) = first_sample_body(lines, m, 0) {
        let two = strip_header_spec(b, seq!['[', '['], seq![']', ']']);
        let one = strip_header_spec(b, seq!['['], seq![']']);
        if starts_with(b, seq!['[', '[']) {
            let rest = b.skip(2);
            lemma_found_is_there(rest, seq![']', ']'], 0);
            if let Some(e) = find_from(rest, seq![']', ']'], 0) {
                assert(b[0] == seq!['[', '['][0]);
                assert(rest.subrange(e, e + 2)[0] == ']');
                assert(b[2 + e] == ']');
            }
        }
        if starts_with(b, seq!['[']) {
            let rest = b.skip(1);
            lemma_found_is_there(rest, seq![']'], 0);
            if let Some(e) = find_from(rest, seq![']'], 0) {
                assert(b[0] == seq!['['][0]);
                assert(rest.subrange(e, e + 1)[0] == ']');
                assert(b[1 + e] == ']');
            }
        }
        if opens_header(b) {
            let k = choose|k: int| 1 <= k < b.len() && b[k] == ']';
            assert(b.subrange(0, 1) =~= seq!['[']);
            let rest = b.skip(1);
            assert(rest[k - 1] == ']');
            lemma_char_found(rest, ']', 0, k - 1);
        }
    }
}

impl Anchor {
    /// Reads the first sample line of a block and takes the key it names.
    ///
    /// The first line is what the block is about: `[[accounts]]` opens a
    /// template for `accounts`, `editor = "kak"` is the sample for `editor`.
    /// Only that line is read, so a block going on to show several variants
    /// of the same table, or a value spanning several lines, still anchors. A
    /// block with no sample lines is prose, and anchors nothing.
    pub fn of(lines: &[PrefixLine], marker: &Marker) -> (r: Option<Self>)
        ensures
            r matches Some(a) ==> anchor_spec(lines@, *marker) == Some((a.path@, a.absolute)),
            r is None ==> anchor_spec(lines@, *marker) is None,
            r matches Some(a) ==> (first_sample_body(lines@, *marker, 0) matches Some(b) && a.absolute
                == opens_header(b)),
    {
        proof {
            law_a_header_anchors_from_the_root(lines@, *marker);
        }
        let mut i: usize = 0;
        let mut found: Option<String> = None;
        while i < lines.len() && found.is_none()
            invariant
                i <= lines@.len(),
                found is None ==> first_sample_body(lines@, *marker, 0) == first_sample_body(
                    lines@,
                    *marker,
                    i as int,
                ),
                found matches Some(b) ==> first_sample_body(lines@, *marker, 0) == Some(b@),
            decreases lines.len() - i,
        {
            match &lines[i] {
                PrefixLine::Sample { text } => {
                    let body = marker.undress(text.as_str());
                    let bc = chars_of(body.as_str());
                    if !is_blank(&bc) {
                        let t = trimmed(body.as_str());
                        assert(first_sample_body(lines@, *marker, i as int) == Some(t@));
                        found = Some(t);
                    }
                },
                _ => {},
            }
            i = i + 1;
        }
        let body = match found {
            Some(b) => b,
            None => {
                assert(first_sample_body(lines@, *marker, i as int) is None);
                return None;
            },
        };
        let inner = match strip_header(body.as_str(), "[[", "]]") {
            Some(inner) => Some(inner),
            None => strip_header(body.as_str(), "[", "]"),
        };
        proof {
            reveal_strlit("[[");
            reveal_strlit("]]");
            reveal_strlit("[");
            reveal_strlit("]");
            assert("[["@ =~= seq!['[', '[']);
            assert("]]"@ =~= seq![']', ']']);
            assert("["@ =~= seq!['[']);
            assert("]"@ =~= seq![']']);
        }
        match inner {
            Some(inner) => {
                match DottedPath::parse(inner.as_str()) {
                    Ok(path) => Some(Anchor { path, absolute: true }),
                    Err(_) => None,
                }
            },
            None => {
                let bc = chars_of(body.as_str());
                let eq: [char; 1] = ['='];
                assert(eq@ =~= seq!['=']);
                match find_at(&bc, &eq, 0) {
                    Some(e) => {
                        proof {
                            lemma_find_bound(bc@, eq@, 0);
                        }
                        let name = slice_string(&bc, 0, e);
                        let name = trimmed(name.as_str());
                        match DottedPath::parse(name.as_str()) {
                            Ok(path) => Some(Anchor { path, absolute: false }),
                            Err(_) => None,
                        }
                    },
                    None => None,
                }
            },
        }
    }

    /// The path this anchor names, read from the table the block sits in.
    pub fn resolve(&self, within: Option<&DottedPath>) -> (r: DottedPath)
        ensures
            r@ == match within {
                Some(table) => if self.absolute {
                    self.path@
                } else {
                    table@ + self.path@
                },
                None => self.path@,
            },
    {
        match within {
            Some(table) => {
                if self.absolute {
                    return self.path.duplicate();
                }
                let mut path = table.duplicate();
                let n = self.path.len();
                let mut i: usize = 0;
                while i < n
                    invariant
                        n == self.path@.len(),
                        i <= n,
                        path@ == table@ + self.path@.subrange(0, i as int),
                    decreases n - i,
                {
                    path = path.child(self.path.segment(i).as_str());
                    assert(self.path@.subrange(0, i + 1) =~= self.path@.subrange(0, i as int).push(
                        self.path@[i as int],
                    ));
                    i = i + 1;
                }
                assert(self.path@.subrange(0, n as int) =~= self.path@);
                path
            },
            None => self.path.duplicate(),
        }
    }
}

} // verus!
