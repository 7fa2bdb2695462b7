//! Key paths.

use vstd::prelude::*;

use nonempty::NonEmpty;

use crate::text::{lemma_views_push, push_char, text_eq, views};
use crate::toml::{key_path_names, key_repr, key_repr_of, parse_key_path};
use toml_edit::TomlError;

verus! {

#[verifier::external_type_specification]
#[verifier::external_body]
#[verifier::reject_recursive_types(T)]
pub struct ExNonEmpty<T>(NonEmpty<T>);

/// The names a non-empty list of key names holds, in order.
pub uninterp spec fn names_of(list: NonEmpty<String>) -> Seq<Seq<char>>;

/// `NonEmpty::new`: a list of one.
#[verifier::external_body]
fn list_of_one(head: String) -> (r: NonEmpty<String>)
    ensures
        names_of(r) == seq![head@],
{
    NonEmpty::new(head)
}

/// `NonEmpty::push`: one more at the end.
#[verifier::external_body]
fn list_push(list: &mut NonEmpty<String>, name: String)
    ensures
        names_of(*final(list)) == names_of(*old(list)).push(name@),
{
    list.push(name)
}

/// `NonEmpty::len`, which counts the head.
#[verifier::external_body]
fn list_len(list: &NonEmpty<String>) -> (r: usize)
    ensures
        r == names_of(*list).len(),
        r >= 1,
{
    list.len()
}

/// `NonEmpty::get`, which is `Some` below the length.
#[verifier::external_body]
fn list_get(list: &NonEmpty<String>, index: usize) -> (r: &String)
    requires
        index < names_of(*list).len(),
    ensures
        r@ == names_of(*list)[index as int],
{
    list.get(index).unwrap()
}

/// `NonEmpty::from_vec`: `None` exactly for an empty vector.
#[verifier::external_body]
fn list_from_vec(names: Vec<String>) -> (r: Option<NonEmpty<String>>)
    ensures
        r is None <==> names@.len() == 0,
        r matches Some(list) ==> names_of(list) == views(names@),
{
    NonEmpty::from_vec(names)
}

/// Why text is not a key path.
#[derive(Debug)]
pub enum PathError {
    /// The text is not TOML key syntax.
    Toml(TomlError),
    /// The text is TOML key syntax naming no key at all.
    Empty,
}

/// A key path such as `server.timeout`.
///
/// Segments are stored unescaped, as the key text means it, so a quoted TOML
/// key holding a dot is one segment and not two. A path always names something,
/// so it always has a first segment.
#[derive(Debug, PartialEq, Eq)]
pub struct DottedPath {
    pub segments: NonEmpty<String>,
}

impl View for DottedPath {
    type V = Seq<Seq<char>>;

    open spec fn view(&self) -> Seq<Seq<char>> {
        names_of(self.segments)
    }
}

/// The text of a path: each segment as TOML writes the key, joined by dots.
pub open spec fn path_text(segments: Seq<Seq<char>>) -> Seq<char>
    decreases segments.len(),
{
    if segments.len() <= 1 {
        if segments.len() == 0 {
            seq![]
        } else {
            key_repr(segments[0])
        }
    } else {
        path_text(segments.drop_last()) + seq!['.'] + key_repr(segments.last())
    }
}

impl Clone for DottedPath {
    /// An equal path.
    fn clone(&self) -> (p: Self)
        ensures
            p@ == self@,
    {
        self.duplicate()
    }
}

impl DottedPath {
    /// A path of one segment.
    pub fn new(name: &str) -> (p: Self)
        ensures
            p@ == seq![name@],
    {
        DottedPath { segments: list_of_one(name.to_owned()) }
    }

    /// Reads text as a TOML key path, so a quoted segment holding a dot is one
    /// segment.
    pub fn parse(text: &str) -> (r: Result<Self, PathError>)
        ensures
            r matches Ok(p) ==> key_path_names(text@) == Some(p@),
            r matches Err(PathError::Toml(_)) ==> key_path_names(text@) is None,
            r matches Err(PathError::Empty) ==> key_path_names(text@) == Some(
                Seq::<Seq<char>>::empty(),
            ),
            r is Ok <==> (key_path_names(text@) matches Some(names) && names.len() > 0),
    {
        match parse_key_path(text) {
            Ok(names) => {
                let ghost seen = views(names@);
                match list_from_vec(names) {
                    Some(list) => Ok(DottedPath { segments: list }),
                    None => {
                        assert(seen =~= Seq::<Seq<char>>::empty());
                        Err(PathError::Empty)
                    },
                }
            },
            Err(e) => Err(PathError::Toml(e)),
        }
    }

    /// The number of segments.
    pub fn len(&self) -> (r: usize)
        ensures
            r == self@.len(),
            r >= 1,
    {
        list_len(&self.segments)
    }

    /// One segment.
    pub fn segment(&self, index: usize) -> (r: &String)
        requires
            index < self@.len(),
        ensures
            r@ == self@[index as int],
    {
        list_get(&self.segments, index)
    }

    /// The segments, in order.
    pub fn segments(&self) -> (r: Vec<String>)
        ensures
            views(r@) == self@,
    {
        let n = self.len();
        let mut out: Vec<String> = Vec::new();
        let mut i: usize = 0;
        while i < n
            invariant
                n == self@.len(),
                i <= n,
                views(out@) == self@.subrange(0, i as int),
            decreases n - i,
        {
            let ghost prev = out@;
            let name = self.segment(i).clone();
            out.push(name);
            proof {
                lemma_views_push(prev, name);
            }
            i = i + 1;
            assert(views(out@) =~= self@.subrange(0, i as int));
        }
        assert(self@.subrange(0, n as int) =~= self@);
        out
    }

    /// The last segment: the key itself.
    pub fn leaf(&self) -> (r: &String)
        ensures
            self@.len() >= 1,
            r@ == self@.last(),
    {
        let n = self.len();
        self.segment(n - 1)
    }

    /// The path one segment deeper.
    pub fn child(&self, name: &str) -> (p: Self)
        ensures
            p@ == self@.push(name@),
    {
        let mut segments = self.duplicate().segments;
        list_push(&mut segments, name.to_owned());
        DottedPath { segments }
    }

    /// An equal path.
    pub fn duplicate(&self) -> (p: Self)
        ensures
            p@ == self@,
    {
        let n = self.len();
        let mut segments = list_of_one(self.segment(0).clone());
        let mut i: usize = 1;
        assert(self@.subrange(0, 1) =~= seq![self@[0]]);
        while i < n
            invariant
                n == self@.len(),
                1 <= i <= n,
                names_of(segments) == self@.subrange(0, i as int),
            decreases n - i,
        {
            list_push(&mut segments, self.segment(i).clone());
            i = i + 1;
            assert(names_of(segments) =~= self@.subrange(0, i as int));
        }
        assert(self@.subrange(0, n as int) =~= self@);
        DottedPath { segments }
    }

    /// Whether two paths name the same key.
    pub fn same(&self, other: &Self) -> (r: bool)
        ensures
            r == (self@ == other@),
    {
        let n = self.len();
        if n != other.len() {
            return false;
        }
        let mut i: usize = 0;
        while i < n
            invariant
                n == self@.len(),
                n == other@.len(),
                i <= n,
                forall|j: int| 0 <= j < i ==> self@[j] == other@[j],
            decreases n - i,
        {
            if !text_eq(self.segment(i), other.segment(i)) {
                return false;
            }
            i = i + 1;
        }
        assert(self@ =~= other@);
        true
    }

    /// Whether this path starts with every segment of `prefix`.
    pub fn starts_with(&self, prefix: &Self) -> (r: bool)
        ensures
            r == (prefix@.len() <= self@.len() && self@.subrange(0, prefix@.len() as int)
                == prefix@),
    {
        let n = prefix.len();
        if n > self.len() {
            return false;
        }
        let mut i: usize = 0;
        while i < n
            invariant
                n == prefix@.len(),
                n <= self@.len(),
                i <= n,
                forall|j: int| 0 <= j < i ==> self@[j] == prefix@[j],
            decreases n - i,
        {
            if !text_eq(self.segment(i), prefix.segment(i)) {
                assert(self@.subrange(0, n as int)[i as int] != prefix@[i as int]);
                return false;
            }
            i = i + 1;
        }
        assert(self@.subrange(0, n as int) =~= prefix@);
        true
    }

    /// The path as TOML writes it: `a."b.c"` for the segments `a` and `b.c`.
    pub fn to_string(&self) -> (r: String)
        ensures
            r@ == path_text(self@),
    {
        let n = self.len();
        let mut out = key_repr_of(self.segment(0).as_str());
        let mut i: usize = 1;
        assert(self@.subrange(0, 1).len() == 1);
        assert(self@.subrange(0, 1)[0] == self@[0]);
        while i < n
            invariant
                n == self@.len(),
                1 <= i <= n,
                out@ == path_text(self@.subrange(0, i as int)),
            decreases n - i,
        {
            push_char(&mut out, '.');
            let piece = key_repr_of(self.segment(i).as_str());
            out.append(piece.as_str());
            proof {
                let next = self@.subrange(0, i + 1);
                assert(next.drop_last() =~= self@.subrange(0, i as int));
                assert(next.last() == self@[i as int]);
            }
            i = i + 1;
        }
        assert(self@.subrange(0, n as int) =~= self@);
        out
    }
}

} // verus!
