//! Character-level helpers shared by the comment machinery.
//!
//! Text is read as a sequence of `char`s, the way `str` views it. The few
//! conversions between `str` and `Vec<char>` are the only calls into std here
//! that vstd gives no specification of.

use vstd::prelude::*;

verus! {

/// Whether a character is white space, as `char::is_whitespace` defines it:
/// the Unicode `White_Space` property.
pub open spec fn is_ws(c: char) -> bool {
    ||| c == ' '
    ||| c == '\t'
    ||| c == '\n'
    ||| c == '\u{0B}'
    ||| c == '\u{0C}'
    ||| c == '\r'
    ||| c == '\u{85}'
    ||| c == '\u{A0}'
    ||| c == '\u{1680}'
    ||| ('\u{2000}' <= c && c <= '\u{200A}')
    ||| c == '\u{2028}'
    ||| c == '\u{2029}'
    ||| c == '\u{202F}'
    ||| c == '\u{205F}'
    ||| c == '\u{3000}'
}

/// Whether every character of `s` is white space; `str::trim` of it is empty.
pub open spec fn all_ws(s: Seq<char>) -> bool {
    forall|i: int| 0 <= i < s.len() ==> is_ws(#[trigger] s[i])
}

/// How many white-space characters open `s`.
pub open spec fn ws_run(s: Seq<char>) -> nat
    decreases s.len(),
{
    if s.len() > 0 && is_ws(s[0]) {
        1 + ws_run(s.drop_first())
    } else {
        0
    }
}

/// `str::trim_start`.
pub open spec fn trim_start(s: Seq<char>) -> Seq<char> {
    s.skip(ws_run(s) as int)
}

/// `str::starts_with`.
pub open spec fn starts_with(s: Seq<char>, p: Seq<char>) -> bool {
    p.len() <= s.len() && s.subrange(0, p.len() as int) == p
}

/// How many `#` characters open `s`.
pub open spec fn hash_run(s: Seq<char>) -> nat
    decreases s.len(),
{
    if s.len() > 0 && s[0] == '#' {
        1 + hash_run(s.drop_first())
    } else {
        0
    }
}

/// The lines of `s` that a `\n` ends, in order, where `cur` is the text of
/// the line already begun. Text after the last `\n` is not a complete line and
/// is not among them.
pub open spec fn lines_from(s: Seq<char>, cur: Seq<char>) -> Seq<Seq<char>>
    decreases s.len(),
{
    if s.len() == 0 {
        seq![]
    } else if s[0] == '\n' {
        seq![cur] + lines_from(s.drop_first(), seq![])
    } else {
        lines_from(s.drop_first(), cur.push(s[0]))
    }
}

/// The complete lines of `s`: what `s.split('\n')` gives, less its last piece.
pub open spec fn complete_lines(s: Seq<char>) -> Seq<Seq<char>> {
    lines_from(s, seq![])
}

/// The text after the last `\n` of `s`, where `cur` is the line already
/// begun.
pub open spec fn tail_from(s: Seq<char>, cur: Seq<char>) -> Seq<char>
    decreases s.len(),
{
    if s.len() == 0 {
        cur
    } else if s[0] == '\n' {
        tail_from(s.drop_first(), seq![])
    } else {
        tail_from(s.drop_first(), cur.push(s[0]))
    }
}

/// The text after the last `\n` of `s`, or all of it when it holds none.
pub open spec fn after_last_newline(s: Seq<char>) -> Seq<char> {
    tail_from(s, seq![])
}

/// Lines joined with a `\n` between each two.
pub open spec fn joined(lines: Seq<Seq<char>>) -> Seq<char>
    decreases lines.len(),
{
    if lines.len() == 0 {
        seq![]
    } else if lines.len() == 1 {
        lines[0]
    } else {
        joined(lines.drop_last()) + seq!['\n'] + lines.last()
    }
}

/// Lines joined back with a `\n` after each one.
pub open spec fn terminated(lines: Seq<Seq<char>>) -> Seq<char>
    decreases lines.len(),
{
    if lines.len() == 0 {
        seq![]
    } else {
        lines[0] + seq!['\n'] + terminated(lines.drop_first())
    }
}

/// `str::trim_end`.
pub open spec fn trim_end(s: Seq<char>) -> Seq<char>
    decreases s.len(),
{
    if s.len() > 0 && is_ws(s.last()) {
        trim_end(s.drop_last())
    } else {
        s
    }
}

/// `str::trim`.
pub open spec fn trim(s: Seq<char>) -> Seq<char> {
    trim_end(trim_start(s))
}

/// Where `p` first occurs in `s` at or after `from`, as `str::find` reports.
pub open spec fn find_from(s: Seq<char>, p: Seq<char>, from: int) -> Option<int>
    decreases s.len() - from,
{
    if from < 0 || from + p.len() > s.len() {
        None
    } else if s.subrange(from, from + p.len()) == p {
        Some(from)
    } else if from >= s.len() {
        None
    } else {
        find_from(s, p, from + 1)
    }
}

/// Where the text of `s` ends once trailing white space is left off.
pub fn trimmed_end(s: &[char], from: usize) -> (k: usize)
    requires
        from <= s@.len(),
    ensures
        from <= k <= s@.len(),
        trim_end(s@.subrange(from as int, s@.len() as int)) == s@.subrange(from as int, k as int),
{
    let mut k: usize = s.len();
    assert(s@.subrange(from as int, k as int) =~= s@.subrange(from as int, s@.len() as int));
    while k > from && is_whitespace(s[k - 1])
        invariant
            from <= k <= s@.len(),
            trim_end(s@.subrange(from as int, s@.len() as int)) == trim_end(
                s@.subrange(from as int, k as int),
            ),
        decreases k,
    {
        assert(s@.subrange(from as int, k as int).drop_last() =~= s@.subrange(from as int, k - 1));
        k = k - 1;
    }
    k
}

/// Where `p` first occurs in `s` at or after `from`.
pub fn find_at(s: &[char], p: &[char], from: usize) -> (r: Option<usize>)
    requires
        from <= s@.len(),
    ensures
        r matches Some(i) ==> find_from(s@, p@, from as int) == Some(i as int),
        r is None ==> find_from(s@, p@, from as int) is None,
{
    let mut i: usize = from;
    while p.len() <= s.len() - i
        invariant
            from <= i <= s@.len(),
            find_from(s@, p@, from as int) == find_from(s@, p@, i as int),
        decreases s.len() - i,
    {
        if starts_with_at(s, i, p) {
            assert(s@.skip(i as int).subrange(0, p@.len() as int) =~= s@.subrange(
                i as int,
                i + p@.len(),
            ));
            return Some(i);
        }
        assert(s@.skip(i as int).subrange(0, p@.len() as int) =~= s@.subrange(
            i as int,
            i + p@.len(),
        ));
        if i >= s.len() {
            return None;
        }
        i = i + 1;
    }
    None
}

/// The trimmed text of a string.
pub fn trimmed(text: &str) -> (r: String)
    ensures
        r@ == trim(text@),
{
    let cs = chars_of(text);
    let start = leading_ws(&cs);
    let end = trimmed_end(&cs, start);
    assert(trim_start(cs@) =~= cs@.subrange(start as int, cs@.len() as int));
    slice_string(&cs, start, end)
}

/// Whether a string holds a character.
pub fn has_char(text: &str, c: char) -> (r: bool)
    ensures
        r == text@.contains(c),
{
    let cs = chars_of(text);
    let mut i: usize = 0;
    while i < cs.len()
        invariant
            i <= cs@.len(),
            cs@ == text@,
            forall|j: int| 0 <= j < i ==> cs@[j] != c,
        decreases cs.len() - i,
    {
        if cs[i] == c {
            assert(text@[i as int] == c);
            return true;
        }
        i = i + 1;
    }
    false
}

/// The character views of some strings.
pub open spec fn views(v: Seq<String>) -> Seq<Seq<char>> {
    v.map_values(|s: String| s@)
}

pub proof fn lemma_views_push(v: Seq<String>, x: String)
    ensures
        views(v.push(x)) == views(v).push(x@),
{
    assert(views(v.push(x)) =~= views(v).push(x@));
}

/// One more line joined on.
pub proof fn lemma_joined_push(lines: Seq<Seq<char>>, x: Seq<char>)
    ensures
        joined(lines.push(x)) == (if lines.len() == 0 {
            x
        } else {
            joined(lines) + seq!['\n'] + x
        }),
{
    assert(lines.push(x).drop_last() =~= lines);
}

pub proof fn lemma_terminated_push(lines: Seq<Seq<char>>, x: Seq<char>)
    ensures
        terminated(lines.push(x)) == terminated(lines) + x + seq!['\n'],
    decreases lines.len(),
{
    if lines.len() == 0 {
        assert(lines.push(x).drop_first() =~= Seq::<Seq<char>>::empty());
        assert(lines.push(x)[0] == x);
        assert(terminated(lines.push(x).drop_first()) =~= Seq::<char>::empty());
        assert(terminated(lines.push(x)) =~= x + seq!['\n'] + Seq::<char>::empty());
        assert(terminated(lines) + x + seq!['\n'] =~= x + seq!['\n']);
    } else {
        assert(lines.push(x).drop_first() =~= lines.drop_first().push(x));
        lemma_terminated_push(lines.drop_first(), x);
        assert(terminated(lines.push(x)) =~= lines[0] + seq!['\n'] + terminated(lines.drop_first().push(x)));
        assert(terminated(lines.push(x)) =~= terminated(lines) + x + seq!['\n']);
    }
}

pub proof fn lemma_terminated_append(a: Seq<Seq<char>>, b: Seq<Seq<char>>)
    ensures
        terminated(a + b) == terminated(a) + terminated(b),
    decreases b.len(),
{
    if b.len() == 0 {
        assert(a + b =~= a);
        assert(terminated(b) =~= Seq::<char>::empty());
        assert(terminated(a) + terminated(b) =~= terminated(a));
    } else {
        let bl = b.drop_last();
        assert(a + b =~= (a + bl).push(b.last()));
        assert(b =~= bl.push(b.last()));
        lemma_terminated_append(a, bl);
        lemma_terminated_push(a + bl, b.last());
        lemma_terminated_push(bl, b.last());
        assert(terminated(a + b) =~= terminated(a) + terminated(b));
    }
}

/// Appends each line and a `\n` after it.
pub fn push_lines(out: &mut String, lines: &Vec<String>)
    ensures
        final(out)@ == old(out)@ + terminated(views(lines@)),
{
    let mut i: usize = 0;
    assert(views(lines@.subrange(0, 0)) =~= Seq::<Seq<char>>::empty());
    assert(old(out)@ + terminated(Seq::<Seq<char>>::empty()) =~= old(out)@);
    while i < lines.len()
        invariant
            i <= lines@.len(),
            out@ == old(out)@ + terminated(views(lines@.subrange(0, i as int))),
        decreases lines.len() - i,
    {
        out.append(lines[i].as_str());
        push_char(out, '\n');
        proof {
            assert(views(lines@.subrange(0, i + 1)) =~= views(lines@.subrange(0, i as int)).push(
                lines@[i as int]@,
            ));
            lemma_terminated_push(views(lines@.subrange(0, i as int)), lines@[i as int]@);
        }
        i = i + 1;
    }
    assert(lines@.subrange(0, lines@.len() as int) =~= lines@);
}

/// Whether two strings hold the same characters.
pub fn text_eq(a: &String, b: &String) -> (r: bool)
    ensures
        r == (a@ == b@),
{
    a.eq(b)
}

/// The `char` view of a string slice, as a vector.
#[verifier::external_body]
pub(crate) fn chars_of(s: &str) -> (r: Vec<char>)
    ensures
        r@ == s@,
{
    s.chars().collect()
}

/// A string holding exactly the given characters.
#[verifier::external_body]
pub(crate) fn string_of(cs: &[char]) -> (r: String)
    ensures
        r@ == cs@,
{
    cs.iter().collect()
}

/// `String::push`.
#[verifier::external_body]
pub(crate) fn push_char(s: &mut String, c: char)
    ensures
        final(s)@ == old(s)@.push(c),
{
    s.push(c)
}

/// `char::is_whitespace`, decided by the Unicode `White_Space` list.
pub fn is_whitespace(c: char) -> (r: bool)
    ensures
        r == is_ws(c),
{
    c == ' ' || c == '\t' || c == '\n' || c == '\u{0B}' || c == '\u{0C}' || c == '\r' || c
        == '\u{85}' || c == '\u{A0}' || c == '\u{1680}' || ('\u{2000}' <= c && c <= '\u{200A}')
        || c == '\u{2028}' || c == '\u{2029}' || c == '\u{202F}' || c == '\u{205F}' || c
        == '\u{3000}'
}

pub proof fn lemma_ws_run_bound(s: Seq<char>)
    ensures
        ws_run(s) <= s.len(),
        forall|j: int| 0 <= j < ws_run(s) ==> is_ws(#[trigger] s[j]),
        ws_run(s) < s.len() ==> !is_ws(s[ws_run(s) as int]),
    decreases s.len(),
{
    if s.len() > 0 && is_ws(s[0]) {
        lemma_ws_run_bound(s.drop_first());
        assert forall|j: int| 0 <= j < ws_run(s) implies is_ws(#[trigger] s[j]) by {
            if j > 0 {
                assert(s[j] == s.drop_first()[j - 1]);
            }
        }
    }
}

/// The number of white-space characters that open `s`.
pub fn leading_ws(s: &[char]) -> (n: usize)
    ensures
        n == ws_run(s@),
        n <= s@.len(),
{
    let mut i: usize = 0;
    while i < s.len() && is_whitespace(s[i])
        invariant
            i <= s@.len(),
            forall|j: int| 0 <= j < i ==> is_ws(#[trigger] s@[j]),
        decreases s.len() - i,
    {
        i = i + 1;
    }
    proof {
        lemma_ws_run_exact(s@, i as int);
    }
    i
}

/// A prefix of white space ending at a non-white-space character (or the end)
/// is the white-space run.
pub proof fn lemma_ws_run_exact(s: Seq<char>, i: int)
    requires
        0 <= i <= s.len(),
        forall|j: int| 0 <= j < i ==> is_ws(#[trigger] s[j]),
        i == s.len() || !is_ws(s[i]),
    ensures
        ws_run(s) == i,
    decreases s.len(),
{
    if i > 0 {
        assert forall|j: int| 0 <= j < i - 1 implies is_ws(#[trigger] s.drop_first()[j]) by {
            assert(s.drop_first()[j] == s[j + 1]);
        }
        if i - 1 < s.len() - 1 {
            assert(s.drop_first()[i - 1] == s[i]);
        }
        lemma_ws_run_exact(s.drop_first(), i - 1);
    }
}

/// Whether every character is white space.
pub fn is_blank(s: &[char]) -> (r: bool)
    ensures
        r == all_ws(s@),
{
    let n = leading_ws(s);
    proof {
        lemma_ws_run_bound(s@);
    }
    n == s.len()
}

/// The number of `#` characters that open `s[from..]`.
pub fn hashes_from(s: &[char], from: usize) -> (n: usize)
    requires
        from <= s@.len(),
    ensures
        n == hash_run(s@.skip(from as int)),
        from + n <= s@.len(),
{
    let mut i: usize = from;
    while i < s.len() && s[i] == '#'
        invariant
            from <= i <= s@.len(),
            forall|j: int| from <= j < i ==> #[trigger] s@[j] == '#',
        decreases s.len() - i,
    {
        i = i + 1;
    }
    proof {
        lemma_hash_run_exact(s@.skip(from as int), i - from);
    }
    i - from
}

pub proof fn lemma_hash_run_exact(s: Seq<char>, i: int)
    requires
        0 <= i <= s.len(),
        forall|j: int| 0 <= j < i ==> #[trigger] s[j] == '#',
        i == s.len() || s[i] != '#',
    ensures
        hash_run(s) == i,
    decreases s.len(),
{
    if i > 0 {
        assert forall|j: int| 0 <= j < i - 1 implies #[trigger] s.drop_first()[j] == '#' by {
            assert(s.drop_first()[j] == s[j + 1]);
        }
        if i - 1 < s.len() - 1 {
            assert(s.drop_first()[i - 1] == s[i]);
        }
        lemma_hash_run_exact(s.drop_first(), i - 1);
    }
}

/// Whether `s[from..]` starts with `p`.
pub fn starts_with_at(s: &[char], from: usize, p: &[char]) -> (r: bool)
    requires
        from <= s@.len(),
    ensures
        r == starts_with(s@.skip(from as int), p@),
{
    if p.len() > s.len() - from {
        return false;
    }
    let limit: usize = s.len() - from;
    let mut i: usize = 0;
    while i < p.len()
        invariant
            limit == s@.len() - from,
            p@.len() <= limit,
            s@.len() == s.len(),
            from <= s@.len(),
            i <= p@.len(),
            forall|j: int| 0 <= j < i ==> s@[from + j] == #[trigger] p@[j],
        decreases p.len() - i,
    {
        let at: usize = from + i;
        if s[at] != p[i] {
            assert(s@.skip(from as int).subrange(0, p@.len() as int)[i as int] != p@[i as int]);
            return false;
        }
        i = i + 1;
    }
    assert(s@.skip(from as int).subrange(0, p@.len() as int) =~= p@);
    true
}

/// The characters `s[from..to]`, as a string.
pub fn slice_string(s: &[char], from: usize, to: usize) -> (r: String)
    requires
        from <= to <= s@.len(),
    ensures
        r@ == s@.subrange(from as int, to as int),
{
    let mut out: Vec<char> = Vec::new();
    let mut i: usize = from;
    while i < to
        invariant
            from <= i <= to <= s@.len(),
            out@ == s@.subrange(from as int, i as int),
        decreases to - i,
    {
        out.push(s[i]);
        i = i + 1;
        assert(out@ =~= s@.subrange(from as int, i as int));
    }
    string_of(&out)
}

} // verus!
