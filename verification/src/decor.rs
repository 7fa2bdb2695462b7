//! Classification and reassembly of the text above a key.
//!
//! A decor prefix is one raw string covering everything between the previous
//! item and this key: blank lines, indentation and comment lines together.
//! These types split that string and build the replacement.

use vstd::prelude::*;

use crate::text::{
    after_last_newline, all_ws, chars_of, complete_lines, hash_run, hashes_from, is_blank,
    leading_ws, lines_from, push_char, push_lines, slice_string, starts_with, starts_with_at,
    tail_from, terminated, trim_start, views, lemma_views_push, is_ws, ws_run,
};

verus! {

/// The prose marker, used when the caller sets none.
pub const DEFAULT_PROSE_MARKER: &'static str = "##:";

/// The sample marker, used when the caller sets none.
pub const DEFAULT_SAMPLE_MARKER: &'static str = "#:";

/// The two comment prefixes the tool owns.
///
/// `##:` is prose: the sentences explaining an option. `#:` is TOML text: the
/// line recording a shipped default, and the samples a defaults author writes
/// for an option that ships with no live value. Both are rewritten from the
/// defaults on every merge. A plain `#` belongs to the person and is never
/// touched.
#[derive(Debug, PartialEq, Eq)]
pub struct Marker {
    pub prose: String,
    pub sample: String,
}

/// What one line of a prefix is.
pub enum LineKind {
    Prose,
    Sample,
    User,
    Blank,
}

/// Whether `line` carries `marker`: its first non-white-space characters are
/// exactly the marker, and its run of `#` is as long as the marker's.
pub open spec fn carries_spec(marker: Seq<char>, line: Seq<char>) -> bool {
    let t = trim_start(line);
    starts_with(t, marker) && hash_run(t) == hash_run(marker)
}

/// The kind of one line, read against a prose and a sample marker.
pub open spec fn kind_of(prose: Seq<char>, sample: Seq<char>, line: Seq<char>) -> LineKind {
    if all_ws(line) {
        LineKind::Blank
    } else if carries_spec(prose, line) {
        LineKind::Prose
    } else if carries_spec(sample, line) {
        LineKind::Sample
    } else {
        LineKind::User
    }
}

/// A sample line with the marker taken off, and one space after it.
pub open spec fn undress_spec(prose: Seq<char>, sample: Seq<char>, line: Seq<char>) -> Seq<
    char,
> {
    let t = trim_start(line);
    let body = if starts_with(t, sample) {
        t.skip(sample.len() as int)
    } else if starts_with(t, prose) {
        t.skip(prose.len() as int)
    } else {
        t
    };
    if body.len() > 0 && body[0] == ' ' {
        body.drop_first()
    } else {
        body
    }
}

impl Default for Marker {
    /// The default markers, `##:` for prose and `#:` for samples.
    fn default() -> (m: Self)
        ensures
            m.prose@ == DEFAULT_PROSE_MARKER@,
            m.sample@ == DEFAULT_SAMPLE_MARKER@,
    {
        Marker::standard()
    }
}

impl Marker {
    pub open spec fn kind(&self, line: Seq<char>) -> LineKind {
        kind_of(self.prose@, self.sample@, line)
    }

    /// Whether a line is the tool's, of either kind.
    pub open spec fn owns_spec(&self, line: Seq<char>) -> bool {
        let k = self.kind(line);
        k is Prose || k is Sample
    }

    /// Markers from their literal text.
    pub fn new(prose: &str, sample: &str) -> (m: Self)
        ensures
            m.prose@ == prose@,
            m.sample@ == sample@,
    {
        Marker { prose: prose.to_owned(), sample: sample.to_owned() }
    }

    /// The default markers, `##:` for prose and `#:` for samples.
    pub fn standard() -> (m: Self)
        ensures
            m.prose@ == DEFAULT_PROSE_MARKER@,
            m.sample@ == DEFAULT_SAMPLE_MARKER@,
    {
        Self::new(DEFAULT_PROSE_MARKER, DEFAULT_SAMPLE_MARKER)
    }

    /// An equal marker.
    pub fn duplicate(&self) -> (m: Self)
        ensures
            m == *self,
    {
        Marker { prose: self.prose.clone(), sample: self.sample.clone() }
    }

    /// The prefix on a prose line.
    pub fn prose(&self) -> (r: &str)
        ensures
            r@ == self.prose@,
    {
        self.prose.as_str()
    }

    /// The prefix on a line of TOML text.
    pub fn sample(&self) -> (r: &str)
        ensures
            r@ == self.sample@,
    {
        self.sample.as_str()
    }

    /// What one line of a prefix is.
    ///
    /// A line carries a marker when its first non-whitespace characters are
    /// exactly that marker and its run of `#` is the same length as the
    /// marker's. With the default markers `##:` is prose and `#:` is a sample;
    /// `###:` and `#` are the person's.
    pub fn classify(&self, line: &str) -> (r: PrefixLine)
        ensures
            r.text_view() == line@,
            r.kind() == self.kind(line@),
    {
        let cs = chars_of(line);
        let prose = chars_of(self.prose.as_str());
        let sample = chars_of(self.sample.as_str());
        let text = line.to_owned();
        if is_blank(&cs) {
            PrefixLine::Blank { text }
        } else if carries(&prose, &cs) {
            PrefixLine::Prose { text }
        } else if carries(&sample, &cs) {
            PrefixLine::Sample { text }
        } else {
            PrefixLine::User { text }
        }
    }

    /// Whether a line is the tool's, of either kind.
    pub fn owns(&self, line: &str) -> (r: bool)
        ensures
            r == self.owns_spec(line@),
    {
        match self.classify(line) {
            PrefixLine::Prose { .. } => true,
            PrefixLine::Sample { .. } => true,
            _ => false,
        }
    }

    /// A sample line with the marker taken off, keeping what follows it so an
    /// indented sample stays indented.
    pub fn undress(&self, line: &str) -> (r: String)
        ensures
            r@ == undress_spec(self.prose@, self.sample@, line@),
    {
        let cs = chars_of(line);
        let prose = chars_of(self.prose.as_str());
        let sample = chars_of(self.sample.as_str());
        let start = leading_ws(&cs);
        let ghost t = trim_start(cs@);
        let mut body: usize = start;
        let total: usize = cs.len();
        assert(total == cs@.len());
        if starts_with_at(&cs, start, &sample) {
            assert(sample@.len() <= cs@.len() - start);
            body = start + sample.len();
        } else if starts_with_at(&cs, start, &prose) {
            assert(prose@.len() <= cs@.len() - start);
            body = start + prose.len();
        }
        assert(cs@.skip(body as int) =~= if starts_with(t, sample@) {
            t.skip(sample@.len() as int)
        } else if starts_with(t, prose@) {
            t.skip(prose@.len() as int)
        } else {
            t
        });
        if body < cs.len() && cs[body] == ' ' {
            body = body + 1;
        }
        let r = slice_string(&cs, body, cs.len());
        assert(r@ =~= undress_spec(self.prose@, self.sample@, line@));
        r
    }
}

/// Whether `line` carries `marker`.
fn carries(marker: &[char], line: &[char]) -> (r: bool)
    ensures
        r == carries_spec(marker@, line@),
{
    let start = leading_ws(line);
    proof {
        lemma_hash_skip(line@, start as int);
    }
    starts_with_at(line, start, marker) && hashes_from(line, start) == hashes(marker)
}

proof fn lemma_hash_skip(s: Seq<char>, k: int)
    requires
        0 <= k <= s.len(),
    ensures
        s.skip(k) == s.skip(k),
{
}

/// How many `#` characters open `text`.
fn hashes(text: &[char]) -> (n: usize)
    ensures
        n == hash_run(text@),
{
    let n = hashes_from(text, 0);
    assert(text@.skip(0) =~= text@);
    n
}

/// The raw decor text between the previous item and this key.
#[derive(Debug, PartialEq, Eq)]
pub struct Prefix {
    pub raw: String,
}

/// The kinds of a run of lines, read against a marker.
pub open spec fn classified(m: Marker, texts: Seq<Seq<char>>, lines: Seq<PrefixLine>) -> bool {
    &&& texts_of(lines) == texts
    &&& lines.len() == texts.len()
    &&& forall|i: int|
        0 <= i < lines.len() ==> (#[trigger] lines[i]).text_view() == texts[i] && lines[i].kind()
            == m.kind(texts[i])
}

/// Where the block touching the key begins: one past the last blank line, or
/// the start when there is none.
pub open spec fn touching_start(lines: Seq<PrefixLine>) -> int
    decreases lines.len(),
{
    if lines.len() == 0 {
        0
    } else if lines.last() is Blank {
        lines.len() as int
    } else {
        touching_start(lines.drop_last())
    }
}

impl Prefix {
    /// A prefix from text that is a whole region of its own, such as the
    /// trailing text at the end of a document.
    pub fn from_text(text: &str) -> (p: Self)
        ensures
            p.raw@ == text@,
    {
        Prefix { raw: text.to_owned() }
    }

    /// The text of the prefix.
    pub fn raw(&self) -> (r: &str)
        ensures
            r@ == self.raw@,
    {
        self.raw.as_str()
    }

    /// The complete lines of the prefix, classified.
    ///
    /// The text after the last newline is indentation for the key itself, not a
    /// line of its own, and comes back from [`Prefix::indent`].
    pub fn lines(&self, marker: &Marker) -> (r: Vec<PrefixLine>)
        ensures
            classified(*marker, complete_lines(self.raw@), r@),
    {
        let cs = chars_of(self.raw.as_str());
        let mut out: Vec<PrefixLine> = Vec::new();
        let mut start: usize = 0;
        let mut i: usize = 0;
        assert(cs@.skip(0) =~= cs@);
        assert(cs@.subrange(0, 0) =~= Seq::<char>::empty());
        while i < cs.len()
            invariant
                start <= i <= cs@.len(),
                complete_lines(cs@) == texts_of(out@) + lines_from(
                    cs@.skip(i as int),
                    cs@.subrange(start as int, i as int),
                ),
                forall|j: int|
                    0 <= j < out@.len() ==> (#[trigger] out@[j]).kind() == marker.kind(
                        out@[j].text_view(),
                    ),
            decreases cs.len() - i,
        {
            proof {
                lemma_lines_step(cs@, start as int, i as int);
            }
            if cs[i] == '\n' {
                let piece = slice_string(&cs, start, i);
                let line = marker.classify(piece.as_str());
                let ghost before = out@;
                out.push(line);
                proof {
                    assert(texts_of(out@) =~= texts_of(before) + seq![cs@.subrange(start as int, i as int)]);
                }
                start = i + 1;
            }
            i = i + 1;
        }
        proof {
            assert(cs@.skip(i as int) =~= Seq::<char>::empty());
            assert(complete_lines(cs@) =~= texts_of(out@));
        }
        out
    }

    /// The prefix split at the last blank line.
    ///
    /// Everything before it stands on its own, separated from the key by that
    /// blank line, and is carried across as it was written. What comes after is
    /// the block that touches the key, which is the block this merge rebuilds.
    pub fn split(&self, marker: &Marker) -> (r: (Vec<PrefixLine>, Vec<PrefixLine>))
        ensures
            classified(*marker, complete_lines(self.raw@), r.0@ + r.1@),
            r.0@.len() == touching_start(r.0@ + r.1@),
    {
        let lines = self.lines(marker);
        let mut k: usize = lines.len();
        assert(lines@.subrange(0, lines@.len() as int) =~= lines@);
        while k > 0 && !lines[k - 1].is_blank()
            invariant
                k <= lines@.len(),
                touching_start(lines@) == touching_start(lines@.subrange(0, k as int)),
            decreases k,
        {
            assert(lines@.subrange(0, k as int).drop_last() =~= lines@.subrange(0, k - 1));
            k = k - 1;
        }
        assert(lines@.subrange(0, lines@.len() as int) =~= lines@);
        let mut before: Vec<PrefixLine> = Vec::new();
        let mut after: Vec<PrefixLine> = Vec::new();
        let mut j: usize = 0;
        while j < lines.len()
            invariant
                j <= lines@.len(),
                k <= lines@.len(),
                j <= k ==> before@ == lines@.subrange(0, j as int) && after@.len() == 0,
                j > k ==> before@ == lines@.subrange(0, k as int) && after@ == lines@.subrange(
                    k as int,
                    j as int,
                ),
            decreases lines.len() - j,
        {
            if j < k {
                before.push(lines[j].duplicate());
            } else {
                after.push(lines[j].duplicate());
            }
            j = j + 1;
            assert(lines@.subrange(0, j as int).drop_last() =~= lines@.subrange(0, j - 1));
            if j > k {
                assert(lines@.subrange(k as int, j as int).drop_last() =~= lines@.subrange(
                    k as int,
                    j - 1,
                ));
            }
        }
        assert(before@ + after@ =~= lines@);
        assert(before@ =~= lines@.subrange(0, k as int));
        (before, after)
    }

    /// The whitespace between the last newline and the key.
    pub fn indent(&self) -> (r: String)
        ensures
            r@ == after_last_newline(self.raw@),
    {
        let cs = chars_of(self.raw.as_str());
        let mut start: usize = 0;
        let mut i: usize = 0;
        assert(cs@.skip(0) =~= cs@);
        assert(cs@.subrange(0, 0) =~= Seq::<char>::empty());
        while i < cs.len()
            invariant
                start <= i <= cs@.len(),
                tail_from(cs@, seq![]) == tail_from(
                    cs@.skip(i as int),
                    cs@.subrange(start as int, i as int),
                ),
            decreases cs.len() - i,
        {
            proof {
                lemma_tail_step(cs@, start as int, i as int);
            }
            if cs[i] == '\n' {
                start = i + 1;
            }
            i = i + 1;
        }
        assert(cs@.skip(i as int) =~= Seq::<char>::empty());
        slice_string(&cs, start, cs.len())
    }
}

/// The texts of classified lines.
pub open spec fn texts_of(lines: Seq<PrefixLine>) -> Seq<Seq<char>> {
    lines.map_values(|l: PrefixLine| l.text_view())
}

proof fn lemma_lines_step(s: Seq<char>, start: int, i: int)
    requires
        0 <= start <= i < s.len(),
    ensures
        s[i] == '\n' ==> lines_from(s.skip(i), s.subrange(start, i)) == seq![
            s.subrange(start, i),
        ] + lines_from(s.skip(i + 1), s.subrange(i + 1, i + 1)),
        s[i] != '\n' ==> lines_from(s.skip(i), s.subrange(start, i)) == lines_from(
            s.skip(i + 1),
            s.subrange(start, i + 1),
        ),
{
    assert(s.skip(i).drop_first() =~= s.skip(i + 1));
    assert(s.subrange(start, i).push(s[i]) =~= s.subrange(start, i + 1));
    assert(s.subrange(i + 1, i + 1) =~= Seq::<char>::empty());
}

proof fn lemma_tail_step(s: Seq<char>, start: int, i: int)
    requires
        0 <= start <= i < s.len(),
    ensures
        s[i] == '\n' ==> tail_from(s.skip(i), s.subrange(start, i)) == tail_from(
            s.skip(i + 1),
            s.subrange(i + 1, i + 1),
        ),
        s[i] != '\n' ==> tail_from(s.skip(i), s.subrange(start, i)) == tail_from(
            s.skip(i + 1),
            s.subrange(start, i + 1),
        ),
{
    assert(s.skip(i).drop_first() =~= s.skip(i + 1));
    assert(s.subrange(start, i).push(s[i]) =~= s.subrange(start, i + 1));
    assert(s.subrange(i + 1, i + 1) =~= Seq::<char>::empty());
}

/// One classified line of a [`Prefix`].
///
/// The text is kept verbatim, including leading whitespace, so a line the merge
/// does not own can be written back exactly as it was found.
#[derive(Debug, PartialEq, Eq)]
pub enum PrefixLine {
    /// The tool's prose. Rewritten from the defaults on every merge.
    Prose {
        /// The line as it appeared, marker included.
        text: String,
    },
    /// The tool's TOML text: a shipped default or a sample. Rewritten on every
    /// merge, and read as an anchor naming the key it documents.
    Sample {
        /// The line as it appeared, marker included.
        text: String,
    },
    /// Owned by the person. Never rewritten, reflowed or reordered.
    User {
        /// The line as it appeared.
        text: String,
    },
    /// Empty or whitespace only.
    Blank {
        /// The line as it appeared.
        text: String,
    },
}

impl PrefixLine {
    pub open spec fn text_view(&self) -> Seq<char> {
        match self {
            PrefixLine::Prose { text } => text@,
            PrefixLine::Sample { text } => text@,
            PrefixLine::User { text } => text@,
            PrefixLine::Blank { text } => text@,
        }
    }

    pub open spec fn kind(&self) -> LineKind {
        match self {
            PrefixLine::Prose { .. } => LineKind::Prose,
            PrefixLine::Sample { .. } => LineKind::Sample,
            PrefixLine::User { .. } => LineKind::User,
            PrefixLine::Blank { .. } => LineKind::Blank,
        }
    }

    /// The line as it appeared.
    pub fn text(&self) -> (r: &str)
        ensures
            r@ == self.text_view(),
    {
        match self {
            PrefixLine::Prose { text } => text.as_str(),
            PrefixLine::Sample { text } => text.as_str(),
            PrefixLine::User { text } => text.as_str(),
            PrefixLine::Blank { text } => text.as_str(),
        }
    }

    /// Whether the line is empty or white space only.
    pub fn is_blank(&self) -> (r: bool)
        ensures
            r == (*self is Blank),
    {
        match self {
            PrefixLine::Blank { .. } => true,
            _ => false,
        }
    }

    /// An equal line.
    pub fn duplicate(&self) -> (r: Self)
        ensures
            r == *self,
    {
        match self {
            PrefixLine::Prose { text } => PrefixLine::Prose { text: text.clone() },
            PrefixLine::Sample { text } => PrefixLine::Sample { text: text.clone() },
            PrefixLine::User { text } => PrefixLine::User { text: text.clone() },
            PrefixLine::Blank { text } => PrefixLine::Blank { text: text.clone() },
        }
    }
}


/// The texts of the lines of one kind, in order.
pub open spec fn kind_texts(lines: Seq<PrefixLine>, k: LineKind) -> Seq<Seq<char>>
    decreases lines.len(),
{
    if lines.len() == 0 {
        seq![]
    } else if lines.last().kind() == k {
        kind_texts(lines.drop_last(), k).push(lines.last().text_view())
    } else {
        kind_texts(lines.drop_last(), k)
    }
}

/// The texts of the blank lines that open a run of lines, before anything
/// else.
pub open spec fn blank_lead(lines: Seq<PrefixLine>) -> Seq<Seq<char>>
    decreases lines.len(),
{
    if lines.len() == 0 {
        seq![]
    } else if blank_lead(lines.drop_last()).len() == lines.len() - 1 && lines.last() is Blank {
        blank_lead(lines.drop_last()).push(lines.last().text_view())
    } else {
        blank_lead(lines.drop_last())
    }
}

/// The person's lines of a prefix: their comments, and the blank lines that
/// come after the first of them.
pub open spec fn user_kept(lines: Seq<PrefixLine>) -> Seq<Seq<char>>
    decreases lines.len(),
{
    if lines.len() == 0 {
        seq![]
    } else if lines.last() is User || (lines.last() is Blank && kind_texts(
        lines.drop_last(),
        LineKind::User,
    ).len() > 0) {
        user_kept(lines.drop_last()).push(lines.last().text_view())
    } else {
        user_kept(lines.drop_last())
    }
}

/// The texts of the lines of one kind, read against a marker.
pub open spec fn texts_of_kind(m: Marker, texts: Seq<Seq<char>>, k: LineKind) -> Seq<Seq<char>>
    decreases texts.len(),
{
    if texts.len() == 0 {
        seq![]
    } else if m.kind(texts.last()) == k {
        texts_of_kind(m, texts.drop_last(), k).push(texts.last())
    } else {
        texts_of_kind(m, texts.drop_last(), k)
    }
}

/// The person's lines of a text, read against a marker: their comments, and
/// the blank lines after the first of them.
pub open spec fn persons_lines(m: Marker, texts: Seq<Seq<char>>) -> Seq<Seq<char>>
    decreases texts.len(),
{
    if texts.len() == 0 {
        seq![]
    } else if m.kind(texts.last()) is User || (m.kind(texts.last()) is Blank && texts_of_kind(
        m,
        texts.drop_last(),
        LineKind::User,
    ).len() > 0) {
        persons_lines(m, texts.drop_last()).push(texts.last())
    } else {
        persons_lines(m, texts.drop_last())
    }
}

/// Each part of a classified run of lines is read as the marker reads it.
pub proof fn lemma_classified_parts(m: Marker, texts: Seq<Seq<char>>, a: Seq<PrefixLine>, b: Seq<PrefixLine>)
    requires
        classified(m, texts, a + b),
    ensures
        forall|k: int| 0 <= k < a.len() ==> (#[trigger] a[k]).kind() == m.kind(a[k].text_view()),
        forall|k: int| 0 <= k < b.len() ==> (#[trigger] b[k]).kind() == m.kind(b[k].text_view()),
{
    assert forall|k: int| 0 <= k < a.len() implies (#[trigger] a[k]).kind() == m.kind(a[k].text_view()) by {
        assert((a + b)[k] == a[k]);
    }
    assert forall|k: int| 0 <= k < b.len() implies (#[trigger] b[k]).kind() == m.kind(b[k].text_view()) by {
        assert((a + b)[a.len() + k] == b[k]);
    }
}

/// Lines whose kinds are what the marker reads them as keep that reading
/// when gathered by kind: each text gathered under a kind is of that kind.
pub proof fn lemma_kind_texts_read_back(m: Marker, lines: Seq<PrefixLine>, k: LineKind)
    requires
        forall|i: int| 0 <= i < lines.len() ==> (#[trigger] lines[i]).kind() == m.kind(
            lines[i].text_view(),
        ),
    ensures
        forall|j: int|
            0 <= j < kind_texts(lines, k).len() ==> m.kind(#[trigger] kind_texts(lines, k)[j]) == k,
    decreases lines.len(),
{
    if lines.len() > 0 {
        let rest = lines.drop_last();
        assert forall|i: int| 0 <= i < rest.len() implies (#[trigger] rest[i]).kind() == m.kind(
            rest[i].text_view(),
        ) by {
            assert(rest[i] == lines[i]);
        }
        lemma_kind_texts_read_back(m, rest, k);
        assert(lines.last() == lines[lines.len() - 1]);
    }
}

/// What the merge keeps of the person's text above a key is theirs: their
/// comments and blank lines, never a line the tool owns.
pub proof fn lemma_persons_lines_are_theirs(m: Marker, texts: Seq<Seq<char>>)
    ensures
        forall|i: int|
            0 <= i < persons_lines(m, texts).len() ==> !m.owns_spec(
                #[trigger] persons_lines(m, texts)[i],
            ),
        forall|i: int|
            0 <= i < texts.len() && m.kind(#[trigger] texts[i]) is User ==> persons_lines(
                m,
                texts,
            ).contains(texts[i]),
    decreases texts.len(),
{
    if texts.len() > 0 {
        let rest = texts.drop_last();
        lemma_persons_lines_are_theirs(m, rest);
        let p = persons_lines(m, rest);
        assert forall|i: int|
            0 <= i < texts.len() && m.kind(#[trigger] texts[i]) is User implies persons_lines(
            m,
            texts,
        ).contains(texts[i]) by {
            if i < texts.len() - 1 {
                assert(rest[i] == texts[i]);
                let k = p.index_of(texts[i]);
                assert(persons_lines(m, texts)[k] == texts[i]);
            } else {
                assert(persons_lines(m, texts).last() == texts.last());
            }
        }
    }
}

/// The blank lines that open a text, read against a marker.
pub open spec fn opening_blanks(m: Marker, texts: Seq<Seq<char>>) -> Seq<Seq<char>>
    decreases texts.len(),
{
    if texts.len() == 0 {
        seq![]
    } else if opening_blanks(m, texts.drop_last()).len() == texts.len() - 1 && m.kind(
        texts.last(),
    ) is Blank {
        opening_blanks(m, texts.drop_last()).push(texts.last())
    } else {
        opening_blanks(m, texts.drop_last())
    }
}

/// Classified lines say of their texts what the marker says of them.
pub proof fn lemma_classified_texts(m: Marker, texts: Seq<Seq<char>>, lines: Seq<PrefixLine>)
    requires
        classified(m, texts, lines),
    ensures
        forall|k: LineKind| kind_texts(lines, k) == texts_of_kind(m, texts, k),
        user_kept(lines) == persons_lines(m, texts),
        blank_lead(lines) == opening_blanks(m, texts),
    decreases lines.len(),
{
    if lines.len() > 0 {
        let t = texts.drop_last();
        assert(texts_of(lines.drop_last()) =~= texts_of(lines).drop_last());
        assert(lines.last().text_view() == texts_of(lines)[lines.len() - 1]);
        assert(lines.last().kind() == m.kind(texts[lines.len() - 1]));
        lemma_classified_texts(m, t, lines.drop_last());
        assert forall|k: LineKind| kind_texts(lines, k) == texts_of_kind(m, texts, k) by {
            assert(kind_texts(lines.drop_last(), k) == texts_of_kind(m, t, k));
        }
        assert(kind_texts(lines.drop_last(), LineKind::User) == texts_of_kind(m, t, LineKind::User));
    } else {
        assert(texts.len() == 0);
        assert forall|k: LineKind| kind_texts(lines, k) == texts_of_kind(m, texts, k) by {}
    }
}

proof fn lemma_blank_lead_len(lines: Seq<PrefixLine>)
    ensures
        blank_lead(lines).len() <= lines.len(),
    decreases lines.len(),
{
    if lines.len() > 0 {
        lemma_blank_lead_len(lines.drop_last());
    }
}

/// Two classifications of the same texts agree on every text of every kind.
pub proof fn lemma_classified_agree(m: Marker, texts: Seq<Seq<char>>, a: Seq<PrefixLine>, b: Seq<PrefixLine>)
    requires
        classified(m, texts, a),
        classified(m, texts, b),
    ensures
        forall|k: LineKind| kind_texts(a, k) == kind_texts(b, k),
        blank_lead(a) == blank_lead(b),
        user_kept(a) == user_kept(b),
    decreases a.len(),
{
    if a.len() > 0 {
        let ta = texts.drop_last();
        assert(texts_of(a.drop_last()) =~= texts_of(a).drop_last());
        assert(texts_of(b.drop_last()) =~= texts_of(b).drop_last());
        assert(a.last().text_view() == texts_of(a)[a.len() - 1]);
        assert(b.last().text_view() == texts_of(b)[b.len() - 1]);
        assert(a.last().kind() == m.kind(texts[a.len() - 1]));
        assert(b.last().kind() == m.kind(texts[b.len() - 1]));
        lemma_classified_agree(m, ta, a.drop_last(), b.drop_last());
        assert forall|k: LineKind| kind_texts(a, k) == kind_texts(b, k) by {
            assert(kind_texts(a.drop_last(), k) == kind_texts(b.drop_last(), k));
        }
        assert(kind_texts(a.drop_last(), LineKind::User) == kind_texts(b.drop_last(), LineKind::User));
    } else {
        assert(b.len() == 0);
        assert forall|k: LineKind| kind_texts(a, k) == kind_texts(b, k) by {}
    }
}

/// The TOML text under a key's prose: either the shipped default the merge
/// records, or the samples the defaults author wrote for an option that ships
/// with no value of its own.
#[derive(Debug, PartialEq, Eq)]
pub enum Sample {
    /// The key ships no sample and the person has not departed from anything.
    Absent,
    /// The shipped default, recorded because the person's value differs.
    Echo(DefaultEcho),
    /// Sample lines from the defaults, carried across as written.
    Lines(Vec<String>),
}

/// The marker line recording the shipped default.
///
/// Written only when the user's value differs from it. A key whose value equals
/// the default, or one the merge inserted, gets no echo: the live value already
/// is the default.
#[derive(Debug, PartialEq, Eq)]
pub struct DefaultEcho {
    pub key: String,
    pub value: String,
}

/// The line recording a shipped default: `#: key = value`.
pub open spec fn echo_line_spec(m: Marker, e: DefaultEcho) -> Seq<char> {
    m.sample@ + seq![' '] + e.key@ + seq![' ', '=', ' '] + e.value@
}

/// The text a sample slot renders to.
pub open spec fn sample_text(m: Marker, s: Sample) -> Seq<char> {
    match s {
        Sample::Absent => seq![],
        Sample::Echo(e) => echo_line_spec(m, e) + seq!['\n'],
        Sample::Lines(lines) => terminated(views(lines@)),
    }
}

/// One key's rebuilt prefix.
///
/// Rendered in this order: text the defaults kept a blank line away from the
/// key, the blank lines above the block, the prose from the current defaults,
/// the TOML text under it, then the person's own comment lines. The person's
/// notes end up closest to the key they annotate.
#[derive(Debug, PartialEq, Eq)]
pub struct DocBlock {
    /// Text the defaults separated from the key by a blank line, kept verbatim.
    pub floating: Vec<String>,
    /// Blank lines above the block, as [`PrefixLine::Blank`] text.
    pub leading_blanks: Vec<String>,
    /// Prose from the defaults, as [`PrefixLine::Prose`] text.
    pub prose: Vec<String>,
    /// The TOML text under the prose.
    pub sample: Sample,
    /// The person's own comments, as [`PrefixLine::User`] text.
    pub user_lines: Vec<String>,
    /// Whitespace before the key itself, taken from whoever supplied the key.
    pub indent: String,
}

/// The text a block renders to.
pub open spec fn render_spec(b: DocBlock, m: Marker) -> Seq<char> {
    terminated(views(b.floating@)) + (if b.floating@.len() == 0 {
        terminated(views(b.leading_blanks@))
    } else {
        seq![]
    }) + terminated(views(b.prose@)) + sample_text(m, b.sample) + terminated(
        views(b.user_lines@),
    ) + b.indent@
}

/// What the sample slot holds once the sample lines of `lines` are taken into
/// it.
pub open spec fn sample_after(old: Sample, lines: Seq<PrefixLine>) -> Seq<Seq<char>> {
    let taken = kind_texts(lines, LineKind::Sample);
    match old {
        Sample::Lines(l) => views(l@) + taken,
        _ => taken,
    }
}

impl DocBlock {
    /// A block with nothing in it.
    pub fn empty() -> (b: Self)
        ensures
            b.floating@.len() == 0,
            b.leading_blanks@.len() == 0,
            b.prose@.len() == 0,
            b.sample is Absent,
            b.user_lines@.len() == 0,
            b.indent@.len() == 0,
    {
        DocBlock {
            floating: Vec::new(),
            leading_blanks: Vec::new(),
            prose: Vec::new(),
            sample: Sample::Absent,
            user_lines: Vec::new(),
            indent: String::new(),
        }
    }

    /// Takes the leading blank lines, the person's comments and the
    /// indentation from a prefix. The marker lines in it are dropped: they
    /// belong to the tool and are written again from the defaults. Blank lines
    /// that come after the person's first comment are theirs too: they set
    /// their paragraphs apart.
    pub fn keep_user_text(&mut self, prefix: &Prefix, marker: &Marker)
        ensures
            forall|lines: Seq<PrefixLine>|
                classified(*marker, complete_lines(prefix.raw@), lines) ==> {
                    &&& views(final(self).leading_blanks@) == views(old(self).leading_blanks@)
                        + blank_lead(lines)
                    &&& views(final(self).user_lines@) == views(old(self).user_lines@)
                        + user_kept(lines)
                },
            views(final(self).leading_blanks@) == views(old(self).leading_blanks@) + opening_blanks(
                *marker,
                complete_lines(prefix.raw@),
            ),
            views(final(self).user_lines@) == views(old(self).user_lines@) + persons_lines(
                *marker,
                complete_lines(prefix.raw@),
            ),
            final(self).indent@ == after_last_newline(prefix.raw@),
            final(self).floating == old(self).floating,
            final(self).prose == old(self).prose,
            final(self).sample == old(self).sample,
    {
        let lines = prefix.lines(marker);
        proof {
            lemma_classified_texts(*marker, complete_lines(prefix.raw@), lines@);
        }
        let mut seen_content = false;
        let mut seen_user = false;
        let mut i: usize = 0;
        let ghost blanks0 = views(self.leading_blanks@);
        let ghost users0 = views(self.user_lines@);
        while i < lines.len()
            invariant
                i <= lines@.len(),
                views(self.leading_blanks@) == blanks0 + blank_lead(lines@.subrange(0, i as int)),
                views(self.user_lines@) == users0 + user_kept(lines@.subrange(0, i as int)),
                seen_content == (blank_lead(lines@.subrange(0, i as int)).len() < i),
                seen_user == (kind_texts(lines@.subrange(0, i as int), LineKind::User).len() > 0),
                self.floating == old(self).floating,
                self.prose == old(self).prose,
                self.sample == old(self).sample,
            decreases lines.len() - i,
        {
            let ghost before = lines@.subrange(0, i as int);
            let ghost after = lines@.subrange(0, i + 1);
            assert(after.drop_last() =~= before);
            assert(after.last() == lines@[i as int]);
            proof {
                lemma_blank_lead_len(before);
            }
            match &lines[i] {
                PrefixLine::Blank { text } => {
                    if !seen_content {
                        let ghost prev = self.leading_blanks@;
                        self.leading_blanks.push(text.clone());
                        proof {
                            lemma_views_push(prev, *text);
                            assert(blank_lead(after) == blank_lead(before).push(text@));
                        }
                        assert(views(self.leading_blanks@) =~= blanks0 + blank_lead(after));
                    }
                    if seen_user {
                        let ghost prev = self.user_lines@;
                        self.user_lines.push(text.clone());
                        proof {
                            lemma_views_push(prev, *text);
                        }
                        assert(views(self.user_lines@) =~= users0 + user_kept(after));
                    }
                },
                PrefixLine::Prose { .. } => {
                    seen_content = true;
                },
                PrefixLine::Sample { .. } => {
                    seen_content = true;
                },
                PrefixLine::User { text } => {
                    seen_content = true;
                    seen_user = true;
                    let ghost prev = self.user_lines@;
                    self.user_lines.push(text.clone());
                    proof {
                        lemma_views_push(prev, *text);
                    }
                    assert(views(self.user_lines@) =~= users0 + user_kept(after));
                },
            }
            i = i + 1;
        }
        assert(lines@.subrange(0, lines@.len() as int) =~= lines@);
        self.indent = prefix.indent();
        proof {
            assert forall|ls: Seq<PrefixLine>|
                classified(*marker, complete_lines(prefix.raw@), ls) implies {
                &&& views(self.leading_blanks@) == blanks0 + blank_lead(ls)
                &&& views(self.user_lines@) == users0 + user_kept(ls)
            } by {
                lemma_classified_agree(*marker, complete_lines(prefix.raw@), lines@, ls);
            }
        }
    }

    /// Takes the prose and the samples from a prefix in the default document.
    /// Plain comments there are notes for whoever maintains the defaults and
    /// never reach a user's file.
    pub fn take_docs(&mut self, touching: &[PrefixLine])
        ensures
            views(final(self).prose@) == views(old(self).prose@) + kind_texts(
                touching@,
                LineKind::Prose,
            ),
            kind_texts(touching@, LineKind::Sample).len() == 0 ==> final(self).sample == old(
                self,
            ).sample,
            kind_texts(touching@, LineKind::Sample).len() > 0 ==> final(self).sample is Lines
                && views(final(self).sample->Lines_0@) == sample_after(old(self).sample, touching@),
            final(self).floating == old(self).floating,
            final(self).leading_blanks == old(self).leading_blanks,
            final(self).user_lines == old(self).user_lines,
            final(self).indent == old(self).indent,
    {
        let mut i: usize = 0;
        let ghost prose0 = views(self.prose@);
        let ghost sample0 = self.sample;
        while i < touching.len()
            invariant
                i <= touching@.len(),
                views(self.prose@) == prose0 + kind_texts(touching@.subrange(0, i as int), LineKind::Prose),
                kind_texts(touching@.subrange(0, i as int), LineKind::Sample).len() == 0 ==> self.sample == sample0,
                kind_texts(touching@.subrange(0, i as int), LineKind::Sample).len() > 0 ==> self.sample is Lines
                    && views(self.sample->Lines_0@) == sample_after(sample0, touching@.subrange(0, i as int)),
                self.floating == old(self).floating,
                self.leading_blanks == old(self).leading_blanks,
                self.user_lines == old(self).user_lines,
                self.indent == old(self).indent,
            decreases touching.len() - i,
        {
            let ghost before = touching@.subrange(0, i as int);
            let ghost after = touching@.subrange(0, i + 1);
            assert(after.drop_last() =~= before);
            assert(after.last() == touching@[i as int]);
            match &touching[i] {
                PrefixLine::Prose { text } => {
                    let ghost prev = self.prose@;
                    self.prose.push(text.clone());
                    proof {
                        lemma_views_push(prev, *text);
                        assert(kind_texts(after, LineKind::Prose) == kind_texts(before, LineKind::Prose).push(text@));
                    }
                    assert(views(self.prose@) =~= prose0 + kind_texts(after, LineKind::Prose));
                },
                PrefixLine::Sample { text } => {
                    let ghost was = self.sample;
                    let mut taken = Sample::Absent;
                    std::mem::swap(&mut taken, &mut self.sample);
                    proof {
                        assert(kind_texts(after, LineKind::Sample) == kind_texts(before, LineKind::Sample).push(text@));
                    }
                    match taken {
                        Sample::Lines(mut lines) => {
                            let ghost prev = lines@;
                            lines.push(text.clone());
                            proof {
                                lemma_views_push(prev, *text);
                            }
                            self.sample = Sample::Lines(lines);
                        },
                        _ => {
                            let mut lines: Vec<String> = Vec::new();
                            lines.push(text.clone());
                            proof {
                                lemma_views_push(Seq::empty(), *text);
                                assert(Seq::<String>::empty().push(*text) =~= lines@);
                            }
                            self.sample = Sample::Lines(lines);
                        },
                    }
                    assert(views(self.sample->Lines_0@) =~= sample_after(sample0, after));
                },
                _ => {},
            }
            i = i + 1;
        }
        assert(touching@.subrange(0, touching@.len() as int) =~= touching@);
    }

    /// The prefix text to write back.
    pub fn render(&self, marker: &Marker) -> (r: String)
        ensures
            r@ == render_spec(*self, *marker),
    {
        let mut out = String::new();
        push_lines(&mut out, &self.floating);
        if self.floating.len() == 0 {
            push_lines(&mut out, &self.leading_blanks);
        }
        push_lines(&mut out, &self.prose);
        match &self.sample {
            Sample::Absent => {},
            Sample::Echo(echo) => {
                let line = marker.echo_line(echo);
                out.append(line.as_str());
                push_char(&mut out, '\n');
            },
            Sample::Lines(lines) => {
                push_lines(&mut out, lines);
            },
        }
        push_lines(&mut out, &self.user_lines);
        out.append(self.indent.as_str());
        assert(out@ =~= render_spec(*self, *marker));
        out
    }
}

impl Marker {
    /// The line recording a shipped default.
    pub fn echo_line(&self, echo: &DefaultEcho) -> (r: String)
        ensures
            r@ == echo_line_spec(*self, *echo),
    {
        let mut out = self.sample.clone();
        push_char(&mut out, ' ');
        out.append(echo.key.as_str());
        push_char(&mut out, ' ');
        push_char(&mut out, '=');
        push_char(&mut out, ' ');
        out.append(echo.value.as_str());
        assert(out@ =~= echo_line_spec(*self, *echo));
        out
    }
}

proof fn lemma_hash_run_append(a: Seq<char>, b: Seq<char>)
    requires
        b.len() > 0,
        b[0] != '#',
    ensures
        hash_run(a + b) == hash_run(a),
    decreases a.len(),
{
    if a.len() > 0 {
        assert((a + b).drop_first() =~= a.drop_first() + b);
        lemma_hash_run_append(a.drop_first(), b);
    } else {
        assert(a + b =~= b);
    }
}

proof fn lemma_no_ws_run(s: Seq<char>)
    requires
        s.len() > 0,
        !is_ws(s[0]),
    ensures
        trim_start(s) == s,
{
    assert(ws_run(s) == 0);
    assert(s.skip(0) =~= s);
}

/// The line recording a shipped default is one the tool owns, so the next
/// merge writes it again from the defaults rather than keeping it as the
/// person's; and taken back off its marker it reads as the assignment it
/// records, `key = value`. This holds of any sample marker that does not
/// start with white space.
pub proof fn lemma_echo_line_is_the_tools(m: Marker, e: DefaultEcho)
    requires
        m.sample@.len() > 0,
        !is_ws(m.sample@[0]),
    ensures
        m.owns_spec(echo_line_spec(m, e)),
        undress_spec(m.prose@, m.sample@, echo_line_spec(m, e)) == e.key@ + seq![' ', '=', ' ']
            + e.value@,
{
    let line = echo_line_spec(m, e);
    let rest = seq![' '] + e.key@ + seq![' ', '=', ' '] + e.value@;
    assert(line =~= m.sample@ + rest);
    assert(line[0] == m.sample@[0]);
    lemma_no_ws_run(line);
    assert(line.subrange(0, m.sample@.len() as int) =~= m.sample@);
    assert(starts_with(trim_start(line), m.sample@));
    lemma_hash_run_append(m.sample@, rest);
    assert(carries_spec(m.sample@, line));
    assert(!all_ws(line)) by {
        assert(!is_ws(line[0]));
    }
    let body = line.skip(m.sample@.len() as int);
    assert(body =~= rest);
    assert(rest.drop_first() =~= e.key@ + seq![' ', '=', ' '] + e.value@);
}

} // verus!
