//! Standing text: what the defaults keep a blank line away from a key.
//!
//! Such text is read as a sequence of blocks. A blank line ends a block, and
//! so does a sample line opening a `[table]` header, because that line names a
//! key of its own.

use vstd::prelude::*;

use crate::decor::{Marker, PrefixLine, texts_of, undress_spec};
use crate::text::{all_ws, chars_of, leading_ws, trim_start, views, lemma_views_push};

verus! {

/// Whether a line is a sample whose TOML text opens a `[table]` or
/// `[[array]]` header.
pub open spec fn opens_table_spec(m: Marker, line: PrefixLine) -> bool {
    match line {
        PrefixLine::Sample { text } => {
            let body = trim_start(undress_spec(m.prose@, m.sample@, text@));
            body.len() > 0 && body[0] == '['
        },
        _ => false,
    }
}

/// How many prose lines sit directly above position `at`.
pub open spec fn prose_above(run: Seq<PrefixLine>, at: int) -> int
    decreases at,
{
    if at <= 0 || at > run.len() {
        0
    } else if run[at - 1] is Prose {
        1 + prose_above(run, at - 1)
    } else {
        0
    }
}

/// Where the blocks of a run of the tool's lines start, once positions
/// `1..n` have been looked at. A header opens a block, and the prose written
/// directly above it goes with it.
pub open spec fn cut_starts(run: Seq<PrefixLine>, m: Marker, n: int) -> Seq<int>
    decreases n,
{
    if n <= 1 {
        seq![0]
    } else {
        let prev = cut_starts(run, m, n - 1);
        let at = n - 1;
        let start = at - prose_above(run, at);
        if opens_table_spec(m, run[at]) && start > prev.last() {
            prev.push(start)
        } else {
            prev
        }
    }
}

/// The end of the piece that starts at `starts[i]`.
pub open spec fn piece_end(starts: Seq<int>, i: int, len: int) -> int {
    if i + 1 < starts.len() {
        starts[i + 1]
    } else {
        len
    }
}

/// One stretch of standing text.
#[derive(Debug, PartialEq, Eq)]
pub enum Standing {
    /// Blank lines, as written.
    Blanks(Vec<String>),
    /// The lines `start..end` of the text, a block of its own.
    Block(usize, usize),
}

/// What a [`Standing`] says, for contracts.
pub enum Run {
    Blanks(Seq<Seq<char>>),
    Block(int, int),
}

impl Standing {
    pub open spec fn run(&self) -> Run {
        match self {
            Standing::Blanks(lines) => Run::Blanks(views(lines@)),
            Standing::Block(start, end) => Run::Block(*start as int, *end as int),
        }
    }
}

/// The runs of a sequence of standing runs.
pub open spec fn runs_of(s: Seq<Standing>) -> Seq<Run> {
    s.map_values(|x: Standing| x.run())
}

/// The first position from `at` on that is not a blank line.
pub open spec fn blank_end(lines: Seq<PrefixLine>, at: int) -> int
    decreases lines.len() - at,
{
    if 0 <= at < lines.len() && lines[at] is Blank {
        blank_end(lines, at + 1)
    } else {
        at
    }
}

/// The first position from `at` on that is a blank line.
pub open spec fn content_end(lines: Seq<PrefixLine>, at: int) -> int
    decreases lines.len() - at,
{
    if 0 <= at < lines.len() && !(lines[at] is Blank) {
        content_end(lines, at + 1)
    } else {
        at
    }
}

/// The blocks of the lines `at..end`, cut where headers open.
pub open spec fn cut_blocks(lines: Seq<PrefixLine>, m: Marker, at: int, end: int) -> Seq<Run> {
    let run = lines.subrange(at, end);
    let starts = cut_starts(run, m, run.len() as int);
    Seq::new(
        starts.len(),
        |i: int| Run::Block(at + starts[i], at + piece_end(starts, i, run.len() as int)),
    )
}

/// Standing text from position `at` on, split into its runs.
pub open spec fn runs_from(lines: Seq<PrefixLine>, m: Marker, at: int) -> Seq<Run>
    decreases lines.len() - at,
{
    if at < 0 || at >= lines.len() {
        seq![]
    } else if lines[at] is Blank {
        let e = blank_end(lines, at);
        if e <= at || e > lines.len() {
            seq![]
        } else {
            seq![Run::Blanks(texts_of(lines.subrange(at, e)))] + runs_from(lines, m, e)
        }
    } else {
        let e = content_end(lines, at);
        if e <= at || e > lines.len() {
            seq![]
        } else {
            cut_blocks(lines, m, at, e) + runs_from(lines, m, e)
        }
    }
}

proof fn lemma_blank_end(lines: Seq<PrefixLine>, at: int)
    requires
        0 <= at <= lines.len(),
    ensures
        at <= blank_end(lines, at) <= lines.len(),
        forall|j: int| at <= j < blank_end(lines, at) ==> #[trigger] lines[j] is Blank,
        blank_end(lines, at) < lines.len() ==> !(lines[blank_end(lines, at)] is Blank),
    decreases lines.len() - at,
{
    if at < lines.len() && lines[at] is Blank {
        lemma_blank_end(lines, at + 1);
    }
}

proof fn lemma_content_end(lines: Seq<PrefixLine>, at: int)
    requires
        0 <= at <= lines.len(),
    ensures
        at <= content_end(lines, at) <= lines.len(),
        forall|j: int| at <= j < content_end(lines, at) ==> !(#[trigger] lines[j] is Blank),
        content_end(lines, at) < lines.len() ==> lines[content_end(lines, at)] is Blank,
    decreases lines.len() - at,
{
    if at < lines.len() && !(lines[at] is Blank) {
        lemma_content_end(lines, at + 1);
    }
}

proof fn lemma_prose_above(run: Seq<PrefixLine>, at: int)
    requires
        0 <= at <= run.len(),
    ensures
        0 <= prose_above(run, at) <= at,
    decreases at,
{
    if at > 0 && run[at - 1] is Prose {
        lemma_prose_above(run, at - 1);
    }
}

/// The block starts begin at 0, climb strictly, and stay inside the run.
pub proof fn lemma_cut_starts(run: Seq<PrefixLine>, m: Marker, n: int)
    requires
        n <= run.len(),
    ensures
        cut_starts(run, m, n).len() >= 1,
        cut_starts(run, m, n)[0] == 0,
        forall|i: int, j: int|
            0 <= i < j < cut_starts(run, m, n).len() ==> cut_starts(run, m, n)[i] < cut_starts(
                run,
                m,
                n,
            )[j],
        forall|i: int|
            0 <= i < cut_starts(run, m, n).len() ==> 0 <= #[trigger] cut_starts(run, m, n)[i]
                && (cut_starts(run, m, n)[i] == 0 || cut_starts(run, m, n)[i] < n),
    decreases n,
{
    if n > 1 {
        lemma_cut_starts(run, m, n - 1);
        lemma_prose_above(run, n - 1);
    }
}

/// Whether a line opens a `[table]` header in its TOML text.
pub fn opens_table(line: &PrefixLine, marker: &Marker) -> (r: bool)
    ensures
        r == opens_table_spec(*marker, *line),
{
    match line {
        PrefixLine::Sample { text } => {
            let body = marker.undress(text.as_str());
            let cs = chars_of(body.as_str());
            let k = leading_ws(&cs);
            assert(trim_start(cs@) == cs@.skip(k as int));
            k < cs.len() && cs[k] == '['
        },
        _ => false,
    }
}

/// One run of the tool's lines, cut where a new `[table]` header takes over,
/// as the ranges of the pieces.
pub fn split_at_headers(run: &[PrefixLine], marker: &Marker) -> (r: Vec<(usize, usize)>)
    ensures
        r@.len() == cut_starts(run@, *marker, run@.len() as int).len(),
        forall|i: int|
            0 <= i < r@.len() ==> (#[trigger] r@[i]).0 == cut_starts(
                run@,
                *marker,
                run@.len() as int,
            )[i] && r@[i].1 == piece_end(
                cut_starts(run@, *marker, run@.len() as int),
                i,
                run@.len() as int,
            ),
{
    let mut starts: Vec<usize> = Vec::new();
    starts.push(0);
    let mut at: usize = 1;
    while at < run.len()
        invariant
            1 <= at,
            run@.len() >= 1 ==> at <= run@.len(),
            run@.len() == 0 ==> at == 1,
            starts@.len() == cut_starts(run@, *marker, at as int).len(),
            forall|i: int|
                0 <= i < starts@.len() ==> (#[trigger] starts@[i]) as int == cut_starts(
                    run@,
                    *marker,
                    at as int,
                )[i],
        decreases run.len() - at,
    {
        proof {
            lemma_cut_starts(run@, *marker, at as int);
        }
        if opens_table(&run[at], marker) {
            let mut start: usize = at;
            while start > 0 && run[start - 1].is_prose()
                invariant
                    start <= at < run@.len(),
                    prose_above(run@, at as int) == (at - start) + prose_above(run@, start as int),
                decreases start,
            {
                start = start - 1;
            }
            let last = starts[starts.len() - 1];
            if start > last {
                starts.push(start);
            }
        }
        at = at + 1;
    }
    proof {
        if run@.len() == 0 {
            assert(cut_starts(run@, *marker, 0) == cut_starts(run@, *marker, 1));
        }
    }
    let mut out: Vec<(usize, usize)> = Vec::new();
    let mut n: usize = 0;
    while n < starts.len()
        invariant
            n <= starts@.len(),
            out@.len() == n,
            starts@.len() == cut_starts(run@, *marker, run@.len() as int).len(),
            forall|i: int|
                0 <= i < starts@.len() ==> (#[trigger] starts@[i]) as int == cut_starts(
                    run@,
                    *marker,
                    run@.len() as int,
                )[i],
            forall|i: int|
                0 <= i < n ==> (#[trigger] out@[i]).0 == cut_starts(
                    run@,
                    *marker,
                    run@.len() as int,
                )[i] && out@[i].1 == piece_end(
                    cut_starts(run@, *marker, run@.len() as int),
                    i,
                    run@.len() as int,
                ),
        decreases starts.len() - n,
    {
        let end = if n + 1 < starts.len() {
            starts[n + 1]
        } else {
            run.len()
        };
        out.push((starts[n], end));
        n = n + 1;
    }
    out
}

impl PrefixLine {
    /// Whether the line is the tool's prose.
    pub fn is_prose(&self) -> (r: bool)
        ensures
            r == (*self is Prose),
    {
        match self {
            PrefixLine::Prose { .. } => true,
            _ => false,
        }
    }
}

/// Copies of the lines `from..to`.
pub fn copy_lines(lines: &[PrefixLine], from: usize, to: usize) -> (r: Vec<PrefixLine>)
    requires
        from <= to <= lines@.len(),
    ensures
        r@ == lines@.subrange(from as int, to as int),
{
    let mut out: Vec<PrefixLine> = Vec::new();
    let mut i: usize = from;
    while i < to
        invariant
            from <= i <= to,
            to <= lines@.len(),
            out@ == lines@.subrange(from as int, i as int),
        decreases to - i,
    {
        out.push(lines[i].duplicate());
        i = i + 1;
        assert(out@ =~= lines@.subrange(from as int, i as int));
    }
    out
}

/// The texts of the lines `from..to`.
pub fn line_texts(lines: &[PrefixLine], from: usize, to: usize) -> (r: Vec<String>)
    requires
        from <= to <= lines@.len(),
    ensures
        views(r@) == texts_of(lines@.subrange(from as int, to as int)),
{
    let mut out: Vec<String> = Vec::new();
    let mut i: usize = from;
    while i < to
        invariant
            from <= i <= to,
            to <= lines@.len(),
            views(out@) == texts_of(lines@.subrange(from as int, i as int)),
        decreases to - i,
    {
        let ghost prev = out@;
        let t = lines[i].text().to_owned();
        out.push(t);
        proof {
            lemma_views_push(prev, t);
        }
        i = i + 1;
        assert(views(out@) =~= texts_of(lines@.subrange(from as int, i as int)));
    }
    out
}

/// Standing text split into its blocks, keeping the blank lines between them.
///
/// A blank line ends a block. So does a sample line opening a `[table]`
/// header: it names a key of its own, so what follows documents that key and
/// not the last one. Prose written directly above such a header introduces it,
/// and goes with the block the header opens.
pub fn standing_runs(lines: &[PrefixLine], marker: &Marker) -> (r: Vec<Standing>)
    ensures
        runs_of(r@) == runs_from(lines@, *marker, 0),
        (forall|k: int| 0 <= k < lines@.len() && (#[trigger] lines@[k]) is Blank ==> all_ws(
            lines@[k].text_view(),
        )) ==> forall|i: int, j: int|
            0 <= i < r@.len() && r@[i] is Blanks && 0 <= j < r@[i]->Blanks_0@.len()
                ==> all_ws(#[trigger] r@[i]->Blanks_0@[j]@),
{
    let ghost blanks_blank = forall|k: int| 0 <= k < lines@.len() && (#[trigger] lines@[k]) is Blank ==> all_ws(
        lines@[k].text_view(),
    );
    let mut out: Vec<Standing> = Vec::new();
    let mut at: usize = 0;
    while at < lines.len()
        invariant
            at <= lines@.len(),
            runs_of(out@) + runs_from(lines@, *marker, at as int) == runs_from(lines@, *marker, 0),
            blanks_blank == forall|k: int| 0 <= k < lines@.len() && (#[trigger] lines@[k]) is Blank ==> all_ws(
                lines@[k].text_view(),
            ),
            blanks_blank ==> forall|i: int, j: int|
                0 <= i < out@.len() && out@[i] is Blanks && 0 <= j < out@[i]->Blanks_0@.len()
                    ==> all_ws(#[trigger] out@[i]->Blanks_0@[j]@),
        decreases lines.len() - at,
    {
        let start = at;
        if lines[at].is_blank() {
            proof {
                lemma_blank_end(lines@, start as int);
            }
            while at < lines.len() && lines[at].is_blank()
                invariant
                    start <= at <= lines@.len(),
                    blank_end(lines@, start as int) == blank_end(lines@, at as int),
                    at > start || lines@[start as int] is Blank,
                    forall|k: int| start <= k < at ==> (#[trigger] lines@[k]) is Blank,
                decreases lines.len() - at,
            {
                at = at + 1;
            }
            let texts = line_texts(lines, start, at);
            let ghost before = out@;
            proof {
                if blanks_blank {
                    assert(views(texts@).len() == texts@.len());
                    assert(texts_of(lines@.subrange(start as int, at as int)).len() == at - start);
                    assert forall|j: int| 0 <= j < texts@.len() implies all_ws(#[trigger] texts@[j]@) by {
                        assert(views(texts@)[j] == texts@[j]@);
                        assert(texts_of(lines@.subrange(start as int, at as int))[j] == lines@[start + j].text_view());
                        assert(lines@[start + j] is Blank);
                    }
                }
            }
            let ghost pushed = Standing::Blanks(texts);
            out.push(Standing::Blanks(texts));
            proof {
                if blanks_blank {
                    assert forall|i: int, j: int|
                        0 <= i < out@.len() && out@[i] is Blanks && 0 <= j < out@[i]->Blanks_0@.len()
                            implies all_ws(#[trigger] out@[i]->Blanks_0@[j]@) by {
                        if i < before.len() {
                            assert(out@[i] == before[i]);
                        }
                    }
                }
            }
            assert(runs_of(out@) =~= runs_of(before).push(Run::Blanks(views(texts@))));
            assert(runs_from(lines@, *marker, start as int) =~= seq![
                Run::Blanks(texts_of(lines@.subrange(start as int, at as int))),
            ] + runs_from(lines@, *marker, at as int));
            assert(runs_of(out@) + runs_from(lines@, *marker, at as int) =~= runs_of(before)
                + runs_from(lines@, *marker, start as int));
        } else {
            proof {
                lemma_content_end(lines@, start as int);
            }
            while at < lines.len() && !lines[at].is_blank()
                invariant
                    start <= at <= lines@.len(),
                    content_end(lines@, start as int) == content_end(lines@, at as int),
                    at > start || !(lines@[start as int] is Blank),
                decreases lines.len() - at,
            {
                at = at + 1;
            }
            let run = copy_lines(lines, start, at);
            let pieces = split_at_headers(&run, marker);
            let ghost starts = cut_starts(run@, *marker, run@.len() as int);
            proof {
                lemma_cut_starts(run@, *marker, run@.len() as int);
            }
            let ghost before = out@;
            let ghost cut = cut_blocks(lines@, *marker, start as int, at as int);
            let mut n: usize = 0;
            while n < pieces.len()
                invariant
                    n <= pieces@.len(),
                    pieces@.len() == cut.len(),
                    start <= at <= lines@.len(),
                    run@ == lines@.subrange(start as int, at as int),
                    starts == cut_starts(run@, *marker, run@.len() as int),
                    cut == cut_blocks(lines@, *marker, start as int, at as int),
                    forall|i: int|
                        0 <= i < pieces@.len() ==> (#[trigger] pieces@[i]).0 == starts[i]
                            && pieces@[i].1 == piece_end(starts, i, run@.len() as int),
                    forall|i: int|
                        0 <= i < starts.len() ==> 0 <= #[trigger] starts[i] <= run@.len(),
                    runs_of(out@) == runs_of(before) + cut.subrange(0, n as int),
                    blanks_blank == forall|k: int| 0 <= k < lines@.len() && (#[trigger] lines@[k]) is Blank ==> all_ws(
                        lines@[k].text_view(),
                    ),
                    blanks_blank ==> forall|i: int, j: int|
                        0 <= i < out@.len() && out@[i] is Blanks && 0 <= j < out@[i]->Blanks_0@.len()
                            ==> all_ws(#[trigger] out@[i]->Blanks_0@[j]@),
                decreases pieces.len() - n,
            {
                let (a, b) = pieces[n];
                let ghost prev = out@;
                out.push(Standing::Block(start + a, start + b));
                proof {
                    if blanks_blank {
                        assert forall|i: int, j: int|
                            0 <= i < out@.len() && out@[i] is Blanks && 0 <= j < out@[i]->Blanks_0@.len()
                                implies all_ws(#[trigger] out@[i]->Blanks_0@[j]@) by {
                            if i < prev.len() {
                                assert(out@[i] == prev[i]);
                            }
                        }
                    }
                }
                assert(cut[n as int] == Run::Block(start + starts[n as int], start + piece_end(starts, n as int, run@.len() as int)));
                assert(runs_of(out@) =~= runs_of(prev).push(cut[n as int]));
                assert(cut.subrange(0, n + 1) =~= cut.subrange(0, n as int).push(cut[n as int]));
                n = n + 1;
            }
            assert(cut.subrange(0, n as int) =~= cut);
            assert(runs_from(lines@, *marker, start as int) =~= cut + runs_from(lines@, *marker, at as int));
            assert(runs_of(out@) + runs_from(lines@, *marker, at as int) =~= runs_of(before)
                + runs_from(lines@, *marker, start as int));
        }
    }
    assert(runs_from(lines@, *marker, at as int) =~= Seq::<Run>::empty());
    assert(runs_of(out@) =~= runs_of(out@) + Seq::<Run>::empty());
    out
}

/// The blocks of a sequence of runs, in order.
pub open spec fn blocks_of(runs: Seq<Run>) -> Seq<(int, int)>
    decreases runs.len(),
{
    if runs.len() == 0 {
        seq![]
    } else {
        let rest = blocks_of(runs.drop_last());
        match runs.last() {
            Run::Block(a, b) => rest.push((a, b)),
            Run::Blanks(_) => rest,
        }
    }
}

/// The blocks in a stretch of standing text, as the ranges of their lines.
pub fn blocks(lines: &[PrefixLine], marker: &Marker) -> (r: Vec<(usize, usize)>)
    ensures
        r@.len() == blocks_of(runs_from(lines@, *marker, 0)).len(),
        forall|i: int|
            0 <= i < r@.len() ==> ((#[trigger] r@[i]).0 as int, r@[i].1 as int) == blocks_of(
                runs_from(lines@, *marker, 0),
            )[i],
{
    let runs = standing_runs(lines, marker);
    let ghost all = runs_of(runs@);
    let mut out: Vec<(usize, usize)> = Vec::new();
    let mut i: usize = 0;
    while i < runs.len()
        invariant
            i <= runs@.len(),
            all == runs_of(runs@),
            out@.len() == blocks_of(all.subrange(0, i as int)).len(),
            forall|j: int|
                0 <= j < out@.len() ==> ((#[trigger] out@[j]).0 as int, out@[j].1 as int)
                    == blocks_of(all.subrange(0, i as int))[j],
        decreases runs.len() - i,
    {
        assert(all.subrange(0, i + 1).drop_last() =~= all.subrange(0, i as int));
        match &runs[i] {
            Standing::Block(a, b) => {
                out.push((*a, *b));
            },
            Standing::Blanks(_) => {},
        }
        i = i + 1;
    }
    assert(all.subrange(0, i as int) =~= all);
    out
}

/// The blank lines that end a stretch of standing text.
pub open spec fn trailing_blanks(lines: Seq<PrefixLine>) -> Seq<Seq<char>>
    decreases lines.len(),
{
    if lines.len() > 0 && lines.last() is Blank {
        trailing_blanks(lines.drop_last()).push(lines.last().text_view())
    } else {
        seq![]
    }
}

/// The blank lines a key has above it in the defaults, as they were written.
/// They separate one documented option from the last when the person wrote no
/// blank lines of their own.
pub fn leading_blanks(floating: &[PrefixLine]) -> (r: Vec<String>)
    ensures
        views(r@) == trailing_blanks(floating@),
{
    let mut k: usize = floating.len();
    assert(floating@.subrange(0, k as int) =~= floating@);
    assert(texts_of(floating@.subrange(k as int, k as int)) =~= Seq::<Seq<char>>::empty());
    while k > 0 && floating[k - 1].is_blank()
        invariant
            k <= floating@.len(),
            forall|j: int| k <= j < floating@.len() ==> #[trigger] floating@[j] is Blank,
            trailing_blanks(floating@) == trailing_blanks(floating@.subrange(0, k as int))
                + texts_of(floating@.subrange(k as int, floating@.len() as int)),
        decreases k,
    {
        let ghost s = floating@.subrange(0, k as int);
        assert(s.drop_last() =~= floating@.subrange(0, k - 1));
        assert(texts_of(floating@.subrange(k - 1, floating@.len() as int)) =~= seq![
            s.last().text_view(),
        ] + texts_of(floating@.subrange(k as int, floating@.len() as int)));
        assert(trailing_blanks(s) == trailing_blanks(s.drop_last()).push(s.last().text_view()));
        assert(trailing_blanks(s.drop_last()).push(s.last().text_view()) + texts_of(
            floating@.subrange(k as int, floating@.len() as int),
        ) =~= trailing_blanks(s.drop_last()) + (seq![s.last().text_view()] + texts_of(
            floating@.subrange(k as int, floating@.len() as int),
        )));
        k = k - 1;
    }
    proof {
        let s = floating@.subrange(0, k as int);
        if k > 0 {
            assert(s.last() == floating@[k - 1]);
        }
        assert(trailing_blanks(s) =~= Seq::<Seq<char>>::empty());
    }
    let r = line_texts(floating, k, floating.len());
    assert(views(r@) =~= trailing_blanks(floating@));
    r
}

} // verus!
