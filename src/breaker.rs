use vstd::prelude::*;
use crate::cost::{badness, badness_of, lemma_badness_bounds, max_badness, MAX_MEASURE};
use crate::text::{gap, lemma_line_len_bounds, lemma_padded_split, line_len, padded, Word};

verus! {

/// Returns a table such that `lengths[i][j]` is the length of a line that
/// starts with word `i` and ends with word `i + j`.
pub fn line_lengths(line: &[Word]) -> (lengths: Vec<Vec<usize>>)
    requires
        padded(line@, 0, line@.len() as int) <= usize::MAX,
    ensures
        lengths@.len() == line@.len(),
        forall|i: int| 0 <= i < line@.len() ==> #[trigger] lengths@[i]@.len() == line@.len() - i,
        forall|i: int, j: int|
            0 <= i && 0 <= j && i + j < line@.len() ==> #[trigger] lengths@[i]@[j] == line_len(
                line@,
                i,
                i + j + 1,
            ),
{
    let n = line.len();
    let ghost ws = line@;
    let mut lengths: Vec<Vec<usize>> = Vec::new();
    let mut i: usize = 0;
    while i < n
        invariant
            i <= n == ws.len(),
            ws == line@,
            padded(ws, 0, n as int) <= usize::MAX,
            lengths@.len() == i,
            forall|a: int| 0 <= a < i ==> #[trigger] lengths@[a]@.len() == n - a,
            forall|a: int, b: int|
                0 <= a < i && 0 <= b && a + b < n ==> #[trigger] lengths@[a]@[b] == line_len(
                    ws,
                    a,
                    a + b + 1,
                ),
        decreases n - i,
    {
        let mut row: Vec<usize> = Vec::new();
        let mut length: usize = 0;
        let mut k: usize = i;
        while k < n
            invariant
                i < n == ws.len(),
                ws == line@,
                i <= k <= n,
                padded(ws, 0, n as int) <= usize::MAX,
                length == padded(ws, i as int, k as int),
                row@.len() == k - i,
                forall|b: int|
                    0 <= b < k - i ==> #[trigger] row@[b] == line_len(ws, i as int, i + b + 1),
            decreases n - k,
        {
            proof {
                lemma_padded_split(ws, 0, i as int, (k + 1) as int);
                lemma_padded_split(ws, 0, (k + 1) as int, n as int);
                crate::text::lemma_padded_lower(ws, 0, i as int);
                crate::text::lemma_padded_lower(ws, (k + 1) as int, n as int);
                assert(padded(ws, i as int, k + 1) == padded(ws, i as int, k as int)
                    + ws[k as int]@.0.len() + gap(ws[k as int]@));
            }
            let w = &line[k];
            length = length + w.len_chars();
            row.push(length);
            if w.ends_sentence() {
                length = length + 2;
            } else {
                length = length + 1;
            }
            k = k + 1;
        }
        lengths.push(row);
        i = i + 1;
    }
    lengths
}

/// The configuration of the line breaker: the target width, and whether the
/// last line is to be made as long as the others (no short-last-line discount).
pub struct Args {
    pub flag_last: bool,
    pub flag_width: usize,
}

/// Cost of the line made of the `j` words from `i`: its badness, divided by a
/// hundred when it ends the paragraph, `last` is off and its length lies
/// strictly between a quarter of the width and the width.
pub open spec fn line_cost(ws: Seq<Word>, width: int, last: bool, i: int, j: int) -> int {
    let len = line_len(ws, i, i + j);
    let b = badness_of(len, width);
    if !last && i + j == ws.len() && width / 4 < len && len < width {
        b / 100
    } else {
        b
    }
}

/// The optimum for the words from `i` to the end: `(cost, span)`, where `span`
/// is the number of words of the first line. `(0, 0)` for the empty suffix.
pub open spec fn best(ws: Seq<Word>, width: int, last: bool, i: int) -> (int, int)
    decreases ws.len() - i, ws.len() - i + 1,
{
    if i < 0 || i >= ws.len() {
        (0, 0)
    } else {
        scan(ws, width, last, i, ws.len() - i)
    }
}

/// The best first line from `i` among spans `1..=j`: the first span of least
/// cost, counting the optimum of what follows it.
pub open spec fn scan(ws: Seq<Word>, width: int, last: bool, i: int, j: int) -> (int, int)
    decreases ws.len() - i, j,
{
    if j <= 0 || i < 0 || i + j > ws.len() {
        (0, 0)
    } else {
        let c = line_cost(ws, width, last, i, j) + best(ws, width, last, i + j).0;
        if j == 1 {
            (c, 1)
        } else {
            let p = scan(ws, width, last, i, j - 1);
            if c < p.0 {
                (c, j)
            } else {
                p
            }
        }
    }
}

/// The spans of the chosen lines from word `i` on, following the optimum.
pub open spec fn chosen(ws: Seq<Word>, width: int, last: bool, i: int) -> Seq<int>
    decreases ws.len() - i,
{
    let k = best(ws, width, last, i).1;
    if i < 0 || i >= ws.len() || k < 1 || i + k > ws.len() {
        seq![]
    } else {
        seq![k] + chosen(ws, width, last, i + k)
    }
}

/// The lines cut from `ws` by `spans`, the first one starting at word `i`.
pub open spec fn lines_from(ws: Seq<Word>, spans: Seq<int>, i: int) -> Seq<Seq<Word>>
    decreases spans.len(),
{
    if spans.len() == 0 {
        seq![]
    } else {
        seq![ws.subrange(i, i + spans[0])] + lines_from(ws, spans.drop_first(), i + spans[0])
    }
}

/// The lines that the optimal breaking gives to the paragraph `ws`.
pub open spec fn layout(ws: Seq<Word>, width: int, last: bool) -> Seq<Seq<Word>> {
    lines_from(ws, chosen(ws, width, last, 0), 0)
}

/// What the line breaker needs so that its lengths and costs stay in range.
pub open spec fn within_measure(ws: Seq<Word>, width: int) -> bool {
    0 <= width <= MAX_MEASURE && padded(ws, 0, ws.len() as int) <= MAX_MEASURE
}

/// Whether the line breaker can take the paragraph `text` at `width`.
pub fn fits_measure(text: &[Word], width: usize) -> (r: bool)
    ensures
        r == within_measure(text@, width as int),
{
    if width > MAX_MEASURE {
        return false;
    }
    let ghost ws = text@;
    let n = text.len();
    let mut total: usize = 0;
    let mut k: usize = 0;
    while k < n
        invariant
            ws == text@,
            n == ws.len(),
            k <= n,
            total == padded(ws, 0, k as int),
            total <= MAX_MEASURE,
        decreases n - k,
    {
        let w = &text[k];
        let l = w.len_chars();
        let g: usize = if w.ends_sentence() {
            2
        } else {
            1
        };
        proof {
            assert(padded(ws, 0, k + 1) == total + l + g);
            lemma_padded_split(ws, 0, (k + 1) as int, n as int);
            crate::text::lemma_padded_lower(ws, (k + 1) as int, n as int);
        }
        if l > MAX_MEASURE - total || g > MAX_MEASURE - total - l {
            return false;
        }
        total = total + l + g;
        k = k + 1;
    }
    true
}

pub proof fn lemma_line_cost_bounds(ws: Seq<Word>, width: int, last: bool, i: int, j: int)
    requires
        within_measure(ws, width),
        0 <= i,
        1 <= j,
        i + j <= ws.len(),
    ensures
        0 <= line_cost(ws, width, last, i, j) <= max_badness(),
{
    lemma_line_len_bounds(ws, i, i + j);
    lemma_badness_bounds(line_len(ws, i, i + j), width);
}

pub proof fn lemma_best_bounds(ws: Seq<Word>, width: int, last: bool, i: int)
    requires
        within_measure(ws, width),
        0 <= i <= ws.len(),
    ensures
        0 <= best(ws, width, last, i).0 <= (ws.len() - i) * max_badness(),
        i < ws.len() ==> 1 <= best(ws, width, last, i).1 <= ws.len() - i,
    decreases ws.len() - i, ws.len() - i + 1,
{
    if i < ws.len() {
        lemma_scan_bounds(ws, width, last, i, ws.len() - i);
    }
}

pub proof fn lemma_scan_bounds(ws: Seq<Word>, width: int, last: bool, i: int, j: int)
    requires
        within_measure(ws, width),
        0 <= i,
        1 <= j,
        i + j <= ws.len(),
    ensures
        0 <= scan(ws, width, last, i, j).0 <= (ws.len() - i) * max_badness(),
        1 <= scan(ws, width, last, i, j).1 <= j,
    decreases ws.len() - i, j,
{
    lemma_line_cost_bounds(ws, width, last, i, j);
    lemma_best_bounds(ws, width, last, i + j);
    let m = max_badness();
    let r = ws.len() - i;
    assert(m + (r - j) * m <= r * m) by (nonlinear_arith)
        requires
            j >= 1,
            m >= 0,
    ;
    if j > 1 {
        lemma_scan_bounds(ws, width, last, i, j - 1);
    }
}

/// The total cost of a paragraph stays below `u128::MAX`.
proof fn lemma_total_fits(ws: Seq<Word>, width: int)
    requires
        within_measure(ws, width),
    ensures
        ws.len() * max_badness() <= u128::MAX,
{
    let n = ws.len() as int;
    let m = MAX_MEASURE as int;
    let c = max_badness();
    if n > 0 {
        lemma_line_len_bounds(ws, 0, n);
    }
    assert(n * c <= m * c) by (nonlinear_arith)
        requires
            0 <= n <= m,
            c == m * m * m,
    ;
    assert(m * c <= u128::MAX) by (nonlinear_arith)
        requires
            m == 4294967295,
            c == m * m * m,
    ;
}

/// A paragraph broken into lines, each line a run of its words.
pub struct Paragraph<'a> {
    pub paragraph: Vec<&'a [Word]>,
    pub maxwidth: usize,
}

impl<'a> View for Paragraph<'a> {
    type V = Seq<Seq<Word>>;

    open spec fn view(&self) -> Seq<Seq<Word>> {
        self.paragraph@.map_values(|l: &'a [Word]| l@)
    }
}

/// Breaks the paragraph `text` into the lines of least total cost.
pub fn reformat<'a>(text: &'a [Word], args: &Args) -> (p: Paragraph<'a>)
    requires
        within_measure(text@, args.flag_width as int),
    ensures
        p@ == layout(text@, args.flag_width as int, args.flag_last),
        p.maxwidth == args.flag_width,
{
    let width = args.flag_width;
    let last = args.flag_last;
    let n = text.len();
    let ghost ws = text@;
    let ghost w = width as int;
    proof {
        lemma_total_fits(ws, w);
        if n > 0 {
            lemma_line_len_bounds(ws, 0, n as int);
        }
    }
    let lengths = line_lengths(text);
    // dp[k] holds the optimum for the words from n - k on.
    let mut dp: Vec<(u128, usize)> = Vec::new();
    dp.push((0, 0));
    let mut i: usize = n;
    while i > 0
        invariant
            n == ws.len(),
            ws == text@,
            w == width,
            within_measure(ws, w),
            ws.len() * max_badness() <= u128::MAX,
            i <= n <= MAX_MEASURE,
            dp@.len() == n - i + 1,
            forall|k: int|
                0 <= k < dp@.len() ==> (#[trigger] dp@[k].0 as int, dp@[k].1 as int) == best(
                    ws,
                    w,
                    last,
                    n - k,
                ),
            lengths@.len() == n,
            forall|a: int| 0 <= a < n ==> #[trigger] lengths@[a]@.len() == n - a,
            forall|a: int, b: int|
                0 <= a && 0 <= b && a + b < n ==> #[trigger] lengths@[a]@[b] == line_len(
                    ws,
                    a,
                    a + b + 1,
                ),
        decreases i,
    {
        i = i - 1;
        let mut min_bad: u128 = 0;
        let mut min_span: usize = 0;
        let mut j: usize = 0;
        while j < n - i
            invariant
                n == ws.len(),
                ws == text@,
                w == width,
                within_measure(ws, w),
                ws.len() * max_badness() <= u128::MAX,
                i < n <= MAX_MEASURE,
                0 <= j <= n - i,
                dp@.len() == n - i,
                forall|k: int|
                    0 <= k < dp@.len() ==> (#[trigger] dp@[k].0 as int, dp@[k].1 as int) == best(
                        ws,
                        w,
                        last,
                        n - k,
                    ),
                lengths@.len() == n,
                forall|a: int| 0 <= a < n ==> #[trigger] lengths@[a]@.len() == n - a,
                forall|a: int, b: int|
                    0 <= a && 0 <= b && a + b < n ==> #[trigger] lengths@[a]@[b] == line_len(
                        ws,
                        a,
                        a + b + 1,
                    ),
                j > 0 ==> (min_bad as int, min_span as int) == scan(ws, w, last, i as int, j as int),
            decreases n - i - j,
        {
            let span = j + 1;
            let length = lengths[i][j];
            proof {
                lemma_line_len_bounds(ws, i as int, i + span);
                lemma_line_cost_bounds(ws, w, last, i as int, span as int);
                lemma_best_bounds(ws, w, last, i + span);
                lemma_scan_bounds(ws, w, last, i as int, span as int);
                assert(dp@[n - (i + span)].0 as int == best(ws, w, last, i + span).0);
                let m = max_badness();
                assert(m + (n - i - span) * m <= n * m) by (nonlinear_arith)
                    requires
                        i + span >= 1,
                        m >= 0,
                ;
            }
            let mut local_bad = badness(length, width);
            if !last && i + span == n && width / 4 < length && length < width {
                local_bad = local_bad / 100;
            }
            assert(length == line_len(ws, i as int, i + j + 1));
            assert(local_bad == line_cost(ws, w, last, i as int, span as int));
            local_bad = local_bad + dp[n - span - i].0;
            if span == 1 || local_bad < min_bad {
                min_bad = local_bad;
                min_span = span;
            }
            assert((min_bad as int, min_span as int) == scan(ws, w, last, i as int, span as int));
            j = span;
        }
        dp.push((min_bad, min_span));
    }
    let ghost spans = chosen(ws, w, last, 0);
    let mut paragraph: Vec<&'a [Word]> = Vec::new();
    let mut i: usize = 0;
    while i < n
        invariant
            n == ws.len(),
            ws == text@,
            w == width,
            within_measure(ws, w),
            i <= n,
            dp@.len() == n + 1,
            forall|k: int|
                0 <= k < dp@.len() ==> (#[trigger] dp@[k].0 as int, dp@[k].1 as int) == best(
                    ws,
                    w,
                    last,
                    n - k,
                ),
            paragraph@.map_values(|l: &'a [Word]| l@) + lines_from(
                ws,
                chosen(ws, w, last, i as int),
                i as int,
            ) == layout(ws, w, last),
        decreases n - i,
    {
        let k = dp[n - i].1;
        proof {
            lemma_best_bounds(ws, w, last, i as int);
            let e = dp@[n - i];
            assert((e.0 as int, e.1 as int) == best(ws, w, last, n - (n - i)));
            assert(n - (n - i) == i);
            assert(k as int == best(ws, w, last, i as int).1);
        }
        let line = vstd::slice::slice_subrange(text, i, i + k);
        let ghost before = paragraph@.map_values(|l: &'a [Word]| l@);
        paragraph.push(line);
        proof {
            let rest = chosen(ws, w, last, i + k);
            assert(chosen(ws, w, last, i as int) == seq![k as int] + rest);
            assert((seq![k as int] + rest).drop_first() == rest);
            assert(paragraph@.map_values(|l: &'a [Word]| l@) == before.push(line@));
            assert(lines_from(ws, seq![k as int] + rest, i as int) == seq![line@] + lines_from(
                ws,
                rest,
                i + k,
            ));
            assert(before.push(line@) + lines_from(ws, rest, i + k) == before + (seq![line@]
                + lines_from(ws, rest, i + k)));
        }
        i = i + k;
    }
    proof {
        assert(lines_from(ws, chosen(ws, w, last, n as int), n as int) == Seq::<Seq<Word>>::empty());
        assert(paragraph@.map_values(|l: &'a [Word]| l@) + Seq::<Seq<Word>>::empty()
            == paragraph@.map_values(|l: &'a [Word]| l@));
    }
    Paragraph { paragraph, maxwidth: width }
}

} // verus!
